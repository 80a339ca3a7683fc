//! Vehicle parameters.

use crate::scalar::Scalar;
use vstd::prelude::*;

verus! {

/// How a vehicle is meant to handle.
#[derive(Clone, Copy, Debug, PartialEq, Eq, Structural)]
pub enum VehiclePreset {
    Arcade,
    Realistic,
}

/// Spring and damper of a wheel.
#[derive(Clone, Copy, Debug, PartialEq, Eq, Structural)]
pub struct Suspension {
    pub stiffness: Scalar,
    pub damping: Scalar,
    pub travel: Scalar,
    pub rest_length: Scalar,
}

/// A brush tire.
#[derive(Clone, Copy, Debug, PartialEq, Eq, Structural)]
pub struct BrushTire {
    pub peak_slip_angle: Scalar,
    pub load_sensitivity: Scalar,
    pub peak_slip_ratio: Scalar,
    pub mu_peak: Scalar,
    pub mu_slide: Scalar,
}

/// Gearbox, differential and engine.
#[derive(Clone, Copy, Debug)]
pub struct Drivetrain {
    pub gear_ratios: [Scalar; 6],
    pub final_drive: Scalar,
    pub lsd_coefficient: Scalar,
    pub max_engine_torque: Scalar,
}

/// The parameters of a vehicle.
#[derive(Clone, Copy, Debug)]
pub struct VehicleConfig {
    pub preset: VehiclePreset,
    pub suspension: Suspension,
    pub tire: BrushTire,
    pub drivetrain: Drivetrain,
    pub drift_slip_angle_threshold: Scalar,
    pub drift_aligning_torque: Scalar,
}

/// Each gear has a smaller ratio than the one before.
pub open spec fn gears_descend(ratios: Seq<Scalar>) -> bool {
    forall|i: int| 0 <= i < ratios.len() - 1 ==> ratios[i + 1].lt_spec(#[trigger] ratios[i])
}

impl Default for VehicleConfig {
    /// An arcade car.
    fn default() -> (r: VehicleConfig)
        ensures
            r.preset == VehiclePreset::Arcade,
            r.suspension == (Suspension {
                stiffness: Scalar { bits: 0x46ea_6000 },
                damping: Scalar { bits: 0x453b_8000 },
                travel: Scalar { bits: 0x3e80_0000 },
                rest_length: Scalar { bits: 0x3f00_0000 },
            }),
            r.tire == (BrushTire {
                peak_slip_angle: Scalar { bits: 0x3e19_999a },
                load_sensitivity: Scalar { bits: 0x3f4c_cccd },
                peak_slip_ratio: Scalar { bits: 0x3e19_999a },
                mu_peak: Scalar { bits: 0x3f99_999a },
                mu_slide: Scalar { bits: 0x3f66_6666 },
            }),
            r.drivetrain.gear_ratios@ == seq![
                Scalar { bits: 0x4066_6666 },
                Scalar { bits: 0x400c_cccd },
                Scalar { bits: 0x3fc0_0000 },
                Scalar { bits: 0x3f8c_cccd },
                Scalar { bits: 0x3f66_6666 },
                Scalar { bits: 0x3f40_0000 },
            ],
            r.drivetrain.final_drive == (Scalar { bits: 0x406c_cccd }),
            r.drivetrain.lsd_coefficient == (Scalar { bits: 0x3e99_999a }),
            r.drivetrain.max_engine_torque == (Scalar { bits: 0x43c8_0000 }),
            r.drift_slip_angle_threshold == (Scalar { bits: 0x3eb3_3333 }),
            r.drift_aligning_torque == (Scalar { bits: 0x3f80_0000 }),
            gears_descend(r.drivetrain.gear_ratios@),
    {
        let r = VehicleConfig {
            preset: VehiclePreset::Arcade,
            suspension: Suspension {
                stiffness: Scalar { bits: 0x46ea_6000 },
                damping: Scalar { bits: 0x453b_8000 },
                travel: Scalar { bits: 0x3e80_0000 },
                rest_length: Scalar { bits: 0x3f00_0000 },
            },
            tire: BrushTire {
                peak_slip_angle: Scalar { bits: 0x3e19_999a },
                load_sensitivity: Scalar { bits: 0x3f4c_cccd },
                peak_slip_ratio: Scalar { bits: 0x3e19_999a },
                mu_peak: Scalar { bits: 0x3f99_999a },
                mu_slide: Scalar { bits: 0x3f66_6666 },
            },
            drivetrain: Drivetrain {
                gear_ratios: [
                    Scalar { bits: 0x4066_6666 },
                    Scalar { bits: 0x400c_cccd },
                    Scalar { bits: 0x3fc0_0000 },
                    Scalar { bits: 0x3f8c_cccd },
                    Scalar { bits: 0x3f66_6666 },
                    Scalar { bits: 0x3f40_0000 },
                ],
                final_drive: Scalar { bits: 0x406c_cccd },
                lsd_coefficient: Scalar { bits: 0x3e99_999a },
                max_engine_torque: Scalar { bits: 0x43c8_0000 },
            },
            drift_slip_angle_threshold: Scalar { bits: 0x3eb3_3333 },
            drift_aligning_torque: Scalar { bits: 0x3f80_0000 },
        };
        assert(r.drivetrain.gear_ratios@ =~= seq![
            Scalar { bits: 0x4066_6666 },
            Scalar { bits: 0x400c_cccd },
            Scalar { bits: 0x3fc0_0000 },
            Scalar { bits: 0x3f8c_cccd },
            Scalar { bits: 0x3f66_6666 },
            Scalar { bits: 0x3f40_0000 },
        ]);
        r
    }
}

} // verus!
