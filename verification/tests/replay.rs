//! Hashes of states and their records.

use vxl_phys::body::BodySet;
use vxl_phys::replay::{Fnv1aHash, Hasher, Recorder, StateHash};
use vxl_phys::scalar::{Quat, Scalar, Vec3};
use vxl_phys::vehicle::{VehicleConfig, VehiclePreset};

fn bits(v: f32) -> Scalar {
    Scalar { bits: v.to_bits() }
}

fn vec3(x: f32, y: f32, z: f32) -> Vec3 {
    Vec3 { x: bits(x), y: bits(y), z: bits(z) }
}

fn upright() -> Quat {
    Quat { x: bits(0.0), y: bits(0.0), z: bits(0.0), w: bits(1.0) }
}

#[test]
fn identical_states_hash_equal() {
    let build = || {
        let mut b = BodySet::new();
        b.push(true, vec3(1.0, 2.0, 3.0), upright());
        b.push(false, vec3(0.0, 0.0, 0.0), upright());
        b
    };
    let (a, c) = (build(), build());
    assert_eq!(Fnv1aHash.hash_bodies(&a), Fnv1aHash.hash_bodies(&c));
}

#[test]
fn perturbed_state_hash_differs() {
    let build = || {
        let mut b = BodySet::new();
        b.push(true, vec3(0.0, 0.0, 0.0), upright());
        b
    };
    let a = build();
    let mut c = build();
    c.position[0].y = bits(f32::from_bits(c.position[0].y.bits) + 1e-9);
    assert_ne!(Fnv1aHash.hash_bodies(&a), Fnv1aHash.hash_bodies(&c));
}

#[test]
fn recorder_period() {
    let mut r = Recorder::new(60);
    for t in 1..=180 {
        r.observe(t, t);
    }
    assert_eq!(r.hashes.len(), 3);
    assert_eq!(r.hashes[0], (60, 60));
}

/// A period of zero records every tick, and records differ by their entries.
#[test]
fn recorders_are_compared_by_their_entries() {
    let mut a = Recorder::new(0);
    let mut b = Recorder::new(1);
    a.observe(3, 7);
    assert!(!a.matches(&b));
    b.observe(3, 7);
    assert!(a.matches(&b));
    b.observe(4, 7);
    a.observe(4, 8);
    assert!(!a.matches(&b));
    assert_eq!(a.hashes, vec![(3, 7), (4, 8)]);
}

/// The hash of known bytes.
#[test]
fn hashes_of_known_bytes() {
    assert_eq!(Hasher::new().finish(), 0xcbf2_9ce4_8422_2325);
    let mut h = Hasher::new();
    h.push(b"a");
    assert_eq!(h.finish(), 0xaf63_dc4c_8601_ec8c);
    let mut h = Hasher::new();
    h.push(b"foo");
    h.push(b"bar");
    assert_eq!(h.finish(), 0x8594_4171_f739_67e8);
    let mut h = Hasher::new();
    h.push_scalar(Scalar { bits: 0x6261_7266 });
    let mut g = Hasher::new();
    g.push(b"frab");
    assert_eq!(h.finish(), g.finish());
}

/// Every part of a body counts.
#[test]
fn hashes_see_every_part() {
    let build = || {
        let mut b = BodySet::new();
        b.push(true, vec3(1.0, 2.0, 3.0), upright());
        b.push(false, vec3(4.0, 5.0, 6.0), upright());
        b
    };
    let h = Fnv1aHash.hash_bodies(&build());
    let changed = |f: &dyn Fn(&mut BodySet)| {
        let mut b = build();
        f(&mut b);
        Fnv1aHash.hash_bodies(&b) != h
    };
    assert!(changed(&|b| b.linvel[0].x = bits(1.0)));
    assert!(changed(&|b| b.angvel[0].z = bits(1.0)));
    assert!(changed(&|b| b.rotation[0].w = bits(0.5)));
    assert!(changed(&|b| b.position[0].z = bits(-3.0)));
}

#[test]
fn gear_ratios_monotonic_down() {
    let d = VehicleConfig::default().drivetrain;
    for w in d.gear_ratios.windows(2) {
        assert!(f32::from_bits(w[0].bits) > f32::from_bits(w[1].bits));
    }
}

/// The numbers of the arcade car.
#[test]
fn arcade_car() {
    let v = VehicleConfig::default();
    assert!(matches!(v.preset, VehiclePreset::Arcade));
    assert_eq!(v.suspension.stiffness, bits(30000.0));
    assert_eq!(v.suspension.rest_length, bits(0.5));
    assert_eq!(v.tire.mu_peak, bits(1.2));
    assert_eq!(v.drivetrain.gear_ratios[0], bits(3.6));
    assert_eq!(v.drivetrain.max_engine_torque, bits(400.0));
    assert_eq!(v.drift_slip_angle_threshold, bits(0.35));
}
