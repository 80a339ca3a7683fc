//! What stored hulls and compounds promise.

use crate::narrow::DefaultNarrowPhase;
use crate::scalar::{Scalar, Vec3};
use crate::select::{indices_where, lemma_indices_where};
use crate::splat::{export_splats, GaussianSplatField, Splat};
use crate::store::{
    farthest_at, simple, sums_of, CapsuleSupport, CompoundChild, CompoundStore, ConvexHull, HullStore,
    PrismSupport,
};
use crate::vehicle::VehicleConfig;
use vstd::prelude::*;

verus! {

/// The point of a hull along a direction is the first of the farthest ones.
pub proof fn hulls_give_their_farthest_point(hull: &ConvexHull, dots: &[Scalar], p: Vec3)
    requires
        hull.points@.len() > 0,
        dots@.len() == hull.points@.len(),
        call_ensures(ConvexHull::support_point, (hull, dots), p),
        !dots@[0].is_nan_spec(),
    ensures
        exists|k: int|
            #![trigger hull.points@[k]]
            {
                &&& 0 <= k < hull.points@.len()
                &&& p == hull.points@[k]
                &&& forall|j: int|
                    #![trigger dots@[j]]
                    0 <= j < dots@.len() && !dots@[j].is_nan_spec() ==> dots@[j].le_spec(dots@[k]) && (
                    j < k ==> dots@[j].lt_spec(dots@[k]))
            },
{
    let k = choose|k: int| #[trigger] farthest_at(dots@, k) && p == hull.points@[k];
    assert(p == hull.points@[k]);
    assert(dots@[k] == dots@[k]);
}

/// A stored hull is read back under its number with all its points; the ones stored before
/// stay, and its centre is the sum of its points divided by how many they are.
pub proof fn hulls_are_read_back<A: Fn(Vec3, Vec3) -> Vec3, D: Fn(Vec3, usize) -> Vec3>(
    store: &mut HullStore,
    points: Vec<Vec3>,
    plus: &A,
    over: &D,
    id: u32,
    j: u32,
    before: Option<&ConvexHull>,
    after: Option<&ConvexHull>,
)
    requires
        old(store).hulls@.len() < u32::MAX,
        call_ensures(HullStore::add::<A, D>, (store, points, plus, over), id),
        call_ensures(HullStore::get, (&*old(store), j), before),
        call_ensures(HullStore::get, (&*final(store), j), after),
    ensures
        id == old(store).hulls@.len(),
        j < id ==> after == before && after is Some,
        j == id ==> after is Some && after.unwrap().points@ == points@,
        j > id ==> after is None,
        exists|sums: Seq<Vec3>|
            #![trigger sums.len()]
            {
                &&& sums.len() == points@.len() + 1
                &&& sums[0].x.bits == 0 && sums[0].y.bits == 0 && sums[0].z.bits == 0
                &&& forall|i: int|
                    #![trigger points@[i]]
                    0 <= i < points@.len() ==> plus.ensures((sums[i], points@[i]), sums[i + 1])
                &&& points@.len() > 0 ==> over.ensures(
                    (sums.last(), points@.len() as usize),
                    final(store).hulls@[id as int].centroid,
                )
            },
{
    if j < id {
        assert(final(store).hulls@.drop_last()[j as int] == old(store).hulls@[j as int]);
    }
    let sums = choose|sums: Seq<Vec3>| #[trigger]
        sums_of(*plus, points@, sums) && over.ensures(
            (
                sums[points@.len() as int],
                if points@.len() == 0 {
                    1usize
                } else {
                    points@.len() as usize
                },
            ),
            final(store).hulls@[id as int].centroid,
        );
    assert(sums.len() == points@.len() + 1);
}

/// A stored compound has exactly those children that are no compounds, in their order; the
/// ones stored before stay.
pub proof fn compounds_keep_simple_children(
    store: &mut CompoundStore,
    children: Vec<CompoundChild>,
    id: u32,
)
    requires
        old(store).items@.len() < u32::MAX,
        call_ensures(CompoundStore::add, (store, children), id),
    ensures
        id == old(store).items@.len(),
        final(store).items@.len() == id + 1,
        forall|i: int|
            0 <= i < old(store).items@.len() ==> #[trigger] final(store).items@[i] == old(store).items@[i],
        exists|from: Seq<int>|
            #![trigger from.len()]
            {
                let kids = final(store).items@[id as int]@;
                &&& from.len() == kids.len()
                &&& forall|x: int, y: int|
                    #![trigger from[x], from[y]]
                    0 <= x < y < from.len() ==> from[x] < from[y]
                &&& forall|x: int|
                    #![trigger from[x]]
                    0 <= x < from.len() ==> 0 <= from[x] < children@.len() && kids[x]
                        == children@[from[x]]
                &&& forall|i: int|
                    #![trigger children@[i]]
                    0 <= i < children@.len() ==> (from.contains(i) <==> !(
                    children@[i].shape is Compound))
            },
{
    let p = simple(children@);
    let from = indices_where(p, children@.len());
    lemma_indices_where(p, children@.len());
    let kids = final(store).items@[id as int]@;
    assert(from.len() == kids.len());
    assert forall|i: int| #![trigger children@[i]] 0 <= i < children@.len() implies (from.contains(i)
        <==> !(children@[i].shape is Compound)) by {
        crate::select::lemma_indices_where_contains(p, children@.len(), i);
        assert(p(i) == !(children@[i].shape is Compound));
    }
    assert forall|i: int| 0 <= i < old(store).items@.len() implies #[trigger] final(store).items@[i]
        == old(store).items@[i] by {
        assert(final(store).items@.drop_last()[i] == old(store).items@[i]);
    }
}

/// The narrow phase reads stored geometry back by its number, and nothing under an unknown
/// one.
pub proof fn stored_geometry_is_read_back(
    np: &DefaultNarrowPhase,
    id: u32,
    points: &[Vec3],
    kids: Vec<CompoundChild>,
)
    requires
        call_ensures(DefaultNarrowPhase::hull_points, (np, id), points),
        call_ensures(DefaultNarrowPhase::compound_children, (np, id), kids),
    ensures
        id < np.hulls.hulls@.len() ==> points@ == np.hulls.hulls@[id as int].points@,
        id >= np.hulls.hulls@.len() ==> points@.len() == 0,
        id < np.compounds.items@.len() ==> kids@ == np.compounds.items@[id as int]@,
        id >= np.compounds.items@.len() ==> kids@.len() == 0,
{
}

/// The end of a capsule's segment, and the point of a prism or cone, along a direction: up
/// if it does not point down; a cone has its tip unless its base is farther.
pub proof fn supports_lie_on_the_side_of_the_direction(
    capsule: &CapsuleSupport,
    dir: Vec3,
    end: Vec3,
    prism: &PrismSupport,
    rim: (Scalar, Scalar),
    tip: Scalar,
    base: Scalar,
    p: Vec3,
)
    requires
        call_ensures(CapsuleSupport::segment_end, (capsule, dir), end),
        call_ensures(PrismSupport::support_at, (prism, dir, rim, tip, base), p),
    ensures
        ({
            let up = dir.y.bits <= 0x7f80_0000 || dir.y.bits == 0x8000_0000;
            &&& end.x.bits == 0 && end.z.bits == 0
            &&& up ==> end.y == capsule.half_height
            &&& !up ==> end.y == capsule.half_height.neg_spec()
            &&& !prism.cone ==> p.x == rim.0 && p.z == rim.1
            &&& !prism.cone && up ==> p.y == prism.half_height
            &&& !prism.cone && !up ==> p.y == prism.half_height.neg_spec()
            &&& prism.cone && base.le_spec(tip) ==> p.x.bits == 0 && p.z.bits == 0 && p.y
                == prism.half_height
            &&& prism.cone && !base.le_spec(tip) ==> p.x == rim.0 && p.z == rim.1 && p.y
                == prism.half_height.neg_spec()
        }),
{
}

/// A round splat is as large along every axis and unturned; a field keeps its splats in
/// order, and exporting copies all of them.
pub proof fn splats_are_kept_in_order(
    center: Vec3,
    radius: Scalar,
    opacity: Scalar,
    s: Splat,
    field: &mut GaussianSplatField,
    t: Splat,
    out: &mut Vec<Splat>,
)
    requires
        call_ensures(Splat::isotropic, (center, radius, opacity), s),
        call_ensures(GaussianSplatField::push, (field, t), ()),
        call_ensures(export_splats, (&*final(field), out), ()),
    ensures
        s.center == center,
        s.scale.x == radius && s.scale.y == radius && s.scale.z == radius,
        s.opacity == opacity,
        s.rot@[0].x.bits == 0x3f80_0000 && s.rot@[1].y.bits == 0x3f80_0000 && s.rot@[2].z.bits
            == 0x3f80_0000,
        s.rot@[0].y.bits == 0 && s.rot@[1].x.bits == 0 && s.rot@[2].x.bits == 0,
        final(field).splats@ == old(field).splats@.push(t),
        final(field).iso == old(field).iso,
        final(out)@ == old(field).splats@.push(t),
{
}

/// The preset of a car: gears go from slow to fast, a sliding tyre grips less than one at
/// its peak, and drifting starts beyond the peak of grip.
pub proof fn the_preset_car_is_sound(r: VehicleConfig, i: int)
    requires
        call_ensures(<VehicleConfig as Default>::default, (), r),
        0 <= i < 5,
    ensures
        r.drivetrain.gear_ratios@.len() == 6,
        r.drivetrain.gear_ratios@[i + 1].lt_spec(r.drivetrain.gear_ratios@[i]),
        r.tire.mu_slide.lt_spec(r.tire.mu_peak),
        r.tire.peak_slip_angle.lt_spec(r.drift_slip_angle_threshold),
        r.suspension.travel.lt_spec(r.suspension.rest_length),
        r.suspension.stiffness.bits == 0x46ea_6000,
        r.suspension.damping.bits == 0x453b_8000,
        r.drivetrain.max_engine_torque.bits == 0x43c8_0000,
        r.drivetrain.final_drive.bits == 0x406c_cccd,
{
    assert(r.drivetrain.gear_ratios@[i] == r.drivetrain.gear_ratios@[i]);
}

} // verus!
