//! Names of contact features that stay the same from one step to the next.
//!
//! The top bit tells on which body the incident face lies, the next one whether
//! the point comes from clipping an edge; the rest names a vertex or mixes the
//! edge with the clipping plane. Zero names nothing.

use vstd::prelude::*;

verus! {

/// Set when the incident face belongs to the second body.
pub const FEAT_SIDE_B: u32 = 0x8000_0000;

/// Set when the point was made by clipping.
pub const FEAT_CLIPPED: u32 = 0x4000_0000;

/// Everything but the two kind bits.
pub const FEAT_HASH_MASK: u32 = 0x3fff_ffff;

/// A multiplication that keeps the low 32 bits.
pub open spec fn wrapping_product(a: u32, b: u32) -> u32 {
    ((a * b) % 0x1_0000_0000) as u32
}

/// The name of the point where the edge from `fa` to `fb` crosses side plane `k`.
pub open spec fn feat_intersect_spec(fa: u32, fb: u32, k: u32) -> u32 {
    FEAT_CLIPPED | ((wrapping_product(fa, 73_856_093) ^ wrapping_product(fb, 19_349_663)
        ^ wrapping_product(k, 83_492_791)) & FEAT_HASH_MASK)
}

/// Names the point where the edge from `fa` to `fb` crosses side plane `k`.
pub fn feat_intersect(fa: u32, fb: u32, k: usize) -> (f: u32)
    ensures
        f == feat_intersect_spec(fa, fb, k as u32),
        !feature_kind_spec(f).0,
        feature_kind_spec(f).1,
{
    let h: u32 = fa.wrapping_mul(73_856_093) ^ fb.wrapping_mul(19_349_663) ^ (
    k as u32).wrapping_mul(83_492_791);
    let f: u32 = FEAT_CLIPPED | (h & FEAT_HASH_MASK);
    assert((0x4000_0000u32 | (h & 0x3fff_ffffu32)) & 0x8000_0000u32 == 0) by (bit_vector);
    assert((0x4000_0000u32 | (h & 0x3fff_ffffu32)) & 0x4000_0000u32 != 0) by (bit_vector);
    f
}

/// Whether the incident face is on the second body, and whether the point was
/// made by clipping.
pub open spec fn feature_kind_spec(f: u32) -> (bool, bool) {
    (f & FEAT_SIDE_B != 0, f & FEAT_CLIPPED != 0)
}

/// Whether the incident face is on the second body, and whether the point was
/// made by clipping.
pub fn feature_kind(f: u32) -> (r: (bool, bool))
    ensures
        r == feature_kind_spec(f),
{
    (f & FEAT_SIDE_B != 0, f & FEAT_CLIPPED != 0)
}

/// The name without its kind bits.
pub open spec fn feature_hash_part_spec(f: u32) -> u32 {
    f & FEAT_HASH_MASK
}

/// The name without its kind bits.
pub fn feature_hash_part(f: u32) -> (r: u32)
    ensures
        r == feature_hash_part_spec(f),
{
    f & FEAT_HASH_MASK
}

/// The kind and the hash part together determine the name.
pub proof fn kind_and_hash_determine_feature(f: u32, g: u32)
    ensures
        (feature_kind_spec(f) == feature_kind_spec(g) && feature_hash_part_spec(f)
            == feature_hash_part_spec(g)) <==> f == g,
{
    assert(((f & 0x8000_0000u32 != 0) == (g & 0x8000_0000u32 != 0) && (f & 0x4000_0000u32 != 0)
        == (g & 0x4000_0000u32 != 0) && f & 0x3fff_ffffu32 == g & 0x3fff_ffffu32) ==> f == g)
        by (bit_vector);
}

/// The tag that child shape `ci` of a compound puts on its features.
pub open spec fn child_tag(ci: u32) -> u32 {
    (((ci + 1) % 0x1_0000) * 0x1_0000) as u32
}

/// The feature `f` as seen in the compound.
pub open spec fn tagged_feature(f: u32, ci: u32) -> u32 {
    f | child_tag(ci)
}

/// A tagged feature keeps the low half of the feature, and its high half is
/// never zero for the children that the tag can tell apart.
pub proof fn tagging_keeps_low_half(f: u32, ci: u32)
    ensures
        tagged_feature(f, ci) & 0xffff == f & 0xffff,
        ci < 0xffff ==> tagged_feature(f, ci) >> 16 != 0,
{
    let c = (((ci + 1) % 0x1_0000) as u32);
    assert(c < 0x1_0000 ==> c << 16 == c * 0x1_0000) by (bit_vector);
    assert((f | (c << 16)) & 0xffffu32 == f & 0xffffu32) by (bit_vector);
    assert(0 < c < 0x1_0000 ==> (f | (c << 16)) >> 16 != 0) by (bit_vector);
}

/// Features that use only the low half never meet across two children.
pub proof fn children_have_disjoint_features(f: u32, g: u32, ci: u32, cj: u32)
    requires
        f < 0x1_0000,
        g < 0x1_0000,
        ci < 0xffff,
        cj < 0xffff,
    ensures
        tagged_feature(f, ci) == tagged_feature(g, cj) <==> (f == g && ci == cj),
{
    let c = (ci + 1) as u32;
    let d = (cj + 1) as u32;
    assert(c < 0x1_0000 ==> c << 16 == c * 0x1_0000) by (bit_vector);
    assert(d < 0x1_0000 ==> d << 16 == d * 0x1_0000) by (bit_vector);
    assert(f < 0x1_0000 && g < 0x1_0000 && c < 0x1_0000 && d < 0x1_0000 && (f | (c << 16)) == (g | (
    d << 16)) ==> f == g && c == d) by (bit_vector);
}

} // verus!
