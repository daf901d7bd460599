//! Hash lanes: the fixed-width unsigned integers that a keyed hash is split
//! into, and the modular arithmetic that turns two lanes and a displacement
//! pair into a table slot.
use vstd::prelude::*;

verus! {

/// One lane of a hash triple.
pub type Lane = u16;

/// The three lanes derived from one keyed-hash evaluation: the first selects
/// the bucket, the other two feed the displacement function.
pub type Hashes = (Lane, Lane, Lane);

/// A per-bucket displacement pair.
pub type Displacement = (Lane, Lane);

/// Largest lane value, which is also the largest table a map can have.
pub const LANE_MAX: usize = 0xFFFF;

/// `f1 * d1 + f2 + d2`, reduced modulo the lane width.
pub open spec fn spec_displace(f1: Lane, f2: Lane, d1: Lane, d2: Lane) -> Lane {
    ((f1 as int * d1 as int + f2 as int + d2 as int) % 0x1_0000) as Lane
}

/// The low lane-width bits of a table position.
pub open spec fn spec_lane_of(x: int) -> Lane {
    (x % 0x1_0000) as Lane
}

/// The slot, in a table of `table_len` positions, of a key with secondary
/// lanes `h.1` and `h.2` under the displacement pair `d`.
pub open spec fn spec_slot(h: Hashes, d: Displacement, table_len: int) -> int
    recommends
        table_len > 0,
{
    spec_displace(h.1, h.2, d.0, d.1) as int % table_len
}

/// The bucket, out of `num_buckets`, that the primary lane selects.
pub open spec fn spec_bucket(h: Hashes, num_buckets: int) -> int
    recommends
        num_buckets > 0,
{
    h.0 as int % num_buckets
}

/// Calls `num_traits::WrappingMul::wrapping_mul` on two lanes. That method
/// forwards to the primitive `u16::wrapping_mul`, so the result is the product
/// reduced modulo 2^16.
#[verifier::external_body]
fn lane_wrapping_mul(a: Lane, b: Lane) -> (r: Lane)
    ensures
        r as int == (a as int * b as int) % 0x1_0000,
{
    num_traits::WrappingMul::wrapping_mul(&a, &b)
}

/// Calls `num_traits::WrappingAdd::wrapping_add` on two lanes. That method
/// forwards to the primitive `u16::wrapping_add`, so the result is the sum
/// reduced modulo 2^16.
#[verifier::external_body]
fn lane_wrapping_add(a: Lane, b: Lane) -> (r: Lane)
    ensures
        r as int == (a as int + b as int) % 0x1_0000,
{
    num_traits::WrappingAdd::wrapping_add(&a, &b)
}

/// Calls `usize_cast::IntoUsize::into_usize` on a lane: a widening cast that
/// keeps the value.
#[verifier::external_body]
pub(crate) fn lane_into_usize(x: Lane) -> (r: usize)
    ensures
        r == x,
{
    usize_cast::IntoUsize::into_usize(x)
}

/// Calls `num_traits::AsPrimitive::as_` from `usize` to a lane: a primitive
/// `as` cast, which keeps the low 16 bits.
#[verifier::external_body]
pub(crate) fn lane_from_usize(x: usize) -> (r: Lane)
    ensures
        r == spec_lane_of(x as int),
{
    num_traits::AsPrimitive::<Lane>::as_(x)
}

/// Calls `num_traits::bounds::UpperBounded::max_value` for the lane type,
/// which returns `u16::MAX`.
#[verifier::external_body]
pub(crate) fn lane_max_value() -> (r: Lane)
    ensures
        r == 0xFFFF,
{
    <Lane as num_traits::bounds::UpperBounded>::max_value()
}

/// Calls `num_traits::Zero::zero` for the lane type, which returns 0.
#[verifier::external_body]
pub(crate) fn lane_zero() -> (r: Lane)
    ensures
        r == 0,
{
    <Lane as num_traits::Zero>::zero()
}

/// The displacement function: `f1 * d1 + f2 + d2` in wraparound arithmetic.
pub fn displace(f1: Lane, f2: Lane, d1: Lane, d2: Lane) -> (r: Lane)
    ensures
        r == spec_displace(f1, f2, d1, d2),
{
    let p: Lane = lane_wrapping_mul(f1, d1);
    let q: Lane = lane_wrapping_add(p, f2);
    let r: Lane = lane_wrapping_add(q, d2);
    proof {
        let x: int = f1 as int * d1 as int;
        assert(((x % 0x1_0000 + f2 as int) % 0x1_0000 + d2 as int) % 0x1_0000 == (x + f2 as int
            + d2 as int) % 0x1_0000);
    }
    r
}

} // verus!
