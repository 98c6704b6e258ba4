use vstd::prelude::*;

verus! {

/// `rand::random::<u64>()`: sixty-four bits from the thread's generator.
/// Nothing is claimed of the bits.
#[verifier::external_body]
pub(crate) fn random_bits() -> (bits: u64) {
    rand::random::<u64>()
}

/// The index that `bits`, read as a fraction of two to the sixty-fourth,
/// selects among `len` items.
pub open spec fn spec_scale(bits: u64, len: usize) -> int {
    (bits as int * len as int) / 0x1_0000_0000_0000_0000int
}

/// Spreads sixty-four bits evenly over the indices below `len`.
pub fn scale(bits: u64, len: usize) -> (index: usize)
    requires
        len > 0,
    ensures
        index == spec_scale(bits, len),
        index < len,
{
    assert((bits as int) * (len as int) <= u128::MAX && (bits as int) * (len as int)
        < 0x1_0000_0000_0000_0000int * (len as int)) by (nonlinear_arith)
        requires
            0 <= bits < 0x1_0000_0000_0000_0000int,
            0 < len <= 0xffff_ffff_ffff_ffffint,
    ;
    let wide = (bits as u128) * (len as u128);
    let index = wide / 0x1_0000_0000_0000_0000u128;
    assert(index < len) by (nonlinear_arith)
        requires
            index == wide / 0x1_0000_0000_0000_0000u128,
            wide < 0x1_0000_0000_0000_0000int * (len as int),
    ;
    index as usize
}

/// An index below `len`, chosen at random.
pub fn random_index(len: usize) -> (index: usize)
    requires
        len > 0,
    ensures
        index < len,
{
    scale(random_bits(), len)
}

} // verus!
