//! Model-specific registers: what the guest state of a virtual machine
//! takes from the host's MSRs, such as EFER. Reading them is the caller's.
use vstd::prelude::*;

verus! {

/// The value of a model-specific register from the two halves `rdmsr`
/// reads: `lo` (EAX) holds its low 32 bits and `hi` (EDX) its high 32 bits.
pub fn msr_value(lo: u32, hi: u32) -> (r: u64)
    ensures
        r == lo as int + hi as int * 0x1_0000_0000,
{
    let l = lo as u64;
    let h = hi as u64;
    let r = l | (h << 32u64);
    assert(r == l + h * 0x1_0000_0000) by (bit_vector)
        requires
            l <= 0xffff_ffff,
            h <= 0xffff_ffff,
            r == l | (h << 32u64),
    ;
    r
}

} // verus!
