use vstd::prelude::*;

verus! {

/// `size` workers can be spread over channels of `wpc` workers each.
pub open spec fn wpc_divides(size: nat, wpc: nat) -> bool {
    wpc > 0 && size % wpc == 0
}

/// Checks that `size` workers split into channels of `wpc` workers each.
/// Callers must ensure it: the pool is laid out as `size / wpc` channels.
pub fn assert_wpc(size: usize, wpc: usize)
    requires
        wpc_divides(size as nat, wpc as nat),
{
    assert(size % wpc == 0);
}

} // verus!
