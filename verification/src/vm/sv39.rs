//! Sv39 virtual address layout: the table index of an address at each level.
use vstd::prelude::*;

verus! {

/// Bytes covered by one entry of a table at `level`.
pub open spec fn level_span(level: int) -> int {
    if level == 0 {
        0x1000
    } else if level == 1 {
        0x20_0000
    } else {
        0x4000_0000
    }
}

/// Index of the entry for `va` in the table at `level` (0, 1 or 2).
#[verifier::opaque]
pub open spec fn spec_vpn(va: u64, level: int) -> int {
    (va as int / level_span(level)) % 512
}

/// Every table index is one of the 512 entries of a table.
pub broadcast proof fn lemma_vpn_bounds(va: u64, level: int)
    ensures
        0 <= #[trigger] spec_vpn(va, level) < 512,
{
    reveal(spec_vpn);
}

/// Two addresses below `VA_TOP` are on the same page exactly when their
/// three table indices agree.
pub proof fn lemma_vpn_page(a: u64, b: u64)
    requires
        a < 0x80_0000_0000,
        b < 0x80_0000_0000,
    ensures
        (a / 4096 == b / 4096) <==> (spec_vpn(a, 2) == spec_vpn(b, 2) && spec_vpn(a, 1) == spec_vpn(
            b,
            1,
        ) && spec_vpn(a, 0) == spec_vpn(b, 0)),
{
    reveal(spec_vpn);
    assert(a / 4096 == ((a / 0x4000_0000) % 512) * 0x40000 + ((a / 0x20_0000) % 512) * 512 + (a
        / 4096) % 512) by (bit_vector)
        requires
            a < 0x80_0000_0000,
    ;
    assert(b / 4096 == ((b / 0x4000_0000) % 512) * 0x40000 + ((b / 0x20_0000) % 512) * 512 + (b
        / 4096) % 512) by (bit_vector)
        requires
            b < 0x80_0000_0000,
    ;
    assert((a / 4096) / 512 == a / 0x20_0000) by (bit_vector);
    assert((a / 4096) / 0x40000 == a / 0x4000_0000) by (bit_vector);
    assert((b / 4096) / 512 == b / 0x20_0000) by (bit_vector);
    assert((b / 4096) / 0x40000 == b / 0x4000_0000) by (bit_vector);
}

} // verus!
