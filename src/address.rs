use vstd::prelude::*;

verus! {

/// Number of bytes in one page.
pub const PAGE_SIZE: usize = 4096;

/// The page that holds byte address `va`.
pub open spec fn vpn_floor(va: int) -> int {
    va / PAGE_SIZE as int
}

/// The first page boundary at or above `va`, as a page number.
pub open spec fn vpn_ceil(va: int) -> int {
    (va + PAGE_SIZE as int - 1) / PAGE_SIZE as int
}

/// Rounds an address down to its page number.
pub fn floor_page(va: usize) -> (r: usize)
    ensures
        r as int == vpn_floor(va as int),
{
    va / PAGE_SIZE
}

/// Rounds an address up to the next page boundary, as a page number.
pub fn ceil_page(va: usize) -> (r: usize)
    ensures
        r as int == vpn_ceil(va as int),
        r as int * PAGE_SIZE as int <= usize::MAX as int + 1,
{
    let q = va / PAGE_SIZE;
    if va % PAGE_SIZE == 0 {
        q
    } else {
        q + 1
    }
}

/// The address of the first byte of page `vpn`.
pub fn page_base(vpn: usize) -> (r: usize)
    requires
        vpn as int * PAGE_SIZE as int <= usize::MAX as int,
    ensures
        r as int == vpn as int * PAGE_SIZE as int,
{
    vpn * PAGE_SIZE
}

} // verus!
