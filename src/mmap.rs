//! Page-aligned mapping and unmapping in a process address space.
use vstd::prelude::*;
use crate::config::PAGE_SIZE;
use crate::mm::{vpn_ceil, vpn_of, vpn_range, zero_page, MemorySet, MAP_U, PTE_V};

verus! {

/// Entry permission bits for an mmap `port` (R=1, W=2, X=4): the port's three
/// low bits shifted into place, plus the user bit.
pub open spec fn perm_of_port(port: usize) -> u8 {
    (((port & 7) as u8) << 1u8) | MAP_U
}

/// Maps `[start, start + len)` with the permissions of `port`, unless one of
/// its pages is already mapped; true when it mapped.
pub fn mmap_page(memory_set: &mut MemorySet, start: usize, len: usize, port: usize) -> (r: bool)
    requires
        old(memory_set).wf(),
        start % PAGE_SIZE == 0,
        start + len <= usize::MAX - PAGE_SIZE,
    ensures
        final(memory_set).wf(),
        final(memory_set).root_ppn == old(memory_set).root_ppn,
        r == old(memory_set).none_mapped(vpn_of(start as int), vpn_ceil(start + len)),
        !r ==> final(memory_set).pages@ == old(memory_set).pages@,
        r ==> final(memory_set).fresh_range(
            old(memory_set),
            vpn_of(start as int),
            vpn_ceil(start + len),
            perm_of_port(port) | PTE_V,
        ),
{
    assert(port & 7 < 8) by (bit_vector);
    let flags: u8 = (((port & 7) as u8) << 1u8) | MAP_U;
    assert(flags == perm_of_port(port));
    let pages = (len + PAGE_SIZE - 1) / PAGE_SIZE;
    let first = start / PAGE_SIZE;
    proof {
        vstd::arithmetic::div_mod::lemma_fundamental_div_mod(start as int, PAGE_SIZE as int);
        assert(first + pages == vpn_ceil(start + len)) by {
            vstd::arithmetic::div_mod::lemma_hoist_over_denominator(
                len + PAGE_SIZE - 1,
                first as int,
                PAGE_SIZE as nat,
            );
        }
    }
    let mut i: usize = 0;
    while i < pages
        invariant
            i <= pages,
            first == vpn_of(start as int),
            first + pages == vpn_ceil(start + len),
            memory_set.wf(),
            *memory_set == *old(memory_set),
            forall|v: int| first <= v < first + i ==> !#[trigger] memory_set.mapped(v),
        decreases pages - i,
    {
        let vpn = first + i;
        if let Some(pte) = memory_set.translate(vpn) {
            if pte.is_valid() {
                return false;
            }
        }
        i = i + 1;
    }
    memory_set.insert_framed_area(start, start + len, flags);
    assert forall|vpn: usize|
        vpn_of(start as int) <= vpn < vpn_ceil(start + len) implies #[trigger] memory_set.pages@.contains_key(vpn)
            && memory_set.pages@[vpn].flags == perm_of_port(port) | PTE_V
            && memory_set.pages@[vpn].data@ == zero_page() by {
        assert(memory_set.pages@.contains_key(vpn));
        assert(memory_set.pages@[vpn].flags == flags | PTE_V);
    }
    true
}

/// Unmaps `[start, start + len)` if every one of its pages is mapped; true
/// when it unmapped. Nothing changes otherwise.
pub fn munmap_page(memory_set: &mut MemorySet, start: usize, len: usize) -> (r: bool)
    requires
        old(memory_set).wf(),
        start % PAGE_SIZE == 0,
        len % PAGE_SIZE == 0,
        start + len <= usize::MAX - PAGE_SIZE,
    ensures
        final(memory_set).wf(),
        final(memory_set).root_ppn == old(memory_set).root_ppn,
        r == old(memory_set).all_mapped(vpn_of(start as int), vpn_of(start + len)),
        !r ==> final(memory_set).pages@ == old(memory_set).pages@,
        r ==> final(memory_set).pages@ == old(memory_set).pages@.remove_keys(
            vpn_range(vpn_of(start as int), vpn_of(start + len)),
        ),
{
    let pages = len / PAGE_SIZE;
    let first = start / PAGE_SIZE;
    proof {
        vstd::arithmetic::div_mod::lemma_fundamental_div_mod(start as int, PAGE_SIZE as int);
        vstd::arithmetic::div_mod::lemma_fundamental_div_mod(len as int, PAGE_SIZE as int);
        assert(first + pages == vpn_of(start + len)) by {
            vstd::arithmetic::div_mod::lemma_hoist_over_denominator(
                len as int,
                first as int,
                PAGE_SIZE as nat,
            );
        }
    }
    let mut i: usize = 0;
    while i < pages
        invariant
            i <= pages,
            first == vpn_of(start as int),
            first + pages == vpn_of(start + len),
            memory_set.wf(),
            *memory_set == *old(memory_set),
            forall|v: int| first <= v < first + i ==> #[trigger] memory_set.mapped(v),
        decreases pages - i,
    {
        let vpn = first + i;
        let mut ok = false;
        if let Some(pte) = memory_set.translate(vpn) {
            if pte.is_valid() {
                ok = true;
            }
        }
        if !ok {
            return false;
        }
        i = i + 1;
    }
    memory_set.remove(start, start + len);
    true
}

} // verus!
