//! A process address space at page granularity, and kernel copies to and from
//! user memory that may straddle page boundaries.
use vstd::prelude::*;
use std::collections::BTreeMap;
use vstd::arithmetic::div_mod::lemma_fundamental_div_mod_converse;
use crate::config::PAGE_SIZE;

verus! {

broadcast use vstd::laws_cmp::group_laws_cmp;

/// Page table entry bit: the mapping is valid.
pub const PTE_V: u8 = 1;
/// Map permission: readable.
pub const MAP_R: u8 = 2;
/// Map permission: writable.
pub const MAP_W: u8 = 4;
/// Map permission: executable.
pub const MAP_X: u8 = 8;
/// Map permission: accessible from user mode.
pub const MAP_U: u8 = 16;

/// One mapped page: its entry flags and the bytes of its frame.
#[derive(Clone)]
pub struct Page {
    /// Entry flags (valid bit and permissions)
    pub flags: u8,
    /// Contents of the physical frame
    pub data: Vec<u8>,
}

/// What translating a page number yields.
#[derive(Clone, Copy, PartialEq, Eq, Structural)]
pub struct PageTableEntry {
    /// Entry flags
    pub bits: u8,
}

impl PageTableEntry {
    /// The entry maps a frame.
    pub fn is_valid(&self) -> (r: bool)
        ensures
            r == (self.bits & PTE_V != 0),
    {
        self.bits & PTE_V != 0
    }
}

/// Page number of virtual address `va`.
pub open spec fn vpn_of(va: int) -> int {
    va / PAGE_SIZE as int
}

/// First page number at or above virtual address `va`.
pub open spec fn vpn_ceil(va: int) -> int {
    (va + PAGE_SIZE - 1) / PAGE_SIZE as int
}

/// Bytes that are zero, one page of them.
pub open spec fn zero_page() -> Seq<u8> {
    Seq::new(PAGE_SIZE as nat, |i: int| 0u8)
}

/// The page table of a process with the frames it maps.
pub struct MemorySet {
    /// Physical page number of the page table root
    pub root_ppn: usize,
    /// Mapped pages by page number
    pub pages: BTreeMap<usize, Page>,
}

impl MemorySet {
    /// Every frame is one page long.
    pub open spec fn wf(&self) -> bool {
        forall|vpn: usize| #[trigger] self.pages@.contains_key(vpn) ==> self.pages@[vpn].data@.len()
            == PAGE_SIZE && self.pages@[vpn].flags & PTE_V != 0
    }

    /// Page `vpn` is mapped.
    pub open spec fn mapped(&self, vpn: int) -> bool {
        0 <= vpn <= usize::MAX && self.pages@.contains_key(vpn as usize)
    }

    /// Every page of the address range `[start, start + len)` is mapped.
    pub open spec fn range_mapped(&self, start: int, len: int) -> bool {
        forall|va: int| start <= va < start + len ==> self.mapped(#[trigger] vpn_of(va))
    }

    /// No page of `[lo, hi)` is mapped.
    pub open spec fn none_mapped(&self, lo: int, hi: int) -> bool {
        forall|vpn: int| lo <= vpn < hi ==> !#[trigger] self.mapped(vpn)
    }

    /// Every page of `[lo, hi)` is mapped.
    pub open spec fn all_mapped(&self, lo: int, hi: int) -> bool {
        forall|vpn: int| lo <= vpn < hi ==> #[trigger] self.mapped(vpn)
    }

    /// The byte at virtual address `va`, when its page is mapped.
    pub open spec fn byte_at(&self, va: int) -> u8 {
        self.pages@[vpn_of(va) as usize].data@[va % PAGE_SIZE as int]
    }

    /// The `len` bytes at `ptr`.
    pub open spec fn bytes_at(&self, ptr: int, len: nat) -> Seq<u8> {
        Seq::new(len, |k: int| self.byte_at(ptr + k))
    }

    /// Same pages mapped with the same flags.
    pub open spec fn same_mapping(&self, other: &MemorySet) -> bool {
        &&& self.pages@.dom() == other.pages@.dom()
        &&& forall|vpn: usize| #[trigger] self.pages@.contains_key(vpn) ==> self.pages@[vpn].flags
            == other.pages@[vpn].flags
    }

    /// `self` is `prev` after `bytes` were written at `ptr`: the mapping is
    /// kept, the range holds `bytes`, every other byte is kept.
    pub open spec fn wrote(&self, prev: &MemorySet, ptr: int, bytes: Seq<u8>) -> bool {
        &&& self.wf()
        &&& self.root_ppn == prev.root_ppn
        &&& self.same_mapping(prev)
        &&& forall|k: int| 0 <= k < bytes.len() ==> #[trigger] self.byte_at(ptr + k) == bytes[k]
        &&& forall|va: int|
            (va < ptr || va >= ptr + bytes.len()) && prev.mapped(vpn_of(va)) ==> #[trigger] self.byte_at(va)
                == prev.byte_at(va)
    }

    /// `self` is `prev` with the pages `[lo, hi)`, none of them mapped in
    /// `prev`, mapped to zeroed frames with entry flags `flags`.
    pub open spec fn fresh_range(&self, prev: &MemorySet, lo: int, hi: int, flags: u8) -> bool {
        &&& prev.pages@ == self.pages@.remove_keys(vpn_range(lo, hi))
        &&& forall|vpn: usize| lo <= vpn < hi ==> #[trigger] self.pages@.contains_key(vpn)
            && self.pages@[vpn].flags == flags
            && self.pages@[vpn].data@ == zero_page()
    }

    /// An address space with nothing mapped.
    pub fn new(root_ppn: usize) -> (r: Self)
        ensures
            r.wf(),
            r.root_ppn == root_ppn,
            r.pages@ == Map::<usize, Page>::empty(),
    {
        MemorySet { root_ppn, pages: BTreeMap::new() }
    }

    /// A copy of this address space with its own page table root: every
    /// mapped page keeps its flags and gets a frame holding the same bytes.
    pub fn deep_copy(&self, root_ppn: usize) -> (r: Self)
        ensures
            r.root_ppn == root_ppn,
            r.pages@ == self.pages@,
    {
        MemorySet { root_ppn, pages: self.pages.clone() }
    }

    /// Token of the page table: its root.
    pub fn token(&self) -> (r: usize)
        ensures
            r == self.root_ppn,
    {
        self.root_ppn
    }

    /// The entry of page `vpn`, if one is mapped.
    pub fn translate(&self, vpn: usize) -> (r: Option<PageTableEntry>)
        ensures
            r.is_some() == self.mapped(vpn as int),
            r matches Some(e) ==> e.bits == self.pages@[vpn].flags,
    {
        match self.pages.get(&vpn) {
            Some(p) => Some(PageTableEntry { bits: p.flags }),
            None => None,
        }
    }

    /// Maps the pages covering `[start_va, end_va)` to fresh zeroed frames
    /// with `perm` and the valid bit.
    pub fn insert_framed_area(&mut self, start_va: usize, end_va: usize, perm: u8)
        requires
            old(self).wf(),
            start_va <= end_va <= usize::MAX - PAGE_SIZE,
            old(self).none_mapped(vpn_of(start_va as int), vpn_ceil(end_va as int)),
        ensures
            final(self).wf(),
            final(self).root_ppn == old(self).root_ppn,
            forall|vpn: usize|
                vpn_of(start_va as int) <= vpn < vpn_ceil(end_va as int) ==> #[trigger] final(self).pages@.contains_key(vpn)
                    && final(self).pages@[vpn].flags == perm | PTE_V
                    && final(self).pages@[vpn].data@ == zero_page(),
            old(self).pages@ == final(self).pages@.remove_keys(
                vpn_range(vpn_of(start_va as int), vpn_ceil(end_va as int)),
            ),
    {
        let lo = start_va / PAGE_SIZE;
        let hi = (end_va + PAGE_SIZE - 1) / PAGE_SIZE;
        let mut vpn = lo;
        while vpn < hi
            invariant
                lo <= vpn <= hi,
                lo == vpn_of(start_va as int),
                hi == vpn_ceil(end_va as int),
                self.wf(),
                self.root_ppn == old(self).root_ppn,
                old(self).none_mapped(vpn_of(start_va as int), vpn_ceil(end_va as int)),
                forall|v: usize|
                    lo <= v < vpn ==> #[trigger] self.pages@.contains_key(v)
                        && self.pages@[v].flags == perm | PTE_V
                        && self.pages@[v].data@ == zero_page(),
                old(self).pages@ == self.pages@.remove_keys(vpn_range(lo as int, vpn as int)),
            decreases hi - vpn,
        {
            assert(!old(self).mapped(vpn as int));
            let ghost prev = self.pages@;
            let data: Vec<u8> = vec![0u8; PAGE_SIZE];
            assert((perm | 1u8) & 1u8 != 0) by (bit_vector);
            assert(data@ =~= zero_page());
            self.pages.insert(vpn, Page { flags: perm | PTE_V, data });
            assert(self.pages@.remove_keys(vpn_range(lo as int, vpn + 1)) =~= prev.remove_keys(
                vpn_range(lo as int, vpn as int),
            ));
            assert forall|v: usize| lo <= v < vpn + 1 implies #[trigger] self.pages@.contains_key(v)
                && self.pages@[v].flags == perm | PTE_V && self.pages@[v].data@ == zero_page() by {
                if v != vpn {
                    assert(prev.contains_key(v));
                }
            }
            vpn = vpn + 1;
        }
    }

    /// Unmaps the pages covering `[start_va, end_va)`.
    pub fn remove(&mut self, start_va: usize, end_va: usize)
        requires
            old(self).wf(),
            start_va <= end_va <= usize::MAX - PAGE_SIZE,
        ensures
            final(self).wf(),
            final(self).root_ppn == old(self).root_ppn,
            final(self).pages@ == old(self).pages@.remove_keys(
                vpn_range(vpn_of(start_va as int), vpn_ceil(end_va as int)),
            ),
    {
        let lo = start_va / PAGE_SIZE;
        let hi = (end_va + PAGE_SIZE - 1) / PAGE_SIZE;
        let mut vpn = lo;
        while vpn < hi
            invariant
                lo <= vpn <= hi,
                lo == vpn_of(start_va as int),
                hi == vpn_ceil(end_va as int),
                self.wf(),
                self.root_ppn == old(self).root_ppn,
                self.pages@ == old(self).pages@.remove_keys(vpn_range(lo as int, vpn as int)),
            decreases hi - vpn,
        {
            let _removed = self.pages.remove(&vpn);
            assert(old(self).pages@.remove_keys(vpn_range(lo as int, vpn as int)).remove(vpn)
                =~= old(self).pages@.remove_keys(vpn_range(lo as int, vpn + 1)));
            vpn = vpn + 1;
        }
    }
}

impl MemorySet {
    /// Copies the `len` bytes at user address `ptr` out of the frames.
    pub fn read_user_bytes(&self, ptr: usize, len: usize) -> (r: Vec<u8>)
        requires
            self.wf(),
            ptr + len <= usize::MAX,
            self.range_mapped(ptr as int, len as int),
        ensures
            r@ == self.bytes_at(ptr as int, len as nat),
    {
        let mut out: Vec<u8> = Vec::new();
        let mut k: usize = 0;
        while k < len
            invariant
                self.wf(),
                ptr + len <= usize::MAX,
                self.range_mapped(ptr as int, len as int),
                k <= len,
                out@ =~= self.bytes_at(ptr as int, k as nat),
            decreases len - k,
        {
            let va = ptr + k;
            assert(self.mapped(vpn_of(va as int)));
            let page = self.pages.get(&(va / PAGE_SIZE)).unwrap();
            out.push(page.data[va % PAGE_SIZE]);
            k = k + 1;
        }
        out
    }

    /// Writes `bytes` to user address `ptr`, one page piece at a time: each
    /// piece runs to the end of its page or of the data, and the source
    /// cursor advances by the piece's length.
    pub fn write_user_bytes(&mut self, ptr: usize, bytes: &Vec<u8>)
        requires
            old(self).wf(),
            ptr + bytes@.len() <= usize::MAX,
            old(self).range_mapped(ptr as int, bytes@.len() as int),
        ensures
            final(self).wrote(old(self), ptr as int, bytes@),
    {
        let n = bytes.len();
        let mut done: usize = 0;
        while done < n
            invariant
                n == bytes@.len(),
                ptr + n <= usize::MAX,
                old(self).wf(),
                old(self).range_mapped(ptr as int, n as int),
                done <= n,
                self.wf(),
                self.root_ppn == old(self).root_ppn,
                self.same_mapping(old(self)),
                forall|k: int| 0 <= k < done ==> #[trigger] self.byte_at(ptr + k) == bytes@[k],
                forall|va: int|
                    (va < ptr || va >= ptr + done) && old(self).mapped(vpn_of(va)) ==> #[trigger] self.byte_at(va)
                        == old(self).byte_at(va),
            decreases n - done,
        {
            let va = ptr + done;
            let vpn = va / PAGE_SIZE;
            let off = va % PAGE_SIZE;
            let room = PAGE_SIZE - off;
            let chunk = if room < n - done { room } else { n - done };
            assert(old(self).mapped(vpn_of(va as int)));
            let ghost before = *self;
            let ghost page0 = self.pages@[vpn];
            let mut page = self.pages.remove(&vpn).unwrap();
            let mut c: usize = 0;
            while c < chunk
                invariant
                    c <= chunk,
                    off + chunk <= PAGE_SIZE,
                    done + chunk <= n,
                    n == bytes@.len(),
                    page0.data@.len() == PAGE_SIZE,
                    page.flags == page0.flags,
                    page.data@.len() == PAGE_SIZE,
                    forall|i: int| off <= i < off + c ==> #[trigger] page.data@[i] == bytes@[done + i - off],
                    forall|i: int| 0 <= i < PAGE_SIZE && !(off <= i < off + c) ==> #[trigger] page.data@[i] == page0.data@[i],
                decreases chunk - c,
            {
                page.data.set(off + c, bytes[done + c]);
                c = c + 1;
            }
            self.pages.insert(vpn, page);
            proof {
                vstd::arithmetic::div_mod::lemma_fundamental_div_mod(va as int, PAGE_SIZE as int);
                assert forall|k: int| 0 <= k < done + chunk implies #[trigger] self.byte_at(ptr + k) == bytes@[k] by {
                    if k >= done {
                        assert(va as int == vpn as int * PAGE_SIZE + off);
                        lemma_addr_split(ptr + k, vpn as int, off + (k - done));
                        assert(self.pages@[vpn] == page);
                        assert(page.data@[off + (k - done)] == bytes@[k]);
                    } else if vpn_of(ptr + k) == vpn {
                        let a = ptr + k;
                        vstd::arithmetic::div_mod::lemma_fundamental_div_mod(a, PAGE_SIZE as int);
                        assert(before.byte_at(a) == bytes@[k]);
                        assert(a % (PAGE_SIZE as int) < off);
                        assert(page.data@[a % PAGE_SIZE as int] == page0.data@[a % PAGE_SIZE as int]);
                    } else {
                        assert(before.byte_at(ptr + k) == bytes@[k]);
                    }
                }
                assert forall|a: int|
                    (a < ptr || a >= ptr + done + chunk) && old(self).mapped(vpn_of(a)) implies #[trigger] self.byte_at(a)
                        == old(self).byte_at(a) by {
                    assert(before.byte_at(a) == old(self).byte_at(a));
                    if vpn_of(a) == vpn {
                        vstd::arithmetic::div_mod::lemma_fundamental_div_mod(a, PAGE_SIZE as int);
                    }
                }
                assert(self.pages@.dom() =~= old(self).pages@.dom());
            }
            done = done + chunk;
        }
    }
}

/// Address `va` lies `off` bytes into page `vpn`.
proof fn lemma_addr_split(va: int, vpn: int, off: int)
    requires
        0 <= off < PAGE_SIZE,
        va == vpn * PAGE_SIZE + off,
    ensures
        vpn_of(va) == vpn,
        va % PAGE_SIZE as int == off,
{
    lemma_fundamental_div_mod_converse(va, PAGE_SIZE as int, vpn, off);
}

/// Copy round trip: once `bytes` have been written at `ptr`, reading
/// `bytes.len()` bytes at `ptr` gives `bytes` back, also where the range
/// crosses page boundaries.
pub proof fn lemma_copy_round_trip(before: MemorySet, after: MemorySet, ptr: int, bytes: Seq<u8>)
    requires
        after.wrote(&before, ptr, bytes),
    ensures
        after.bytes_at(ptr, bytes.len()) == bytes,
{
    assert(after.bytes_at(ptr, bytes.len()) =~= bytes);
}

/// The page numbers `[lo, hi)`.
pub open spec fn vpn_range(lo: int, hi: int) -> Set<usize> {
    Set::new(|v: usize| lo <= v < hi)
}


/// The number that the little-endian bytes `b` stand for.
pub open spec fn le_value(b: Seq<u8>) -> nat
    decreases b.len(),
{
    if b.len() == 0 {
        0
    } else {
        b[0] as nat + 256 * le_value(b.drop_first())
    }
}

/// `256` to the power `n`.
pub open spec fn pow256(n: nat) -> nat
    decreases n,
{
    if n == 0 {
        1
    } else {
        256 * pow256((n - 1) as nat)
    }
}

proof fn lemma_le_value_bound(b: Seq<u8>)
    ensures
        le_value(b) < pow256(b.len()),
    decreases b.len(),
{
    if b.len() > 0 {
        lemma_le_value_bound(b.drop_first());
        let r = le_value(b.drop_first());
        let p = pow256((b.len() - 1) as nat);
        assert(b[0] as nat + 256 * r < 256 * p) by (nonlinear_arith)
            requires
                r < p,
                b[0] < 256,
        ;
    }
}

impl MemorySet {
    /// A string ends with a zero byte at `ptr + len`, every byte up to it mapped.
    pub open spec fn c_string_len(&self, ptr: int, len: int) -> bool {
        &&& 0 <= len
        &&& ptr + len < usize::MAX
        &&& self.range_mapped(ptr, len + 1)
        &&& self.byte_at(ptr + len) == 0
        &&& forall|k: int| 0 <= k < len ==> #[trigger] self.byte_at(ptr + k) != 0
    }

    /// The mapped, zero-terminated string at `ptr`, without its zero byte.
    pub open spec fn c_string_at(&self, ptr: int) -> bool {
        exists|len: int| self.c_string_len(ptr, len)
    }

    /// The word (eight little-endian bytes) at `ptr`.
    pub open spec fn word_at(&self, ptr: int) -> nat {
        le_value(self.bytes_at(ptr, 8))
    }

    /// Reads the word at user address `ptr`.
    pub fn translated_word(&self, ptr: usize) -> (r: usize)
        requires
            self.wf(),
            ptr + 8 <= usize::MAX,
            self.range_mapped(ptr as int, 8),
        ensures
            r == self.word_at(ptr as int) as usize,
    {
        let b = self.read_user_bytes(ptr, 8);
        let mut v: u64 = 0;
        let mut i: usize = 8;
        proof {
            assert(b@.subrange(8, 8) =~= Seq::<u8>::empty());
        }
        while i > 0
            invariant
                i <= 8,
                b@.len() == 8,
                v as nat == le_value(b@.subrange(i as int, 8)),
            decreases i,
        {
            let ghost rest = b@.subrange(i as int, 8);
            proof {
                lemma_le_value_bound(rest);
                assert(pow256((8 - i) as nat) <= pow256(7)) by {
                    lemma_pow256_mono((8 - i) as nat, 7);
                }
                lemma_pow256_seven();
                assert(b@.subrange(i - 1, 8).drop_first() =~= rest);
            }
            v = v * 256 + b[i - 1] as u64;
            i = i - 1;
        }
        assert(b@.subrange(0, 8) =~= b@);
        #[verifier::truncate]
        (v as usize)
    }

    /// Reads the zero-terminated string at user address `ptr`, without its
    /// zero byte.
    pub fn translated_str(&self, ptr: usize) -> (r: Vec<u8>)
        requires
            self.wf(),
            self.c_string_at(ptr as int),
        ensures
            self.c_string_len(ptr as int, r@.len() as int),
            r@ == self.bytes_at(ptr as int, r@.len()),
    {
        let ghost len = choose|len: int| self.c_string_len(ptr as int, len);
        let mut out: Vec<u8> = Vec::new();
        let mut i: usize = 0;
        loop
            invariant
                self.wf(),
                self.c_string_len(ptr as int, len),
                0 <= i <= len,
                out@ == self.bytes_at(ptr as int, i as nat),
            decreases len - i,
        {
            let va = ptr + i;
            assert(self.mapped(vpn_of(va as int)));
            let c = self.pages.get(&(va / PAGE_SIZE)).unwrap().data[va % PAGE_SIZE];
            if c == 0 {
                proof {
                    if (i as int) < len {
                        assert(self.byte_at(ptr + i) != 0);
                    }
                }
                return out;
            }
            out.push(c);
            assert(out@ =~= self.bytes_at(ptr as int, (i + 1) as nat));
            i = i + 1;
        }
    }
}

proof fn lemma_pow256_seven()
    ensures
        pow256(7) == 0x100_0000_0000_0000,
{
    assert(pow256(0) == 1);
    assert(pow256(1) == 0x100);
    assert(pow256(2) == 0x1_0000);
    assert(pow256(3) == 0x100_0000);
    assert(pow256(4) == 0x1_0000_0000);
    assert(pow256(5) == 0x100_0000_0000);
    assert(pow256(6) == 0x1_0000_0000_0000);
}

proof fn lemma_pow256_mono(a: nat, b: nat)
    requires
        a <= b,
    ensures
        pow256(a) <= pow256(b),
    decreases b,
{
    if a < b {
        lemma_pow256_mono(a, (b - 1) as nat);
        assert(pow256(b) == 256 * pow256((b - 1) as nat));
    }
}


/// A part of a mapped range is mapped, also in an address space with the
/// same pages.
pub proof fn lemma_range_mapped_within(ms: MemorySet, ms0: MemorySet, lo: int, len: int, p: int, l: int)
    requires
        ms0.range_mapped(lo, len),
        ms.pages@.dom() == ms0.pages@.dom(),
        lo <= p,
        p + l <= lo + len,
    ensures
        ms.range_mapped(p, l),
{
    assert forall|va: int| p <= va < p + l implies ms.mapped(#[trigger] vpn_of(va)) by {
        assert(ms0.mapped(vpn_of(va)));
    }
}

} // verus!
