//! Address spaces: the pages a task has mapped, the bytes each page holds,
//! and the program break of its heap.
use std::collections::HashMap;
use vstd::prelude::*;

use crate::config::PAGE_SIZE;

verus! {

/// Page permission bit: readable.
pub const PERM_R: u8 = 2;

/// Page permission bit: writable.
pub const PERM_W: u8 = 4;

/// Page permission bit: executable.
pub const PERM_X: u8 = 8;

/// Page permission bit: accessible from user mode.
pub const PERM_U: u8 = 16;

/// A mapped page together with the frame that backs it. The frame's bytes
/// are owned by the page, so no frame is ever shared by two address spaces.
#[derive(Clone)]
pub struct Page {
    pub perm: u8,
    pub data: Vec<u8>,
}

/// What a mapped page is in the model: its permission bits and its bytes.
pub type PageView = (u8, Seq<u8>);

/// One task's address space.
pub struct MemorySet {
    /// Mapped pages, keyed by virtual page number.
    pub pages: HashMap<usize, Page>,
    /// Lowest address of the heap; page aligned.
    pub heap_bottom: usize,
    /// Highest value that the program break may take.
    pub heap_limit: usize,
    /// Current program break.
    pub brk: usize,
}

/// Number of pages needed to cover `len` bytes.
pub open spec fn pages_for(len: nat) -> nat {
    ((len + PAGE_SIZE - 1) / PAGE_SIZE as int) as nat
}

/// The page numbers `start, start + 1, ..., start + n - 1`.
pub open spec fn vpn_range(start: nat, n: nat) -> Set<usize> {
    Set::new(|v: usize| start <= v < start + n)
}

/// A freshly allocated frame: zero filled.
pub open spec fn zero_page(perm: u8) -> PageView {
    (perm, Seq::new(PAGE_SIZE as nat, |i: int| 0u8))
}

/// `m` with every page of `start .. start + n` that it lacks added as a zero page.
pub open spec fn map_range(m: Map<usize, PageView>, start: nat, n: nat, perm: u8) -> Map<
    usize,
    PageView,
> {
    Map::new(
        |v: usize| m.contains_key(v) || (start <= v < start + n),
        |v: usize|
            if m.contains_key(v) {
                m[v]
            } else {
                zero_page(perm)
            },
    )
}

/// Whether some page of `start .. start + n` is mapped in `m`.
pub open spec fn any_mapped(m: Map<usize, PageView>, start: nat, n: nat) -> bool {
    exists|v: usize| start <= v < start + n && #[trigger] m.contains_key(v)
}

/// Whether every page of `start .. start + n` is mapped in `m`.
pub open spec fn all_mapped(m: Map<usize, PageView>, start: nat, n: nat) -> bool {
    forall|v: usize| start <= v < start + n ==> #[trigger] m.contains_key(v)
}

/// Permission bits of a user mapping made with `prot` (bit 0 read, bit 1 write, bit 2 execute).
pub open spec fn perm_of_prot(prot: usize) -> u8 {
    (prot * 2 + PERM_U) as u8
}

/// The pages after `mmap(start, len, prot)`, or `None` where the call fails.
pub open spec fn mmap_result(m: Map<usize, PageView>, start: usize, len: usize, prot: usize) -> Option<
    Map<usize, PageView>,
> {
    let first = start as nat / PAGE_SIZE as nat;
    let n = pages_for(len as nat);
    if start % PAGE_SIZE != 0 || prot == 0 || prot > 7 || any_mapped(m, first, n) {
        None
    } else {
        Some(map_range(m, first, n, perm_of_prot(prot)))
    }
}

/// The pages after `munmap(start, len)`, or `None` where the call fails.
pub open spec fn munmap_result(m: Map<usize, PageView>, start: usize, len: usize) -> Option<
    Map<usize, PageView>,
> {
    let first = start as nat / PAGE_SIZE as nat;
    let n = pages_for(len as nat);
    if start % PAGE_SIZE != 0 || !all_mapped(m, first, n) {
        None
    } else {
        Some(m.remove_keys(vpn_range(first, n)))
    }
}

/// Byte at virtual address `a` of the pages `m`.
pub open spec fn byte_at(m: Map<usize, PageView>, a: int) -> u8 {
    m[(a / PAGE_SIZE as int) as usize].1[a % PAGE_SIZE as int]
}

/// Whether every byte of `[va, va + len)` lies in a mapped page of `m`.
pub open spec fn range_mapped(m: Map<usize, PageView>, va: int, len: int) -> bool {
    forall|a: int| va <= a < va + len ==> #[trigger] m.contains_key((a / PAGE_SIZE as int) as usize)
}

/// `m` after writing `bytes` at virtual address `va`: same pages and permissions,
/// the written bytes in place, every other byte kept.
pub open spec fn written(m: Map<usize, PageView>, n: Map<usize, PageView>, va: int, bytes: Seq<u8>) -> bool {
    &&& n.dom() == m.dom()
    &&& forall|v: usize| #[trigger] n.contains_key(v) ==> n[v].0 == m[v].0 && n[v].1.len() == m[v].1.len()
    &&& forall|k: int| 0 <= k < bytes.len() ==> #[trigger] byte_at(n, va + k) == bytes[k]
    &&& forall|a: int|
        0 <= a <= usize::MAX && !(va <= a < va + bytes.len()) && m.contains_key((a / PAGE_SIZE as int) as usize)
            ==> #[trigger] byte_at(n, a) == byte_at(m, a)
}

/// Whether `s` is the string stored at `va` in `m`: its bytes are non-zero, lie in
/// mapped pages, and are followed by a zero byte in a mapped page.
pub open spec fn c_str_at(m: Map<usize, PageView>, va: int, s: Seq<u8>) -> bool {
    &&& va + s.len() <= usize::MAX
    &&& range_mapped(m, va, s.len() as int + 1)
    &&& forall|k: int| 0 <= k < s.len() ==> #[trigger] byte_at(m, va + k) == s[k] && s[k] != 0
    &&& byte_at(m, va + s.len()) == 0
}

/// Number of pages that cover the heap when the break stands at `brk`.
pub open spec fn heap_end_vpn(brk: nat) -> nat {
    pages_for(brk)
}

/// The program break and pages after moving the break by `size` bytes, or `None`
/// where the new break would fall below the heap's bottom, pass its limit, or
/// grow over a page that is already mapped.
pub open spec fn brk_result(m: Map<usize, PageView>, heap_bottom: usize, heap_limit: usize, brk: usize, size: int) -> Option<
    (usize, Map<usize, PageView>),
> {
    let new_brk = brk + size;
    let old_end = heap_end_vpn(brk as nat);
    if new_brk < heap_bottom || new_brk > heap_limit {
        None
    } else if new_brk >= brk {
        let new_end = heap_end_vpn(new_brk as nat);
        if any_mapped(m, old_end, (new_end - old_end) as nat) {
            None
        } else {
            Some((new_brk as usize, map_range(m, old_end, (new_end - old_end) as nat, PERM_R | PERM_W | PERM_U)))
        }
    } else {
        let new_end = heap_end_vpn(new_brk as nat);
        Some((new_brk as usize, m.remove_keys(vpn_range(new_end, (old_end - new_end) as nat))))
    }
}

impl Page {
    pub open spec fn view(&self) -> PageView {
        (self.perm, self.data@)
    }

    /// A page backed by a zero-filled frame.
    pub fn zeroed(perm: u8) -> (r: Page)
        ensures
            r.view() == zero_page(perm),
    {
        let mut data: Vec<u8> = Vec::new();
        let mut i: usize = 0;
        while i < PAGE_SIZE
            invariant
                i <= PAGE_SIZE,
                data@.len() == i,
                forall|j: int| 0 <= j < i ==> data@[j] == 0u8,
            decreases PAGE_SIZE - i,
        {
            data.push(0u8);
            i = i + 1;
        }
        assert(data@ =~= Seq::new(PAGE_SIZE as nat, |i: int| 0u8));
        Page { perm, data }
    }
}

impl MemorySet {
    /// The mapped pages, by virtual page number.
    pub open spec fn view(&self) -> Map<usize, PageView> {
        Map::new(|v: usize| self.pages@.contains_key(v), |v: usize| self.pages@[v].view())
    }

    /// Well-formedness: every frame holds one page of bytes, and the heap
    /// bounds are ordered with room to round the break up to a page.
    pub open spec fn wf(&self) -> bool {
        &&& forall|v: usize| #[trigger] self.pages@.contains_key(v) ==> self.pages@[v].data@.len() == PAGE_SIZE
        &&& self.heap_bottom % PAGE_SIZE == 0
        &&& self.heap_bottom <= self.brk <= self.heap_limit
        &&& self.heap_limit <= usize::MAX - PAGE_SIZE
    }

    /// An address space with no page mapped and an empty heap at `heap_bottom`.
    pub fn new_bare(heap_bottom: usize, heap_limit: usize) -> (r: MemorySet)
        requires
            heap_bottom % PAGE_SIZE == 0,
            heap_bottom <= heap_limit <= usize::MAX - PAGE_SIZE,
        ensures
            r.wf(),
            r.view() == Map::<usize, PageView>::empty(),
            r.heap_bottom == heap_bottom,
            r.heap_limit == heap_limit,
            r.brk == heap_bottom,
    {
        let r = MemorySet { pages: HashMap::new(), heap_bottom, heap_limit, brk: heap_bottom };
        assert(r.view() =~= Map::<usize, PageView>::empty());
        r
    }

    /// Whether page `vpn` is mapped.
    pub fn is_mapped(&self, vpn: usize) -> (r: bool)
        ensures
            r == self.view().contains_key(vpn),
    {
        self.pages.contains_key(&vpn)
    }
}

impl MemorySet {
    /// Whether `other` has the same heap bounds and break as `self`.
    pub open spec fn same_heap(&self, other: &MemorySet) -> bool {
        &&& other.heap_bottom == self.heap_bottom
        &&& other.heap_limit == self.heap_limit
        &&& other.brk == self.brk
    }

    /// Removes every mapped page of `start .. start + n`, releasing its frame.
    fn remove_range(&mut self, start: usize, n: usize)
        requires
            old(self).wf(),
            start + n <= usize::MAX,
        ensures
            final(self).wf(),
            old(self).same_heap(final(self)),
            final(self).view() == old(self).view().remove_keys(vpn_range(start as nat, n as nat)),
    {
        let mut k: usize = 0;
        while k < n
            invariant
                k <= n,
                start + n <= usize::MAX,
                self.wf(),
                old(self).same_heap(self),
                self.view() == old(self).view().remove_keys(vpn_range(start as nat, k as nat)),
            decreases n - k,
        {
            let ghost before = self.pages@;
            let ghost prev = self.view();
            let _ = self.pages.remove(&(start + k));
            assert(self.pages@ == before.remove((start + k) as usize));
            k = k + 1;
            let ghost target = old(self).view().remove_keys(vpn_range(start as nat, k as nat));
            assert forall|v: usize| #[trigger] self.view().contains_key(v) == target.contains_key(v) by {
                assert(self.view().contains_key(v) == self.pages@.contains_key(v));
                assert(self.pages@.contains_key(v) == (before.contains_key(v) && v != start + k - 1));
                assert(before.contains_key(v) == prev.contains_key(v));
                assert(vpn_range(start as nat, (k - 1) as nat).contains(v) == (start <= v < start + k - 1));
                assert(vpn_range(start as nat, k as nat).contains(v) == (start <= v < start + k));
            }
            assert forall|v: usize| #[trigger] self.view().contains_key(v) implies self.view()[v] == target[v] by {
                assert(self.pages@[v] == before[v]);
                assert(before[v].view() == prev[v]);
            }
            assert(self.view() =~= target);
        }
    }

    /// Maps every page of `start .. start + n` to a fresh zeroed frame with `perm`,
    /// provided none of them is mapped yet; otherwise changes nothing.
    pub fn map_area(&mut self, start: usize, n: usize, perm: u8) -> (r: bool)
        requires
            old(self).wf(),
            start + n <= usize::MAX,
        ensures
            final(self).wf(),
            old(self).same_heap(final(self)),
            r == !any_mapped(old(self).view(), start as nat, n as nat),
            r ==> final(self).view() == map_range(old(self).view(), start as nat, n as nat, perm),
            !r ==> *final(self) == *old(self),
    {
        let mut k: usize = 0;
        while k < n
            invariant
                k <= n,
                start + n <= usize::MAX,
                *self == *old(self),
                old(self).wf(),
                forall|v: usize| start <= v < start + k ==> !#[trigger] self.view().contains_key(v),
            decreases n - k,
        {
            if self.pages.contains_key(&(start + k)) {
                assert(self.view().contains_key((start + k) as usize));
                return false;
            }
            k = k + 1;
        }
        let mut k: usize = 0;
        while k < n
            invariant
                k <= n,
                start + n <= usize::MAX,
                self.wf(),
                old(self).same_heap(self),
                !any_mapped(old(self).view(), start as nat, n as nat),
                self.view() == map_range(old(self).view(), start as nat, k as nat, perm),
            decreases n - k,
        {
            let page = Page::zeroed(perm);
            let ghost before = self.pages@;
            let ghost prev = self.view();
            let _ = self.pages.insert(start + k, page);
            assert(self.pages@ == before.insert((start + k) as usize, page));
            k = k + 1;
            let ghost target = map_range(old(self).view(), start as nat, k as nat, perm);
            assert forall|v: usize| #[trigger] self.view().contains_key(v) == target.contains_key(v) by {
                assert(before.contains_key(v) == prev.contains_key(v));
            }
            assert forall|v: usize| #[trigger] self.view().contains_key(v) implies self.view()[v] == target[v] by {
                if v != start + k - 1 {
                    assert(before.contains_key(v) == prev.contains_key(v));
                    assert(before[v].view() == prev[v]);
                }
            }
            assert(self.view() =~= target);
        }
        true
    }

    /// Unmaps every page of `start .. start + n` and releases their frames,
    /// provided all of them are mapped; otherwise changes nothing.
    pub fn unmap_area(&mut self, start: usize, n: usize) -> (r: bool)
        requires
            old(self).wf(),
            start + n <= usize::MAX,
        ensures
            final(self).wf(),
            old(self).same_heap(final(self)),
            r == all_mapped(old(self).view(), start as nat, n as nat),
            r ==> final(self).view() == old(self).view().remove_keys(vpn_range(start as nat, n as nat)),
            !r ==> *final(self) == *old(self),
    {
        let mut k: usize = 0;
        while k < n
            invariant
                k <= n,
                start + n <= usize::MAX,
                *self == *old(self),
                old(self).wf(),
                forall|v: usize| start <= v < start + k ==> #[trigger] self.view().contains_key(v),
            decreases n - k,
        {
            if !self.pages.contains_key(&(start + k)) {
                assert(!self.view().contains_key((start + k) as usize));
                return false;
            }
            k = k + 1;
        }
        self.remove_range(start, n);
        true
    }
}

/// Two different addresses differ in their page or in their offset within it.
pub proof fn lemma_distinct_addresses(a: int, b: int)
    requires
        0 <= a,
        0 <= b,
        a != b,
    ensures
        a / PAGE_SIZE as int != b / PAGE_SIZE as int || a % PAGE_SIZE as int != b % PAGE_SIZE as int,
{
    vstd::arithmetic::div_mod::lemma_fundamental_div_mod(a, PAGE_SIZE as int);
    vstd::arithmetic::div_mod::lemma_fundamental_div_mod(b, PAGE_SIZE as int);
}

impl MemorySet {
    /// Copies `bytes` into this address space at virtual address `va`, splitting the
    /// write over every page the range touches. Fails, changing nothing, where the
    /// range wraps around the address space or touches an unmapped page.
    pub fn write_bytes(&mut self, va: usize, bytes: &Vec<u8>) -> (r: bool)
        requires
            old(self).wf(),
        ensures
            final(self).wf(),
            old(self).same_heap(final(self)),
            r == (va + bytes@.len() <= usize::MAX && range_mapped(old(self).view(), va as int, bytes@.len() as int)),
            r ==> written(old(self).view(), final(self).view(), va as int, bytes@),
            !r ==> *final(self) == *old(self),
    {
        if bytes.len() > usize::MAX - va {
            return false;
        }
        let mut k: usize = 0;
        while k < bytes.len()
            invariant
                k <= bytes@.len(),
                va + bytes@.len() <= usize::MAX,
                *self == *old(self),
                old(self).wf(),
                range_mapped(self.view(), va as int, k as int),
            decreases bytes@.len() - k,
        {
            if !self.pages.contains_key(&((va + k) / PAGE_SIZE)) {
                assert(!self.view().contains_key(((va + k) as int / PAGE_SIZE as int) as usize));
                return false;
            }
            k = k + 1;
        }
        let ghost m = old(self).view();
        let mut k: usize = 0;
        while k < bytes.len()
            invariant
                k <= bytes@.len(),
                va + bytes@.len() <= usize::MAX,
                self.wf(),
                old(self).same_heap(self),
                m == old(self).view(),
                range_mapped(m, va as int, bytes@.len() as int),
                written(m, self.view(), va as int, bytes@.take(k as int)),
            decreases bytes@.len() - k,
        {
            let a = va + k;
            let vpn = a / PAGE_SIZE;
            let off = a % PAGE_SIZE;
            let ghost before = self.pages@;
            let ghost prev = self.view();
            let ghost b = bytes@[k as int];
            assert(m.contains_key(((a as int) / PAGE_SIZE as int) as usize));
            assert(prev.contains_key(vpn));
            match self.pages.remove(&vpn) {
                Some(mut page) => {
                    page.data.set(off, bytes[k]);
                    let _ = self.pages.insert(vpn, page);
                },
                None => {},
            }
            k = k + 1;
            let ghost n = self.view();
            assert(n.dom() =~= prev.dom());
            assert forall|v: usize| #[trigger] n.contains_key(v) implies n[v].0 == m[v].0 && n[v].1.len() == m[v].1.len() by {
                assert(before.contains_key(v) == prev.contains_key(v));
            }
            assert forall|j: int| 0 <= j < k implies #[trigger] byte_at(n, va + j) == bytes@.take(k as int)[j] by {
                if j != k - 1 {
                    lemma_distinct_addresses(va + j, a as int);
                    assert(byte_at(prev, va + j) == bytes@.take(k - 1)[j]);
                }
            }
            assert forall|x: int|
                0 <= x <= usize::MAX && !(va <= x < va + k) && m.contains_key((x / PAGE_SIZE as int) as usize)
                implies #[trigger] byte_at(n, x) == byte_at(m, x) by {
                lemma_distinct_addresses(x, a as int);
                assert(byte_at(prev, x) == byte_at(m, x));
                let vx = (x / PAGE_SIZE as int) as usize;
                if vx != vpn {
                    assert(before[vx].view() == prev[vx]);
                }
            }
        }
        assert(bytes@.take(bytes@.len() as int) =~= bytes@);
        true
    }
}

impl MemorySet {
    /// Moves the program break by `size` bytes, mapping fresh heap pages as it grows
    /// past a page boundary and releasing them as it shrinks back. Returns the break
    /// before the move, or `None`, changing nothing, where `brk_result` has none.
    pub fn change_program_brk(&mut self, size: i32) -> (r: Option<usize>)
        requires
            old(self).wf(),
        ensures
            final(self).wf(),
            final(self).heap_bottom == old(self).heap_bottom,
            final(self).heap_limit == old(self).heap_limit,
            match brk_result(old(self).view(), old(self).heap_bottom, old(self).heap_limit, old(self).brk, size as int) {
                None => r.is_none() && final(self).view() == old(self).view() && final(self).brk == old(self).brk,
                Some((nb, m)) => r == Some(old(self).brk) && final(self).brk == nb && final(self).view() == m,
            },
    {
        let old_brk = self.brk;
        let new_brk: usize;
        if size >= 0 {
            let grow = size as usize;
            if grow > self.heap_limit - old_brk {
                return None;
            }
            new_brk = old_brk + grow;
        } else {
            let shrink = (0i64 - size as i64) as usize;
            if shrink > old_brk - self.heap_bottom {
                return None;
            }
            new_brk = old_brk - shrink;
        }
        let old_end = (old_brk + (PAGE_SIZE - 1)) / PAGE_SIZE;
        let new_end = (new_brk + (PAGE_SIZE - 1)) / PAGE_SIZE;
        if new_brk >= old_brk {
            proof {
                vstd::arithmetic::div_mod::lemma_div_is_ordered(
                    old_brk + (PAGE_SIZE - 1),
                    new_brk + (PAGE_SIZE - 1),
                    PAGE_SIZE as int,
                );
            }
            if !self.map_area(old_end, new_end - old_end, PERM_R | PERM_W | PERM_U) {
                return None;
            }
        } else {
            proof {
                vstd::arithmetic::div_mod::lemma_div_is_ordered(
                    new_brk + (PAGE_SIZE - 1),
                    old_brk + (PAGE_SIZE - 1),
                    PAGE_SIZE as int,
                );
            }
            self.remove_range(new_end, old_end - new_end);
        }
        self.brk = new_brk;
        Some(old_brk)
    }

    /// A deep copy: the same pages, each backed by a frame of its own with the same bytes.
    pub fn clone_space(&self) -> (r: MemorySet)
        requires
            self.wf(),
        ensures
            r.wf(),
            self.same_heap(&r),
            r.view() == self.view(),
    {
        let pages = self.pages.clone();
        let r = MemorySet { pages, heap_bottom: self.heap_bottom, heap_limit: self.heap_limit, brk: self.brk };
        assert(r.view() =~= self.view());
        r
    }
}

/// Mapping a range and then unmapping the same range succeeds and gives back
/// exactly the pages that were mapped before.
pub proof fn lemma_mmap_munmap_round_trip(m: Map<usize, PageView>, start: usize, len: usize, prot: usize)
    requires
        mmap_result(m, start, len, prot) is Some,
    ensures
        munmap_result(mmap_result(m, start, len, prot)->0, start, len) == Some(m),
{
    let first = start as nat / PAGE_SIZE as nat;
    let n = pages_for(len as nat);
    let m1 = mmap_result(m, start, len, prot)->0;
    assert(all_mapped(m1, first, n));
    assert(m1.remove_keys(vpn_range(first, n)) =~= m);
}

/// A mapping over a range that holds any mapped page fails; the caller's
/// pages are then left as they were.
pub proof fn lemma_mmap_overlap_fails(m: Map<usize, PageView>, start: usize, len: usize, prot: usize)
    requires
        any_mapped(m, start as nat / PAGE_SIZE as nat, pages_for(len as nat)),
    ensures
        mmap_result(m, start, len, prot) is None,
{
}

/// An unmapping of a range that holds any unmapped page fails; the caller's
/// pages are then left as they were.
pub proof fn lemma_munmap_hole_fails(m: Map<usize, PageView>, start: usize, len: usize, vpn: usize)
    requires
        start as nat / PAGE_SIZE as nat <= vpn < start as nat / PAGE_SIZE as nat + pages_for(len as nat),
        !m.contains_key(vpn),
    ensures
        munmap_result(m, start, len) is None,
{
}

/// Growing the heap by `n` bytes and then shrinking it by `n` bytes succeeds, puts
/// the break back where it was, and releases exactly the pages the growth mapped.
pub proof fn lemma_sbrk_round_trip(m: Map<usize, PageView>, heap_bottom: usize, heap_limit: usize, brk: usize, n: int)
    requires
        heap_bottom <= brk <= heap_limit,
        0 <= n,
        brk_result(m, heap_bottom, heap_limit, brk, n) is Some,
    ensures
        ({
            let grown = brk_result(m, heap_bottom, heap_limit, brk, n)->0;
            brk_result(grown.1, heap_bottom, heap_limit, grown.0, -n) == Some((brk, m))
        }),
{
    let grown = brk_result(m, heap_bottom, heap_limit, brk, n)->0;
    let (b1, m1) = grown;
    let old_end = heap_end_vpn(brk as nat);
    let new_end = heap_end_vpn(b1 as nat);
    if n == 0 {
        assert(m1 =~= m);
        assert(map_range(m1, new_end, 0, PERM_R | PERM_W | PERM_U) =~= m);
    } else {
        assert(m1.remove_keys(vpn_range(old_end, (new_end - old_end) as nat)) =~= m);
    }
}

impl MemorySet {
    /// The byte at virtual address `a`, where its page is mapped.
    pub fn read_byte(&self, a: usize) -> (r: Option<u8>)
        requires
            self.wf(),
        ensures
            match r {
                Some(b) => self.view().contains_key((a as int / PAGE_SIZE as int) as usize) && b == byte_at(self.view(), a as int),
                None => !self.view().contains_key((a as int / PAGE_SIZE as int) as usize),
            },
    {
        match self.pages.get(&(a / PAGE_SIZE)) {
            Some(page) => Some(page.data[a % PAGE_SIZE]),
            None => None,
        }
    }

    /// The zero-terminated string stored at `va`, without its terminator; `None` where
    /// an unmapped page, or the end of the address space, comes before a zero byte.
    pub fn read_c_str(&self, va: usize) -> (r: Option<Vec<u8>>)
        requires
            self.wf(),
        ensures
            match r {
                Some(s) => c_str_at(self.view(), va as int, s@),
                None => forall|s: Seq<u8>| !c_str_at(self.view(), va as int, s),
            },
    {
        let mut out: Vec<u8> = Vec::new();
        let mut a: usize = va;
        loop
            invariant
                self.wf(),
                va <= a,
                out@.len() == a - va,
                range_mapped(self.view(), va as int, out@.len() as int),
                forall|k: int| 0 <= k < out@.len() ==> #[trigger] byte_at(self.view(), va + k) == out@[k] && out@[k] != 0,
            decreases usize::MAX - a,
        {
            match self.read_byte(a) {
                None => {
                    assert forall|s: Seq<u8>| !c_str_at(self.view(), va as int, s) by {
                        if c_str_at(self.view(), va as int, s) {
                            if s.len() < out@.len() {
                                assert(byte_at(self.view(), va + s.len()) == out@[s.len() as int]);
                            } else {
                                assert(self.view().contains_key(((va + out@.len()) as int / PAGE_SIZE as int) as usize));
                            }
                        }
                    }
                    return None;
                },
                Some(b) => {
                    if b == 0 {
                        return Some(out);
                    }
                    if a == usize::MAX {
                        assert forall|s: Seq<u8>| !c_str_at(self.view(), va as int, s) by {
                            if c_str_at(self.view(), va as int, s) {
                                if s.len() <= out@.len() {
                                    assert(byte_at(self.view(), va + s.len()) == if s.len() == out@.len() { b } else { out@[s.len() as int] });
                                }
                            }
                        }
                        return None;
                    }
                    out.push(b);
                    a = a + 1;
                },
            }
        }
    }
}

/// At most one string is stored at a given address.
pub proof fn lemma_c_str_unique(m: Map<usize, PageView>, va: int, s: Seq<u8>, t: Seq<u8>)
    requires
        c_str_at(m, va, s),
        c_str_at(m, va, t),
    ensures
        s == t,
{
    if s.len() < t.len() {
        assert(byte_at(m, va + s.len()) == t[s.len() as int]);
    } else if t.len() < s.len() {
        assert(byte_at(m, va + t.len()) == s[t.len() as int]);
    } else {
        assert forall|k: int| 0 <= k < s.len() implies s[k] == t[k] by {
            assert(byte_at(m, va + k) == s[k]);
        }
        assert(s =~= t);
    }
}

} // verus!
