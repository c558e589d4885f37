use vstd::prelude::*;

verus! {

use vstd::arithmetic::div_mod::lemma_fundamental_div_mod;
use crate::address::Address;
use crate::program::{Instruction, Word};
use vstd::string::StringExecFns;

/// The errors a memory operation can surface.
#[derive(Clone, Copy, Debug, PartialEq, Eq, Structural)]
pub enum MemoryError {
    /// An access past the end of its segment.
    OutOfBounds,
    /// An address that resolves to nothing.
    InvalidAddress,
    /// A zero-length or mis-sized helper input.
    InvalidSize,
    /// A value that cannot be interpreted.
    InvalidValue,
    /// An address that lies in no segment.
    InvalidSection,
    /// A label lookup that resolves to nothing.
    InvalidLabel,
    /// An encoder field overflow, or a fetch with no instruction.
    InvalidInstruction,
    /// Data that cannot be laid out.
    InvalidData,
    /// A heap allocation that would collide with the stack.
    InvalidHeap,
    /// A stack push that would collide with the heap.
    InvalidStack,
    /// An access to an unallocated page.
    SegmentFault,
    /// An access that violates a page's protection.
    ProtectionFault,
}

/// The protection of a page: each lattice point over read, write, execute.
#[derive(Clone, Copy, Debug, PartialEq, Eq, Structural)]
pub enum ProtectionLevel {
    /// Readable only.
    Read,
    /// Writable only.
    Write,
    /// Readable and writable.
    ReadWrite,
    /// Executable only.
    Execute,
    /// Readable and executable.
    ReadExecute,
    /// Writable and executable.
    WriteExecute,
    /// Readable, writable and executable.
    ReadWriteExecute,
}

/// Whether the protection grants reads.
pub open spec fn prot_readable(p: ProtectionLevel) -> bool {
    match p {
        ProtectionLevel::Read
        | ProtectionLevel::ReadWrite
        | ProtectionLevel::ReadExecute
        | ProtectionLevel::ReadWriteExecute => true,
        _ => false,
    }
}

/// Whether the protection grants writes.
pub open spec fn prot_writable(p: ProtectionLevel) -> bool {
    match p {
        ProtectionLevel::Write
        | ProtectionLevel::ReadWrite
        | ProtectionLevel::WriteExecute
        | ProtectionLevel::ReadWriteExecute => true,
        _ => false,
    }
}

/// Whether the protection grants execution.
pub open spec fn prot_executable(p: ProtectionLevel) -> bool {
    match p {
        ProtectionLevel::Execute
        | ProtectionLevel::ReadExecute
        | ProtectionLevel::WriteExecute
        | ProtectionLevel::ReadWriteExecute => true,
        _ => false,
    }
}

impl ProtectionLevel {
    /// Whether the protection grants reads.
    pub fn is_readable(&self) -> (r: bool)
        ensures
            r == prot_readable(*self),
    {
        matches!(
            self,
            Self::Read | Self::ReadWrite | Self::ReadExecute | Self::ReadWriteExecute
        )
    }

    /// Whether the protection grants writes.
    pub fn is_writable(&self) -> (r: bool)
        ensures
            r == prot_writable(*self),
    {
        matches!(
            self,
            Self::Write | Self::ReadWrite | Self::WriteExecute | Self::ReadWriteExecute
        )
    }

    /// Whether the protection grants execution.
    pub fn is_executable(&self) -> (r: bool)
        ensures
            r == prot_executable(*self),
    {
        matches!(
            self,
            Self::Execute | Self::ReadExecute | Self::WriteExecute | Self::ReadWriteExecute
        )
    }
}

/// The size of a page in bytes.
pub const PAGE_SIZE: usize = 4096;

/// A fixed 4096-byte block of the address space with one protection.
#[derive(Clone, Debug)]
pub struct Page {
    /// The bytes of the page.
    pub data: Vec<u8>,
    /// The protection of the page.
    pub protection: ProtectionLevel,
}

/// One entry of the page table: a page number and its page.
#[derive(Clone, Debug)]
pub struct PageEntry {
    /// The page number: the address range divided by the page size.
    pub number: u32,
    /// The page itself.
    pub page: Page,
}

/// The page found for `n`, scanning from the end of the entry list.
pub open spec fn find_page(s: Seq<PageEntry>, n: u32) -> Option<Page>
    decreases s.len(),
{
    if s.len() == 0 {
        None
    } else if s.last().number == n {
        Some(s.last().page)
    } else {
        find_page(s.drop_last(), n)
    }
}

/// Whether the entry list is sorted by strictly ascending page number.
pub open spec fn entries_sorted(s: Seq<PageEntry>) -> bool {
    forall|i: int, j: int| 0 <= i < j < s.len() ==> s[i].number < s[j].number
}

/// Whether every page of the entry list holds exactly one page of bytes.
pub open spec fn entries_pages_wf(s: Seq<PageEntry>) -> bool {
    forall|i: int| 0 <= i < s.len() ==> (#[trigger] s[i].page).data@.len() == 4096
}

/// The page table: pages keyed by page number, sorted by number.
#[derive(Debug)]
pub struct PageTable {
    pages: Vec<PageEntry>,
}

impl PageTable {
    /// The entries of the table, in ascending page-number order.
    pub closed spec fn entries(self) -> Seq<PageEntry> {
        self.pages@
    }

    /// A page table is well formed when its entries are sorted by strictly
    /// ascending page number and every page holds exactly one page of bytes.
    pub open spec fn wf(self) -> bool {
        &&& entries_sorted(self.entries())
        &&& entries_pages_wf(self.entries())
    }

    /// The page stored for page number `n`.
    pub open spec fn spec_find(self, n: u32) -> Option<Page> {
        find_page(self.entries(), n)
    }

    /// Whether a page is allocated for page number `n`.
    pub open spec fn has_page(self, n: u32) -> bool {
        self.spec_find(n) is Some
    }

    /// The protection of the page for `n`.
    pub open spec fn page_prot(self, n: u32) -> ProtectionLevel {
        self.spec_find(n).unwrap().protection
    }

    /// The bytes of the page for `n`.
    pub open spec fn page_data(self, n: u32) -> Seq<u8> {
        self.spec_find(n).unwrap().data@
    }

    /// The byte stored at address `a`: the byte of its page at its offset,
    /// or 0 where no page is allocated.
    pub open spec fn byte_at(self, a: u32) -> u8 {
        if self.has_page(a / 4096) {
            self.page_data(a / 4096)[a as int % 4096]
        } else {
            0
        }
    }

    /// An empty page table.
    pub fn new() -> (r: PageTable)
        ensures
            r.wf(),
            forall|n: u32| !r.has_page(n),
    {
        PageTable { pages: Vec::new() }
    }
}

proof fn lemma_find_at(s: Seq<PageEntry>, i: int)
    requires
        entries_sorted(s),
        0 <= i < s.len(),
    ensures
        find_page(s, s[i].number) == Some(s[i].page),
    decreases s.len(),
{
    if i < s.len() - 1 {
        assert(s.drop_last()[i] == s[i]);
        lemma_find_at(s.drop_last(), i);
    }
}

proof fn lemma_find_absent(s: Seq<PageEntry>, n: u32)
    requires
        forall|i: int| 0 <= i < s.len() ==> (#[trigger] s[i]).number != n,
    ensures
        find_page(s, n) is None,
    decreases s.len(),
{
    if s.len() > 0 {
        lemma_find_absent(s.drop_last(), n);
    }
}

proof fn lemma_find_update(s: Seq<PageEntry>, i: int, e: PageEntry, m: u32)
    requires
        entries_sorted(s),
        0 <= i < s.len(),
        e.number == s[i].number,
    ensures
        find_page(s.update(i, e), m) == if m == e.number {
            Some(e.page)
        } else {
            find_page(s, m)
        },
    decreases s.len(),
{
    let t = s.update(i, e);
    assert(t.len() == s.len());
    if i == s.len() - 1 {
        assert(t.last() == e);
        assert(t.drop_last() =~= s.drop_last());
        if m == e.number {
        } else {
            assert(find_page(t, m) == find_page(t.drop_last(), m));
        }
    } else {
        assert(t.last() == s.last());
        assert(t.drop_last() =~= s.drop_last().update(i, e));
        lemma_find_update(s.drop_last(), i, e, m);
        if m == e.number {
            assert(s.last().number > s[i].number);
        }
    }
}

proof fn lemma_find_insert(s: Seq<PageEntry>, i: int, e: PageEntry, m: u32)
    requires
        0 <= i <= s.len(),
        forall|j: int| 0 <= j < s.len() ==> (#[trigger] s[j]).number != e.number,
    ensures
        find_page(s.insert(i, e), m) == if m == e.number {
            Some(e.page)
        } else {
            find_page(s, m)
        },
    decreases s.len(),
{
    let t = s.insert(i, e);
    assert(t.len() == s.len() + 1);
    if i == s.len() {
        assert(t.last() == e);
        assert(t.drop_last() =~= s);
    } else {
        assert(t.last() == s.last());
        assert(t.drop_last() =~= s.drop_last().insert(i, e));
        lemma_find_insert(s.drop_last(), i, e, m);
    }
}

impl PageTable {
    /// The index of the entry for `n`, where one exists.
    fn find_index(&self, n: u32) -> (r: Option<usize>)
        requires
            self.wf(),
        ensures
            match r {
                Some(i) => i < self.entries().len() && self.entries()[i as int].number == n
                    && self.spec_find(n) == Some(self.entries()[i as int].page),
                None => !self.has_page(n),
            },
    {
        let mut i: usize = 0;
        while i < self.pages.len()
            invariant
                self.wf(),
                i <= self.entries().len(),
                forall|j: int| 0 <= j < i ==> (#[trigger] self.entries()[j]).number != n,
            decreases self.entries().len() - i,
        {
            if self.pages[i].number == n {
                proof {
                    lemma_find_at(self.entries(), i as int);
                }
                return Some(i);
            }
            if self.pages[i].number > n {
                proof {
                    assert(forall|j: int| i <= j < self.entries().len() ==> (
                    #[trigger] self.entries()[j]).number >= self.entries()[i as int].number);
                    lemma_find_absent(self.entries(), n);
                }
                return None;
            }
            i = i + 1;
        }
        proof {
            lemma_find_absent(self.entries(), n);
        }
        None
    }

    /// The position at which an entry for `n` would be inserted to keep the
    /// entries sorted, where no entry for `n` exists.
    fn insert_position(&self, n: u32) -> (r: usize)
        requires
            self.wf(),
            !self.has_page(n),
        ensures
            r <= self.entries().len(),
            forall|j: int| 0 <= j < r ==> (#[trigger] self.entries()[j]).number < n,
            forall|j: int| r <= j < self.entries().len() ==> (#[trigger] self.entries()[j]).number
                > n,
    {
        let mut i: usize = 0;
        while i < self.pages.len()
            invariant
                self.wf(),
                !self.has_page(n),
                i <= self.entries().len(),
                forall|j: int| 0 <= j < i ==> (#[trigger] self.entries()[j]).number < n,
            decreases self.entries().len() - i,
        {
            if self.pages[i].number > n {
                return i;
            }
            if self.pages[i].number == n {
                proof {
                    lemma_find_at(self.entries(), i as int);
                }
            }
            i = i + 1;
        }
        i
    }

    /// Allocates a zero-filled page for `n` with the given protection,
    /// replacing any page already there.
    pub fn insert_page(&mut self, page_number: u32, protection: ProtectionLevel)
        requires
            old(self).wf(),
        ensures
            final(self).wf(),
            final(self).has_page(page_number),
            final(self).page_prot(page_number) == protection,
            final(self).page_data(page_number) =~= Seq::new(4096, |i: int| 0u8),
            forall|m: u32| m != page_number ==> final(self).spec_find(m) == old(self).spec_find(m),
    {
        let mut zeros: Vec<u8> = Vec::new();
        let mut k: usize = 0;
        while k < 4096
            invariant
                zeros@.len() == k,
                k <= 4096,
                forall|j: int| 0 <= j < k ==> zeros@[j] == 0,
            decreases 4096 - k,
        {
            zeros.push(0);
            k = k + 1;
        }
        let entry = PageEntry { number: page_number, page: Page { data: zeros, protection } };
        match self.find_index(page_number) {
            Some(i) => {
                proof {
                    lemma_find_update(self.entries(), i as int, entry, page_number);
                    assert(forall|m: u32| m != page_number ==> find_page(
                        self.entries().update(i as int, entry),
                        m,
                    ) == find_page(self.entries(), m)) by {
                        assert forall|m: u32| m != page_number implies find_page(
                            self.entries().update(i as int, entry),
                            m,
                        ) == find_page(self.entries(), m) by {
                            lemma_find_update(self.entries(), i as int, entry, m);
                        }
                    }
                }
                self.pages[i] = entry;
            }
            None => {
                let pos = self.insert_position(page_number);
                proof {
                    assert forall|m: u32| true implies find_page(
                        self.entries().insert(pos as int, entry),
                        m,
                    ) == if m == page_number {
                        Some(entry.page)
                    } else {
                        find_page(self.entries(), m)
                    } by {
                        lemma_find_insert(self.entries(), pos as int, entry, m);
                    }
                }
                self.pages.insert(pos, entry);
            }
        }
    }

    /// Ensures a zero-filled page with the given protection for every page
    /// number in the inclusive range; a page already there must carry the
    /// same protection, else the call fails with `ProtectionFault` and the
    /// table is unchanged.
    pub fn ensure_pages(&mut self, start_page: u32, end_page: u32, protection: ProtectionLevel)
        -> (r: Result<(), MemoryError>)
        requires
            old(self).wf(),
            end_page < 0x10_0000,
        ensures
            final(self).wf(),
            match r {
                Ok(_) => {
                    &&& forall|p: u32|
                        start_page <= p <= end_page ==> final(self).has_page(p) && final(self).page_prot(p) == protection
                    &&& forall|p: u32|
                        start_page <= p <= end_page && old(self).has_page(p) ==> final(self).spec_find(p) == old(self).spec_find(p)
                    &&& forall|p: u32|
                        start_page <= p <= end_page && !old(self).has_page(p) ==> final(self).page_data(p) =~= Seq::new(4096, |i: int| 0u8)
                    &&& forall|p: u32|
                        !(start_page <= p <= end_page) ==> final(self).spec_find(p) == old(self).spec_find(p)
                    &&& forall|p: u32|
                        start_page <= p <= end_page && old(self).has_page(p) ==> old(self).page_prot(p) == protection
                },
                Err(e) => {
                    &&& e == MemoryError::ProtectionFault
                    &&& *final(self) == *old(self)
                    &&& exists|p: u32|
                        start_page <= p <= end_page && old(self).has_page(p) && old(self).page_prot(p) != protection
                },
            },
    {
        // Check pass: an existing page with another protection is a fault.
        let mut p: u32 = start_page;
        while p <= end_page
            invariant
                *self == *old(self),
                self.wf(),
                start_page <= p,
                end_page < 0x10_0000,
                forall|q: u32|
                    start_page <= q < p && self.has_page(q) ==> self.page_prot(q) == protection,
            decreases end_page + 1 - p,
        {
            match self.find_index(p) {
                Some(i) => {
                    let existing = self.pages[i].page.protection;
                    if !(existing == protection) {
                        proof {
                            assert(old(self).has_page(p) && old(self).page_prot(p) != protection);
                        }
                        return Err(MemoryError::ProtectionFault);
                    }
                    proof {
                        assert(self.page_prot(p) == protection);
                    }
                }
                None => {}
            }
            p = p + 1;
        }
        proof {
            assert(forall|q: u32|
                start_page <= q <= end_page && self.has_page(q) ==> self.page_prot(q)
                    == protection);
        }
        // Create pass: allocate the missing pages.
        let ghost orig = *self;
        let mut p: u32 = start_page;
        while p <= end_page
            invariant
                self.wf(),
                start_page <= p,
                p <= end_page + 1 || p == start_page,
                end_page < 0x10_0000,
                forall|q: u32|
                    start_page <= q <= end_page && orig.has_page(q) ==> orig.page_prot(q)
                        == protection,
                forall|q: u32|
                    start_page <= q < p ==> self.has_page(q) && self.page_prot(q) == protection,
                forall|q: u32|
                    start_page <= q < p && orig.has_page(q) ==> self.spec_find(q) == orig.spec_find(
                        q,
                    ),
                forall|q: u32|
                    start_page <= q < p && !orig.has_page(q) ==> self.page_data(q) =~= Seq::new(
                        4096,
                        |i: int| 0u8,
                    ),
                forall|q: u32| !(start_page <= q < p) ==> self.spec_find(q) == orig.spec_find(q),
            decreases end_page + 1 - p,
        {
            let ghost pre = *self;
            match self.find_index(p) {
                Some(_) => {
                    proof {
                        assert(self.spec_find(p) == orig.spec_find(p));
                        assert(orig.has_page(p));
                        assert(self.page_prot(p) == protection);
                    }
                }
                None => {
                    proof {
                        assert(pre.spec_find(p) == orig.spec_find(p));
                        assert(!orig.has_page(p));
                    }
                    self.insert_page(p, protection);
                }
            }
            proof {
                assert forall|q: u32| start_page <= q <= p implies self.has_page(q)
                    && self.page_prot(q) == protection by {
                    if q == p {
                        assert(self.has_page(p));
                        assert(self.page_prot(p) == protection);
                    } else {
                        assert(self.spec_find(q) == pre.spec_find(q));
                        assert(pre.has_page(q) && pre.page_prot(q) == protection);
                    }
                }
                assert forall|q: u32| start_page <= q <= p && orig.has_page(q) implies
                    self.spec_find(q) == orig.spec_find(q) by {
                    if q != p {
                        assert(self.spec_find(q) == pre.spec_find(q));
                    }
                }
                assert forall|q: u32| start_page <= q <= p && !orig.has_page(q) implies
                    self.page_data(q) =~= Seq::new(4096, |i: int| 0u8) by {
                    if q != p {
                        assert(self.spec_find(q) == pre.spec_find(q));
                    }
                }
                assert forall|q: u32| !(start_page <= q <= p) implies self.spec_find(q)
                    == orig.spec_find(q) by {
                    assert(self.spec_find(q) == pre.spec_find(q));
                }
            }
            p = p + 1;
        }
        Ok(())
    }

    /// Overwrites the protection of the page for `page_number`, where one
    /// exists; absent pages are left absent.
    pub fn set_protection(&mut self, page_number: u32, protection: ProtectionLevel)
        requires
            old(self).wf(),
        ensures
            final(self).wf(),
            old(self).has_page(page_number) ==> final(self).spec_find(page_number) == Some(
                Page { data: old(self).spec_find(page_number).unwrap().data, protection },
            ),
            !old(self).has_page(page_number) ==> final(self).spec_find(page_number) is None,
            forall|m: u32| m != page_number ==> final(self).spec_find(m) == old(self).spec_find(m),
    {
        match self.find_index(page_number) {
            Some(i) => {
                let ghost olde = self.entries()[i as int];
                self.pages[i].page.protection = protection;
                proof {
                    let e2 = PageEntry {
                        number: olde.number,
                        page: Page { data: olde.page.data, protection },
                    };
                    assert(self.entries() =~= old(self).entries().update(i as int, e2));
                    assert forall|m: u32| true implies find_page(self.entries(), m) == if m
                        == page_number {
                        Some(e2.page)
                    } else {
                        find_page(old(self).entries(), m)
                    } by {
                        lemma_find_update(old(self).entries(), i as int, e2, m);
                    }
                }
            }
            None => {}
        }
    }

    /// Overwrites the protection of the existing pages of the inclusive range.
    pub fn set_protections(&mut self, start_page: u32, end_page: u32, protection: ProtectionLevel)
        requires
            old(self).wf(),
            end_page < 0x10_0000,
        ensures
            final(self).wf(),
            forall|p: u32|
                start_page <= p <= end_page && old(self).has_page(p) ==> final(self).spec_find(p)
                    == Some(Page { data: old(self).spec_find(p).unwrap().data, protection }),
            forall|p: u32|
                start_page <= p <= end_page && !old(self).has_page(p) ==> final(self).spec_find(p)
                    is None,
            forall|p: u32|
                !(start_page <= p <= end_page) ==> final(self).spec_find(p) == old(self).spec_find(
                    p,
                ),
    {
        let ghost orig = *self;
        let mut p: u32 = start_page;
        while p <= end_page
            invariant
                self.wf(),
                start_page <= p,
                p <= end_page + 1 || p == start_page,
                end_page < 0x10_0000,
                forall|q: u32|
                    start_page <= q < p && orig.has_page(q) ==> self.spec_find(q) == Some(
                        Page { data: orig.spec_find(q).unwrap().data, protection },
                    ),
                forall|q: u32|
                    start_page <= q < p && !orig.has_page(q) ==> self.spec_find(q) is None,
                forall|q: u32| !(start_page <= q < p) ==> self.spec_find(q) == orig.spec_find(q),
            decreases end_page + 1 - p,
        {
            let ghost pre = *self;
            proof {
                assert(pre.spec_find(p) == orig.spec_find(p));
            }
            self.set_protection(p, protection);
            proof {
                assert forall|q: u32| start_page <= q <= p && orig.has_page(q) implies
                    self.spec_find(q) == Some(
                    Page { data: orig.spec_find(q).unwrap().data, protection },
                ) by {
                    if q != p {
                        assert(self.spec_find(q) == pre.spec_find(q));
                    }
                }
                assert forall|q: u32| start_page <= q <= p && !orig.has_page(q) implies
                    self.spec_find(q) is None by {
                    if q != p {
                        assert(self.spec_find(q) == pre.spec_find(q));
                    }
                }
                assert forall|q: u32| !(start_page <= q <= p) implies self.spec_find(q)
                    == orig.spec_find(q) by {
                    assert(self.spec_find(q) == pre.spec_find(q));
                }
            }
            p = p + 1;
        }
    }

    /// The page for `page_number`, where one exists.
    pub fn get_page(&self, page_number: u32) -> (r: Option<&Page>)
        requires
            self.wf(),
        ensures
            match r {
                Some(p) => self.spec_find(page_number) == Some(*p),
                None => !self.has_page(page_number),
            },
    {
        match self.find_index(page_number) {
            Some(i) => Some(&self.pages[i].page),
            None => None,
        }
    }
}

/// The fault for the first page of `count` pages from `first` that is
/// absent or lacks the wanted permission: `SegmentFault` for an absent page,
/// `ProtectionFault` for a present page without the permission.
pub open spec fn check_pages(pt: PageTable, first: int, count: nat, want_write: bool) -> Option<
    MemoryError,
>
    decreases count,
{
    if count == 0 {
        None
    } else if !pt.has_page(first as u32) {
        Some(MemoryError::SegmentFault)
    } else if !(if want_write {
        prot_writable(pt.page_prot(first as u32))
    } else {
        prot_readable(pt.page_prot(first as u32))
    }) {
        Some(MemoryError::ProtectionFault)
    } else {
        check_pages(pt, first + 1, (count - 1) as nat, want_write)
    }
}

/// The number of pages an access of `len` bytes at `a` touches.
pub open spec fn span_count(a: u32, len: nat) -> nat {
    if len == 0 {
        0
    } else {
        ((a + len - 1) / 4096 - a / 4096 + 1) as nat
    }
}

proof fn lemma_check_pages_ok(pt: PageTable, first: int, count: nat, want_write: bool, p: int)
    requires
        check_pages(pt, first, count, want_write) is None,
        first <= p < first + count,
    ensures
        pt.has_page(p as u32),
        want_write ==> prot_writable(pt.page_prot(p as u32)),
        !want_write ==> prot_readable(pt.page_prot(p as u32)),
    decreases count,
{
    if p > first {
        lemma_check_pages_ok(pt, first + 1, (count - 1) as nat, want_write, p);
    }
}

proof fn lemma_check_pages_same(pt1: PageTable, pt2: PageTable, first: int, count: nat, w: bool)
    requires
        forall|n: u32| pt1.spec_find(n) is Some <==> pt2.spec_find(n) is Some,
        forall|n: u32|
            pt1.spec_find(n) is Some ==> pt1.page_prot(n) == pt2.page_prot(n),
    ensures
        check_pages(pt1, first, count, w) == check_pages(pt2, first, count, w),
    decreases count,
{
    if count > 0 {
        lemma_check_pages_same(pt1, pt2, first + 1, (count - 1) as nat, w);
    }
}

impl PageTable {
    /// Writes one byte at address `a` into its allocated page.
    fn set_byte(&mut self, a: u32, b: u8)
        requires
            old(self).wf(),
            old(self).has_page(a / 4096),
        ensures
            final(self).wf(),
            forall|n: u32| final(self).has_page(n) == old(self).has_page(n),
            forall|n: u32|
                old(self).has_page(n) ==> final(self).page_prot(n) == old(self).page_prot(n),
            forall|n: u32| n != a / 4096 ==> final(self).spec_find(n) == old(self).spec_find(n),
            final(self).byte_at(a) == b,
            forall|x: u32| x != a ==> final(self).byte_at(x) == old(self).byte_at(x),
    {
        let pn = a / 4096;
        let off = (a % 4096) as usize;
        let i = match self.find_index(pn) {
            Some(i) => i,
            None => {
                proof {
                    assert(false);
                }
                0
            }
        };
        let ghost olde = self.entries()[i as int];
        self.pages[i].page.data[off] = b;
        proof {
            let e2 = self.entries()[i as int];
            assert(e2.number == olde.number);
            assert(e2.page.data@ =~= olde.page.data@.update(off as int, b));
            assert(e2.page.protection == olde.page.protection);
            assert(self.entries() =~= old(self).entries().update(i as int, e2));
            assert forall|m: u32| true implies find_page(self.entries(), m) == if m == pn {
                Some(e2.page)
            } else {
                find_page(old(self).entries(), m)
            } by {
                lemma_find_update(old(self).entries(), i as int, e2, m);
            }
            assert forall|x: u32| x != a implies self.byte_at(x) == old(self).byte_at(x) by {
                if x / 4096 == pn {
                    lemma_fundamental_div_mod(x as int, 4096);
                    lemma_fundamental_div_mod(a as int, 4096);
                    assert(x as int % 4096 != a as int % 4096);
                }
            }
        }
    }

    /// Reads the byte at address `a` from its allocated page.
    fn get_byte(&self, a: u32) -> (r: u8)
        requires
            self.wf(),
            self.has_page(a / 4096),
        ensures
            r == self.byte_at(a),
    {
        let pn = a / 4096;
        let off = (a % 4096) as usize;
        match self.find_index(pn) {
            Some(i) => self.pages[i].page.data[off],
            None => {
                proof {
                    assert(false);
                }
                0
            }
        }
    }

    /// Checks that every page an access of `len` bytes at `a` touches is
    /// present and carries the wanted permission, reporting the fault of the
    /// first page that does not.
    fn check_span(&self, a: u32, len: usize, want_write: bool) -> (r: Result<(), MemoryError>)
        requires
            self.wf(),
            a + len <= 0x1_0000_0000,
        ensures
            match r {
                Ok(_) => check_pages(*self, a as int / 4096, span_count(a, len as nat), want_write)
                    is None,
                Err(e) => check_pages(*self, a as int / 4096, span_count(a, len as nat), want_write)
                    == Some(e),
            },
    {
        if len == 0 {
            return Ok(());
        }
        let first: u32 = a / 4096;
        let last: u32 = (a + ((len - 1) as u32)) / 4096;
        let mut p: u32 = first;
        while p <= last
            invariant
                self.wf(),
                first == a / 4096,
                last == (a + len - 1) / 4096,
                len > 0,
                a + len <= 0x1_0000_0000,
                first <= p <= last + 1,
                check_pages(*self, first as int, span_count(a, len as nat), want_write)
                    == check_pages(*self, p as int, (last - p + 1) as nat, want_write),
            decreases last + 1 - p,
        {
            match self.find_index(p) {
                Some(i) => {
                    if !self.pages[i].page.protection.is_writable() && want_write {
                        return Err(MemoryError::ProtectionFault);
                    }
                    if !self.pages[i].page.protection.is_readable() && !want_write {
                        return Err(MemoryError::ProtectionFault);
                    }
                }
                None => {
                    return Err(MemoryError::SegmentFault);
                }
            }
            p = p + 1;
        }
        Ok(())
    }

    /// Writes `bytes` at `address`, spanning pages as needed. Every touched
    /// page must be allocated and writable; otherwise the table is unchanged
    /// and the fault of the first failing page is returned.
    pub fn write_bytes(&mut self, address: Address, bytes: &[u8]) -> (r: Result<(), MemoryError>)
        requires
            old(self).wf(),
            address.0 + bytes@.len() <= 0x1_0000_0000,
        ensures
            final(self).wf(),
            forall|n: u32| final(self).has_page(n) == old(self).has_page(n),
            forall|n: u32|
                old(self).has_page(n) ==> final(self).page_prot(n) == old(self).page_prot(n),
            match r {
                Ok(_) => {
                    &&& check_pages(
                        *old(self),
                        address.0 as int / 4096,
                        span_count(address.0, bytes@.len()),
                        true,
                    ) is None
                    &&& forall|i: int|
                        0 <= i < bytes@.len() ==> final(self).byte_at((address.0 + i) as u32)
                            == bytes@[i]
                    &&& forall|x: u32|
                        !(address.0 <= x < address.0 + bytes@.len()) ==> final(self).byte_at(x)
                            == old(self).byte_at(x)
                },
                Err(e) => {
                    &&& check_pages(
                        *old(self),
                        address.0 as int / 4096,
                        span_count(address.0, bytes@.len()),
                        true,
                    ) == Some(e)
                    &&& *final(self) == *old(self)
                },
            },
    {
        let a = address.0;
        match self.check_span(a, bytes.len(), true) {
            Ok(_) => {}
            Err(e) => {
                return Err(e);
            }
        }
        let ghost orig = *self;
        let mut i: usize = 0;
        while i < bytes.len()
            invariant
                self.wf(),
                i <= bytes@.len(),
                a == address.0,
                a + bytes@.len() <= 0x1_0000_0000,
                check_pages(orig, a as int / 4096, span_count(a, bytes@.len()), true) is None,
                forall|n: u32| self.has_page(n) == orig.has_page(n),
                forall|n: u32| orig.has_page(n) ==> self.page_prot(n) == orig.page_prot(n),
                forall|j: int| 0 <= j < i ==> self.byte_at((a + j) as u32) == bytes@[j],
                forall|x: u32| !(a <= x < a + i) ==> self.byte_at(x) == orig.byte_at(x),
            decreases bytes@.len() - i,
        {
            let x: u32 = a + (i as u32);
            proof {
                assert(a as int / 4096 <= x as int / 4096 <= (a + bytes@.len() - 1) as int / 4096)
                    by (nonlinear_arith)
                    requires
                        a == address.0,
                        0 <= i < bytes@.len(),
                        x == a + i,
                        a + bytes@.len() <= 0x1_0000_0000,
                ;
                lemma_check_pages_ok(
                    orig,
                    a as int / 4096,
                    span_count(a, bytes@.len()),
                    true,
                    x as int / 4096,
                );
                assert(self.has_page(x / 4096));
            }
            self.set_byte(x, bytes[i]);
            i = i + 1;
        }
        Ok(())
    }

    /// Reads `size` bytes at `address`, spanning pages as needed. Every
    /// touched page must be allocated and readable; otherwise the fault of
    /// the first failing page is returned.
    pub fn read_bytes(&self, address: Address, size: usize) -> (r: Result<Vec<u8>, MemoryError>)
        requires
            self.wf(),
            address.0 + size <= 0x1_0000_0000,
        ensures
            match r {
                Ok(v) => {
                    &&& check_pages(
                        *self,
                        address.0 as int / 4096,
                        span_count(address.0, size as nat),
                        false,
                    ) is None
                    &&& v@.len() == size
                    &&& forall|i: int|
                        0 <= i < size ==> v@[i] == self.byte_at((address.0 + i) as u32)
                },
                Err(e) => check_pages(
                    *self,
                    address.0 as int / 4096,
                    span_count(address.0, size as nat),
                    false,
                ) == Some(e),
            },
    {
        let a = address.0;
        match self.check_span(a, size, false) {
            Ok(_) => {}
            Err(e) => {
                return Err(e);
            }
        }
        let mut out: Vec<u8> = Vec::new();
        let mut i: usize = 0;
        while i < size
            invariant
                self.wf(),
                i <= size,
                a == address.0,
                a + size <= 0x1_0000_0000,
                check_pages(*self, a as int / 4096, span_count(a, size as nat), false) is None,
                out@.len() == i,
                forall|j: int| 0 <= j < i ==> out@[j] == self.byte_at((a + j) as u32),
            decreases size - i,
        {
            let x: u32 = a + (i as u32);
            proof {
                assert(a as int / 4096 <= x as int / 4096 <= (a + size - 1) as int / 4096)
                    by (nonlinear_arith)
                    requires
                        a == address.0,
                        0 <= i < size,
                        x == a + i,
                        a + size <= 0x1_0000_0000,
                ;
                lemma_check_pages_ok(
                    *self,
                    a as int / 4096,
                    span_count(a, size as nat),
                    false,
                    x as int / 4096,
                );
            }
            let b = self.get_byte(x);
            out.push(b);
            i = i + 1;
        }
        Ok(out)
    }

    /// The page for `page_number`, mutably, where one exists.
    pub fn get_page_mut(&mut self, page_number: u32) -> (r: Option<&mut Page>)
        requires
            old(self).wf(),
        ensures
            match r {
                Some(p) => {
                    &&& old(self).spec_find(page_number) == Some(*p)
                    &&& (*final(p)).data@.len() == 4096 ==> final(self).wf()
                    &&& final(self).spec_find(page_number) == Some(*final(p))
                    &&& forall|m: u32|
                        m != page_number ==> final(self).spec_find(m) == old(self).spec_find(m)
                },
                None => !old(self).has_page(page_number) && *final(self) == *old(self),
            },
    {
        match self.find_index(page_number) {
            Some(i) => {
                let ghost oldents = self.entries();
                let p = &mut self.pages[i].page;
                proof {
                    let e2 = PageEntry { number: page_number, page: *final(p) };
                    assert forall|m: u32| true implies find_page(
                        oldents.update(i as int, e2),
                        m,
                    ) == if m == page_number {
                        Some(*final(p))
                    } else {
                        find_page(oldents, m)
                    } by {
                        lemma_find_update(oldents, i as int, e2, m);
                    }
                }
                Some(p)
            }
            None => None,
        }
    }
}

/// A named address range `[start, end)` of the address space.
#[derive(Debug)]
pub struct MemorySegment {
    /// The name of the segment.
    pub name: String,
    /// The first address of the segment.
    pub start_address: Address,
    /// The first address past the segment.
    pub end_address: Address,
}

/// The address recorded for `name`, scanning from the end of the entry list.
pub open spec fn find_label(s: Seq<(String, Address)>, name: Seq<char>) -> Option<Address>
    decreases s.len(),
{
    if s.len() == 0 {
        None
    } else if s.last().0@ == name {
        Some(s.last().1)
    } else {
        find_label(s.drop_last(), name)
    }
}

/// The first label of the entry list recorded at address `a`.
pub open spec fn first_label_at(s: Seq<(String, Address)>, a: Address) -> Option<Seq<char>>
    decreases s.len(),
{
    if s.len() == 0 {
        None
    } else if s.first().1 == a {
        Some(s.first().0@)
    } else {
        first_label_at(s.drop_first(), a)
    }
}

/// The label table: each label name with its resolved address.
#[derive(Debug)]
pub struct LabelMap {
    entries: Vec<(String, Address)>,
}

impl LabelMap {
    /// The entries of the table, in insertion order.
    pub closed spec fn entries(self) -> Seq<(String, Address)> {
        self.entries@
    }

    /// A label table is well formed when no name occurs twice.
    pub open spec fn wf(self) -> bool {
        forall|i: int, j: int|
            0 <= i < j < self.entries().len() ==> (#[trigger] self.entries()[i]).0@ != (
            #[trigger] self.entries()[j]).0@
    }

    /// The address recorded for `name`.
    pub open spec fn spec_get(self, name: Seq<char>) -> Option<Address> {
        find_label(self.entries(), name)
    }

    /// The first label recorded at address `a`.
    pub open spec fn spec_label_at(self, a: Address) -> Option<Seq<char>> {
        first_label_at(self.entries(), a)
    }

    /// An empty label table.
    pub fn new() -> (r: LabelMap)
        ensures
            r.wf(),
            r.entries() =~= Seq::<(String, Address)>::empty(),
            forall|n: Seq<char>| r.spec_get(n) is None,
    {
        LabelMap { entries: Vec::new() }
    }

    /// The number of labels in the table.
    pub fn len(&self) -> (r: usize)
        ensures
            r == self.entries().len(),
    {
        self.entries.len()
    }

    /// The name and address of the entry at position `i`.
    pub fn entry_at(&self, i: usize) -> (r: (&String, Address))
        requires
            i < self.entries().len(),
        ensures
            *r.0 == self.entries()[i as int].0,
            r.1 == self.entries()[i as int].1,
    {
        (&self.entries[i].0, self.entries[i].1)
    }

    /// Records `address` for `name`, replacing any previous record.
    pub fn insert(&mut self, name: String, address: Address)
        requires
            old(self).wf(),
        ensures
            final(self).wf(),
            final(self).spec_get(name@) == Some(address),
            forall|n: Seq<char>|
                n != name@ ==> final(self).spec_get(n) == old(self).spec_get(n),
    {
        let ghost orig = self.entries@;
        proof {
            assert(forall|p: int, q: int|
                0 <= p < q < orig.len() ==> (#[trigger] orig[p]).0@ != (#[trigger] orig[q]).0@);
        }
        let mut i: usize = 0;
        while i < self.entries.len()
            invariant
                orig == self.entries@,
                orig == old(self).entries(),
                i <= orig.len(),
                forall|j: int| 0 <= j < i ==> (#[trigger] orig[j]).0@ != name@,
                forall|p: int, q: int|
                    0 <= p < q < orig.len() ==> (#[trigger] orig[p]).0@ != (
                    #[trigger] orig[q]).0@,
                self.wf(),
            decreases orig.len() - i,
        {
            if self.entries[i].0 == name {
                self.entries[i] = (name, address);
                proof {
                    let e2 = self.entries()[i as int];
                    assert(e2.1 == address && e2.0@ == orig[i as int].0@);
                    assert(self.entries() =~= orig.update(i as int, e2));
                    lemma_find_label_update(orig, i as int, e2, name@);
                    assert forall|n: Seq<char>| n != name@ implies self.spec_get(n) == find_label(
                        orig,
                        n,
                    ) by {
                        lemma_find_label_update(orig, i as int, e2, n);
                        assert(self.entries() == orig.update(i as int, e2));
                    }
                    assert forall|p: int, q: int| 0 <= p < q < self.entries().len() implies (
                    #[trigger] self.entries()[p]).0@ != (#[trigger] self.entries()[q]).0@ by {
                        assert(orig[p].0@ != orig[q].0@);
                        assert(self.entries()[p].0@ == if p == i { orig[i as int].0@ } else {
                            orig[p].0@
                        });
                        assert(self.entries()[q].0@ == if q == i { orig[i as int].0@ } else {
                            orig[q].0@
                        });
                    }
                }
                return ;
            }
            i = i + 1;
        }
        proof {
            lemma_find_label_absent(orig, name@);
        }
        self.entries.push((name, address));
        proof {
            assert(self.entries@.drop_last() =~= orig);
            assert(self.entries().last().0@ == name@);
            assert forall|p: int, q: int| 0 <= p < q < self.entries().len() implies (
            #[trigger] self.entries()[p]).0@ != (#[trigger] self.entries()[q]).0@ by {
                if q == self.entries().len() - 1 {
                    assert(orig[p].0@ != name@);
                } else {
                    assert(orig[p].0@ != orig[q].0@);
                }
            }
        }
    }

    /// The address recorded for `name`.
    pub fn get(&self, name: &str) -> (r: Option<Address>)
        requires
            self.wf(),
        ensures
            r == self.spec_get(name@),
    {
        let mut i: usize = 0;
        while i < self.entries.len()
            invariant
                self.wf(),
                i <= self.entries().len(),
                forall|j: int| 0 <= j < i ==> (#[trigger] self.entries()[j]).0@ != name@,
            decreases self.entries().len() - i,
        {
            if crate::fmt::str_eq(self.entries[i].0.as_str(), name) {
                proof {
                    lemma_find_label_at(self.entries(), i as int, name@);
                }
                return Some(self.entries[i].1);
            }
            i = i + 1;
        }
        proof {
            lemma_find_label_absent(self.entries(), name@);
        }
        None
    }

    /// The first label recorded at address `a`.
    pub fn label_at(&self, a: Address) -> (r: Option<&String>)
        ensures
            match r {
                Some(l) => self.spec_label_at(a) == Some(l@),
                None => self.spec_label_at(a) is None,
            },
    {
        proof {
            assert(self.entries().skip(0) =~= self.entries());
        }
        let mut i: usize = 0;
        while i < self.entries.len()
            invariant
                i <= self.entries().len(),
                first_label_at(self.entries(), a) == first_label_at(
                    self.entries().skip(i as int),
                    a,
                ),
            decreases self.entries().len() - i,
        {
            if self.entries[i].1 == a {
                proof {
                    assert(self.entries().skip(i as int).first() == self.entries()[i as int]);
                }
                return Some(&self.entries[i].0);
            }
            proof {
                assert(self.entries().skip(i as int).drop_first() =~= self.entries().skip(i + 1));
            }
            i = i + 1;
        }
        proof {
            assert(self.entries().skip(i as int).len() == 0);
        }
        None
    }
}

proof fn lemma_find_label_at(s: Seq<(String, Address)>, i: int, name: Seq<char>)
    requires
        forall|p: int, q: int|
            0 <= p < q < s.len() ==> (#[trigger] s[p]).0@ != (#[trigger] s[q]).0@,
        0 <= i < s.len(),
        s[i].0@ == name,
    ensures
        find_label(s, name) == Some(s[i].1),
    decreases s.len(),
{
    if i < s.len() - 1 {
        assert(s.drop_last()[i] == s[i]);
        lemma_find_label_at(s.drop_last(), i, name);
    }
}

proof fn lemma_find_label_absent(s: Seq<(String, Address)>, name: Seq<char>)
    requires
        forall|j: int| 0 <= j < s.len() ==> (#[trigger] s[j]).0@ != name,
    ensures
        find_label(s, name) is None,
    decreases s.len(),
{
    if s.len() > 0 {
        lemma_find_label_absent(s.drop_last(), name);
    }
}

proof fn lemma_find_label_update(s: Seq<(String, Address)>, i: int, e: (String, Address), m: Seq<
    char,
>)
    requires
        forall|p: int, q: int|
            0 <= p < q < s.len() ==> (#[trigger] s[p]).0@ != (#[trigger] s[q]).0@,
        0 <= i < s.len(),
        e.0@ == s[i].0@,
    ensures
        find_label(s.update(i, e), m) == if m == e.0@ {
            Some(e.1)
        } else {
            find_label(s, m)
        },
    decreases s.len(),
{
    let t = s.update(i, e);
    if i == s.len() - 1 {
        assert(t.last() == e);
        assert(t.drop_last() =~= s.drop_last());
    } else {
        assert(t.last() == s.last());
        assert(t.drop_last() =~= s.drop_last().update(i, e));
        lemma_find_label_update(s.drop_last(), i, e, m);
    }
}

/// The 16-bit value of two little-endian bytes.
pub open spec fn le16(b0: u8, b1: u8) -> u16 {
    (b0 + b1 * 0x100) as u16
}

/// The 32-bit value of four little-endian bytes.
pub open spec fn le32(b0: u8, b1: u8, b2: u8, b3: u8) -> u32 {
    (b0 + b1 * 0x100 + b2 * 0x1_0000 + b3 * 0x100_0000) as u32
}

/// Whether address `a` lies in segment `s`.
pub open spec fn seg_contains(s: MemorySegment, a: u32) -> bool {
    s.start_address.0 <= a < s.end_address.0
}

/// The first segment of the list that contains `a`.
pub open spec fn first_seg(ss: Seq<MemorySegment>, a: u32) -> Option<MemorySegment>
    decreases ss.len(),
{
    if ss.len() == 0 {
        None
    } else if seg_contains(ss.first(), a) {
        Some(ss.first())
    } else {
        first_seg(ss.drop_first(), a)
    }
}

pub proof fn lemma_first_seg_contains(ss: Seq<MemorySegment>, a: u32)
    requires
        first_seg(ss, a) is Some,
    ensures
        seg_contains(first_seg(ss, a).unwrap(), a),
    decreases ss.len(),
{
    if ss.len() > 0 && !seg_contains(ss.first(), a) {
        lemma_first_seg_contains(ss.drop_first(), a);
    }
}

/// Whether every page at or above the data region carries exactly
/// read-write protection: the region the data, heap, stack and
/// memory-mapped segments share.
pub open spec fn rw_region_ok(pt: PageTable) -> bool {
    forall|pn: u32|
        pn >= DATA_START / 4096 && #[trigger] pt.has_page(pn) ==> pt.page_prot(pn)
            == ProtectionLevel::ReadWrite
}

/// Whether every writable page is exactly read-write: the machine never
/// uses a write-only or write-execute page.
pub open spec fn writable_is_rw(pt: PageTable) -> bool {
    forall|pn: u32|
        #[trigger] pt.has_page(pn) && prot_writable(pt.page_prot(pn)) ==> pt.page_prot(pn)
            == ProtectionLevel::ReadWrite
}

/// The protection invariants carry over a step that gives every page of
/// one range read-write protection and keeps every other page.
proof fn lemma_rw_after_ensure(pt1: PageTable, pt2: PageTable, lo: u32, hi: u32)
    requires
        rw_region_ok(pt1),
        writable_is_rw(pt1),
        forall|p: u32|
            lo <= p <= hi ==> #[trigger] pt2.has_page(p) && pt2.page_prot(p)
                == ProtectionLevel::ReadWrite,
        forall|p: u32| !(lo <= p <= hi) ==> #[trigger] pt2.spec_find(p) == pt1.spec_find(p),
    ensures
        rw_region_ok(pt2),
        writable_is_rw(pt2),
{
    assert forall|pn: u32| pn >= DATA_START / 4096 && #[trigger] pt2.has_page(pn) implies
        pt2.page_prot(pn) == ProtectionLevel::ReadWrite by {
        if lo <= pn <= hi {
            assert(pt2.page_prot(pn) == ProtectionLevel::ReadWrite);
        } else {
            assert(pt2.spec_find(pn) == pt1.spec_find(pn));
            assert(pt1.has_page(pn));
            assert(pt1.page_prot(pn) == ProtectionLevel::ReadWrite);
            assert(pt2.page_prot(pn) == pt1.page_prot(pn));
        }
    }
    assert forall|pn: u32| #[trigger] pt2.has_page(pn) && prot_writable(pt2.page_prot(pn))
        implies pt2.page_prot(pn) == ProtectionLevel::ReadWrite by {
        if lo <= pn <= hi {
            assert(pt2.page_prot(pn) == ProtectionLevel::ReadWrite);
        } else {
            assert(pt2.spec_find(pn) == pt1.spec_find(pn));
            assert(pt1.has_page(pn));
            assert(pt2.page_prot(pn) == pt1.page_prot(pn));
            assert(prot_writable(pt1.page_prot(pn)));
            assert(pt1.page_prot(pn) == ProtectionLevel::ReadWrite);
        }
    }
}

/// The protection invariants carry over a step that keeps every page and
/// its protection.
proof fn lemma_rw_kept(pt1: PageTable, pt2: PageTable)
    requires
        rw_region_ok(pt1),
        writable_is_rw(pt1),
        forall|n: u32| pt2.has_page(n) == pt1.has_page(n),
        forall|n: u32| pt1.has_page(n) ==> pt2.page_prot(n) == pt1.page_prot(n),
    ensures
        rw_region_ok(pt2),
        writable_is_rw(pt2),
{
}

/// A found segment contains the address it was found for.
pub proof fn lemma_seg_holds(m: Memory, a: u32)
    requires
        m.find_seg(a) is Some,
    ensures
        seg_contains(m.find_seg(a).unwrap(), a),
{
    lemma_first_seg_contains(m.segments(), a);
}

/// In a well-formed memory, an address at or past the heap end and below
/// the stack end lies in the stack segment exactly when it is below the
/// stack end and at or past the stack start; no other segment can claim it.
pub proof fn lemma_stack_claims(m: Memory, a: u32)
    requires
        m.wf(),
        a >= m.spec_heap().end_address.0,
        a <= m.spec_stack().end_address.0,
    ensures
        m.find_seg(a) == if m.spec_stack().start_address.0 <= a < m.spec_stack().end_address.0 {
            Some(m.spec_stack())
        } else {
            None::<MemorySegment>
        },
{
    let segs = m.segments();
    let rest = seq![m.spec_text(), m.spec_heap(), m.spec_stack()] + m.spec_extras();
    match m.spec_data() {
        Some(d) => {
            assert(segs.first() == d);
            assert(!seg_contains(d, a));
            assert(segs.drop_first() =~= rest);
        }
        None => {
            assert(segs =~= rest);
        }
    }
    assert(first_seg(segs, a) == first_seg(rest, a));
    assert(rest.first() == m.spec_text());
    assert(!seg_contains(m.spec_text(), a));
    let rest2 = seq![m.spec_heap(), m.spec_stack()] + m.spec_extras();
    assert(rest.drop_first() =~= rest2);
    assert(rest2.first() == m.spec_heap());
    assert(!seg_contains(m.spec_heap(), a));
    let rest3 = seq![m.spec_stack()] + m.spec_extras();
    assert(rest2.drop_first() =~= rest3);
    assert(rest3.first() == m.spec_stack());
    assert(first_seg(rest2, a) == first_seg(rest3, a));
    if seg_contains(m.spec_stack(), a) {
        assert(first_seg(rest3, a) == Some(m.spec_stack()));
        assert(m.find_seg(a) == Some(m.spec_stack()));
    } else {
        assert(rest3.drop_first() =~= m.spec_extras());
        assert(first_seg(rest3, a) == first_seg(m.spec_extras(), a));
        assert forall|q: int| 0 <= q < m.spec_extras().len() implies !seg_contains(
            #[trigger] m.spec_extras()[q],
            a,
        ) by {
            assert(m.spec_extras()[q].start_address.0 >= MMIO_START);
            assert(a <= STACK_TOP);
        }
        lemma_first_seg_none(m.spec_extras(), a);
        assert(m.find_seg(a) is None);
    }
}

proof fn lemma_first_seg_none(ss: Seq<MemorySegment>, a: u32)
    requires
        forall|q: int| 0 <= q < ss.len() ==> !seg_contains(#[trigger] ss[q], a),
    ensures
        first_seg(ss, a) is None,
    decreases ss.len(),
{
    if ss.len() > 0 {
        assert(ss[0] == ss.first());
        assert forall|q: int| 0 <= q < ss.drop_first().len() implies !seg_contains(
            #[trigger] ss.drop_first()[q],
            a,
        ) by {
            assert(ss.drop_first()[q] == ss[q + 1]);
        }
        lemma_first_seg_none(ss.drop_first(), a);
    }
}

/// Pages that pass the write check also pass the read check afterwards,
/// where every writable page is read-write and pages and protections are
/// kept.
proof fn lemma_read_after_write(pt1: PageTable, pt2: PageTable, first: int, count: nat)
    requires
        check_pages(pt1, first, count, true) is None,
        writable_is_rw(pt1),
        forall|n: u32| pt2.has_page(n) == pt1.has_page(n),
        forall|n: u32| pt1.has_page(n) ==> pt2.page_prot(n) == pt1.page_prot(n),
    ensures
        check_pages(pt2, first, count, false) is None,
    decreases count,
{
    if count > 0 {
        assert(pt1.has_page(first as u32));
        assert(pt1.page_prot(first as u32) == ProtectionLevel::ReadWrite);
        lemma_read_after_write(pt1, pt2, first + 1, (count - 1) as nat);
    }
}

/// The memory of the machine: the paged address space, its named segments,
/// the label table, and the instruction stream of the text segment.
#[derive(Debug)]
pub struct Memory {
    page_table: PageTable,
    labels: LabelMap,
    text_seg: MemorySegment,
    data_seg: Option<MemorySegment>,
    heap_seg: MemorySegment,
    stack_seg: MemorySegment,
    extra_segs: Vec<MemorySegment>,
    text_instructions: Vec<Instruction>,
}

impl Memory {
    /// The page table of the memory.
    pub closed spec fn table(self) -> PageTable {
        self.page_table
    }

    /// The label table of the memory.
    pub closed spec fn label_map(self) -> LabelMap {
        self.labels
    }

    /// The text segment.
    pub closed spec fn spec_text(self) -> MemorySegment {
        self.text_seg
    }

    /// The data segment, where the program has one.
    pub closed spec fn spec_data(self) -> Option<MemorySegment> {
        self.data_seg
    }

    /// The heap segment.
    pub closed spec fn spec_heap(self) -> MemorySegment {
        self.heap_seg
    }

    /// The stack segment.
    pub closed spec fn spec_stack(self) -> MemorySegment {
        self.stack_seg
    }

    /// The further segments: memory-mapped ranges and added sections.
    pub closed spec fn spec_extras(self) -> Seq<MemorySegment> {
        self.extra_segs@
    }

    /// The instruction stream laid into the text segment.
    pub closed spec fn instrs(self) -> Seq<Instruction> {
        self.text_instructions@
    }

    /// The segments of the memory, in lookup order.
    pub open spec fn segments(self) -> Seq<MemorySegment> {
        (match self.spec_data() {
            Some(d) => seq![d],
            None => Seq::empty(),
        }) + seq![self.spec_text(), self.spec_heap(), self.spec_stack()] + self.spec_extras()
    }

    /// The segment that an access at `a` falls in.
    pub open spec fn find_seg(self, a: u32) -> Option<MemorySegment> {
        first_seg(self.segments(), a)
    }

    /// The byte stored at `a`.
    pub open spec fn byte_at(self, a: u32) -> u8 {
        self.table().byte_at(a)
    }

    /// A memory is well formed when its page and label tables are; the
    /// segments keep their fixed regions in order (text below the data
    /// region, data below the heap start, heap end at or before the stack
    /// start, stack below the memory-mapped range where the extra segments
    /// live); the text segment holds exactly its instructions, four bytes
    /// each; and the pages of the data region upward are read-write, with
    /// no other writable protection in use anywhere.
    pub open spec fn wf(self) -> bool {
        &&& self.table().wf()
        &&& self.label_map().wf()
        &&& self.spec_text().start_address.0 >= TEXT_START
        &&& self.spec_text().end_address.0 <= TEXT_LIMIT
        &&& self.spec_text().start_address.0 <= self.spec_text().end_address.0
        &&& (self.spec_data() matches Some(d) ==> d.start_address.0 >= DATA_START
            && d.start_address.0 <= d.end_address.0 && d.end_address.0
            <= self.spec_heap().start_address.0)
        &&& self.spec_heap().start_address.0 >= DATA_START
        &&& self.spec_heap().start_address.0 <= self.spec_heap().end_address.0
        &&& self.spec_heap().end_address.0 <= self.spec_stack().start_address.0
        &&& self.spec_stack().start_address.0 <= self.spec_stack().end_address.0
        &&& self.spec_stack().end_address.0 <= STACK_TOP
        &&& forall|k: int|
            0 <= k < self.spec_extras().len() ==> (#[trigger] self.spec_extras()[
                k
            ]).start_address.0 >= MMIO_START
        &&& self.spec_text().end_address.0 - self.spec_text().start_address.0 == 4 * self.instrs().len()
        &&& rw_region_ok(self.table())
        &&& writable_is_rw(self.table())
    }

    /// The result of checking an access of `size` bytes at `a`: the segment
    /// lookup, the segment bound, and the pages it touches.
    pub open spec fn access_check(self, a: u32, size: nat, want_write: bool) -> Result<
        (),
        MemoryError,
    > {
        match self.find_seg(a) {
            None => Err(MemoryError::InvalidSection),
            Some(seg) => if a + size > seg.end_address.0 {
                Err(MemoryError::OutOfBounds)
            } else {
                match check_pages(self.table(), a as int / 4096, span_count(a, size), want_write) {
                    None => Ok(()),
                    Some(e) => Err(e),
                }
            },
        }
    }

    /// Registers a further segment, checked after the fixed ones.
    pub fn add_section(&mut self, section: MemorySegment)
        ensures
            final(self).spec_extras() == old(self).spec_extras().push(section),
            final(self).table() == old(self).table(),
            final(self).label_map() == old(self).label_map(),
            final(self).spec_text() == old(self).spec_text(),
            final(self).spec_data() == old(self).spec_data(),
            final(self).spec_heap() == old(self).spec_heap(),
            final(self).spec_stack() == old(self).spec_stack(),
            final(self).instrs() == old(self).instrs(),
    {
        self.extra_segs.push(section);
    }

    /// The address of a label, or `InvalidLabel` where none is recorded.
    pub fn address_of_label(&self, label: &str) -> (r: Result<Address, MemoryError>)
        requires
            self.wf(),
        ensures
            match r {
                Ok(a) => self.label_map().spec_get(label@) == Some(a),
                Err(e) => e == MemoryError::InvalidLabel && self.label_map().spec_get(label@)
                    is None,
            },
    {
        match self.labels.get(label) {
            Some(a) => Ok(a),
            None => Err(MemoryError::InvalidLabel),
        }
    }

    /// The first label recorded at `address`, or `InvalidAddress`.
    pub fn label_at_address(&self, address: Address) -> (r: Result<&String, MemoryError>)
        ensures
            match r {
                Ok(l) => self.label_map().spec_label_at(address) == Some(l@),
                Err(e) => e == MemoryError::InvalidAddress && self.label_map().spec_label_at(
                    address,
                ) is None,
            },
    {
        match self.labels.label_at(address) {
            Some(l) => Ok(l),
            None => Err(MemoryError::InvalidAddress),
        }
    }

    /// The segment that `address` falls in, or `InvalidSection`.
    pub fn find_section(&self, address: Address) -> (r: Result<&MemorySegment, MemoryError>)
        ensures
            match r {
                Ok(s) => self.find_seg(address.0) == Some(*s),
                Err(e) => e == MemoryError::InvalidSection && self.find_seg(address.0) is None,
            },
    {
        let a = address.0;
        let ghost segs = self.segments();
        let ghost rest = seq![self.spec_text(), self.spec_heap(), self.spec_stack()]
            + self.spec_extras();
        match &self.data_seg {
            Some(d) => {
                proof {
                    assert(segs.first() == *d);
                    assert(segs.drop_first() =~= rest);
                }
                if d.start_address.0 <= a && a < d.end_address.0 {
                    proof {
                        assert(first_seg(segs, a) == Some(*d));
                    }
                    return Ok(d);
                }
            }
            None => {
                proof {
                    assert(segs =~= rest);
                }
            }
        }
        proof {
            assert(first_seg(segs, a) == first_seg(rest, a));
            assert(rest.first() == self.spec_text());
            assert(rest.drop_first() =~= seq![self.spec_heap(), self.spec_stack()]
                + self.spec_extras());
        }
        if self.text_seg.start_address.0 <= a && a < self.text_seg.end_address.0 {
            proof {
                assert(first_seg(rest, a) == Some(self.spec_text()));
            }
            return Ok(&self.text_seg);
        }
        let ghost rest2 = seq![self.spec_heap(), self.spec_stack()] + self.spec_extras();
        proof {
            assert(first_seg(segs, a) == first_seg(rest2, a));
            assert(rest2.first() == self.spec_heap());
            assert(rest2.drop_first() =~= seq![self.spec_stack()] + self.spec_extras());
        }
        if self.heap_seg.start_address.0 <= a && a < self.heap_seg.end_address.0 {
            proof {
                assert(first_seg(rest2, a) == Some(self.spec_heap()));
            }
            return Ok(&self.heap_seg);
        }
        let ghost rest3 = seq![self.spec_stack()] + self.spec_extras();
        proof {
            assert(first_seg(segs, a) == first_seg(rest3, a));
            assert(rest3.first() == self.spec_stack());
            assert(rest3.drop_first() =~= self.spec_extras());
        }
        if self.stack_seg.start_address.0 <= a && a < self.stack_seg.end_address.0 {
            proof {
                assert(first_seg(rest3, a) == Some(self.spec_stack()));
            }
            return Ok(&self.stack_seg);
        }
        proof {
            assert(first_seg(segs, a) == first_seg(self.spec_extras(), a));
            assert(self.spec_extras().skip(0) =~= self.spec_extras());
        }
        let mut i: usize = 0;
        while i < self.extra_segs.len()
            invariant
                a == address.0,
                i <= self.spec_extras().len(),
                first_seg(self.segments(), a) == first_seg(self.spec_extras().skip(i as int), a),
            decreases self.spec_extras().len() - i,
        {
            proof {
                assert(self.spec_extras().skip(i as int).first() == self.spec_extras()[i as int]);
                assert(self.spec_extras().skip(i as int).drop_first() =~= self.spec_extras().skip(
                    i + 1,
                ));
            }
            if self.extra_segs[i].start_address.0 <= a && a < self.extra_segs[i].end_address.0 {
                return Ok(&self.extra_segs[i]);
            }
            i = i + 1;
        }
        proof {
            assert(self.spec_extras().skip(i as int).len() == 0);
        }
        Err(MemoryError::InvalidSection)
    }

    /// Reads `size` bytes at `address`: the access must fall in one segment,
    /// stay inside it, and touch only allocated, readable pages.
    pub fn read(&self, address: Address, size: usize) -> (r: Result<Vec<u8>, MemoryError>)
        requires
            self.wf(),
        ensures
            match r {
                Ok(v) => {
                    &&& self.access_check(address.0, size as nat, false) == Ok::<(), MemoryError>(())
                    &&& v@.len() == size
                    &&& forall|i: int|
                        0 <= i < size ==> v@[i] == self.byte_at((address.0 + i) as u32)
                },
                Err(e) => self.access_check(address.0, size as nat, false) == Err::<(), MemoryError>(
                    e,
                ),
            },
    {
        let seg_end: u32 = match self.find_section(address) {
            Ok(seg) => seg.end_address.0,
            Err(e) => {
                return Err(e);
            }
        };
        proof {
            lemma_first_seg_contains(self.segments(), address.0);
        }
        if size > (seg_end - address.0) as usize {
            return Err(MemoryError::OutOfBounds);
        }
        self.page_table.read_bytes(address, size)
    }

    /// Reads bytes at `address` to fill `buf` entirely.
    pub fn read_buf(&self, address: Address, buf: &mut Vec<u8>) -> (r: Result<(), MemoryError>)
        requires
            self.wf(),
        ensures
            final(buf)@.len() == old(buf)@.len(),
            match r {
                Ok(_) => {
                    &&& self.access_check(address.0, old(buf)@.len(), false) == Ok::<
                        (),
                        MemoryError,
                    >(())
                    &&& forall|i: int|
                        0 <= i < old(buf)@.len() ==> final(buf)@[i] == self.byte_at(
                            (address.0 + i) as u32,
                        )
                },
                Err(e) => self.access_check(address.0, old(buf)@.len(), false) == Err::<
                    (),
                    MemoryError,
                >(e) && final(buf)@ == old(buf)@,
            },
    {
        let n = buf.len();
        match self.read(address, n) {
            Ok(v) => {
                let mut i: usize = 0;
                while i < n
                    invariant
                        i <= n,
                        n == old(buf)@.len(),
                        v@.len() == n,
                        buf@.len() == n,
                        forall|j: int| 0 <= j < i ==> buf@[j] == v@[j],
                        forall|j: int| i <= j < n ==> buf@[j] == old(buf)@[j],
                    decreases n - i,
                {
                    buf[i] = v[i];
                    i = i + 1;
                }
                proof {
                    assert forall|j: int| 0 <= j < n implies buf@[j] == self.byte_at(
                        (address.0 + j) as u32,
                    ) by {
                        assert(buf@[j] == v@[j]);
                        assert(v@[j] == self.byte_at((address.0 + j) as u32));
                    }
                }
                Ok(())
            }
            Err(e) => Err(e),
        }
    }

    /// Reads at most `max_size` bytes at `address`, stopping at the end of
    /// the segment the address falls in.
    pub fn read_max(&self, address: Address, max_size: usize) -> (r: Result<Vec<u8>, MemoryError>)
        requires
            self.wf(),
        ensures
            match r {
                Ok(v) => {
                    &&& self.find_seg(address.0) matches Some(seg) && v@.len() == vstd::math::min(
                        max_size as int,
                        seg.end_address.0 - address.0,
                    )
                    &&& forall|i: int|
                        0 <= i < v@.len() ==> v@[i] == self.byte_at((address.0 + i) as u32)
                    &&& self.access_check(address.0, v@.len() as nat, false) == Ok::<
                        (),
                        MemoryError,
                    >(())
                },
                Err(e) => match self.find_seg(address.0) {
                    None => e == MemoryError::InvalidSection,
                    Some(seg) => self.access_check(
                        address.0,
                        vstd::math::min(max_size as int, seg.end_address.0 - address.0) as nat,
                        false,
                    ) == Err::<(), MemoryError>(e),
                },
            },
    {
        let seg_end: u32 = match self.find_section(address) {
            Ok(seg) => seg.end_address.0,
            Err(e) => {
                return Err(e);
            }
        };
        proof {
            lemma_first_seg_contains(self.segments(), address.0);
        }
        let avail = (seg_end - address.0) as usize;
        let size = if max_size < avail {
            max_size
        } else {
            avail
        };
        self.read(address, size)
    }

    /// Reads bytes at `address` into the front of `buf`, stopping at the
    /// end of the segment the address falls in; the filled length is
    /// returned and the rest of the buffer keeps its bytes.
    pub fn read_buf_max(&self, address: Address, buf: &mut Vec<u8>) -> (r: Result<
        usize,
        MemoryError,
    >)
        requires
            self.wf(),
        ensures
            final(buf)@.len() == old(buf)@.len(),
            match r {
                Ok(size) => {
                    &&& self.find_seg(address.0) matches Some(seg) && size == vstd::math::min(
                        old(buf)@.len() as int,
                        seg.end_address.0 - address.0,
                    )
                    &&& forall|i: int|
                        0 <= i < size ==> final(buf)@[i] == self.byte_at((address.0 + i) as u32)
                    &&& forall|i: int| size <= i < old(buf)@.len() ==> final(buf)@[i] == old(buf)@[i]
                    &&& self.access_check(address.0, size as nat, false) == Ok::<(), MemoryError>(())
                },
                Err(e) => final(buf)@ == old(buf)@ && (match self.find_seg(address.0) {
                    None => e == MemoryError::InvalidSection,
                    Some(seg) => self.access_check(
                        address.0,
                        vstd::math::min(old(buf)@.len() as int, seg.end_address.0 - address.0)
                            as nat,
                        false,
                    ) == Err::<(), MemoryError>(e),
                }),
            },
    {
        let seg_end: u32 = match self.find_section(address) {
            Ok(seg) => seg.end_address.0,
            Err(e) => {
                return Err(e);
            }
        };
        proof {
            lemma_first_seg_contains(self.segments(), address.0);
        }
        let avail = (seg_end - address.0) as usize;
        let size = if buf.len() < avail {
            buf.len()
        } else {
            avail
        };
        let v = match self.read(address, size) {
            Ok(v) => v,
            Err(e) => {
                return Err(e);
            }
        };
        let mut i: usize = 0;
        while i < size
            invariant
                i <= size,
                size <= old(buf)@.len(),
                v@.len() == size,
                buf@.len() == old(buf)@.len(),
                forall|j: int| 0 <= j < i ==> buf@[j] == v@[j],
                forall|j: int| i <= j < old(buf)@.len() ==> buf@[j] == old(buf)@[j],
            decreases size - i,
        {
            buf[i] = v[i];
            i = i + 1;
        }
        proof {
            assert forall|j: int| 0 <= j < size implies buf@[j] == self.byte_at(
                (address.0 + j) as u32,
            ) by {
                assert(buf@[j] == v@[j]);
            }
        }
        Ok(size)
    }

    /// Reads one byte at `address`.
    pub fn read_byte(&self, address: Address) -> (r: Result<u8, MemoryError>)
        requires
            self.wf(),
        ensures
            match r {
                Ok(b) => self.access_check(address.0, 1, false) == Ok::<(), MemoryError>(()) && b
                    == self.byte_at(address.0),
                Err(e) => self.access_check(address.0, 1, false) == Err::<(), MemoryError>(e),
            },
    {
        match self.read(address, 1) {
            Ok(v) => Ok(v[0]),
            Err(e) => Err(e),
        }
    }

    /// Reads a little-endian halfword at `address`.
    pub fn read_halfword(&self, address: Address) -> (r: Result<u16, MemoryError>)
        requires
            self.wf(),
        ensures
            match r {
                Ok(h) => self.access_check(address.0, 2, false) == Ok::<(), MemoryError>(()) && h
                    == le16(self.byte_at(address.0), self.byte_at((address.0 + 1) as u32)),
                Err(e) => self.access_check(address.0, 2, false) == Err::<(), MemoryError>(e),
            },
    {
        match self.read(address, 2) {
            Ok(v) => Ok((v[0] as u16) + (v[1] as u16) * 0x100),
            Err(e) => Err(e),
        }
    }

    /// Reads a little-endian word at `address`.
    pub fn read_word(&self, address: Address) -> (r: Result<Word, MemoryError>)
        requires
            self.wf(),
        ensures
            match r {
                Ok(w) => self.access_check(address.0, 4, false) == Ok::<(), MemoryError>(()) && w
                    == le32(
                    self.byte_at(address.0),
                    self.byte_at((address.0 + 1) as u32),
                    self.byte_at((address.0 + 2) as u32),
                    self.byte_at((address.0 + 3) as u32),
                ),
                Err(e) => self.access_check(address.0, 4, false) == Err::<(), MemoryError>(e),
            },
    {
        match self.read(address, 4) {
            Ok(v) => Ok(
                (v[0] as u32) + (v[1] as u32) * 0x100 + (v[2] as u32) * 0x1_0000 + (v[3] as u32)
                    * 0x100_0000,
            ),
            Err(e) => Err(e),
        }
    }

    /// Reads a little-endian address at `address`.
    pub fn read_address(&self, address: Address) -> (r: Result<Address, MemoryError>)
        requires
            self.wf(),
        ensures
            match r {
                Ok(a) => self.access_check(address.0, 4, false) == Ok::<(), MemoryError>(()) && a.0
                    == le32(
                    self.byte_at(address.0),
                    self.byte_at((address.0 + 1) as u32),
                    self.byte_at((address.0 + 2) as u32),
                    self.byte_at((address.0 + 3) as u32),
                ),
                Err(e) => self.access_check(address.0, 4, false) == Err::<(), MemoryError>(e),
            },
    {
        match self.read_word(address) {
            Ok(w) => Ok(Address::new(w)),
            Err(e) => Err(e),
        }
    }

    /// Writes `bytes` at `address`: the access must fall in one segment,
    /// stay inside it, and touch only allocated, writable pages; otherwise
    /// nothing changes and the fault is returned.
    pub fn write(&mut self, address: Address, bytes: &[u8]) -> (r: Result<(), MemoryError>)
        requires
            old(self).wf(),
        ensures
            final(self).wf(),
            final(self).label_map() == old(self).label_map(),
            final(self).spec_text() == old(self).spec_text(),
            final(self).spec_data() == old(self).spec_data(),
            final(self).spec_heap() == old(self).spec_heap(),
            final(self).spec_stack() == old(self).spec_stack(),
            final(self).spec_extras() == old(self).spec_extras(),
            final(self).instrs() == old(self).instrs(),
            forall|n: u32| final(self).table().has_page(n) == old(self).table().has_page(n),
            forall|n: u32|
                old(self).table().has_page(n) ==> final(self).table().page_prot(n) == old(
                    self,
                ).table().page_prot(n),
            match r {
                Ok(_) => {
                    &&& old(self).access_check(address.0, bytes@.len(), true) == Ok::<
                        (),
                        MemoryError,
                    >(())
                    &&& final(self).access_check(address.0, bytes@.len(), false) == Ok::<
                        (),
                        MemoryError,
                    >(())
                    &&& forall|i: int|
                        0 <= i < bytes@.len() ==> final(self).byte_at((address.0 + i) as u32)
                            == bytes@[i]
                    &&& forall|x: u32|
                        !(address.0 <= x < address.0 + bytes@.len()) ==> final(self).byte_at(x)
                            == old(self).byte_at(x)
                },
                Err(e) => {
                    &&& old(self).access_check(address.0, bytes@.len(), true) == Err::<
                        (),
                        MemoryError,
                    >(e)
                    &&& *final(self) == *old(self)
                },
            },
    {
        let seg_end: u32 = match self.find_section(address) {
            Ok(seg) => seg.end_address.0,
            Err(e) => {
                return Err(e);
            }
        };
        proof {
            lemma_first_seg_contains(self.segments(), address.0);
        }
        if bytes.len() > (seg_end - address.0) as usize {
            return Err(MemoryError::OutOfBounds);
        }
        let ghost pre = *self;
        let r = self.page_table.write_bytes(address, bytes);
        proof {
            if r is Ok {
                lemma_read_after_write(
                    pre.table(),
                    self.table(),
                    address.0 as int / 4096,
                    span_count(address.0, bytes@.len()),
                );
                assert(self.segments() =~= pre.segments());
                assert(self.find_seg(address.0) == pre.find_seg(address.0));
            }
        }
        r
    }

    /// Writes one byte at `address`.
    pub fn write_byte(&mut self, address: Address, value: u8) -> (r: Result<(), MemoryError>)
        requires
            old(self).wf(),
        ensures
            final(self).wf(),
            final(self).label_map() == old(self).label_map(),
            final(self).spec_text() == old(self).spec_text(),
            final(self).spec_data() == old(self).spec_data(),
            final(self).spec_heap() == old(self).spec_heap(),
            final(self).spec_stack() == old(self).spec_stack(),
            final(self).spec_extras() == old(self).spec_extras(),
            final(self).instrs() == old(self).instrs(),
            forall|n: u32| final(self).table().has_page(n) == old(self).table().has_page(n),
            forall|n: u32|
                old(self).table().has_page(n) ==> final(self).table().page_prot(n) == old(
                    self,
                ).table().page_prot(n),
            match r {
                Ok(_) => {
                    &&& old(self).access_check(address.0, 1, true) == Ok::<(), MemoryError>(())
                    &&& final(self).access_check(address.0, 1, false) == Ok::<(), MemoryError>(())
                    &&& final(self).byte_at(address.0) == value
                    &&& forall|x: u32|
                        x != address.0 ==> final(self).byte_at(x) == old(self).byte_at(x)
                },
                Err(e) => old(self).access_check(address.0, 1, true) == Err::<(), MemoryError>(e)
                    && *final(self) == *old(self),
            },
    {
        let bytes: [u8; 1] = [value];
        let r = self.write(address, bytes.as_slice());
        proof {
            assert(bytes@ =~= seq![value]);
        }
        r
    }

    /// Writes a halfword at `address`, little-endian.
    pub fn write_halfword(&mut self, address: Address, value: u16) -> (r: Result<
        (),
        MemoryError,
    >)
        requires
            old(self).wf(),
        ensures
            final(self).wf(),
            final(self).label_map() == old(self).label_map(),
            final(self).spec_text() == old(self).spec_text(),
            final(self).spec_data() == old(self).spec_data(),
            final(self).spec_heap() == old(self).spec_heap(),
            final(self).spec_stack() == old(self).spec_stack(),
            final(self).spec_extras() == old(self).spec_extras(),
            final(self).instrs() == old(self).instrs(),
            forall|n: u32| final(self).table().has_page(n) == old(self).table().has_page(n),
            forall|n: u32|
                old(self).table().has_page(n) ==> final(self).table().page_prot(n) == old(
                    self,
                ).table().page_prot(n),
            match r {
                Ok(_) => {
                    &&& old(self).access_check(address.0, 2, true) == Ok::<(), MemoryError>(())
                    &&& final(self).access_check(address.0, 2, false) == Ok::<(), MemoryError>(())
                    &&& final(self).byte_at(address.0) == value % 0x100
                    &&& final(self).byte_at((address.0 + 1) as u32) == value / 0x100
                    &&& le16(
                        final(self).byte_at(address.0),
                        final(self).byte_at((address.0 + 1) as u32),
                    ) == value
                    &&& forall|x: u32|
                        !(address.0 <= x < address.0 + 2) ==> final(self).byte_at(x) == old(
                            self,
                        ).byte_at(x)
                },
                Err(e) => old(self).access_check(address.0, 2, true) == Err::<(), MemoryError>(e)
                    && *final(self) == *old(self),
            },
    {
        let b0: u8 = (value % 0x100) as u8;
        let b1: u8 = (value / 0x100) as u8;
        let bytes: [u8; 2] = [b0, b1];
        let r = self.write(address, bytes.as_slice());
        proof {
            assert(bytes@ =~= seq![b0, b1]);
        }
        r
    }

    /// Writes a word at `address`, little-endian.
    pub fn write_word(&mut self, address: Address, value: Word) -> (r: Result<(), MemoryError>)
        requires
            old(self).wf(),
        ensures
            final(self).wf(),
            final(self).label_map() == old(self).label_map(),
            final(self).spec_text() == old(self).spec_text(),
            final(self).spec_data() == old(self).spec_data(),
            final(self).spec_heap() == old(self).spec_heap(),
            final(self).spec_stack() == old(self).spec_stack(),
            final(self).spec_extras() == old(self).spec_extras(),
            final(self).instrs() == old(self).instrs(),
            forall|n: u32| final(self).table().has_page(n) == old(self).table().has_page(n),
            forall|n: u32|
                old(self).table().has_page(n) ==> final(self).table().page_prot(n) == old(
                    self,
                ).table().page_prot(n),
            match r {
                Ok(_) => {
                    &&& old(self).access_check(address.0, 4, true) == Ok::<(), MemoryError>(())
                    &&& final(self).access_check(address.0, 4, false) == Ok::<(), MemoryError>(())
                    &&& final(self).byte_at(address.0) == value % 0x100
                    &&& final(self).byte_at((address.0 + 1) as u32) == (value / 0x100) % 0x100
                    &&& final(self).byte_at((address.0 + 2) as u32) == (value / 0x1_0000) % 0x100
                    &&& final(self).byte_at((address.0 + 3) as u32) == value / 0x100_0000
                    &&& le32(
                        final(self).byte_at(address.0),
                        final(self).byte_at((address.0 + 1) as u32),
                        final(self).byte_at((address.0 + 2) as u32),
                        final(self).byte_at((address.0 + 3) as u32),
                    ) == value
                    &&& forall|x: u32|
                        !(address.0 <= x < address.0 + 4) ==> final(self).byte_at(x) == old(
                            self,
                        ).byte_at(x)
                },
                Err(e) => old(self).access_check(address.0, 4, true) == Err::<(), MemoryError>(e)
                    && *final(self) == *old(self),
            },
    {
        let b0: u8 = (value % 0x100) as u8;
        let b1: u8 = ((value / 0x100) % 0x100) as u8;
        let b2: u8 = ((value / 0x1_0000) % 0x100) as u8;
        let b3: u8 = (value / 0x100_0000) as u8;
        let bytes: [u8; 4] = [b0, b1, b2, b3];
        let r = self.write(address, bytes.as_slice());
        proof {
            assert(bytes@ =~= seq![b0, b1, b2, b3]);
        }
        r
    }

    /// The label table.
    pub fn labels(&self) -> (r: &LabelMap)
        ensures
            *r == self.label_map(),
    {
        &self.labels
    }

    /// The text segment.
    pub fn text(&self) -> (r: &MemorySegment)
        ensures
            *r == self.spec_text(),
    {
        &self.text_seg
    }

    /// The data segment, where the program has one.
    pub fn data(&self) -> (r: Option<&MemorySegment>)
        ensures
            match r {
                Some(d) => self.spec_data() == Some(*d),
                None => self.spec_data() is None,
            },
    {
        match &self.data_seg {
            Some(d) => Some(d),
            None => None,
        }
    }

    /// The heap segment.
    pub fn heap(&self) -> (r: &MemorySegment)
        ensures
            *r == self.spec_heap(),
    {
        &self.heap_seg
    }

    /// The stack segment.
    pub fn stack(&self) -> (r: &MemorySegment)
        ensures
            *r == self.spec_stack(),
    {
        &self.stack_seg
    }
}

proof fn lemma_check_pages_none(pt: PageTable, first: int, count: nat, want_write: bool)
    requires
        forall|p: u32|
            first <= p < first + count ==> #[trigger] pt.spec_find(p) is Some && (if want_write {
                prot_writable(pt.page_prot(p))
            } else {
                prot_readable(pt.page_prot(p))
            }),
        0 <= first,
        first + count <= 0x1_0000_0000,
    ensures
        check_pages(pt, first, count, want_write) is None,
    decreases count,
{
    if count > 0 {
        assert(first < 0x1_0000_0000);
        assert(first as u32 == first);
        assert(pt.has_page(first as u32));
        assert forall|p: u32| first + 1 <= p < first + 1 + (count - 1) implies #[trigger] pt
            .spec_find(p) is Some && (if want_write {
            prot_writable(pt.page_prot(p))
        } else {
            prot_readable(pt.page_prot(p))
        }) by {
            assert(first <= p < first + count);
        }
        lemma_check_pages_none(pt, first + 1, (count - 1) as nat, want_write);
    }
}

/// Whether a label table is exactly the one the loader builds for the
/// program: well formed and agreeing with `label_lookup` on every name.
pub open spec fn lm_matches(lm: LabelMap, p: crate::program::Program) -> bool {
    lm.wf() && forall|n: Seq<char>| lm.spec_get(n) == label_lookup(p, n)
}

/// Whether a branch's label argument cannot be resolved: the label is not
/// defined, or its displacement from the already-advanced counter does not
/// fit the signed 16-bit slot.
pub open spec fn branch_unresolvable(
    i: crate::program::Instruction,
    pc_next: u32,
    p: crate::program::Program,
) -> bool {
    &&& is_branch(i.kind)
    &&& i.args@.len() > 0
    &&& i.args@.last() is Label
    &&& (match label_lookup(p, i.args@.last()->Label_0@) {
        None => true,
        Some(t) => !branch_disp_fits(branch_disp(t.0, pc_next)),
    })
}

/// The conditions under which the loader rejects a program: no text
/// blocks, data past the top of the user space, text past its region, an
/// unresolvable branch label, an instruction the encoder rejects after
/// label resolution, or a memory-mapped segment outside its range.
pub open spec fn load_fails(p: crate::program::Program, mmio: Seq<MemorySegment>) -> bool {
    let datas = p.data_section.initialized@;
    let flat = crate::program::flat_instructions(p.text_section.blocks@);
    ||| p.text_section.blocks@.len() == 0
    ||| DATA_START + flat_data(datas).len() > STACK_TOP
    ||| TEXT_START + 4 * flat.len() > TEXT_LIMIT
    ||| exists|k: int|
        0 <= k < flat.len() && branch_unresolvable(
            #[trigger] flat[k],
            (TEXT_START + 4 * k + 4) as u32,
            p,
        )
    ||| exists|k: int, i2: crate::program::Instruction, lm: LabelMap|
        #![trigger flat[k], crate::assembler::spec_encode(i2, lm)]
        0 <= k < flat.len() && lm_matches(lm, p) && i2.kind == flat[k].kind && i2.args@
            == resolved_args(flat[k].kind, flat[k].args@, (TEXT_START + 4 * k + 4) as u32, p)
            && crate::assembler::spec_encode(i2, lm) is Err
    ||| exists|j: int|
        0 <= j < mmio.len() && ((#[trigger] mmio[j]).start_address.0 < MMIO_START
            || mmio[j].end_address.0 < mmio[j].start_address.0)
}

proof fn lemma_flat_data_prefix(datas: Seq<crate::program::StaticData>, j: int)
    requires
        0 <= j <= datas.len(),
    ensures
        flat_data(datas.take(j)).len() <= flat_data(datas).len(),
    decreases datas.len() - j,
{
    if j < datas.len() {
        assert(datas.take(j + 1).drop_last() =~= datas.take(j));
        lemma_flat_data_prefix(datas, j + 1);
    } else {
        assert(datas.take(j) =~= datas);
    }
}

proof fn lemma_flat_instr_prefix(blocks: Seq<crate::program::Block>, j: int)
    requires
        0 <= j <= blocks.len(),
    ensures
        crate::program::flat_instructions(blocks.take(j)).len()
            <= crate::program::flat_instructions(blocks).len(),
    decreases blocks.len() - j,
{
    if j < blocks.len() {
        assert(blocks.take(j + 1).drop_last() =~= blocks.take(j));
        lemma_flat_instr_prefix(blocks, j + 1);
    } else {
        assert(blocks.take(j) =~= blocks);
    }
}

impl Memory {
    /// The heap segment, mutably.
    pub fn heap_mut(&mut self) -> (r: &mut MemorySegment)
        ensures
            *r == old(self).spec_heap(),
            final(self).spec_heap() == *final(r),
            final(self).table() == old(self).table(),
            final(self).label_map() == old(self).label_map(),
            final(self).spec_text() == old(self).spec_text(),
            final(self).spec_data() == old(self).spec_data(),
            final(self).spec_stack() == old(self).spec_stack(),
            final(self).spec_extras() == old(self).spec_extras(),
            final(self).instrs() == old(self).instrs(),
    {
        &mut self.heap_seg
    }

    /// The stack segment, mutably.
    pub fn stack_mut(&mut self) -> (r: &mut MemorySegment)
        ensures
            *r == old(self).spec_stack(),
            final(self).spec_stack() == *final(r),
            final(self).table() == old(self).table(),
            final(self).label_map() == old(self).label_map(),
            final(self).spec_text() == old(self).spec_text(),
            final(self).spec_data() == old(self).spec_data(),
            final(self).spec_heap() == old(self).spec_heap(),
            final(self).spec_extras() == old(self).spec_extras(),
            final(self).instrs() == old(self).instrs(),
    {
        &mut self.stack_seg
    }

    /// The data segment, mutably, where the program has one.
    pub fn data_mut(&mut self) -> (r: Option<&mut MemorySegment>)
        ensures
            match r {
                Some(d) => {
                    &&& old(self).spec_data() == Some(*d)
                    &&& final(self).spec_data() == Some(*final(d))
                    &&& final(self).table() == old(self).table()
                    &&& final(self).label_map() == old(self).label_map()
                    &&& final(self).spec_text() == old(self).spec_text()
                    &&& final(self).spec_heap() == old(self).spec_heap()
                    &&& final(self).spec_stack() == old(self).spec_stack()
                    &&& final(self).spec_extras() == old(self).spec_extras()
                    &&& final(self).instrs() == old(self).instrs()
                },
                None => old(self).spec_data() is None && *final(self) == *old(self),
            },
    {
        match &mut self.data_seg {
            Some(d) => Some(d),
            None => None,
        }
    }

    /// Pushes bytes onto the stack, which grows downwards: the new stack
    /// start is the old one less the byte count, must stay above the heap
    /// end, and the bytes land at the new start in pages made read-write on
    /// demand.
    pub fn stack_push(&mut self, values: &[u8]) -> (r: Result<(), MemoryError>)
        requires
            old(self).wf(),
        ensures
            final(self).wf(),
            final(self).label_map() == old(self).label_map(),
            final(self).spec_text() == old(self).spec_text(),
            final(self).spec_data() == old(self).spec_data(),
            final(self).spec_heap() == old(self).spec_heap(),
            final(self).spec_extras() == old(self).spec_extras(),
            final(self).instrs() == old(self).instrs(),
            (r is Ok <==> old(self).spec_stack().start_address.0 - values@.len() > old(
                self,
            ).spec_heap().end_address.0),
            match r {
                Ok(_) => {
                    &&& final(self).spec_stack().start_address.0 == old(
                        self,
                    ).spec_stack().start_address.0 - values@.len()
                    &&& final(self).spec_stack().end_address == old(self).spec_stack().end_address
                    &&& forall|i: int|
                        0 <= i < values@.len() ==> final(self).byte_at(
                            (old(self).spec_stack().start_address.0 - values@.len() + i) as u32,
                        ) == values@[i]
                    &&& forall|x: u32|
                        !(old(self).spec_stack().start_address.0 - values@.len() <= x < old(
                            self,
                        ).spec_stack().start_address.0) ==> final(self).byte_at(x) == old(
                            self,
                        ).byte_at(x)
                    &&& (values@.len() > 0 ==> final(self).access_check(
                        final(self).spec_stack().start_address.0,
                        values@.len(),
                        false,
                    ) == Ok::<(), MemoryError>(()) && final(self).access_check(
                        final(self).spec_stack().start_address.0,
                        values@.len(),
                        true,
                    ) == Ok::<(), MemoryError>(()))
                },
                Err(e) => e == MemoryError::InvalidStack && *final(self) == *old(self),
            },
    {
        let len = values.len();
        let start = self.stack_seg.start_address.0;
        let heap_end = self.heap_seg.end_address.0;
        if len >= start as usize || start - (len as u32) <= heap_end {
            return Err(MemoryError::InvalidStack);
        }
        if len == 0 {
            proof {
                assert(forall|x: u32| self.byte_at(x) == old(self).byte_at(x));
            }
            return Ok(());
        }
        let new_start = start - (len as u32);
        let first_page = new_start / 4096;
        let last_page = (start - 1) / 4096;
        let ghost pre = *self;
        proof {
            assert(new_start as int / 4096 >= DATA_START as int / 4096) by (nonlinear_arith)
                requires
                    new_start >= DATA_START,
            ;
        }
        match self.page_table.ensure_pages(first_page, last_page, ProtectionLevel::ReadWrite) {
            Ok(_) => {}
            Err(e) => {
                proof {
                    let bad = choose|p: u32|
                        first_page <= p <= last_page && pre.table().has_page(p) && pre.table()
                            .page_prot(p) != ProtectionLevel::ReadWrite;
                    assert(bad >= DATA_START / 4096);
                    assert(false);
                }
                return Err(e);
            }
        }
        proof {
            assert forall|x: u32| true implies self.byte_at(x) == pre.byte_at(x) by {
                if first_page <= x / 4096 <= last_page && !pre.table().has_page(x / 4096) {
                    assert(self.table().page_data(x / 4096) =~= Seq::new(4096, |i: int| 0u8));
                }
            }
            assert forall|p: u32| new_start as int / 4096 <= p < new_start as int / 4096
                + span_count(new_start, len as nat) implies #[trigger] self.table().spec_find(p)
                is Some && prot_writable(self.table().page_prot(p)) by {
                assert((new_start + len - 1) / 4096 == (start - 1) as int / 4096);
            }
            lemma_check_pages_none(
                self.table(),
                new_start as int / 4096,
                span_count(new_start, len as nat),
                true,
            );
        }
        let ghost mid = *self;
        match self.page_table.write_bytes(Address::new(new_start), values) {
            Ok(_) => {}
            Err(e) => {
                proof {
                    assert(false);
                }
                return Err(e);
            }
        }
        self.stack_seg.start_address = Address::new(new_start);
        proof {
            lemma_rw_after_ensure(pre.table(), mid.table(), first_page, last_page);
            lemma_rw_kept(mid.table(), self.table());
            assert(self.table().wf());
            assert(rw_region_ok(self.table()));
            assert(writable_is_rw(self.table()));
            assert(self.spec_stack().start_address.0 <= self.spec_stack().end_address.0);
            assert(self.spec_heap().end_address.0 <= self.spec_stack().start_address.0);
            assert(self.label_map().wf());
            assert(self.spec_text() == old(self).spec_text());
            assert(self.spec_data() == old(self).spec_data());
            assert(self.spec_heap() == old(self).spec_heap());
            assert(self.spec_extras() == old(self).spec_extras());
            assert(self.instrs() == old(self).instrs());
            assert forall|k: int| 0 <= k < self.spec_extras().len() implies (
            #[trigger] self.spec_extras()[k]).start_address.0 >= MMIO_START by {
                assert(self.spec_extras()[k] == old(self).spec_extras()[k]);
            }
            assert(self.wf());
            lemma_stack_claims(*self, new_start);
            assert(self.find_seg(new_start) == Some(self.spec_stack()));
            assert forall|p: u32| new_start as int / 4096 <= p < new_start as int / 4096
                + span_count(new_start, len as nat) implies #[trigger] self.table().spec_find(p)
                is Some && prot_writable(self.table().page_prot(p)) && prot_readable(
                self.table().page_prot(p),
            ) by {
                assert(p >= DATA_START / 4096);
                assert(self.table().page_prot(p) == ProtectionLevel::ReadWrite);
            }
            lemma_check_pages_none(
                self.table(),
                new_start as int / 4096,
                span_count(new_start, len as nat),
                true,
            );
            lemma_check_pages_none(
                self.table(),
                new_start as int / 4096,
                span_count(new_start, len as nat),
                false,
            );
        }
        Ok(())
    }

    /// Pops bytes from the stack: reads `size` bytes at the stack start,
    /// then raises the start by `size`.
    pub fn stack_pop(&mut self, size: usize) -> (r: Result<Vec<u8>, MemoryError>)
        requires
            old(self).wf(),
        ensures
            final(self).wf(),
            final(self).label_map() == old(self).label_map(),
            final(self).spec_text() == old(self).spec_text(),
            final(self).spec_data() == old(self).spec_data(),
            final(self).spec_heap() == old(self).spec_heap(),
            final(self).spec_extras() == old(self).spec_extras(),
            final(self).instrs() == old(self).instrs(),
            final(self).table() == old(self).table(),
            match r {
                Ok(v) => {
                    &&& old(self).access_check(
                        old(self).spec_stack().start_address.0,
                        size as nat,
                        false,
                    ) == Ok::<(), MemoryError>(())
                    &&& v@.len() == size
                    &&& forall|i: int|
                        0 <= i < size ==> v@[i] == old(self).byte_at(
                            (old(self).spec_stack().start_address.0 + i) as u32,
                        )
                    &&& final(self).spec_stack().start_address.0 == old(
                        self,
                    ).spec_stack().start_address.0 + size
                    &&& final(self).spec_stack().end_address == old(self).spec_stack().end_address
                },
                Err(e) => old(self).access_check(
                    old(self).spec_stack().start_address.0,
                    size as nat,
                    false,
                ) == Err::<(), MemoryError>(e) && *final(self) == *old(self),
            },
    {
        let start = self.stack_seg.start_address;
        let v = match self.read(start, size) {
            Ok(v) => v,
            Err(e) => {
                return Err(e);
            }
        };
        proof {
            lemma_first_seg_contains(self.segments(), start.0);
            lemma_stack_claims(*self, start.0);
            assert(self.find_seg(start.0) == Some(self.spec_stack()));
            assert(start.0 + size <= self.spec_stack().end_address.0);
        }
        self.stack_seg.start_address = Address::new(start.0 + (size as u32));
        Ok(v)
    }

    /// Pushes a word onto the stack, little-endian.
    pub fn stack_push_word(&mut self, value: Word) -> (r: Result<(), MemoryError>)
        requires
            old(self).wf(),
        ensures
            final(self).wf(),
            final(self).label_map() == old(self).label_map(),
            final(self).spec_text() == old(self).spec_text(),
            final(self).spec_data() == old(self).spec_data(),
            final(self).spec_heap() == old(self).spec_heap(),
            final(self).spec_extras() == old(self).spec_extras(),
            final(self).instrs() == old(self).instrs(),
            (r is Ok <==> old(self).spec_stack().start_address.0 - 4 > old(
                self,
            ).spec_heap().end_address.0),
            match r {
                Ok(_) => {
                    &&& final(self).spec_stack().start_address.0 == old(
                        self,
                    ).spec_stack().start_address.0 - 4
                    &&& final(self).spec_stack().end_address == old(self).spec_stack().end_address
                    &&& le32(
                        final(self).byte_at((old(self).spec_stack().start_address.0 - 4) as u32),
                        final(self).byte_at((old(self).spec_stack().start_address.0 - 3) as u32),
                        final(self).byte_at((old(self).spec_stack().start_address.0 - 2) as u32),
                        final(self).byte_at((old(self).spec_stack().start_address.0 - 1) as u32),
                    ) == value
                    &&& forall|x: u32|
                        !(old(self).spec_stack().start_address.0 - 4 <= x < old(
                            self,
                        ).spec_stack().start_address.0) ==> final(self).byte_at(x) == old(
                            self,
                        ).byte_at(x)
                    &&& final(self).access_check(
                        final(self).spec_stack().start_address.0,
                        4,
                        false,
                    ) == Ok::<(), MemoryError>(())
                },
                Err(e) => e == MemoryError::InvalidStack && *final(self) == *old(self),
            },
    {
        let b0: u8 = (value % 0x100) as u8;
        let b1: u8 = ((value / 0x100) % 0x100) as u8;
        let b2: u8 = ((value / 0x1_0000) % 0x100) as u8;
        let b3: u8 = (value / 0x100_0000) as u8;
        let bytes: [u8; 4] = [b0, b1, b2, b3];
        proof {
            assert(bytes@ =~= seq![b0, b1, b2, b3]);
        }
        self.stack_push(bytes.as_slice())
    }

    /// Pops a word from the stack, little-endian.
    pub fn stack_pop_word(&mut self) -> (r: Result<Word, MemoryError>)
        requires
            old(self).wf(),
        ensures
            final(self).wf(),
            final(self).label_map() == old(self).label_map(),
            final(self).spec_text() == old(self).spec_text(),
            final(self).spec_data() == old(self).spec_data(),
            final(self).spec_heap() == old(self).spec_heap(),
            final(self).spec_extras() == old(self).spec_extras(),
            final(self).instrs() == old(self).instrs(),
            final(self).table() == old(self).table(),
            (r is Ok <==> old(self).access_check(old(self).spec_stack().start_address.0, 4, false)
                is Ok),
            match r {
                Ok(w) => {
                    &&& w == le32(
                        old(self).byte_at(old(self).spec_stack().start_address.0),
                        old(self).byte_at((old(self).spec_stack().start_address.0 + 1) as u32),
                        old(self).byte_at((old(self).spec_stack().start_address.0 + 2) as u32),
                        old(self).byte_at((old(self).spec_stack().start_address.0 + 3) as u32),
                    )
                    &&& final(self).spec_stack().start_address.0 == old(
                        self,
                    ).spec_stack().start_address.0 + 4
                    &&& final(self).spec_stack().end_address == old(self).spec_stack().end_address
                },
                Err(e) => old(self).access_check(
                    old(self).spec_stack().start_address.0,
                    4,
                    false,
                ) == Err::<(), MemoryError>(e) && *final(self) == *old(self),
            },
    {
        match self.stack_pop(4) {
            Ok(v) => Ok(
                (v[0] as u32) + (v[1] as u32) * 0x100 + (v[2] as u32) * 0x1_0000 + (v[3] as u32)
                    * 0x100_0000,
            ),
            Err(e) => Err(e),
        }
    }

    /// Pushes an address onto the stack, little-endian.
    pub fn stack_push_address(&mut self, value: Address) -> (r: Result<(), MemoryError>)
        requires
            old(self).wf(),
        ensures
            final(self).wf(),
            (r is Ok <==> old(self).spec_stack().start_address.0 - 4 > old(
                self,
            ).spec_heap().end_address.0),
            match r {
                Ok(_) => {
                    &&& final(self).spec_stack().start_address.0 == old(
                        self,
                    ).spec_stack().start_address.0 - 4
                    &&& le32(
                        final(self).byte_at((old(self).spec_stack().start_address.0 - 4) as u32),
                        final(self).byte_at((old(self).spec_stack().start_address.0 - 3) as u32),
                        final(self).byte_at((old(self).spec_stack().start_address.0 - 2) as u32),
                        final(self).byte_at((old(self).spec_stack().start_address.0 - 1) as u32),
                    ) == value.0
                    &&& final(self).access_check(
                        final(self).spec_stack().start_address.0,
                        4,
                        false,
                    ) == Ok::<(), MemoryError>(())
                },
                Err(e) => e == MemoryError::InvalidStack && *final(self) == *old(self),
            },
    {
        self.stack_push_word(value.unwrap())
    }

    /// Pops an address from the stack, little-endian.
    pub fn stack_pop_address(&mut self) -> (r: Result<Address, MemoryError>)
        requires
            old(self).wf(),
        ensures
            final(self).wf(),
            (r is Ok <==> old(self).access_check(old(self).spec_stack().start_address.0, 4, false)
                is Ok),
            match r {
                Ok(a) => {
                    &&& a.0 == le32(
                        old(self).byte_at(old(self).spec_stack().start_address.0),
                        old(self).byte_at((old(self).spec_stack().start_address.0 + 1) as u32),
                        old(self).byte_at((old(self).spec_stack().start_address.0 + 2) as u32),
                        old(self).byte_at((old(self).spec_stack().start_address.0 + 3) as u32),
                    )
                    &&& final(self).spec_stack().start_address.0 == old(
                        self,
                    ).spec_stack().start_address.0 + 4
                },
                Err(e) => old(self).access_check(
                    old(self).spec_stack().start_address.0,
                    4,
                    false,
                ) == Err::<(), MemoryError>(e) && *final(self) == *old(self),
            },
    {
        match self.stack_pop_word() {
            Ok(w) => Ok(Address::new(w)),
            Err(e) => Err(e),
        }
    }

    /// Allocates `size` bytes on the heap, which grows upwards: the result
    /// is the old heap end, the heap end advances by `size`, and the new
    /// range gets read-write pages on demand. The call succeeds exactly
    /// when the grown heap stays below the stack start; otherwise it fails
    /// with `InvalidHeap` and changes nothing.
    pub fn heap_allocate(&mut self, size: usize) -> (r: Result<Address, MemoryError>)
        requires
            old(self).wf(),
        ensures
            final(self).wf(),
            final(self).label_map() == old(self).label_map(),
            final(self).spec_text() == old(self).spec_text(),
            final(self).spec_data() == old(self).spec_data(),
            final(self).spec_stack() == old(self).spec_stack(),
            final(self).spec_extras() == old(self).spec_extras(),
            final(self).instrs() == old(self).instrs(),
            (r is Ok <==> old(self).spec_heap().end_address.0 + size < old(
                self,
            ).spec_stack().start_address.0),
            match r {
                Ok(a) => {
                    &&& forall|n: u32|
                        old(self).table().has_page(n) ==> final(self).table().has_page(n)
                            && final(self).table().page_prot(n) == old(self).table().page_prot(n)
                    &&& (size > 0 ==> forall|pn: u32|
                        old(self).spec_heap().end_address.0 / 4096 <= pn
                            <= (old(self).spec_heap().end_address.0 + size - 1) / 4096
                            ==> final(self).table().has_page(pn)
                            && final(self).table().page_prot(pn) == ProtectionLevel::ReadWrite)
                    &&& a == old(self).spec_heap().end_address
                    &&& final(self).spec_heap().start_address == old(
                        self,
                    ).spec_heap().start_address
                    &&& final(self).spec_heap().end_address.0 == old(
                        self,
                    ).spec_heap().end_address.0 + size
                    &&& forall|x: u32| final(self).byte_at(x) == old(self).byte_at(x)
                },
                Err(e) => e == MemoryError::InvalidHeap && *final(self) == *old(self),
            },
    {
        let end = self.heap_seg.end_address.0;
        let stack_start = self.stack_seg.start_address.0;
        if size >= (stack_start - end) as usize {
            return Err(MemoryError::InvalidHeap);
        }
        if size == 0 {
            proof {
                assert(forall|x: u32| self.byte_at(x) == old(self).byte_at(x));
            }
            return Ok(Address::new(end));
        }
        let first_page = end / 4096;
        let last_page = (end + (size as u32) - 1) / 4096;
        let ghost pre = *self;
        proof {
            assert(first_page as int >= DATA_START as int / 4096) by (nonlinear_arith)
                requires
                    first_page == end / 4096,
                    end >= DATA_START,
            ;
        }
        match self.page_table.ensure_pages(first_page, last_page, ProtectionLevel::ReadWrite) {
            Ok(_) => {}
            Err(e) => {
                proof {
                    let bad = choose|p: u32|
                        first_page <= p <= last_page && pre.table().has_page(p) && pre.table()
                            .page_prot(p) != ProtectionLevel::ReadWrite;
                    assert(bad >= DATA_START / 4096);
                    assert(false);
                }
                return Err(e);
            }
        }
        proof {
            assert forall|x: u32| true implies self.byte_at(x) == pre.byte_at(x) by {
                if first_page <= x / 4096 <= last_page && !pre.table().has_page(x / 4096) {
                    assert(self.table().page_data(x / 4096) =~= Seq::new(4096, |i: int| 0u8));
                }
            }
            lemma_rw_after_ensure(pre.table(), self.table(), first_page, last_page);
        }
        self.heap_seg.end_address = Address::new(end + (size as u32));
        proof {
            assert(self.table().wf());
            assert(rw_region_ok(self.table()) && writable_is_rw(self.table()));
            assert(self.spec_heap().start_address.0 <= self.spec_heap().end_address.0);
            assert(self.spec_heap().end_address.0 <= self.spec_stack().start_address.0);
            assert(self.label_map().wf());
            assert forall|k: int| 0 <= k < self.spec_extras().len() implies (
            #[trigger] self.spec_extras()[k]).start_address.0 >= MMIO_START by {
                assert(self.spec_extras()[k] == old(self).spec_extras()[k]);
            }
            assert(self.wf());
        }
        Ok(Address::new(end))
    }

    /// Releases a heap block by zeroing its bytes; the heap end keeps its
    /// place. Faults from an unwritable or unmapped range are ignored and
    /// leave the memory unchanged.
    pub fn heap_deallocate(&mut self, address: Address, size: usize)
        requires
            old(self).wf(),
        ensures
            final(self).wf(),
            final(self).label_map() == old(self).label_map(),
            final(self).spec_text() == old(self).spec_text(),
            final(self).spec_data() == old(self).spec_data(),
            final(self).spec_heap() == old(self).spec_heap(),
            final(self).spec_stack() == old(self).spec_stack(),
            final(self).spec_extras() == old(self).spec_extras(),
            final(self).instrs() == old(self).instrs(),
            forall|n: u32| final(self).table().has_page(n) == old(self).table().has_page(n),
            forall|n: u32|
                old(self).table().has_page(n) ==> final(self).table().page_prot(n) == old(
                    self,
                ).table().page_prot(n),
            old(self).access_check(address.0, size as nat, true) == Ok::<(), MemoryError>(())
                ==> forall|i: int|
                0 <= i < size ==> final(self).byte_at(#[trigger] ((address.0 + i) as u32)) == 0,
            forall|x: u32|
                !(address.0 <= x < address.0 + size) ==> final(self).byte_at(x) == old(
                    self,
                ).byte_at(x),
            !(old(self).access_check(address.0, size as nat, true) == Ok::<(), MemoryError>(()))
                ==> *final(self) == *old(self),
    {
        let mut zeros: Vec<u8> = Vec::new();
        let mut k: usize = 0;
        while k < size
            invariant
                zeros@.len() == k,
                k <= size,
                forall|j: int| 0 <= j < k ==> zeros@[j] == 0,
            decreases size - k,
        {
            zeros.push(0);
            k = k + 1;
        }
        match self.write(address, zeros.as_slice()) {
            Ok(_) => {
                proof {
                    assert(zeros@.len() == size);
                    assert forall|i: int| 0 <= i < size implies self.byte_at(
                        #[trigger] ((address.0 + i) as u32),
                    ) == 0 by {
                        assert(self.byte_at((address.0 + i) as u32) == zeros@[i]);
                    }
                }
            }
            Err(_) => {}
        }
    }

    /// The instruction at `address`: the address must lie in the text
    /// segment and its page must be present and executable; the instruction
    /// is the one whose slot covers the address.
    pub fn execute(&self, address: Address) -> (r: Result<&Instruction, MemoryError>)
        requires
            self.wf(),
        ensures
            match r {
                Ok(i) => {
                    &&& seg_contains(self.spec_text(), address.0)
                    &&& self.table().has_page(address.0 / 4096)
                    &&& prot_executable(self.table().page_prot(address.0 / 4096))
                    &&& *i == self.instrs()[(address.0 - self.spec_text().start_address.0) / 4]
                },
                Err(e) => {
                    &&& (e == MemoryError::SegmentFault || e == MemoryError::ProtectionFault)
                    &&& (e == MemoryError::SegmentFault <==> seg_contains(
                        self.spec_text(),
                        address.0,
                    ) && !self.table().has_page(address.0 / 4096))
                    &&& (e == MemoryError::ProtectionFault <==> !seg_contains(
                        self.spec_text(),
                        address.0,
                    ) || (self.table().has_page(address.0 / 4096) && !prot_executable(
                        self.table().page_prot(address.0 / 4096),
                    )))
                },
            },
    {
        let a = address.0;
        let start = self.text_seg.start_address.0;
        let end = self.text_seg.end_address.0;
        if start <= a && a < end {
            let index = ((a - start) / 4) as usize;
            match self.page_table.get_page(a / 4096) {
                Some(page) => {
                    if page.protection.is_executable() {
                        proof {
                            assert((a - start) as int / 4 < self.instrs().len()) by (
                            nonlinear_arith)
                                requires
                                    start <= a < end,
                                    end - start == 4 * self.instrs().len(),
                            ;
                        }
                        Ok(&self.text_instructions[index])
                    } else {
                        Err(MemoryError::ProtectionFault)
                    }
                }
                None => Err(MemoryError::SegmentFault),
            }
        } else {
            Err(MemoryError::ProtectionFault)
        }
    }
}

/// The first address of the text segment.
pub const TEXT_START: u32 = 0x0040_0000;

/// The first address past the room reserved for the text segment.
pub const TEXT_LIMIT: u32 = 0x1000_0000;

/// The first address of the data region.
pub const DATA_START: u32 = 0x1001_0000;

/// The top of the user address space: the stack grows down from here.
pub const STACK_TOP: u32 = 0x7FFF_FFFF;

/// The first address of the memory-mapped range.
pub const MMIO_START: u32 = 0xFFFF_0000;

/// The bytes of the data section, concatenated in order.
pub open spec fn flat_data(data: Seq<crate::program::StaticData>) -> Seq<u8>
    decreases data.len(),
{
    if data.len() == 0 {
        Seq::empty()
    } else {
        flat_data(data.drop_last()) + data.last().data@
    }
}

/// The address the data section gives a label: the running cursor from
/// `DATA_START` at its defining datum; a label defined twice gets its last
/// definition.
pub open spec fn data_label_lookup(data: Seq<crate::program::StaticData>, name: Seq<char>)
    -> Option<Address>
    decreases data.len(),
{
    if data.len() == 0 {
        None
    } else if data.last().label@ == name {
        Some(Address((DATA_START + flat_data(data.drop_last()).len()) as u32))
    } else {
        data_label_lookup(data.drop_last(), name)
    }
}

/// The address the text section gives a label: the first address of its
/// block; a label defined twice gets its last definition.
pub open spec fn block_label_lookup(blocks: Seq<crate::program::Block>, name: Seq<char>)
    -> Option<Address>
    decreases blocks.len(),
{
    if blocks.len() == 0 {
        None
    } else if blocks.last().label@.len() > 0 && blocks.last().label@ == name {
        Some(
            Address(
                (TEXT_START + 4 * crate::program::flat_instructions(blocks.drop_last()).len())
                    as u32,
            ),
        )
    } else {
        block_label_lookup(blocks.drop_last(), name)
    }
}

/// The address the loaded program gives a label: a text label wins over a
/// data label of the same name.
pub open spec fn label_lookup(p: crate::program::Program, name: Seq<char>) -> Option<Address> {
    match block_label_lookup(p.text_section.blocks@, name) {
        Some(a) => Some(a),
        None => data_label_lookup(p.data_section.initialized@, name),
    }
}

/// The branch displacement from the already-advanced program counter
/// `pc_next` to `target`, as a wrapped 32-bit difference.
pub open spec fn branch_disp(target: u32, pc_next: u32) -> u32 {
    (((target + 0x1_0000_0000) - pc_next) % 0x1_0000_0000) as u32
}

/// Whether a branch displacement fits the signed 16-bit immediate slot.
pub open spec fn branch_disp_fits(d: u32) -> bool {
    d <= 0x7FFF || d >= 0xFFFF_8000
}

/// Whether the kind branches by an immediate displacement.
pub open spec fn is_branch(k: crate::program::InstructionKind) -> bool {
    k == crate::program::InstructionKind::Beq || k == crate::program::InstructionKind::Bne || k
        == crate::program::InstructionKind::Blez || k == crate::program::InstructionKind::Bgtz
}

/// The argument list of an instruction after label resolution: a branch
/// whose last argument is a label gets it replaced by the 16-bit
/// displacement from the already-advanced program counter; everything else
/// is kept as written.
pub open spec fn resolved_args(
    kind: crate::program::InstructionKind,
    args: Seq<crate::program::InstructionArg>,
    pc_next: u32,
    p: crate::program::Program,
) -> Seq<crate::program::InstructionArg> {
    if is_branch(kind) && args.len() > 0 && args.last() is Label {
        match label_lookup(p, args.last()->Label_0@) {
            Some(t) => Seq::update(
                args,
                args.len() - 1,
                crate::program::InstructionArg::Immediate(
                    (branch_disp(t.0, pc_next) % 0x1_0000) as u16,
                ),
            ),
            None => args,
        }
    } else {
        args
    }
}


/// The data bytes stand at their load addresses.
pub open spec fn data_bytes_ok(pt: PageTable, raw: Seq<u8>) -> bool {
    forall|j: int| 0 <= j < raw.len() ==> pt.byte_at(#[trigger] ((DATA_START + j) as u32)) == raw[j]
}

/// The encoded instruction words stand at their load addresses.
pub open spec fn text_words_ok(pt: PageTable, enc: Seq<u32>) -> bool {
    forall|k: int|
        0 <= k < enc.len() ==> le32(
            pt.byte_at(#[trigger] ((TEXT_START + 4 * k) as u32)),
            pt.byte_at((TEXT_START + 4 * k + 1) as u32),
            pt.byte_at((TEXT_START + 4 * k + 2) as u32),
            pt.byte_at((TEXT_START + 4 * k + 3) as u32),
        ) == enc[k]
}

/// The text pages are present and read-execute.
pub open spec fn text_prots_ok(pt: PageTable, n: int) -> bool {
    forall|pn: u32|
        n > 0 && TEXT_START / 4096 <= pn <= (TEXT_START + 4 * n - 1) / 4096 ==> pt.has_page(pn)
            && pt.page_prot(pn) == ProtectionLevel::ReadExecute
}


fn place_text_bytes(
    page_table: &mut PageTable,
    encoded: &Vec<u32>,
    Ghost(raw): Ghost<Seq<u8>>,
) -> (r: Result<(), MemoryError>)
    requires
        old(page_table).wf(),
        rw_region_ok(*old(page_table)),
        writable_is_rw(*old(page_table)),
        forall|pn: u32| #[trigger] old(page_table).has_page(pn) ==> pn >= DATA_START / 4096,
        data_bytes_ok(*old(page_table), raw),
        DATA_START + raw.len() <= STACK_TOP,
        TEXT_START + 4 * encoded@.len() <= TEXT_LIMIT,
    ensures
        final(page_table).wf(),
        r is Ok,
        rw_region_ok(*final(page_table)),
        writable_is_rw(*final(page_table)),
        data_bytes_ok(*final(page_table), raw),
        text_words_ok(*final(page_table), encoded@),
        text_prots_ok(*final(page_table), encoded@.len() as int),
{
    let n = encoded.len();
    let text_end: u32 = TEXT_START + 4 * (n as u32);
    let ghost pt0 = *page_table;
    if n > 0 {
        proof {
            assert((text_end - 1) as int / 4096 < DATA_START as int / 4096) by (nonlinear_arith)
                requires
                    text_end <= TEXT_LIMIT,
                    text_end >= 1,
            ;
        }
        match page_table.ensure_pages(
            TEXT_START / 4096,
            (text_end - 1) / 4096,
            ProtectionLevel::Write,
        ) {
            Ok(_) => {}
            Err(e) => {
                proof {
                    let bad = choose|p: u32|
                        TEXT_START / 4096 <= p <= (text_end - 1) / 4096 && pt0.has_page(p)
                            && pt0.page_prot(p) != ProtectionLevel::Write;
                    assert(bad >= DATA_START / 4096);
                    assert(false);
                }
                return Err(e);
            }
        }
        proof {
            assert forall|x: u32| true implies page_table.byte_at(x) == pt0.byte_at(x) by {
                if TEXT_START / 4096 <= x / 4096 <= (text_end - 1) / 4096 {
                    if pt0.has_page(x / 4096) {
                        assert(page_table.spec_find(x / 4096) == pt0.spec_find(x / 4096));
                    } else {
                        assert(page_table.page_data(x / 4096) =~= Seq::new(4096, |i: int| 0u8));
                    }
                } else {
                    assert(page_table.spec_find(x / 4096) == pt0.spec_find(x / 4096));
                }
            }
        }
        let ghost pt1 = *page_table;
        let mut tbytes: Vec<u8> = Vec::new();
        let mut k: usize = 0;
        while k < n
            invariant
                encoded@.len() == n,
                k <= n,
                tbytes@.len() == 4 * k,
                forall|j: int|
                    0 <= j < k ==> tbytes@[4 * j] == (#[trigger] encoded@[j]) % 0x100 && tbytes@[4
                        * j + 1] == (encoded@[j] / 0x100) % 0x100 && tbytes@[4 * j + 2] == (
                    encoded@[j] / 0x1_0000) % 0x100 && tbytes@[4 * j + 3] == (encoded@[j]
                        / 0x100_0000) as u8,
            decreases n - k,
        {
            let w = encoded[k];
            tbytes.push((w % 0x100) as u8);
            tbytes.push(((w / 0x100) % 0x100) as u8);
            tbytes.push(((w / 0x1_0000) % 0x100) as u8);
            tbytes.push((w / 0x100_0000) as u8);
            k = k + 1;
        }
        proof {
            assert forall|p: u32| TEXT_START as int / 4096 <= p < TEXT_START as int / 4096
                + span_count(TEXT_START, tbytes@.len()) implies #[trigger] page_table.spec_find(p)
                is Some && prot_writable(page_table.page_prot(p)) by {
                assert((TEXT_START + 4 * n - 1) as int / 4096 == (text_end - 1) as int / 4096);
            }
            lemma_check_pages_none(
                *page_table,
                TEXT_START as int / 4096,
                span_count(TEXT_START, tbytes@.len()),
                true,
            );
        }
        match page_table.write_bytes(Address::new(TEXT_START), tbytes.as_slice()) {
            Ok(_) => {}
            Err(e) => {
                proof {
                    assert(false);
                }
                return Err(e);
            }
        }
        let ghost pt2 = *page_table;
        proof {
            assert forall|j: int| 0 <= j < raw.len() implies page_table.byte_at(
                #[trigger] ((DATA_START + j) as u32),
            ) == raw[j] by {
                assert(DATA_START + j >= TEXT_START + tbytes@.len());
                assert(pt1.byte_at((DATA_START + j) as u32) == pt0.byte_at(
                    (DATA_START + j) as u32,
                ));
            }
            assert(data_bytes_ok(*page_table, raw));
            assert forall|kk: int| 0 <= kk < n implies le32(
                page_table.byte_at(#[trigger] ((TEXT_START + 4 * kk) as u32)),
                page_table.byte_at((TEXT_START + 4 * kk + 1) as u32),
                page_table.byte_at((TEXT_START + 4 * kk + 2) as u32),
                page_table.byte_at((TEXT_START + 4 * kk + 3) as u32),
            ) == encoded@[kk] by {
                assert(page_table.byte_at((TEXT_START + 4 * kk) as u32) == tbytes@[4 * kk]);
                assert(page_table.byte_at((TEXT_START + 4 * kk + 1) as u32) == tbytes@[4 * kk + 1]);
                assert(page_table.byte_at((TEXT_START + 4 * kk + 2) as u32) == tbytes@[4 * kk + 2]);
                assert(page_table.byte_at((TEXT_START + 4 * kk + 3) as u32) == tbytes@[4 * kk + 3]);
            }
            assert(text_words_ok(*page_table, encoded@));
        }
        page_table.set_protections(
            TEXT_START / 4096,
            (text_end - 1) / 4096,
            ProtectionLevel::ReadExecute,
        );
        proof {
            assert forall|x: u32| true implies page_table.byte_at(x) == pt2.byte_at(x) by {
                if TEXT_START / 4096 <= x / 4096 <= (text_end - 1) / 4096 && pt2.has_page(
                    x / 4096,
                ) {
                    assert(page_table.spec_find(x / 4096) == Some(
                        Page {
                            data: pt2.spec_find(x / 4096).unwrap().data,
                            protection: ProtectionLevel::ReadExecute,
                        },
                    ));
                } else {
                    assert(page_table.spec_find(x / 4096) == pt2.spec_find(x / 4096));
                }
            }
            assert(data_bytes_ok(*page_table, raw));
            assert forall|kk: int| 0 <= kk < n implies le32(
                page_table.byte_at(#[trigger] ((TEXT_START + 4 * kk) as u32)),
                page_table.byte_at((TEXT_START + 4 * kk + 1) as u32),
                page_table.byte_at((TEXT_START + 4 * kk + 2) as u32),
                page_table.byte_at((TEXT_START + 4 * kk + 3) as u32),
            ) == encoded@[kk] by {
                assert(page_table.byte_at((TEXT_START + 4 * kk) as u32) == pt2.byte_at(
                    (TEXT_START + 4 * kk) as u32,
                ));
            }
            assert(text_words_ok(*page_table, encoded@));
            assert forall|pn: u32| TEXT_START / 4096 <= pn <= (TEXT_START + 4 * n - 1) / 4096
                implies page_table.has_page(pn) && page_table.page_prot(pn)
                == ProtectionLevel::ReadExecute by {
                assert(pt2.has_page(pn));
            }
            assert(text_prots_ok(*page_table, n as int));
            assert((text_end - 1) as int / 4096 < DATA_START as int / 4096) by (nonlinear_arith)
                requires
                    text_end <= TEXT_LIMIT,
                    text_end >= 1,
            ;
            assert forall|pn: u32| pn >= DATA_START / 4096 && #[trigger] page_table.has_page(pn)
                implies page_table.page_prot(pn) == ProtectionLevel::ReadWrite by {
                assert(page_table.spec_find(pn) == pt2.spec_find(pn));
                assert(pt2.has_page(pn) == pt1.has_page(pn));
                assert(pt1.has_page(pn));
                assert(pt2.page_prot(pn) == pt1.page_prot(pn));
                assert(pt1.spec_find(pn) == pt0.spec_find(pn));
                assert(pt0.has_page(pn));
                assert(pt0.page_prot(pn) == ProtectionLevel::ReadWrite);
            }
            assert(rw_region_ok(*page_table));
            assert forall|pn: u32| #[trigger] page_table.has_page(pn) && prot_writable(
                page_table.page_prot(pn),
            ) implies page_table.page_prot(pn) == ProtectionLevel::ReadWrite by {
                if TEXT_START / 4096 <= pn <= (text_end - 1) / 4096 {
                    assert(pt2.has_page(pn));
                    assert(page_table.spec_find(pn) == Some(
                        Page {
                            data: pt2.spec_find(pn).unwrap().data,
                            protection: ProtectionLevel::ReadExecute,
                        },
                    ));
                    assert(!prot_writable(page_table.page_prot(pn)));
                } else {
                    assert(page_table.spec_find(pn) == pt2.spec_find(pn));
                    assert(pt2.has_page(pn) == pt1.has_page(pn));
                    if pt1.has_page(pn) {
                        assert(pt2.page_prot(pn) == pt1.page_prot(pn));
                    }
                    assert(pt1.spec_find(pn) == pt0.spec_find(pn));
                    assert(pt0.has_page(pn));
                    assert(pn >= DATA_START / 4096);
                    assert(pt0.page_prot(pn) == ProtectionLevel::ReadWrite);
                }
            }
            assert(writable_is_rw(*page_table));
        }
    }
    Ok(())
}

fn ensure_runtime_pages(
    page_table: &mut PageTable,
    data_end: u32,
    Ghost(raw): Ghost<Seq<u8>>,
    Ghost(enc): Ghost<Seq<u32>>,
) -> (r: Result<(), MemoryError>)
    requires
        old(page_table).wf(),
        rw_region_ok(*old(page_table)),
        writable_is_rw(*old(page_table)),
        data_bytes_ok(*old(page_table), raw),
        text_words_ok(*old(page_table), enc),
        text_prots_ok(*old(page_table), enc.len() as int),
        data_end == DATA_START + raw.len(),
        DATA_START + raw.len() <= STACK_TOP,
        TEXT_START + 4 * enc.len() <= TEXT_LIMIT,
    ensures
        final(page_table).wf(),
        r is Ok,
        rw_region_ok(*final(page_table)),
        writable_is_rw(*final(page_table)),
        data_bytes_ok(*final(page_table), raw),
        text_words_ok(*final(page_table), enc),
        text_prots_ok(*final(page_table), enc.len() as int),
{
    let ghost pt3 = *page_table;
    proof {
        assert(data_end as int / 4096 >= DATA_START as int / 4096) by (nonlinear_arith)
            requires
                data_end >= DATA_START,
        ;
    }
    match page_table.ensure_pages(data_end / 4096, data_end / 4096, ProtectionLevel::ReadWrite) {
        Ok(_) => {}
        Err(e) => {
            proof {
                let bad = choose|p: u32|
                    data_end / 4096 <= p <= data_end / 4096 && pt3.has_page(p) && pt3.page_prot(p)
                        != ProtectionLevel::ReadWrite;
                assert(bad >= DATA_START / 4096);
                assert(false);
            }
            return Err(e);
        }
    }
    let ghost pt4 = *page_table;
    match page_table.ensure_pages(STACK_TOP / 4096, STACK_TOP / 4096, ProtectionLevel::ReadWrite) {
        Ok(_) => {}
        Err(e) => {
            proof {
                lemma_rw_after_ensure(pt3, pt4, data_end / 4096, data_end / 4096);
                let bad = choose|p: u32|
                    STACK_TOP / 4096 <= p <= STACK_TOP / 4096 && pt4.has_page(p) && pt4.page_prot(
                        p,
                    ) != ProtectionLevel::ReadWrite;
                assert(bad >= DATA_START / 4096);
                assert(false);
            }
            return Err(e);
        }
    }
    proof {
        lemma_rw_after_ensure(pt3, pt4, data_end / 4096, data_end / 4096);
        lemma_rw_after_ensure(pt4, *page_table, STACK_TOP / 4096, STACK_TOP / 4096);
        assert forall|x: u32| true implies page_table.byte_at(x) == pt3.byte_at(x) by {
            if x / 4096 == data_end / 4096 || x / 4096 == STACK_TOP / 4096 {
                if !pt3.has_page(x / 4096) {
                    assert(page_table.page_data(x / 4096) =~= Seq::new(4096, |i: int| 0u8));
                }
            }
        }
        assert forall|pn: u32| enc.len() > 0 && TEXT_START / 4096 <= pn <= (TEXT_START + 4
            * enc.len() - 1) / 4096 implies page_table.has_page(pn) && page_table.page_prot(pn)
            == ProtectionLevel::ReadExecute by {
            assert(TEXT_START + 4 * enc.len() - 1 < 0x1000_0000);
            assert(pn < 0x10000) by (nonlinear_arith)
                requires
                    pn <= (TEXT_START + 4 * enc.len() - 1) / 4096,
                    TEXT_START + 4 * enc.len() - 1 < 0x1000_0000,
            ;
            assert(data_end as int / 4096 >= DATA_START as int / 4096) by (nonlinear_arith)
                requires
                    data_end >= DATA_START,
            ;
            assert(pn < data_end / 4096 && pn < STACK_TOP / 4096);
            assert(pt3.has_page(pn) && pt3.page_prot(pn) == ProtectionLevel::ReadExecute);
            assert(page_table.spec_find(pn) == pt3.spec_find(pn));
        }
        assert(data_bytes_ok(*page_table, raw));
        assert(text_words_ok(*page_table, enc));
        assert(text_prots_ok(*page_table, enc.len() as int));
    }
    Ok(())
}

fn map_extra_segments(
    page_table: &mut PageTable,
    mmio: Vec<MemorySegment>,
    Ghost(raw): Ghost<Seq<u8>>,
    Ghost(enc): Ghost<Seq<u32>>,
) -> (r: Result<Vec<MemorySegment>, MemoryError>)
    requires
        old(page_table).wf(),
        rw_region_ok(*old(page_table)),
        writable_is_rw(*old(page_table)),
        data_bytes_ok(*old(page_table), raw),
        text_words_ok(*old(page_table), enc),
        text_prots_ok(*old(page_table), enc.len() as int),
        DATA_START + raw.len() <= STACK_TOP,
        TEXT_START + 4 * enc.len() <= TEXT_LIMIT,
    ensures
        final(page_table).wf(),
        match r {
            Ok(v) => {
                &&& v@ == mmio@
                &&& rw_region_ok(*final(page_table))
                &&& writable_is_rw(*final(page_table))
                &&& data_bytes_ok(*final(page_table), raw)
                &&& text_words_ok(*final(page_table), enc)
                &&& text_prots_ok(*final(page_table), enc.len() as int)
                &&& forall|k: int|
                    0 <= k < v@.len() ==> (#[trigger] v@[k]).start_address.0 >= MMIO_START
                        && v@[k].start_address.0 <= v@[k].end_address.0
            },
            Err(e) => e == MemoryError::InvalidSection && exists|j: int|
                0 <= j < mmio@.len() && ((#[trigger] mmio@[j]).start_address.0 < MMIO_START
                    || mmio@[j].end_address.0 < mmio@[j].start_address.0),
        },
{
    let ghost mmio_all = mmio@;
    let mut mm = mmio;
    let mut extra: Vec<MemorySegment> = Vec::new();
    let ghost mut mi: int = 0;
    while mm.len() > 0
        invariant
            mmio_all == mmio@,
            0 <= mi,
            mi + mm@.len() == mmio_all.len(),
            mm@ == mmio_all.skip(mi),
            extra@ == mmio_all.take(mi),
            page_table.wf(),
            rw_region_ok(*page_table),
            writable_is_rw(*page_table),
            DATA_START + raw.len() <= STACK_TOP,
            TEXT_START + 4 * enc.len() <= TEXT_LIMIT,
            data_bytes_ok(*page_table, raw),
            text_words_ok(*page_table, enc),
            text_prots_ok(*page_table, enc.len() as int),
            forall|k: int|
                0 <= k < extra@.len() ==> (#[trigger] extra@[k]).start_address.0 >= MMIO_START
                    && extra@[k].start_address.0 <= extra@[k].end_address.0,
        decreases mm@.len(),
    {
        let seg = mm.remove(0);
        proof {
            assert(seg == mmio_all[mi]);
            assert(mm@ =~= mmio_all.skip(mi + 1));
            assert(mmio_all.take(mi + 1) =~= mmio_all.take(mi).push(seg));
        }
        if seg.start_address.0 < MMIO_START || seg.end_address.0 < seg.start_address.0 {
            proof {
                assert(mmio_all[mi].start_address.0 < MMIO_START || mmio_all[mi].end_address.0
                    < mmio_all[mi].start_address.0);
            }
            return Err(MemoryError::InvalidSection);
        }
        if seg.end_address.0 > seg.start_address.0 {
            let ghost ptm = *page_table;
            proof {
                assert(seg.start_address.0 as int / 4096 >= DATA_START as int / 4096)
                    by (nonlinear_arith)
                    requires
                        seg.start_address.0 >= MMIO_START,
                ;
            }
            match page_table.ensure_pages(
                seg.start_address.0 / 4096,
                (seg.end_address.0 - 1) / 4096,
                ProtectionLevel::ReadWrite,
            ) {
                Ok(_) => {}
                Err(e) => {
                    proof {
                        let bad = choose|p: u32|
                            seg.start_address.0 / 4096 <= p <= (seg.end_address.0 - 1) / 4096
                                && ptm.has_page(p) && ptm.page_prot(p)
                                != ProtectionLevel::ReadWrite;
                        assert(bad >= DATA_START / 4096);
                        assert(false);
                    }
                    return Err(e);
                }
            }
            proof {
                lemma_rw_after_ensure(
                    ptm,
                    *page_table,
                    (seg.start_address.0 / 4096) as u32,
                    (((seg.end_address.0 - 1) as u32) / 4096) as u32,
                );
                assert forall|x: u32| true implies page_table.byte_at(x) == ptm.byte_at(x) by {
                    if seg.start_address.0 / 4096 <= x / 4096 <= (seg.end_address.0 - 1) / 4096
                        && !ptm.has_page(x / 4096) {
                        assert(page_table.page_data(x / 4096) =~= Seq::new(4096, |i: int| 0u8));
                    } else {
                        assert(page_table.spec_find(x / 4096) == ptm.spec_find(x / 4096));
                    }
                }
                assert forall|pn: u32| enc.len() > 0 && TEXT_START / 4096 <= pn <= (TEXT_START + 4
                    * enc.len() - 1) / 4096 implies page_table.has_page(pn)
                    && page_table.page_prot(pn) == ProtectionLevel::ReadExecute by {
                    assert(TEXT_START + 4 * enc.len() - 1 < 0x1000_0000);
                    assert(pn < 0x10000) by (nonlinear_arith)
                        requires
                            pn <= (TEXT_START + 4 * enc.len() - 1) / 4096,
                            TEXT_START + 4 * enc.len() - 1 < 0x1000_0000,
                    ;
                    assert(seg.start_address.0 as int / 4096 >= 0xFFFF_0000int / 4096)
                        by (nonlinear_arith)
                        requires
                            seg.start_address.0 >= 0xFFFF_0000u32,
                    ;
                    assert(pn < seg.start_address.0 / 4096);
                    assert(ptm.has_page(pn) && ptm.page_prot(pn) == ProtectionLevel::ReadExecute);
                    assert(page_table.spec_find(pn) == ptm.spec_find(pn));
                }
                assert(data_bytes_ok(*page_table, raw));
                assert(text_words_ok(*page_table, enc));
                assert(text_prots_ok(*page_table, enc.len() as int));
            }
        }
        extra.push(seg);
        proof {
            mi = mi + 1;
        }
    }
    proof {
        assert(mmio_all.take(mi) =~= mmio_all);
    }
    Ok(extra)
}

impl Memory {
    /// Lays a parsed program out in a fresh address space: data bytes from
    /// `DATA_START` in read-write pages, encoded instruction words from
    /// `TEXT_START` in pages promoted to read-execute, an empty heap just
    /// past the data, an empty stack at `STACK_TOP`, and the given
    /// memory-mapped segments in read-write pages. Labels are resolved to
    /// their load addresses first, and branch labels are rewritten to
    /// 16-bit displacements before the instruction stream is assembled.
    #[verifier::rlimit(100)]
    pub fn load(program: crate::program::Program, mmio: Vec<MemorySegment>) -> (r: Result<
        Memory,
        MemoryError,
    >)
        ensures
            program.text_section.blocks@.len() == 0 ==> r == Err::<Memory, MemoryError>(
                MemoryError::InvalidData,
            ),
            r is Err ==> load_fails(program, mmio@),
            match r {
                Ok(m) => {
                    let datas = program.data_section.initialized@;
                    let flat = crate::program::flat_instructions(program.text_section.blocks@);
                    let dlen = flat_data(datas).len();
                    &&& m.wf()
                    &&& m.spec_text().start_address.0 == TEXT_START
                    &&& m.spec_text().end_address.0 == TEXT_START + 4 * flat.len()
                    &&& m.instrs().len() == flat.len()
                    &&& forall|name: Seq<char>|
                        m.label_map().spec_get(name) == label_lookup(program, name)
                    &&& dlen + DATA_START <= STACK_TOP
                    &&& (m.spec_data() is Some <==> datas.len() > 0)
                    &&& (m.spec_data() matches Some(d) ==> d.start_address.0 == DATA_START
                        && d.end_address.0 == DATA_START + dlen)
                    &&& forall|j: int|
                        0 <= j < dlen ==> m.byte_at(#[trigger] ((DATA_START + j) as u32))
                            == flat_data(datas)[j]
                    &&& m.spec_heap().start_address.0 == DATA_START + dlen
                    &&& m.spec_heap().end_address.0 == DATA_START + dlen
                    &&& m.spec_stack().start_address.0 == STACK_TOP
                    &&& m.spec_stack().end_address.0 == STACK_TOP
                    &&& m.spec_extras() == mmio@
                    &&& forall|k: int|
                        0 <= k < flat.len() ==> (#[trigger] m.instrs()[k]).kind == flat[k].kind
                            && m.instrs()[k].args@ == resolved_args(
                            flat[k].kind,
                            flat[k].args@,
                            (TEXT_START + 4 * k + 4) as u32,
                            program,
                        )
                    &&& forall|k: int|
                        0 <= k < flat.len() ==> (crate::assembler::spec_encode(
                            #[trigger] m.instrs()[k],
                            m.label_map(),
                        ) matches Ok(w) && le32(
                            m.byte_at((TEXT_START + 4 * k) as u32),
                            m.byte_at((TEXT_START + 4 * k + 1) as u32),
                            m.byte_at((TEXT_START + 4 * k + 2) as u32),
                            m.byte_at((TEXT_START + 4 * k + 3) as u32),
                        ) == w)
                    &&& forall|pn: u32|
                        flat.len() > 0 && TEXT_START / 4096 <= pn <= (TEXT_START + 4 * flat.len()
                            - 1) / 4096 ==> m.table().has_page(pn) && m.table().page_prot(pn)
                            == ProtectionLevel::ReadExecute
                },
                Err(_) => true,
            },
    {
        let ghost mmio_snapshot = mmio@;
        if program.text_section.blocks.len() == 0 {
            return Err(MemoryError::InvalidData);
        }
        let mut page_table = PageTable::new();
        let mut labels = LabelMap::new();

        // Data pass: record each datum's label at the running cursor and
        // concatenate the raw bytes.
        let ghost datas = program.data_section.initialized@;
        let ghost blks = program.text_section.blocks@;
        let ghost prog_snapshot = program;
        let data_section = program.data_section;
        let text_section = program.text_section;
        let ghost prog = program;
        let mut items = data_section.initialized_static_move();
        let has_data = items.len() > 0;
        let mut raw: Vec<u8> = Vec::new();
        let ghost mut di: int = 0;
        while items.len() > 0
            invariant
                program.text_section.blocks@.len() > 0,
                datas == program.data_section.initialized@,
                0 <= di,
                di + items@.len() == datas.len(),
                items@ == datas.skip(di),
                raw@ == flat_data(datas.take(di)),
                DATA_START + raw@.len() <= STACK_TOP,
                labels.wf(),
                forall|name: Seq<char>|
                    labels.spec_get(name) == data_label_lookup(datas.take(di), name),
            decreases items@.len(),
        {
            let ghost pre_labels = labels;
            let sd = items.remove(0);
            proof {
                assert(sd == datas[di]);
                assert(items@ =~= datas.skip(di + 1));
                assert(datas.take(di + 1).drop_last() =~= datas.take(di));
            }
            let cursor: u32 = DATA_START + (raw.len() as u32);
            if sd.data.len() > (STACK_TOP - cursor) as usize {
                proof {
                    assert(datas.take(di + 1).drop_last() =~= datas.take(di));
                    assert(flat_data(datas.take(di + 1)).len() == flat_data(datas.take(di)).len()
                        + datas[di].data@.len());
                    lemma_flat_data_prefix(datas, di + 1);
                    assert(DATA_START + flat_data(datas).len() > STACK_TOP);
                    assert(load_fails(program, mmio@));
                }
                return Err(MemoryError::InvalidData);
            }
            let crate::program::StaticData { label, data, .. } = sd;
            labels.insert(label, Address::new(cursor));
            proof {
                assert forall|name: Seq<char>| true implies labels.spec_get(name)
                    == data_label_lookup(datas.take(di + 1), name) by {
                    if name == datas[di].label@ {
                    } else {
                        assert(labels.spec_get(name) == pre_labels.spec_get(name));
                    }
                }
            }
            let mut b: usize = 0;
            while b < data.len()
                invariant
                    b <= data@.len(),
                    raw@ == flat_data(datas.take(di)) + data@.take(b as int),
                decreases data@.len() - b,
            {
                raw.push(data[b]);
                proof {
                    assert(data@.take(b + 1) =~= data@.take(b as int).push(data@[b as int]));
                    assert(raw@ =~= flat_data(datas.take(di)) + data@.take(b + 1));
                }
                b = b + 1;
            }
            proof {
                assert(data@.take(data@.len() as int) =~= data@);
                assert(raw@ =~= flat_data(datas.take(di + 1)));
                di = di + 1;
            }
        }
        proof {
            assert(datas.take(di) =~= datas);
        }
        let data_len = raw.len();
        let data_end: u32 = DATA_START + (data_len as u32);

        // Data pages and bytes.
        let ghost pt_fresh = page_table;
        if data_len > 0 {
            match page_table.ensure_pages(
                DATA_START / 4096,
                (data_end - 1) / 4096,
                ProtectionLevel::ReadWrite,
            ) {
                Ok(_) => {}
                Err(e) => {
                    proof {
                        assert(false);
                    }
                    return Err(e);
                }
            }
            let ghost pt_ens = page_table;
            proof {
                lemma_rw_after_ensure(
                    pt_fresh,
                    pt_ens,
                    DATA_START / 4096,
                    (((data_end - 1) as u32) / 4096) as u32,
                );
                assert forall|p: u32| (DATA_START as int) / 4096 <= p < (DATA_START as int) / 4096
                    + span_count(DATA_START, raw@.len()) implies #[trigger] page_table.spec_find(
                    p,
                ) is Some && prot_writable(page_table.page_prot(p)) by {
                    assert((DATA_START + raw@.len() - 1) as int / 4096 == (data_end - 1) as int
                        / 4096);
                }
                lemma_check_pages_none(
                    page_table,
                    (DATA_START as int) / 4096,
                    span_count(DATA_START, raw@.len()),
                    true,
                );
            }
            match page_table.write_bytes(Address::new(DATA_START), raw.as_slice()) {
                Ok(_) => {}
                Err(e) => {
                    proof {
                        assert(false);
                    }
                    return Err(e);
                }
            }
            proof {
                lemma_rw_kept(pt_ens, page_table);
                assert forall|pn: u32| #[trigger] page_table.has_page(pn) implies pn >= DATA_START
                    / 4096 by {
                    if !(DATA_START / 4096 <= pn <= (data_end - 1) / 4096) {
                        assert(pt_ens.spec_find(pn) == pt_fresh.spec_find(pn));
                        assert(page_table.has_page(pn) == pt_ens.has_page(pn));
                        assert(!pt_fresh.has_page(pn));
                    }
                }
            }
        }
        proof {
            assert(rw_region_ok(page_table) && writable_is_rw(page_table));
            assert(forall|pn: u32| #[trigger] page_table.has_page(pn) ==> pn >= DATA_START / 4096);
        }
        let ghost pt_after_data = page_table;

        // Text label pass: each labelled block gets the cursor address.
        let mut cursor: u32 = TEXT_START;
        let mut k: usize = 0;
        while k < text_section.blocks.len()
            invariant
                program.text_section.blocks@.len() > 0,
                blks == text_section.blocks@,
                blks == program.text_section.blocks@,
                datas == program.data_section.initialized@,
                k <= blks.len(),
                cursor == TEXT_START + 4 * crate::program::flat_instructions(blks.take(k as int)).len(),
                cursor <= TEXT_LIMIT,
                labels.wf(),
                forall|name: Seq<char>|
                    labels.spec_get(name) == (match block_label_lookup(blks.take(k as int), name) {
                        Some(a) => Some(a),
                        None => data_label_lookup(datas, name),
                    }),
            decreases blks.len() - k,
        {
            let ghost pre_labels = labels;
            proof {
                assert(blks.take(k + 1).drop_last() =~= blks.take(k as int));
            }
            let block = &text_section.blocks[k];
            if !block.label.as_str().is_empty() {
                labels.insert(block.label.clone(), Address::new(cursor));
            }
            proof {
                assert forall|name: Seq<char>| true implies labels.spec_get(name) == (
                match block_label_lookup(blks.take(k + 1), name) {
                    Some(a) => Some(a),
                    None => data_label_lookup(datas, name),
                }) by {
                    if blks[k as int].label@.len() > 0 && name == blks[k as int].label@ {
                    } else {
                        assert(labels.spec_get(name) == pre_labels.spec_get(name));
                    }
                }
            }
            if block.instructions.len() > ((TEXT_LIMIT - cursor) as usize) / 4 {
                proof {
                    assert(4 * block.instructions@.len() > TEXT_LIMIT - cursor) by (
                    nonlinear_arith)
                        requires
                            block.instructions@.len() > ((TEXT_LIMIT - cursor) as usize) / 4,
                            cursor <= TEXT_LIMIT,
                    ;
                    assert(crate::program::flat_instructions(blks.take(k + 1)).len()
                        == crate::program::flat_instructions(blks.take(k as int)).len() + blks[
                        k as int
                    ].instructions@.len());
                    lemma_flat_instr_prefix(blks, k + 1);
                    assert(TEXT_START + 4 * crate::program::flat_instructions(blks).len()
                        > TEXT_LIMIT);
                    assert(load_fails(program, mmio@));
                }
                return Err(MemoryError::InvalidData);
            }
            cursor = cursor + 4 * (block.instructions.len() as u32);
            proof {
                assert(crate::program::flat_instructions(blks.take(k + 1)).len()
                    == crate::program::flat_instructions(blks.take(k as int)).len() + blks[
                    k as int
                ].instructions@.len());
            }
            k = k + 1;
        }
        proof {
            assert(blks.take(blks.len() as int) =~= blks);
            assert forall|name: Seq<char>| true implies labels.spec_get(name) == label_lookup(
                prog,
                name,
            ) by {}
        }

        // Instruction stream and branch resolution.
        let mut instrs = text_section.instructions_move();
        let n = instrs.len();
        let ghost flat = crate::program::flat_instructions(blks);
        let text_end: u32 = TEXT_START + 4 * (n as u32);
        let mut k: usize = 0;
        while k < n
            invariant
                program.text_section.blocks@.len() > 0,
                prog == program,
                flat == crate::program::flat_instructions(program.text_section.blocks@),
                n == flat.len(),
                instrs@.len() == n,
                TEXT_START + 4 * n <= TEXT_LIMIT,
                k <= n,
                labels.wf(),
                forall|name: Seq<char>|
                    labels.spec_get(name) == label_lookup(prog, name),
                forall|j: int| k <= j < n ==> instrs@[j] == flat[j],
                forall|j: int|
                    0 <= j < k ==> (#[trigger] instrs@[j]).kind == flat[j].kind && instrs@[j].args@
                        == resolved_args(
                        flat[j].kind,
                        flat[j].args@,
                        (TEXT_START + 4 * j + 4) as u32,
                        prog,
                    ),
            decreases n - k,
        {
            let is_br = matches!(
                instrs[k].kind,
                crate::program::InstructionKind::Beq
                | crate::program::InstructionKind::Bne
                | crate::program::InstructionKind::Blez
                | crate::program::InstructionKind::Bgtz
            );
            let n_args = instrs[k].args.len();
            if is_br && n_args > 0 {
                let last = n_args - 1;
                let target: Option<u32> = match &instrs[k].args[last] {
                    crate::program::InstructionArg::Label(l) => {
                        match labels.get(l.as_str()) {
                            Some(a) => Some(a.unwrap()),
                            None => {
                                proof {
                                    assert(is_branch(flat[k as int].kind));
                                    assert(flat[k as int].args@.last() is Label);
                                    assert(branch_unresolvable(
                                        flat[k as int],
                                        (TEXT_START + 4 * k + 4) as u32,
                                        program,
                                    ));
                                    assert(load_fails(program, mmio@));
                                }
                                return Err(MemoryError::InvalidLabel);
                            }
                        }
                    }
                    _ => None,
                };
                match target {
                    Some(t) => {
                        let pc_next: u32 = TEXT_START + 4 * (k as u32) + 4;
                        let d: u32 = (((t as u64) + 0x1_0000_0000 - (pc_next as u64))
                            % 0x1_0000_0000) as u32;
                        if !(d <= 0x7FFF || d >= 0xFFFF_8000) {
                            proof {
                                assert(is_branch(flat[k as int].kind));
                                assert(flat[k as int].args@.last() is Label);
                                assert(label_lookup(
                                    program,
                                    flat[k as int].args@.last()->Label_0@,
                                ) matches Some(tt) && tt.0 == t);
                                assert(d == branch_disp(t, pc_next));
                                assert(branch_unresolvable(
                                    flat[k as int],
                                    (TEXT_START + 4 * k + 4) as u32,
                                    program,
                                ));
                                assert(load_fails(program, mmio@));
                            }
                            return Err(MemoryError::InvalidInstruction);
                        }
                        instrs[k].args[last] = crate::program::InstructionArg::Immediate(
                            (d % 0x1_0000) as u16,
                        );
                        proof {
                            assert(instrs@[k as int].args@ == resolved_args(
                                flat[k as int].kind,
                                flat[k as int].args@,
                                (TEXT_START + 4 * k + 4) as u32,
                                prog,
                            ));
                        }
                    }
                    None => {
                        proof {
                            assert(instrs@[k as int].args@ == resolved_args(
                                flat[k as int].kind,
                                flat[k as int].args@,
                                (TEXT_START + 4 * k + 4) as u32,
                                prog,
                            ));
                        }
                    }
                }
            } else {
                proof {
                    assert(instrs@[k as int].args@ == resolved_args(
                        flat[k as int].kind,
                        flat[k as int].args@,
                        (TEXT_START + 4 * k + 4) as u32,
                        prog,
                    ));
                }
            }
            k = k + 1;
        }

        // Assemble and place the text bytes, then promote the pages.
        let encoded = match crate::assembler::assemble_all(&instrs, &labels) {
            Ok(v) => v,
            Err(e) => {
                proof {
                    let kk = choose|kk: int|
                        0 <= kk < instrs@.len() && crate::assembler::spec_encode(
                            #[trigger] instrs@[kk],
                            labels,
                        ) == Err::<u32, MemoryError>(e);
                    assert(lm_matches(labels, program));
                    assert(instrs@[kk].kind == flat[kk].kind && instrs@[kk].args@ == resolved_args(
                        flat[kk].kind,
                        flat[kk].args@,
                        (TEXT_START + 4 * kk + 4) as u32,
                        program,
                    ));
                    assert(load_fails(program, mmio@));
                }
                return Err(e);
            }
        };
        match place_text_bytes(&mut page_table, &encoded, Ghost(raw@)) {
            Ok(_) => {}
            Err(e) => {
                proof {
                    assert(false);
                }
                return Err(e);
            }
        }
        match ensure_runtime_pages(&mut page_table, data_end, Ghost(raw@), Ghost(encoded@)) {
            Ok(_) => {}
            Err(e) => {
                proof {
                    assert(false);
                }
                return Err(e);
            }
        }
        let extra = match map_extra_segments(&mut page_table, mmio, Ghost(raw@), Ghost(encoded@)) {
            Ok(v) => v,
            Err(e) => {
                proof {
                    assert(load_fails(program, mmio_snapshot));
                }
                return Err(e);
            }
        };
        let mem = Memory {
            page_table,
            labels,
            text_seg: MemorySegment {
                name: String::from_str(".text"),
                start_address: Address::new(TEXT_START),
                end_address: Address::new(text_end),
            },
            data_seg: if has_data {
                Some(
                    MemorySegment {
                        name: String::from_str(".data"),
                        start_address: Address::new(DATA_START),
                        end_address: Address::new(data_end),
                    },
                )
            } else {
                None
            },
            heap_seg: MemorySegment {
                name: String::from_str(".heap"),
                start_address: Address::new(data_end),
                end_address: Address::new(data_end),
            },
            stack_seg: MemorySegment {
                name: String::from_str(".stack"),
                start_address: Address::new(STACK_TOP),
                end_address: Address::new(STACK_TOP),
            },
            extra_segs: extra,
            text_instructions: instrs,
        };
        proof {
            let datas2 = program.data_section.initialized@;
            let flat2 = crate::program::flat_instructions(program.text_section.blocks@);
            assert(mem.table() == page_table && mem.label_map() == labels);
            assert(raw@ == flat_data(datas2));
            assert(flat2.len() == n);
            assert(mem.wf());
            assert forall|j: int| 0 <= j < flat_data(datas2).len() implies mem.byte_at(
                #[trigger] ((DATA_START + j) as u32),
            ) == flat_data(datas2)[j] by {
                assert(page_table.byte_at((DATA_START + j) as u32) == raw@[j]);
            }
            assert forall|kk: int| 0 <= kk < flat2.len() implies (crate::assembler::spec_encode(
                #[trigger] mem.instrs()[kk],
                mem.label_map(),
            ) matches Ok(w) && le32(
                mem.byte_at((TEXT_START + 4 * kk) as u32),
                mem.byte_at((TEXT_START + 4 * kk + 1) as u32),
                mem.byte_at((TEXT_START + 4 * kk + 2) as u32),
                mem.byte_at((TEXT_START + 4 * kk + 3) as u32),
            ) == w) by {
                assert(crate::assembler::spec_encode(instrs@[kk], labels) == Ok::<
                    u32,
                    MemoryError,
                >(encoded@[kk]));
                assert(le32(
                    page_table.byte_at((TEXT_START + 4 * kk) as u32),
                    page_table.byte_at((TEXT_START + 4 * kk + 1) as u32),
                    page_table.byte_at((TEXT_START + 4 * kk + 2) as u32),
                    page_table.byte_at((TEXT_START + 4 * kk + 3) as u32),
                ) == encoded@[kk]);
            }
        }
        Ok(mem)
    }
}

/// An access that passes the checks lies wholly inside the segment its
/// address falls in: no load or store reads or writes bytes outside its
/// segment range.
pub proof fn lemma_access_within_segment(m: Memory, a: u32, size: nat, w: bool)
    requires
        m.access_check(a, size, w) == Ok::<(), MemoryError>(()),
    ensures
        m.find_seg(a) matches Some(seg) && seg.start_address.0 <= a && a + size
            <= seg.end_address.0,
{
    lemma_seg_holds(m, a);
}

/// A fresh heap block accepts stores and loads: a range inside the heap
/// segment whose pages are read-write — as `heap_allocate` leaves the
/// allocated range — passes both access checks, so a store through the
/// returned break cannot fault.
pub proof fn lemma_heap_range_writable(m: Memory, a: u32, k: nat)
    requires
        m.wf(),
        k > 0,
        m.spec_heap().start_address.0 <= a,
        a + k <= m.spec_heap().end_address.0,
        forall|pn: u32|
            a / 4096 <= pn <= (a + k - 1) / 4096 ==> m.table().has_page(pn) && m.table().page_prot(
                pn,
            ) == ProtectionLevel::ReadWrite,
    ensures
        m.access_check(a, k, true) == Ok::<(), MemoryError>(()),
        m.access_check(a, k, false) == Ok::<(), MemoryError>(()),
{
    let segs = m.segments();
    let rest = seq![m.spec_text(), m.spec_heap(), m.spec_stack()] + m.spec_extras();
    match m.spec_data() {
        Some(d) => {
            assert(segs.first() == d);
            assert(!seg_contains(d, a));
            assert(segs.drop_first() =~= rest);
        }
        None => {
            assert(segs =~= rest);
        }
    }
    assert(first_seg(segs, a) == first_seg(rest, a));
    assert(rest.first() == m.spec_text());
    assert(!seg_contains(m.spec_text(), a));
    let rest2 = seq![m.spec_heap(), m.spec_stack()] + m.spec_extras();
    assert(rest.drop_first() =~= rest2);
    assert(first_seg(rest, a) == first_seg(rest2, a));
    assert(rest2.first() == m.spec_heap());
    assert(seg_contains(m.spec_heap(), a));
    assert(first_seg(rest2, a) == Some(m.spec_heap()));
    assert(m.find_seg(a) == Some(m.spec_heap()));
    assert forall|p: u32| a as int / 4096 <= p < a as int / 4096 + span_count(a, k) implies
        #[trigger] m.table().spec_find(p) is Some && prot_writable(m.table().page_prot(p))
        && prot_readable(m.table().page_prot(p)) by {
        assert(p <= (a + k - 1) / 4096);
        assert(m.table().page_prot(p) == ProtectionLevel::ReadWrite);
    }
    lemma_check_pages_none(m.table(), a as int / 4096, span_count(a, k), true);
    lemma_check_pages_none(m.table(), a as int / 4096, span_count(a, k), false);
}

/// Text is never written: in a well-formed memory whose text pages are
/// read-execute — as a load leaves them and every step keeps them — a
/// write of at least one byte starting in the text segment fails with a
/// protection fault.
pub proof fn lemma_text_write_faults(m: Memory, a: u32, k: nat)
    requires
        m.wf(),
        k > 0,
        seg_contains(m.spec_text(), a),
        m.table().has_page(a / 4096),
        m.table().page_prot(a / 4096) == ProtectionLevel::ReadExecute,
    ensures
        m.access_check(a, k, true) != Ok::<(), MemoryError>(()),
{
    let segs = m.segments();
    let rest = seq![m.spec_text(), m.spec_heap(), m.spec_stack()] + m.spec_extras();
    match m.spec_data() {
        Some(d) => {
            assert(segs.first() == d);
            assert(!seg_contains(d, a));
            assert(segs.drop_first() =~= rest);
        }
        None => {
            assert(segs =~= rest);
        }
    }
    assert(first_seg(segs, a) == first_seg(rest, a));
    assert(rest.first() == m.spec_text());
    assert(first_seg(rest, a) == Some(m.spec_text()));
    assert(m.find_seg(a) == Some(m.spec_text()));
    if a + k <= m.spec_text().end_address.0 {
        assert(check_pages(m.table(), a as int / 4096, span_count(a, k), true) == Some(
            MemoryError::ProtectionFault,
        ));
    }
}

/// The heap never reaches past the stack start in a well-formed memory;
/// allocations and pushes that would cross fail cleanly and change nothing.
pub proof fn lemma_heap_below_stack(m: Memory)
    requires
        m.wf(),
    ensures
        m.spec_heap().end_address.0 <= m.spec_stack().start_address.0,
{
}

/// A word decomposed into its four little-endian bytes and reassembled is
/// itself: a word stored with `sw` is the word `lw` reads back.
#[verifier::rlimit(100)]
pub proof fn lemma_le32_round_trip(w: u32)
    ensures
        le32(
            (w % 0x100) as u8,
            ((w / 0x100) % 0x100) as u8,
            ((w / 0x1_0000) % 0x100) as u8,
            (w / 0x100_0000) as u8,
        ) == w,
{
}

proof fn lemma_flat_data_index(data: Seq<crate::program::StaticData>, i: int, k: int)
    requires
        0 <= i < data.len(),
        0 <= k < data[i].data@.len(),
    ensures
        flat_data(data.take(i)).len() + k < flat_data(data).len(),
        flat_data(data)[flat_data(data.take(i)).len() + k] == data[i].data@[k],
    decreases data.len(),
{
    if i == data.len() - 1 {
        assert(data.drop_last() =~= data.take(i));
    } else {
        lemma_flat_data_index(data.drop_last(), i, k);
        assert(data.drop_last().take(i) =~= data.take(i));
    }
}

proof fn lemma_data_label_lookup_at(data: Seq<crate::program::StaticData>, name: Seq<char>)
    requires
        data_label_lookup(data, name) is Some,
    ensures
        exists|i: int|
            0 <= i < data.len() && #[trigger] data[i].label@ == name && data_label_lookup(
                data,
                name,
            ) == Some(Address((DATA_START + flat_data(data.take(i)).len()) as u32)),
    decreases data.len(),
{
    if data.last().label@ == name {
        assert(data.take(data.len() - 1) =~= data.drop_last());
        assert(data[data.len() - 1].label@ == name);
    } else {
        lemma_data_label_lookup_at(data.drop_last(), name);
        let i = choose|i: int|
            0 <= i < data.drop_last().len() && #[trigger] data.drop_last()[i].label@ == name
                && data_label_lookup(data.drop_last(), name) == Some(
                Address((DATA_START + flat_data(data.drop_last().take(i)).len()) as u32),
            );
        assert(data.drop_last().take(i) =~= data.take(i));
        assert(data[i].label@ == name);
    }
}

/// Label resolution: in a loaded memory, a data label that no text label
/// shadows resolves to the address its datum was laid at, and the bytes at
/// that address are the datum's bytes — so `la r, L` followed by loads
/// through `r` reads the datum itself.
pub proof fn lemma_label_resolution(
    m: Memory,
    p: crate::program::Program,
    name: Seq<char>,
    k: int,
)
    requires
        forall|n2: Seq<char>| m.label_map().spec_get(n2) == label_lookup(p, n2),
        forall|j: int|
            0 <= j < flat_data(p.data_section.initialized@).len() ==> m.byte_at(
                #[trigger] ((DATA_START + j) as u32),
            ) == flat_data(p.data_section.initialized@)[j],
        flat_data(p.data_section.initialized@).len() + DATA_START <= STACK_TOP,
        block_label_lookup(p.text_section.blocks@, name) is None,
        data_label_lookup(p.data_section.initialized@, name) is Some,
    ensures
        exists|i: int|
            {
                &&& 0 <= i < p.data_section.initialized@.len()
                &&& (#[trigger] p.data_section.initialized@[i].label@) == name
                &&& m.label_map().spec_get(name) == Some(
                    Address(
                        (DATA_START + flat_data(p.data_section.initialized@.take(i)).len()) as u32,
                    ),
                )
                &&& (0 <= k < p.data_section.initialized@[i].data@.len() ==> m.byte_at(
                    ((DATA_START + flat_data(p.data_section.initialized@.take(i)).len()
                        + k) as u32),
                ) == p.data_section.initialized@[i].data@[k])
            },
{
    let datas = p.data_section.initialized@;
    lemma_data_label_lookup_at(datas, name);
    let i = choose|i: int|
        0 <= i < datas.len() && #[trigger] datas[i].label@ == name && data_label_lookup(
            datas,
            name,
        ) == Some(Address((DATA_START + flat_data(datas.take(i)).len()) as u32));
    assert(m.label_map().spec_get(name) == label_lookup(p, name));
    if 0 <= k < datas[i].data@.len() {
        lemma_flat_data_index(datas, i, k);
        assert(m.byte_at(((DATA_START + (flat_data(datas.take(i)).len() + k)) as u32))
            == flat_data(datas)[flat_data(datas.take(i)).len() + k]);
    }
    assert(datas[i].label@ == name && m.label_map().spec_get(name) == Some(
        Address((DATA_START + flat_data(datas.take(i)).len()) as u32),
    ) && (0 <= k < datas[i].data@.len() ==> m.byte_at(
        ((DATA_START + flat_data(datas.take(i)).len() + k) as u32),
    ) == datas[i].data@[k]));
}

/// The length of a raw snapshot: up to the end of the highest allocated
/// page, or empty with no pages.
pub open spec fn raw_dump_len(pt: PageTable) -> int {
    if pt.entries().len() == 0 {
        0
    } else {
        (pt.entries().last().number + 1) * 4096
    }
}

/// Whether the bytes of a page from `off` for one shard are all zero.
pub open spec fn zero_shard(data: Seq<u8>, off: int, end: int) -> bool {
    forall|t: int| off <= t < end && t < data.len() ==> data[t] == 0
}

/// The non-zero shards of a page's bytes from offset `off` on,
/// concatenated in order; all-zero shards are omitted.
pub open spec fn nz_shards(data: Seq<u8>, ss: int, off: int) -> Seq<u8>
    decreases (if off >= data.len() || ss < 1 || off < 0 {
        0int
    } else {
        data.len() - off
    }),
{
    if ss < 1 || off < 0 || off >= data.len() {
        Seq::empty()
    } else if off + ss <= data.len() {
        (if zero_shard(data, off, off + ss) {
            Seq::empty()
        } else {
            data.subrange(off, off + ss)
        }) + nz_shards(data, ss, off + ss)
    } else {
        if zero_shard(data, off, data.len() as int) {
            Seq::empty()
        } else {
            data.subrange(off, data.len() as int)
        }
    }
}

/// The compressed snapshot of the pages of an entry list: each page's
/// non-zero shards, pages in ascending order.
pub open spec fn comp_dump(entries: Seq<PageEntry>, ss: int) -> Seq<u8>
    decreases entries.len(),
{
    if entries.len() == 0 {
        Seq::empty()
    } else {
        comp_dump(entries.drop_last(), ss) + nz_shards(entries.last().page.data@, ss, 0)
    }
}

proof fn lemma_find_entry_index(s: Seq<PageEntry>, n: u32)
    requires
        find_page(s, n) is Some,
    ensures
        exists|e: int|
            0 <= e < s.len() && (#[trigger] s[e]).number == n && s[e].page == find_page(
                s,
                n,
            ).unwrap(),
    decreases s.len(),
{
    if s.last().number == n {
        assert(s[s.len() - 1].number == n);
    } else {
        lemma_find_entry_index(s.drop_last(), n);
        let e = choose|e: int|
            0 <= e < s.drop_last().len() && (#[trigger] s.drop_last()[e]).number == n && s
                .drop_last()[e].page == find_page(s.drop_last(), n).unwrap();
        assert(s[e] == s.drop_last()[e]);
    }
}

impl Memory {
    /// The memory snapshot for debugging: the allocated pages in ascending
    /// page-number order, split into shards of `shard_size` bytes.
    /// Uncompressed, every page stands at its absolute address offset and
    /// the gaps are zero-filled; compressed, the all-zero shards are left
    /// out and the remaining shards are concatenated in order.
    pub fn dump(&self, compress: bool, shard_size: usize) -> (r: Vec<u8>)
        requires
            self.wf(),
            4 <= shard_size <= 4096,
            4096 as int % shard_size as int == 0,
            self.table().entries().len() == 0 || self.table().entries().last().number
                < 0x10_0000,
        ensures
            !compress ==> r@.len() == raw_dump_len(self.table()),
            !compress ==> forall|x: u32|
                x < r@.len() && self.table().has_page(x / 4096) ==> r@[x as int] == self.byte_at(
                    x,
                ),
            !compress ==> forall|i: int|
                0 <= i < r@.len() && !self.table().has_page(#[trigger] ((i / 4096) as u32)) ==> r@[
                    i
                ] == 0,
            compress ==> r@ == comp_dump(self.table().entries(), shard_size as int),
            compress ==> r@.len() as int % (shard_size as int) == 0,
    {
        let ghost entries = self.table().entries();
        let n_entries = self.page_table.pages.len();
        let mut buf: Vec<u8> = Vec::new();
        if compress {
            let mut i: usize = 0;
            while i < n_entries
                invariant
                    self.wf(),
                    entries == self.table().entries(),
                    i <= n_entries,
                    n_entries == entries.len(),
                    4 <= shard_size <= 4096,
                    4096 as int % shard_size as int == 0,
                    buf@ == comp_dump(entries.take(i as int), shard_size as int),
                    buf@.len() as int % (shard_size as int) == 0,
                decreases n_entries - i,
            {
                let ghost data = entries[i as int].page.data@;
                let mut off: usize = 0;
                while off < 4096
                    invariant
                        self.wf(),
                        entries == self.table().entries(),
                        i < n_entries,
                        n_entries == entries.len(),
                        4 <= shard_size <= 4096,
                        4096 as int % shard_size as int == 0,
                        off as int % (shard_size as int) == 0,
                        off <= 4096,
                        data == entries[i as int].page.data@,
                        data.len() == 4096,
                        buf@ + nz_shards(data, shard_size as int, off as int) == comp_dump(
                            entries.take(i as int),
                            shard_size as int,
                        ) + nz_shards(data, shard_size as int, 0),
                        buf@.len() as int % (shard_size as int) == 0,
                    decreases 4096 - off,
                {
                    proof {
                        assert(off + shard_size <= 4096) by (nonlinear_arith)
                            requires
                                off < 4096,
                                off as int % (shard_size as int) == 0,
                                4096 as int % (shard_size as int) == 0,
                                1 <= shard_size <= 4096,
                        ;
                    }
                    let shard_end = off + shard_size;
                    let mut t: usize = off;
                    let mut all_zero = true;
                    while t < shard_end
                        invariant
                            self.wf(),
                            entries == self.table().entries(),
                            i < entries.len(),
                            data == entries[i as int].page.data@,
                            data.len() == 4096,
                            off <= t <= shard_end <= 4096,
                            all_zero == (forall|q: int| off <= q < t ==> data[q] == 0),
                            !all_zero ==> t == shard_end,
                        decreases shard_end - t,
                    {
                        if self.page_table.pages[i].page.data[t] != 0 {
                            all_zero = false;
                            proof {
                                assert(data[t as int] != 0);
                            }
                            t = shard_end;
                        } else {
                            proof {
                                assert(data[t as int] == 0);
                                assert(forall|q: int| off <= q < t + 1 ==> data[q] == 0);
                            }
                            t = t + 1;
                        }
                    }
                    let ghost pre_buf = buf@;
                    if !all_zero {
                        let mut u: usize = off;
                        while u < shard_end
                            invariant
                                self.wf(),
                                entries == self.table().entries(),
                                i < entries.len(),
                                data == entries[i as int].page.data@,
                                data.len() == 4096,
                                off <= u <= shard_end <= 4096,
                                buf@ == pre_buf + data.subrange(off as int, u as int),
                            decreases shard_end - u,
                        {
                            buf.push(self.page_table.pages[i].page.data[u]);
                            proof {
                                assert(buf@ =~= pre_buf + data.subrange(off as int, u + 1));
                            }
                            u = u + 1;
                        }
                    }
                    proof {
                        assert(all_zero == zero_shard(data, off as int, off as int
                            + shard_size as int));
                        assert(nz_shards(data, shard_size as int, off as int) == (if zero_shard(
                            data,
                            off as int,
                            off as int + shard_size as int,
                        ) {
                            Seq::<u8>::empty()
                        } else {
                            data.subrange(off as int, off as int + shard_size as int)
                        }) + nz_shards(data, shard_size as int, off as int + shard_size as int));
                        if all_zero {
                            assert(buf@ + nz_shards(data, shard_size as int, (off + shard_size) as int)
                                =~= pre_buf + nz_shards(data, shard_size as int, off as int));
                        } else {
                            assert(buf@ + nz_shards(data, shard_size as int, (off + shard_size) as int)
                                =~= pre_buf + nz_shards(data, shard_size as int, off as int));
                        }
                        assert((off + shard_size) as int % (shard_size as int) == 0) by (nonlinear_arith)
                            requires
                                off as int % (shard_size as int) == 0,
                                shard_size >= 1,
                        ;
                        assert(buf@.len() as int % (shard_size as int) == 0) by (nonlinear_arith)
                            requires
                                pre_buf.len() as int % (shard_size as int) == 0,
                                buf@.len() == pre_buf.len() || buf@.len() == pre_buf.len()
                                    + shard_size,
                                shard_size >= 1,
                        ;
                    }
                    off = off + shard_size;
                }
                proof {
                    assert(nz_shards(data, shard_size as int, 4096) =~= Seq::<u8>::empty());
                    assert(buf@ + Seq::<u8>::empty() =~= buf@);
                    assert(entries.take(i + 1).drop_last() =~= entries.take(i as int));
                    assert(entries.take(i + 1).last() == entries[i as int]);
                    assert(comp_dump(entries.take(i + 1), shard_size as int) == comp_dump(
                        entries.take(i as int),
                        shard_size as int,
                    ) + nz_shards(data, shard_size as int, 0));
                }
                i = i + 1;
            }
            proof {
                assert(entries.take(entries.len() as int) =~= entries);
            }
        } else {
            let mut i: usize = 0;
            while i < n_entries
                invariant
                    self.wf(),
                    entries == self.table().entries(),
                    entries.len() == 0 || entries.last().number < 0x10_0000,
                    i <= n_entries,
                    n_entries == entries.len(),
                    buf@.len() == (if i == 0 {
                        0int
                    } else {
                        (entries[i - 1].number + 1) * 4096
                    }),
                    forall|e: int, off: int|
                        #![trigger entries[e].number * 4096 + off]
                        0 <= e < i && 0 <= off < 4096 ==> buf@[entries[e].number * 4096 + off]
                            == entries[e].page.data@[off],
                    forall|x: int|
                        0 <= x < buf@.len() && (forall|e: int|
                            0 <= e < i ==> (#[trigger] entries[e]).number != x / 4096) ==> buf@[x]
                            == 0,
                decreases n_entries - i,
            {
                let ghost pre_buf = buf@;
                let ghost data = entries[i as int].page.data@;
                let num = self.page_table.pages[i].number;
                proof {
                    assert(entries[i as int] == entries.last() || entries[i as int].number
                        < entries.last().number);
                    assert(num < 0x10_0000);
                }
                let base: usize = (num as usize) * 4096;
                proof {
                    if i > 0 {
                        assert(entries[i - 1].number < num);
                        assert((entries[i - 1].number + 1) * 4096 <= num as int * 4096);
                    }
                }
                while buf.len() < base
                    invariant
                        pre_buf.len() <= buf@.len() <= base,
                        buf@.subrange(0, pre_buf.len() as int) =~= pre_buf,
                        forall|x: int| pre_buf.len() <= x < buf@.len() ==> buf@[x] == 0,
                    decreases base - buf@.len(),
                {
                    buf.push(0);
                }
                let ghost gap_buf = buf@;
                let mut j: usize = 0;
                while j < 4096
                    invariant
                        self.wf(),
                        entries == self.table().entries(),
                        i < entries.len(),
                        num == entries[i as int].number,
                        base == num as int * 4096,
                        data == entries[i as int].page.data@,
                        data.len() == 4096,
                        gap_buf.len() == base,
                        j <= 4096,
                        buf@ == gap_buf + data.take(j as int),
                    decreases 4096 - j,
                {
                    buf.push(self.page_table.pages[i].page.data[j]);
                    proof {
                        assert(buf@ =~= gap_buf + data.take(j + 1));
                    }
                    j = j + 1;
                }
                proof {
                    assert(data.take(4096) =~= data);
                    assert(buf@.len() == (num + 1) * 4096);
                    assert forall|x: int| 0 <= x < pre_buf.len() implies buf@[x] == pre_buf[x] by {
                        assert(gap_buf[x] == gap_buf.subrange(0, pre_buf.len() as int)[x]);
                    }
                    assert forall|e: int, off: int|
                        #![trigger entries[e].number * 4096 + off]
                        0 <= e < i + 1 && 0 <= off < 4096 implies buf@[entries[e].number * 4096
                        + off] == entries[e].page.data@[off] by {
                        if e == i {
                            assert(buf@[base + off] == data[off]);
                        } else {
                            let idx = entries[e].number * 4096 + off;
                            assert(entries[e].number < entries[i - 1].number || entries[e].number
                                == entries[i - 1].number);
                            assert((entries[e].number + 1) * 4096 <= pre_buf.len());
                            assert(idx < pre_buf.len());
                            assert(buf@[idx] == pre_buf[idx]);
                        }
                    }
                    assert forall|x: int| 0 <= x < buf@.len() && (forall|e: int|
                        0 <= e < i + 1 ==> (#[trigger] entries[e]).number != x / 4096) implies
                        buf@[x] == 0 by {
                        if x < pre_buf.len() {
                            assert(buf@[x] == pre_buf[x]);
                        } else if x < base {
                            assert(buf@[x] == gap_buf[x]);
                        } else {
                            assert(x / 4096 == num as int) by (nonlinear_arith)
                                requires
                                    num as int * 4096 <= x < (num + 1) * 4096,
                            ;
                            assert(entries[i as int].number == x / 4096);
                            assert(false);
                        }
                    }
                }
                i = i + 1;
            }
            proof {
                if entries.len() > 0 {
                    assert(entries[entries.len() - 1] == entries.last());
                }
                assert(buf@.len() == raw_dump_len(self.table()));
                assert forall|ii: int| 0 <= ii < buf@.len() && !self.table().has_page(
                    #[trigger] ((ii / 4096) as u32),
                ) implies buf@[ii] == 0 by {
                    assert(entries.len() > 0);
                    assert(ii / 4096 <= entries.last().number) by (nonlinear_arith)
                        requires
                            0 <= ii < (entries.last().number + 1) * 4096,
                    ;
                    assert forall|e: int| 0 <= e < entries.len() implies (#[trigger] entries[
                        e
                    ]).number != ii / 4096 by {
                        if entries[e].number == ii / 4096 {
                            lemma_find_at(entries, e);
                            assert(self.table().has_page((ii / 4096) as u32));
                        }
                    }
                }
                assert forall|x: u32| x < buf@.len() && self.table().has_page(x / 4096) implies
                    buf@[x as int] == self.byte_at(x) by {
                    lemma_find_entry_index(entries, x / 4096);
                    let e = choose|e: int|
                        0 <= e < entries.len() && (#[trigger] entries[e]).number == x / 4096
                            && entries[e].page == find_page(entries, x / 4096).unwrap();
                    lemma_fundamental_div_mod(x as int, 4096);
                    assert(x as int == (x / 4096) * 4096 + (x as int % 4096));
                    assert(buf@[entries[e].number * 4096 + (x as int % 4096)] == entries[e].page
                        .data@[x as int % 4096]);
                }
            }
        }
        buf
    }
}

} // verus!
