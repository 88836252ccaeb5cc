//! 32-bit-addressed, page-based memory arena for destructor-free records.
//!
//! The arena is a bump allocator over 1 MiB pages. An [`Addr`] packs a 12-bit
//! page identifier and a 20-bit in-page offset into one `u32`, so the arena
//! holds at most 4096 pages (4 GiB). Allocation only ever advances a page
//! cursor; nothing is reclaimed until the whole arena is dropped. Records are
//! stored byte for byte, unaligned, through the [`ArenaStorable`] capability.

use vstd::prelude::*;
use vstd::bytes::*;

verus! {

/// Number of low bits of an address that hold the in-page offset.
pub const NUM_BITS_PAGE_ADDR: usize = 20;

/// Size of one arena page: 1 MiB, two to the power of
/// [`NUM_BITS_PAGE_ADDR`].
pub const PAGE_SIZE: usize = 0x100000;

/// Largest number of pages an arena can hold: page identifiers are 12 bits.
pub const MAX_NUM_PAGES: usize = 4096;

/// A handle into the [`MemoryArena`]: the high 12 bits identify a page, the
/// low 20 bits an offset within that page. The all-ones value is the null
/// handle and is never returned by an allocation.
#[derive(Copy, Clone, Debug)]
pub struct Addr(u32);

impl Addr {
    /// The page this handle points into.
    pub closed spec fn spec_page_id(self) -> nat {
        (self.0 >> 20) as nat
    }

    /// The byte offset of this handle within its page.
    pub closed spec fn spec_local(self) -> nat {
        (self.0 & 0xfffff) as nat
    }

    /// Whether this handle is the reserved null value.
    pub closed spec fn spec_is_null(self) -> bool {
        self.0 == u32::MAX
    }

    /// Creates the null handle.
    pub fn null_pointer() -> (r: Self)
        ensures
            r.spec_is_null(),
    {
        Addr(u32::MAX)
    }

    /// Returns the handle for `self + offset`, for reaching a field inside a
    /// record without a further allocation. Offsetting within the same page
    /// moves the in-page offset and keeps the page.
    pub fn offset(self, offset: u32) -> (r: Self)
        ensures
            self.spec_local() + offset < PAGE_SIZE ==> {
                &&& r.spec_page_id() == self.spec_page_id()
                &&& r.spec_local() == self.spec_local() + offset
            },
    {
        let r = Addr(self.0.wrapping_add(offset));
        proof {
            let a = self.0;
            let o = offset;
            assert((a & 0xfffff) + o < 0x100000 ==> a + o <= u32::MAX) by (bit_vector);
            assert((a & 0xfffff) + o < 0x100000 ==> (((a + o) as u32) >> 20 == a >> 20 && ((a
                + o) as u32) & 0xfffff == (a & 0xfffff) + o)) by (bit_vector);
        }
        r
    }

    /// Packs a page identifier and an in-page offset into a handle. The
    /// handle is null exactly for the last byte of the last possible page.
    fn new(page_id: usize, local_addr: usize) -> (r: Self)
        requires
            page_id < MAX_NUM_PAGES,
            local_addr < PAGE_SIZE,
        ensures
            r.spec_page_id() == page_id,
            r.spec_local() == local_addr,
            r.spec_is_null() <==> (page_id == MAX_NUM_PAGES - 1 && local_addr == PAGE_SIZE - 1),
    {
        let r = Addr(((page_id << NUM_BITS_PAGE_ADDR) | local_addr) as u32);
        proof {
            let p = page_id;
            let l = local_addr;
            assert(p < 4096 && l < 0x100000 ==> {
                &&& ((p << 20) | l) as u32 >> 20 == p
                &&& ((p << 20) | l) as u32 & 0xfffff == l
                &&& (((p << 20) | l) as u32 == 0xffffffffu32 <==> (p == 4095 && l == 0xfffff))
            }) by (bit_vector);
        }
        r
    }

    /// The page this handle points into.
    fn page_id(self) -> (r: usize)
        ensures
            r == self.spec_page_id(),
    {
        proof {
            let a = self.0;
            assert(a >> 20 < 0x1000) by (bit_vector);
        }
        (self.0 >> 20) as usize
    }

    /// The byte offset of this handle within its page.
    fn page_local_addr(self) -> (r: usize)
        ensures
            r == self.spec_local(),
    {
        proof {
            let a = self.0;
            assert(a & 0xfffff < 0x100000) by (bit_vector);
        }
        (self.0 & 0xfffff) as usize
    }

    /// Returns true if and only if the handle is null.
    pub fn is_null(self) -> (r: bool)
        ensures
            r == self.spec_is_null(),
    {
        self.0 == u32::MAX
    }
}

/// Capability for the `Copy`, destructor-free records the arena stores: a
/// value is laid down as a fixed number of bytes and read back from them.
pub trait ArenaStorable: Sized {
    /// The exact bytes this value occupies in the arena.
    spec fn arena_bytes(self) -> Seq<u8>;

    /// The fixed byte size of every value of the type.
    spec fn spec_size() -> nat;

    /// Every value occupies exactly the declared number of bytes.
    proof fn lemma_bytes_len(self)
        ensures
            self.arena_bytes().len() == Self::spec_size(),
    ;

    /// Two values laid down as the same bytes are the same value.
    proof fn lemma_bytes_injective(a: Self, b: Self)
        ensures
            a.arena_bytes() == b.arena_bytes() ==> a == b,
    ;

    /// The fixed byte size of every value of the type.
    fn num_bytes() -> (n: usize)
        requires
            Self::spec_size() <= usize::MAX,
        ensures
            n == Self::spec_size(),
    ;

    /// This value's bytes.
    fn to_bytes(self) -> (v: Vec<u8>)
        ensures
            v@ == self.arena_bytes(),
    ;

    /// The value the given bytes hold.
    fn from_bytes(data: &[u8]) -> (r: Self)
        requires
            data@.len() == Self::spec_size(),
        ensures
            r.arena_bytes() == data@,
    ;
}

impl ArenaStorable for u8 {
    open spec fn arena_bytes(self) -> Seq<u8> {
        seq![self]
    }

    open spec fn spec_size() -> nat {
        1
    }

    proof fn lemma_bytes_len(self) {
    }

    proof fn lemma_bytes_injective(a: Self, b: Self) {
        if a.arena_bytes() == b.arena_bytes() {
            assert(a.arena_bytes()[0] == b.arena_bytes()[0]);
        }
    }

    fn num_bytes() -> usize {
        1
    }

    fn to_bytes(self) -> (v: Vec<u8>) {
        let mut v = Vec::new();
        v.push(self);
        proof {
            assert(v@ =~= self.arena_bytes());
        }
        v
    }

    fn from_bytes(data: &[u8]) -> (r: Self) {
        let r = data[0];
        proof {
            assert(r.arena_bytes() =~= data@);
        }
        r
    }
}

impl ArenaStorable for u16 {
    open spec fn arena_bytes(self) -> Seq<u8> {
        spec_u16_to_le_bytes(self)
    }

    open spec fn spec_size() -> nat {
        2
    }

    proof fn lemma_bytes_len(self) {
        lemma_auto_spec_u16_to_from_le_bytes();
    }

    proof fn lemma_bytes_injective(a: Self, b: Self) {
        lemma_auto_spec_u16_to_from_le_bytes();
        if a.arena_bytes() == b.arena_bytes() {
            assert(spec_u16_to_le_bytes(a).len() == 2);
            assert(spec_u16_to_le_bytes(b).len() == 2);
            assert(spec_u16_from_le_bytes(spec_u16_to_le_bytes(a)) == a);
            assert(spec_u16_from_le_bytes(spec_u16_to_le_bytes(b)) == b);
        }
    }

    fn num_bytes() -> usize {
        2
    }

    fn to_bytes(self) -> (v: Vec<u8>) {
        u16_to_le_bytes(self)
    }

    fn from_bytes(data: &[u8]) -> (r: Self) {
        proof {
            lemma_auto_spec_u16_to_from_le_bytes();
        }
        u16_from_le_bytes(data)
    }
}

impl ArenaStorable for u32 {
    open spec fn arena_bytes(self) -> Seq<u8> {
        spec_u32_to_le_bytes(self)
    }

    open spec fn spec_size() -> nat {
        4
    }

    proof fn lemma_bytes_len(self) {
        lemma_auto_spec_u32_to_from_le_bytes();
    }

    proof fn lemma_bytes_injective(a: Self, b: Self) {
        lemma_auto_spec_u32_to_from_le_bytes();
        if a.arena_bytes() == b.arena_bytes() {
            assert(spec_u32_to_le_bytes(a).len() == 4);
            assert(spec_u32_to_le_bytes(b).len() == 4);
            assert(spec_u32_from_le_bytes(spec_u32_to_le_bytes(a)) == a);
            assert(spec_u32_from_le_bytes(spec_u32_to_le_bytes(b)) == b);
        }
    }

    fn num_bytes() -> usize {
        4
    }

    fn to_bytes(self) -> (v: Vec<u8>) {
        u32_to_le_bytes(self)
    }

    fn from_bytes(data: &[u8]) -> (r: Self) {
        proof {
            lemma_auto_spec_u32_to_from_le_bytes();
        }
        u32_from_le_bytes(data)
    }
}

impl ArenaStorable for u64 {
    open spec fn arena_bytes(self) -> Seq<u8> {
        spec_u64_to_le_bytes(self)
    }

    open spec fn spec_size() -> nat {
        8
    }

    proof fn lemma_bytes_len(self) {
        lemma_auto_spec_u64_to_from_le_bytes();
    }

    proof fn lemma_bytes_injective(a: Self, b: Self) {
        lemma_auto_spec_u64_to_from_le_bytes();
        if a.arena_bytes() == b.arena_bytes() {
            assert(spec_u64_to_le_bytes(a).len() == 8);
            assert(spec_u64_to_le_bytes(b).len() == 8);
            assert(spec_u64_from_le_bytes(spec_u64_to_le_bytes(a)) == a);
            assert(spec_u64_from_le_bytes(spec_u64_to_le_bytes(b)) == b);
        }
    }

    fn num_bytes() -> usize {
        8
    }

    fn to_bytes(self) -> (v: Vec<u8>) {
        u64_to_le_bytes(self)
    }

    fn from_bytes(data: &[u8]) -> (r: Self) {
        proof {
            lemma_auto_spec_u64_to_from_le_bytes();
        }
        u64_from_le_bytes(data)
    }
}

impl<A: ArenaStorable, B: ArenaStorable> ArenaStorable for (A, B) {
    open spec fn arena_bytes(self) -> Seq<u8> {
        self.0.arena_bytes() + self.1.arena_bytes()
    }

    open spec fn spec_size() -> nat {
        A::spec_size() + B::spec_size()
    }

    proof fn lemma_bytes_len(self) {
        self.0.lemma_bytes_len();
        self.1.lemma_bytes_len();
    }

    proof fn lemma_bytes_injective(a: Self, b: Self) {
        if a.arena_bytes() == b.arena_bytes() {
            a.0.lemma_bytes_len();
            a.1.lemma_bytes_len();
            b.0.lemma_bytes_len();
            b.1.lemma_bytes_len();
            let k = A::spec_size() as int;
            assert(a.0.arena_bytes() =~= b.0.arena_bytes()) by {
                assert forall|i: int| 0 <= i < k implies a.0.arena_bytes()[i]
                    == b.0.arena_bytes()[i] by {
                    assert(a.arena_bytes()[i] == b.arena_bytes()[i]);
                }
            }
            assert(a.1.arena_bytes() =~= b.1.arena_bytes()) by {
                assert forall|i: int| 0 <= i < B::spec_size() implies a.1.arena_bytes()[i]
                    == b.1.arena_bytes()[i] by {
                    assert(a.arena_bytes()[k + i] == b.arena_bytes()[k + i]);
                }
            }
            A::lemma_bytes_injective(a.0, b.0);
            B::lemma_bytes_injective(a.1, b.1);
        }
    }

    fn num_bytes() -> (n: usize) {
        A::num_bytes() + B::num_bytes()
    }

    fn to_bytes(self) -> (v: Vec<u8>) {
        let mut v = self.0.to_bytes();
        let mut tail = self.1.to_bytes();
        v.append(&mut tail);
        v
    }

    fn from_bytes(data: &[u8]) -> (r: Self) {
        proof {
            vstd::slice::axiom_spec_len(data);
        }
        let k = A::num_bytes();
        let first = A::from_bytes(vstd::slice::slice_subrange(data, 0, k));
        let second = B::from_bytes(vstd::slice::slice_subrange(data, k, data.len()));
        proof {
            assert((first, second).arena_bytes() =~= data@);
        }
        (first, second)
    }
}

/// Lays `val` down over `dest`, which must be exactly the value's size.
pub fn store<Item: ArenaStorable + Copy>(dest: &mut [u8], val: Item)
    requires
        old(dest)@.len() == Item::spec_size(),
    ensures
        final(dest)@ == val.arena_bytes(),
{
    proof {
        val.lemma_bytes_len();
    }
    let bytes = val.to_bytes();
    let mut i: usize = 0;
    while i < bytes.len()
        invariant
            i <= bytes@.len(),
            bytes@ == val.arena_bytes(),
            dest@.len() == bytes@.len(),
            forall|j: int| 0 <= j < i ==> dest@[j] == bytes@[j],
        decreases bytes@.len() - i,
    {
        let b = bytes[i];
        vstd::slice::SliceAdditionalExecFns::set(dest, i, b);
        i = i + 1;
    }
    proof {
        assert(dest@ =~= val.arena_bytes());
    }
}

/// Reads the value the given bytes hold; they must be exactly the value's
/// size.
pub fn load<Item: ArenaStorable + Copy>(data: &[u8]) -> (r: Item)
    requires
        data@.len() == Item::spec_size(),
    ensures
        r.arena_bytes() == data@,
{
    Item::from_bytes(data)
}

/// Laying down `bytes` at offset `at` of `s`, leaving the rest unchanged.
pub open spec fn spec_write_bytes(s: Seq<u8>, at: int, bytes: Seq<u8>) -> Seq<u8> {
    s.subrange(0, at) + bytes + s.skip(at + bytes.len())
}

/// What a page looks like in contracts: its occupancy cursor and its bytes.
pub ghost struct PageView {
    /// Number of bytes handed out from this page.
    pub len: nat,
    /// The page's backing bytes.
    pub bytes: Seq<u8>,
}

struct Page {
    page_id: usize,
    len: usize,
    data: Vec<u8>,
}

impl View for Page {
    type V = PageView;

    closed spec fn view(&self) -> PageView {
        PageView { len: self.len as nat, bytes: self.data@ }
    }
}

impl Page {
    spec fn wf(self, expected_id: int) -> bool {
        &&& self.page_id == expected_id
        &&& self.page_id < MAX_NUM_PAGES
        &&& self.len <= self.data@.len()
        &&& PAGE_SIZE <= self.data@.len() <= u32::MAX
    }

    /// A fresh, empty page of the standard size.
    fn new(page_id: usize) -> (r: Self)
        requires
            page_id < MAX_NUM_PAGES,
        ensures
            r.wf(page_id as int),
            r@.len == 0,
            r@.bytes.len() == PAGE_SIZE,
            r@.bytes == Seq::new(PAGE_SIZE as nat, |i: int| 0u8),
    {
        Self::new_sized(page_id, PAGE_SIZE)
    }

    /// A fresh, empty page of at least the standard size.
    fn new_sized(page_id: usize, size: usize) -> (r: Self)
        requires
            page_id < MAX_NUM_PAGES,
            PAGE_SIZE <= size <= u32::MAX,
        ensures
            r.wf(page_id as int),
            r@.len == 0,
            r@.bytes.len() == size,
            r@.bytes == Seq::new(size as nat, |i: int| 0u8),
    {
        let data = vec![0u8; size];
        proof {
            assert(data@ =~= Seq::new(size as nat, |i: int| 0u8));
        }
        Page { page_id, len: 0, data }
    }

    /// Whether `len` more bytes still fit in this page.
    fn is_available(&self, len: usize) -> (r: bool)
        ensures
            r == (len + self@.len <= PAGE_SIZE),
    {
        self.len <= PAGE_SIZE && len <= PAGE_SIZE - self.len
    }

    /// The page's bytes from `local_addr` for `len` bytes.
    fn slice(&self, local_addr: usize, len: usize) -> (r: &[u8])
        requires
            local_addr + len <= self@.bytes.len(),
        ensures
            r@ == self@.bytes.subrange(local_addr as int, local_addr + len),
    {
        proof {
            vstd::std_specs::vec::axiom_spec_len(&self.data);
        }
        vstd::slice::slice_subrange(self.data.as_slice(), local_addr, local_addr + len)
    }

    /// The page's bytes from `local_addr` to the end of the page.
    fn slice_from(&self, local_addr: usize) -> (r: &[u8])
        requires
            local_addr <= self@.bytes.len(),
        ensures
            r@ == self@.bytes.skip(local_addr as int),
    {
        proof {
            vstd::std_specs::vec::axiom_spec_len(&self.data);
            assert(self@.bytes.subrange(local_addr as int, self@.bytes.len() as int) =~= self@
                .bytes.skip(local_addr as int));
        }
        vstd::slice::slice_subrange(self.data.as_slice(), local_addr, self.data.len())
    }

    /// Copies `bytes` into the page starting at `local_addr`.
    fn write_bytes(&mut self, local_addr: usize, bytes: &[u8])
        requires
            local_addr + bytes@.len() <= old(self)@.bytes.len(),
        ensures
            final(self)@.len == old(self)@.len,
            final(self)@.bytes == spec_write_bytes(old(self)@.bytes, local_addr as int, bytes@),
            final(self).page_id == old(self).page_id,
            final(self).data@.len() == old(self).data@.len(),
    {
        let mut i: usize = 0;
        proof {
            vstd::slice::axiom_spec_len(bytes);
            vstd::std_specs::vec::axiom_spec_len(&self.data);
        }
        while i < bytes.len()
            invariant
                i <= bytes@.len(),
                local_addr + bytes@.len() <= self.data@.len(),
                self.len == old(self).len,
                self.page_id == old(self).page_id,
                self.data@.len() == old(self).data@.len(),
                forall|j: int|
                    0 <= j < self.data@.len() && !(local_addr <= j < local_addr + i)
                        ==> self.data@[j] == old(self).data@[j],
                forall|j: int| 0 <= j < i ==> self.data@[local_addr + j] == bytes@[j],
            decreases bytes@.len() - i,
        {
            proof {
                vstd::std_specs::vec::axiom_spec_len(&self.data);
            }
            let b = bytes[i];
            self.data.set(local_addr + i, b);
            i = i + 1;
        }
        proof {
            assert(self.data@ =~= spec_write_bytes(old(self).data@, local_addr as int, bytes@));
        }
    }

    /// Hands out `len` bytes from the cursor if they fit, advancing it; the
    /// address returned is where the bytes begin.
    fn allocate_space(&mut self, len: usize) -> (r: Option<Addr>)
        requires
            1 <= len,
            old(self).wf(old(self).page_id as int),
        ensures
            final(self).wf(old(self).page_id as int),
            final(self).page_id == old(self).page_id,
            final(self)@.bytes == old(self)@.bytes,
            (match r {
                Some(addr) => {
                    &&& len + old(self)@.len <= PAGE_SIZE
                    &&& final(self)@.len == old(self)@.len + len
                    &&& addr.spec_page_id() == old(self).page_id
                    &&& addr.spec_local() == old(self)@.len
                    &&& addr.spec_is_null() <==> (old(self).page_id == MAX_NUM_PAGES - 1 && old(
                        self,
                    )@.len == PAGE_SIZE - 1)
                },
                None => {
                    &&& len + old(self)@.len > PAGE_SIZE
                    &&& final(self)@.len == old(self)@.len
                },
            }),
    {
        if self.is_available(len) {
            let addr = Addr::new(self.page_id, self.len);
            self.len = self.len + len;
            Some(addr)
        } else {
            None
        }
    }
}

/// The resident bytes of a sequence of pages: the sum of their sizes.
pub open spec fn spec_pages_resident(pages: Seq<PageView>) -> int
    decreases pages.len(),
{
    if pages.len() == 0 {
        0
    } else {
        pages[0].bytes.len() + spec_pages_resident(pages.drop_first())
    }
}

/// The resident sum is never negative.
pub proof fn lemma_pages_resident_nonneg(pages: Seq<PageView>)
    ensures
        spec_pages_resident(pages) >= 0,
    decreases pages.len(),
{
    if pages.len() > 0 {
        lemma_pages_resident_nonneg(pages.drop_first());
    }
}

/// Appending a page adds its size to the resident sum.
pub proof fn lemma_pages_resident_snoc(pages: Seq<PageView>, p: PageView)
    ensures
        spec_pages_resident(pages.push(p)) == spec_pages_resident(pages) + p.bytes.len(),
    decreases pages.len(),
{
    if pages.len() == 0 {
        assert(pages.push(p)[0] == p);
        assert(pages.push(p).drop_first() =~= Seq::<PageView>::empty());
        assert(spec_pages_resident(Seq::<PageView>::empty()) == 0);
    } else {
        assert(pages.push(p)[0] == pages[0]);
        assert(pages.push(p).drop_first() =~= pages.drop_first().push(p));
        lemma_pages_resident_snoc(pages.drop_first(), p);
    }
}

/// A prefix of the pages holds at most the whole resident sum.
pub proof fn lemma_pages_resident_take(pages: Seq<PageView>, i: int)
    requires
        0 <= i <= pages.len(),
    ensures
        spec_pages_resident(pages.take(i)) <= spec_pages_resident(pages),
        i < pages.len() ==> spec_pages_resident(pages.take(i + 1)) == spec_pages_resident(
            pages.take(i),
        ) + pages[i].bytes.len(),
    decreases pages.len() - i,
{
    if i < pages.len() {
        assert(pages.take(i + 1) =~= pages.take(i).push(pages[i]));
        lemma_pages_resident_snoc(pages.take(i), pages[i]);
        lemma_pages_resident_take(pages, i + 1);
    } else {
        assert(pages.take(i) =~= pages);
    }
}

/// The memory arena: an ordered sequence of pages, always at least one.
pub struct MemoryArena {
    pages: Vec<Page>,
}

impl Default for MemoryArena {
    /// A fresh arena with one empty page.
    fn default() -> (r: Self)
        ensures
            r.wf(),
            r@.len() == 1,
            r@[0].len == 0,
            r@[0].bytes.len() == PAGE_SIZE,
            r.spec_len() == 0,
    {
        let first_page = Page::new(0);
        let mut pages = Vec::new();
        pages.push(first_page);
        let r = MemoryArena { pages };
        proof {
            assert(r.pages@[0].wf(0));
        }
        r
    }
}

impl View for MemoryArena {
    type V = Seq<PageView>;

    closed spec fn view(&self) -> Seq<PageView> {
        Seq::new(self.pages@.len(), |i: int| self.pages@[i]@)
    }
}

impl MemoryArena {
    /// Well-formedness: between one and 4096 pages, each at least a standard
    /// page in size, none with more bytes handed out than it holds.
    pub closed spec fn wf(self) -> bool {
        &&& 1 <= self.pages@.len() <= MAX_NUM_PAGES
        &&& forall|i: int| 0 <= i < self.pages@.len() ==> self.pages@[i].wf(i)
    }

    /// Number of bytes the arena counts as allocated: every page but the
    /// last counts as one full standard page - an abandoned page tail counts
    /// as allocated, and the surplus of an earlier oversized page does not -
    /// while the last page counts its cursor. With oversized allocations
    /// this figure can decrease when a fresh page is started.
    pub open spec fn spec_len(self) -> int {
        (self@.len() - 1) * (PAGE_SIZE as int) + self@.last().len
    }

    /// Total resident bytes across all pages: the sum of every page's
    /// actual size, an upper bound on what has been allocated.
    pub open spec fn spec_mem_usage(self) -> int {
        spec_pages_resident(self@)
    }

    /// The well-formedness the contracts rely on, at the level of the view.
    pub proof fn lemma_wf_view(self)
        requires
            self.wf(),
        ensures
            1 <= self@.len() <= MAX_NUM_PAGES,
            forall|i: int|
                0 <= i < self@.len() ==> {
                    &&& (#[trigger] self@[i]).len <= self@[i].bytes.len()
                    &&& PAGE_SIZE <= self@[i].bytes.len() <= u32::MAX
                },
    {
    }

    /// The resident memory the arena holds, in bytes: the sum of every
    /// page's size. An upper bound on the allocated bytes, since it counts
    /// page space not yet handed out.
    pub fn mem_usage(&self) -> (r: usize)
        requires
            self.wf(),
            self.spec_mem_usage() <= usize::MAX,
        ensures
            r == self.spec_mem_usage(),
    {
        let mut total: usize = 0;
        let mut i: usize = 0;
        proof {
            assert(self@.take(0) =~= Seq::<PageView>::empty());
            assert(spec_pages_resident(Seq::<PageView>::empty()) == 0);
        }
        while i < self.pages.len()
            invariant
                self.wf(),
                self.spec_mem_usage() <= usize::MAX,
                i <= self@.len(),
                total == spec_pages_resident(self@.take(i as int)),
            decreases self@.len() - i,
        {
            proof {
                lemma_pages_resident_take(self@, i as int);
                lemma_pages_resident_take(self@, i + 1);
                lemma_pages_resident_nonneg(self@.take(i as int));
                vstd::std_specs::vec::axiom_spec_len(&self.pages[i as int].data);
            }
            total = total + self.pages[i].data.len();
            i = i + 1;
        }
        proof {
            assert(self@.take(self@.len() as int) =~= self@);
        }
        total
    }

    /// The number of bytes allocated in the arena.
    pub fn len(&self) -> (r: usize)
        requires
            self.wf(),
            self.spec_len() <= usize::MAX,
        ensures
            r == self.spec_len(),
    {
        proof {
            vstd::arithmetic::mul::lemma_mul_inequality(
                self.pages@.len() - 1,
                MAX_NUM_PAGES as int,
                PAGE_SIZE as int,
            );
            assert(self.pages@[self.pages@.len() - 1].wf(self.pages@.len() - 1));
        }
        (self.pages.len() - 1) * PAGE_SIZE + self.pages[self.pages.len() - 1].len
    }

    /// Whether nothing has been allocated yet.
    pub fn is_empty(&self) -> (r: bool)
        requires
            self.wf(),
            self.spec_len() <= usize::MAX,
        ensures
            r == (self.spec_len() == 0),
    {
        self.len() == 0
    }

    /// Writes `val` at `addr`, which must lie in the allocated part of its
    /// page with room for the value's bytes.
    pub fn write_at<Item: ArenaStorable + Copy>(&mut self, addr: Addr, val: Item)
        requires
            old(self).wf(),
            addr.spec_page_id() < old(self)@.len(),
            addr.spec_local() + Item::spec_size() <= old(self)@[addr.spec_page_id() as int].len,
        ensures
            final(self).wf(),
            final(self)@ == old(self)@.update(
                addr.spec_page_id() as int,
                PageView {
                    len: old(self)@[addr.spec_page_id() as int].len,
                    bytes: spec_write_bytes(
                        old(self)@[addr.spec_page_id() as int].bytes,
                        addr.spec_local() as int,
                        val.arena_bytes(),
                    ),
                },
            ),
    {
        let bytes = val.to_bytes();
        proof {
            val.lemma_bytes_len();
        }
        self.write_bytes(addr, bytes.as_slice());
    }

    /// Copies `bytes` into the arena starting at `addr`; the range must lie
    /// in the allocated part of the page.
    pub fn write_bytes(&mut self, addr: Addr, bytes: &[u8])
        requires
            old(self).wf(),
            addr.spec_page_id() < old(self)@.len(),
            addr.spec_local() + bytes@.len() <= old(self)@[addr.spec_page_id() as int].len,
        ensures
            final(self).wf(),
            final(self)@ == old(self)@.update(
                addr.spec_page_id() as int,
                PageView {
                    len: old(self)@[addr.spec_page_id() as int].len,
                    bytes: spec_write_bytes(
                        old(self)@[addr.spec_page_id() as int].bytes,
                        addr.spec_local() as int,
                        bytes@,
                    ),
                },
            ),
    {
        let page_id = addr.page_id();
        let local = addr.page_local_addr();
        proof {
            assert(self.pages@[page_id as int].wf(page_id as int));
        }
        let page = &mut self.pages[page_id];
        page.write_bytes(local, bytes);
        proof {
            assert(self@ =~= old(self)@.update(
                addr.spec_page_id() as int,
                PageView {
                    len: old(self)@[addr.spec_page_id() as int].len,
                    bytes: spec_write_bytes(
                        old(self)@[addr.spec_page_id() as int].bytes,
                        addr.spec_local() as int,
                        bytes@,
                    ),
                },
            ));
            assert forall|i: int| 0 <= i < self.pages@.len() implies self.pages@[i].wf(i) by {
                assert(old(self).pages@[i].wf(i));
            }
        }
    }

    /// Reads a value of type `Item` at `addr`; the bytes read must lie in
    /// the allocated part of the page.
    pub fn read<Item: ArenaStorable + Copy>(&self, addr: Addr) -> (r: Item)
        requires
            self.wf(),
            addr.spec_page_id() < self@.len(),
            addr.spec_local() + Item::spec_size() <= self@[addr.spec_page_id() as int].len,
        ensures
            r.arena_bytes() == self@[addr.spec_page_id() as int].bytes.subrange(
                addr.spec_local() as int,
                (addr.spec_local() + Item::spec_size()) as int,
            ),
    {
        let size = Item::num_bytes();
        Item::from_bytes(self.slice(addr, size))
    }

    /// The arena's bytes from `addr` for `len` bytes.
    pub fn slice(&self, addr: Addr, len: usize) -> (r: &[u8])
        requires
            self.wf(),
            addr.spec_page_id() < self@.len(),
            addr.spec_local() + len <= self@[addr.spec_page_id() as int].bytes.len(),
        ensures
            r@ == self@[addr.spec_page_id() as int].bytes.subrange(
                addr.spec_local() as int,
                addr.spec_local() + len,
            ),
    {
        let page_id = addr.page_id();
        proof {
            assert(self.pages@[page_id as int].wf(page_id as int));
        }
        self.pages[page_id].slice(addr.page_local_addr(), len)
    }

    /// The arena's bytes from `addr` to the end of that page.
    pub fn slice_from(&self, addr: Addr) -> (r: &[u8])
        requires
            self.wf(),
            addr.spec_page_id() < self@.len(),
            addr.spec_local() <= self@[addr.spec_page_id() as int].bytes.len(),
        ensures
            r@ == self@[addr.spec_page_id() as int].bytes.skip(addr.spec_local() as int),
    {
        let page_id = addr.page_id();
        proof {
            assert(self.pages@[page_id as int].wf(page_id as int));
        }
        self.pages[page_id].slice_from(addr.page_local_addr())
    }

    /// Appends a page big enough for `len` bytes and allocates them at its
    /// start.
    fn add_page(&mut self, len: usize) -> (r: Addr)
        requires
            old(self).wf(),
            old(self)@.len() < MAX_NUM_PAGES,
            len <= u32::MAX,
        ensures
            final(self).wf(),
            final(self)@.len() == old(self)@.len() + 1,
            final(self)@.subrange(0, old(self)@.len() as int) == old(self)@,
            final(self)@.last().len == len,
            final(self)@.last().bytes.len() == vstd::math::max(PAGE_SIZE as int, len as int),
            r.spec_page_id() == old(self)@.len(),
            r.spec_local() == 0,
            !r.spec_is_null(),
    {
        let new_page_id = self.pages.len();
        let size = if len < PAGE_SIZE {
            PAGE_SIZE
        } else {
            len
        };
        let mut page = Page::new_sized(new_page_id, size);
        page.len = len;
        self.pages.push(page);
        let r = Addr::new(new_page_id, 0);
        proof {
            assert(self@.subrange(0, old(self)@.len() as int) =~= old(self)@);
            assert forall|i: int| 0 <= i < self.pages@.len() implies self.pages@[i].wf(i) by {
                if i < old(self).pages@.len() {
                    assert(old(self).pages@[i].wf(i));
                }
            }
        }
        r
    }

    /// Allocates `len` contiguous bytes and returns their address. Served
    /// from the last page when it has room; otherwise a fresh page is
    /// appended, sized to the request when that exceeds a standard page.
    /// The returned handle is never the null handle: allocating the one
    /// byte whose handle would collide with it - the very last byte of the
    /// last possible page - is excluded.
    pub fn allocate_space(&mut self, len: usize) -> (r: Addr)
        requires
            old(self).wf(),
            1 <= len <= u32::MAX,
            len + old(self)@.last().len > PAGE_SIZE ==> old(self)@.len() < MAX_NUM_PAGES,
            old(self)@.len() == MAX_NUM_PAGES ==> !(old(self)@.last().len == PAGE_SIZE - 1
                && len == 1),
        ensures
            final(self).wf(),
            !r.spec_is_null(),
            (if len + old(self)@.last().len <= PAGE_SIZE {
                &&& r.spec_page_id() == old(self)@.len() - 1
                &&& r.spec_local() == old(self)@.last().len
                &&& final(self)@.len() == old(self)@.len()
                &&& final(self)@ == old(self)@.update(
                    old(self)@.len() - 1,
                    PageView {
                        len: (old(self)@.last().len + len) as nat,
                        bytes: old(self)@.last().bytes,
                    },
                )
                &&& final(self).spec_len() == old(self).spec_len() + len
            } else {
                &&& r.spec_page_id() == old(self)@.len()
                &&& r.spec_local() == 0
                &&& final(self)@.len() == old(self)@.len() + 1
                &&& final(self)@.subrange(0, old(self)@.len() as int) == old(self)@
                &&& final(self)@.last().len == len
                &&& final(self).spec_len() == old(self)@.len() * (PAGE_SIZE as int) + len
            }),
    {
        let page_id = self.pages.len() - 1;
        proof {
            assert(self.pages@[page_id as int].wf(page_id as int));
        }
        let last = &mut self.pages[page_id];
        let maybe_addr = last.allocate_space(len);
        match maybe_addr {
            Some(addr) => {
                proof {
                    assert(self@ =~= old(self)@.update(
                        old(self)@.len() - 1,
                        PageView {
                            len: (old(self)@.last().len + len) as nat,
                            bytes: old(self)@.last().bytes,
                        },
                    ));
                    assert forall|i: int| 0 <= i < self.pages@.len() implies self.pages@[i].wf(
                        i,
                    ) by {
                        assert(old(self).pages@[i].wf(i));
                    }
                    assert(self@.last() == self@[self@.len() - 1]);
                }
                addr
            },
            None => {
                proof {
                    assert(self@ =~= old(self)@);
                    assert forall|i: int| 0 <= i < self.pages@.len() implies self.pages@[i].wf(
                        i,
                    ) by {
                        assert(old(self).pages@[i].wf(i));
                    }
                }
                let addr = self.add_page(len);
                proof {
                    assert(self@.last() == self@[self@.len() - 1]);
                }
                addr
            },
        }
    }
}

/// Back-to-back allocations served from the same page are physically
/// adjacent: the second begins exactly where the first's bytes end.
///
/// The hypotheses are the fit-case postconditions of two successive
/// `allocate_space` calls, `first` and `second` the arena's pages before
/// each of them and `n` the first request's size.
pub proof fn lemma_allocations_adjacent(
    first: Seq<PageView>,
    second: Seq<PageView>,
    a1: Addr,
    a2: Addr,
    n: int,
)
    requires
        first.len() >= 1,
        n >= 0,
        a1.spec_page_id() == first.len() - 1,
        a1.spec_local() == first.last().len,
        second == first.update(
            first.len() - 1,
            PageView { len: (first.last().len + n) as nat, bytes: first.last().bytes },
        ),
        a2.spec_page_id() == second.len() - 1,
        a2.spec_local() == second.last().len,
    ensures
        a2.spec_page_id() == a1.spec_page_id(),
        a2.spec_local() == a1.spec_local() + n,
{
    assert(second.last() == second[second.len() - 1]);
}

/// The resident bytes bound the allocated bytes: every page is at least a
/// standard page, and the last page's cursor lies within its page.
pub proof fn lemma_mem_usage_bounds_len(a: MemoryArena)
    requires
        a.wf(),
    ensures
        a.spec_len() <= a.spec_mem_usage(),
{
    a.lemma_wf_view();
    lemma_pages_resident_lower(a@);
}

/// Counting every page but the last as one standard page, and the last as
/// its cursor, stays below the sum of the pages' actual sizes.
proof fn lemma_pages_resident_lower(pages: Seq<PageView>)
    requires
        pages.len() >= 1,
        forall|i: int| 0 <= i < pages.len() ==> (#[trigger] pages[i]).len <= pages[i].bytes.len(),
        forall|i: int|
            0 <= i < pages.len() ==> PAGE_SIZE <= (#[trigger] pages[i]).bytes.len(),
    ensures
        (pages.len() - 1) * (PAGE_SIZE as int) + pages.last().len <= spec_pages_resident(pages),
    decreases pages.len(),
{
    if pages.len() == 1 {
        assert(pages.drop_first() =~= Seq::<PageView>::empty());
        assert(spec_pages_resident(Seq::<PageView>::empty()) == 0);
        assert(pages.last() == pages[0]);
    } else {
        let rest = pages.drop_first();
        assert forall|i: int| 0 <= i < rest.len() implies ((#[trigger] rest[i]).len
            <= rest[i].bytes.len() && PAGE_SIZE <= rest[i].bytes.len()) by {
            assert(rest[i] == pages[i + 1]);
            assert(pages[i + 1].len <= pages[i + 1].bytes.len());
            assert(PAGE_SIZE <= pages[i + 1].bytes.len());
        }
        lemma_pages_resident_lower(rest);
        assert(rest.last() == pages.last());
        assert((pages.len() - 1) * (PAGE_SIZE as int) == (PAGE_SIZE as int) + (rest.len() - 1)
            * (PAGE_SIZE as int)) by {
            vstd::arithmetic::mul::lemma_mul_is_distributive_sub_other_way(
                PAGE_SIZE as int,
                pages.len() - 1,
                1,
            );
            vstd::arithmetic::mul::lemma_mul_is_distributive_sub_other_way(
                PAGE_SIZE as int,
                rest.len() as int,
                1,
            );
        }
    }
}

/// Writing a value and then reading it back at the same address yields the
/// original value: the bytes laid down by `write_at` decode only to it.
///
/// The hypotheses are exactly what `write_at` ensures of the arena and what
/// `read` ensures of the value it returns.
pub proof fn lemma_write_then_read<Item: ArenaStorable>(
    pre: Seq<PageView>,
    post: Seq<PageView>,
    page: int,
    local: int,
    x: Item,
    r: Item,
)
    requires
        0 <= page < pre.len(),
        0 <= local,
        local + Item::spec_size() <= pre[page].bytes.len(),
        post == pre.update(
            page,
            PageView {
                len: pre[page].len,
                bytes: spec_write_bytes(pre[page].bytes, local, x.arena_bytes()),
            },
        ),
        r.arena_bytes() == post[page].bytes.subrange(local, local + Item::spec_size()),
    ensures
        r == x,
{
    x.lemma_bytes_len();
    assert(post[page].bytes.subrange(local, local + Item::spec_size()) =~= x.arena_bytes());
    Item::lemma_bytes_injective(r, x);
}

} // verus!
