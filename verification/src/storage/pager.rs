//! The page store: fixed-size pages addressed by id.
//!
//! Page 0 is the metadata page with this layout:
//!   [0..4]   magic bytes "MGDB"
//!   [4..8]   B+ tree root page id (little-endian u32, 0 = unset)
//!   [8..12]  free-list head page id (little-endian u32, u32::MAX = empty)
//!   [12..20] checkpoint LSN (little-endian u64)
//! A freed page holds the id of the next free page in its first four bytes.
use crate::codec::{
    lemma_le_u32_roundtrip, lemma_le_u64_roundtrip, copy_bytes, copy_range, le_u32, le_u32_value, le_u64, le_u64_value, push_bytes, push_u32_le,
    push_u64_le, push_zeros, read_u32_le, read_u64_le, zeros,
};
use vstd::prelude::*;

verus! {

pub const PAGE_SIZE: usize = 4096;

pub type PageId = u32;

/// Marker bytes at the start of the metadata page.
pub const META_MAGIC: [u8; 4] = [77u8, 71u8, 68u8, 66u8];

pub const META_ROOT_OFFSET: usize = 4;

pub const META_FREE_LIST_OFFSET: usize = 8;

pub const META_CHECKPOINT_LSN_OFFSET: usize = 12;

/// The id that stands for "no page".
pub const NO_PAGE: u32 = 0xFFFF_FFFFu32;

pub open spec fn magic_seq() -> Seq<u8> {
    seq![77u8, 71u8, 68u8, 66u8]
}

/// A fixed-size memory page.
#[derive(Clone, Debug)]
pub struct Page {
    pub data: Vec<u8>,
}

impl Page {
    pub open spec fn wf(&self) -> bool {
        self.data@.len() == PAGE_SIZE
    }

    /// A copy of this page with the same bytes.
    pub fn duplicate(&self) -> (r: Page)
        ensures
            r.data@ == self.data@,
    {
        Page { data: copy_bytes(self.data.as_slice()) }
    }

    /// Overwrites four bytes at `at` with the little-endian encoding of `x`.
    pub fn set_u32_le(&mut self, at: usize, x: u32)
        requires
            at + 4 <= old(self).data@.len(),
        ensures
            final(self).data@ == old(self).data@.subrange(0, at as int) + le_u32(x) + old(
                self,
            ).data@.subrange(at + 4, old(self).data@.len() as int),
    {
        let _n = self.data.len();
        self.data.set(at, (x % 256) as u8);
        self.data.set(at + 1, ((x / 256) % 256) as u8);
        self.data.set(at + 2, ((x / 65536) % 256) as u8);
        self.data.set(at + 3, (x / 16777216) as u8);
        assert(final(self).data@ =~= old(self).data@.subrange(0, at as int) + le_u32(x) + old(
            self,
        ).data@.subrange(at + 4, old(self).data@.len() as int));
    }

    /// Overwrites eight bytes at `at` with the little-endian encoding of `x`.
    pub fn set_u64_le(&mut self, at: usize, x: u64)
        requires
            at + 8 <= old(self).data@.len(),
        ensures
            final(self).data@ == old(self).data@.subrange(0, at as int) + le_u64(x) + old(
                self,
            ).data@.subrange(at + 8, old(self).data@.len() as int),
    {
        let ghost d0 = self.data@;
        let _n = self.data.len();
        self.set_u32_le(at, (x % 4294967296) as u32);
        self.set_u32_le(at + 4, (x / 4294967296) as u32);
        assert(final(self).data@ =~= d0.subrange(0, at as int) + le_u64(x) + d0.subrange(
            at + 8,
            d0.len() as int,
        ));
    }
}

impl Default for Page {
    fn default() -> (p: Self)
        ensures
            p.data@ == zeros(PAGE_SIZE as nat),
    {
        let mut data: Vec<u8> = Vec::new();
        push_zeros(&mut data, PAGE_SIZE);
        assert(data@ =~= zeros(PAGE_SIZE as nat));
        Page { data }
    }
}

/// The little-endian u32 at `at` in page bytes `d`.
pub open spec fn u32_at(d: Seq<u8>, at: int) -> u32 {
    le_u32_value(d.subrange(at, at + 4))
}

/// The free-list head recorded in the metadata page.
pub open spec fn spec_free_head(pages: Seq<Seq<u8>>) -> u32 {
    u32_at(pages[0], META_FREE_LIST_OFFSET as int)
}

/// What reading page `id` gives: its bytes, or a zero page past the end.
pub open spec fn spec_read(pages: Seq<Seq<u8>>, id: int) -> Seq<u8> {
    if 0 <= id < pages.len() {
        pages[id]
    } else {
        zeros(PAGE_SIZE as nat)
    }
}

/// The pages after writing `d` at `id`; writing past the end fills the gap with zero pages.
pub open spec fn spec_write(pages: Seq<Seq<u8>>, id: int, d: Seq<u8>) -> Seq<Seq<u8>> {
    if id < pages.len() {
        pages.update(id, d)
    } else {
        pages + Seq::new((id - pages.len()) as nat, |i: int| zeros(PAGE_SIZE as nat)) + seq![d]
    }
}

/// `d` with the four bytes at `at` replaced by the little-endian encoding of `x`.
pub open spec fn with_u32(d: Seq<u8>, at: int, x: u32) -> Seq<u8> {
    d.subrange(0, at) + le_u32(x) + d.subrange(at + 4, d.len() as int)
}

/// A zero page whose first four bytes link to `next`.
pub open spec fn free_page_bytes(next: u32) -> Seq<u8> {
    with_u32(zeros(PAGE_SIZE as nat), 0, next)
}

/// Whether the free-list head can be reused.
pub open spec fn reusable_head(pages: Seq<Seq<u8>>) -> bool {
    let h = spec_free_head(pages);
    h != NO_PAGE && h < pages.len() && h != 0
}

/// The page id that allocation hands out.
pub open spec fn spec_allocated_id(pages: Seq<Seq<u8>>) -> u32 {
    if reusable_head(pages) {
        spec_free_head(pages)
    } else {
        pages.len() as u32
    }
}

/// The pages after allocation.
pub open spec fn spec_allocate(pages: Seq<Seq<u8>>) -> Seq<Seq<u8>> {
    if reusable_head(pages) {
        let h = spec_free_head(pages);
        let next = u32_at(pages[h as int], 0);
        spec_write(
            spec_write(pages, 0, with_u32(pages[0], META_FREE_LIST_OFFSET as int, next)),
            h as int,
            zeros(PAGE_SIZE as nat),
        )
    } else {
        spec_write(pages, pages.len() as int, zeros(PAGE_SIZE as nat))
    }
}

/// The pages after freeing `id`; ids 0 and past the end are left alone.
pub open spec fn spec_free(pages: Seq<Seq<u8>>, id: u32) -> Seq<Seq<u8>> {
    if id == 0 || id >= pages.len() {
        pages
    } else {
        let head = spec_free_head(pages);
        spec_write(
            spec_write(pages, id as int, free_page_bytes(head)),
            0,
            with_u32(pages[0], META_FREE_LIST_OFFSET as int, id),
        )
    }
}

/// The checkpoint LSN recorded in the metadata page.
pub open spec fn spec_checkpoint_lsn(pages: Seq<Seq<u8>>) -> u64 {
    le_u64_value(pages[0].subrange(12, 20))
}

/// The metadata page of a fresh store.
pub open spec fn fresh_meta_page() -> Seq<u8> {
    magic_seq() + le_u32(0) + le_u32(NO_PAGE) + le_u64(0) + zeros((PAGE_SIZE - 20) as nat)
}

/// A fresh store records no root and an empty free list, so its next allocation appends.
pub proof fn lemma_fresh_meta()
    ensures
        u32_at(fresh_meta_page(), META_ROOT_OFFSET as int) == 0,
        spec_free_head(seq![fresh_meta_page()]) == NO_PAGE,
        !reusable_head(seq![fresh_meta_page()]),
{
    let m = fresh_meta_page();
    lemma_le_u32_roundtrip(0);
    lemma_le_u32_roundtrip(NO_PAGE);
    assert(m.subrange(4, 8) =~= le_u32(0));
    assert(m.subrange(8, 12) =~= le_u32(NO_PAGE));
}

/// Reading a page gives back what was last written there, and a write leaves every other
/// page as it was.
pub proof fn lemma_read_after_write(pages: Seq<Seq<u8>>, id: int, d: Seq<u8>, other: int)
    requires
        0 <= id,
        other != id,
    ensures
        spec_read(spec_write(pages, id, d), id) == d,
        spec_read(spec_write(pages, id, d), other) == spec_read(pages, other),
{
}

/// Freeing a page and then allocating hands the same page back, and the free list is as it
/// was before the free.
pub proof fn lemma_free_then_allocate(pages: Seq<Seq<u8>>, id: u32)
    requires
        pages.len() >= 1,
        forall|i: int| 0 <= i < pages.len() ==> (#[trigger] pages[i]).len() == PAGE_SIZE,
        pages.len() <= u32::MAX,
        0 < id < pages.len(),
    ensures
        spec_allocated_id(spec_free(pages, id)) == id,
        spec_free_head(spec_allocate(spec_free(pages, id))) == spec_free_head(pages),
        spec_allocate(spec_free(pages, id)).len() == pages.len(),
        spec_read(spec_allocate(spec_free(pages, id)), id as int) == zeros(PAGE_SIZE as nat),
{
    let head = spec_free_head(pages);
    let freed = spec_free(pages, id);
    let meta1 = with_u32(pages[0], META_FREE_LIST_OFFSET as int, id);
    lemma_le_u32_roundtrip(id);
    lemma_le_u32_roundtrip(head);
    assert(meta1.subrange(8, 12) =~= le_u32(id));
    assert(freed[0] == meta1);
    assert(spec_free_head(freed) == id);
    assert(freed[id as int] == free_page_bytes(head));
    assert(free_page_bytes(head).subrange(0, 4) =~= le_u32(head));
    assert(u32_at(freed[id as int], 0) == head);
    let meta2 = with_u32(freed[0], META_FREE_LIST_OFFSET as int, head);
    assert(meta2.subrange(8, 12) =~= le_u32(head));
    assert(spec_allocate(freed)[0] == meta2);
}

/// The checkpoint LSN reads back as written.
pub proof fn lemma_checkpoint_lsn_roundtrip(pages: Seq<Seq<u8>>, lsn: u64)
    requires
        pages.len() >= 1,
        pages[0].len() == PAGE_SIZE,
    ensures
        spec_checkpoint_lsn(
            pages.update(
                0,
                pages[0].subrange(0, 12) + le_u64(lsn) + pages[0].subrange(20, PAGE_SIZE as int),
            ),
        ) == lsn,
{
    lemma_le_u64_roundtrip(lsn);
    let m = pages[0].subrange(0, 12) + le_u64(lsn) + pages[0].subrange(20, PAGE_SIZE as int);
    assert(m.subrange(12, 20) =~= le_u64(lsn));
}

/// Errors from reading a stored page image.
#[derive(Debug, Clone, PartialEq, Eq)]
pub enum PagerError {
    /// The first page does not start with the magic bytes.
    MagicMismatch,
    /// The image holds more pages than a 32-bit page id can address.
    TooManyPages,
}

/// The page store. Page 0 is always present.
pub struct Pager {
    pages: Vec<Page>,
    num_pages: u32,
}

impl Pager {
    /// The number of pages in the store.
    pub closed spec fn spec_num_pages(&self) -> u32 {
        self.num_pages
    }

    /// The number of pages in the store.
    #[verifier::when_used_as_spec(spec_num_pages)]
    pub fn num_pages(&self) -> (n: u32)
        ensures
            n == self.spec_num_pages(),
    {
        self.num_pages
    }

    pub closed spec fn wf(&self) -> bool {
        &&& self.pages@.len() == self.num_pages
        &&& self.num_pages >= 1
        &&& forall|i: int| 0 <= i < self.pages@.len() ==> (#[trigger] self.pages@[i]).wf()
    }

    pub proof fn lemma_wf(&self)
        requires
            self.wf(),
        ensures
            self@.len() == self.num_pages(),
            self@.len() >= 1,
            forall|i: int| 0 <= i < self@.len() ==> (#[trigger] self@[i]).len() == PAGE_SIZE,
    {
    }

    /// A fresh store holding only the initialised metadata page.
    pub fn new() -> (p: Pager)
        ensures
            p.wf(),
            p@ == seq![fresh_meta_page()],
            p.num_pages() == 1,
    {
        let mut data: Vec<u8> = Vec::new();
        push_bytes(&mut data, &META_MAGIC);
        assert(META_MAGIC@ =~= magic_seq());
        push_u32_le(&mut data, 0);
        push_u32_le(&mut data, NO_PAGE);
        push_u64_le(&mut data, 0);
        push_zeros(&mut data, PAGE_SIZE - 20);
        let mut pages: Vec<Page> = Vec::new();
        pages.push(Page { data });
        let p = Pager { pages, num_pages: 1 };
        assert(p@ =~= seq![fresh_meta_page()]);
        p
    }

    /// Rebuilds a store from the bytes of a data file. A trailing partial page is ignored; an
    /// empty image yields a fresh store.
    pub fn from_image(image: &[u8]) -> (r: Result<Pager, PagerError>)
        ensures
            (image@.len() as int) / (PAGE_SIZE as int) == 0 ==> (r matches Ok(p) && p.wf() && p@ == seq![
                fresh_meta_page(),
            ]),
            (image@.len() as int) / (PAGE_SIZE as int) > u32::MAX ==> r == Err::<Pager, PagerError>(
                PagerError::TooManyPages,
            ),
            0 < (image@.len() as int) / (PAGE_SIZE as int) <= u32::MAX ==> {
                if image@.subrange(0, 4) == magic_seq() {
                    &&& r matches Ok(p)
                    &&& p.wf()
                    &&& p.num_pages() == (image@.len() as int) / (PAGE_SIZE as int)
                    &&& forall|i: int|
                        0 <= i < p@.len() ==> #[trigger] p@[i] == image@.subrange(
                            i * PAGE_SIZE,
                            i * PAGE_SIZE + PAGE_SIZE,
                        )
                } else {
                    r == Err::<Pager, PagerError>(PagerError::MagicMismatch)
                }
            },
    {
        let len = image.len();
        let n = len / PAGE_SIZE;
        if n == 0 {
            return Ok(Pager::new());
        }
        if n > 0xFFFF_FFFFusize {
            return Err(PagerError::TooManyPages);
        }
        if !(image[0] == 77u8 && image[1] == 71u8 && image[2] == 68u8 && image[3] == 66u8) {
            assert(image@.subrange(0, 4) != magic_seq()) by {
                if image@.subrange(0, 4) == magic_seq() {
                    assert(image@.subrange(0, 4)[0] == image@[0]);
                    assert(image@.subrange(0, 4)[1] == image@[1]);
                    assert(image@.subrange(0, 4)[2] == image@[2]);
                    assert(image@.subrange(0, 4)[3] == image@[3]);
                }
            }
            return Err(PagerError::MagicMismatch);
        }
        assert(image@.subrange(0, 4) =~= magic_seq());
        let mut pages: Vec<Page> = Vec::new();
        let mut i: usize = 0;
        while i < n
            invariant
                n == (image@.len() as int) / (PAGE_SIZE as int),
                len == image@.len(),
                0 < n <= u32::MAX,
                i <= n,
                pages@.len() == i,
                forall|j: int| 0 <= j < i ==> (#[trigger] pages@[j]).wf(),
                forall|j: int|
                    0 <= j < i ==> (#[trigger] pages@[j]).data@ == image@.subrange(
                        j * PAGE_SIZE,
                        j * PAGE_SIZE + PAGE_SIZE,
                    ),
            decreases n - i,
        {
            assert(i * PAGE_SIZE + PAGE_SIZE <= n * PAGE_SIZE) by (nonlinear_arith)
                requires
                    i < n,
            ;
            assert(n * PAGE_SIZE <= image@.len()) by (nonlinear_arith)
                requires
                    n == (image@.len() as int) / (PAGE_SIZE as int),
            ;
            let data = copy_range(image, i * PAGE_SIZE, i * PAGE_SIZE + PAGE_SIZE);
            pages.push(Page { data });
            i += 1;
        }
        let p = Pager { pages, num_pages: n as u32 };
        assert forall|j: int| 0 <= j < p@.len() implies #[trigger] p@[j] == image@.subrange(
            j * PAGE_SIZE,
            j * PAGE_SIZE + PAGE_SIZE,
        ) by {
            assert(p@[j] == p.pages@[j].data@);
        }
        Ok(p)
    }

    /// The bytes of every page, concatenated in id order.
    pub fn to_image(&self) -> (r: Vec<u8>)
        requires
            self.wf(),
        ensures
            r@.len() == self@.len() * PAGE_SIZE,
            forall|i: int|
                0 <= i < self@.len() ==> r@.subrange(i * PAGE_SIZE, i * PAGE_SIZE + PAGE_SIZE)
                    == #[trigger] self@[i],
    {
        let mut r: Vec<u8> = Vec::new();
        let mut i: usize = 0;
        while i < self.pages.len()
            invariant
                self.wf(),
                i <= self.pages@.len(),
                r@.len() == i * PAGE_SIZE,
                forall|j: int|
                    0 <= j < i ==> r@.subrange(j * PAGE_SIZE, j * PAGE_SIZE + PAGE_SIZE)
                        == #[trigger] self@[j],
            decreases self.pages@.len() - i,
        {
            let ghost before = r@;
            assert(self.pages@[i as int].wf());
            push_bytes(&mut r, self.pages[i].data.as_slice());
            assert forall|j: int| 0 <= j < i + 1 implies r@.subrange(
                j * PAGE_SIZE,
                j * PAGE_SIZE + PAGE_SIZE,
            ) == #[trigger] self@[j] by {
                assert(j * PAGE_SIZE + PAGE_SIZE <= i * PAGE_SIZE + PAGE_SIZE) by (nonlinear_arith)
                    requires
                        j < i + 1,
                ;
                if j < i {
                    assert(j * PAGE_SIZE + PAGE_SIZE <= i * PAGE_SIZE) by (nonlinear_arith)
                        requires
                            j < i,
                    ;
                    assert(r@.subrange(j * PAGE_SIZE, j * PAGE_SIZE + PAGE_SIZE) =~= before.subrange(
                        j * PAGE_SIZE,
                        j * PAGE_SIZE + PAGE_SIZE,
                    ));
                } else {
                    assert(r@.subrange(j * PAGE_SIZE, j * PAGE_SIZE + PAGE_SIZE) =~= self@[j]);
                }
            }
            i += 1;
        }
        r
    }

    /// Reads a page; ids past the end read as a zero page.
    pub fn read_page(&self, page_id: PageId) -> (p: Page)
        requires
            self.wf(),
        ensures
            p.wf(),
            p.data@ == spec_read(self@, page_id as int),
    {
        if page_id >= self.num_pages {
            return Page::default();
        }
        self.pages[page_id as usize].duplicate()
    }

    /// Writes a page, growing the store with zero pages when `page_id` is past the end.
    pub fn write_page(&mut self, page_id: PageId, page: &Page)
        requires
            old(self).wf(),
            page.wf(),
            page_id < u32::MAX,
        ensures
            final(self).wf(),
            final(self)@ == spec_write(old(self)@, page_id as int, page.data@),
            final(self).num_pages() == final(self)@.len(),
    {
        if page_id < self.num_pages {
            self.pages.set(page_id as usize, page.duplicate());
            assert(self@ =~= spec_write(old(self)@, page_id as int, page.data@));
        } else {
            while self.num_pages < page_id
                invariant
                    self.wf(),
                    old(self).num_pages <= self.num_pages <= page_id,
                    page_id < u32::MAX,
                    self@ == old(self)@ + Seq::new(
                        (self.num_pages - old(self).num_pages) as nat,
                        |i: int| zeros(PAGE_SIZE as nat),
                    ),
                decreases page_id - self.num_pages,
            {
                let ghost prev = self@;
                let blank = Page::default();
                self.pages.push(blank);
                self.num_pages = self.num_pages + 1;
                assert(self@ =~= prev.push(zeros(PAGE_SIZE as nat)));
                assert(self@ =~= old(self)@ + Seq::new(
                    (self.num_pages - old(self).num_pages) as nat,
                    |i: int| zeros(PAGE_SIZE as nat),
                ));
            }
            self.pages.push(page.duplicate());
            self.num_pages = page_id + 1;
            assert(self@ =~= spec_write(old(self)@, page_id as int, page.data@));
        }
    }

    /// Hands out a page: the head of the free list when it can be reused, else a new page at
    /// the end. The page handed out is zeroed.
    pub fn allocate_page(&mut self) -> (id: PageId)
        requires
            old(self).wf(),
            old(self).num_pages() < u32::MAX,
        ensures
            final(self).wf(),
            id == spec_allocated_id(old(self)@),
            final(self)@ == spec_allocate(old(self)@),
    {
        let meta = self.read_page(0);
        let free_head = read_u32_le(meta.data.as_slice(), META_FREE_LIST_OFFSET);
        if free_head != NO_PAGE && free_head < self.num_pages && free_head != 0 {
            let free_page = self.read_page(free_head);
            let next_free = read_u32_le(free_page.data.as_slice(), 0);
            let mut updated_meta = meta;
            updated_meta.set_u32_le(META_FREE_LIST_OFFSET, next_free);
            self.write_page(0, &updated_meta);
            let blank = Page::default();
            self.write_page(free_head, &blank);
            free_head
        } else {
            let page_id = self.num_pages;
            let blank = Page::default();
            self.write_page(page_id, &blank);
            page_id
        }
    }

    /// Returns a page to the free list; ids 0 and past the end are ignored.
    pub fn free_page(&mut self, page_id: PageId)
        requires
            old(self).wf(),
        ensures
            final(self).wf(),
            final(self)@ == spec_free(old(self)@, page_id),
    {
        if page_id == 0 || page_id >= self.num_pages {
            return;
        }
        let meta = self.read_page(0);
        let current_free_head = read_u32_le(meta.data.as_slice(), META_FREE_LIST_OFFSET);
        let mut freed = Page::default();
        freed.set_u32_le(0, current_free_head);
        self.write_page(page_id, &freed);
        let mut updated_meta = meta;
        updated_meta.set_u32_le(META_FREE_LIST_OFFSET, page_id);
        self.write_page(0, &updated_meta);
    }

    /// The checkpoint LSN stored in the metadata page.
    pub fn read_checkpoint_lsn(&self) -> (lsn: u64)
        requires
            self.wf(),
        ensures
            lsn == spec_checkpoint_lsn(self@),
    {
        let meta = self.read_page(0);
        let r = read_u64_le(meta.data.as_slice(), META_CHECKPOINT_LSN_OFFSET);
        r
    }

    /// Stores the checkpoint LSN in the metadata page.
    pub fn write_checkpoint_lsn(&mut self, lsn: u64)
        requires
            old(self).wf(),
        ensures
            final(self).wf(),
            final(self)@ == old(self)@.update(
                0,
                old(self)@[0].subrange(0, 12) + le_u64(lsn) + old(self)@[0].subrange(
                    20,
                    PAGE_SIZE as int,
                ),
            ),
    {
        let mut meta = self.read_page(0);
        meta.set_u64_le(META_CHECKPOINT_LSN_OFFSET, lsn);
        self.write_page(0, &meta);
    }
}

impl View for Pager {
    type V = Seq<Seq<u8>>;

    /// The bytes of every page, in id order.
    closed spec fn view(&self) -> Seq<Seq<u8>> {
        self.pages@.map_values(|p: Page| p.data@)
    }
}

} // verus!
