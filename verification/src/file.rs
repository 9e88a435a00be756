//! Pages of a file: the images on disk, the pages in memory, and the pages that
//! a writer changed and has not published yet.
//!
//! The images are what was read from disk when the file was opened, and what
//! was handed out to be written since.

use crate::crypto::Cipher;
use crate::error::{corruption, owned, BoogyError, Result};
use crate::page;
use crate::page::{Page, CHECKSUM_OFFSET, PAGE_SIZE, SEALED_END};
use std::collections::HashMap;
use vstd::prelude::*;

verus! {

broadcast use vstd::std_specs::hash::group_hash_axioms;

/// A set of pages, in the order in which they came in.
pub struct PageSet {
    map: HashMap<u32, Page>,
    order: Vec<u32>,
}

impl View for PageSet {
    type V = Map<u32, Seq<u8>>;

    closed spec fn view(&self) -> Map<u32, Seq<u8>> {
        self.map@.map_values(|p: Page| p.data@)
    }
}

impl PageSet {
    /// The page numbers, each once, in the order in which they came in.
    pub closed spec fn numbers(&self) -> Seq<u32> {
        self.order@
    }

    /// The list of numbers holds exactly the pages that are there.
    pub open spec fn wf(&self) -> bool {
        &&& forall|p: u32| #[trigger] self@.contains_key(p) <==> self.numbers().contains(p)
        &&& self.numbers().no_duplicates()
    }

    /// No pages.
    pub fn new() -> (s: PageSet)
        ensures
            s.wf(),
            s@ == Map::<u32, Seq<u8>>::empty(),
            s.numbers().len() == 0,
    {
        let s = PageSet { map: HashMap::new(), order: Vec::new() };
        assert(s@ =~= Map::<u32, Seq<u8>>::empty());
        s
    }

    /// The page with the given number.
    pub fn get(&self, page_no: u32) -> (r: Option<&Page>)
        ensures
            r matches Some(p) ==> self@.contains_key(page_no) && p.data@ == self@[page_no],
            r is None ==> !self@.contains_key(page_no),
    {
        self.map.get(&page_no)
    }

    /// Puts a page in, in place of one with the same number.
    pub fn put(&mut self, page_no: u32, page: Page)
        requires
            old(self).wf(),
        ensures
            final(self).wf(),
            final(self)@ == old(self)@.insert(page_no, page.data@),
            final(self).numbers() == if old(self)@.contains_key(page_no) {
                old(self).numbers()
            } else {
                old(self).numbers().push(page_no)
            },
    {
        let known: bool = self.map.contains_key(&page_no);
        self.map.insert(page_no, page);
        assert(self@ =~= old(self)@.insert(page_no, page.data@));
        assert(known == old(self)@.contains_key(page_no));
        if !known {
            let ghost before = self.order@;
            self.order.push(page_no);
            proof {
                assert forall|p: u32| self.numbers().contains(p) <==> (before.contains(p) || p
                    == page_no) by {
                    if before.contains(p) {
                        let i = choose|i: int| 0 <= i < before.len() && before[i] == p;
                        assert(self.order@[i] == p);
                    }
                    if p == page_no {
                        assert(self.order@[before.len() as int] == p);
                    }
                    if self.order@.contains(p) {
                        let i = choose|i: int| 0 <= i < self.order@.len() && self.order@[i] == p;
                        if i < before.len() {
                            assert(before[i] == p);
                        }
                    }
                }
            }
        }
        assert forall|p: u32| #[trigger] self@.contains_key(p) <==> self.numbers().contains(p) by {
            assert(old(self)@.contains_key(p) <==> old(self).numbers().contains(p));
        }
    }

    /// A copy of the pages.
    pub fn duplicate(&self) -> (s: PageSet)
        requires
            self.wf(),
        ensures
            s.wf(),
            s@ == self@,
    {
        let mut s = PageSet::new();
        let mut i: usize = 0;
        while i < self.order.len()
            invariant
                i <= self.order@.len(),
                self.wf(),
                self.numbers() == self.order@,
                s.wf(),
                forall|p: u32| #[trigger]
                    s@.contains_key(p) <==> self.order@.take(i as int).contains(p),
                forall|p: u32| #[trigger] s@.contains_key(p) ==> s@[p] == self@[p],
            decreases self.order@.len() - i,
        {
            let n: u32 = self.order[i];
            assert(self.numbers().contains(n)) by {
                assert(self.order@[i as int] == n);
            }
            assert(self.order@.take(i + 1) =~= self.order@.take(i as int).push(n));
            match self.get(n) {
                Some(p) => {
                    s.put(n, p.duplicate());
                },
                None => {},
            }
            proof {
                let a = self.order@.take(i as int);
                let b = self.order@.take(i + 1);
                assert forall|p: u32| #[trigger] b.contains(p) <==> a.contains(p) || p == n by {
                    if a.contains(p) {
                        let j = choose|j: int| 0 <= j < a.len() && a[j] == p;
                        assert(b[j] == p);
                    }
                    assert(b[i as int] == n);
                    if b.contains(p) && p != n {
                        let j = choose|j: int| 0 <= j < b.len() && b[j] == p;
                        assert(a[j] == p);
                    }
                }
            }
            i += 1;
        }
        assert(self.order@.take(i as int) =~= self.order@);
        assert(s@ =~= self@) by {
            assert forall|p: u32| #[trigger] s@.contains_key(p) <==> self@.contains_key(p) by {
                assert(self@.contains_key(p) <==> self.numbers().contains(p));
            }
        }
        s
    }

    /// How many pages there are.
    pub fn len(&self) -> (n: usize)
        ensures
            n == self.numbers().len(),
    {
        self.order.len()
    }

    /// The number of the `i`-th page.
    pub fn number(&self, i: usize) -> (p: u32)
        requires
            i < self.numbers().len(),
        ensures
            p == self.numbers()[i as int],
    {
        self.order[i]
    }
}

/// The pages that a writer changed, and how many of them are new.
pub struct WriteState {
    dirty: PageSet,
    new_page_count: u32,
}

/// A page file. A writer works on the pages of [`PageFile::write_state`], which
/// readers do not see.
pub struct PageFile {
    disk: Vec<[u8; PAGE_SIZE]>,
    num_pages: u32,
    pages: Vec<Option<Page>>,
    write_state: WriteState,
    /// Pages in this map are encrypted before they are written to disk.
    page_ciphers: HashMap<u32, Cipher>,
}

/// Exclusive write access to a page file.
///
/// Reads see the changed pages first, then the published ones. On
/// [`commit`](WriteGuard::commit) the changed pages are published, on
/// [`discard`](WriteGuard::discard) they are thrown away.
pub struct WriteGuard {
    file: PageFile,
    sealed: bool,
}

/// Pages that could be encrypted without a loss still can, and so can new ones.
pub open spec fn keeps_trim(m: Map<u32, Seq<u8>>, m2: Map<u32, Seq<u8>>) -> bool {
    forall|p: u32| #[trigger]
        m2.contains_key(p) && (m.contains_key(p) ==> page::trimmed(m[p])) ==> page::trimmed(m2[p])
}

/// A writer keeps pages that are to be encrypted trimmed.
pub open spec fn trim_kept(g: WriteGuard, g2: WriteGuard) -> bool {
    &&& g2.sealed() == g.sealed()
    &&& g.sealed() ==> keeps_trim(g.pages(), g2.pages())
}

/// The image is that of a valid page.
pub open spec fn valid_image(s: Seq<u8>) -> bool {
    page::magic_of(s) == page::MAGIC && page::checksum_ok(s)
}

/// Images and keys stay.
pub open spec fn grounded(a: PageFile, b: PageFile) -> bool {
    &&& b.images() == a.images()
    &&& b.keys() == a.keys()
}

/// All pages are valid.
#[verifier::opaque]
pub open spec fn tidy(m: Map<u32, Seq<u8>>) -> bool {
    forall|p: u32| #[trigger] m.contains_key(p) ==> valid_image(m[p])
}

/// What [`tidy`] says of one page.
pub proof fn tidy_page(m: Map<u32, Seq<u8>>, p: u32)
    ensures
        tidy(m) && m.contains_key(p) ==> valid_image(m[p]),
{
    reveal(tidy);
}

/// Pages stay valid when a valid one is put among them.
pub proof fn tidy_put(m: Map<u32, Seq<u8>>, p: u32, s: Seq<u8>)
    ensures
        tidy(m) && valid_image(s) ==> tidy(m.insert(p, s)),
{
    reveal(tidy);
}

/// Pages stay valid when a new page is filled, and another one changed meanwhile.
pub proof fn tidy_pair(m: Map<u32, Seq<u8>>, q: u32, blank: Seq<u8>, p: u32, a: Seq<u8>, b: Seq<u8>)
    ensures
        tidy(m) && valid_image(b) ==> tidy(m.insert(q, blank).insert(q, b)),
        tidy(m) && valid_image(a) && valid_image(b) ==> tidy(
            m.insert(q, blank).insert(p, a).insert(q, b),
        ),
        tidy(m) && valid_image(a) && valid_image(b) ==> tidy(
            m.insert(p, a).insert(q, blank).insert(q, b),
        ),
{
    reveal(tidy);
}

impl PageFile {
    /// The published page `p`, if it can be read.
    spec fn published(&self, p: u32) -> Option<Seq<u8>> {
        if p >= self.num_pages {
            None
        } else if p < self.pages@.len() && self.pages@[p as int] is Some {
            Some(self.pages@[p as int]->0.data@)
        } else if p < self.disk@.len() && valid_image(self.disk@[p as int]@) {
            Some(self.disk@[p as int]@)
        } else {
            None
        }
    }

    /// The published pages that can be read.
    pub closed spec fn contents(&self) -> Map<u32, Seq<u8>> {
        Map::new(|p: u32| self.published(p) is Some, |p: u32| self.published(p)->0)
    }

    /// The images on disk.
    pub closed spec fn images(&self) -> Seq<Seq<u8>> {
        self.disk@.map_values(|a: [u8; PAGE_SIZE]| a@)
    }

    /// Whether page `p` is held in memory.
    pub closed spec fn holds(&self, p: u32) -> bool {
        p < self.pages@.len() && self.pages@[p as int] is Some
    }

    /// The page that memory holds under `p`.
    pub closed spec fn held(&self, p: u32) -> Seq<u8> {
        self.pages@[p as int]->0.data@
    }

    /// The number of published pages.
    pub closed spec fn count(&self) -> u32 {
        self.num_pages
    }

    /// The pages that a writer changed.
    pub closed spec fn changed(&self) -> Map<u32, Seq<u8>> {
        self.write_state.dirty@
    }

    /// The order in which a writer changed pages.
    pub closed spec fn changed_order(&self) -> Seq<u32> {
        self.write_state.dirty.numbers()
    }

    /// The number of pages that a writer added.
    pub closed spec fn added(&self) -> u32 {
        self.write_state.new_page_count
    }

    /// The keys of the pages that are encrypted.
    pub closed spec fn keys(&self) -> Map<u32, Seq<u8>> {
        self.page_ciphers@.map_values(|c: Cipher| c.secret())
    }

    /// The key under which page `p` is encrypted.
    pub open spec fn key_of(&self, p: u32) -> Option<Seq<u8>> {
        if self.keys().contains_key(p) {
            Some(self.keys()[p])
        } else {
            None
        }
    }

    /// A published page that memory holds is that page.
    pub proof fn held_published(&self)
        ensures
            forall|p: u32| #[trigger]
                self.holds(p) && p < self.count() ==> self.contents().contains_key(p)
                    && self.contents()[p] == self.held(p),
    {
    }

    /// Published pages have numbers below the page count.
    pub proof fn contents_bounded(&self)
        ensures
            forall|p: u32| #[trigger] self.contents().contains_key(p) ==> p < self.count(),
    {
    }

    /// There are no more images than pages.
    pub proof fn images_bounded(&self)
        requires
            self.wf(),
        ensures
            self.images().len() <= self.count(),
    {
    }

    /// What memory does not hold is read from its image, if that is valid.
    pub proof fn contents_read(&self)
        requires
            self.wf(),
        ensures
            forall|p: u32| #[trigger] self.holds(p) ==> self.contents().contains_key(p),
            forall|p: u32|
                !(#[trigger] self.holds(p)) ==> (self.contents().contains_key(p) <==> p
                    < self.images().len() && valid_image(self.images()[p as int])),
    {
    }

    /// Memory and images reach no further than the page count.
    pub closed spec fn sane(&self) -> bool {
        &&& self.write_state.dirty.wf()
        &&& self.pages@.len() <= self.num_pages
        &&& self.disk@.len() <= self.num_pages
    }

    /// Every changed page was published or added before, and the page numbers
    /// suffice.
    pub open spec fn bounded(&self) -> bool {
        &&& self.count() + self.added() <= u32::MAX
        &&& forall|p: u32| #[trigger]
            self.changed().contains_key(p) ==> p < self.count() + self.added()
    }

    /// The bookkeeping is consistent.
    pub open spec fn wf(&self) -> bool {
        self.sane() && self.bounded()
    }

    /// A file with the given images, none of which is in memory yet.
    pub fn open(images: Vec<[u8; PAGE_SIZE]>) -> (f: PageFile)
        requires
            images@.len() <= u32::MAX,
        ensures
            f.wf(),
            f.count() == images@.len(),
            f.added() == 0,
            f.changed() == Map::<u32, Seq<u8>>::empty(),
            f.images() == images@.map_values(|a: [u8; PAGE_SIZE]| a@),
            forall|p: u32| !#[trigger] f.holds(p),
            f.keys() == Map::<u32, Seq<u8>>::empty(),
            forall|p: u32| #[trigger]
                f.contents().contains_key(p) <==> p < images@.len() && valid_image(
                    images@[p as int]@,
                ),
            forall|p: u32|
                f.contents().contains_key(p) ==> #[trigger] f.contents()[p] == images@[p as int]@,
    {
        let num_pages: u32 = images.len() as u32;
        let f = PageFile {
            disk: images,
            num_pages,
            pages: Vec::new(),
            write_state: WriteState { dirty: PageSet::new(), new_page_count: 0 },
            page_ciphers: HashMap::new(),
        };
        assert(f.keys() =~= Map::<u32, Seq<u8>>::empty());
        f
    }

    /// The number of pages of the file.
    pub fn page_count(&self) -> (n: u32)
        ensures
            n == self.count(),
    {
        self.num_pages
    }

    /// Reads a published page: from memory, or from its image, which has to be
    /// valid.
    pub fn read_page(&self, page_no: u32) -> (r: Result<Page>)
        ensures
            r is Ok <==> self.contents().contains_key(page_no),
            r matches Ok(p) ==> p.data@ == self.contents()[page_no],
            r matches Err(e) ==> e is Corruption || e is Io,
            page_no >= self.count() ==> (r matches Err(e) && e is Corruption),
    {
        if page_no >= self.num_pages {
            return Err(corruption("page out of range"));
        }
        let i: usize = page_no as usize;
        if i < self.pages.len() {
            if let Some(p) = &self.pages[i] {
                return Ok(p.duplicate());
            }
        }
        if i >= self.disk.len() {
            return Err(BoogyError::Io(owned("failed to fill whole buffer")));
        }
        Page::from_bytes(self.disk[i])
    }

    /// Takes the file for writing.
    pub fn begin_write(self) -> (g: WriteGuard)
        ensures
            g.inner() == self,
            !g.sealed(),
    {
        WriteGuard { file: self, sealed: false }
    }

    /// Grows the list of pages in memory so that it has a place for `i`.
    fn reserve(&mut self, i: usize)
        requires
            old(self).wf(),
            i < old(self).num_pages,
        ensures
            final(self).wf(),
            i < final(self).pages@.len(),
            final(self).disk == old(self).disk,
            final(self).num_pages == old(self).num_pages,
            final(self).write_state == old(self).write_state,
            final(self).page_ciphers == old(self).page_ciphers,
            old(self).pages@.len() <= final(self).pages@.len(),
            forall|j: int|
                0 <= j < old(self).pages@.len() ==> final(self).pages@[j] == old(self).pages@[j],
            forall|j: int|
                old(self).pages@.len() <= j < final(self).pages@.len()
                    ==> final(self).pages@[j] is None,
    {
        while self.pages.len() <= i
            invariant
                i < old(self).num_pages,
                self.sane(),
                self.disk == old(self).disk,
                self.num_pages == old(self).num_pages,
                self.write_state == old(self).write_state,
                self.page_ciphers == old(self).page_ciphers,
                old(self).pages@.len() <= self.pages@.len(),
                forall|j: int|
                    0 <= j < old(self).pages@.len() ==> self.pages@[j] == old(self).pages@[j],
                forall|j: int|
                    old(self).pages@.len() <= j < self.pages@.len() ==> self.pages@[j] is None,
            decreases i + 1 - self.pages@.len(),
        {
            self.pages.push(None);
        }
        assert(self.changed() == old(self).changed());
    }

    /// Puts a plaintext page into memory.
    pub fn put_cached_page(&mut self, page_no: u32, page: Page)
        requires
            old(self).wf(),
            page_no < old(self).count(),
        ensures
            final(self).wf(),
            final(self).count() == old(self).count(),
            final(self).added() == old(self).added(),
            final(self).changed() == old(self).changed(),
            final(self).images() == old(self).images(),
            forall|p: u32| #[trigger] final(self).key_of(p) == old(self).key_of(p),
            final(self).keys() == old(self).keys(),
            final(self).contents() == old(self).contents().insert(page_no, page.data@),
            forall|p: u32| #[trigger]
                final(self).holds(p) <==> (old(self).holds(p) || p == page_no),
            final(self).held(page_no) == page.data@,
    {
        let ghost data = page.data@;
        self.reserve(page_no as usize);
        self.pages.set(page_no as usize, Some(page));
        assert(self.changed() == old(self).changed());
        assert(self.contents() =~= old(self).contents().insert(page_no, data));
    }

    /// Whether a page is in memory.
    pub fn is_cached(&self, page_no: u32) -> (r: bool)
        ensures
            r == self.holds(page_no),
    {
        let i: usize = page_no as usize;
        i < self.pages.len() && self.pages[i].is_some()
    }

    /// The image of a page, as it is on disk.
    pub fn read_page_raw(&self, page_no: u32) -> (r: Result<[u8; PAGE_SIZE]>)
        ensures
            r is Ok <==> page_no < self.images().len(),
            r matches Ok(a) ==> a@ == self.images()[page_no as int],
            r matches Err(e) ==> e is Io,
    {
        let i: usize = page_no as usize;
        if i < self.disk.len() {
            Ok(self.disk[i])
        } else {
            Err(BoogyError::Io(owned("failed to fill whole buffer")))
        }
    }

    /// Writes an image; the bytes between the end of the file and it are zero.
    fn write_image(&mut self, page_no: u32, image: [u8; PAGE_SIZE])
        requires
            old(self).wf(),
            page_no < old(self).num_pages,
        ensures
            final(self).wf(),
            final(self).num_pages == old(self).num_pages,
            final(self).pages == old(self).pages,
            final(self).write_state == old(self).write_state,
            final(self).page_ciphers == old(self).page_ciphers,
            final(self).disk@.len() == if page_no < old(self).disk@.len() {
                old(self).disk@.len() as int
            } else {
                page_no + 1
            },
            final(self).disk@[page_no as int]@ == image@,
            forall|j: int|
                0 <= j < old(self).disk@.len() && j != page_no ==> final(self).disk@[j]
                    == old(self).disk@[j],
            forall|j: int|
                old(self).disk@.len() <= j < page_no ==> (#[trigger] final(self).disk@[j])@
                    == Seq::new(4096, |k: int| 0u8),
    {
        let i: usize = page_no as usize;
        let ghost start = self.disk@.len() as int;
        while self.disk.len() <= i
            invariant
                i < self.num_pages,
                self.sane(),
                start == old(self).disk@.len(),
                self.num_pages == old(self).num_pages,
                self.pages == old(self).pages,
                self.write_state == old(self).write_state,
                self.page_ciphers == old(self).page_ciphers,
                start <= self.disk@.len(),
                self.disk@.len() == start || self.disk@.len() <= i + 1,
                forall|j: int| 0 <= j < start ==> self.disk@[j] == old(self).disk@[j],
                forall|j: int|
                    start <= j < self.disk@.len() ==> (#[trigger] self.disk@[j])@ == Seq::new(
                        4096,
                        |k: int| 0u8,
                    ),
            decreases i + 1 - self.disk@.len(),
        {
            let zero: [u8; PAGE_SIZE] = [0; PAGE_SIZE];
            assert(zero@ =~= Seq::new(4096, |k: int| 0u8));
            self.disk.push(zero);
        }
        self.disk.set(i, image);
        assert(self.changed() == old(self).changed());
    }

    /// Writes a page to memory and to its image, and counts it in. For recovery.
    pub fn put_page_direct(&mut self, page_no: u32, page: Page)
        requires
            old(self).wf(),
            page_no < 0xFFFF_FFFF,
            old(self).added() == 0,
            old(self).changed() == Map::<u32, Seq<u8>>::empty(),
        ensures
            final(self).wf(),
            final(self).count() == if page_no < old(self).count() {
                old(self).count() as int
            } else {
                page_no + 1
            },
            final(self).added() == 0,
            final(self).changed() == old(self).changed(),
            page_no < final(self).images().len(),
            final(self).images()[page_no as int] == page.data@,
            final(self).holds(page_no),
            final(self).contents().contains_key(page_no),
            final(self).contents()[page_no] == page.data@,
            forall|p: u32|
                p < old(self).count() && p != page_no ==> (
                #[trigger] final(self).contents().contains_key(p)) == old(
                    self).contents().contains_key(p),
            forall|p: u32|
                p < old(self).count() && p != page_no && old(self).contents().contains_key(p)
                    ==> #[trigger] final(self).contents()[p] == old(self).contents()[p],
    {
        let ghost data = page.data@;
        if page_no >= self.num_pages {
            self.num_pages = page_no + 1;
        }
        assert(self.write_state.dirty@ =~= Map::<u32, Seq<u8>>::empty());
        let ghost counted = *self;
        self.write_image(page_no, page.data);
        let ghost written = *self;
        assert forall|p: u32| p < old(self).count() && p != page_no implies #[trigger] self.published(
            p,
        ) == old(self).published(p) by {
            if p < old(self).disk@.len() {
                assert(self.disk@[p as int] == old(self).disk@[p as int]);
            } else if p < self.disk@.len() {
                assert(self.disk@[p as int]@[0] == 0 && self.disk@[p as int]@[1] == 0);
            }
        }
        self.reserve(page_no as usize);
        self.pages.set(page_no as usize, Some(page));
        assert forall|p: u32| p < old(self).count() && p != page_no implies #[trigger] self.published(
            p,
        ) == old(self).published(p) by {
            assert(written.published(p) == old(self).published(p));
        }
        assert forall|p: u32| p < old(self).count() && p != page_no implies (
        #[trigger] self.contents().contains_key(p) == old(self).contents().contains_key(p)) by {
            assert(self.published(p) == old(self).published(p));
        }
        assert forall|p: u32|
            p < old(self).count() && p != page_no && old(self).contents().contains_key(
                p,
            ) implies #[trigger] self.contents()[p] == old(self).contents()[p] by {
            assert(self.published(p) == old(self).published(p));
        }
        assert(self.published(page_no) == Some(data));
    }

    /// Has a page encrypted under the given cipher before it goes to disk.
    pub fn register_page_cipher(&mut self, page_no: u32, cipher: Cipher)
        ensures
            old(self).wf() ==> final(self).wf(),
            final(self).count() == old(self).count(),
            final(self).added() == old(self).added(),
            final(self).changed() == old(self).changed(),
            final(self).contents() == old(self).contents(),
            final(self).images() == old(self).images(),
            forall|p: u32| #[trigger]
                final(self).key_of(p) == if p == page_no {
                    Some(cipher.secret())
                } else {
                    old(self).key_of(p)
                },
            forall|p: u32| #[trigger] final(self).holds(p) == old(self).holds(p),
    {
        self.page_ciphers.insert(page_no, cipher);
        assert(self.changed() == old(self).changed());
        assert(self.contents() =~= old(self).contents());
    }
}

/// What goes to disk for a page: the page, or an encryption of its payload.
pub open spec fn stored_as(key: Option<Seq<u8>>, data: Seq<u8>, image: Seq<u8>) -> bool {
    match key {
        None => image == data,
        Some(k) => crate::crypto::opened(k, image) == Some(data.subrange(0, 4068)),
    }
}

impl PageFile {
    /// Takes every page in memory over into the images, encrypted where a cipher
    /// is registered, and returns what is to be written to disk.
    pub fn sync_all(&mut self) -> (r: Result<Vec<(u32, [u8; PAGE_SIZE])>>)
        requires
            old(self).wf(),
        ensures
            final(self).wf(),
            final(self).count() == old(self).count(),
            final(self).added() == old(self).added(),
            final(self).changed() == old(self).changed(),
            forall|p: u32| #[trigger] final(self).holds(p) == old(self).holds(p),
            forall|p: u32| #[trigger] final(self).key_of(p) == old(self).key_of(p),
            final(self).keys() == old(self).keys(),
            r is Ok,
            r matches Ok(w) ==> {
                &&& forall|i: int|
                    0 <= i < w@.len() ==> {
                        let p = (#[trigger] w@[i]).0;
                        &&& old(self).holds(p)
                        &&& p < final(self).images().len()
                        &&& final(self).images()[p as int] == w@[i].1@
                        &&& stored_as(old(self).key_of(p), old(self).held(p), w@[i].1@)
                    }
                &&& forall|p: u32| #[trigger]
                    old(self).holds(p) ==> exists|i: int| 0 <= i < w@.len() && (#[trigger] w@[i]).0 == p
            },
            final(self).contents() == old(self).contents(),
            forall|p: u32| #[trigger]
                old(self).contents().contains_key(p) && old(self).key_of(p) is None ==> p
                    < final(self).images().len() && final(self).images()[p as int] == old(
                    self).contents()[p],
    {
        let mut out: Vec<(u32, [u8; PAGE_SIZE])> = Vec::new();
        let n: usize = self.pages.len();
        let mut i: usize = 0;
        while i < n
            invariant
                i <= n == self.pages@.len(),
                self.wf(),
                old(self).sane(),
                self.num_pages == old(self).num_pages,
                self.pages == old(self).pages,
                self.write_state == old(self).write_state,
                self.page_ciphers == old(self).page_ciphers,
                forall|k: int|
                    0 <= k < out@.len() ==> {
                        let p = (#[trigger] out@[k]).0;
                        &&& p < i
                        &&& old(self).holds(p)
                        &&& p < self.disk@.len()
                        &&& self.disk@[p as int]@ == out@[k].1@
                        &&& stored_as(old(self).key_of(p), old(self).held(p), out@[k].1@)
                    },
                forall|p: u32| #[trigger]
                    old(self).holds(p) && p < i ==> exists|k: int|
                        0 <= k < out@.len() && (#[trigger] out@[k]).0 == p,
                self.disk@.len() >= old(self).disk@.len(),
                forall|j: int|
                    0 <= j < old(self).disk@.len() && !(j < n && self.pages@[j] is Some)
                        ==> self.disk@[j] == old(self).disk@[j],
                forall|j: int|
                    old(self).disk@.len() <= j < self.disk@.len() && !(j < n && self.pages@[j] is Some)
                        ==> (#[trigger] self.disk@[j])@ == Seq::new(4096, |k: int| 0u8),
            decreases n - i,
        {
            let page_no: u32 = i as u32;
            let ghost before = out@;
            if let Some(p) = &self.pages[i] {
                let image: [u8; PAGE_SIZE] = match self.page_ciphers.get(&page_no) {
                    None => p.data,
                    Some(c) => match c.encrypt_page(&p.data[0..4068]) {
                        Ok(image) => image,
                        Err(e) => {
                            return Err(e);
                        },
                    },
                };
                assert(stored_as(old(self).key_of(page_no), old(self).held(page_no), image@));
                self.write_image(page_no, image);
                out.push((page_no, image));
                assert(out@[before.len() as int].0 == page_no);
            }
            proof {
                assert forall|p: u32| #[trigger] old(self).holds(p) && p < i + 1 implies exists|k: int|
                    0 <= k < out@.len() && (#[trigger] out@[k]).0 == p by {
                    if p < i {
                        let k = choose|k: int| 0 <= k < before.len() && (#[trigger] before[k]).0 == p;
                        assert(out@[k] == before[k]);
                    }
                }
            }
            i += 1;
        }
        assert(self.changed() == old(self).changed());
        proof {
            assert forall|p: u32| #[trigger]
                old(self).contents().contains_key(p) && old(self).key_of(p) is None implies p
                < self.images().len() && self.images()[p as int] == old(self).contents()[p] by {
                if old(self).holds(p) {
                    let k = choose|k: int| 0 <= k < out@.len() && (#[trigger] out@[k]).0 == p;
                    assert(out@[k].0 == p);
                }
            }
            assert forall|p: u32| #[trigger] self.published(p) == old(self).published(p) by {
                if p < self.num_pages && !old(self).holds(p) && p < self.disk@.len() && p
                    >= old(self).disk@.len() {
                    blank_invalid(self.disk@[p as int]@);
                }
            }
            assert(self.contents() =~= old(self).contents());
        }
        Ok(out)
    }
}

/// An image that was never written is no page.
proof fn blank_invalid(s: Seq<u8>)
    requires
        s == Seq::new(4096, |k: int| 0u8),
    ensures
        !valid_image(s),
{
    assert(s[0] == 0 && s[1] == 0);
}

proof fn commit_page(before: PageFile, file: PageFile, grown: Seq<Option<Page>>, order: Seq<u32>, p: u32)
    requires
        before.wf(),
        order == before.write_state.dirty.numbers(),
        file.disk == before.disk,
        file.num_pages == before.num_pages + before.write_state.new_page_count,
        file.pages@.len() == grown.len() == file.num_pages,
        forall|j: int| 0 <= j < before.pages@.len() ==> grown[j] == before.pages@[j],
        forall|j: int| before.pages@.len() <= j < grown.len() ==> grown[j] is None,
        forall|j: int|
            0 <= j < order.len() ==> (#[trigger] file.pages@[order[j] as int]) is Some
                && file.pages@[order[j] as int]->0.data@ == before.changed()[order[j]],
        forall|q: int|
            0 <= q < grown.len() && (forall|j: int|
                0 <= j < order.len() ==> (#[trigger] order[j]) != q) ==> #[trigger] file.pages@[q]
                == grown[q],
    ensures
        ({
            let pages = before.contents().union_prefer_right(before.changed());
            &&& file.contents().contains_key(p) == pages.contains_key(p)
            &&& pages.contains_key(p) ==> file.contents()[p] == pages[p]
        }),
{
    if before.changed().contains_key(p) {
        assert(order.contains(p));
        let j = choose|j: int| 0 <= j < order.len() && order[j] == p;
        assert(file.pages@[order[j] as int] is Some);
    } else {
        assert forall|j: int| 0 <= j < order.len() implies (#[trigger] order[j]) != p by {
            if order[j] == p {
                assert(order.contains(p));
            }
        }
        if p < file.num_pages {
            assert(file.pages@[p as int] == grown[p as int]);
        }
        assert(file.published(p) == before.published(p));
    }
}

impl WriteGuard {
    /// The file that the guard has taken.
    pub closed spec fn inner(&self) -> PageFile {
        self.file
    }

    /// The bookkeeping is consistent.
    pub open spec fn wf(&self) -> bool {
        self.inner().wf()
    }

    /// Whether the pages that are written are to be encrypted.
    pub closed spec fn sealed(&self) -> bool {
        self.sealed
    }

    /// Where the contents of the pages that are written have to end.
    pub open spec fn cap(&self) -> int {
        if self.sealed() {
            4068
        } else {
            4092
        }
    }

    /// Sets whether the pages that are written are to be encrypted.
    pub fn set_sealed(&mut self, sealed: bool)
        ensures
            final(self).inner() == old(self).inner(),
            final(self).sealed() == sealed,
    {
        self.sealed = sealed;
    }

    /// Where the contents of the pages that are written have to end.
    pub fn page_end(&self) -> (n: usize)
        ensures
            n == self.cap(),
    {
        if self.sealed {
            SEALED_END
        } else {
            CHECKSUM_OFFSET
        }
    }

    /// The pages that the writer sees: changed ones first, then published ones.
    pub open spec fn pages(&self) -> Map<u32, Seq<u8>> {
        self.inner().contents().union_prefer_right(self.inner().changed())
    }

    /// The number of pages, counting those that the writer added.
    pub open spec fn total(&self) -> int {
        self.inner().count() + self.inner().added()
    }

    /// The pages that the writer sees have numbers below the total.
    pub proof fn pages_bounded(&self)
        requires
            self.wf(),
        ensures
            forall|p: u32| #[trigger] self.pages().contains_key(p) ==> p < self.total(),
    {
        self.file.contents_bounded();
    }

    /// Reads a page as the writer sees it.
    pub fn read_page(&self, page_no: u32) -> (r: Result<Page>)
        ensures
            r is Ok <==> self.pages().contains_key(page_no),
            r matches Ok(p) ==> p.data@ == self.pages()[page_no],
            r matches Err(e) ==> e is Corruption || e is Io,
    {
        if let Some(p) = self.file.write_state.dirty.get(page_no) {
            return Ok(p.duplicate());
        }
        self.file.read_page(page_no)
    }

    /// Reads a page as the writer sees it.
    pub fn read_page_cloned(&self, page_no: u32) -> (r: Result<Page>)
        ensures
            r is Ok <==> self.pages().contains_key(page_no),
            r matches Ok(p) ==> p.data@ == self.pages()[page_no],
            r matches Err(e) ==> e is Corruption || e is Io,
    {
        self.read_page(page_no)
    }

    /// A page that the writer changed, by reference.
    pub fn peek_dirty(&self, page_no: u32) -> (r: Option<&Page>)
        ensures
            r matches Some(p) ==> self.inner().changed().contains_key(page_no) && p.data@
                == self.inner().changed()[page_no],
            r is None ==> !self.inner().changed().contains_key(page_no),
    {
        self.file.write_state.dirty.get(page_no)
    }

    /// Counts a page among the changed ones and returns it, to be changed and
    /// put back.
    pub fn write_page(&mut self, page_no: u32) -> (r: Result<Page>)
        requires
            old(self).wf(),
        ensures
            final(self).wf(),
            final(self).pages() == old(self).pages(),
            final(self).total() == old(self).total(),
            final(self).inner().contents() == old(self).inner().contents(),
            grounded(old(self).inner(), final(self).inner()),
            final(self).inner().count() == old(self).inner().count(),
            final(self).inner().added() == old(self).inner().added(),
            final(self).sealed() == old(self).sealed(),
            r is Ok <==> old(self).pages().contains_key(page_no),
            r matches Ok(p) ==> p.data@ == old(self).pages()[page_no]
                && final(self).inner().changed() == old(self).inner().changed().insert(
                page_no,
                p.data@,
            ),
            r matches Err(e) ==> e is Corruption || e is Io,
    {
        match self.read_page(page_no) {
            Err(e) => Err(e),
            Ok(p) => {
                proof {
                    self.pages_bounded();
                }
                self.put_page(page_no, p.duplicate());
                assert(self.pages() =~= old(self).pages());
                Ok(p)
            },
        }
    }

    /// Adds a page of zeroes behind the last page. Fails when the page numbers
    /// are used up.
    pub fn allocate_page(&mut self) -> (r: Result<u32>)
        requires
            old(self).wf(),
        ensures
            final(self).wf(),
            r is Ok <==> old(self).total() < u32::MAX,
            r matches Ok(p) ==> {
                &&& p == old(self).total()
                &&& !old(self).pages().contains_key(p)
                &&& final(self).total() == old(self).total() + 1
                &&& final(self).inner().contents() == old(self).inner().contents()
                &&& grounded(old(self).inner(), final(self).inner())
                &&& final(self).inner().count() == old(self).inner().count()
                &&& final(self).sealed() == old(self).sealed()
                &&& final(self).inner().changed() == old(self).inner().changed().insert(
                    p,
                    Seq::new(4096, |i: int| 0u8),
                )
                &&& final(self).pages() == old(self).pages().insert(
                    p,
                    Seq::new(4096, |i: int| 0u8),
                )
            },
            r matches Err(e) ==> e is Corruption && *final(self) == *old(self),
    {
        proof {
            self.pages_bounded();
        }
        let base: u32 = self.file.num_pages;
        let added: u32 = self.file.write_state.new_page_count;
        if base as u64 + added as u64 >= 0xFFFF_FFFF {
            return Err(corruption("page numbers exhausted"));
        }
        let page_no: u32 = base + added;
        self.file.write_state.new_page_count = added + 1;
        self.file.write_state.dirty.put(page_no, Page::default());
        assert(self.file.contents() =~= old(self).file.contents());
        assert(self.pages() =~= old(self).pages().insert(page_no, Seq::new(4096, |i: int| 0u8)));
        Ok(page_no)
    }

    /// Overwrites a page.
    pub fn put_page(&mut self, page_no: u32, page: Page)
        requires
            old(self).wf(),
            page_no < old(self).total(),
        ensures
            final(self).wf(),
            final(self).total() == old(self).total(),
            final(self).inner().contents() == old(self).inner().contents(),
            grounded(old(self).inner(), final(self).inner()),
            final(self).inner().count() == old(self).inner().count(),
            final(self).inner().added() == old(self).inner().added(),
            final(self).sealed() == old(self).sealed(),
            final(self).inner().changed() == old(self).inner().changed().insert(
                page_no,
                page.data@,
            ),
            final(self).pages() == old(self).pages().insert(page_no, page.data@),
    {
        let ghost data = page.data@;
        self.file.write_state.dirty.put(page_no, page);
        assert(self.file.contents() =~= old(self).file.contents());
        assert(self.pages() =~= old(self).pages().insert(page_no, data));
    }

    /// Publishes the changed pages and returns them, to be logged.
    pub fn commit(self) -> (r: (PageFile, Vec<(u32, [u8; PAGE_SIZE])>))
        requires
            self.wf(),
        ensures
            r.0.wf(),
            r.0.count() == self.total(),
            r.0.added() == 0,
            r.0.changed() == Map::<u32, Seq<u8>>::empty(),
            r.0.contents() == self.pages(),
            r.0.images() == self.inner().images(),
            forall|p: u32| #[trigger] r.0.key_of(p) == self.inner().key_of(p),
            r.0.keys() == self.inner().keys(),
            r.1@.len() == self.inner().changed_order().len(),
            forall|i: int|
                0 <= i < r.1@.len() ==> (#[trigger] r.1@[i]).0 == self.inner().changed_order()[i]
                    && r.1@[i].1@ == self.inner().changed()[r.1@[i].0],
            forall|p: u32| #[trigger]
                self.inner().changed().contains_key(p) <==> self.inner().changed_order().contains(p),
    {
        let mut file = self.file;
        let mut images: Vec<(u32, [u8; PAGE_SIZE])> = Vec::new();
        let ghost before = file;
        let total: u32 = file.num_pages + file.write_state.new_page_count;
        let n: usize = file.write_state.dirty.len();
        while file.pages.len() < total as usize
            invariant
                before.wf(),
                total == before.num_pages + before.write_state.new_page_count,
                file.disk == before.disk,
                file.num_pages == before.num_pages,
                file.write_state == before.write_state,
                file.page_ciphers == before.page_ciphers,
                before.pages@.len() <= file.pages@.len() <= total,
                forall|j: int|
                    0 <= j < before.pages@.len() ==> file.pages@[j] == before.pages@[j],
                forall|j: int|
                    before.pages@.len() <= j < file.pages@.len() ==> file.pages@[j] is None,
            decreases total - file.pages@.len(),
        {
            file.pages.push(None);
        }
        let ghost grown = file.pages@;
        let ghost order = before.write_state.dirty.numbers();
        let mut i: usize = 0;
        while i < n
            invariant
                before.wf(),
                total == before.num_pages + before.write_state.new_page_count,
                i <= n == order.len(),
                order == before.write_state.dirty.numbers(),
                file.disk == before.disk,
                file.num_pages == before.num_pages,
                file.write_state == before.write_state,
                file.page_ciphers == before.page_ciphers,
                file.pages@.len() == grown.len() == total,
                images@.len() == i,
                forall|j: int|
                    0 <= j < i ==> (#[trigger] images@[j]).0 == order[j] && images@[j].1@
                        == before.changed()[order[j]],
                forall|j: int|
                    0 <= j < i ==> (#[trigger] file.pages@[order[j] as int]) is Some
                        && file.pages@[order[j] as int]->0.data@ == before.changed()[order[j]],
                forall|p: int|
                    0 <= p < total && (forall|j: int| 0 <= j < i ==> (#[trigger] order[j]) != p)
                        ==> #[trigger] file.pages@[p] == grown[p],
            decreases n - i,
        {
            let page_no: u32 = file.write_state.dirty.number(i);
            assert(order.contains(page_no));
            assert(before.changed().contains_key(page_no));
            let ghost held = file.pages@;
            match file.write_state.dirty.get(page_no) {
                Some(p) => {
                    images.push((page_no, p.data));
                    let copy = p.duplicate();
                    file.pages.set(page_no as usize, Some(copy));
                },
                None => {},
            }
            proof {
                assert(order[i as int] == page_no);
                assert forall|j: int| 0 <= j < i + 1 implies (#[trigger] file.pages@[order[j] as int]) is Some
                    && file.pages@[order[j] as int]->0.data@ == before.changed()[order[j]] by {
                    assert(order.contains(order[j]));
                    assert(before.changed().contains_key(order[j]));
                    if j < i {
                        assert(order[j] != order[i as int]);
                        assert(held[order[j] as int] is Some);
                    }
                }
            }
            i += 1;
        }
        file.num_pages = total;
        file.write_state = WriteState { dirty: PageSet::new(), new_page_count: 0 };
        proof {
            assert(file.contents() =~= self.pages()) by {
                assert forall|p: u32| #[trigger]
                    file.contents().contains_key(p) == self.pages().contains_key(p) && (
                    self.pages().contains_key(p) ==> file.contents()[p] == self.pages()[p]) by {
                    commit_page(before, file, grown, order, p);
                }
            }
            assert(file.images() =~= self.inner().images());
        }
        (file, images)
    }

    /// Forgets the changed pages.
    pub fn discard(self) -> (f: PageFile)
        requires
            self.wf(),
        ensures
            f.wf(),
            f.count() == self.inner().count(),
            f.added() == 0,
            f.changed() == Map::<u32, Seq<u8>>::empty(),
            f.contents() == self.inner().contents(),
            f.images() == self.inner().images(),
            forall|p: u32| #[trigger] f.key_of(p) == self.inner().key_of(p),
            f.keys() == self.inner().keys(),
    {
        let mut file = self.file;
        file.write_state = WriteState { dirty: PageSet::new(), new_page_count: 0 };
        assert(file.contents() =~= self.inner().contents());
        file
    }

    /// Gives the file back; the changed pages wait for the next writer.
    pub fn release(self) -> (f: PageFile)
        ensures
            f == self.inner(),
    {
        self.file
    }

    /// The file behind the guard.
    pub fn page_file(&self) -> (f: &PageFile)
        ensures
            *f == self.inner(),
    {
        &self.file
    }

    /// Moves pages from outside into the changed ones. Pages that are there
    /// already are not overwritten.
    pub fn inject_dirty(&mut self, pages: PageSet)
        requires
            old(self).inner().sane(),
            pages.wf(),
        ensures
            final(self).inner().sane(),
            final(self).inner().contents() == old(self).inner().contents(),
            final(self).inner().count() == old(self).inner().count(),
            final(self).inner().added() == old(self).inner().added(),
            final(self).inner().images() == old(self).inner().images(),
            forall|p: u32| #[trigger] final(self).inner().key_of(p) == old(self).inner().key_of(p),
            final(self).inner().keys() == old(self).inner().keys(),
            final(self).inner().changed() == pages@.union_prefer_right(old(self).inner().changed()),
            final(self).sealed() == old(self).sealed(),
    {
        let n: usize = pages.len();
        let mut i: usize = 0;
        let ghost start = *self;
        while i < n
            invariant
                pages.wf(),
                i <= n == pages.numbers().len(),
                self.file.write_state.dirty.wf(),
                self.file.disk == start.file.disk,
                self.file.num_pages == start.file.num_pages,
                self.file.pages == start.file.pages,
                self.file.write_state.new_page_count == start.file.write_state.new_page_count,
                self.file.page_ciphers == start.file.page_ciphers,
                self.sealed == start.sealed,
                forall|p: u32| #[trigger]
                    self.file.changed().contains_key(p) <==> (start.file.changed().contains_key(p)
                        || exists|j: int| 0 <= j < i && #[trigger] pages.numbers()[j] == p),
                forall|p: u32|
                    start.file.changed().contains_key(p) ==> #[trigger] self.file.changed()[p]
                        == start.file.changed()[p],
                forall|p: u32|
                    self.file.changed().contains_key(p) && !start.file.changed().contains_key(p)
                        ==> #[trigger] self.file.changed()[p] == pages@[p],
            decreases n - i,
        {
            let page_no: u32 = pages.number(i);
            assert(pages.numbers().contains(page_no));
            let ghost now = self.file.changed();
            if self.file.write_state.dirty.get(page_no).is_none() {
                match pages.get(page_no) {
                    Some(p) => {
                        let copy = p.duplicate();
                        self.file.write_state.dirty.put(page_no, copy);
                    },
                    None => {},
                }
            }
            proof {
                assert(pages@.contains_key(page_no));
                assert(self.file.changed() == if now.contains_key(page_no) {
                    now
                } else {
                    now.insert(page_no, pages@[page_no])
                });
                assert forall|p: u32| #[trigger]
                    self.file.changed().contains_key(p) <==> (start.file.changed().contains_key(p)
                        || exists|j: int| 0 <= j < i + 1 && #[trigger] pages.numbers()[j] == p) by {
                    if exists|j: int| 0 <= j < i + 1 && #[trigger] pages.numbers()[j] == p {
                        let j = choose|j: int|
                            0 <= j < i + 1 && #[trigger] pages.numbers()[j] == p;
                        if j < i {
                            assert(now.contains_key(p));
                        }
                    }
                    if now.contains_key(p) && !start.file.changed().contains_key(p) {
                        let j = choose|j: int| 0 <= j < i && #[trigger] pages.numbers()[j] == p;
                        assert(pages.numbers()[j] == p);
                    }
                    if p == page_no {
                        assert(pages.numbers()[i as int] == p);
                    }
                }
            }
            i += 1;
        }
        assert(self.file.contents() =~= start.file.contents());
        assert(self.file.changed() =~= pages@.union_prefer_right(start.file.changed())) by {
            assert forall|p: u32| #[trigger] pages@.contains_key(p) implies exists|j: int|
                0 <= j < n && #[trigger] pages.numbers()[j] == p by {
                assert(pages.numbers().contains(p));
            }
        }
    }

    /// Takes the changed pages out.
    pub fn drain_dirty(&mut self) -> (pages: PageSet)
        requires
            old(self).inner().sane(),
        ensures
            pages.wf(),
            pages@ == old(self).inner().changed(),
            final(self).inner().changed() == Map::<u32, Seq<u8>>::empty(),
            final(self).inner().contents() == old(self).inner().contents(),
            final(self).inner().count() == old(self).inner().count(),
            final(self).inner().added() == old(self).inner().added(),
            final(self).inner().images() == old(self).inner().images(),
            forall|p: u32| #[trigger] final(self).inner().key_of(p) == old(self).inner().key_of(p),
            final(self).inner().keys() == old(self).inner().keys(),
            old(self).wf() ==> final(self).wf(),
    {
        let mut pages = PageSet::new();
        std::mem::swap(&mut pages, &mut self.file.write_state.dirty);
        assert(self.file.contents() =~= old(self).file.contents());
        pages
    }

    /// The number of pages that the writer added.
    pub fn new_page_count(&self) -> (n: u32)
        ensures
            n == self.inner().added(),
    {
        self.file.write_state.new_page_count
    }

    /// Sets the number of added pages, to take up where a writer left off.
    pub fn set_new_page_count(&mut self, count: u32)
        ensures
            final(self).inner().added() == count,
            final(self).inner().changed() == old(self).inner().changed(),
            final(self).inner().contents() == old(self).inner().contents(),
            final(self).inner().count() == old(self).inner().count(),
            final(self).inner().images() == old(self).inner().images(),
            forall|p: u32| #[trigger] final(self).inner().key_of(p) == old(self).inner().key_of(p),
            final(self).inner().keys() == old(self).inner().keys(),
            old(self).inner().sane() ==> final(self).inner().sane(),
    {
        self.file.write_state.new_page_count = count;
        assert(self.file.contents() =~= old(self).file.contents());
    }
}

}
