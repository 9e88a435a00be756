//! Opening a database: redoing its log, loading its tables, unlocking those
//! that are encrypted.

use crate::btree;
use crate::btree_node;
use crate::bytes;
use crate::bytes::read_u32;
use crate::crypto;
use crate::crypto::{Cipher, ENCRYPTED_PAYLOAD_SIZE};
use crate::db;
use crate::db::{BoogyDb, Durability, LogRecord, RecordView};
use crate::error::{corruption, owned, BoogyError, Result};
use crate::file;
use crate::file::PageFile;
use crate::page;
use crate::page::{Page, PAGE_SIZE, PAGE_SYSTEM};
use crate::session;
use crate::system_page;
use crate::system_page::deserialize_system_page;
use crate::table;
use crate::table::{TableMeta, TableRegistry, TableView};
use crate::tree;
use vstd::prelude::*;

verus! {

/// The images of pages.
pub open spec fn images_view(v: Seq<[u8; PAGE_SIZE]>) -> Seq<Seq<u8>> {
    v.map_values(|a: [u8; PAGE_SIZE]| a@)
}

/// An image that was never written.
pub open spec fn blank_image() -> Seq<u8> {
    Seq::new(4096, |i: int| 0u8)
}

/// Images with one of them written; the file grows with blank images as far as
/// it needs to.
pub open spec fn image_put(images: Seq<Seq<u8>>, p: int, image: Seq<u8>) -> Seq<Seq<u8>> {
    Seq::new(
        if p < images.len() {
            images.len()
        } else {
            (p + 1) as nat
        },
        |i: int|
            if i == p {
                image
            } else if i < images.len() {
                images[i]
            } else {
                blank_image()
            },
    )
}

/// Images after the records of a log were applied in their order.
pub open spec fn redone(images: Seq<Seq<u8>>, recs: Seq<RecordView>) -> Seq<Seq<u8>>
    decreases recs.len(),
{
    if recs.len() == 0 {
        images
    } else {
        image_put(redone(images, recs.drop_last()), recs.last().page_no as int, recs.last().image)
    }
}

/// Every record names a page that a file can hold.
pub open spec fn applicable(recs: Seq<RecordView>) -> bool {
    forall|i: int| 0 <= i < recs.len() ==> (#[trigger] recs[i]).page_no < u32::MAX
}

/// Replays a log: applies its page images in forward order.
pub fn redo_log(images: Vec<[u8; PAGE_SIZE]>, log: &Vec<LogRecord>) -> (r: Result<Vec<[u8; PAGE_SIZE]>>)
    requires
        images@.len() <= u32::MAX,
    ensures
        r is Ok <==> applicable(db::records_view(log@)),
        r matches Ok(v) ==> images_view(v@) == redone(
            images_view(images@),
            db::records_view(log@),
        ) && v@.len() <= u32::MAX,
        r matches Err(e) ==> e is Corruption,
{
    let ghost start = images_view(images@);
    let ghost recs = db::records_view(log@);
    let mut out = images;
    let n: usize = log.len();
    let mut i: usize = 0;
    assert(recs.take(0) =~= Seq::empty());
    while i < n
        invariant
            i <= n,
            n == log@.len(),
            recs == db::records_view(log@),
            out@.len() <= u32::MAX,
            images_view(out@) == redone(start, recs.take(i as int)),
            forall|j: int| 0 <= j < i ==> (#[trigger] recs[j]).page_no < u32::MAX,
        decreases n - i,
    {
        let rec = &log[i];
        assert(recs[i as int] == rec@);
        if rec.page_no == u32::MAX {
            return Err(corruption("page number out of range in log"));
        }
        let p: usize = rec.page_no as usize;
        let ghost before = images_view(out@);
        let ghost len0 = out@.len();
        let zero: [u8; PAGE_SIZE] = [0u8; PAGE_SIZE];
        while out.len() <= p
            invariant
                len0 <= out@.len(),
                len0 <= u32::MAX,
                p < u32::MAX,
                out@.len() <= u32::MAX,
                out@.len() > len0 ==> out@.len() <= p + 1,
                before.len() == len0,
                forall|j: int| 0 <= j < len0 ==> (#[trigger] out@[j])@ == before[j],
                forall|j: int| len0 <= j < out@.len() ==> (#[trigger] out@[j])@ == blank_image(),
                zero@ == blank_image(),
            decreases p + 1 - out@.len(),
        {
            out.push(zero);
        }
        out.set(p, rec.image);
        proof {
            assert(recs.take(i + 1).drop_last() =~= recs.take(i as int));
            assert(recs.take(i + 1).last() == rec@);
            assert(images_view(out@) =~= image_put(before, p as int, rec.image@));
        }
        i += 1;
    }
    assert(recs.take(n as int) =~= recs);
    Ok(out)
}

/// The images hold all pages.
pub open spec fn reflects(images: Seq<Seq<u8>>, m: Map<u32, Seq<u8>>) -> bool {
    forall|p: u32| #[trigger]
        m.contains_key(p) ==> p < images.len() && images[p as int] == m[p]
}

/// Redoing a log in two parts, one after the other, is redoing it as a whole.
pub proof fn redo_in_turn(images: Seq<Seq<u8>>, a: Seq<RecordView>, b: Seq<RecordView>)
    ensures
        redone(images, a + b) == redone(redone(images, a), b),
    decreases b.len(),
{
    if b.len() == 0 {
        assert(a + b =~= a);
    } else {
        assert((a + b).drop_last() =~= a + b.drop_last());
        redo_in_turn(images, a, b.drop_last());
    }
}

/// Redoing a log gives every page that it covers its new contents: whoever holds
/// the pages of an earlier state, and redoes what was logged since, holds the
/// pages of the later state.
pub proof fn redo_restores(
    images: Seq<Seq<u8>>,
    m: Map<u32, Seq<u8>>,
    m2: Map<u32, Seq<u8>>,
    recs: Seq<RecordView>,
)
    requires
        db::log_covers(m, m2, recs, None),
        reflects(images, m),
    ensures
        reflects(redone(images, recs), m2),
{
    assert forall|p: u32| #[trigger] m2.contains_key(p) implies p < redone(images, recs).len()
        && redone(images, recs)[p as int] == m2[p] by {
        if exists|i: int| 0 <= i < recs.len() && (#[trigger] recs[i]).page_no == p {
            redone_page(images, m2, recs, p);
        } else {
            redone_kept(images, recs, p);
        }
    }
}

/// The images hold all pages but the system page.
pub open spec fn holds_rest(images: Seq<Seq<u8>>, m: Map<u32, Seq<u8>>) -> bool {
    forall|p: u32| #[trigger]
        m.contains_key(p) && p != 0 ==> p < images.len() && images[p as int] == m[p]
}

/// The images hold the pages of a database, and its tables as their system page.
pub open spec fn safe(images: Seq<Seq<u8>>, d: BoogyDb) -> bool {
    &&& holds_rest(images, d.pages())
    &&& images.len() > 0
    &&& db::tables_image(images[0], d.views(), d.registry().next_id())
}

/// The records that one database has to log and the other one had not.
pub open spec fn added_records(a: BoogyDb, b: BoogyDb) -> Seq<RecordView> {
    b.pending().skip(a.pending().len() as int)
}

/// The log was only added to.
pub open spec fn log_grows(a: BoogyDb, b: BoogyDb) -> bool {
    &&& a.pending().len() <= b.pending().len()
    &&& b.pending().take(a.pending().len() as int) == a.pending()
}

/// The log gives pages their new contents: whoever holds the pages from before, and
/// redoes what was logged since, holds the pages.
pub open spec fn carried(a: BoogyDb, b: BoogyDb) -> bool {
    &&& log_grows(a, b)
    &&& forall|images: Seq<Seq<u8>>| #[trigger]
        holds_rest(images, a.pages()) ==> holds_rest(
            redone(images, added_records(a, b)),
            b.pages(),
        )
}

/// The log gives back the database: whoever holds the pages from before, and redoes
/// what was logged since, holds the pages and the tables.
pub open spec fn secured(a: BoogyDb, b: BoogyDb) -> bool {
    &&& log_grows(a, b)
    &&& forall|images: Seq<Seq<u8>>| #[trigger]
        holds_rest(images, a.pages()) ==> safe(redone(images, added_records(a, b)), b)
}

/// What was logged without encryption carries the pages over.
pub proof fn log_carries(a: BoogyDb, b: BoogyDb, table_id: u32)
    requires
        a.settings().0 != Durability::Never,
        db::pages_logged(a, b, a.pages(), b.pages(), table_id, None),
    ensures
        carried(a, b),
{
    table_carried(a, a, b, table_id);
}

proof fn rest_restored(
    images: Seq<Seq<u8>>,
    m: Map<u32, Seq<u8>>,
    m2: Map<u32, Seq<u8>>,
    recs: Seq<RecordView>,
)
    requires
        db::log_covers(m, m2, recs, None),
        holds_rest(images, m),
    ensures
        holds_rest(redone(images, recs), m2),
{
    assert forall|p: u32| #[trigger] m2.contains_key(p) && p != 0 implies p < redone(
        images,
        recs,
    ).len() && redone(images, recs)[p as int] == m2[p] by {
        if exists|i: int| 0 <= i < recs.len() && (#[trigger] recs[i]).page_no == p {
            redone_page(images, m2, recs, p);
        } else {
            redone_kept(images, recs, p);
        }
    }
}

/// See [`log_carries`]; the pages were out on loan while they were changed.
pub proof fn table_carried(a: BoogyDb, mid: BoogyDb, b: BoogyDb, table_id: u32)
    requires
        mid.settings() == a.settings(),
        mid.pending() == a.pending(),
        a.settings().0 != Durability::Never,
        db::pages_logged(mid, b, a.pages(), b.pages(), table_id, None),
    ensures
        carried(a, b),
{
    let recs = added_records(a, b);
    assert forall|images: Seq<Seq<u8>>| #[trigger] holds_rest(images, a.pages()) implies holds_rest(
        redone(images, recs),
        b.pages(),
    ) by {
        rest_restored(images, a.pages(), b.pages(), recs);
    }
}

/// Only pages and log of the start count.
pub proof fn same_start(a: BoogyDb, c: BoogyDb, d: BoogyDb)
    requires
        c.pages() == a.pages(),
        c.pending() == a.pending(),
        secured(c, d),
    ensures
        secured(a, d),
{
}

/// A system page that was logged secures the database.
pub proof fn saving_secures(a: BoogyDb, b: BoogyDb)
    requires
        a.settings().0 != Durability::Never,
        db::pages_logged(a, b, a.pages(), b.pages(), 0, None),
        db::logs_page(a, b, 0),
        db::system_page_saved(b),
    ensures
        secured(a, b),
{
    let recs = added_records(a, b);
    let x = choose|x: int|
        a.pending().len() <= x < b.pending().len() && (#[trigger] b.pending()[x]).page_no == 0;
    assert(recs[x - a.pending().len()] == b.pending()[x]);
    assert forall|images: Seq<Seq<u8>>| #[trigger] holds_rest(images, a.pages()) implies safe(
        redone(images, recs),
        b,
    ) by {
        rest_restored(images, a.pages(), b.pages(), recs);
        redone_page(images, b.pages(), recs, 0);
    }
}

/// What carries pages over, then secures them, secures them.
pub proof fn carried_then_secured(a: BoogyDb, b: BoogyDb, c: BoogyDb, d: BoogyDb)
    requires
        carried(a, b),
        c.pages() == b.pages(),
        c.pending() == b.pending(),
        secured(c, d),
    ensures
        secured(a, d),
{
    let n = a.pending().len() as int;
    let k = b.pending().len() as int;
    assert(d.pending().take(n) =~= d.pending().take(k).take(n));
    assert(added_records(a, d) =~= added_records(a, b) + added_records(c, d)) by {
        assert(d.pending().skip(n) =~= d.pending().take(k).skip(n) + d.pending().skip(k));
    }
    assert forall|images: Seq<Seq<u8>>| #[trigger] holds_rest(images, a.pages()) implies safe(
        redone(images, added_records(a, d)),
        d,
    ) by {
        redo_in_turn(images, added_records(a, b), added_records(c, d));
        assert(holds_rest(redone(images, added_records(a, b)), c.pages()));
    }
}

/// A commit of a table without encryption is secured by what it logs.
pub proof fn commit_secures(a: BoogyDb, b: BoogyDb, table_id: u32)
    requires
        a.settings().0 != Durability::Never,
        db::logged(a, b, a.pages(), b.pages(), table_id, None),
        system_page::registry_fits(b.views(), b.registry().next_id()),
    ensures
        secured(a, b),
{
    let recs = added_records(a, b);
    let body = recs.drop_last();
    assert(body == db::page_records(recs, b.views(), b.registry().next_id()));
    assert forall|images: Seq<Seq<u8>>| #[trigger] holds_rest(images, a.pages()) implies safe(
        redone(images, recs),
        b,
    ) by {
        rest_restored(images, a.pages(), b.pages(), body);
        assert(redone(images, recs) == image_put(redone(images, body), 0, recs.last().image));
    }
}

proof fn redone_page(images: Seq<Seq<u8>>, m2: Map<u32, Seq<u8>>, recs: Seq<RecordView>, p: u32)
    requires
        forall|i: int| 0 <= i < recs.len() && (#[trigger] recs[i]).page_no == p ==> recs[i].image == m2[p],
        exists|i: int| 0 <= i < recs.len() && (#[trigger] recs[i]).page_no == p,
    ensures
        p < redone(images, recs).len(),
        redone(images, recs)[p as int] == m2[p],
    decreases recs.len(),
{
    let i = choose|i: int| 0 <= i < recs.len() && (#[trigger] recs[i]).page_no == p;
    let rest = recs.drop_last();
    if recs.last().page_no != p {
        assert(rest[i] == recs[i]);
        redone_page(images, m2, rest, p);
    } else {
        assert(recs[recs.len() - 1].page_no == p);
    }
}

proof fn redone_kept(images: Seq<Seq<u8>>, recs: Seq<RecordView>, p: u32)
    requires
        p < images.len(),
        forall|i: int| 0 <= i < recs.len() ==> (#[trigger] recs[i]).page_no != p,
    ensures
        p < redone(images, recs).len(),
        redone(images, recs)[p as int] == images[p as int],
    decreases recs.len(),
{
    if recs.len() > 0 {
        let rest = recs.drop_last();
        assert forall|i: int| 0 <= i < rest.len() implies (#[trigger] rest[i]).page_no != p by {
            assert(rest[i] == recs[i]);
        }
        redone_kept(images, rest, p);
        assert(recs[recs.len() - 1].page_no != p);
    }
}

/// The page images hold tables: the first one is a system page.
pub open spec fn has_tables(images: Seq<Seq<u8>>) -> bool {
    images.len() > 0 && page::has_flag(images[0], PAGE_SYSTEM)
}

/// What opening a file gives.
pub open spec fn opened_as(images: Seq<Seq<u8>>, r: Result<BoogyDb>) -> bool {
    match r {
        Err(_) => images.len() > 0 && (!file::valid_image(images[0]) || has_tables(images)
            && system_page::registry_at(images[0]) is None),
        Ok(d) => {
            &&& images.len() > 0 ==> file::valid_image(images[0])
            &&& d.wf()
            &&& d.file_of().count() == images.len()
            &&& d.file_of().images() == images
            &&& d.file_of().keys() == Map::<u32, Seq<u8>>::empty()
            &&& forall|p: u32| !#[trigger] d.file_of().holds(p)
            &&& forall|p: u32| #[trigger]
                d.pages().contains_key(p) <==> p < images.len() && file::valid_image(
                    images[p as int],
                )
            &&& forall|p: u32|
                d.pages().contains_key(p) ==> #[trigger] d.pages()[p] == images[p as int]
            &&& d.settings() == (Durability::Normal, false, 10485760u32)
            &&& d.pending() == Seq::<RecordView>::empty()
            &&& if has_tables(images) {
                &&& system_page::registry_at(images[0]) matches Some((v, next))
                &&& d.registry().next_id() == next
                &&& table::table_names_of(v).no_duplicates() ==> d.views() == v
                &&& forall|name: Seq<char>|
                    (table::table_place(d.views(), name) is Some) == table::table_names_of(
                        v,
                    ).contains(name)
            } else {
                &&& d.views() == Seq::<TableView>::empty()
                &&& d.registry().next_id() == 1
            }
        },
    }
}

impl BoogyDb {
    /// Open or create a database from the images of its pages, replaying the
    /// records of its log first.
    pub fn open(images: Vec<[u8; PAGE_SIZE]>, log: &Vec<LogRecord>) -> (r: Result<BoogyDb>)
        requires
            images@.len() <= u32::MAX,
        ensures
            applicable(db::records_view(log@)) ==> opened_as(
                redone(images_view(images@), db::records_view(log@)),
                r,
            ),
            !applicable(db::records_view(log@)) ==> (r matches Err(e) && e is Corruption),
            r matches Ok(d) ==> file::tidy(d.pages()),
    {
        proof {
            reveal(file::tidy);
        }
        let images = redo_log(images, log)?;
        let ghost imgs = images_view(images@);
        let file = PageFile::open(images);
        assert(file.images() =~= imgs);
        if file.page_count() == 0 {
            return Ok(BoogyDb::over(file));
        }
        proof {
            assert(imgs[0] == images@[0]@);
            assert(file.contents().contains_key(0) == file::valid_image(imgs[0]));
        }
        let sys: Page = file.read_page(0)?;
        assert(file.contents()[0] == imgs[0]);
        if sys.flags() & PAGE_SYSTEM != 0 {
            let (metas, next_id): (Vec<TableMeta>, u32) = deserialize_system_page(&sys)?;
            Ok(BoogyDb::with_tables(file, TableRegistry::of(metas, next_id)))
        } else {
            Ok(BoogyDb::over(file))
        }
    }
}

/// A database whose system page was written keeps its tables when it is opened
/// again from its pages, but for the keys of encrypted tables.
pub proof fn reopen_keeps_tables(images: Seq<Seq<u8>>, ts: Seq<TableView>, next_id: u32, d: BoogyDb)
    requires
        images.len() > 0,
        images[0].len() == 4096,
        file::valid_image(images[0]),
        page::flags_of(images[0]) == PAGE_SYSTEM,
        system_page::registry_fits(ts, next_id),
        system_page::holds_at(images[0], 16, system_page::registry_bytes(ts, next_id)),
        forall|i: int| 0 <= i < ts.len() ==> system_page::persistent(#[trigger] ts[i]),
        table::table_names_of(ts).no_duplicates(),
        opened_as(images, Ok(d)),
    ensures
        d.views() == ts,
        d.registry().next_id() == next_id,
        forall|p: u32|
            p < images.len() && file::valid_image(images[p as int]) ==> #[trigger] d.pages().contains_key(
                p,
            ) && d.pages()[p] == images[p as int],
{
    assert(PAGE_SYSTEM & PAGE_SYSTEM != 0) by {
        assert(4u16 & 4u16 != 0) by (bit_vector);
    }
    system_page::registry_round_trip(images[0], ts, next_id);
}

/// A decrypted page as it is kept in memory: padded with zeros, and with its
/// checksum.
pub open spec fn unsealed_page(key: Seq<u8>, image: Seq<u8>, data: Seq<u8>) -> bool {
    &&& crypto::opened(key, image) matches Some(plain)
    &&& data.len() == 4096
    &&& data.subrange(0, 4068) == plain
    &&& forall|i: int| 4068 <= i < 4092 ==> data[i] == 0
    &&& page::checksum_ok(data)
}

/// Read a branch page child pointer at the given index.
pub fn get_branch_child_from_page(page: &Page, idx: usize) -> (c: u32)
    requires
        20 + 12 * idx <= 4096,
    ensures
        c == child_at(page.data@, idx as int),
{
    let offset: usize = 16 + idx * 12;
    read_u32(page.data.as_slice(), offset)
}

/// A child pointer of a branch.
pub open spec fn child_at(data: Seq<u8>, i: int) -> u32 {
    bytes::get_u32(data, 16 + 12 * i)
}

/// A page leads to another: a branch to its children, a leaf to the next one.
pub open spec fn leads_to(data: Seq<u8>, q: u32) -> bool {
    ||| page::has_flag(data, page::PAGE_BRANCH) && exists|i: int|
        0 <= i <= page::count_of(data) && #[trigger] child_at(data, i) == q
    ||| page::has_flag(data, page::PAGE_LEAF) && page::next_of(data) != 0 && page::next_of(data) == q
}

/// The page is in memory, or it cannot be read.
pub open spec fn settled(f: PageFile, q: u32) -> bool {
    f.holds(q) || q >= f.count() || q >= f.images().len()
}

/// A file whose pages were read and decrypted one after the other.
pub open spec fn preloaded(f: PageFile, f2: PageFile, key: Seq<u8>) -> bool {
    &&& f2.wf()
    &&& f2.count() == f.count()
    &&& f2.added() == f.added()
    &&& f2.changed() == f.changed()
    &&& f2.images() == f.images()
    &&& forall|p: u32| #[trigger] f.holds(p) ==> f2.holds(p)
    &&& forall|p: u32| #[trigger]
        f2.holds(p) && !f.holds(p) ==> p < f.images().len() && f2.contents().contains_key(p)
            && unsealed_page(key, f.images()[p as int], f2.contents()[p]) && f2.key_of(p) == Some(
            key,
        )
    &&& forall|p: u32| #[trigger]
        f2.contents().contains_key(p) && (f.holds(p) || !f2.holds(p)) ==> f.contents().contains_key(
            p,
        ) && f2.contents()[p] == f.contents()[p]
    &&& forall|p: u32| #[trigger]
        f.contents().contains_key(p) ==> f2.contents().contains_key(p) && (f.holds(p)
            || !f2.holds(p) ==> f2.contents()[p] == f.contents()[p])
    &&& forall|p: u32| f.holds(p) || !f2.holds(p) ==> #[trigger] f2.key_of(p) == f.key_of(p)
}

/// The pages that the tree of an encrypted table leads to were decrypted.
pub open spec fn walked(f: PageFile, f2: PageFile, key: Seq<u8>, root: u32) -> bool {
    &&& preloaded(f, f2, key)
    &&& settled(f2, root)
    &&& forall|p: u32, q: u32|
        f2.holds(p) && !f.holds(p) && #[trigger] leads_to(f2.contents()[p], q) ==> settled(f2, q)
    &&& forall|p: u32| #[trigger]
        f2.holds(p) && !f.holds(p) ==> reached(f.images(), key, root, p)
}

/// All pages behind the system page that a key decrypts were decrypted.
pub open spec fn swept(f: PageFile, f2: PageFile, key: Seq<u8>) -> bool {
    &&& preloaded(f, f2, key)
    &&& f2.holds(0) == f.holds(0)
    &&& forall|p: u32| #[trigger]
        f2.holds(p) <==> f.holds(p) || 0 < p < f.images().len() && crypto::opened(
            key,
            f.images()[p as int],
        ) is Some
}

/// A branch that announces more children than its page has room for.
pub open spec fn overfull(data: Seq<u8>) -> bool {
    page::has_flag(data, page::PAGE_BRANCH) && 20 + 12 * page::count_of(data) > 4096
}

/// An encrypted page leads to another.
pub open spec fn step(images: Seq<Seq<u8>>, key: Seq<u8>, a: u32, b: u32) -> bool {
    a < images.len() && exists|s: Seq<u8>| #[trigger]
        unsealed_page(key, images[a as int], s) && leads_to(s, b)
}

/// Each of the pages leads to the one behind it.
pub open spec fn route(images: Seq<Seq<u8>>, key: Seq<u8>, path: Seq<u32>) -> bool {
    path.len() > 0 && forall|i: int|
        0 <= i < path.len() - 1 ==> step(images, key, #[trigger] path[i], path[i + 1])
}

/// One encrypted page leads to another, over others in between or not.
pub open spec fn reached(images: Seq<Seq<u8>>, key: Seq<u8>, root: u32, p: u32) -> bool {
    exists|path: Seq<u32>| #[trigger]
        route(images, key, path) && path[0] == root && path.last() == p
}

/// Why the pages of a table could not all be decrypted.
pub open spec fn blocked(f: PageFile, key: Seq<u8>, root: u32, e: BoogyError) -> bool {
    exists|p: u32| #[trigger]
        reached(f.images(), key, root, p) && p < f.count() && p < f.images().len() && if crypto::opened(
            key,
            f.images()[p as int],
        ) is None {
            e is DecryptionFailed
        } else {
            e is Corruption && exists|s: Seq<u8>| #[trigger]
                unsealed_page(key, f.images()[p as int], s) && overfull(s)
        }
}

proof fn reached_start(images: Seq<Seq<u8>>, key: Seq<u8>, root: u32)
    ensures
        reached(images, key, root, root),
{
    assert(route(images, key, seq![root]));
}

proof fn reached_further(images: Seq<Seq<u8>>, key: Seq<u8>, root: u32, p: u32, q: u32)
    requires
        reached(images, key, root, p),
        step(images, key, p, q),
    ensures
        reached(images, key, root, q),
{
    let path = choose|path: Seq<u32>| #[trigger]
        route(images, key, path) && path[0] == root && path.last() == p;
    let longer = path.push(q);
    assert forall|i: int| 0 <= i < longer.len() - 1 implies step(
        images,
        key,
        #[trigger] longer[i],
        longer[i + 1],
    ) by {
        if i < path.len() - 1 {
            assert(step(images, key, path[i], path[i + 1]));
        }
    }
    assert(route(images, key, longer));
}

/// Decrypts a page for the cache.
fn unseal_page(cipher: &Cipher, raw: &[u8; PAGE_SIZE]) -> (r: Result<Page>)
    ensures
        r is Ok <==> crypto::opened(cipher.secret(), raw@) is Some,
        r matches Ok(p) ==> unsealed_page(cipher.secret(), raw@, p.data@),
        r matches Err(e) ==> e is DecryptionFailed,
{
    let plain: [u8; ENCRYPTED_PAYLOAD_SIZE] = cipher.decrypt_page(raw)?;
    let mut p = Page::from_bytes_unchecked([0u8; PAGE_SIZE]);
    let ghost before = p.data@;
    p.put(0, plain.as_slice());
    p.update_checksum();
    assert(p.data@.subrange(0, 4068) =~= plain@);
    Ok(p)
}

/// The pages that a page leads to.
fn followers(p: &Page, out: &mut Vec<u32>) -> (r: Result<()>)
    ensures
        r is Ok ==> (forall|q: u32| #[trigger]
            final(out)@.contains(q) <==> old(out)@.contains(q) || leads_to(p.data@, q)),
        r is Err <==> overfull(p.data@),
        r matches Err(e) ==> e is Corruption,
{
    let ghost start = out@;
    let ghost data = p.data@;
    if p.is_branch() {
        let n: usize = p.num_rows() as usize;
        if 20 + 12 * n > PAGE_SIZE {
            return Err(corruption("malformed branch page"));
        }
        let mut i: usize = 0;
        while i <= n
            invariant
                i <= n + 1,
                data == p.data@,
                n == page::count_of(data),
                20 + 12 * n <= 4096,
                forall|q: u32| #[trigger]
                    out@.contains(q) <==> start.contains(q) || exists|j: int|
                        0 <= j < i && #[trigger] child_at(data, j) == q,
            decreases n + 1 - i,
        {
            let ghost before = out@;
            let c: u32 = get_branch_child_from_page(p, i);
            out.push(c);
            proof {
                assert forall|q: u32| #[trigger] out@.contains(q) <==> start.contains(q)
                    || exists|j: int| 0 <= j < i + 1 && #[trigger] child_at(data, j) == q by {
                    db::pushed(before, c, q);
                    if exists|j: int| 0 <= j < i + 1 && #[trigger] child_at(data, j) == q {
                        let j = choose|j: int| 0 <= j < i + 1 && #[trigger] child_at(data, j) == q;
                        if j < i {
                            assert(before.contains(q));
                        }
                    }
                    if q == c {
                        assert(child_at(data, i as int) == q);
                    }
                }
            }
            i += 1;
        }
    }
    let ghost mid = out@;
    if p.is_leaf() {
        let next: u32 = p.next_leaf();
        if next != 0 {
            out.push(next);
            proof {
                assert forall|q: u32| #[trigger] out@.contains(q) <==> mid.contains(q) || q == next by {
                    db::pushed(mid, next, q);
                }
            }
        }
    }
    Ok(())
}

/// The pages that are in memory among the first ones.
spec fn held_below(f: PageFile, n: int) -> Set<int> {
    Set::new(|p: int| 0 <= p < n && p <= u32::MAX && f.holds(p as u32))
}

proof fn held_bounded(f: PageFile, n: int)
    requires
        0 <= n,
    ensures
        held_below(f, n).finite(),
        held_below(f, n).len() <= n,
{
    let all = vstd::set_lib::set_int_range(0, n);
    vstd::set_lib::lemma_int_range(0, n);
    assert(held_below(f, n).subset_of(all));
    vstd::set_lib::lemma_len_subset(held_below(f, n), all);
}

/// Walks the tree of an encrypted table, decrypts each page of it that is not
/// in memory, and keeps the plaintext there.
fn preload(file: &mut PageFile, root: u32, cipher: &Cipher) -> (r: Result<()>)
    requires
        old(file).wf(),
    ensures
        preloaded(*old(file), *final(file), cipher.secret()),
        r is Ok ==> walked(*old(file), *final(file), cipher.secret(), root),
        r matches Err(e) ==> blocked(*old(file), cipher.secret(), root, e),
{
    let ghost f = *file;
    let ghost key = cipher.secret();
    proof {
        reached_start(f.images(), key, root);
    }
    let ghost n = file.images().len() as int;
    let mut todo: Vec<u32> = Vec::new();
    todo.push(root);
    assert(todo@[0] == root);
    while todo.len() > 0
        invariant
            preloaded(f, *file, key),
            f == *old(file),
            key == cipher.secret(),
            n == f.images().len(),
            settled(*file, root) || todo@.contains(root),
            forall|p: u32, q: u32|
                file.holds(p) && !f.holds(p) && #[trigger] leads_to(file.contents()[p], q)
                    ==> settled(*file, q) || todo@.contains(q),
            forall|q: u32| #[trigger] todo@.contains(q) ==> reached(f.images(), key, root, q),
            forall|q: u32| #[trigger]
                file.holds(q) && !f.holds(q) ==> reached(f.images(), key, root, q),
        decreases n - held_below(*file, n).len(), todo@.len(),
    {
        let ghost before = *file;
        let ghost stack = todo@;
        let p: u32 = match todo.pop() {
            Some(p) => p,
            None => {
                return Ok(());
            },
        };
        proof {
            held_bounded(before, n);
            assert(stack[stack.len() - 1] == p);
            assert(stack.contains(p));
            assert forall|q: u32| #[trigger] todo@.contains(q) implies stack.contains(q) by {
                let i = choose|i: int| 0 <= i < todo@.len() && todo@[i] == q;
                assert(stack[i] == q);
            }
            assert forall|q: u32| #[trigger] stack.contains(q) implies todo@.contains(q) || q == p by {
                let i = choose|i: int| 0 <= i < stack.len() && stack[i] == q;
                if i < todo@.len() {
                    assert(todo@[i] == q);
                }
            }
        }
        if !file.is_cached(p) && p < file.page_count() {
            match file.read_page_raw(p) {
                Ok(raw) => {
                    let page = unseal_page(cipher, &raw)?;
                    let ghost left = todo@;
                    followers(&page, &mut todo)?;
                    proof {
                        assert forall|q: u32| #[trigger] todo@.contains(q) implies reached(
                            f.images(),
                            key,
                            root,
                            q,
                        ) by {
                            if !left.contains(q) {
                                assert(step(f.images(), key, p, q));
                                reached_further(f.images(), key, root, p, q);
                            }
                        }
                    }
                    file.put_cached_page(p, page);
                    file.register_page_cipher(p, cipher.clone());
                    proof {
                        let a = held_below(before, n);
                        let b = held_below(*file, n);
                        assert(b =~= a.insert(p as int));
                        held_bounded(*file, n);
                    }
                },
                Err(_) => {},
            }
        }
    }
    Ok(())
}

/// Decrypts the pages that belong to a key and are not in memory yet: those of the
/// indexes of a table, and those that hold parts of its rows.
fn sweep(file: &mut PageFile, cipher: &Cipher)
    requires
        old(file).wf(),
    ensures
        swept(*old(file), *final(file), cipher.secret()),
{
    let ghost f = *file;
    let ghost key = cipher.secret();
    let mut p: u32 = 1;
    loop
        invariant
            f == *old(file),
            key == cipher.secret(),
            preloaded(f, *file, key),
            1 <= p,
            forall|q: u32| #[trigger]
                file.holds(q) <==> f.holds(q) || 0 < q < p && q < f.images().len()
                    && crypto::opened(key, f.images()[q as int]) is Some,
        ensures
            p >= f.images().len() || p == u32::MAX && u32::MAX >= f.images().len(),
        decreases u32::MAX - p,
    {
        if p >= file.page_count() {
            proof {
                file.images_bounded();
            }
            break;
        }
        if !file.is_cached(p) {
            match file.read_page_raw(p) {
                Ok(raw) => {
                    match unseal_page(cipher, &raw) {
                        Ok(page) => {
                            file.put_cached_page(p, page);
                            file.register_page_cipher(p, cipher.clone());
                        },
                        Err(_) => {},
                    }
                },
                Err(_) => {},
            }
        }
        p += 1;
    }
}

/// What was decrypted in two goes.
proof fn preloaded_twice(f: PageFile, f1: PageFile, f2: PageFile, key: Seq<u8>)
    requires
        preloaded(f, f1, key),
        preloaded(f1, f2, key),
    ensures
        preloaded(f, f2, key),
{
    assert forall|p: u32| #[trigger] f2.holds(p) && !f.holds(p) implies p < f.images().len()
        && f2.contents().contains_key(p) && unsealed_page(
        key,
        f.images()[p as int],
        f2.contents()[p],
    ) && f2.key_of(p) == Some(key) by {
        if f1.holds(p) {
            assert(f1.contents().contains_key(p));
        }
    }
    assert forall|p: u32| #[trigger]
        f2.contents().contains_key(p) && (f.holds(p) || !f2.holds(p)) implies f.contents().contains_key(
        p,
    ) && f2.contents()[p] == f.contents()[p] by {
        if f.holds(p) {
            assert(f1.holds(p));
        }
        assert(f1.contents().contains_key(p));
    }
    assert forall|p: u32| #[trigger] f.contents().contains_key(p) implies f2.contents().contains_key(
        p,
    ) && (f.holds(p) || !f2.holds(p) ==> f2.contents()[p] == f.contents()[p]) by {
        if f.holds(p) {
            assert(f1.holds(p));
        }
        assert(f1.contents().contains_key(p));
    }
    assert forall|p: u32| f.holds(p) || !f2.holds(p) implies #[trigger] f2.key_of(p) == f.key_of(
        p,
    ) by {
        if f.holds(p) {
            assert(f1.holds(p));
        }
        assert(f1.key_of(p) == f.key_of(p));
    }
}

/// What comes of unlocking a table.
pub open spec fn unlocked(a: BoogyDb, b: BoogyDb, name: Seq<char>, key: Seq<u8>, r: Result<()>) -> bool {
    match table::table_place(a.views(), name) {
        None => (r matches Err(BoogyError::TableNotFound(t)) && t@ == name) && db::unchanged(a, b),
        Some(i) => {
            let v = a.views()[i];
            let f = a.file_of();
            if !v.encrypted {
                (r matches Err(e) && e is SchemaMismatch) && db::unchanged(a, b)
            } else if v.key is Some {
                r is Ok && db::unchanged(a, b)
            } else if v.root_page < f.count() && v.root_page < f.images().len() && crypto::opened(
                key,
                f.images()[v.root_page as int],
            ) is None {
                (r matches Err(BoogyError::InvalidKey(t)) && t@ == name) && db::unchanged(a, b)
            } else {
                &&& b.views() == a.views().update(i, TableView { key: Some(key), ..v })
                &&& b.registry().next_id() == a.registry().next_id()
                &&& b.pending() == a.pending()
                &&& preloaded(f, b.file_of(), key)
                &&& r is Ok ==> exists|f1: PageFile| #[trigger]
                    walked(f, f1, key, v.root_page) && swept(f1, b.file_of(), key)
                &&& r matches Err(e) ==> blocked(f, key, v.root_page, e)
            }
        },
    }
}

impl BoogyDb {
    /// Unlock an encrypted table by providing its key. Must be called after
    /// opening a database that contains encrypted tables.
    pub fn unlock_table(&mut self, name: &str, key: &[u8; 32]) -> (r: Result<()>)
        requires
            old(self).wf(),
        ensures
            final(self).wf(),
            final(self).settings() == old(self).settings(),
            unlocked(*old(self), *final(self), name@, key@, r),
    {
        let i: usize = match self.tables().position(name) {
            Some(i) => i,
            None => {
                return Err(BoogyError::TableNotFound(owned(name)));
            },
        };
        let mut meta = self.tables().at(i).clone();
        let ghost v = meta@;
        if !meta.encrypted {
            return Err(BoogyError::SchemaMismatch(owned("table is not encrypted")));
        }
        if meta.cipher.is_some() {
            return Ok(());
        }
        let cipher = Cipher::new(key);
        let root: u32 = meta.root_page;
        if root < self.page_file().page_count() {
            match self.page_file().read_page_raw(root) {
                Ok(raw) => {
                    match cipher.decrypt_page(&raw) {
                        Ok(_) => {},
                        Err(_) => {
                            return Err(BoogyError::InvalidKey(owned(name)));
                        },
                    }
                },
                Err(_) => {},
            }
        }
        meta.cipher = Some(cipher.clone());
        assert(meta@ == (TableView { key: Some(key@), ..v }));
        self.set_table(i, meta);
        let guard = self.start();
        let mut file = guard.release();
        let ghost f = file;
        let r = preload(&mut file, root, &cipher);
        if r.is_ok() {
            let ghost f1 = file;
            sweep(&mut file, &cipher);
            proof {
                preloaded_twice(f, f1, file, key@);
                assert(walked(f, f1, key@, root));
            }
        }
        self.restore(file);
        r
    }

    /// A clean shutdown: the tables are written to the system page, and all
    /// pages in memory to the file. Returns the images to write; the log is no
    /// longer needed after that.
    pub fn shutdown(&mut self) -> (r: Result<Vec<(u32, [u8; PAGE_SIZE])>>)
        requires
            old(self).wf(),
        ensures
            final(self).wf(),
            final(self).registry() == old(self).registry(),
            final(self).settings() == old(self).settings(),
            r is Ok,
            ({
                let fits = system_page::registry_fits(
                    old(self).views(),
                    old(self).registry().next_id(),
                );
                &&& !fits ==> final(self).pages() == old(self).pages()
                &&& fits ==> db::system_page_saved(*final(self)) && final(self).pages() == old(
                    self,
                ).pages().insert(0, final(self).pages()[0])
            }),
            file::tidy(old(self).pages()) ==> file::tidy(final(self).pages()),
            final(self).file_of().keys() == old(self).file_of().keys(),
            forall|p: u32| #[trigger]
                final(self).pages().contains_key(p) && final(self).file_of().key_of(p) is None ==> p
                    < final(self).file_of().images().len() && final(
                    self).file_of().images()[p as int] == final(self).pages()[p],
            forall|p: u32| #[trigger]
                final(self).file_of().holds(p) && p < final(self).file_of().count() ==> p < final(
                    self).file_of().images().len() && file::stored_as(
                    final(self).file_of().key_of(p),
                    final(self).pages()[p],
                    final(self).file_of().images()[p as int],
                ),
            r matches Ok(w) ==> forall|p: u32| #[trigger]
                final(self).file_of().holds(p) ==> exists|i: int|
                    0 <= i < w@.len() && (#[trigger] w@[i]).0 == p && w@[i].1@ == final(
                        self).file_of().images()[p as int],
    {
        match self.persist_registry() {
            Ok(_) => {},
            Err(_) => {},
        }
        let ghost m = self.pages();
        let guard = self.start();
        let mut file = guard.release();
        let ghost f = file;
        let r = file.sync_all();
        proof {
            if r is Ok {
                f.held_published();
                assert forall|p: u32| #[trigger] file.holds(p) && p < file.count() implies p
                    < file.images().len() && file::stored_as(
                    file.key_of(p),
                    file.contents()[p],
                    file.images()[p as int],
                ) by {
                    assert(f.holds(p));
                    let i = choose|i: int|
                        0 <= i < r->Ok_0@.len() && (#[trigger] r->Ok_0@[i]).0 == p;
                    assert(r->Ok_0@[i].0 == p);
                }
                assert forall|p: u32| #[trigger] file.holds(p) implies exists|i: int|
                    0 <= i < r->Ok_0@.len() && (#[trigger] r->Ok_0@[i]).0 == p && r->Ok_0@[i].1@
                        == file.images()[p as int] by {
                    assert(f.holds(p));
                    let i = choose|i: int|
                        0 <= i < r->Ok_0@.len() && (#[trigger] r->Ok_0@[i]).0 == p;
                    assert(r->Ok_0@[i].0 == p);
                }
            }
        }
        self.restore(file);
        r
    }
}

/// After a crash, a database that is opened from the images of its pages and the log
/// since then is as it was at its last commit: opening succeeds, the tables are those
/// that it had, with their roots, row counts and next numbers, all pages but the system
/// page are the same, and if the tables were in order they are, with the same rows.
pub proof fn crash_then_open(images: Seq<Seq<u8>>, a: BoogyDb, b: BoogyDb, r: Result<BoogyDb>)
    requires
        holds_rest(images, a.pages()),
        secured(a, b),
        b.wf(),
        file::tidy(b.pages()),
        system_page::registry_fits(b.views(), b.registry().next_id()),
        forall|i: int| 0 <= i < b.views().len() ==> system_page::persistent(#[trigger] b.views()[i]),
        opened_as(redone(images, added_records(a, b)), r),
    ensures
        r matches Ok(d) && {
            &&& d.wf()
            &&& d.views() == b.views()
            &&& d.registry().next_id() == b.registry().next_id()
            &&& forall|p: u32|
                p != 0 && #[trigger] b.pages().contains_key(p) ==> d.pages().contains_key(p)
                    && d.pages()[p] == b.pages()[p]
            &&& db::system_page_saved(d)
            &&& b.sound() ==> d.sound() && forall|i: int|
                0 <= i < b.views().len() ==> #[trigger] d.rows(i) == b.rows(i)
        },
{
    let now = redone(images, added_records(a, b));
    assert(safe(now, b));
    assert(PAGE_SYSTEM & PAGE_SYSTEM != 0) by {
        assert(4u16 & 4u16 != 0) by (bit_vector);
    }
    system_page::registry_round_trip(now[0], b.views(), b.registry().next_id());
    let d = r->Ok_0;
    let m = b.pages();
    let m2 = d.pages();
    assert forall|p: u32| p != 0 && #[trigger] m.contains_key(p) implies m2.contains_key(p) && m2[p]
        == m[p] by {
        file::tidy_page(m, p);
    }
    assert(m2.contains_key(0) && m2[0] == now[0]);
    if b.sound() {
        b.file_of().contents_bounded();
        assert(0x04u16 != 0x10u16);
        assert(crate::btree_writer::overflow_kept(m, m2));
        assert forall|i: int, q: u32|
            0 <= i < b.views().len() && #[trigger] crate::store::table_page(
                m,
                b.views()[i],
                q,
            ) implies m2.contains_key(q) && m2[q] == m[q] by {
            reveal(crate::engine::table_sound);
            assert(crate::engine::table_sound(m, b.views()[i]));
            crate::engine::table_pages_exist(m, b.views()[i]);
        }
        crate::engine::forest_kept(m, m2, b.views());
    }
}

/// A database without encryption that was shut down is the same when it is opened
/// again from its images: opening succeeds, and the pages and the tables are those
/// that it had.
pub proof fn shutdown_then_open(d: BoogyDb, r: Result<BoogyDb>)
    requires
        d.wf(),
        file::tidy(d.pages()),
        d.file_of().keys() == Map::<u32, Seq<u8>>::empty(),
        reflects(d.file_of().images(), d.pages()),
        db::system_page_saved(d),
        system_page::registry_fits(d.views(), d.registry().next_id()),
        forall|i: int| 0 <= i < d.views().len() ==> system_page::persistent(#[trigger] d.views()[i]),
        opened_as(d.file_of().images(), r),
    ensures
        r matches Ok(d2) && {
            &&& d2.wf()
            &&& session::same(d.state(), d2.state())
            &&& d2.registry().next_id() == d.registry().next_id()
            &&& file::tidy(d2.pages())
        },
{
    let images = d.file_of().images();
    assert(d.pages().contains_key(0));
    assert(images[0] == d.pages()[0]);
    assert(PAGE_SYSTEM & PAGE_SYSTEM != 0) by {
        assert(4u16 & 4u16 != 0) by (bit_vector);
    }
    system_page::registry_round_trip(images[0], d.views(), d.registry().next_id());
    let d2 = r->Ok_0;
    d.file_of().contents_read();
    assert forall|p: u32| #[trigger] d2.pages().contains_key(p) == d.pages().contains_key(p) && (
    d.pages().contains_key(p) ==> d2.pages()[p] == d.pages()[p]) by {
        file::tidy_page(d.pages(), p);
        if d.file_of().holds(p) {
            assert(d.pages().contains_key(p));
        }
    }
    assert(d2.pages() =~= d.pages());
}

/// The file holds a page of an encrypted table: the images hold an encryption of
/// its first 4068 bytes, and of the others only the checksum is not zero.
pub open spec fn sealed_in(
    images: Seq<Seq<u8>>,
    key: Seq<u8>,
    m: Map<u32, Seq<u8>>,
    p: u32,
) -> bool {
    &&& p < images.len()
    &&& m[p].len() == 4096
    &&& file::stored_as(Some(key), m[p], images[p as int])
    &&& forall|i: int| 4068 <= i < 4092 ==> m[p][i] == 0
    &&& page::checksum_ok(m[p])
    &&& !overfull(m[p])
}

/// A page is decrypted to one page only.
proof fn unsealed_once(key: Seq<u8>, image: Seq<u8>, a: Seq<u8>, b: Seq<u8>)
    requires
        unsealed_page(key, image, a),
        unsealed_page(key, image, b),
    ensures
        a == b,
{
    assert forall|i: int| 0 <= i < 4092 implies a[i] == b[i] by {
        if i < 4068 {
            assert(a[i] == a.subrange(0, 4068)[i]);
            assert(b[i] == b.subrange(0, 4068)[i]);
        }
    }
    assert(a.subrange(0, 4092) =~= b.subrange(0, 4092));
    assert(bytes::get_u32(a, 4092) == bytes::get_u32(b, 4092));
    assert forall|i: int| 4092 <= i < 4096 implies a[i] == b[i] by {}
    assert(a =~= b);
}

/// What encrypted pages lead to is what the pages themselves lead to.
proof fn route_inside(
    images: Seq<Seq<u8>>,
    key: Seq<u8>,
    m: Map<u32, Seq<u8>>,
    tree: Set<u32>,
    path: Seq<u32>,
)
    requires
        route(images, key, path),
        tree.contains(path[0]),
        forall|p: u32| #[trigger] tree.contains(p) ==> sealed_in(images, key, m, p),
        forall|p: u32, q: u32|
            tree.contains(p) && #[trigger] leads_to(m[p], q) ==> tree.contains(q),
    ensures
        tree.contains(path.last()),
    decreases path.len(),
{
    if path.len() > 1 {
        let before = path.drop_last();
        assert forall|i: int| 0 <= i < before.len() - 1 implies step(
            images,
            key,
            #[trigger] before[i],
            before[i + 1],
        ) by {
            assert(step(images, key, path[i], path[i + 1]));
        }
        route_inside(images, key, m, tree, before);
        let k = path.len() - 2;
        assert(step(images, key, path[k], path[k + 1]));
        let s = choose|s: Seq<u8>| #[trigger]
            unsealed_page(key, images[path[k] as int], s) && leads_to(s, path[k + 1]);
        unsealed_once(key, images[path[k] as int], s, m[path[k]]);
    }
}

/// What a page of a tree leads to is within every set that holds its root and all that
/// its pages lead to.
proof fn in_closure(m: Map<u32, Seq<u8>>, tree: Set<u32>, p: u32, h: nat, q: u32)
    requires
        tree.contains(p),
        forall|a: u32, b: u32| tree.contains(a) && #[trigger] leads_to(m[a], b) ==> tree.contains(b),
        forall|a: u32| #[trigger] tree.contains(a) ==> m.contains_key(a),
        tree::owns(btree::view_of(m), p, h, q),
    ensures
        tree.contains(q),
    decreases h,
{
    let t = btree::view_of(m);
    if q != p {
        reveal(tree::owns);
        assert(t[p] == btree_node::node_of(m[p]));
        let children = t[p]->children;
        let i = choose|i: int|
            0 <= i < children.len() && tree::owns(t, #[trigger] children[i], (h - 1) as nat, q);
        assert(child_at(m[p], i) == children[i]);
        assert(leads_to(m[p], children[i]));
        in_closure(m, tree, children[i], (h - 1) as nat, q);
    }
}

/// A sealed page is what it was after its table was unlocked.
proof fn page_back(
    m: Map<u32, Seq<u8>>,
    d: BoogyDb,
    d2: BoogyDb,
    key: Seq<u8>,
    q: u32,
)
    requires
        preloaded(d.file_of(), d2.file_of(), key),
        exists|f1: PageFile, root: u32| #[trigger]
            walked(d.file_of(), f1, key, root) && swept(f1, d2.file_of(), key),
        q != 0,
        !d.file_of().holds(q),
        sealed_in(d.file_of().images(), key, m, q),
    ensures
        d2.pages().contains_key(q),
        d2.pages()[q] == m[q],
{
    assert(d2.file_of().holds(q));
    unsealed_once(key, d.file_of().images()[q as int], d2.pages()[q], m[q]);
}

/// Unlocking an encrypted table with its key succeeds, and the table then has the
/// cells that it had when the file was written.
pub proof fn unlock_restores_table(
    m: Map<u32, Seq<u8>>,
    d: BoogyDb,
    d2: BoogyDb,
    name: Seq<char>,
    key: Seq<u8>,
    r: Result<()>,
    tree: Set<u32>,
)
    requires
        table::table_place(d.views(), name) matches Some(i) && d.views()[i].encrypted
            && d.views()[i].key is None && tree.contains(d.views()[i].root_page) && btree::is_tree(
            m,
            d.views()[i].root_page,
        ),
        forall|p: u32| #[trigger]
            tree.contains(p) ==> m.contains_key(p) && 0 < p < d.file_of().count()
                && !d.file_of().holds(p) && sealed_in(d.file_of().images(), key, m, p),
        forall|p: u32, q: u32|
            tree.contains(p) && #[trigger] leads_to(m[p], q) ==> tree.contains(q),
        unlocked(d, d2, name, key, r),
    ensures
        r is Ok,
        ({
            let i = table::table_place(d.views(), name)->0;
            let root = d.views()[i].root_page;
            &&& d2.views() == d.views().update(i, TableView { key: Some(key), ..d.views()[i] })
            &&& btree::is_tree(d2.pages(), root)
            &&& btree::all_cells(d2.pages(), root) == btree::all_cells(m, root)
            &&& forall|k: u64| #[trigger]
                btree::cell_at(d2.pages(), root, k) == btree::cell_at(m, root, k)
            &&& forall|q: u32| #[trigger]
                tree::has(btree::view_of(m), root, q) ==> d2.pages()[q] == m[q]
        }),
{
    let i = table::table_place(d.views(), name)->0;
    let root = d.views()[i].root_page;
    let images = d.file_of().images();
    assert forall|p: u32| #[trigger] reached(images, key, root, p) implies tree.contains(p) by {
        let way = choose|way: Seq<u32>| #[trigger]
            route(images, key, way) && way[0] == root && way.last() == p;
        route_inside(images, key, m, tree, way);
    }
    if let Err(e) = r {
        let p = choose|p: u32| #[trigger]
            reached(images, key, root, p) && p < d.file_of().count() && p < images.len()
                && if crypto::opened(key, images[p as int]) is None {
                e is DecryptionFailed
            } else {
                e is Corruption && exists|s: Seq<u8>| #[trigger]
                    unsealed_page(key, images[p as int], s) && overfull(s)
            };
        assert(tree.contains(p));
        let s = choose|s: Seq<u8>| #[trigger]
            unsealed_page(key, images[p as int], s) && overfull(s);
        unsealed_once(key, images[p as int], s, m[p]);
    }
    let f1 = choose|f1: PageFile| #[trigger]
        walked(d.file_of(), f1, key, root) && swept(f1, d2.file_of(), key);
    let t = btree::view_of(m);
    let t2 = btree::view_of(d2.pages());
    assert(tree::is_root(t, root, tree::height(t, root)));
    assert forall|q: u32| #[trigger] tree::has(t, root, q) implies t2.contains_key(q) && t2[q] == t[q]
        && d2.pages()[q] == m[q] by {
        in_closure(m, tree, root, tree::height(t, root), q);
        page_back(m, d, d2, key, q);
    }
    tree::tree_kept(t, t2, root);
}

/// After the file was written, a page of a table can be had again with the key: the
/// images hold it encrypted, or they hold it as it is and the key does not fit it.
pub open spec fn kept_in(d: BoogyDb, key: Seq<u8>, m: Map<u32, Seq<u8>>, q: u32) -> bool {
    let images = d.file_of().images();
    ||| q != 0 && !d.file_of().holds(q) && q < images.len() && file::stored_as(
        Some(key),
        m[q],
        images[q as int],
    )
    ||| d.pages().contains_key(q) && d.pages()[q] == m[q] && (d.file_of().holds(q) || q
        >= images.len() || crypto::opened(key, images[q as int]) is None)
}

/// Unlocking an encrypted table gives back the whole table, its rows and its indexes:
/// if it was in order when the file was written, it is in order after it was unlocked,
/// with the same rows. The pages `m` are those that were in memory when the file was
/// written; of them the pages of the table are in the file, and so are overflow pages that
/// are trimmed, as those are that hold parts of its rows.
pub proof fn unlock_restores_rows(
    m: Map<u32, Seq<u8>>,
    d: BoogyDb,
    d2: BoogyDb,
    name: Seq<char>,
    key: Seq<u8>,
    r: Result<()>,
)
    requires
        table::table_place(d.views(), name) matches Some(i) && d.views()[i].encrypted
            && d.views()[i].key is None && crate::engine::table_sound(m, d.views()[i]) && forall|q: u32| #[trigger]
            crate::store::table_page(m, d.views()[i], q) ==> kept_in(d, key, m, q),
        forall|q: u32| #[trigger]
            m.contains_key(q) && page::flags_of(m[q]) == page::PAGE_OVERFLOW && page::trimmed(m[q])
                ==> m[q].len() == 4096 && kept_in(d, key, m, q),
        file::tidy(m),
        d.pages().contains_key(0),
        page::flags_of(d.pages()[0]) != page::PAGE_OVERFLOW,
        kept_in(d, key, d.pages(), 0),
        unlocked(d, d2, name, key, r),
        r is Ok,
    ensures
        ({
            let i = table::table_place(d.views(), name)->0;
            &&& d2.views() == d.views().update(i, TableView { key: Some(key), ..d.views()[i] })
            &&& crate::engine::table_sound(d2.pages(), d2.views()[i])
            &&& d2.rows(i) == crate::store::table_rows(m, d.views()[i])
        }),
{
    let i = table::table_place(d.views(), name)->0;
    let v = d.views()[i];
    let w = TableView { key: Some(key), ..v };
    let m2 = d2.pages();
    table::place_first(table::table_names_of(d.views()), name);
    assert forall|q: u32| #[trigger] kept_in(d, key, m, q) && m.contains_key(q) && m[q].len() == 4096
        && page::tail_clear(m[q]) implies m2.contains_key(q) && m2[q] == m[q] by {
        file::tidy_page(m, q);
        kept_back(m, d, d2, key, q);
    }
    kept_back(d.pages(), d, d2, key, 0);
    reveal(crate::engine::table_sound);
    crate::engine::table_pages_exist(m, v);
    reveal(crate::store::table_ok);
    let rows = crate::store::table_rows(m, v);
    assert forall|q: u32| #[trigger]
        m.contains_key(q) && page::flags_of(m[q]) == page::PAGE_OVERFLOW && page::trimmed(
            m[q],
        ) implies m2.contains_key(q) && m2[q] == m[q] by {
        assert(kept_in(d, key, m, q));
        page::trimmed_means(m[q]);
    }
    crate::store::trimmed_cells_lead_on(m, m2, v);
    assert forall|q: u32| #[trigger] crate::store::table_page(m, v, q) implies m2.contains_key(q)
        && m2[q] == m[q] by {
        assert(kept_in(d, key, m, q));
        reveal(crate::store::trim);
        page::trimmed_means(m[q]);
    }
    crate::store::table_kept_by_cells(m, m2, v, rows, rows, 0);
    assert(m2.contains_key(0) && page::flags_of(m2[0]) != page::PAGE_OVERFLOW);
    assert(!crate::store::table_page(m2, v, 0)) by {
        assert(crate::store::table_page(m2, v, 0) == crate::store::table_page(m, v, 0));
    }
    assert(crate::engine::table_sound(m2, v));
    crate::engine::trees_decide(m2, v, w);
    assert(crate::engine::table_sound(m2, w));
    assert(d2.views()[i] == w);
}

proof fn kept_back(m: Map<u32, Seq<u8>>, d: BoogyDb, d2: BoogyDb, key: Seq<u8>, q: u32)
    requires
        preloaded(d.file_of(), d2.file_of(), key),
        exists|f1: PageFile, root: u32| #[trigger]
            walked(d.file_of(), f1, key, root) && swept(f1, d2.file_of(), key),
        kept_in(d, key, m, q),
        q != 0 ==> m[q].len() == 4096 && page::tail_clear(m[q]) && page::checksum_ok(m[q]),
    ensures
        d2.pages().contains_key(q),
        d2.pages()[q] == m[q],
{
    let images = d.file_of().images();
    if d.pages().contains_key(q) && d.pages()[q] == m[q] && (d.file_of().holds(q) || q
        >= images.len() || crypto::opened(key, images[q as int]) is None) {
        assert(d.file_of().holds(q) || !d2.file_of().holds(q));
    } else {
        assert(d2.file_of().holds(q));
        unsealed_once(key, images[q as int], d2.pages()[q], m[q]);
    }
}

}
