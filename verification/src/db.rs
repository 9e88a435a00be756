//! The database: its pages, its tables, and what is to be written to its log.

use crate::btree;
use crate::btree_writer::BTreeWriter;
use crate::bytes;
use crate::crypto::{Cipher, ENCRYPTED_PAYLOAD_SIZE};
use crate::db_open;
use crate::engine;
use crate::engine::check_table_accessible;
use crate::engine_index;
use crate::engine_index::add_index;
use crate::error::{corruption, owned, BoogyError, Result};
use crate::file;
use crate::file::{PageFile, WriteGuard};
use crate::page;
use crate::page::{Page, PAGE_SIZE};
use crate::session::StateView;
use crate::store;
use crate::system_page;
use crate::system_page::serialize_system_page;
use crate::table;
use crate::table::{copy_columns, TableMeta, TableRegistry, TableView};
use crate::value::ColumnDef;
use vstd::prelude::*;

verus! {

/// Durability level for write operations.
#[derive(Debug, Clone, Copy, PartialEq, Eq, Structural)]
pub enum Durability {
    /// The log is synced on every commit. Survives power loss.
    Immediate,
    /// The log is written but not synced. Survives a crash of the process.
    Normal,
    /// Nothing is logged. Fastest; data may be lost on any crash.
    Never,
}

/// A page image for the write-ahead log.
pub struct LogRecord {
    pub table_id: u32,
    pub page_no: u32,
    pub image: [u8; PAGE_SIZE],
}

/// A log record as a mathematical value.
pub struct RecordView {
    pub table_id: u32,
    pub page_no: u32,
    pub image: Seq<u8>,
}

impl View for LogRecord {
    type V = RecordView;

    open spec fn view(&self) -> RecordView {
        RecordView { table_id: self.table_id, page_no: self.page_no, image: self.image@ }
    }
}

/// The records of a list.
pub open spec fn records_view(v: Seq<LogRecord>) -> Seq<RecordView> {
    v.map_values(|r: LogRecord| r@)
}

/// The main database handle.
pub struct BoogyDb {
    file: PageFile,
    tables: TableRegistry,
    durability: Durability,
    acid: bool,
    max_row_size: u32,
    log: Vec<LogRecord>,
    sync_due: bool,
}

/// The records give every page that changed its new contents.
pub open spec fn log_covers(
    m: Map<u32, Seq<u8>>,
    m2: Map<u32, Seq<u8>>,
    recs: Seq<RecordView>,
    key: Option<Seq<u8>>,
) -> bool {
    &&& forall|i: int|
        0 <= i < recs.len() ==> m2.contains_key((#[trigger] recs[i]).page_no) && file::stored_as(
            key,
            m2[recs[i].page_no],
            recs[i].image,
        )
    &&& forall|p: u32| #[trigger]
        m2.contains_key(p) && !(m.contains_key(p) && m[p] == m2[p]) ==> exists|i: int|
            0 <= i < recs.len() && (#[trigger] recs[i]).page_no == p
}

impl BoogyDb {
    /// The pages and what belongs to them.
    pub closed spec fn file_of(&self) -> PageFile {
        self.file
    }

    /// The tables.
    pub closed spec fn registry(&self) -> TableRegistry {
        self.tables
    }

    /// What can be set: the durability level, ACID mode, the size of rows.
    pub closed spec fn settings(&self) -> (Durability, bool, u32) {
        (self.durability, self.acid, self.max_row_size)
    }

    /// The records that are still to be written to the log.
    pub closed spec fn pending(&self) -> Seq<RecordView> {
        records_view(self.log@)
    }

    /// Whether the log is to be synced after the records are written.
    pub closed spec fn sync_wanted(&self) -> bool {
        self.sync_due
    }

    /// The contents of the pages.
    pub open spec fn pages(&self) -> Map<u32, Seq<u8>> {
        self.file_of().contents()
    }

    /// The tables as values.
    pub open spec fn views(&self) -> Seq<TableView> {
        self.registry()@
    }

    /// No change is half done, and table names differ.
    pub open spec fn wf(&self) -> bool {
        &&& self.file_of().wf()
        &&& self.file_of().changed() == Map::<u32, Seq<u8>>::empty()
        &&& self.file_of().added() == 0
        &&& self.registry().wf()
    }

    /// There is a system page, or there is no page at all.
    pub open spec fn has_system_page(&self) -> bool {
        self.file_of().count() > 0 ==> self.pages().contains_key(0) && page::flags_of(
            self.pages()[0],
        ) != page::PAGE_OVERFLOW
    }

    /// All tables are in order.
    pub open spec fn sound(&self) -> bool {
        &&& self.wf()
        &&& self.has_system_page()
        &&& engine::forest_ok(self.pages(), self.views())
    }

    /// Pages and tables.
    pub open spec fn state(&self) -> StateView {
        StateView {
            pages: self.pages(),
            tables: self.views(),
            total: self.file_of().count() as int,
        }
    }

    /// The rows of the table at a place.
    pub open spec fn rows(&self, i: int) -> Map<u64, Seq<u8>> {
        engine::rows_at(self.pages(), self.views(), i)
    }
}

/// Pages, tables and log are the same.
pub open spec fn unchanged(a: BoogyDb, b: BoogyDb) -> bool {
    &&& b.pages() == a.pages()
    &&& b.views() == a.views()
    &&& b.registry().next_id() == a.registry().next_id()
    &&& b.pending() == a.pending()
    &&& b.settings() == a.settings()
    &&& b.file_of().count() == a.file_of().count()
    &&& file::grounded(a.file_of(), b.file_of())
}

/// No table has a key at hand.
pub open spec fn plain(ts: Seq<TableView>) -> bool {
    forall|i: int| 0 <= i < ts.len() ==> (#[trigger] ts[i]).key is None
}

/// What a commit leaves of the file: its images, and where no table has a key the
/// keys of pages.
pub open spec fn on_ground(a: BoogyDb, b: BoogyDb) -> bool {
    &&& b.file_of().images() == a.file_of().images()
    &&& plain(a.views()) ==> b.file_of().keys() == a.file_of().keys()
}

/// The pages of a commit were logged, unless nothing is to be logged.
pub open spec fn pages_logged(
    a: BoogyDb,
    b: BoogyDb,
    m: Map<u32, Seq<u8>>,
    m2: Map<u32, Seq<u8>>,
    table_id: u32,
    key: Option<Seq<u8>>,
) -> bool {
    if a.settings().0 == Durability::Never {
        b.pending() == a.pending()
    } else {
        let recs = b.pending().skip(a.pending().len() as int);
        &&& a.pending().len() <= b.pending().len()
        &&& b.pending().take(a.pending().len() as int) == a.pending()
        &&& log_covers(m, m2, recs, key)
        &&& forall|i: int| 0 <= i < recs.len() ==> (#[trigger] recs[i]).table_id == table_id
        &&& a.settings().0 == Durability::Immediate ==> b.sync_wanted()
    }
}

/// A page is among those that were logged.
pub open spec fn logs_page(a: BoogyDb, b: BoogyDb, p: u32) -> bool {
    exists|i: int|
        a.pending().len() <= i < b.pending().len() && (#[trigger] b.pending()[i]).page_no == p
}

/// The keys of pages after changed ones were committed under a key.
pub open spec fn keys_after(
    keys: Map<u32, Seq<u8>>,
    changed: Map<u32, Seq<u8>>,
    key: Option<Seq<u8>>,
) -> Map<u32, Seq<u8>> {
    match key {
        None => keys,
        Some(k) => Map::new(
            |p: u32| keys.contains_key(p) || changed.contains_key(p),
            |p: u32|
                if changed.contains_key(p) {
                    k
                } else {
                    keys[p]
                },
        ),
    }
}

/// A log record that gives the tables, as a system page.
pub open spec fn tables_record(rec: RecordView, ts: Seq<TableView>, next_id: u32) -> bool {
    &&& rec.table_id == 0
    &&& rec.page_no == 0
    &&& tables_image(rec.image, ts, next_id)
}

/// The image of a system page with these tables.
pub open spec fn tables_image(image: Seq<u8>, ts: Seq<TableView>, next_id: u32) -> bool {
    &&& image.len() == PAGE_SIZE
    &&& file::valid_image(image)
    &&& page::flags_of(image) == page::PAGE_SYSTEM
    &&& system_page::holds_at(image, 16, system_page::registry_bytes(ts, next_id))
}

/// The records of a commit but for that of the tables, which comes last where the
/// tables fit into the system page.
pub open spec fn page_records(recs: Seq<RecordView>, ts: Seq<TableView>, next_id: u32) -> Seq<
    RecordView,
> {
    if system_page::registry_fits(ts, next_id) {
        recs.drop_last()
    } else {
        recs
    }
}

/// A commit was logged, unless nothing is to be logged: the pages that changed, then
/// the tables.
pub open spec fn logged(
    a: BoogyDb,
    b: BoogyDb,
    m: Map<u32, Seq<u8>>,
    m2: Map<u32, Seq<u8>>,
    table_id: u32,
    key: Option<Seq<u8>>,
) -> bool {
    if a.settings().0 == Durability::Never {
        b.pending() == a.pending()
    } else {
        let recs = b.pending().skip(a.pending().len() as int);
        let body = page_records(recs, b.views(), b.registry().next_id());
        &&& a.pending().len() <= b.pending().len()
        &&& b.pending().take(a.pending().len() as int) == a.pending()
        &&& log_covers(m, m2, body, key)
        &&& forall|i: int| 0 <= i < body.len() ==> (#[trigger] body[i]).table_id == table_id
        &&& system_page::registry_fits(b.views(), b.registry().next_id()) ==> recs.len() > 0
            && tables_record(recs.last(), b.views(), b.registry().next_id())
        &&& a.settings().0 == Durability::Immediate ==> b.sync_wanted()
    }
}

/// What is logged after the pages of a commit.
pub open spec fn tables_logged(a: BoogyDb, b: BoogyDb) -> bool {
    if a.settings().0 != Durability::Never && system_page::registry_fits(
        a.views(),
        a.registry().next_id(),
    ) {
        &&& b.pending().len() == a.pending().len() + 1
        &&& b.pending().drop_last() == a.pending()
        &&& tables_record(b.pending().last(), a.views(), a.registry().next_id())
    } else {
        b.pending() == a.pending()
    }
}

/// Pages and tables that are logged one after the other are a commit that is logged.
pub proof fn commit_logged(
    a: BoogyDb,
    mid: BoogyDb,
    c: BoogyDb,
    b: BoogyDb,
    m: Map<u32, Seq<u8>>,
    m2: Map<u32, Seq<u8>>,
    table_id: u32,
    key: Option<Seq<u8>>,
)
    requires
        pages_logged(a, mid, m, m2, table_id, key),
        c.pending() == mid.pending(),
        c.sync_wanted() == mid.sync_wanted(),
        c.settings() == a.settings(),
        b.sync_wanted() == c.sync_wanted(),
        b.views() == c.views(),
        b.registry().next_id() == c.registry().next_id(),
        tables_logged(c, b),
    ensures
        logged(a, b, m, m2, table_id, key),
{
    if a.settings().0 != Durability::Never {
        let n = a.pending().len() as int;
        let recs0 = mid.pending().skip(n);
        let recs = b.pending().skip(n);
        if system_page::registry_fits(b.views(), b.registry().next_id()) {
            assert(recs.drop_last() =~= recs0);
            assert(b.pending().take(n) =~= mid.pending().take(n)) by {
                assert forall|i: int| 0 <= i < n implies b.pending()[i] == mid.pending()[i] by {
                    assert(b.pending().drop_last()[i] == mid.pending()[i]);
                }
            }
        }
    }
}

/// An image for the log: encrypted under the table's key, if it has one.
fn log_image(data: &[u8; PAGE_SIZE], cipher: &Option<Cipher>) -> (r: Result<[u8; PAGE_SIZE]>)
    ensures
        r matches Ok(a) && file::stored_as(table::key_view(*cipher), data@, a@),
{
    match cipher {
        None => Ok(*data),
        Some(c) => {
            let payload = &data[0..ENCRYPTED_PAYLOAD_SIZE];
            assert(payload@ =~= data@.subrange(0, 4068));
            c.encrypt_page(payload)
        },
    }
}

impl BoogyDb {
    /// A database without tables over the pages of a file.
    pub(crate) fn over(file: PageFile) -> (db: BoogyDb)
        requires
            file.wf(),
            file.changed() == Map::<u32, Seq<u8>>::empty(),
            file.added() == 0,
        ensures
            db.wf(),
            db.file_of() == file,
            db.views() == Seq::<TableView>::empty(),
            db.registry().next_id() == 1,
            db.settings() == (Durability::Normal, false, 10485760u32),
            db.pending() == Seq::<RecordView>::empty(),
            !db.sync_wanted(),
    {
        let db = BoogyDb {
            file,
            tables: TableRegistry::new(),
            durability: Durability::Normal,
            acid: false,
            max_row_size: 10485760,
            log: Vec::new(),
            sync_due: false,
        };
        assert(records_view(db.log@) =~= Seq::<RecordView>::empty());
        db
    }

    /// A database over the pages of a file, with its tables.
    pub(crate) fn with_tables(file: PageFile, tables: TableRegistry) -> (db: BoogyDb)
        requires
            file.wf(),
            file.changed() == Map::<u32, Seq<u8>>::empty(),
            file.added() == 0,
            tables.wf(),
        ensures
            db.wf(),
            db.file_of() == file,
            db.registry() == tables,
            db.settings() == (Durability::Normal, false, 10485760u32),
            db.pending() == Seq::<RecordView>::empty(),
            !db.sync_wanted(),
    {
        let mut db = BoogyDb::over(file);
        db.tables = tables;
        db
    }

    /// Set the durability level for writes.
    pub fn set_durability(&mut self, d: Durability)
        ensures
            final(self).file_of() == old(self).file_of(),
            final(self).registry() == old(self).registry(),
            final(self).pending() == old(self).pending(),
            final(self).sync_wanted() == old(self).sync_wanted(),
            final(self).settings() == (d, old(self).settings().1, old(self).settings().2),
    {
        self.durability = d;
    }

    /// Get current durability level.
    pub fn durability(&self) -> (d: Durability)
        ensures
            d == self.settings().0,
    {
        self.durability
    }

    /// Enable or disable ACID transaction mode. When enabled, standalone write
    /// operations and `begin` work as transactions.
    pub fn set_acid(&mut self, enabled: bool)
        ensures
            final(self).file_of() == old(self).file_of(),
            final(self).registry() == old(self).registry(),
            final(self).pending() == old(self).pending(),
            final(self).sync_wanted() == old(self).sync_wanted(),
            final(self).settings() == (old(self).settings().0, enabled, old(self).settings().2),
    {
        self.acid = enabled;
    }

    /// Check whether ACID transaction mode is enabled.
    pub fn is_acid(&self) -> (b: bool)
        ensures
            b == self.settings().1,
    {
        self.acid
    }

    /// Set the maximum encoded row size in bytes. Rows larger than this are
    /// rejected with `RowTooLarge`. Default is 10 MiB.
    pub fn set_max_row_size(&mut self, bytes: u32)
        ensures
            final(self).file_of() == old(self).file_of(),
            final(self).registry() == old(self).registry(),
            final(self).pending() == old(self).pending(),
            final(self).sync_wanted() == old(self).sync_wanted(),
            final(self).settings() == (old(self).settings().0, old(self).settings().1, bytes),
    {
        self.max_row_size = bytes;
    }

    /// Get the current maximum row size in bytes.
    pub fn max_row_size(&self) -> (n: u32)
        ensures
            n == self.settings().2,
    {
        self.max_row_size
    }

    /// The tables of the database.
    pub fn tables(&self) -> (t: &TableRegistry)
        ensures
            *t == self.registry(),
    {
        &self.tables
    }

    /// The pages of the database.
    pub fn page_file(&self) -> (f: &PageFile)
        ensures
            *f == self.file_of(),
    {
        &self.file
    }

    /// Takes out the records that are to be written to the log, and whether the
    /// log is to be synced after them.
    pub fn take_log(&mut self) -> (r: (Vec<LogRecord>, bool))
        ensures
            records_view(r.0@) == old(self).pending(),
            r.1 == old(self).sync_wanted(),
            final(self).pending() == Seq::<RecordView>::empty(),
            !final(self).sync_wanted(),
            final(self).file_of() == old(self).file_of(),
            final(self).registry() == old(self).registry(),
            final(self).settings() == old(self).settings(),
    {
        let mut out: Vec<LogRecord> = Vec::new();
        std::mem::swap(&mut out, &mut self.log);
        let sync: bool = self.sync_due;
        self.sync_due = false;
        assert(records_view(self.log@) =~= Seq::<RecordView>::empty());
        (out, sync)
    }

    /// Starts to write: the pages move into a guard.
    pub(crate) fn start(&mut self) -> (g: WriteGuard)
        ensures
            g.inner() == old(self).file_of(),
            final(self).registry() == old(self).registry(),
            final(self).pending() == old(self).pending(),
            final(self).sync_wanted() == old(self).sync_wanted(),
            final(self).settings() == old(self).settings(),
    {
        let mut file = PageFile::open(Vec::new());
        std::mem::swap(&mut file, &mut self.file);
        file.begin_write()
    }

    /// Puts the pages back.
    pub(crate) fn restore(&mut self, file: PageFile)
        ensures
            final(self).file_of() == file,
            final(self).registry() == old(self).registry(),
            final(self).pending() == old(self).pending(),
            final(self).sync_wanted() == old(self).sync_wanted(),
            final(self).settings() == old(self).settings(),
    {
        self.file = file;
    }

    /// Replaces a table.
    pub(crate) fn set_table(&mut self, i: usize, meta: TableMeta)
        requires
            i < old(self).views().len(),
        ensures
            final(self).views() == old(self).views().update(i as int, meta@),
            final(self).registry().next_id() == old(self).registry().next_id(),
            old(self).registry().wf() && meta@.name == old(self).views()[i as int].name
                ==> final(self).registry().wf(),
            final(self).file_of() == old(self).file_of(),
            final(self).pending() == old(self).pending(),
            final(self).sync_wanted() == old(self).sync_wanted(),
            final(self).settings() == old(self).settings(),
    {
        self.tables.set(i, meta);
    }

    /// Replaces the tables by others with the same names.
    pub(crate) fn apply_tables(&mut self, tables: &TableRegistry)
        requires
            old(self).registry().wf(),
            tables@.len() == old(self).views().len(),
            table::table_names_of(tables@) == table::table_names_of(old(self).views()),
        ensures
            final(self).registry().wf(),
            final(self).views() == tables@,
            final(self).registry().next_id() == old(self).registry().next_id(),
            final(self).file_of() == old(self).file_of(),
            final(self).pending() == old(self).pending(),
            final(self).sync_wanted() == old(self).sync_wanted(),
            final(self).settings() == old(self).settings(),
    {
        let n: usize = tables.len();
        let mut i: usize = 0;
        while i < n
            invariant
                i <= n,
                n == tables@.len(),
                n == self.tables@.len(),
                self.tables.wf(),
                self.tables.next_id() == old(self).tables.next_id(),
                self.file == old(self).file,
                self.log == old(self).log,
                self.sync_due == old(self).sync_due,
                self.durability == old(self).durability,
                self.acid == old(self).acid,
                self.max_row_size == old(self).max_row_size,
                table::table_names_of(tables@) == table::table_names_of(self.tables@),
                forall|j: int| 0 <= j < i ==> (#[trigger] self.tables@[j]) == tables@[j],
            decreases n - i,
        {
            let ghost names = table::table_names_of(self.tables@);
            let meta = tables.at(i).clone();
            assert(table::table_names_of(tables@)[i as int] == names[i as int]);
            self.tables.set(i, meta);
            assert(table::table_names_of(self.tables@) =~= names);
            i += 1;
        }
        assert(self.tables@ =~= tables@);
    }

    /// Commit a guard: publish its pages and log their after-images as the
    /// durability level asks. Pages of encrypted tables are logged encrypted,
    /// and are marked to be encrypted when they are written out.
    pub(crate) fn commit_write(&mut self, guard: WriteGuard, table_id: u32, cipher: &Option<Cipher>) -> (r:
        Result<()>)
        requires
            guard.wf(),
        ensures
            r is Ok,
            final(self).registry() == old(self).registry(),
            final(self).settings() == old(self).settings(),
            final(self).file_of().wf(),
            final(self).file_of().changed() == Map::<u32, Seq<u8>>::empty(),
            final(self).file_of().added() == 0,
            final(self).file_of().count() == guard.total(),
            final(self).pages() == guard.pages(),
            final(self).file_of().images() == guard.inner().images(),
            table::key_view(*cipher) is None ==> file::grounded(
                guard.inner(),
                final(self).file_of(),
            ),
            final(self).file_of().keys() == keys_after(
                guard.inner().keys(),
                guard.inner().changed(),
                table::key_view(*cipher),
            ),
            old(self).settings().0 != Durability::Never ==> forall|p: u32| #[trigger]
                guard.inner().changed().contains_key(p) ==> logs_page(*old(self), *final(self), p),
            forall|i: int|
                old(self).pending().len() <= i < final(self).pending().len()
                    ==> guard.inner().changed().contains_key(
                    (#[trigger] final(self).pending()[i]).page_no,
                ),
            pages_logged(
                *old(self),
                *final(self),
                guard.inner().contents(),
                guard.pages(),
                table_id,
                table::key_view(*cipher),
            ),
    {
        let ghost g = guard;
        let ghost m = g.inner().contents();
        let ghost m2 = g.pages();
        let ghost order = g.inner().changed_order();
        let ghost before = self.pending();
        let (file, images): (PageFile, Vec<(u32, [u8; PAGE_SIZE])>) = guard.commit();
        self.file = file;
        let n: usize = images.len();
        match cipher {
            None => {},
            Some(c) => {
                let mut i: usize = 0;
                while i < n
                    invariant
                        i <= n,
                        n == images@.len(),
                        n == order.len(),
                        forall|k: int| 0 <= k < n ==> (#[trigger] images@[k]).0 == order[k],
                        forall|p: u32| #[trigger]
                            self.file.key_of(p) == if order.take(i as int).contains(p) {
                                Some(c.secret())
                            } else {
                                g.inner().key_of(p)
                            },
                        self.file.wf(),
                        self.file.changed() == Map::<u32, Seq<u8>>::empty(),
                        self.file.added() == 0,
                        self.file.count() == g.total(),
                        self.file.contents() == m2,
                        self.file.images() == g.inner().images(),
                        self.tables == old(self).tables,
                        self.durability == old(self).durability,
                        self.acid == old(self).acid,
                        self.max_row_size == old(self).max_row_size,
                        self.log == old(self).log,
                        self.sync_due == old(self).sync_due,
                    decreases n - i,
                {
                    self.file.register_page_cipher(images[i].0, c.clone());
                    proof {
                        let x = order[i as int];
                        let before = order.take(i as int);
                        assert(order.take(i + 1) =~= before.push(x));
                        assert forall|p: u32| order.take(i + 1).contains(p) <==> before.contains(p)
                            || p == x by {
                            pushed(before, x, p);
                        }
                    }
                    i += 1;
                }
                proof {
                    assert(order.take(n as int) =~= order);
                    let after = keys_after(
                        g.inner().keys(),
                        g.inner().changed(),
                        table::key_view(*cipher),
                    );
                    assert forall|p: u32| #[trigger]
                        self.file.keys().dom().contains(p) == after.dom().contains(p) by {
                        assert(self.file.key_of(p) is Some == self.file.keys().contains_key(p));
                        assert(g.inner().key_of(p) is Some == g.inner().keys().contains_key(p));
                        assert(g.inner().changed().contains_key(p) <==> order.contains(p));
                    }
                    assert(self.file.keys().dom() =~= after.dom());
                    assert forall|p: u32| #[trigger] after.dom().contains(p) implies self.file.keys()[p]
                        == after[p] by {
                        assert(self.file.key_of(p) is Some == self.file.keys().contains_key(p));
                        assert(g.inner().key_of(p) is Some == g.inner().keys().contains_key(p));
                        assert(g.inner().changed().contains_key(p) <==> order.contains(p));
                    }
                    assert(self.file.keys() =~= after);
                }
            },
        }
        if self.durability == Durability::Never {
            return Ok(());
        }
        let mut i: usize = 0;
        while i < n
            invariant
                i <= n,
                n == images@.len(),
                n == order.len(),
                self.file.wf(),
                self.file.changed() == Map::<u32, Seq<u8>>::empty(),
                self.file.added() == 0,
                self.file.count() == g.total(),
                self.file.contents() == m2,
                self.file.images() == g.inner().images(),
                self.file.keys() == keys_after(
                    g.inner().keys(),
                    g.inner().changed(),
                    table::key_view(*cipher),
                ),
                self.tables == old(self).tables,
                self.durability == old(self).durability,
                self.acid == old(self).acid,
                self.max_row_size == old(self).max_row_size,
                self.sync_due == old(self).sync_due,
                before == records_view(old(self).log@),
                self.log@.len() == before.len() + i,
                m2 == g.pages(),
                forall|k: int|
                    0 <= k < n ==> (#[trigger] images@[k]).0 == order[k] && images@[k].1@
                        == g.inner().changed()[images@[k].0],
                forall|p: u32| #[trigger] g.inner().changed().contains_key(p) <==> order.contains(p),
                forall|k: int| 0 <= k < before.len() ==> (#[trigger] self.log@[k])@ == before[k],
                forall|k: int|
                    0 <= k < i ==> {
                        let rec = #[trigger] self.log@[before.len() + k];
                        &&& rec.table_id == table_id
                        &&& rec.page_no == order[k]
                        &&& file::stored_as(
                            table::key_view(*cipher),
                            m2[rec.page_no],
                            rec.image@,
                        )
                    },
            decreases n - i,
        {
            let image = log_image(&images[i].1, cipher)?;
            assert(order.contains(order[i as int]));
            assert(m2[images@[i as int].0] == images@[i as int].1@);
            self.log.push(LogRecord { table_id, page_no: images[i].0, image });
            i += 1;
        }
        if self.durability == Durability::Immediate {
            self.sync_due = true;
        }
        proof {
            let recs = self.pending().skip(before.len() as int);
            assert(self.pending().take(before.len() as int) =~= before);
            assert forall|k: int| 0 <= k < recs.len() implies {
                &&& (#[trigger] recs[k]).table_id == table_id
                &&& recs[k].page_no == order[k]
                &&& m2.contains_key(recs[k].page_no)
                &&& file::stored_as(table::key_view(*cipher), m2[recs[k].page_no], recs[k].image)
            } by {
                assert(recs[k] == self.log@[before.len() + k]@);
                assert(order.contains(order[k]));
            }
            assert forall|p: u32| #[trigger]
                m2.contains_key(p) && !(m.contains_key(p) && m[p] == m2[p]) implies exists|k: int|
                0 <= k < recs.len() && (#[trigger] recs[k]).page_no == p by {
                assert(g.inner().changed().contains_key(p));
                assert(order.contains(p));
                let k = choose|k: int| 0 <= k < order.len() && order[k] == p;
                assert(recs[k].page_no == p);
            }
            assert forall|p: u32| #[trigger] g.inner().changed().contains_key(p) implies logs_page(
                *old(self),
                *self,
                p,
            ) by {
                assert(order.contains(p));
                let k = choose|k: int| 0 <= k < order.len() && order[k] == p;
                assert(recs[k] == self.pending()[before.len() + k]);
            }
            assert forall|k: int| before.len() <= k < self.pending().len() implies g.inner().changed().contains_key(
                (#[trigger] self.pending()[k]).page_no,
            ) by {
                assert(recs[k - before.len()] == self.pending()[k]);
                assert(order.contains(order[k - before.len()]));
            }
        }
        Ok(())
    }

    /// Commit a guard that changed one table: publish and log its pages, and the
    /// table as it is now.
    pub(crate) fn commit_table(&mut self, guard: WriteGuard, i: usize, meta: TableMeta)
        requires
            guard.wf(),
            old(self).registry().wf(),
            i < old(self).views().len(),
            meta@.name == old(self).views()[i as int].name,
        ensures
            final(self).wf(),
            final(self).views() == old(self).views().update(i as int, meta@),
            final(self).registry().next_id() == old(self).registry().next_id(),
            final(self).settings() == old(self).settings(),
            final(self).file_of().count() == guard.total(),
            final(self).pages() == guard.pages(),
            final(self).file_of().images() == guard.inner().images(),
            meta@.key is None ==> file::grounded(guard.inner(), final(self).file_of()),
            logged(
                *old(self),
                *final(self),
                guard.inner().contents(),
                guard.pages(),
                meta@.table_id,
                meta@.key,
            ),
    {
        let ghost g = guard;
        let ghost v = meta@;
        let table_id: u32 = meta.table_id;
        let committed = self.commit_write(guard, table_id, &meta.cipher);
        let ghost mid = *self;
        self.set_table(i, meta);
        let ghost c = *self;
        self.log_tables();
        proof {
            commit_logged(
                *old(self),
                mid,
                c,
                *self,
                g.inner().contents(),
                g.pages(),
                v.table_id,
                v.key,
            );
        }
    }

    /// Logs the tables as they are now, as the durability level asks: a commit may
    /// change the roots of trees and the row counts.
    pub(crate) fn log_tables(&mut self)
        requires
            old(self).registry().wf(),
        ensures
            final(self).file_of() == old(self).file_of(),
            final(self).registry() == old(self).registry(),
            final(self).settings() == old(self).settings(),
            final(self).sync_wanted() == old(self).sync_wanted(),
            tables_logged(*old(self), *final(self)),
    {
        if self.durability == Durability::Never {
            return;
        }
        let metas = self.tables.snapshot();
        let next_id: u32 = self.tables.next_table_id();
        match serialize_system_page(metas.as_slice(), next_id) {
            Ok(page) => {
                self.log.push(LogRecord { table_id: 0, page_no: 0, image: page.data });
                assert(self.pending().drop_last() =~= old(self).pending());
            },
            Err(_) => {},
        }
    }

    /// Persist the table registry to the system page (page 0).
    pub(crate) fn persist_registry(&mut self) -> (r: Result<()>)
        requires
            old(self).wf(),
        ensures
            file::grounded(old(self).file_of(), final(self).file_of()),
            file::tidy(old(self).pages()) ==> file::tidy(final(self).pages()),
            final(self).wf(),
            final(self).registry() == old(self).registry(),
            final(self).settings() == old(self).settings(),
            r is Ok <==> system_page::registry_fits(
                old(self).views(),
                old(self).registry().next_id(),
            ),
            r matches Err(e) ==> e is Corruption && unchanged(*old(self), *final(self)),
            r is Ok ==> {
                let image = final(self).pages()[0];
                &&& final(self).pages() == old(self).pages().insert(0, image)
                &&& image.len() == PAGE_SIZE
                &&& file::valid_image(image)
                &&& page::flags_of(image) == page::PAGE_SYSTEM
                &&& system_page::holds_at(
                    image,
                    16,
                    system_page::registry_bytes(
                        old(self).views(),
                        old(self).registry().next_id(),
                    ),
                )
                &&& pages_logged(
                    *old(self),
                    *final(self),
                    old(self).pages(),
                    final(self).pages(),
                    0,
                    None,
                )
                &&& old(self).settings().0 != Durability::Never ==> logs_page(
                    *old(self),
                    *final(self),
                    0,
                )
            },
    {
        let metas = self.tables.snapshot();
        let next_id: u32 = self.tables.next_table_id();
        let page: Page = serialize_system_page(metas.as_slice(), next_id)?;
        let ghost m = self.pages();
        let mut guard = self.start();
        if guard.page_file().page_count() == 0 {
            let got = guard.allocate_page();
            assert(got is Ok);
        }
        let ghost g0 = guard;
        let ghost image = page.data@;
        guard.put_page(0, page);
        assert(guard.pages() =~= m.insert(0, image)) by {
            assert(g0.pages().insert(0, image) =~= m.insert(0, image));
        }
        proof {
            file::tidy_put(m, 0, image);
            assert(guard.inner().changed().contains_key(0));
        }
        self.commit_write(guard, 0, &None)
    }
}

/// What a list holds after one more was put at its end.
pub proof fn pushed(s: Seq<u32>, x: u32, q: u32)
    ensures
        s.push(x).contains(q) <==> s.contains(q) || q == x,
{
    assert(s.push(x)[s.len() as int] == x);
    if s.contains(q) {
        let i = choose|i: int| 0 <= i < s.len() && s[i] == q;
        assert(s.push(x)[i] == q);
    }
}

/// The table as it is created.
pub open spec fn fresh_table(
    name: Seq<char>,
    table_id: u32,
    columns: Seq<crate::value::ColumnView>,
    root_page: u32,
    key: Option<Seq<u8>>,
) -> TableView {
    TableView {
        name,
        table_id,
        columns,
        root_page,
        row_count: 0,
        next_rowid: 1,
        indexes: Seq::empty(),
        encrypted: key is Some,
        key,
    }
}

/// What comes of creating a table.
pub open spec fn table_created(
    a: BoogyDb,
    b: BoogyDb,
    name: Seq<char>,
    columns: Seq<crate::value::ColumnView>,
    key: Option<Seq<u8>>,
    r: Result<()>,
) -> bool {
    let id = a.registry().next_id();
    if table::table_place(a.views(), name) is Some {
        &&& r matches Err(BoogyError::TableExists(t)) && t@ == name
        &&& unchanged(a, b)
    } else if id == u32::MAX || a.file_of().count() + 2 > u32::MAX {
        &&& r matches Err(BoogyError::Corruption(_))
        &&& unchanged(a, b)
    } else {
        let root = b.views().last().root_page;
        &&& b.views() == a.views().push(fresh_table(name, id, columns, root, key))
        &&& b.registry().next_id() == id + 1
        &&& registry_saved(b, r)
        &&& a.sound() ==> {
            &&& b.sound()
            &&& b.rows(a.views().len() as int) == Map::<u64, Seq<u8>>::empty()
            &&& forall|i: int| 0 <= i < a.views().len() ==> #[trigger] b.rows(i) == a.rows(i)
        }
    }
}

impl BoogyDb {
    /// Create a new table.
    pub fn create_table(&mut self, name: &str, columns: &[ColumnDef]) -> (r: Result<()>)
        requires
            old(self).wf(),
        ensures
            on_ground(*old(self), *final(self)),
            r is Ok && file::tidy(old(self).pages()) ==> file::tidy(final(self).pages()),
            final(self).wf(),
            final(self).settings() == old(self).settings(),
            r is Ok && old(self).settings().0 != Durability::Never ==> db_open::secured(
                *old(self),
                *final(self),
            ),
            table_created(
                *old(self),
                *final(self),
                name@,
                table::columns_view(columns@),
                None,
                r,
            ),
    {
        self.add_table(name, columns, None)
    }

    /// Create a new encrypted table. Data pages are encrypted at rest with
    /// AES-256-GCM using the provided 32-byte key.
    pub fn create_table_encrypted(&mut self, name: &str, columns: &[ColumnDef], key: &[u8; 32]) -> (r:
        Result<()>)
        requires
            old(self).wf(),
        ensures
            final(self).file_of().images() == old(self).file_of().images(),
            r is Ok && file::tidy(old(self).pages()) ==> file::tidy(final(self).pages()),
            final(self).wf(),
            final(self).settings() == old(self).settings(),
            table_created(
                *old(self),
                *final(self),
                name@,
                table::columns_view(columns@),
                Some(key@),
                r,
            ),
            final(self).views() != old(self).views() ==> final(self).file_of().keys() == old(
                self,
            ).file_of().keys().insert(final(self).views().last().root_page, key@),
    {
        self.add_table(name, columns, Some(Cipher::new(key)))
    }

    /// Makes the system page, which is still to be filled, if the file is empty.
    fn reserve_system_page(&mut self)
        requires
            old(self).wf(),
        ensures
            final(self).wf(),
            final(self).registry() == old(self).registry(),
            final(self).settings() == old(self).settings(),
            final(self).file_of().count() == if old(self).file_of().count() == 0 {
                1
            } else {
                old(self).file_of().count()
            },
            final(self).pages() == if old(self).file_of().count() == 0 {
                old(self).pages().insert(0, db_open::blank_image())
            } else {
                old(self).pages()
            },
            file::grounded(old(self).file_of(), final(self).file_of()),
            old(self).settings().0 != Durability::Never ==> db_open::carried(
                *old(self),
                *final(self),
            ),
    {
        let mut guard = self.start();
        assert(guard.pages() =~= old(self).pages());
        if guard.page_file().page_count() == 0 {
            let got = guard.allocate_page();
            assert(got is Ok);
            assert(guard.pages() =~= old(self).pages().insert(0, db_open::blank_image()));
        }
        let committed = self.commit_write(guard, 0, &None);
        proof {
            if old(self).settings().0 != Durability::Never {
                db_open::log_carries(*old(self), *self, 0);
            }
        }
    }

    fn add_table(&mut self, name: &str, columns: &[ColumnDef], cipher: Option<Cipher>) -> (r: Result<()>)
        requires
            old(self).wf(),
        ensures
            final(self).file_of().images() == old(self).file_of().images(),
            r is Ok && file::tidy(old(self).pages()) ==> file::tidy(final(self).pages()),
            final(self).wf(),
            final(self).settings() == old(self).settings(),
            table_created(
                *old(self),
                *final(self),
                name@,
                table::columns_view(columns@),
                table::key_view(cipher),
                r,
            ),
            table::key_view(cipher) is None ==> final(self).file_of().keys() == old(
                self,
            ).file_of().keys(),
            table::key_view(cipher) matches Some(key) ==> final(self).views() != old(self).views()
                ==> final(self).file_of().keys() == old(self).file_of().keys().insert(
                final(self).views().last().root_page,
                key,
            ),
            r is Ok && table::key_view(cipher) is None && old(self).settings().0
                != Durability::Never ==> db_open::secured(*old(self), *final(self)),
    {
        if self.tables.position(name).is_some() {
            return Err(BoogyError::TableExists(owned(name)));
        }
        if self.tables.next_table_id() == u32::MAX || self.file.page_count() > u32::MAX - 2 {
            return Err(corruption("no number is left for a table or its pages"));
        }
        let ghost m = self.pages();
        let ghost ts = self.views();
        let ghost key = table::key_view(cipher);
        proof {
            self.file.contents_bounded();
            assert(page::flags_of(db_open::blank_image()) == 0);
        }
        self.reserve_system_page();
        let ghost d0 = *self;
        let ghost m0 = self.pages();
        let mut guard = self.start();
        assert(guard.pages() =~= m0);
        proof {
            guard.pages_bounded();
        }
        let root: u32 = match BTreeWriter::create(&mut guard) {
            Ok(p) => p,
            Err(e) => {
                assert(false);
                self.restore(guard.discard());
                return Err(e);
            },
        };
        let ghost m1 = guard.pages();
        let ghost changed = guard.inner().changed();
        let id: u32 = self.tables.take_id();
        let ghost d1 = *self;
        let committed = self.commit_write(guard, id, &cipher);
        let ghost d2 = *self;
        proof {
            assert(self.file.keys() =~= match key {
                None => old(self).file.keys(),
                Some(k) => old(self).file.keys().insert(root, k),
            });
        }
        let mut meta = TableMeta::new(owned(name), id, copy_columns(columns), root);
        meta.encrypted = cipher.is_some();
        meta.cipher = cipher;
        let ghost v = meta@;
        self.tables.put(meta);
        let ghost ts1 = self.views();
        proof {
            table::place_first(table::table_names_of(ts), name@);
            assert(ts1 == ts.push(v));
            assert(root != 0);
        }
        let ghost before = *self;
        let r = self.persist_registry();
        proof {
            if r is Ok {
                let blank = db_open::blank_image();
                file::tidy_pair(m, 0, blank, root, m1[root], self.pages()[0]);
                file::tidy_put(m1, 0, self.pages()[0]);
            }
            if r is Ok && key is None && old(self).settings().0 != Durability::Never {
                db_open::saving_secures(before, *self);
                db_open::table_carried(d0, d1, d2, id);
                db_open::carried_then_secured(d0, d2, before, *self);
                db_open::carried_then_secured(*old(self), d0, d0, *self);
            }
            if old(self).sound() {
                let m2 = self.pages();
                added_sound(m, m0, m1, ts, v);
                if r is Ok {
                    let image = m2[0];
                    assert(0x04u16 != 0x10u16);
                    engine::forest_system_page(m1, image, ts1);
                }
            }
        }
        r
    }
}

/// A database with a new table is in order.
proof fn added_sound(
    m: Map<u32, Seq<u8>>,
    m0: Map<u32, Seq<u8>>,
    m1: Map<u32, Seq<u8>>,
    ts: Seq<TableView>,
    v: TableView,
)
    requires
        engine::forest_ok(m, ts),
        !table::table_names_of(ts).contains(v.name),
        m0 == m || m0 == m.insert(0, db_open::blank_image()) && !m.contains_key(0),
        m0.contains_key(0),
        page::flags_of(m0[0]) != page::PAGE_OVERFLOW,
        v.root_page != 0,
        !m0.contains_key(v.root_page),
        m1 == m0.insert(v.root_page, m1[v.root_page]),
        btree::is_tree(m1, v.root_page),
        forall|k: u64| (#[trigger] btree::cell_at(m1, v.root_page, k)) is None,
        forall|q: u32| #[trigger]
            crate::tree::has(btree::view_of(m1), v.root_page, q) <==> q == v.root_page,
        page::trimmed(m1[v.root_page]),
        v.indexes.len() == 0,
        v.row_count == 0,
    ensures
        engine::forest_ok(m1, ts.push(v)),
        engine::rows_at(m1, ts.push(v), ts.len() as int) == Map::<u64, Seq<u8>>::empty(),
        forall|i: int|
            0 <= i < ts.len() ==> #[trigger] engine::rows_at(m1, ts.push(v), i)
                == engine::rows_at(m, ts, i),
{
    engine::new_table_sound(m1, v);
    engine::forest_added(m, m1, ts, v);
}

/// The tables are written to the system page.
pub open spec fn system_page_saved(b: BoogyDb) -> bool {
    &&& b.pages().contains_key(0)
    &&& b.pages()[0].len() == PAGE_SIZE
    &&& file::valid_image(b.pages()[0])
    &&& page::flags_of(b.pages()[0]) == page::PAGE_SYSTEM
    &&& system_page::holds_at(
        b.pages()[0],
        16,
        system_page::registry_bytes(b.views(), b.registry().next_id()),
    )
}

/// What was done to the tables was written to the system page, or did not fit.
pub open spec fn registry_saved(b: BoogyDb, r: Result<()>) -> bool {
    &&& r is Ok <==> system_page::registry_fits(b.views(), b.registry().next_id())
    &&& r matches Err(e) ==> e is Corruption
    &&& r is Ok ==> system_page_saved(b)
}

/// What comes of dropping a table.
pub open spec fn table_dropped(a: BoogyDb, b: BoogyDb, name: Seq<char>, r: Result<()>) -> bool {
    match table::table_place(a.views(), name) {
        None => {
            &&& r matches Err(BoogyError::TableNotFound(t)) && t@ == name
            &&& unchanged(a, b)
        },
        Some(i) => {
            &&& b.views() == a.views().remove(i)
            &&& registry_saved(b, r)
            &&& a.sound() ==> {
                &&& b.sound()
                &&& forall|j: int|
                    0 <= j < b.views().len() ==> #[trigger] b.rows(j) == a.rows(
                        if j < i {
                            j
                        } else {
                            j + 1
                        },
                    )
            }
        },
    }
}

/// What comes of dropping an index.
pub open spec fn index_dropped(
    a: BoogyDb,
    b: BoogyDb,
    name: Seq<char>,
    index_name: Seq<char>,
    r: Result<()>,
) -> bool {
    match table::table_place(a.views(), name) {
        None => {
            &&& r matches Err(BoogyError::TableNotFound(t)) && t@ == name
            &&& unchanged(a, b)
        },
        Some(i) => {
            let v = a.views()[i];
            if engine::locked(v) {
                &&& r matches Err(BoogyError::TableLocked(t)) && t@ == name
                &&& unchanged(a, b)
            } else {
                match table::place(table::index_names(v.indexes), index_name) {
                    None => {
                        &&& r matches Err(BoogyError::IndexNotFound(x)) && x@ == index_name
                        &&& unchanged(a, b)
                    },
                    Some(p) => {
                        &&& b.views() == a.views().update(
                            i,
                            TableView { indexes: v.indexes.remove(p), ..v },
                        )
                        &&& registry_saved(b, r)
                        &&& a.sound() ==> {
                            &&& b.sound()
                            &&& forall|j: int|
                                0 <= j < b.views().len() ==> #[trigger] b.rows(j) == a.rows(j)
                        }
                    },
                }
            }
        },
    }
}

/// A table without one of its indexes is in order.
proof fn index_removed(m: Map<u32, Seq<u8>>, v: TableView, p: int)
    requires
        engine::table_sound(m, v),
        0 <= p < v.indexes.len(),
    ensures
        engine::table_sound(m, TableView { indexes: v.indexes.remove(p), ..v }),
        store::only_table(m, m, v, TableView { indexes: v.indexes.remove(p), ..v }),
{
    reveal(engine::table_sound);
    reveal(store::table_ok);
    reveal(store::apart);
    reveal(store::trim);
    reveal(store::only_table);
    let w = TableView { indexes: v.indexes.remove(p), ..v };
    let rows = store::table_rows(m, v);
    let old_at = |j: int|
        if j < p {
            j
        } else {
            j + 1
        };
    assert forall|j: int| 0 <= j < w.indexes.len() implies #[trigger] w.indexes[j]
        == v.indexes[old_at(j)] by {}
    assert forall|j: int| 0 <= j < w.indexes.len() implies #[trigger] store::staged(
        m,
        w,
        rows,
        rows,
        0,
        j,
    ) by {
        assert(w.indexes[j] == v.indexes[old_at(j)]);
        assert(store::staged(m, v, rows, rows, 0, old_at(j)));
    }
    assert forall|i: int, q: u32| 0 <= i < w.indexes.len() implies !(#[trigger] store::key_page(
        m,
        w.indexes[i].root_page,
        q,
    ) && store::row_page(m, w.root_page, q)) by {
        assert(w.indexes[i] == v.indexes[old_at(i)]);
        assert(!(store::key_page(m, v.indexes[old_at(i)].root_page, q) && store::row_page(
            m,
            v.root_page,
            q,
        )));
    }
    assert forall|i: int, j: int, q: u32| 0 <= i < j < w.indexes.len() implies !(
    #[trigger] store::key_page(m, w.indexes[i].root_page, q) && #[trigger] store::key_page(
        m,
        w.indexes[j].root_page,
        q,
    )) by {
        assert(w.indexes[i] == v.indexes[old_at(i)] && w.indexes[j] == v.indexes[old_at(j)]);
        assert(!(store::key_page(m, v.indexes[old_at(i)].root_page, q) && store::key_page(
            m,
            v.indexes[old_at(j)].root_page,
            q,
        )));
    }
    assert forall|k: u64| #[trigger] rows.contains_key(k) implies store::indexable(w, rows[k], k) by {
        assert(store::indexable(v, rows[k], k));
        assert forall|i: int| 0 <= i < w.indexes.len() implies store::short_entry(
            #[trigger] store::entry_of(w.columns, w.indexes[i], rows[k], k),
        ) by {
            assert(w.indexes[i] == v.indexes[old_at(i)]);
            assert(store::short_entry(
                store::entry_of(v.columns, v.indexes[old_at(i)], rows[k], k),
            ));
        }
    }
    assert forall|q: u32| #[trigger] store::table_page(m, w, q) implies store::table_page(m, v, q) by {
        if !store::row_page(m, w.root_page, q) {
            let i = choose|i: int|
                0 <= i < w.indexes.len() && #[trigger] store::key_page(
                    m,
                    w.indexes[i].root_page,
                    q,
                );
            assert(w.indexes[i] == v.indexes[old_at(i)]);
            assert(store::key_page(m, v.indexes[old_at(i)].root_page, q));
        }
    }
}

/// What comes of creating an index.
pub open spec fn index_created(
    a: BoogyDb,
    b: BoogyDb,
    name: Seq<char>,
    index_name: Seq<char>,
    column: Seq<char>,
    r: Result<()>,
) -> bool {
    match table::table_place(a.views(), name) {
        None => {
            &&& r matches Err(BoogyError::TableNotFound(t)) && t@ == name
            &&& unchanged(a, b)
        },
        Some(i) => {
            let v = a.views()[i];
            if engine::locked(v) {
                &&& r matches Err(BoogyError::TableLocked(t)) && t@ == name
                &&& unchanged(a, b)
            } else if table::place(table::index_names(v.indexes), index_name) is Some {
                &&& r matches Err(BoogyError::IndexExists(x)) && x@ == index_name
                &&& unchanged(a, b)
            } else if table::column_id(v.columns, column) is None {
                &&& r matches Err(BoogyError::SchemaMismatch(_))
                &&& unchanged(a, b)
            } else if engine::table_sound(a.pages(), v) && !engine_index::column_indexable(
                v,
                column,
                a.rows(i),
            ) {
                &&& r matches Err(e) && engine_index::column_unlistable(v, column, a.rows(i), e)
                &&& unchanged(a, b)
            } else if b.views() == a.views() {
                &&& r is Err
                &&& unchanged(a, b)
                &&& engine::table_sound(a.pages(), v) && engine_index::column_indexable(
                    v,
                    column,
                    a.rows(i),
                ) ==> (r matches Err(e) && store::tree_error(e)) && a.file_of().count() + 1 + 66
                    * a.rows(i).dom().len() > u32::MAX
            } else {
                &&& b.views() == a.views().update(
                    i,
                    engine_index::with_index(
                        v,
                        engine_index::index_on(
                            index_name,
                            column,
                            b.views()[i].indexes.last().root_page,
                        ),
                    ),
                )
                &&& registry_saved(b, r)
                &&& engine::table_sound(a.pages(), v) && engine_index::column_indexable(
                    v,
                    column,
                    a.rows(i),
                ) ==> {
                    &&& a.has_system_page() ==> b.has_system_page()
                    &&& engine::table_sound(b.pages(), b.views()[i])
                    &&& b.rows(i) == a.rows(i)
                    &&& engine::others_kept(a.pages(), b.pages(), a.views(), b.views(), i)
                    &&& a.sound() ==> b.sound()
                }
            }
        },
    }
}

impl BoogyDb {
    /// Drop a table.
    pub fn drop_table(&mut self, name: &str) -> (r: Result<()>)
        requires
            old(self).wf(),
        ensures
            on_ground(*old(self), *final(self)),
            file::tidy(old(self).pages()) ==> file::tidy(final(self).pages()),
            final(self).wf(),
            final(self).settings() == old(self).settings(),
            r is Ok && old(self).settings().0 != Durability::Never ==> db_open::secured(
                *old(self),
                *final(self),
            ),
            table_dropped(*old(self), *final(self), name@, r),
    {
        let ghost m = self.pages();
        let ghost ts = self.views();
        proof {
            table::place_first(table::table_names_of(ts), name@);
        }
        match self.tables.remove(name) {
            None => {
                return Err(BoogyError::TableNotFound(owned(name)));
            },
            Some(_) => {},
        }
        let ghost ts1 = self.views();
        let ghost before = *self;
        let r = self.persist_registry();
        proof {
            if r is Ok && old(self).settings().0 != Durability::Never {
                db_open::saving_secures(before, *self);
                db_open::same_start(*old(self), before, *self);
            }
            if old(self).sound() {
                let i = table::table_place(ts, name@)->0;
                engine::forest_removed(m, ts, i);
                if r is Ok {
                    engine::forest_system_page(m, self.pages()[0], ts1);
                }
                assert forall|j: int| 0 <= j < ts1.len() implies #[trigger] self.rows(j) == old(
                    self,
                ).rows(
                    if j < i {
                        j
                    } else {
                        j + 1
                    },
                ) by {
                    assert(engine::rows_at(self.pages(), ts1, j) == engine::rows_at(m, ts1, j));
                }
            }
        }
        r
    }

    /// Drop a secondary index.
    pub fn drop_index(&mut self, table: &str, index_name: &str) -> (r: Result<()>)
        requires
            old(self).wf(),
        ensures
            on_ground(*old(self), *final(self)),
            file::tidy(old(self).pages()) ==> file::tidy(final(self).pages()),
            final(self).wf(),
            final(self).settings() == old(self).settings(),
            r is Ok && old(self).settings().0 != Durability::Never ==> db_open::secured(
                *old(self),
                *final(self),
            ),
            index_dropped(*old(self), *final(self), table@, index_name@, r),
    {
        let ghost m = self.pages();
        let ghost ts = self.views();
        let i: usize = match self.tables.position(table) {
            Some(i) => i,
            None => {
                return Err(BoogyError::TableNotFound(owned(table)));
            },
        };
        let mut meta = self.tables.at(i).clone();
        check_table_accessible(&meta, table)?;
        let ghost v = meta@;
        let p: usize = match meta.index_position(index_name) {
            Some(p) => p,
            None => {
                return Err(BoogyError::IndexNotFound(owned(index_name)));
            },
        };
        meta.indexes.remove(p);
        let ghost w = TableView { indexes: v.indexes.remove(p as int), ..v };
        assert(meta@.indexes =~= v.indexes.remove(p as int));
        self.tables.set(i, meta);
        let ghost ts1 = self.views();
        let ghost before = *self;
        let r = self.persist_registry();
        proof {
            if r is Ok && old(self).settings().0 != Durability::Never {
                db_open::saving_secures(before, *self);
                db_open::same_start(*old(self), before, *self);
            }
            if old(self).sound() {
                assert(engine::table_sound(m, ts[i as int]));
                index_removed(m, v, p as int);
                engine::forest_step(m, m, ts, i as int, w);
                if r is Ok {
                    engine::forest_system_page(m, self.pages()[0], ts1);
                }
                assert forall|j: int| 0 <= j < ts1.len() implies #[trigger] self.rows(j) == old(
                    self,
                ).rows(j) by {
                    assert(engine::rows_at(self.pages(), ts1, j) == engine::rows_at(m, ts1, j));
                    if j != i {
                        assert(ts1[j] == ts[j]);
                    }
                }
            }
        }
        r
    }

    /// Create a secondary index on a table column.
    pub fn create_index(&mut self, table: &str, index_name: &str, column: &str) -> (r: Result<()>)
        requires
            old(self).wf(),
        ensures
            on_ground(*old(self), *final(self)),
            file::tidy(old(self).pages()) ==> file::tidy(final(self).pages()),
            final(self).wf(),
            final(self).settings() == old(self).settings(),
            r is Ok && plain(old(self).views()) && old(self).settings().0 != Durability::Never
                ==> db_open::secured(*old(self), *final(self)),
            index_created(*old(self), *final(self), table@, index_name@, column@, r),
    {
        let ghost m = self.pages();
        let ghost ts = self.views();
        let i: usize = match self.tables.position(table) {
            Some(i) => i,
            None => {
                return Err(BoogyError::TableNotFound(owned(table)));
            },
        };
        let mut meta = self.tables.at(i).clone();
        check_table_accessible(&meta, table)?;
        let ghost v = meta@;
        let ghost good = engine::table_sound(m, v) && engine_index::column_indexable(
            v,
            column@,
            self.rows(i as int),
        );
        let mut guard = self.start();
        assert(guard.pages() =~= m);
        match add_index(&mut guard, &mut meta, index_name, column) {
            Ok(_) => {},
            Err(e) => {
                self.restore(guard.discard());
                return Err(e);
            },
        }
        let ghost m1 = guard.pages();
        let ghost w = meta@;
        let table_id: u32 = meta.table_id;
        let ghost d1 = *self;
        let committed = self.commit_write(guard, table_id, &meta.cipher);
        let ghost d2 = *self;
        self.tables.set(i, meta);
        let ghost ts1 = self.views();
        proof {
            assert(ts1 != ts) by {
                if ts1 == ts {
                    assert(ts1[i as int].indexes.len() == ts[i as int].indexes.len());
                }
            }
        }
        let ghost before = *self;
        let r = self.persist_registry();
        proof {
            if r is Ok && plain(old(self).views()) && old(self).settings().0 != Durability::Never {
                db_open::saving_secures(before, *self);
                db_open::table_carried(*old(self), d1, d2, table_id);
                db_open::carried_then_secured(*old(self), d2, before, *self);
            }
            if good {
                engine::table_step(m, m1, ts, i as int, w);
                created_system_page(m, m1, v, w);
                if r is Ok {
                    engine::others_system_page(m, m1, self.pages()[0], ts, ts1, i as int);
                }
                if old(self).sound() {
                    engine::forest_step(m, m1, ts, i as int, w);
                    if r is Ok {
                        engine::forest_system_page(m1, self.pages()[0], ts1);
                    }
                }
            }
        }
        r
    }
}

/// The system page stays when a table changes within its own pages.
pub proof fn created_system_page(
    m: Map<u32, Seq<u8>>,
    m1: Map<u32, Seq<u8>>,
    v: TableView,
    w: TableView,
)
    requires
        engine::table_sound(m, v),
        store::only_table(m, m1, v, w),
    ensures
        m.contains_key(0),
        m1.contains_key(0),
        m1[0] == m[0],
        page::flags_of(m1[0]) != page::PAGE_OVERFLOW,
{
    reveal(engine::table_sound);
    engine::system_page_kept(m, m1, v, w);
}

}
