//! Transactions: all-or-nothing in ACID mode, else each operation on its own.

use crate::btree;
use crate::btree_writer::BTreeWriter;
use crate::db;
use crate::db_rows;
use crate::db::{BoogyDb, Durability};
use crate::engine;
use crate::engine::{add_row, change_row, check_table_accessible, drop_row, enforce_index_types};
use crate::engine_list::{change_listed, drop_listed, passing_ids};
use crate::error::{corruption, owned, BoogyError, Result};
use crate::file;
use crate::file::{PageSet, WriteGuard};
use crate::filter::{Filter, FindOptions};
use crate::finder;
use crate::finder::{finish_query, keep_passing};
use crate::query;
use crate::query::{FindResult, Row};
use crate::room;
use crate::row;
use crate::session;
use crate::session::StateView;
use crate::store;
use crate::system_page;
use crate::table;
use crate::table::{TableMeta, TableRegistry, TableView};
use crate::value::Value;
use std::collections::HashMap;
use vstd::prelude::*;

verus! {

broadcast use vstd::std_specs::hash::group_hash_axioms;

/// A transaction of ACID mode: its changes stay in a buffer of its own until it
/// commits. One that is dropped leaves the database as it was.
pub struct AcidTransaction<'a> {
    pub db: &'a mut BoogyDb,
    pub dirty: PageSet,
    pub new_page_count: u32,
    pub tables: TableRegistry,
    pub touched: Vec<usize>,
    /// The place of the table that each changed page belongs to.
    pub owners: HashMap<u32, usize>,
}

/// The pages of a buffer with the tables that they belong to: those that did not belong
/// to one yet belong to the table at a place.
pub open spec fn with_owners(owners: Map<u32, usize>, dirty: Map<u32, Seq<u8>>, i: usize) -> Map<
    u32,
    usize,
> {
    Map::new(
        |p: u32| dirty.contains_key(p),
        |p: u32|
            if owners.contains_key(p) {
                owners[p]
            } else {
                i
            },
    )
}

/// Pages belong to the tables that they belonged to, or to the table at a place.
pub open spec fn passed_on(a: Map<u32, usize>, b: Map<u32, usize>, i: usize) -> bool {
    forall|p: u32| #[trigger]
        b.contains_key(p) ==> b[p] == i || a.contains_key(p) && b[p] == a[p]
}

/// Places with one more, unless it is among them.
pub open spec fn with_place(places: Seq<usize>, i: usize) -> Seq<usize> {
    if places.contains(i) {
        places
    } else {
        places.push(i)
    }
}

/// Nothing of the database changed.
pub open spec fn untouched(a: BoogyDb, b: BoogyDb) -> bool {
    &&& db::unchanged(a, b)
    &&& b.sync_wanted() == a.sync_wanted()
    &&& a.wf() ==> b.wf()
}

/// What a transaction did up to some point.
struct Saved {
    dirty: PageSet,
    new_page_count: u32,
    tables: TableRegistry,
    touched: Vec<usize>,
    owners: HashMap<u32, usize>,
}

impl Saved {
    spec fn is_of(&self, t: AcidTransaction<'_>) -> bool {
        &&& self.dirty.wf()
        &&& self.dirty@ == t.dirty@
        &&& self.new_page_count == t.new_page_count
        &&& self.tables.wf()
        &&& self.tables@ == t.tables@
        &&& self.touched@ == t.touched@
        &&& self.owners@ == t.owners@
    }
}

/// See [`with_owners`].
fn owned_pages(owners: &HashMap<u32, usize>, dirty: &PageSet, i: usize) -> (r: HashMap<u32, usize>)
    requires
        dirty.wf(),
    ensures
        r@ == with_owners(owners@, dirty@, i),
{
    let mut r: HashMap<u32, usize> = HashMap::new();
    let n: usize = dirty.len();
    let ghost all = dirty.numbers();
    let mut k: usize = 0;
    while k < n
        invariant
            k <= n,
            n == all.len(),
            all == dirty.numbers(),
            forall|p: u32| #[trigger] r@.contains_key(p) <==> all.take(k as int).contains(p),
            forall|p: u32| #[trigger]
                r@.contains_key(p) ==> r@[p] == if owners@.contains_key(p) {
                    owners@[p]
                } else {
                    i
                },
        decreases n - k,
    {
        let p: u32 = dirty.number(k);
        let owner: usize = match owners.get(&p) {
            Some(j) => *j,
            None => i,
        };
        r.insert(p, owner);
        proof {
            assert(all.take(k + 1) =~= all.take(k as int).push(p));
            assert forall|q: u32| all.take(k + 1).contains(q) <==> all.take(k as int).contains(q)
                || q == p by {
                db::pushed(all.take(k as int), p, q);
            }
        }
        k += 1;
    }
    assert(all.take(n as int) =~= all);
    assert(r@ =~= with_owners(owners@, dirty@, i)) by {
        assert forall|p: u32| #[trigger] r@.dom().contains(p) == with_owners(
            owners@,
            dirty@,
            i,
        ).dom().contains(p) by {
            assert(r@.contains_key(p) <==> dirty@.contains_key(p));
        }
    }
    r
}

/// The pages of a buffer that belong to the table at a place.
fn pages_owned(dirty: &PageSet, owners: &HashMap<u32, usize>, j: usize) -> (r: PageSet)
    requires
        dirty.wf(),
        forall|p: u32| #[trigger] dirty@.contains_key(p) ==> owners@.contains_key(p),
    ensures
        r.wf(),
        forall|p: u32| #[trigger]
            r@.contains_key(p) <==> dirty@.contains_key(p) && owners@[p] == j,
        forall|p: u32| #[trigger] r@.contains_key(p) ==> r@[p] == dirty@[p],
{
    let mut r = PageSet::new();
    let n: usize = dirty.len();
    let ghost all = dirty.numbers();
    let mut k: usize = 0;
    while k < n
        invariant
            k <= n,
            n == all.len(),
            all == dirty.numbers(),
            dirty.wf(),
            r.wf(),
            forall|p: u32| #[trigger] dirty@.contains_key(p) ==> owners@.contains_key(p),
            forall|p: u32| #[trigger]
                r@.contains_key(p) <==> all.take(k as int).contains(p) && owners@[p] == j,
            forall|p: u32| #[trigger] r@.contains_key(p) ==> r@[p] == dirty@[p],
        decreases n - k,
    {
        let p: u32 = dirty.number(k);
        proof {
            assert(all.contains(p)) by {
                assert(all[k as int] == p);
            }
            assert(dirty@.contains_key(p));
            assert(all.take(k + 1) =~= all.take(k as int).push(p));
            assert forall|q: u32| all.take(k + 1).contains(q) <==> all.take(k as int).contains(q)
                || q == p by {
                db::pushed(all.take(k as int), p, q);
            }
        }
        match (owners.get(&p), dirty.get(p)) {
            (Some(owner), Some(page)) => {
                if *owner == j {
                    r.put(p, page.duplicate());
                }
            },
            _ => {},
        }
        k += 1;
    }
    assert(all.take(n as int) =~= all);
    r
}

impl<'a> AcidTransaction<'a> {
    /// What operations within the transaction see.
    pub open spec fn state(&self) -> StateView {
        StateView {
            pages: self.db.pages().union_prefer_right(self.dirty@),
            tables: self.tables@,
            total: self.db.file_of().count() + self.new_page_count,
        }
    }

    /// The buffer holds pages within the numbers taken, and tables that were
    /// not touched are those of the database.
    pub open spec fn wf(&self) -> bool {
        &&& self.db.wf()
        &&& self.dirty.wf()
        &&& self.tables.wf()
        &&& self.state().total <= u32::MAX
        &&& forall|p: u32| #[trigger] self.dirty@.contains_key(p) ==> p < self.state().total
        &&& self.tables@.len() == self.db.views().len() <= usize::MAX
        &&& table::table_names_of(self.tables@) == table::table_names_of(self.db.views())
        &&& forall|i: int|
            0 <= i < self.tables@.len() ==> (#[trigger] self.tables@[i]).key == self.db.views()[i].key
        &&& forall|i: int|
            0 <= i < self.touched@.len() ==> (#[trigger] self.touched@[i]) < self.tables@.len()
        &&& self.touched@.len() == 0 ==> self.tables@ == self.db.views()
        &&& forall|p: u32| #[trigger] self.owners@.contains_key(p) <==> self.dirty@.contains_key(p)
        &&& forall|p: u32| #[trigger]
            self.owners@.contains_key(p) ==> self.owners@[p] < self.tables@.len()
    }

    /// Begins a transaction.
    pub fn new(db: &'a mut BoogyDb) -> (t: AcidTransaction<'a>)
        requires
            old(db).wf(),
        ensures
            t.wf(),
            t.state() == old(db).state(),
            t.dirty@ == Map::<u32, Seq<u8>>::empty(),
            t.touched@ == Seq::<usize>::empty(),
            t.owners@ == Map::<u32, usize>::empty(),
            *t.db == *old(db),
            *final(db) == *final(t.db),
    {
        let tables = TableRegistry::of(db.tables().snapshot(), db.tables().next_table_id());
        let count: usize = tables.len();
        let t = AcidTransaction {
            db,
            dirty: PageSet::new(),
            new_page_count: 0,
            tables,
            touched: Vec::new(),
            owners: HashMap::new(),
        };
        assert(t.state().pages =~= t.db.pages());
        t
    }

    /// Borrows the pages with the changes of the transaction in them.
    fn open_guard(&mut self) -> (g: WriteGuard)
        requires
            old(self).wf(),
        ensures
            g.wf(),
            g.pages() == old(self).state().pages,
            g.total() == old(self).state().total,
            g.inner().changed() == old(self).dirty@,
            g.inner().contents() == old(self).db.pages(),
            g.inner().count() == old(self).db.file_of().count(),
            file::grounded(old(self).db.file_of(), g.inner()),
            final(self).tables == old(self).tables,
            final(self).touched == old(self).touched,
            final(self).owners == old(self).owners,
            final(self).db.registry() == old(self).db.registry(),
            final(self).db.pending() == old(self).db.pending(),
            final(self).db.sync_wanted() == old(self).db.sync_wanted(),
            final(self).db.settings() == old(self).db.settings(),
            *final(final(self).db) == *final(old(self).db),
    {
        let mut g = self.db.start();
        let mut pages = PageSet::new();
        std::mem::swap(&mut pages, &mut self.dirty);
        g.inject_dirty(pages);
        g.set_new_page_count(self.new_page_count);
        assert(g.inner().changed() =~= old(self).dirty@);
        g
    }

    /// Takes the changes back into the transaction, and gives the pages back. New changes
    /// are those of the table at a place.
    fn close_guard(&mut self, guard: WriteGuard, i: usize)
        requires
            guard.wf(),
        ensures
            final(self).dirty.wf(),
            final(self).dirty@ == guard.inner().changed(),
            final(self).new_page_count == guard.inner().added(),
            final(self).db.file_of().wf(),
            final(self).db.file_of().changed() == Map::<u32, Seq<u8>>::empty(),
            final(self).db.file_of().added() == 0,
            final(self).db.file_of().count() == guard.inner().count(),
            final(self).db.pages() == guard.inner().contents(),
            file::grounded(guard.inner(), final(self).db.file_of()),
            final(self).tables == old(self).tables,
            final(self).touched == old(self).touched,
            final(self).owners@ == with_owners(old(self).owners@, guard.inner().changed(), i),
            final(self).db.registry() == old(self).db.registry(),
            final(self).db.pending() == old(self).db.pending(),
            final(self).db.sync_wanted() == old(self).db.sync_wanted(),
            final(self).db.settings() == old(self).db.settings(),
            *final(final(self).db) == *final(old(self).db),
    {
        let mut guard = guard;
        self.new_page_count = guard.new_page_count();
        self.dirty = guard.drain_dirty();
        self.owners = owned_pages(&self.owners, &self.dirty, i);
        guard.set_new_page_count(0);
        self.db.restore(guard.discard());
    }

    /// Gives the pages back, and drops what an operation did to them.
    fn abandon(&mut self, guard: WriteGuard, dirty: PageSet, new_page_count: u32)
        requires
            guard.wf(),
            dirty.wf(),
        ensures
            final(self).dirty == dirty,
            final(self).new_page_count == new_page_count,
            final(self).db.file_of().wf(),
            final(self).db.file_of().changed() == Map::<u32, Seq<u8>>::empty(),
            final(self).db.file_of().added() == 0,
            final(self).db.file_of().count() == guard.inner().count(),
            final(self).db.pages() == guard.inner().contents(),
            file::grounded(guard.inner(), final(self).db.file_of()),
            final(self).tables == old(self).tables,
            final(self).touched == old(self).touched,
            final(self).owners == old(self).owners,
            final(self).db.registry() == old(self).db.registry(),
            final(self).db.pending() == old(self).db.pending(),
            final(self).db.sync_wanted() == old(self).db.sync_wanted(),
            final(self).db.settings() == old(self).db.settings(),
            *final(final(self).db) == *final(old(self).db),
    {
        self.new_page_count = new_page_count;
        self.dirty = dirty;
        self.db.restore(guard.discard());
    }

    /// What the transaction did up to here.
    fn save(&self) -> (r: Saved)
        requires
            self.wf(),
        ensures
            r.is_of(*self),
    {
        let mut touched: Vec<usize> = Vec::new();
        let mut i: usize = 0;
        while i < self.touched.len()
            invariant
                i <= self.touched@.len(),
                touched@ == self.touched@.take(i as int),
            decreases self.touched@.len() - i,
        {
            touched.push(self.touched[i]);
            assert(self.touched@.take(i + 1) =~= self.touched@.take(i as int).push(
                self.touched@[i as int],
            ));
            i += 1;
        }
        assert(self.touched@.take(i as int) =~= self.touched@);
        assert(with_owners(self.owners@, self.dirty@, 0) =~= self.owners@);
        Saved {
            dirty: self.dirty.duplicate(),
            new_page_count: self.new_page_count,
            tables: TableRegistry::of(self.tables.snapshot(), self.tables.next_table_id()),
            touched,
            owners: owned_pages(&self.owners, &self.dirty, 0),
        }
    }

    /// Takes back what the transaction did since then.
    fn rewind(&mut self, saved: Saved)
        ensures
            final(self).dirty == saved.dirty,
            final(self).new_page_count == saved.new_page_count,
            final(self).tables == saved.tables,
            final(self).touched == saved.touched,
            final(self).owners == saved.owners,
            *final(self).db == *old(self).db,
            *final(final(self).db) == *final(old(self).db),
    {
        self.dirty = saved.dirty;
        self.new_page_count = saved.new_page_count;
        self.tables = saved.tables;
        self.touched = saved.touched;
        self.owners = saved.owners;
    }

    /// Notes that a table was changed.
    fn touch(&mut self, i: usize, meta: TableMeta)
        requires
            i < old(self).tables@.len(),
            meta@.name == old(self).tables@[i as int].name,
            meta@.key == old(self).tables@[i as int].key,
            old(self).tables.wf(),
            forall|j: int|
                0 <= j < old(self).touched@.len() ==> (#[trigger] old(self).touched@[j])
                    < old(self).tables@.len(),
        ensures
            final(self).tables.wf(),
            final(self).tables@ == old(self).tables@.update(i as int, meta@),
            final(self).touched@ == with_place(old(self).touched@, i),
            forall|j: int|
                0 <= j < final(self).touched@.len() ==> (#[trigger] final(self).touched@[j])
                    < final(self).tables@.len(),
            final(self).touched@.len() > 0,
            table::table_names_of(final(self).tables@) == table::table_names_of(old(self).tables@),
            final(self).dirty == old(self).dirty,
            final(self).owners == old(self).owners,
            final(self).new_page_count == old(self).new_page_count,
            *final(self).db == *old(self).db,
            *final(final(self).db) == *final(old(self).db),
    {
        self.tables.set(i, meta);
        let n: usize = self.touched.len();
        let mut j: usize = 0;
        let mut known: bool = false;
        while j < n
            invariant
                j <= n,
                n == self.touched@.len(),
                known ==> self.touched@.contains(i),
                !known ==> forall|x: int| 0 <= x < j ==> (#[trigger] self.touched@[x]) != i,
            decreases n - j,
        {
            if self.touched[j] == i {
                known = true;
            }
            j += 1;
        }
        if !known {
            self.touched.push(i);
        }
        assert(table::table_names_of(self.tables@) =~= table::table_names_of(old(self).tables@));
    }
}

/// Finds a table that can be used.
pub(crate) fn find_table(tables: &TableRegistry, table: &str, Ghost(s): Ghost<StateView>) -> (r: Result<
    (usize, TableMeta),
>)
    requires
        s.tables == tables@,
    ensures
        match r {
            Ok(p) => session::usable(s, table@) && p.0 == session::place_of(s, table@) && p.0
                < s.tables.len() && p.1@ == s.tables[p.0 as int] && p.1@.name == table@,
            Err(e) => !session::usable(s, table@) && session::refused(s, table@, e),
        },
{
    match tables.position(table) {
        Some(i) => {
            let meta = tables.at(i).clone();
            check_table_accessible(&meta, table)?;
            Ok((i, meta))
        },
        None => Err(BoogyError::TableNotFound(owned(table))),
    }
}

impl<'a> AcidTransaction<'a> {
    /// Stores a row of a table in the buffer.
    fn store_row(&mut self, i: usize, meta: TableMeta, rowid: u64, data: &[(&str, Value)]) -> (r: Result<
        (),
    >)
        requires
            old(self).wf(),
            i < old(self).tables@.len(),
            meta@ == old(self).tables@[i as int],
            rowid < u64::MAX,
        ensures
            r is Ok && file::tidy(old(self).state().pages) ==> file::tidy(final(self).state().pages),
            final(self).wf(),
            untouched(*old(self).db, *final(self).db),
            *final(final(self).db) == *final(old(self).db),
            r is Err ==> final(self).state() == old(self).state(),
            r is Err ==> final(self).touched@ == old(self).touched@,
            r is Err ==> final(self).owners@ == old(self).owners@,
            r is Ok ==> final(self).owners@ == with_owners(
                old(self).owners@,
                final(self).dirty@,
                i,
            ),
            r is Ok ==> final(self).touched@ == with_place(old(self).touched@, i),
            session::row_stored(
                old(self).state(),
                final(self).state(),
                i as int,
                rowid,
                engine::data_view(data@),
                old(self).db.settings().2,
                r,
            ),
    {
        let ghost s = self.state();
        let ghost v = meta@;
        let mut meta = meta;
        let max: u32 = self.db.max_row_size();
        proof {
            if s.in_order(i as int) {
                session::sound_table(s, i as int);
            }
        }
        let saved: PageSet = self.dirty.duplicate();
        let saved_count: u32 = self.new_page_count;
        let mut guard = self.open_guard();
        let r = add_row(&mut guard, &mut meta, rowid, data, max);
        let ghost m2 = guard.pages();
        if r.is_err() {
            self.abandon(guard, saved, saved_count);
            assert(self.state() =~= s);
        } else {
            self.close_guard(guard, i);
            assert(self.state().pages =~= m2);
        }
        match r {
            Ok(_) => {
                self.touch(i, meta);
                proof {
                    let s2 = self.state();
                    let bytes = engine::new_row(v, rowid, engine::data_view(data@));
                    if s.in_order(i as int) && v.row_count < u64::MAX && store::readable(bytes)
                        && store::indexable(v, bytes, rowid) && bytes.len() <= max {
                        session::step(s, s2, i as int);
                    }
                }
                Ok(())
            },
            Err(e) => Err(e),
        }
    }

    /// Insert a row with auto-increment rowid.
    pub fn insert(&mut self, table: &str, data: &[(&str, Value)]) -> (r: Result<u64>)
        requires
            old(self).wf(),
        ensures
            r is Ok && file::tidy(old(self).state().pages) ==> file::tidy(final(self).state().pages),
            final(self).wf(),
            untouched(*old(self).db, *final(self).db),
            *final(final(self).db) == *final(old(self).db),
            r is Err ==> final(self).state() == old(self).state(),
            r is Err ==> final(self).touched@ == old(self).touched@,
            r is Err ==> final(self).owners@ == old(self).owners@,
            r is Ok ==> final(self).owners@ == with_owners(
                old(self).owners@,
                final(self).dirty@,
                session::place_of(old(self).state(), table@) as usize,
            ),
            r is Ok ==> final(self).touched@ == with_place(
                old(self).touched@,
                session::place_of(old(self).state(), table@) as usize,
            ),
            session::inserted(
                old(self).state(),
                final(self).state(),
                table@,
                engine::data_view(data@),
                old(self).db.settings().2,
                r,
            ),
    {
        let (i, meta): (usize, TableMeta) = find_table(&self.tables, table, Ghost(self.state()))?;
        enforce_index_types(&meta, data)?;
        let rowid: u64 = meta.next_rowid;
        if rowid == u64::MAX {
            return Err(corruption("row numbers exhausted"));
        }
        self.store_row(i, meta, rowid, data)?;
        Ok(rowid)
    }

    /// Insert a row with a caller-supplied rowid.
    pub fn insert_with_id(&mut self, table: &str, rowid: u64, data: &[(&str, Value)]) -> (r: Result<
        (),
    >)
        requires
            old(self).wf(),
        ensures
            r is Ok && file::tidy(old(self).state().pages) ==> file::tidy(final(self).state().pages),
            final(self).wf(),
            untouched(*old(self).db, *final(self).db),
            *final(final(self).db) == *final(old(self).db),
            r is Err ==> final(self).state() == old(self).state(),
            r is Err ==> final(self).touched@ == old(self).touched@,
            r is Err ==> final(self).owners@ == old(self).owners@,
            r is Ok ==> final(self).owners@ == with_owners(
                old(self).owners@,
                final(self).dirty@,
                session::place_of(old(self).state(), table@) as usize,
            ),
            r is Ok ==> final(self).touched@ == with_place(
                old(self).touched@,
                session::place_of(old(self).state(), table@) as usize,
            ),
            session::inserted_with_id(
                old(self).state(),
                final(self).state(),
                table@,
                rowid,
                engine::data_view(data@),
                old(self).db.settings().2,
                r,
            ),
    {
        let (i, meta): (usize, TableMeta) = find_table(&self.tables, table, Ghost(self.state()))?;
        enforce_index_types(&meta, data)?;
        if rowid == u64::MAX {
            return Err(corruption("row numbers exhausted"));
        }
        self.store_row(i, meta, rowid, data)
    }

    /// Update a row by rowid.
    pub fn update(&mut self, table: &str, id: u64, fields: &[(&str, Value)]) -> (r: Result<bool>)
        requires
            old(self).wf(),
        ensures
            r is Ok && file::tidy(old(self).state().pages) ==> file::tidy(final(self).state().pages),
            final(self).wf(),
            untouched(*old(self).db, *final(self).db),
            *final(final(self).db) == *final(old(self).db),
            r is Err ==> final(self).state() == old(self).state(),
            r is Err ==> final(self).touched@ == old(self).touched@,
            r is Err ==> final(self).owners@ == old(self).owners@,
            r is Ok ==> final(self).owners@ == with_owners(
                old(self).owners@,
                final(self).dirty@,
                session::place_of(old(self).state(), table@) as usize,
            ),
            r == Ok::<bool, BoogyError>(false) ==> final(self).touched@ == old(self).touched@,
            r == Ok::<bool, BoogyError>(true) ==> final(self).touched@ == with_place(
                old(self).touched@,
                session::place_of(old(self).state(), table@) as usize,
            ),
            session::updated(
                old(self).state(),
                final(self).state(),
                table@,
                id,
                engine::data_view(fields@),
                old(self).db.settings().2,
                r,
            ),
    {
        let ghost s = self.state();
        let (i, meta): (usize, TableMeta) = find_table(&self.tables, table, Ghost(s))?;
        enforce_index_types(&meta, fields)?;
        let ghost v = meta@;
        let mut meta = meta;
        let max: u32 = self.db.max_row_size();
        proof {
            if s.in_order(i as int) {
                session::sound_table(s, i as int);
            }
        }
        let saved: PageSet = self.dirty.duplicate();
        let saved_count: u32 = self.new_page_count;
        let mut guard = self.open_guard();
        let r = change_row(&mut guard, &mut meta, id, fields, max);
        let ghost m2 = guard.pages();
        if r.is_err() {
            self.abandon(guard, saved, saved_count);
            assert(self.state() =~= s);
        } else {
            self.close_guard(guard, i);
            assert(self.state().pages =~= m2);
        }
        match r {
            Ok(true) => {
                self.touch(i, meta);
                proof {
                    let s2 = self.state();
                    let bytes = engine::updated_row(
                        v,
                        id,
                        s.rows(i as int)[id],
                        engine::data_view(fields@),
                    );
                    if s.in_order(i as int) && store::readable(bytes) && store::indexable(v, bytes, id) {
                        session::step(s, s2, i as int);
                    }
                }
                Ok(true)
            },
            Ok(false) => {
                assert(self.tables@ =~= s.tables.update(i as int, self.tables@[i as int]));
                Ok(false)
            },
            Err(e) => Err(e),
        }
    }

    /// Delete a row by rowid.
    pub fn delete(&mut self, table: &str, id: u64) -> (r: Result<bool>)
        requires
            old(self).wf(),
        ensures
            r is Ok && file::tidy(old(self).state().pages) ==> file::tidy(final(self).state().pages),
            final(self).wf(),
            untouched(*old(self).db, *final(self).db),
            *final(final(self).db) == *final(old(self).db),
            r is Err ==> final(self).state() == old(self).state(),
            r is Err ==> final(self).touched@ == old(self).touched@,
            r is Err ==> final(self).owners@ == old(self).owners@,
            r is Ok ==> final(self).owners@ == with_owners(
                old(self).owners@,
                final(self).dirty@,
                session::place_of(old(self).state(), table@) as usize,
            ),
            r == Ok::<bool, BoogyError>(false) ==> final(self).touched@ == old(self).touched@,
            r == Ok::<bool, BoogyError>(true) ==> final(self).touched@ == with_place(
                old(self).touched@,
                session::place_of(old(self).state(), table@) as usize,
            ),
            session::deleted(old(self).state(), final(self).state(), table@, id, r),
    {
        let ghost s = self.state();
        let (i, meta): (usize, TableMeta) = find_table(&self.tables, table, Ghost(s))?;
        let ghost v = meta@;
        let mut meta = meta;
        proof {
            if s.in_order(i as int) {
                session::sound_table(s, i as int);
            }
        }
        let saved: PageSet = self.dirty.duplicate();
        let saved_count: u32 = self.new_page_count;
        let mut guard = self.open_guard();
        let r = drop_row(&mut guard, &mut meta, id);
        let ghost m2 = guard.pages();
        if r.is_err() {
            self.abandon(guard, saved, saved_count);
            assert(self.state() =~= s);
        } else {
            self.close_guard(guard, i);
            assert(self.state().pages =~= m2);
        }
        match r {
            Ok(true) => {
                self.touch(i, meta);
                proof {
                    let s2 = self.state();
                    if s.in_order(i as int) {
                        session::step(s, s2, i as int);
                    }
                }
                Ok(true)
            },
            Ok(false) => {
                assert(self.tables@ =~= s.tables.update(i as int, self.tables@[i as int]));
                Ok(false)
            },
            Err(e) => Err(e),
        }
    }

    /// Get a row by rowid, as the transaction sees it.
    pub fn get(&mut self, table: &str, id: u64) -> (r: Result<Option<Row>>)
        requires
            old(self).wf(),
        ensures
            final(self).wf(),
            untouched(*old(self).db, *final(self).db),
            *final(final(self).db) == *final(old(self).db),
            final(self).state() == old(self).state(),
            final(self).touched@ == old(self).touched@,
            final(self).owners@ == old(self).owners@,
            session::got(old(self).state(), table@, id, r),
    {
        let ghost s = self.state();
        let (i, meta): (usize, TableMeta) = find_table(&self.tables, table, Ghost(s))?;
        proof {
            if s.in_order(i as int) {
                session::sound_table(s, i as int);
                engine::sound_search(s.pages, meta@, id);
            }
        }
        let guard = self.open_guard();
        let tree = BTreeWriter::new(meta.root_page);
        let found = tree.search(&guard, id);
        self.close_guard(guard, i);
        assert(self.state() =~= s);
        assert(with_owners(old(self).owners@, old(self).dirty@, i) =~= old(self).owners@);
        match found? {
            Some(bytes) => {
                let row = Row::from_raw(bytes.as_slice(), &meta.col_names())?;
                Ok(Some(row))
            },
            None => Ok(None),
        }
    }

    /// All rows of a table, as the transaction sees them.
    fn all_rows(&mut self, i: usize, meta: &TableMeta) -> (r: Result<Vec<(u64, Vec<u8>)>>)
        requires
            old(self).wf(),
            i < old(self).tables@.len(),
            meta@ == old(self).tables@[i as int],
        ensures
            final(self).wf(),
            untouched(*old(self).db, *final(self).db),
            *final(final(self).db) == *final(old(self).db),
            final(self).state() == old(self).state(),
            final(self).touched@ == old(self).touched@,
            final(self).owners@ == old(self).owners@,
            old(self).state().in_order(i as int)
                ==> (r matches Ok(all) && finder::all_long(all@) && btree::pairs(all@)
                == finder::row_list(old(self).state().pages, meta@)),
    {
        let ghost s = self.state();
        let ghost good = s.in_order(i as int);
        proof {
            if good {
                session::sound_table(s, i as int);
                reveal(engine::table_sound);
                reveal(store::table_ok);
                store::cells_sound(s.pages, meta@.root_page);
            }
        }
        let guard = self.open_guard();
        let tree = BTreeWriter::new(meta.root_page);
        let found = tree.scan_all_w(&guard);
        self.close_guard(guard, i);
        assert(self.state() =~= s);
        assert(with_owners(old(self).owners@, old(self).dirty@, i) =~= old(self).owners@);
        let all: Vec<(u64, Vec<u8>)> = found?;
        proof {
            if good {
                finder::sound_rows_long(s.pages, meta@, all@);
            }
        }
        Ok(all)
    }

    /// Find rows matching filters (scans all rows, as the transaction sees
    /// them).
    pub fn find(&mut self, table: &str, opts: &FindOptions) -> (r: Result<FindResult>)
        requires
            old(self).wf(),
        ensures
            final(self).wf(),
            untouched(*old(self).db, *final(self).db),
            *final(final(self).db) == *final(old(self).db),
            final(self).state() == old(self).state(),
            final(self).touched@ == old(self).touched@,
            final(self).owners@ == old(self).owners@,
            session::scan_found(old(self).state(), table@, *opts, r),
    {
        let (i, meta): (usize, TableMeta) = find_table(&self.tables, table, Ghost(self.state()))?;
        let all = self.all_rows(i, &meta)?;
        let found = keep_passing(all, &meta, opts.filters.as_slice());
        finish_query(found, &meta, opts)
    }

    /// Count rows matching filters (scans all rows, as the transaction sees
    /// them).
    pub fn count(&mut self, table: &str, filters: &[Filter]) -> (r: Result<u64>)
        requires
            old(self).wf(),
        ensures
            final(self).wf(),
            untouched(*old(self).db, *final(self).db),
            *final(final(self).db) == *final(old(self).db),
            final(self).state() == old(self).state(),
            final(self).touched@ == old(self).touched@,
            final(self).owners@ == old(self).owners@,
            session::scan_counted(
                old(self).state(),
                table@,
                query::filters_view(filters@),
                r,
            ),
    {
        let (i, meta): (usize, TableMeta) = find_table(&self.tables, table, Ghost(self.state()))?;
        if filters.len() == 0 {
            return Ok(meta.row_count);
        }
        let all = self.all_rows(i, &meta)?;
        let found = keep_passing(all, &meta, filters);
        assert(btree::pairs(found@).len() == found@.len());
        Ok(found.len() as u64)
    }
}

/// A row comes after others.
proof fn one_more(
    s: StateView,
    sx: StateView,
    s2: StateView,
    i: int,
    datas: Seq<Seq<(Seq<char>, crate::value::ValueView)>>,
    x: int,
    max: u32,
    r: Result<()>,
)
    requires
        s.in_order(i),
        0 <= i < s.tables.len(),
        0 <= x < datas.len(),
        session::all_storable(s.tables[i], datas, max),
        session::retabled(s, sx, i),
        sx.tables[i].next_rowid == s.tables[i].next_rowid + x,
        sx.tables[i].row_count == s.tables[i].row_count + x,
        session::stepped(
            s,
            sx,
            i,
            session::with_rows(
                s.tables[i],
                s.rows(i),
                s.tables[i].next_rowid,
                datas.take(x),
            ),
        ),
        session::row_stored(sx, s2, i, sx.tables[i].next_rowid, datas[x], max, r),
        r is Ok,
    ensures
        session::stepped(
            s,
            s2,
            i,
            session::with_rows(
                s.tables[i],
                s.rows(i),
                s.tables[i].next_rowid,
                datas.take(x + 1),
            ),
        ),
        s2.tables[i].row_count == s.tables[i].row_count + x + 1,
{
    let v = s.tables[i];
    let vx = sx.tables[i];
    let k = vx.next_rowid;
    assert(datas.take(x + 1).drop_last() =~= datas.take(x));
    assert(datas.take(x + 1).last() == datas[x]);
    crate::engine_list::columns_decide(v, vx, k, Seq::empty(), datas[x]);
    let before = session::with_rows(v, s.rows(i), v.next_rowid, datas.take(x));
    session::stepped_then(
        s,
        sx,
        s2,
        i,
        before,
        before.insert(k, engine::new_row(v, k, datas[x])),
    );
}

/// Where many rows are to be stored, each of them is.
proof fn one_owed(
    s: StateView,
    sx: StateView,
    s2: StateView,
    i: int,
    datas: Seq<Seq<(Seq<char>, crate::value::ValueView)>>,
    x: int,
    max: u32,
    r: Result<()>,
)
    requires
        0 <= i < s.tables.len(),
        0 <= x < datas.len(),
        session::all_storable(s.tables[i], datas, max),
        session::many_owed(s.rows(i), s.tables[i], datas, max, s.total),
        session::retabled(s, sx, i),
        sx.tables[i].next_rowid == s.tables[i].next_rowid + x,
        sx.tables[i].row_count == s.tables[i].row_count + x,
        sx.total <= s.total + store::row_pages(s.tables[i], max) * x,
        session::stepped(
            s,
            sx,
            i,
            session::with_rows(
                s.tables[i],
                s.rows(i),
                s.tables[i].next_rowid,
                datas.take(x),
            ),
        ),
        session::row_stored(sx, s2, i, sx.tables[i].next_rowid, datas[x], max, r),
    ensures
        match r {
            Ok(_) => s2.total <= s.total + store::row_pages(s.tables[i], max) * (x + 1),
            Err(e) => session::many_unlistable(s.tables[i], datas, e),
        },
{
    let v = s.tables[i];
    let vx = sx.tables[i];
    let k = vx.next_rowid;
    session::sound_table(sx, i);
    crate::engine_list::columns_decide(v, vx, k, Seq::empty(), datas[x]);
    room::next_row_owed(sx.pages, vx, v, s.rows(i), datas, x, max, s.total, sx.total);
    room::one_step_more(v, max, x);
    crate::engine_list::relisted_rows(v, vx);
    if let Err(e) = r {
        let bytes = engine::new_row(v, k, datas[x]);
        crate::engine_list::relisted(v, vx, bytes, k, e);
        assert(!session::lists_at(v, datas, x));
    }
}

impl<'a> AcidTransaction<'a> {
    /// Insert multiple rows in a single transaction.
    #[verifier::rlimit(100)]
    #[verifier::spinoff_prover]
    pub fn insert_many(&mut self, table: &str, rows: &[Vec<(&str, Value)>]) -> (r: Result<Vec<u64>>)
        requires
            old(self).wf(),
        ensures
            r is Ok && file::tidy(old(self).state().pages) ==> file::tidy(final(self).state().pages),
            final(self).wf(),
            untouched(*old(self).db, *final(self).db),
            *final(final(self).db) == *final(old(self).db),
            r is Err ==> final(self).state() == old(self).state(),
            r is Err ==> final(self).touched@ == old(self).touched@,
            r is Err ==> final(self).owners@ == old(self).owners@,
            r is Ok ==> passed_on(
                old(self).owners@,
                final(self).owners@,
                session::place_of(old(self).state(), table@) as usize,
            ),
            rows@.len() == 0 ==> (r matches Ok(ids) && ids@.len() == 0) && session::same(
                old(self).state(),
                final(self).state(),
            ),
            r is Ok && rows@.len() > 0 ==> final(self).touched@ == with_place(
                old(self).touched@,
                session::place_of(old(self).state(), table@) as usize,
            ),
            rows@.len() > 0 ==> session::many_inserted(
                old(self).state(),
                final(self).state(),
                table@,
                session::datas_view(rows@),
                old(self).db.settings().2,
                r,
            ),
    {
        let ghost s = self.state();
        let ghost datas = session::datas_view(rows@);
        let ghost max = self.db.settings().2;
        let ghost i = session::place_of(s, table@);
        let ghost v = s.tables[i];
        let ghost good = s.in_order(i) && session::usable(s, table@) && session::all_storable(
            v,
            datas,
            max,
        );
        let ghost owed = good && session::many_owed(s.rows(i), v, datas, max, s.total) && forall|j: int|
            0 <= j < datas.len() ==> engine::types_ok(v, #[trigger] datas[j]);
        let n: usize = rows.len();
        let saved: Saved = self.save();
        let mut ids: Vec<u64> = Vec::new();
        let mut x: usize = 0;
        proof {
            if session::usable(s, table@) {
                table_known(s, table@);
                assert(s.tables =~= s.tables.update(i, s.tables[i]));
                assert(datas.take(0).len() == 0);
                if good {
                    session::stepped_none(s, s, i);
                }
            }
        }
        while x < n
            invariant
                x <= n,
                n == rows@.len(),
                ids@.len() == x,
                datas == session::datas_view(rows@),
                s == old(self).state(),
                i == session::place_of(s, table@),
                v == s.tables[i],
                max == old(self).db.settings().2,
                self.wf(),
                saved.is_of(*old(self)),
                old(self).wf(),
                untouched(*old(self).db, *self.db),
                *final(self.db) == *final(old(self).db),
                x == 0 ==> self.state() == s && self.touched@ == old(self).touched@,
                passed_on(old(self).owners@, self.owners@, i as usize),
                file::tidy(s.pages) ==> file::tidy(self.state().pages),
                x > 0 ==> session::usable(s, table@),
                x > 0 ==> self.touched@ == with_place(old(self).touched@, i as usize),
                session::usable(s, table@) ==> {
                    &&& 0 <= i < s.tables.len()
                    &&& session::retabled(s, self.state(), i)
                    &&& self.state().tables[i].next_rowid == v.next_rowid + x
                    &&& table::table_names_of(self.state().tables) == table::table_names_of(
                        s.tables,
                    )
                    &&& forall|j: int| 0 <= j < x ==> (#[trigger] ids@[j]) == v.next_rowid + j
                    &&& forall|j: int|
                        0 <= j < x ==> engine::types_ok(v, #[trigger] datas[j]) && engine::new_row(
                            v,
                            (v.next_rowid + j) as u64,
                            datas[j],
                        ).len() <= max && session::lists_at(v, datas, j)
                },
                good == (s.in_order(i) && session::usable(s, table@) && session::all_storable(
                    v,
                    datas,
                    max,
                )),
                owed == (good && session::many_owed(s.rows(i), v, datas, max, s.total) && forall|j: int|
                    0 <= j < datas.len() ==> engine::types_ok(v, #[trigger] datas[j])),
                owed ==> self.state().total <= s.total + store::row_pages(v, max) * x,
                good ==> session::stepped(
                    s,
                    self.state(),
                    i,
                    session::with_rows(v, s.rows(i), v.next_rowid, datas.take(x as int)),
                ) && self.state().tables[i].row_count == v.row_count + x,
            decreases n - x,
        {
            let ghost sx = self.state();
            let ghost vx = sx.tables[i];
            proof {
                assert(old(self).touched@.push(i as usize)[old(self).touched@.len() as int]
                    == i as usize);
            }
            assert(datas[x as int] == engine::data_view(rows@[x as int]@));
            let r = self.insert(table, rows[x].as_slice());
            proof {
                if session::usable(s, table@) {
                    crate::engine_list::columns_decide(
                        v,
                        vx,
                        vx.next_rowid,
                        Seq::empty(),
                        datas[x as int],
                    );
                    assert(session::usable(sx, table@) && session::place_of(sx, table@) == i);
                    if owed {
                        one_owed(
                            s,
                            sx,
                            self.state(),
                            i,
                            datas,
                            x as int,
                            max,
                            session::outcome_of(r),
                        );
                    }
                    if r is Ok {
                        let s2 = self.state();
                        crate::engine_list::relisted_rows(v, vx);
                        assert(session::lists_at(v, datas, x as int));
                        assert(s2.tables =~= s.tables.update(i, s2.tables[i]));
                        assert(table::table_names_of(s2.tables) =~= table::table_names_of(
                            s.tables,
                        ));
                        if good {
                            one_more(s, sx, s2, i, datas, x as int, max, session::outcome_of(r));
                        }
                    }
                }
            }
            let id: u64 = match r {
                Ok(id) => id,
                Err(e) => {
                    self.rewind(saved);
                    assert(self.state() =~= s);
                    return Err(e);
                },
            };
            ids.push(id);
            x += 1;
        }
        assert(datas.take(n as int) =~= datas);
        Ok(ids)
    }

    /// Update all rows matching filters.
    pub fn update_where(&mut self, table: &str, filters: &[Filter], fields: &[(&str, Value)]) -> (r: Result<
        u64,
    >)
        requires
            old(self).wf(),
        ensures
            r is Ok && file::tidy(old(self).state().pages) ==> file::tidy(final(self).state().pages),
            final(self).wf(),
            untouched(*old(self).db, *final(self).db),
            *final(final(self).db) == *final(old(self).db),
            r is Err ==> final(self).state() == old(self).state(),
            r is Err ==> final(self).touched@ == old(self).touched@,
            r is Err ==> final(self).owners@ == old(self).owners@,
            r is Ok ==> final(self).owners@ == with_owners(
                old(self).owners@,
                final(self).dirty@,
                session::place_of(old(self).state(), table@) as usize,
            ),
            r is Ok ==> final(self).touched@ == with_place(
                old(self).touched@,
                session::place_of(old(self).state(), table@) as usize,
            ),
            session::scan_updated(
                old(self).state(),
                final(self).state(),
                table@,
                query::filters_view(filters@),
                engine::data_view(fields@),
                old(self).db.settings().2,
                r,
            ),
    {
        let ghost s = self.state();
        let ghost fs = query::filters_view(filters@);
        let ghost data = engine::data_view(fields@);
        let (i, meta): (usize, TableMeta) = find_table(&self.tables, table, Ghost(s))?;
        enforce_index_types(&meta, fields)?;
        let ghost v = meta@;
        let all = self.all_rows(i, &meta)?;
        let ids = passing_ids(&all, &meta, filters);
        let ghost good = s.in_order(i as int)
            && session::all_refreshable(s, i as int, fs, data);
        proof {
            if good {
                session::sound_table(s, i as int);
                session::scan_ids(s, i as int, all@, fs, ids@);
                assert forall|x: int| 0 <= x < ids@.len() implies {
                    let k = #[trigger] ids@[x];
                    store::readable(engine::updated_row(v, k, s.rows(i as int)[k], data))
                } by {
                    assert(ids@.contains(ids@[x]));
                    assert(session::scan_hits(s, i as int, fs).contains(ids@[x]));
                }
            }
        }
        let mut meta = meta;
        let max: u32 = self.db.max_row_size();
        let saved: PageSet = self.dirty.duplicate();
        let saved_count: u32 = self.new_page_count;
        let mut guard = self.open_guard();
        let r = change_listed(&mut guard, &mut meta, &ids, fields, max);
        let ghost m2 = guard.pages();
        if r.is_err() {
            self.abandon(guard, saved, saved_count);
            assert(self.state() =~= s);
        } else {
            self.close_guard(guard, i);
            assert(self.state().pages =~= m2);
        }
        match r {
            Ok(n) => {
                self.touch(i, meta);
                proof {
                    if good {
                        session::step(s, self.state(), i as int);
                        assert(crate::engine_list::refreshed(v, s.rows(i as int), ids@, data)
                            =~= session::refreshed_rows(s, i as int, fs, data));
                        assert forall|k: u64| #[trigger]
                            session::scan_hits(s, i as int, fs).contains(
                                k,
                            ) implies engine::change_fits(
                            v,
                            k,
                            s.rows(i as int)[k],
                            data,
                            max,
                        ) && store::indexable(
                            v,
                            engine::updated_row(v, k, s.rows(i as int)[k], data),
                            k,
                        ) by {
                            assert(ids@.contains(k));
                            let x = choose|x: int| 0 <= x < ids@.len() && ids@[x] == k;
                            assert(ids@[x] == k);
                        }
                    }
                }
                Ok(n)
            },
            Err(e) => {
                proof {
                    if good {
                        assert forall|k: u64|
                            session::scan_hits(s, i as int, fs) == set![k] && ids@.len()
                                > 0 implies k == ids@[0] by {
                            assert(ids@.contains(ids@[0]));
                            assert(set![k].contains(ids@[0]));
                        }
                        if session::scan_owed(s, i as int, fs, data, max) {
                            assert forall|x: int| 0 <= x < ids@.len() implies {
                                let k = #[trigger] ids@[x];
                                row::decodable(s.rows(i as int)[k]) && engine::change_fits(
                                    v,
                                    k,
                                    s.rows(i as int)[k],
                                    data,
                                    max,
                                )
                            } by {
                                assert(ids@.contains(ids@[x]));
                                assert(session::scan_hits(s, i as int, fs).contains(ids@[x]));
                            }
                            if !(e is RowTooLarge) {
                                let x = choose|x: int|
                                    0 <= x < ids@.len() && store::unlistable(
                                        v,
                                        engine::updated_row(
                                            v,
                                            #[trigger] ids@[x],
                                            s.rows(i as int)[ids@[x]],
                                            data,
                                        ),
                                        ids@[x],
                                        e,
                                    );
                                assert(ids@.contains(ids@[x]));
                                assert(session::scan_hits(s, i as int, fs).contains(ids@[x]));
                            }
                        }
                        if let BoogyError::RowTooLarge(n) = e {
                            let x = choose|x: int|
                                0 <= x < ids@.len() && row::decodable(
                                    s.rows(i as int)[#[trigger] ids@[x]],
                                ) && !engine::change_fits(
                                    v,
                                    ids@[x],
                                    s.rows(i as int)[ids@[x]],
                                    data,
                                    max,
                                ) && engine::updated_row(
                                    v,
                                    ids@[x],
                                    s.rows(i as int)[ids@[x]],
                                    data,
                                ).len() == n;
                            assert(ids@.contains(ids@[x]));
                            assert(session::scan_hits(s, i as int, fs).contains(ids@[x]));
                        }
                    }
                }
                Err(e)
            },
        }
    }

    /// Delete all rows matching filters.
    pub fn delete_where(&mut self, table: &str, filters: &[Filter]) -> (r: Result<u64>)
        requires
            old(self).wf(),
        ensures
            r is Ok && file::tidy(old(self).state().pages) ==> file::tidy(final(self).state().pages),
            final(self).wf(),
            untouched(*old(self).db, *final(self).db),
            *final(final(self).db) == *final(old(self).db),
            r is Err ==> final(self).state() == old(self).state(),
            r is Err ==> final(self).touched@ == old(self).touched@,
            r is Err ==> final(self).owners@ == old(self).owners@,
            r is Ok ==> final(self).owners@ == with_owners(
                old(self).owners@,
                final(self).dirty@,
                session::place_of(old(self).state(), table@) as usize,
            ),
            r is Ok ==> final(self).touched@ == with_place(
                old(self).touched@,
                session::place_of(old(self).state(), table@) as usize,
            ),
            session::scan_deleted(
                old(self).state(),
                final(self).state(),
                table@,
                query::filters_view(filters@),
                r,
            ),
    {
        let ghost s = self.state();
        let ghost fs = query::filters_view(filters@);
        let (i, meta): (usize, TableMeta) = find_table(&self.tables, table, Ghost(s))?;
        let ghost v = meta@;
        let all = self.all_rows(i, &meta)?;
        let ids = passing_ids(&all, &meta, filters);
        let ghost good = s.in_order(i as int);
        proof {
            if good {
                session::sound_table(s, i as int);
                session::scan_ids(s, i as int, all@, fs, ids@);
            }
        }
        let mut meta = meta;
        let saved: PageSet = self.dirty.duplicate();
        let saved_count: u32 = self.new_page_count;
        let mut guard = self.open_guard();
        let r = drop_listed(&mut guard, &mut meta, &ids);
        let ghost m2 = guard.pages();
        if r.is_err() {
            self.abandon(guard, saved, saved_count);
            assert(self.state() =~= s);
        } else {
            self.close_guard(guard, i);
            assert(self.state().pages =~= m2);
        }
        match r {
            Ok(n) => {
                self.touch(i, meta);
                proof {
                    if good {
                        session::step(s, self.state(), i as int);
                        assert(crate::engine_bulk::without(s.rows(i as int), ids@)
                            =~= session::remaining_rows(s, i as int, fs));
                    }
                }
                Ok(n)
            },
            Err(e) => Err(e),
        }
    }
}

/// A transaction that changed one table was logged under that table.
pub proof fn logged_for_one(
    a: BoogyDb,
    mid: BoogyDb,
    b: BoogyDb,
    s: StateView,
    owners: Map<u32, usize>,
    i: int,
)
    requires
        untouched(a, mid),
        0 <= i < s.tables.len() <= usize::MAX,
        passed_on(Map::empty(), owners, i as usize),
        committed_log(mid, b, s, owners),
        forall|p: u32| #[trigger]
            s.pages.contains_key(p) && !(a.pages().contains_key(p) && a.pages()[p] == s.pages[p])
                ==> owners.contains_key(p),
        forall|p: u32| #[trigger] owners.contains_key(p) ==> s.pages.contains_key(p),
    ensures
        db::logged(a, b, a.pages(), s.pages, s.tables[i].table_id, s.tables[i].key),
{
    if a.settings().0 != Durability::Never {
        let recs = b.pending().skip(mid.pending().len() as int);
        let body = db::page_records(recs, b.views(), b.registry().next_id());
        assert forall|k: int| 0 <= k < body.len() implies s.pages.contains_key(
            (#[trigger] body[k]).page_no,
        ) && file::stored_as(s.tables[i].key, s.pages[body[k].page_no], body[k].image)
            && body[k].table_id == s.tables[i].table_id by {
            assert(owners.contains_key(body[k].page_no));
        }
        assert forall|p: u32| #[trigger]
            s.pages.contains_key(p) && !(a.pages().contains_key(p) && a.pages()[p] == s.pages[p]) implies exists|
            k: int,
        | 0 <= k < body.len() && (#[trigger] body[k]).page_no == p by {
            assert(owners.contains_key(p));
        }
    }
}

/// A table that can be used has its place.
pub proof fn table_known(s: StateView, table: Seq<char>)
    requires
        session::usable(s, table),
    ensures
        0 <= session::place_of(s, table) < s.tables.len(),
        s.tables[session::place_of(s, table)].name == table,
{
    table::place_first(table::table_names_of(s.tables), table);
}

impl BoogyDb {
    /// Publishes the pages of a transaction, logs those of each table under its number and
    /// with its key, then takes over the tables and logs them.
    fn commit_owned(
        &mut self,
        dirty: &PageSet,
        new_page_count: u32,
        owners: &HashMap<u32, usize>,
        tables: &TableRegistry,
    )
        requires
            old(self).wf(),
            dirty.wf(),
            old(self).file_of().count() + new_page_count <= u32::MAX,
            forall|p: u32| #[trigger]
                dirty@.contains_key(p) ==> p < old(self).file_of().count() + new_page_count,
            forall|p: u32| #[trigger] owners@.contains_key(p) <==> dirty@.contains_key(p),
            forall|p: u32| #[trigger] owners@.contains_key(p) ==> owners@[p] < tables@.len(),
            tables@.len() == old(self).views().len() <= usize::MAX,
            table::table_names_of(tables@) == table::table_names_of(old(self).views()),
            forall|i: int|
                0 <= i < tables@.len() ==> (#[trigger] tables@[i]).key == old(self).views()[i].key,
        ensures
            final(self).wf(),
            final(self).settings() == old(self).settings(),
            final(self).registry().next_id() == old(self).registry().next_id(),
            final(self).pages() == old(self).pages().union_prefer_right(dirty@),
            final(self).views() == tables@,
            final(self).file_of().count() <= old(self).file_of().count() + new_page_count,
            db::on_ground(*old(self), *final(self)),
            committed_log(
                *old(self),
                *final(self),
                StateView {
                    pages: old(self).pages().union_prefer_right(dirty@),
                    tables: tables@,
                    total: old(self).file_of().count() + new_page_count,
                },
                owners@,
            ),
    {
        let ghost a = *self;
        let ghost all = a.pages().union_prefer_right(dirty@);
        let ghost start = a.pending().len() as int;
        let n: usize = tables.len();
        let mut j: usize = 0;
        assert(self.pages() =~= upto(a.pages(), dirty@, owners@, 0));
        while j < n
            invariant
                j <= n,
                n == tables@.len(),
                a == *old(self),
                start == a.pending().len(),
                all == a.pages().union_prefer_right(dirty@),
                dirty.wf(),
                a.file_of().count() + new_page_count <= u32::MAX,
                forall|p: u32| #[trigger]
                    dirty@.contains_key(p) ==> p < a.file_of().count() + new_page_count,
                forall|p: u32| #[trigger] owners@.contains_key(p) <==> dirty@.contains_key(p),
                forall|p: u32| #[trigger] owners@.contains_key(p) ==> owners@[p] < tables@.len(),
                tables@.len() == a.views().len(),
                forall|i: int|
                    0 <= i < tables@.len() ==> (#[trigger] tables@[i]).key == a.views()[i].key,
                self.wf(),
                self.registry() == a.registry(),
                self.settings() == a.settings(),
                self.file_of().count() == a.file_of().count() + if j == 0 {
                    0
                } else {
                    new_page_count as int
                },
                self.pages() == upto(a.pages(), dirty@, owners@, j as int),
                db::on_ground(a, *self),
                a.settings().0 == Durability::Never ==> self.pending() == a.pending(),
                a.settings().0 != Durability::Never ==> log_upto(
                    a,
                    *self,
                    all,
                    tables@,
                    owners@,
                    j as int,
                ),
                j > 0 && a.settings().0 == Durability::Immediate ==> self.sync_wanted(),
            decreases n - j,
        {
            let ghost before = *self;
            let meta = tables.at(j);
            let mut guard = self.start();
            let part = pages_owned(dirty, owners, j);
            let ghost part_pages = part@;
            guard.inject_dirty(part);
            guard.set_new_page_count(
                if j == 0 {
                    new_page_count
                } else {
                    0
                },
            );
            assert(guard.inner().changed() =~= part_pages);
            let ghost g = guard;
            let ghost mid = *self;
            let committed = self.commit_write(guard, meta.table_id, &meta.cipher);
            proof {
                assert(self.pages() =~= upto(a.pages(), dirty@, owners@, j + 1));
                if a.settings().0 != Durability::Never {
                    assert(meta@ == tables@[j as int]);
                    assert forall|p: u32| #[trigger] part_pages.contains_key(p) implies g.pages()[p]
                        == all[p] by {
                        assert(g.inner().changed().contains_key(p));
                    }
                    one_logged(
                        a,
                        before,
                        mid,
                        *self,
                        g.inner().contents(),
                        g.pages(),
                        all,
                        tables@,
                        owners@,
                        j as int,
                        part_pages,
                    );
                }
            }
            j += 1;
        }
        let ghost mid = *self;
        self.apply_tables(tables);
        self.log_tables();
        proof {
            assert(self.pages() =~= all) by {
                assert(dirty@.restrict(Set::new(|p: u32| owners@[p] < n)) =~= dirty@) by {
                    assert forall|p: u32| #[trigger] dirty@.contains_key(p) implies owners@[p] < n by {
                        assert(owners@.contains_key(p));
                    }
                }
                assert(upto(a.pages(), dirty@, owners@, n as int) =~= all);
            }
            if a.settings().0 != Durability::Never {
                all_logged(a, mid, *self, all, tables@, owners@);
            }
        }
    }
}

/// Pages with those of the first tables in them.
spec fn upto(m: Map<u32, Seq<u8>>, dirty: Map<u32, Seq<u8>>, owners: Map<u32, usize>, j: int) -> Map<
    u32,
    Seq<u8>,
> {
    m.union_prefer_right(dirty.restrict(Set::new(|p: u32| owners[p] < j)))
}

/// A record of a page under the table that it belongs to.
pub open spec fn owned_record(
    rec: db::RecordView,
    pages: Map<u32, Seq<u8>>,
    tables: Seq<TableView>,
    owners: Map<u32, usize>,
) -> bool {
    let v = tables[owners[rec.page_no] as int];
    &&& owners.contains_key(rec.page_no)
    &&& rec.table_id == v.table_id
    &&& file::stored_as(v.key, pages[rec.page_no], rec.image)
}

/// The pages of the first tables are logged.
spec fn log_upto(
    a: BoogyDb,
    b: BoogyDb,
    pages: Map<u32, Seq<u8>>,
    tables: Seq<TableView>,
    owners: Map<u32, usize>,
    j: int,
) -> bool {
    &&& a.pending().len() <= b.pending().len()
    &&& b.pending().take(a.pending().len() as int) =~= a.pending()
    &&& forall|k: int|
        a.pending().len() <= k < b.pending().len() ==> owned_record(
            #[trigger] b.pending()[k],
            pages,
            tables,
            owners,
        )
    &&& forall|p: u32| #[trigger]
        owners.contains_key(p) && owners[p] < j ==> db::logs_page(a, b, p)
}

/// The pages of one more table are logged.
proof fn one_logged(
    a: BoogyDb,
    before: BoogyDb,
    mid: BoogyDb,
    b: BoogyDb,
    m: Map<u32, Seq<u8>>,
    m2: Map<u32, Seq<u8>>,
    pages: Map<u32, Seq<u8>>,
    tables: Seq<TableView>,
    owners: Map<u32, usize>,
    j: int,
    part: Map<u32, Seq<u8>>,
)
    requires
        a.settings().0 != Durability::Never,
        mid.settings() == a.settings(),
        mid.pending() == before.pending(),
        log_upto(a, before, pages, tables, owners, j),
        0 <= j < tables.len(),
        db::pages_logged(mid, b, m, m2, tables[j].table_id, tables[j].key),
        forall|p: u32| #[trigger] part.contains_key(p) <==> owners.contains_key(p) && owners[p] == j,
        forall|p: u32| #[trigger] part.contains_key(p) ==> db::logs_page(mid, b, p),
        forall|p: u32| #[trigger] part.contains_key(p) ==> m2[p] == pages[p],
        forall|i: int|
            mid.pending().len() <= i < b.pending().len() ==> part.contains_key(
                (#[trigger] b.pending()[i]).page_no,
            ),
    ensures
        log_upto(a, b, pages, tables, owners, j + 1),
{
    let n = before.pending().len() as int;
    let start = a.pending().len() as int;
    let recs = b.pending().skip(n);
    assert forall|k: int| 0 <= k < n implies b.pending()[k] == before.pending()[k] by {
        assert(b.pending().take(n)[k] == before.pending()[k]);
    }
    assert(b.pending().take(start) =~= before.pending().take(start));
    assert forall|k: int| start <= k < b.pending().len() implies owned_record(
        #[trigger] b.pending()[k],
        pages,
        tables,
        owners,
    ) by {
        if k < n {
            assert(owned_record(before.pending()[k], pages, tables, owners));
        } else {
            assert(recs[k - n] == b.pending()[k]);
            assert(part.contains_key(b.pending()[k].page_no));
        }
    }
    assert forall|p: u32| #[trigger] owners.contains_key(p) && owners[p] < j + 1 implies db::logs_page(
        a,
        b,
        p,
    ) by {
        if owners[p] < j {
            assert(db::logs_page(a, before, p));
            let k = choose|k: int|
                start <= k < before.pending().len() && (#[trigger] before.pending()[k]).page_no == p;
            assert(b.pending()[k].page_no == p);
        } else {
            assert(part.contains_key(p));
            let k = choose|k: int|
                n <= k < b.pending().len() && (#[trigger] b.pending()[k]).page_no == p;
            assert(b.pending()[k].page_no == p);
        }
    }
}

/// The pages of all tables, and then the tables, are logged.
proof fn all_logged(
    a: BoogyDb,
    mid: BoogyDb,
    b: BoogyDb,
    pages: Map<u32, Seq<u8>>,
    tables: Seq<TableView>,
    owners: Map<u32, usize>,
)
    requires
        a.settings().0 != Durability::Never,
        log_upto(a, mid, pages, tables, owners, tables.len() as int),
        forall|p: u32| #[trigger] owners.contains_key(p) ==> owners[p] < tables.len(),
        if system_page::registry_fits(tables, b.registry().next_id()) {
            &&& b.pending().len() == mid.pending().len() + 1
            &&& b.pending().drop_last() == mid.pending()
            &&& db::tables_record(b.pending().last(), tables, b.registry().next_id())
        } else {
            b.pending() == mid.pending()
        },
        b.views() == tables,
        tables.len() > 0 && a.settings().0 == Durability::Immediate ==> b.sync_wanted(),
    ensures
        committed_log(
            a,
            b,
            (StateView { pages, tables, total: 0 }),
            owners,
        ),
        forall|total: int| #[trigger]
            committed_log(a, b, StateView { pages, tables, total }, owners),
{
    let start = a.pending().len() as int;
    let recs = b.pending().skip(start);
    let body = db::page_records(recs, b.views(), b.registry().next_id());
    assert(body =~= mid.pending().skip(start)) by {
        if system_page::registry_fits(tables, b.registry().next_id()) {
            assert forall|k: int| 0 <= k < body.len() implies body[k] == mid.pending()[start + k] by {
                assert(b.pending().drop_last()[start + k] == mid.pending()[start + k]);
            }
        }
    }
    assert(b.pending().take(start) =~= a.pending()) by {
        assert forall|k: int| 0 <= k < start implies b.pending()[k] == a.pending()[k] by {
            assert(mid.pending().take(start)[k] == a.pending()[k]);
            if system_page::registry_fits(tables, b.registry().next_id()) {
                assert(b.pending().drop_last()[k] == mid.pending()[k]);
            }
        }
    }
    assert forall|k: int| 0 <= k < body.len() implies owned_record(
        #[trigger] body[k],
        pages,
        tables,
        owners,
    ) by {
        assert(owned_record(mid.pending()[start + k], pages, tables, owners));
    }
    assert forall|p: u32| #[trigger] owners.contains_key(p) implies exists|k: int|
        0 <= k < body.len() && (#[trigger] body[k]).page_no == p by {
        assert(db::logs_page(a, mid, p));
        let k = choose|k: int|
            start <= k < mid.pending().len() && (#[trigger] mid.pending()[k]).page_no == p;
        assert(body[k - start].page_no == p);
    }
}

impl<'a> AcidTransaction<'a> {
    /// Commit the transaction: publish all changed pages at once and apply the
    /// changes of the tables.
    pub fn commit(self) -> (r: Result<()>)
        requires
            self.wf(),
        ensures
            r is Ok,
            final(self.db).wf(),
            final(self.db).settings() == old(self.db).settings(),
            final(self.db).registry().next_id() == old(self.db).registry().next_id(),
            final(self.db).state().pages == self.state().pages,
            final(self.db).state().tables == self.state().tables,
            final(self.db).state().total <= self.state().total,
            db::on_ground(*old(self.db), *final(self.db)),
            self.dirty@ == Map::<u32, Seq<u8>>::empty() && self.touched@.len() == 0 ==> untouched(
                *old(self.db),
                *final(self.db),
            ),
            self.touched@.len() > 0 ==> committed_log(
                *old(self.db),
                *final(self.db),
                self.state(),
                self.owners@,
            ),
    {
        let mut tx = self;
        let ghost s = tx.state();
        let ghost before = *tx.db;
        if tx.dirty.len() == 0 && tx.touched.len() == 0 {
            assert(tx.dirty@ =~= Map::empty()) by {
                assert forall|p: u32| !(#[trigger] tx.dirty@.contains_key(p)) by {}
            }
            assert(s.pages =~= before.pages());
            return Ok(());
        }
        proof {
            if tx.dirty.numbers().len() > 0 {
                assert(tx.dirty.numbers().contains(tx.dirty.numbers()[0]));
                assert(tx.dirty@.contains_key(tx.dirty.numbers()[0]));
            }
        }
        tx.db.commit_owned(&tx.dirty, tx.new_page_count, &tx.owners, &tx.tables);
        Ok(())
    }
}

/// The changes of a transaction were logged: each page under the number of the table that
/// it belongs to and with its key, then the tables.
pub open spec fn committed_log(
    a: BoogyDb,
    b: BoogyDb,
    s: StateView,
    owners: Map<u32, usize>,
) -> bool {
    if a.settings().0 == Durability::Never {
        b.pending() == a.pending()
    } else {
        let recs = b.pending().skip(a.pending().len() as int);
        let body = db::page_records(recs, b.views(), b.registry().next_id());
        &&& a.pending().len() <= b.pending().len()
        &&& b.pending().take(a.pending().len() as int) == a.pending()
        &&& forall|k: int|
            0 <= k < body.len() ==> owned_record(#[trigger] body[k], s.pages, s.tables, owners)
        &&& forall|p: u32| #[trigger]
            owners.contains_key(p) ==> exists|k: int|
                0 <= k < body.len() && (#[trigger] body[k]).page_no == p
        &&& system_page::registry_fits(b.views(), b.registry().next_id()) ==> recs.len() > 0
            && db::tables_record(recs.last(), b.views(), b.registry().next_id())
        &&& s.tables.len() > 0 && a.settings().0 == Durability::Immediate ==> b.sync_wanted()
    }
}

/// A transaction outside ACID mode: each operation commits on its own as it
/// executes. There is nothing to roll back.
pub struct LightTransaction<'a> {
    pub db: &'a mut BoogyDb,
}

/// A transaction of either mode.
pub enum Transaction<'a> {
    Light(LightTransaction<'a>),
    Acid(AcidTransaction<'a>),
}

impl BoogyDb {
    /// Final flush for transactions: commits what is left, which is nothing.
    pub fn flush_transaction(&mut self) -> (r: Result<()>)
        requires
            old(self).wf(),
        ensures
            r is Ok,
            final(self).wf(),
            db_rows::steady(*old(self), *final(self)),
            session::same(old(self).state(), final(self).state()),
            db::pages_logged(
                *old(self),
                *final(self),
                old(self).pages(),
                old(self).pages(),
                0,
                None,
            ),
    {
        let guard = self.start();
        assert(guard.pages() =~= old(self).pages());
        self.commit_write(guard, 0, &None)
    }

    /// Begin a guard-based transaction. Returns a `Transaction` that commits on
    /// explicit `commit`: one that is all-or-nothing in ACID mode, else one
    /// whose operations commit on their own.
    pub fn begin(&mut self) -> (r: Result<Transaction<'_>>)
        requires
            old(self).wf(),
        ensures
            r is Ok,
            r matches Ok(t) ==> t.wf() && t.state() == old(self).state(),
            r matches Ok(Transaction::Acid(t)) ==> old(self).settings().1 && *t.db == *old(self)
                && *final(self) == *final(t.db),
            r matches Ok(Transaction::Light(t)) ==> !old(self).settings().1 && *t.db == *old(self)
                && *final(self) == *final(t.db),
    {
        if self.is_acid() {
            Ok(Transaction::Acid(AcidTransaction::new(self)))
        } else {
            Ok(Transaction::Light(LightTransaction { db: self }))
        }
    }
}

impl<'a> Transaction<'a> {
    /// What operations within the transaction see.
    pub open spec fn state(&self) -> StateView {
        match self {
            Transaction::Light(t) => t.db.state(),
            Transaction::Acid(t) => t.state(),
        }
    }

    /// The transaction is in order.
    pub open spec fn wf(&self) -> bool {
        match self {
            Transaction::Light(t) => t.db.wf(),
            Transaction::Acid(t) => t.wf(),
        }
    }

    /// The settings of the database.
    pub open spec fn settings(&self) -> (Durability, bool, u32) {
        match self {
            Transaction::Light(t) => t.db.settings(),
            Transaction::Acid(t) => t.db.settings(),
        }
    }

    /// Insert a row with auto-increment rowid.
    pub fn insert(&mut self, table: &str, data: &[(&str, Value)]) -> (r: Result<u64>)
        requires
            old(self).wf(),
        ensures
            r is Ok && file::tidy(old(self).state().pages) ==> file::tidy(final(self).state().pages),
            final(self).wf(),
            final(self).settings() == old(self).settings(),
            *old(self) matches Transaction::Acid(a) ==> (*final(self) matches Transaction::Acid(b)
                && untouched(*a.db, *b.db) && *final(b.db) == *final(a.db)),
            *old(self) matches Transaction::Light(a) ==> (*final(self) matches Transaction::Light(b)
                && *final(b.db) == *final(a.db)),
            session::inserted(
                old(self).state(),
                final(self).state(),
                table@,
                engine::data_view(data@),
                old(self).settings().2,
                r,
            ),
    {
        match self {
            Transaction::Light(t) => t.db.insert(table, data),
            Transaction::Acid(t) => t.insert(table, data),
        }
    }

    /// Insert a row with a caller-supplied rowid.
    pub fn insert_with_id(&mut self, table: &str, rowid: u64, data: &[(&str, Value)]) -> (r: Result<()>)
        requires
            old(self).wf(),
        ensures
            r is Ok && file::tidy(old(self).state().pages) ==> file::tidy(final(self).state().pages),
            final(self).wf(),
            final(self).settings() == old(self).settings(),
            *old(self) matches Transaction::Acid(a) ==> (*final(self) matches Transaction::Acid(b)
                && untouched(*a.db, *b.db) && *final(b.db) == *final(a.db)),
            *old(self) matches Transaction::Light(a) ==> (*final(self) matches Transaction::Light(b)
                && *final(b.db) == *final(a.db)),
            session::inserted_with_id(
                old(self).state(),
                final(self).state(),
                table@,
                rowid,
                engine::data_view(data@),
                old(self).settings().2,
                r,
            ),
    {
        match self {
            Transaction::Light(t) => t.db.insert_with_id(table, rowid, data),
            Transaction::Acid(t) => t.insert_with_id(table, rowid, data),
        }
    }

    /// Get a row by rowid.
    pub fn get(&mut self, table: &str, id: u64) -> (r: Result<Option<Row>>)
        requires
            old(self).wf(),
        ensures
            final(self).wf(),
            final(self).settings() == old(self).settings(),
            *old(self) matches Transaction::Acid(a) ==> (*final(self) matches Transaction::Acid(b)
                && untouched(*a.db, *b.db) && *final(b.db) == *final(a.db)),
            *old(self) matches Transaction::Light(a) ==> (*final(self) matches Transaction::Light(b)
                && *final(b.db) == *final(a.db)),
            session::same(old(self).state(), final(self).state()),
            session::got(old(self).state(), table@, id, r),
    {
        match self {
            Transaction::Light(t) => t.db.get(table, id),
            Transaction::Acid(t) => t.get(table, id),
        }
    }

    /// Update a row by rowid.
    pub fn update(&mut self, table: &str, id: u64, fields: &[(&str, Value)]) -> (r: Result<bool>)
        requires
            old(self).wf(),
        ensures
            r is Ok && file::tidy(old(self).state().pages) ==> file::tidy(final(self).state().pages),
            final(self).wf(),
            final(self).settings() == old(self).settings(),
            *old(self) matches Transaction::Acid(a) ==> (*final(self) matches Transaction::Acid(b)
                && untouched(*a.db, *b.db) && *final(b.db) == *final(a.db)),
            *old(self) matches Transaction::Light(a) ==> (*final(self) matches Transaction::Light(b)
                && *final(b.db) == *final(a.db)),
            session::updated(
                old(self).state(),
                final(self).state(),
                table@,
                id,
                engine::data_view(fields@),
                old(self).settings().2,
                r,
            ),
    {
        match self {
            Transaction::Light(t) => t.db.update(table, id, fields),
            Transaction::Acid(t) => t.update(table, id, fields),
        }
    }

    /// Delete a row by rowid.
    pub fn delete(&mut self, table: &str, id: u64) -> (r: Result<bool>)
        requires
            old(self).wf(),
        ensures
            r is Ok && file::tidy(old(self).state().pages) ==> file::tidy(final(self).state().pages),
            final(self).wf(),
            final(self).settings() == old(self).settings(),
            *old(self) matches Transaction::Acid(a) ==> (*final(self) matches Transaction::Acid(b)
                && untouched(*a.db, *b.db) && *final(b.db) == *final(a.db)),
            *old(self) matches Transaction::Light(a) ==> (*final(self) matches Transaction::Light(b)
                && *final(b.db) == *final(a.db)),
            session::deleted(old(self).state(), final(self).state(), table@, id, r),
    {
        match self {
            Transaction::Light(t) => t.db.delete(table, id),
            Transaction::Acid(t) => t.delete(table, id),
        }
    }

    /// Find rows matching filters, with sort and pagination.
    pub fn find(&mut self, table: &str, opts: &FindOptions) -> (r: Result<FindResult>)
        requires
            old(self).wf(),
        ensures
            final(self).wf(),
            final(self).settings() == old(self).settings(),
            *old(self) matches Transaction::Acid(a) ==> (*final(self) matches Transaction::Acid(b)
                && untouched(*a.db, *b.db) && *final(b.db) == *final(a.db)),
            *old(self) matches Transaction::Light(a) ==> (*final(self) matches Transaction::Light(b)
                && *final(b.db) == *final(a.db)),
            session::same(old(self).state(), final(self).state()),
            *old(self) is Acid ==> session::scan_found(old(self).state(), table@, *opts, r),
            *old(self) is Light ==> db_rows::found(old(self).state(), table@, *opts, r),
    {
        match self {
            Transaction::Light(t) => t.db.find(table, opts),
            Transaction::Acid(t) => t.find(table, opts),
        }
    }

    /// Count rows matching filters.
    pub fn count(&mut self, table: &str, filters: &Vec<Filter>) -> (r: Result<u64>)
        requires
            old(self).wf(),
        ensures
            final(self).wf(),
            final(self).settings() == old(self).settings(),
            *old(self) matches Transaction::Acid(a) ==> (*final(self) matches Transaction::Acid(b)
                && untouched(*a.db, *b.db) && *final(b.db) == *final(a.db)),
            *old(self) matches Transaction::Light(a) ==> (*final(self) matches Transaction::Light(b)
                && *final(b.db) == *final(a.db)),
            session::same(old(self).state(), final(self).state()),
            *old(self) is Acid ==> session::scan_counted(
                old(self).state(),
                table@,
                query::filters_view(filters@),
                r,
            ),
            *old(self) is Light ==> db_rows::counted(
                old(self).state(),
                table@,
                query::filters_view(filters@),
                r,
            ),
    {
        match self {
            Transaction::Light(t) => t.db.count(table, filters),
            Transaction::Acid(t) => t.count(table, filters.as_slice()),
        }
    }

    /// Insert multiple rows. Returns list of assigned rowids.
    pub fn insert_many(&mut self, table: &str, rows: &[Vec<(&str, Value)>]) -> (r: Result<Vec<u64>>)
        requires
            old(self).wf(),
        ensures
            r is Ok && file::tidy(old(self).state().pages) ==> file::tidy(final(self).state().pages),
            final(self).wf(),
            final(self).settings() == old(self).settings(),
            *old(self) matches Transaction::Acid(a) ==> (*final(self) matches Transaction::Acid(b)
                && untouched(*a.db, *b.db) && *final(b.db) == *final(a.db)),
            *old(self) matches Transaction::Light(a) ==> (*final(self) matches Transaction::Light(b)
                && *final(b.db) == *final(a.db)),
            rows@.len() > 0 ==> session::many_inserted(
                old(self).state(),
                final(self).state(),
                table@,
                session::datas_view(rows@),
                old(self).settings().2,
                r,
            ),
    {
        match self {
            Transaction::Light(t) => t.db.insert_many(table, rows),
            Transaction::Acid(t) => t.insert_many(table, rows),
        }
    }

    /// Update all rows matching filters.
    pub fn update_where(&mut self, table: &str, filters: &[Filter], fields: &[(&str, Value)]) -> (r: Result<u64>)
        requires
            old(self).wf(),
        ensures
            r is Ok && file::tidy(old(self).state().pages) ==> file::tidy(final(self).state().pages),
            final(self).wf(),
            final(self).settings() == old(self).settings(),
            *old(self) matches Transaction::Acid(a) ==> (*final(self) matches Transaction::Acid(b)
                && untouched(*a.db, *b.db) && *final(b.db) == *final(a.db)),
            *old(self) matches Transaction::Light(a) ==> (*final(self) matches Transaction::Light(b)
                && *final(b.db) == *final(a.db)),
            old(self).settings().1 ==> session::scan_updated(
                old(self).state(),
                final(self).state(),
                table@,
                query::filters_view(filters@),
                engine::data_view(fields@),
                old(self).settings().2,
                r,
            ),
            !old(self).settings().1 && *old(self) is Light ==> db_rows::patched_where(
                old(self).state(),
                final(self).state(),
                table@,
                query::filters_view(filters@),
                engine::data_view(fields@),
                old(self).settings().2,
                r,
            ),
    {
        match self {
            Transaction::Light(t) => t.db.update_where(table, filters, fields),
            Transaction::Acid(t) => t.update_where(table, filters, fields),
        }
    }

    /// Delete all rows matching filters.
    pub fn delete_where(&mut self, table: &str, filters: &[Filter]) -> (r: Result<u64>)
        requires
            old(self).wf(),
        ensures
            r is Ok && file::tidy(old(self).state().pages) ==> file::tidy(final(self).state().pages),
            final(self).wf(),
            final(self).settings() == old(self).settings(),
            *old(self) matches Transaction::Acid(a) ==> (*final(self) matches Transaction::Acid(b)
                && untouched(*a.db, *b.db) && *final(b.db) == *final(a.db)),
            *old(self) matches Transaction::Light(a) ==> (*final(self) matches Transaction::Light(b)
                && *final(b.db) == *final(a.db)),
            old(self).settings().1 ==> session::scan_deleted(
                old(self).state(),
                final(self).state(),
                table@,
                query::filters_view(filters@),
                r,
            ),
            !old(self).settings().1 && *old(self) is Light ==> db_rows::dropped_where(
                old(self).state(),
                final(self).state(),
                table@,
                query::filters_view(filters@),
                r,
            ),
    {
        match self {
            Transaction::Light(t) => t.db.delete_where(table, filters),
            Transaction::Acid(t) => t.delete_where(table, filters),
        }
    }

    /// Commit the transaction.
    pub fn commit(self) -> (r: Result<()>)
        requires
            self.wf(),
        ensures
            r is Ok,
            self matches Transaction::Acid(t) ==> final(t.db).wf() && session::same(
                self.state(),
                final(t.db).state(),
            ),
            self matches Transaction::Light(t) ==> final(t.db).wf() && session::same(
                self.state(),
                final(t.db).state(),
            ),
    {
        match self {
            Transaction::Light(t) => t.db.flush_transaction(),
            Transaction::Acid(t) => t.commit(),
        }
    }
}

/// Transaction context: the operations of the database within a transaction.
pub struct TransactionCtx<'a> {
    pub db: &'a mut BoogyDb,
}

impl<'a> TransactionCtx<'a> {
    pub fn insert(&mut self, table: &str, data: &[(&str, Value)]) -> (r: Result<u64>)
        requires
            old(self).db.wf(),
        ensures
            *final(final(self).db) == *final(old(self).db),
            db_rows::steady(*old(self).db, *final(self).db),
            session::inserted(
                old(self).db.state(),
                final(self).db.state(),
                table@,
                engine::data_view(data@),
                old(self).db.settings().2,
                r,
            ),
    {
        self.db.insert(table, data)
    }

    pub fn get(&self, table: &str, id: u64) -> (r: Result<Option<Row>>)
        ensures
            session::got(old(self.db).state(), table@, id, r),
    {
        self.db.get(table, id)
    }

    pub fn update(&mut self, table: &str, id: u64, fields: &[(&str, Value)]) -> (r: Result<bool>)
        requires
            old(self).db.wf(),
        ensures
            *final(final(self).db) == *final(old(self).db),
            db_rows::steady(*old(self).db, *final(self).db),
            session::updated(
                old(self).db.state(),
                final(self).db.state(),
                table@,
                id,
                engine::data_view(fields@),
                old(self).db.settings().2,
                r,
            ),
    {
        self.db.update(table, id, fields)
    }

    pub fn delete(&mut self, table: &str, id: u64) -> (r: Result<bool>)
        requires
            old(self).db.wf(),
        ensures
            *final(final(self).db) == *final(old(self).db),
            db_rows::steady(*old(self).db, *final(self).db),
            session::deleted(old(self).db.state(), final(self).db.state(), table@, id, r),
    {
        self.db.delete(table, id)
    }
}

}
