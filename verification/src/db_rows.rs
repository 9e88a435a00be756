//! Reading and writing rows of the database.

use crate::btree::BTreeReader;
use crate::db;
use crate::db::BoogyDb;
use crate::engine;
use crate::engine::{add_row, change_row, drop_row, enforce_index_types};
use crate::engine_bulk;
use crate::engine_bulk::{change_where, drop_where};
use crate::engine_list;
use crate::error::{corruption, BoogyError, Result};
use crate::file;
use crate::file::WriteGuard;
use crate::filter::{Filter, FilterView, FindOptions};
use crate::finder;
use crate::finder::{count_rows, find_rows};
use crate::query;
use crate::query::{FindResult, Row};
use crate::room;
use crate::session;
use crate::session::StateView;
use crate::store;
use crate::table::{TableMeta, TableView};
use crate::transaction;
use crate::transaction::{find_table, AcidTransaction};
use crate::value::{Value, ValueView};
use vstd::prelude::*;

verus! {

/// The database was not changed, but that the numbers of a table go on after
/// the one that was tried.
pub open spec fn burned(s: StateView, s2: StateView, i: int, k: u64) -> bool {
    &&& s2.pages == s.pages
    &&& s2.tables == s.tables.update(
        i,
        TableView {
            next_rowid: engine::next_after(s.tables[i].next_rowid, k),
            ..s.tables[i]
        },
    )
}

/// Skipping a number leaves the tables in order, with their rows.
pub proof fn burned_sound(s: StateView, s2: StateView, i: int, k: u64)
    requires
        s.in_order(i),
        0 <= i < s.tables.len(),
        k < u64::MAX,
        burned(s, s2, i, k),
    ensures
        session::stepped(s, s2, i, s.rows(i)),
{
    let v = s.tables[i];
    let w = s2.tables[i];
    session::sound_table(s, i);
    engine::trees_decide(s.pages, v, w);
    reveal(engine::table_sound);
    store::only_table_none(s.pages, v);
    engine::only_table_trees(s.pages, s.pages, v, v, v, w);
    assert(engine::table_sound(s2.pages, w));
    session::step(s, s2, i);
}

/// What a search gives.
pub open spec fn found(s: StateView, table: Seq<char>, opts: FindOptions, r: Result<FindResult>) -> bool {
    if !session::usable(s, table) {
        r matches Err(e) && session::refused(s, table, e)
    } else {
        let v = s.tables[session::place_of(s, table)];
        let fs = query::filters_view(opts.filters@);
        s.in_order(session::place_of(s, table)) && finder::searchable(s.pages, v, fs) ==> (
        r matches Ok(f) && finder::answered(finder::matching(s.pages, v, fs), v, opts, f))
    }
}

/// What counting gives.
pub open spec fn counted(s: StateView, table: Seq<char>, fs: Seq<FilterView>, r: Result<u64>) -> bool {
    if !session::usable(s, table) {
        r matches Err(e) && session::refused(s, table, e)
    } else {
        let v = s.tables[session::place_of(s, table)];
        &&& fs.len() == 0 ==> r == Ok::<u64, BoogyError>(v.row_count)
        &&& s.in_order(session::place_of(s, table)) && (fs.len() > 0 ==> finder::searchable(
            s.pages,
            v,
            fs,
        )) ==> (r matches Ok(n) && n == finder::count_of(s.pages, v, fs))
    }
}

/// A change of one table was logged under it.
pub open spec fn logged_for(a: BoogyDb, b: BoogyDb, table: Seq<char>) -> bool {
    let v = a.views()[session::place_of(a.state(), table)];
    db::logged(a, b, a.pages(), b.pages(), v.table_id, v.key)
}

/// Nothing is to be logged.
pub open spec fn log_same(a: BoogyDb, b: BoogyDb) -> bool {
    b.pending() == a.pending() && b.sync_wanted() == a.sync_wanted()
}

/// What every operation on rows keeps.
pub open spec fn steady(a: BoogyDb, b: BoogyDb) -> bool {
    &&& b.wf()
    &&& b.settings() == a.settings()
    &&& b.registry().next_id() == a.registry().next_id()
    &&& file::tidy(a.pages()) ==> file::tidy(b.pages())
    &&& db::on_ground(a, b)
    &&& db::plain(a.views()) ==> db::plain(b.views())
}

impl BoogyDb {
    /// Stores a row and commits.
    fn put_row(&mut self, i: usize, meta: TableMeta, rowid: u64, data: &[(&str, Value)]) -> (r: Result<
        (),
    >)
        requires
            old(self).wf(),
            i < old(self).views().len(),
            meta@ == old(self).views()[i as int],
            rowid < u64::MAX,
        ensures
            steady(*old(self), *final(self)),
            r is Err ==> log_same(*old(self), *final(self)) && burned(
                old(self).state(),
                final(self).state(),
                i as int,
                rowid,
            ) && final(self).file_of().count() == old(self).file_of().count(),
            r is Ok ==> db::logged(
                *old(self),
                *final(self),
                old(self).pages(),
                final(self).pages(),
                meta@.table_id,
                meta@.key,
            ),
            session::row_stored(
                old(self).state(),
                final(self).state(),
                i as int,
                rowid,
                engine::data_view(data@),
                old(self).settings().2,
                r,
            ),
    {
        let ghost s = self.state();
        let ghost v = meta@;
        let mut meta = meta;
        let max: u32 = self.max_row_size();
        proof {
            if s.in_order(i as int) {
                session::sound_table(s, i as int);
            }
        }
        let mut guard = self.start();
        assert(guard.pages() =~= s.pages);
        match add_row(&mut guard, &mut meta, rowid, data, max) {
            Ok(_) => {
                self.commit_table(guard, i, meta);
                proof {
                    let s2 = self.state();
                    let bytes = engine::new_row(v, rowid, engine::data_view(data@));
                    if s.in_order(i as int) && v.row_count < u64::MAX && store::readable(bytes)
                        && store::indexable(v, bytes, rowid) && bytes.len() <= max {
                        session::step(s, s2, i as int);
                    }
                }
                Ok(())
            },
            Err(e) => {
                self.restore(guard.discard());
                let mut kept = self.tables().at(i).clone();
                if rowid >= kept.next_rowid {
                    kept.next_rowid = rowid + 1;
                }
                self.set_table(i, kept);
                Err(e)
            },
        }
    }

    /// Insert a row with auto-increment rowid. Returns the assigned rowid.
    pub fn insert(&mut self, table: &str, data: &[(&str, Value)]) -> (r: Result<u64>)
        requires
            old(self).wf(),
        ensures
            steady(*old(self), *final(self)),
            session::inserted(
                old(self).state(),
                final(self).state(),
                table@,
                engine::data_view(data@),
                old(self).settings().2,
                r,
            ),
            r is Ok ==> logged_for(*old(self), *final(self), table@),
            r is Err ==> log_same(*old(self), *final(self)) && final(self).file_of().count()
                == old(self).file_of().count(),
            r is Err ==> session::same(old(self).state(), final(self).state()) || !old(
                self).settings().1 && burned(
                old(self).state(),
                final(self).state(),
                session::place_of(old(self).state(), table@),
                old(self).views()[session::place_of(old(self).state(), table@)].next_rowid,
            ),
    {
        let ghost s = self.state();
        if self.is_acid() {
            let mut tx = AcidTransaction::new(self);
            let id: u64 = tx.insert(table, data)?;
            let ghost mid = *tx.db;
            let ghost s2 = tx.state();
            let ghost owners = tx.owners@;
            tx.commit()?;
            proof {
                transaction::table_known(s, table@);
                transaction::logged_for_one(
                    *old(self),
                    mid,
                    *self,
                    s2,
                    owners,
                    session::place_of(s, table@),
                );
            }
            return Ok(id);
        }
        let (i, meta): (usize, TableMeta) = find_table(self.tables(), table, Ghost(self.state()))?;
        enforce_index_types(&meta, data)?;
        let rowid: u64 = meta.next_rowid;
        if rowid == u64::MAX {
            return Err(corruption("row numbers exhausted"));
        }
        self.put_row(i, meta, rowid, data)?;
        Ok(rowid)
    }

    /// Insert a row with a caller-supplied rowid.
    pub fn insert_with_id(&mut self, table: &str, rowid: u64, data: &[(&str, Value)]) -> (r: Result<
        (),
    >)
        requires
            old(self).wf(),
        ensures
            steady(*old(self), *final(self)),
            session::inserted_with_id(
                old(self).state(),
                final(self).state(),
                table@,
                rowid,
                engine::data_view(data@),
                old(self).settings().2,
                r,
            ),
            r is Ok ==> logged_for(*old(self), *final(self), table@),
            r is Err ==> log_same(*old(self), *final(self)) && final(self).file_of().count()
                == old(self).file_of().count(),
            r is Err ==> session::same(old(self).state(), final(self).state()) || !old(
                self).settings().1 && burned(
                old(self).state(),
                final(self).state(),
                session::place_of(old(self).state(), table@),
                rowid,
            ),
    {
        let ghost s = self.state();
        if self.is_acid() {
            let mut tx = AcidTransaction::new(self);
            tx.insert_with_id(table, rowid, data)?;
            let ghost mid = *tx.db;
            let ghost s2 = tx.state();
            let ghost owners = tx.owners@;
            tx.commit()?;
            proof {
                transaction::table_known(s, table@);
                transaction::logged_for_one(
                    *old(self),
                    mid,
                    *self,
                    s2,
                    owners,
                    session::place_of(s, table@),
                );
            }
            return Ok(());
        }
        let (i, meta): (usize, TableMeta) = find_table(self.tables(), table, Ghost(self.state()))?;
        enforce_index_types(&meta, data)?;
        if rowid == u64::MAX {
            return Err(corruption("row numbers exhausted"));
        }
        self.put_row(i, meta, rowid, data)
    }

    /// Get a row by rowid.
    pub fn get(&self, table: &str, id: u64) -> (r: Result<Option<Row>>)
        ensures
            session::got(self.state(), table@, id, r),
    {
        let ghost s = self.state();
        let (i, meta): (usize, TableMeta) = find_table(self.tables(), table, Ghost(s))?;
        proof {
            if s.in_order(i as int) {
                session::sound_table(s, i as int);
                engine::sound_search(s.pages, meta@, id);
            }
        }
        let reader = BTreeReader::new(self.page_file(), meta.root_page);
        match reader.search(id)? {
            Some(bytes) => {
                let row = Row::from_raw(bytes.as_slice(), &meta.col_names())?;
                Ok(Some(row))
            },
            None => Ok(None),
        }
    }

    /// Find rows matching filters, with sort and pagination.
    pub fn find(&self, table: &str, opts: &FindOptions) -> (r: Result<FindResult>)
        ensures
            found(self.state(), table@, *opts, r),
    {
        let ghost s = self.state();
        let (i, meta): (usize, TableMeta) = find_table(self.tables(), table, Ghost(s))?;
        proof {
            if s.in_order(i as int) {
                session::sound_table(s, i as int);
            }
        }
        find_rows(self.page_file(), &meta, opts)
    }

    /// Count rows matching filters.
    pub fn count(&self, table: &str, filters: &Vec<Filter>) -> (r: Result<u64>)
        ensures
            counted(self.state(), table@, query::filters_view(filters@), r),
    {
        let ghost s = self.state();
        let (i, meta): (usize, TableMeta) = find_table(self.tables(), table, Ghost(s))?;
        proof {
            if s.in_order(i as int) {
                session::sound_table(s, i as int);
            }
        }
        count_rows(self.page_file(), &meta, filters)
    }

    /// Update a row by rowid. Replaces specified columns.
    pub fn update(&mut self, table: &str, id: u64, fields: &[(&str, Value)]) -> (r: Result<bool>)
        requires
            old(self).wf(),
        ensures
            steady(*old(self), *final(self)),
            session::updated(
                old(self).state(),
                final(self).state(),
                table@,
                id,
                engine::data_view(fields@),
                old(self).settings().2,
                r,
            ),
            r == Ok::<bool, BoogyError>(true) ==> logged_for(*old(self), *final(self), table@),
            r is Err ==> log_same(*old(self), *final(self)) && final(self).file_of().count()
                == old(self).file_of().count() && session::same(
                old(self).state(),
                final(self).state(),
            ),
    {
        let ghost s = self.state();
        if self.is_acid() {
            let mut tx = AcidTransaction::new(self);
            let done: bool = tx.update(table, id, fields)?;
            let ghost mid = *tx.db;
            let ghost s2 = tx.state();
            let ghost owners = tx.owners@;
            tx.commit()?;
            proof {
                transaction::table_known(s, table@);
                if done {
                transaction::logged_for_one(
                    *old(self),
                    mid,
                    *self,
                    s2,
                    owners,
                    session::place_of(s, table@),
                );
                }
            }
            return Ok(done);
        }
        let (i, meta): (usize, TableMeta) = find_table(self.tables(), table, Ghost(s))?;
        enforce_index_types(&meta, fields)?;
        let ghost v = meta@;
        let mut meta = meta;
        let max: u32 = self.max_row_size();
        proof {
            if s.in_order(i as int) {
                session::sound_table(s, i as int);
            }
        }
        let mut guard = self.start();
        assert(guard.pages() =~= s.pages);
        match change_row(&mut guard, &mut meta, id, fields, max) {
            Ok(done) => {
                self.commit_table(guard, i, meta);
                proof {
                    let s2 = self.state();
                    let bytes = engine::updated_row(
                        v,
                        id,
                        s.rows(i as int)[id],
                        engine::data_view(fields@),
                    );
                    if done && s.in_order(i as int) && store::readable(bytes) && store::indexable(
                        v,
                        bytes,
                        id,
                    ) {
                        session::step(s, s2, i as int);
                    }
                    if !done && s.in_order(i as int) {
                        assert(s2.tables =~= s.tables);
                    }
                }
                Ok(done)
            },
            Err(e) => {
                self.restore(guard.discard());
                Err(e)
            },
        }
    }

    /// Delete a row by rowid.
    pub fn delete(&mut self, table: &str, id: u64) -> (r: Result<bool>)
        requires
            old(self).wf(),
        ensures
            steady(*old(self), *final(self)),
            session::deleted(old(self).state(), final(self).state(), table@, id, r),
            r == Ok::<bool, BoogyError>(true) ==> logged_for(*old(self), *final(self), table@),
            r is Err ==> log_same(*old(self), *final(self)) && final(self).file_of().count()
                == old(self).file_of().count() && session::same(
                old(self).state(),
                final(self).state(),
            ),
    {
        let ghost s = self.state();
        if self.is_acid() {
            let mut tx = AcidTransaction::new(self);
            let done: bool = tx.delete(table, id)?;
            let ghost mid = *tx.db;
            let ghost s2 = tx.state();
            let ghost owners = tx.owners@;
            tx.commit()?;
            proof {
                transaction::table_known(s, table@);
                if done {
                transaction::logged_for_one(
                    *old(self),
                    mid,
                    *self,
                    s2,
                    owners,
                    session::place_of(s, table@),
                );
                }
            }
            return Ok(done);
        }
        let (i, meta): (usize, TableMeta) = find_table(self.tables(), table, Ghost(s))?;
        let mut meta = meta;
        proof {
            if s.in_order(i as int) {
                session::sound_table(s, i as int);
            }
        }
        let mut guard = self.start();
        assert(guard.pages() =~= s.pages);
        match drop_row(&mut guard, &mut meta, id) {
            Ok(done) => {
                self.commit_table(guard, i, meta);
                proof {
                    let s2 = self.state();
                    if done && s.in_order(i as int) {
                        session::step(s, s2, i as int);
                    }
                    if !done && s.in_order(i as int) {
                        assert(s2.tables =~= s.tables);
                    }
                }
                Ok(done)
            },
            Err(e) => {
                self.restore(guard.discard());
                Err(e)
            },
        }
    }
}

/// What comes of patching the rows that pass filters.
pub open spec fn patched_where(
    s: StateView,
    s2: StateView,
    table: Seq<char>,
    fs: Seq<FilterView>,
    fields: Seq<(Seq<char>, ValueView)>,
    max: u32,
    r: Result<u64>,
) -> bool {
    if !session::usable(s, table) {
        (r matches Err(e) && session::refused(s, table, e)) && session::same(s, s2)
    } else {
        let i = session::place_of(s, table);
        let v = s.tables[i];
        let ps = engine::picked(v.columns, fields);
        if !engine::types_ok(v, fields) {
            (r matches Err(e) && e is TypeMismatch) && session::same(s, s2)
        } else {
            &&& r is Ok ==> session::retabled(s, s2, i) && s2.tables[i].row_count == v.row_count
                && s2.tables[i].next_rowid == v.next_rowid
            &&& s.in_order(i) && engine_bulk::patches_storable(s.pages, v, fs, ps) ==> match r {
                Ok(n) => n == engine_bulk::hits(s.pages, v, fs).len() && session::stepped(
                    s,
                    s2,
                    i,
                    engine_bulk::patched_rows(s.pages, v, fs, ps),
                ) && engine_bulk::patches_within(s.pages, v, fs, ps, max),
                Err(BoogyError::RowTooLarge(n)) => engine_bulk::patch_too_large(
                    s.pages,
                    v,
                    fs,
                    ps,
                    max,
                    n as int,
                ) && session::same(s, s2),
                Err(e) => store::tree_error(e) && !engine_bulk::change_where_owed(
                    s.pages,
                    v,
                    fs,
                    ps,
                    max,
                    s.total,
                ) && session::same(s, s2),
            }
            &&& s.in_order(i) && engine_bulk::patches_readable(s.pages, v, fs, ps)
                && engine_bulk::patches_within(s.pages, v, fs, ps, max)
                && !engine_bulk::patches_storable(s.pages, v, fs, ps) ==> (r matches Err(e)
                && engine_bulk::patch_unlistable(s.pages, v, fs, ps, e)) && session::same(s, s2)
        }
    }
}

/// What comes of removing the rows that pass filters.
pub open spec fn dropped_where(
    s: StateView,
    s2: StateView,
    table: Seq<char>,
    fs: Seq<FilterView>,
    r: Result<u64>,
) -> bool {
    if !session::usable(s, table) {
        (r matches Err(e) && session::refused(s, table, e)) && session::same(s, s2)
    } else {
        let i = session::place_of(s, table);
        let v = s.tables[i];
        &&& r is Ok ==> session::retabled(s, s2, i) && s2.tables[i].next_rowid == v.next_rowid
        &&& s.in_order(i) ==> match r {
            Ok(n) => n == engine_bulk::hits(s.pages, v, fs).len() && session::stepped(
                s,
                s2,
                i,
                engine_bulk::spared_rows(s.pages, v, fs),
            ),
            Err(_) => false,
        }
    }
}

/// As many rows go as pass.
proof fn hits_counted(m: Map<u32, Seq<u8>>, v: TableView, fs: Seq<FilterView>)
    requires
        engine::table_sound(m, v),
    ensures
        engine_bulk::hits(m, v, fs).len() == store::table_rows(m, v).dom().len()
            - engine_bulk::spared_rows(m, v, fs).dom().len(),
{
    reveal(engine::table_sound);
    let all = store::table_rows(m, v).dom();
    let hit = engine_bulk::hits(m, v, fs);
    let rest = engine_bulk::spared_rows(m, v, fs).dom();
    assert(rest =~= all.difference(hit));
    assert(hit =~= all.intersect(hit));
    vstd::set_lib::lemma_len_subset(hit, all);
    vstd::set_lib::lemma_len_difference(all, hit);
    vstd::set_lib::lemma_set_disjoint_lens(rest, hit);
    assert(rest + hit =~= all);
}

/// What comes of adding many rows to a table.
pub open spec fn rows_added(
    m: Map<u32, Seq<u8>>,
    m2: Map<u32, Seq<u8>>,
    v: TableView,
    v2: TableView,
    datas: Seq<Seq<(Seq<char>, ValueView)>>,
    max: u32,
    total: int,
    r: Result<Vec<u64>>,
) -> bool {
    &&& r matches Ok(ids) ==> {
        &&& ids@.len() == datas.len()
        &&& v2.next_rowid == v.next_rowid + datas.len()
        &&& forall|j: int| 0 <= j < ids@.len() ==> (#[trigger] ids@[j]) == v.next_rowid + j
        &&& forall|j: int|
            0 <= j < datas.len() ==> engine::new_row(
                v,
                (v.next_rowid + j) as u64,
                #[trigger] datas[j],
            ).len() <= max
        &&& forall|j: int| 0 <= j < datas.len() ==> #[trigger] session::lists_at(v, datas, j)
        &&& engine::table_sound(m, v) && session::all_storable(v, datas, max) ==> {
            &&& engine::table_sound(m2, v2)
            &&& store::table_rows(m2, v2) == session::with_rows(
                v,
                store::table_rows(m, v),
                v.next_rowid,
                datas,
            )
            &&& store::only_table(m, m2, v, v2)
        }
    }
    &&& datas.len() == 0 ==> r is Ok
    &&& datas.len() == 1 && engine::table_sound(m, v) && session::all_storable(v, datas, max)
        && session::lists_at(v, datas, 0) && store::insert_owed(
        m,
        v,
        v.next_rowid,
        engine::new_row(v, v.next_rowid, datas[0]),
        total,
    ) ==> r is Ok
    &&& engine::table_sound(m, v) && session::all_storable(v, datas, max) && session::many_owed(
        store::table_rows(m, v),
        v,
        datas,
        max,
        total,
    ) ==> match r {
        Ok(_) => true,
        Err(e) => session::many_unlistable(v, datas, e),
    }
}

/// Adds many rows to a table.
fn add_rows(guard: &mut WriteGuard, meta: &mut TableMeta, rows: &[Vec<(&str, Value)>], max: u32) -> (r: Result<
    Vec<u64>,
>)
    requires
        old(guard).wf(),
    ensures
        r is Ok && file::tidy(old(guard).pages()) ==> file::tidy(final(guard).pages()),
        store::unpublished(*old(guard), *final(guard), old(meta)@.encrypted),
        engine::same_table(old(meta)@, final(meta)@),
        rows_added(
            old(guard).pages(),
            final(guard).pages(),
            old(meta)@,
            final(meta)@,
            session::datas_view(rows@),
            max,
            old(guard).total(),
            r,
        ),
{
    let ghost m = guard.pages();
    let ghost v = meta@;
    let ghost datas = session::datas_view(rows@);
    let ghost good = engine::table_sound(m, v) && session::all_storable(v, datas, max);
    let ghost owed = good && session::many_owed(
        store::table_rows(m, v),
        v,
        datas,
        max,
        guard.total(),
    );
    let n: usize = rows.len();
    let mut ids: Vec<u64> = Vec::new();
    let mut x: usize = 0;
    proof {
        assert(datas.take(0).len() == 0);
        store::only_table_none(m, v);
    }
    while x < n
        invariant
            x <= n,
            n == rows@.len(),
            ids@.len() == x,
            datas == session::datas_view(rows@),
            m == old(guard).pages(),
            v == old(meta)@,
            x == 0 ==> *guard == *old(guard) && meta@ == v,
            store::unpublished(*old(guard), *guard, old(meta)@.encrypted),
            file::tidy(old(guard).pages()) ==> file::tidy(guard.pages()),
            engine::same_table(v, meta@),
            meta@.next_rowid == v.next_rowid + x,
            forall|j: int| 0 <= j < x ==> (#[trigger] ids@[j]) == v.next_rowid + j,
            forall|j: int|
                0 <= j < x ==> engine::new_row(
                    v,
                    (v.next_rowid + j) as u64,
                    #[trigger] datas[j],
                ).len() <= max,
            forall|j: int| 0 <= j < x ==> #[trigger] session::lists_at(v, datas, j),
            good == (engine::table_sound(m, v) && session::all_storable(v, datas, max)),
            owed == (good && session::many_owed(
                store::table_rows(m, v),
                v,
                datas,
                max,
                old(guard).total(),
            )),
            owed ==> guard.total() <= old(guard).total() + store::row_pages(v, max) * x,
            good ==> {
                &&& meta@.row_count == v.row_count + x
                &&& engine::table_sound(guard.pages(), meta@)
                &&& store::table_rows(guard.pages(), meta@) == session::with_rows(
                    v,
                    store::table_rows(m, v),
                    v.next_rowid,
                    datas.take(x as int),
                )
                &&& store::only_table(m, guard.pages(), v, meta@)
            },
        decreases n - x,
    {
        let ghost mx = guard.pages();
        let ghost vx = meta@;
        let rowid: u64 = meta.next_rowid;
        if rowid == u64::MAX {
            return Err(corruption("row numbers exhausted"));
        }
        proof {
            assert(datas[x as int] == engine::data_view(rows@[x as int]@));
            assert(datas.take(x + 1).drop_last() =~= datas.take(x as int));
            assert(datas.take(x + 1).last() == datas[x as int]);
            engine_list::columns_decide(v, vx, rowid, Seq::empty(), datas[x as int]);
            if owed {
                room::next_row_owed(
                    mx,
                    vx,
                    v,
                    store::table_rows(m, v),
                    datas,
                    x as int,
                    max,
                    old(guard).total(),
                    guard.total(),
                );
            }
        }
        proof {
            engine_list::relisted_rows(v, vx);
        }
        match add_row(guard, meta, rowid, rows[x].as_slice(), max) {
            Ok(_) => {},
            Err(e) => {
                proof {
                    if owed {
                        let bytes = engine::new_row(v, rowid, datas[x as int]);
                        engine_list::relisted(v, vx, bytes, rowid, e);
                        assert(!session::lists_at(v, datas, x as int));
                    }
                }
                return Err(e);
            },
        }
        assert(session::lists_at(v, datas, x as int));
        proof {
            if good {
                store::only_table_then(m, mx, guard.pages(), v, vx, meta@);
            }
            if owed {
                room::one_step_more(v, max, x as int);
            }
        }
        ids.push(rowid);
        x += 1;
    }
    assert(datas.take(n as int) =~= datas);
    Ok(ids)
}

impl BoogyDb {
    /// Update all rows matching filters. Returns number of rows updated.
    pub fn update_where(&mut self, table: &str, filters: &[Filter], fields: &[(&str, Value)]) -> (r: Result<
        u64,
    >)
        requires
            old(self).wf(),
        ensures
            steady(*old(self), *final(self)),
            old(self).settings().1 ==> session::scan_updated(
                old(self).state(),
                final(self).state(),
                table@,
                query::filters_view(filters@),
                engine::data_view(fields@),
                old(self).settings().2,
                r,
            ),
            !old(self).settings().1 ==> patched_where(
                old(self).state(),
                final(self).state(),
                table@,
                query::filters_view(filters@),
                engine::data_view(fields@),
                old(self).settings().2,
                r,
            ),
            r is Ok ==> logged_for(*old(self), *final(self), table@),
            r is Err ==> log_same(*old(self), *final(self)) && final(self).file_of().count()
                == old(self).file_of().count() && session::same(
                old(self).state(),
                final(self).state(),
            ),
    {
        let ghost s = self.state();
        if self.is_acid() {
            let mut tx = AcidTransaction::new(self);
            let count: u64 = tx.update_where(table, filters, fields)?;
            let ghost mid = *tx.db;
            let ghost s2 = tx.state();
            let ghost owners = tx.owners@;
            tx.commit()?;
            proof {
                transaction::table_known(s, table@);
                transaction::logged_for_one(
                    *old(self),
                    mid,
                    *self,
                    s2,
                    owners,
                    session::place_of(s, table@),
                );
            }
            return Ok(count);
        }
        let (i, meta): (usize, TableMeta) = find_table(self.tables(), table, Ghost(s))?;
        enforce_index_types(&meta, fields)?;
        let ghost v = meta@;
        let mut meta = meta;
        let max: u32 = self.max_row_size();
        proof {
            if s.in_order(i as int) {
                session::sound_table(s, i as int);
            }
        }
        let mut guard = self.start();
        assert(guard.pages() =~= s.pages);
        match change_where(&mut guard, &mut meta, filters, fields, max) {
            Ok(count) => {
                self.commit_table(guard, i, meta);
                proof {
                    if s.in_order(i as int) && engine_bulk::patches_storable(
                        s.pages,
                        v,
                        query::filters_view(filters@),
                        engine::picked(v.columns, engine::data_view(fields@)),
                    ) {
                        session::step(s, self.state(), i as int);
                    }
                }
                Ok(count)
            },
            Err(e) => {
                self.restore(guard.discard());
                Err(e)
            },
        }
    }

    /// Delete all rows matching filters. Returns number of rows deleted.
    pub fn delete_where(&mut self, table: &str, filters: &[Filter]) -> (r: Result<u64>)
        requires
            old(self).wf(),
        ensures
            steady(*old(self), *final(self)),
            old(self).settings().1 ==> session::scan_deleted(
                old(self).state(),
                final(self).state(),
                table@,
                query::filters_view(filters@),
                r,
            ),
            !old(self).settings().1 ==> dropped_where(
                old(self).state(),
                final(self).state(),
                table@,
                query::filters_view(filters@),
                r,
            ),
            r is Ok ==> logged_for(*old(self), *final(self), table@),
            r is Err ==> log_same(*old(self), *final(self)) && final(self).file_of().count()
                == old(self).file_of().count() && session::same(
                old(self).state(),
                final(self).state(),
            ),
    {
        let ghost s = self.state();
        if self.is_acid() {
            let mut tx = AcidTransaction::new(self);
            let count: u64 = tx.delete_where(table, filters)?;
            let ghost mid = *tx.db;
            let ghost s2 = tx.state();
            let ghost owners = tx.owners@;
            tx.commit()?;
            proof {
                transaction::table_known(s, table@);
                transaction::logged_for_one(
                    *old(self),
                    mid,
                    *self,
                    s2,
                    owners,
                    session::place_of(s, table@),
                );
            }
            return Ok(count);
        }
        let (i, meta): (usize, TableMeta) = find_table(self.tables(), table, Ghost(s))?;
        let ghost v = meta@;
        let mut meta = meta;
        proof {
            if s.in_order(i as int) {
                session::sound_table(s, i as int);
                hits_counted(s.pages, v, query::filters_view(filters@));
            }
        }
        let mut guard = self.start();
        assert(guard.pages() =~= s.pages);
        match drop_where(&mut guard, &mut meta, filters) {
            Ok(count) => {
                self.commit_table(guard, i, meta);
                proof {
                    if s.in_order(i as int) {
                        session::step(s, self.state(), i as int);
                    }
                }
                Ok(count)
            },
            Err(e) => {
                self.restore(guard.discard());
                Err(e)
            },
        }
    }

    /// Insert multiple rows in a single transaction. Returns list of assigned
    /// rowids.
    pub fn insert_many(&mut self, table: &str, rows: &[Vec<(&str, Value)>]) -> (r: Result<Vec<u64>>)
        requires
            old(self).wf(),
        ensures
            steady(*old(self), *final(self)),
            old(self).settings().1 && rows@.len() == 0 ==> (r matches Ok(ids) && ids@.len() == 0),
            !old(self).settings().1 || rows@.len() > 0 ==> session::many_inserted(
                old(self).state(),
                final(self).state(),
                table@,
                session::datas_view(rows@),
                old(self).settings().2,
                r,
            ),
            !old(self).settings().1 && session::usable(old(self).state(), table@) && (exists|j: int|
                0 <= j < rows@.len() && !engine::types_ok(
                    old(self).views()[session::place_of(old(self).state(), table@)],
                    engine::data_view((#[trigger] rows@[j])@),
                )) ==> (r matches Err(e) && e is TypeMismatch),
            r is Ok && rows@.len() > 0 ==> logged_for(*old(self), *final(self), table@),
            r is Err ==> log_same(*old(self), *final(self)) && final(self).file_of().count()
                == old(self).file_of().count() && session::same(
                old(self).state(),
                final(self).state(),
            ),
    {
        let ghost s = self.state();
        let ghost datas = session::datas_view(rows@);
        if self.is_acid() {
            let mut tx = AcidTransaction::new(self);
            let ids: Vec<u64> = tx.insert_many(table, rows)?;
            let ghost mid = *tx.db;
            let ghost s2 = tx.state();
            let ghost owners = tx.owners@;
            tx.commit()?;
            proof {
                if rows@.len() > 0 {
                    transaction::table_known(s, table@);
                    transaction::logged_for_one(
                        *old(self),
                        mid,
                        *self,
                        s2,
                        owners,
                        session::place_of(s, table@),
                    );
                }
            }
            return Ok(ids);
        }
        let (i, meta): (usize, TableMeta) = find_table(self.tables(), table, Ghost(s))?;
        let ghost v = meta@;
        let n: usize = rows.len();
        let mut x: usize = 0;
        while x < n
            invariant
                x <= n,
                n == rows@.len(),
                meta@ == v,
                *self == *old(self),
                self.wf(),
                s == self.state(),
                v == s.tables[session::place_of(s, table@)],
                session::usable(s, table@),
                !self.settings().1,
                datas == session::datas_view(rows@),
                forall|j: int|
                    0 <= j < x ==> engine::types_ok(v, engine::data_view((#[trigger] rows@[j])@)),
            decreases n - x,
        {
            assert(datas[x as int] == engine::data_view(rows@[x as int]@));
            enforce_index_types(&meta, rows[x].as_slice())?;
            x += 1;
        }
        proof {
            if s.in_order(i as int) {
                session::sound_table(s, i as int);
            }
            assert forall|j: int| 0 <= j < datas.len() implies engine::types_ok(
                v,
                #[trigger] datas[j],
            ) by {
                assert(datas[j] == engine::data_view(rows@[j]@));
            }
        }
        let mut meta = meta;
        let max: u32 = self.max_row_size();
        let mut guard = self.start();
        assert(guard.pages() =~= s.pages);
        match add_rows(&mut guard, &mut meta, rows, max) {
            Ok(ids) => {
                self.commit_table(guard, i, meta);
                proof {
                    if s.in_order(i as int) && session::all_storable(v, datas, max) {
                        session::step(s, self.state(), i as int);
                    }
                }
                Ok(ids)
            },
            Err(e) => {
                self.restore(guard.discard());
                Err(e)
            },
        }
    }
}

}
