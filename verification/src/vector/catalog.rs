//! The vector collections of a database: each belongs to a table, and a table of
//! its own holds which node belongs to which row.

use crate::db;
use crate::db::BoogyDb;
use crate::db_rows;
use crate::engine;
use crate::error::{owned, BoogyError, Result};
use crate::file;
use crate::filter;
use crate::filter::{Filter, FilterView, FindOptions};
use crate::names;
use crate::names::{mappings_of, parse_vector_mapping_table, vector_mapping_table};
use crate::query;
use crate::query::{FindResult, Row};
use crate::session;
use crate::session::StateView;
use crate::table;
use crate::value::{same_text, ColumnDef, ColumnView, Type, Value, ValueView};
use crate::vector::collection;
use crate::vector::collection::{Measure, VectorCollection};
use crate::vector::hnsw;
use crate::vector::types::{VectorCollectionOptions, VectorResult, VectorSearchOptions};
use crate::vector::vecfile;
use vstd::prelude::*;

verus! {

/// A collection with the names of its table and of its own.
pub struct NamedCollection {
    pub table: String,
    pub name: String,
    pub collection: VectorCollection,
}

/// The collections of a database.
pub struct VectorCatalog {
    pub entries: Vec<NamedCollection>,
}

/// The names of a collection.
pub open spec fn called(c: NamedCollection, table: Seq<char>, name: Seq<char>) -> bool {
    c.table@ == table && c.name@ == name
}

/// The place of a collection.
pub open spec fn catalog_place(
    v: Seq<NamedCollection>,
    table: Seq<char>,
    name: Seq<char>,
) -> Option<int>
    decreases v.len(),
{
    if v.len() == 0 {
        None
    } else {
        match catalog_place(v.drop_last(), table, name) {
            Some(i) => Some(i),
            None => if called(v.last(), table, name) {
                Some(v.len() - 1)
            } else {
                None
            },
        }
    }
}

proof fn place_kept(v: Seq<NamedCollection>, n: int, table: Seq<char>, name: Seq<char>)
    requires
        0 <= n <= v.len(),
        catalog_place(v.take(n), table, name) is Some,
    ensures
        catalog_place(v, table, name) == catalog_place(v.take(n), table, name),
    decreases v.len() - n,
{
    if n == v.len() {
        assert(v.take(n) =~= v);
    } else {
        assert(v.take(n + 1).drop_last() =~= v.take(n));
        place_kept(v, n + 1, table, name);
    }
}

impl VectorCatalog {
    /// All collections are in order.
    pub open spec fn inv(&self) -> bool {
        forall|i: int|
            0 <= i < self.entries@.len() ==> (#[trigger] self.entries@[i]).collection.inv()
    }

    /// The place of a collection.
    pub open spec fn place(&self, table: Seq<char>, name: Seq<char>) -> Option<int> {
        catalog_place(self.entries@, table, name)
    }

    /// A catalog without collections.
    pub fn new() -> (c: VectorCatalog)
        ensures
            c.entries@.len() == 0,
            c.inv(),
    {
        VectorCatalog { entries: Vec::new() }
    }

    /// Finds a collection.
    pub fn position(&self, table: &str, name: &str) -> (r: Option<usize>)
        ensures
            match r {
                Some(i) => self.place(table@, name@) == Some(i as int) && i < self.entries@.len()
                    && called(self.entries@[i as int], table@, name@),
                None => self.place(table@, name@) is None,
            },
    {
        let ghost v = self.entries@;
        let n: usize = self.entries.len();
        let mut i: usize = 0;
        while i < n
            invariant
                i <= n,
                n == self.entries@.len(),
                v == self.entries@,
                catalog_place(v.take(i as int), table@, name@) is None,
            decreases n - i,
        {
            proof {
                assert(v.take(i + 1).drop_last() =~= v.take(i as int));
                assert(v.take(i + 1).last() == v[i as int]);
            }
            if same_text(self.entries[i].table.as_str(), table) && same_text(
                self.entries[i].name.as_str(),
                name,
            ) {
                proof {
                    place_kept(v, i + 1, table@, name@);
                }
                return Some(i);
            }
            i += 1;
        }
        assert(v.take(n as int) =~= v);
        None
    }
}

/// One collection changed, and no other.
pub open spec fn only_at(a: VectorCatalog, b: VectorCatalog, i: int) -> bool {
    &&& b.entries@.len() == a.entries@.len()
    &&& b.entries@[i].table@ == a.entries@[i].table@
    &&& b.entries@[i].name@ == a.entries@[i].name@
    &&& forall|j: int|
        0 <= j < a.entries@.len() && j != i ==> #[trigger] b.entries@[j] == a.entries@[j]
}

/// A text with the names of a collection.
fn dotted(table: &str, name: &str) -> (r: String)
    ensures
        r@ == table@ + "."@ + name@,
{
    let mut r = owned(table);
    r.append(".");
    r.append(name);
    r
}

/// The collection does not exist.
pub open spec fn no_collection(e: BoogyError, table: Seq<char>, name: Seq<char>) -> bool {
    e matches BoogyError::VectorCollectionNotFound(t) && t@ == table + "."@ + name
}

fn missing(table: &str, name: &str) -> (e: BoogyError)
    ensures
        no_collection(e, table@, name@),
{
    BoogyError::VectorCollectionNotFound(dotted(table, name))
}

/// What the table of a collection holds of a node.
pub open spec fn node_data(node: u32) -> Seq<(Seq<char>, ValueView)> {
    seq![("node_id"@, ValueView::Integer(node as i64))]
}

/// The columns of the table of a collection.
pub open spec fn mapping_columns() -> Seq<ColumnView> {
    seq![
        ColumnView {
            name: "node_id"@,
            col_type: Type::Integer,
            nullable: true,
            unique: false,
            default: None,
            dropped: false,
        },
    ]
}

/// What comes of inserting a vector for a row: the row must exist, then the
/// collection, then the insert must succeed; then the node is noted.
pub open spec fn vector_inserted(
    g: Measure,
    s: StateView,
    s2: StateView,
    a: VectorCatalog,
    b: VectorCatalog,
    table: Seq<char>,
    name: Seq<char>,
    rowid: u64,
    vector: Seq<u32>,
    layer: u32,
    max: u32,
    found: Result<Option<Row>>,
    done: Result<u32>,
    r: Result<()>,
) -> bool {
    match found {
        Err(e) => r == Err::<(), BoogyError>(e) && session::same(s, s2) && a == b,
        Ok(None) => (r matches Err(e) && e is RowNotFound) && session::same(s, s2) && a == b,
        Ok(Some(_)) => match a.place(table, name) {
            None => (r matches Err(e) && no_collection(e, table, name)) && session::same(s, s2)
                && a == b,
            Some(i) => {
                &&& only_at(a, b, i)
                &&& collection::insert_outcome(
                    g,
                    a.entries@[i].collection,
                    b.entries@[i].collection,
                    rowid,
                    vector,
                    layer,
                    done,
                )
                &&& match done {
                    Err(e) => r == Err::<(), BoogyError>(e) && session::same(s, s2),
                    Ok(node) => session::inserted_with_id(
                        s,
                        s2,
                        names::mapping_name(table, name),
                        rowid,
                        node_data(node),
                        max,
                        r,
                    ),
                }
            },
        },
    }
}

/// What comes of updating the vector of a row.
pub open spec fn vector_updated(
    g: Measure,
    s: StateView,
    mid: StateView,
    s2: StateView,
    a: VectorCatalog,
    b: VectorCatalog,
    table: Seq<char>,
    name: Seq<char>,
    rowid: u64,
    vector: Seq<u32>,
    layer: u32,
    max: u32,
    done: Result<u32>,
    cleared: Result<bool>,
    r: Result<()>,
) -> bool {
    match a.place(table, name) {
        None => (r matches Err(e) && no_collection(e, table, name)) && session::same(s, s2) && a
            == b,
        Some(i) => {
            &&& only_at(a, b, i)
            &&& collection::update_outcome(
                g,
                a.entries@[i].collection,
                b.entries@[i].collection,
                rowid,
                vector,
                layer,
                done,
            )
            &&& match done {
                Err(e) => r == Err::<(), BoogyError>(e) && session::same(s, s2),
                Ok(node) => session::deleted(
                    s,
                    mid,
                    names::mapping_name(table, name),
                    rowid,
                    cleared,
                ) && session::inserted_with_id(
                    mid,
                    s2,
                    names::mapping_name(table, name),
                    rowid,
                    node_data(node),
                    max,
                    r,
                ),
            }
        },
    }
}

/// What comes of deleting the vector of a row.
pub open spec fn vector_deleted(
    s: StateView,
    s2: StateView,
    a: VectorCatalog,
    b: VectorCatalog,
    table: Seq<char>,
    name: Seq<char>,
    rowid: u64,
    cleared: Result<bool>,
    r: Result<()>,
) -> bool {
    match a.place(table, name) {
        None => (r matches Err(e) && no_collection(e, table, name)) && session::same(s, s2) && a
            == b,
        Some(i) => {
            &&& only_at(a, b, i)
            &&& collection::delete_outcome(
                a.entries@[i].collection,
                b.entries@[i].collection,
                rowid,
                r,
            )
            &&& match r {
                Err(_) => session::same(s, s2),
                Ok(_) => session::deleted(
                    s,
                    s2,
                    names::mapping_name(table, name),
                    rowid,
                    cleared,
                ),
            }
        },
    }
}

/// The value of the first of some named values that has a name; null if none has.
pub open spec fn first_named(cols: Seq<(Seq<char>, ValueView)>, name: Seq<char>) -> ValueView
    decreases cols.len(),
{
    if cols.len() == 0 {
        ValueView::Null
    } else if cols[0].0 == name {
        cols[0].1
    } else {
        first_named(cols.skip(1), name)
    }
}

/// Whether a filter accepts named values.
pub fn columns_pass(cols: &Vec<(String, Value)>, f: &Filter) -> (b: bool)
    ensures
        b == filter::holds(first_named(query::named_view(cols@), f@.column), f@.op, f@.value),
{
    let ghost all = query::named_view(cols@);
    let n: usize = cols.len();
    let mut i: usize = 0;
    assert(all.skip(0) =~= all);
    while i < n
        invariant
            i <= n,
            n == cols@.len(),
            all == query::named_view(cols@),
            first_named(all, f@.column) == first_named(all.skip(i as int), f@.column),
        decreases n - i,
    {
        assert(all.skip(i as int)[0] == all[i as int]);
        assert(all.skip(i as int).skip(1) =~= all.skip(i + 1));
        if same_text(cols[i].0.as_str(), f.column.as_str()) {
            return f.matches(&cols[i].1);
        }
        i += 1;
    }
    let null = Value::Null;
    f.matches(&null)
}

/// Whether a filter may be found to accept the row of a number.
pub open spec fn row_allowed(
    s: StateView,
    table: Seq<char>,
    f: FilterView,
    rowid: u64,
    b: bool,
) -> bool {
    exists|r: Result<Option<Row>>| #[trigger]
        session::got(s, table, rowid, r) && b == match r {
            Ok(Some(row)) => filter::holds(
                first_named(query::columns_in(row@), f.column),
                f.op,
                f.value,
            ),
            _ => false,
        }
}

/// What may be found of nodes when rows must pass a filter.
pub open spec fn filtered(
    s: StateView,
    table: Seq<char>,
    rows: Map<u32, u64>,
    f: Option<Filter>,
) -> hnsw::Flags {
    |v: u32, b: bool|
        match f {
            None => b,
            Some(p) => if rows.contains_key(v) {
                row_allowed(s, table, p@, rows[v], b)
            } else {
                !b
            },
        }
}

spec fn allow_row(db: &BoogyDb, table: &str, f: &Filter, rowid: u64, b: bool) -> bool {
    row_allowed(db.state(), table@, f@, rowid, b)
}

impl BoogyDb {
    /// Insert a vector for a row in a collection, at layers up to `layer`.
    pub fn vector_insert<F: Fn(&[u32], &[u32]) -> i64>(
        &mut self,
        catalog: &mut VectorCatalog,
        table: &str,
        collection: &str,
        rowid: u64,
        vector: &[u32],
        layer: u32,
        distance: &F,
    ) -> (r: Result<()>)
        requires
            old(self).wf(),
            old(catalog).inv(),
            layer < u32::MAX,
            forall|a: &[u32], b: &[u32]| call_requires(distance, (a, b)),
        ensures
            db_rows::steady(*old(self), *final(self)),
            final(catalog).inv(),
            exists|found: Result<Option<Row>>, done: Result<u32>| #[trigger]
                vector_inserted(
                    collection::measures(*distance),
                    old(self).state(),
                    final(self).state(),
                    *old(catalog),
                    *final(catalog),
                    table@,
                    collection@,
                    rowid,
                    vector@,
                    layer,
                    old(self).settings().2,
                    found,
                    done,
                    r,
                ) && session::got(old(self).state(), table@, rowid, found),
    {
        let found = self.get(table, rowid);
        let ghost was = found;
        let ghost none: Result<u32> = Ok(0);
        let ghost max = self.settings().2;
        match found {
            Err(e) => {
                assert(vector_inserted(
                    collection::measures(*distance),
                    old(self).state(),
                    self.state(),
                    *old(catalog),
                    *catalog,
                    table@,
                    collection@,
                    rowid,
                    vector@,
                    layer,
                    max,
                    was,
                    none,
                    Err(e),
                ));
                return Err(e);
            },
            Ok(None) => {
                let e = BoogyError::RowNotFound(rowid.to_string());
                assert(vector_inserted(
                    collection::measures(*distance),
                    old(self).state(),
                    self.state(),
                    *old(catalog),
                    *catalog,
                    table@,
                    collection@,
                    rowid,
                    vector@,
                    layer,
                    max,
                    was,
                    none,
                    Err(e),
                ));
                return Err(e);
            },
            Ok(Some(_)) => {},
        }
        let i: usize = match catalog.position(table, collection) {
            Some(i) => i,
            None => {
                let e = missing(table, collection);
                assert(vector_inserted(
                    collection::measures(*distance),
                    old(self).state(),
                    self.state(),
                    *old(catalog),
                    *catalog,
                    table@,
                    collection@,
                    rowid,
                    vector@,
                    layer,
                    max,
                    was,
                    none,
                    Err(e),
                ));
                return Err(e);
            },
        };
        let done = catalog.entries[i].collection.insert(rowid, vector, layer, distance);
        let ghost step = done;
        let r: Result<()> = match done {
            Err(e) => Err(e),
            Ok(node) => self.note_node(table, collection, rowid, node),
        };
        assert(vector_inserted(
            collection::measures(*distance),
            old(self).state(),
            self.state(),
            *old(catalog),
            *catalog,
            table@,
            collection@,
            rowid,
            vector@,
            layer,
            max,
            was,
            step,
            r,
        ));
        r
    }

    /// Notes the node of a row.
    fn note_node(&mut self, table: &str, collection: &str, rowid: u64, node: u32) -> (r: Result<()>)
        requires
            old(self).wf(),
        ensures
            db_rows::steady(*old(self), *final(self)),
            session::inserted_with_id(
                old(self).state(),
                final(self).state(),
                names::mapping_name(table@, collection@),
                rowid,
                node_data(node),
                old(self).settings().2,
                r,
            ),
    {
        let mapping = vector_mapping_table(table, collection);
        let mut data: Vec<(&str, Value)> = Vec::new();
        data.push(("node_id", Value::Integer(node as i64)));
        assert(engine::data_view(data@) =~= node_data(node));
        self.insert_with_id(mapping.as_str(), rowid, data.as_slice())
    }
}

/// Vectors were inserted one after the other.
pub open spec fn inserted_each(
    g: Measure,
    a: VectorCollection,
    b: VectorCollection,
    items: Seq<(u64, Vec<u32>, u32)>,
    nodes: Seq<u32>,
) -> bool
    decreases items.len(),
{
    if items.len() == 0 {
        nodes.len() == 0 && a == b
    } else {
        nodes.len() == items.len() && exists|mid: VectorCollection|
            inserted_each(g, a, mid, items.drop_last(), nodes.drop_last())
                && #[trigger] collection::insert_outcome(
                g,
                mid,
                b,
                items.last().0,
                items.last().1@,
                items.last().2,
                Ok(nodes.last()),
            )
    }
}

/// Nodes were noted one after the other.
pub open spec fn noted_each(
    s: StateView,
    s2: StateView,
    mapping: Seq<char>,
    items: Seq<(u64, Vec<u32>, u32)>,
    nodes: Seq<u32>,
    max: u32,
) -> bool
    decreases items.len(),
{
    if items.len() == 0 {
        s == s2
    } else {
        exists|mid: StateView|
            noted_each(s, mid, mapping, items.drop_last(), nodes.drop_last(), max)
                && #[trigger] session::inserted_with_id(
                mid,
                s2,
                mapping,
                items.last().0,
                node_data(nodes.last()),
                max,
                Ok(()),
            )
    }
}

/// Vectors were inserted one after the other until one could not be.
pub open spec fn insert_stopped(
    g: Measure,
    a: VectorCollection,
    b: VectorCollection,
    items: Seq<(u64, Vec<u32>, u32)>,
    e: BoogyError,
) -> bool {
    exists|k: int, mid: VectorCollection, nodes: Seq<u32>|
        #![trigger inserted_each(g, a, mid, items.take(k), nodes)]
        0 <= k < items.len() && inserted_each(g, a, mid, items.take(k), nodes)
            && collection::insert_outcome(g, mid, b, items[k].0, items[k].1@, items[k].2, Err(e))
}

/// Nodes were noted one after the other until one could not be.
pub open spec fn note_stopped(
    s: StateView,
    s2: StateView,
    mapping: Seq<char>,
    items: Seq<(u64, Vec<u32>, u32)>,
    nodes: Seq<u32>,
    max: u32,
    e: BoogyError,
) -> bool {
    exists|k: int, mid: StateView|
        #![trigger noted_each(s, mid, mapping, items.take(k), nodes.take(k), max)]
        0 <= k < items.len() && noted_each(s, mid, mapping, items.take(k), nodes.take(k), max)
            && session::inserted_with_id(
            mid,
            s2,
            mapping,
            items[k].0,
            node_data(nodes[k]),
            max,
            Err(e),
        )
}

impl BoogyDb {
    /// Insert vectors for several rows: each with its number, its vector and the
    /// highest of its layers.
    pub fn vector_insert_batch<F: Fn(&[u32], &[u32]) -> i64>(
        &mut self,
        catalog: &mut VectorCatalog,
        table: &str,
        collection: &str,
        items: &Vec<(u64, Vec<u32>, u32)>,
        distance: &F,
    ) -> (r: Result<()>)
        requires
            old(self).wf(),
            old(catalog).inv(),
            forall|i: int| 0 <= i < items@.len() ==> (#[trigger] items@[i]).2 < u32::MAX,
            forall|a: &[u32], b: &[u32]| call_requires(distance, (a, b)),
        ensures
            db_rows::steady(*old(self), *final(self)),
            final(catalog).inv(),
            match old(catalog).place(table@, collection@) {
                None => (r matches Err(e) && no_collection(e, table@, collection@)) && final(
                    self).state() == old(self).state() && *final(catalog) == *old(catalog),
                Some(i) => {
                    &&& only_at(*old(catalog), *final(catalog), i)
                    &&& r is Ok ==> exists|nodes: Seq<u32>|
                        #[trigger] inserted_each(
                            collection::measures(*distance),
                            old(catalog).entries@[i].collection,
                            final(catalog).entries@[i].collection,
                            items@,
                            nodes,
                        ) && noted_each(
                            old(self).state(),
                            final(self).state(),
                            names::mapping_name(table@, collection@),
                            items@,
                            nodes,
                            old(self).settings().2,
                        )
                    &&& r matches Err(e) ==> {
                        ||| insert_stopped(
                            collection::measures(*distance),
                            old(catalog).entries@[i].collection,
                            final(catalog).entries@[i].collection,
                            items@,
                            e,
                        ) && final(self).state() == old(self).state()
                        ||| exists|nodes: Seq<u32>|
                            #[trigger] inserted_each(
                                collection::measures(*distance),
                                old(catalog).entries@[i].collection,
                                final(catalog).entries@[i].collection,
                                items@,
                                nodes,
                            ) && note_stopped(
                                old(self).state(),
                                final(self).state(),
                                names::mapping_name(table@, collection@),
                                items@,
                                nodes,
                                old(self).settings().2,
                                e,
                            )
                    }
                },
            },
    {
        let i: usize = match catalog.position(table, collection) {
            Some(i) => i,
            None => {
                return Err(missing(table, collection));
            },
        };
        let ghost g = collection::measures(*distance);
        let ghost first = catalog.entries@[i as int].collection;
        let n: usize = items.len();
        let mut nodes: Vec<u32> = Vec::new();
        let mut k: usize = 0;
        assert(items@.take(0) =~= Seq::empty());
        while k < n
            invariant
                k <= n,
                n == items@.len(),
                i < catalog.entries@.len(),
                *self == *old(self),
                self.wf(),
                old(catalog).place(table@, collection@) == Some(i as int),
                catalog.inv(),
                only_at(*old(catalog), *catalog, i as int),
                first == old(catalog).entries@[i as int].collection,
                g == collection::measures(*distance),
                forall|a: &[u32], b: &[u32]| call_requires(distance, (a, b)),
                forall|j: int| 0 <= j < items@.len() ==> (#[trigger] items@[j]).2 < u32::MAX,
                nodes@.len() == k,
                inserted_each(
                    g,
                    first,
                    catalog.entries@[i as int].collection,
                    items@.take(k as int),
                    nodes@,
                ),
            decreases n - k,
        {
            let ghost mid = catalog.entries@[i as int].collection;
            let ghost had = nodes@;
            let it = &items[k];
            assert(items@[k as int].2 < u32::MAX);
            let done = catalog.entries[i].collection.insert(
                it.0,
                it.1.as_slice(),
                it.2,
                distance,
            );
            let node: u32 = match done {
                Ok(node) => node,
                Err(e) => {
                    assert(inserted_each(g, first, mid, items@.take(k as int), had));
                    return Err(e);
                },
            };
            nodes.push(node);
            proof {
                let part = items@.take(k + 1);
                assert(part.drop_last() =~= items@.take(k as int));
                assert(part.last() == items@[k as int]);
                assert(nodes@.drop_last() =~= had);
                assert(collection::insert_outcome(
                    g,
                    mid,
                    catalog.entries@[i as int].collection,
                    part.last().0,
                    part.last().1@,
                    part.last().2,
                    Ok(nodes@.last()),
                ));
            }
            k += 1;
        }
        assert(items@.take(n as int) =~= items@);
        let ghost s = self.state();
        let ghost max = self.settings().2;
        let ghost mapping = names::mapping_name(table@, collection@);
        let mut j: usize = 0;
        assert(nodes@.take(0) =~= Seq::empty());
        while j < n
            invariant
                j <= n,
                n == items@.len() == nodes@.len(),
                old(catalog).place(table@, collection@) == Some(i as int),
                catalog.inv(),
                only_at(*old(catalog), *catalog, i as int),
                inserted_each(
                    collection::measures(*distance),
                    old(catalog).entries@[i as int].collection,
                    catalog.entries@[i as int].collection,
                    items@,
                    nodes@,
                ),
                self.wf(),
                self.settings() == old(self).settings(),
                max == self.settings().2,
                mapping == names::mapping_name(table@, collection@),
                s == old(self).state(),
                db_rows::steady(*old(self), *self),
                noted_each(
                    s,
                    self.state(),
                    mapping,
                    items@.take(j as int),
                    nodes@.take(j as int),
                    max,
                ),
            decreases n - j,
        {
            let ghost mid = self.state();
            match self.note_node(table, collection, items[j].0, nodes[j]) {
                Ok(_) => {},
                Err(e) => {
                    assert(noted_each(
                        s,
                        mid,
                        mapping,
                        items@.take(j as int),
                        nodes@.take(j as int),
                        max,
                    ));
                    return Err(e);
                },
            }
            proof {
                let part = items@.take(j + 1);
                let some = nodes@.take(j + 1);
                assert(part.drop_last() =~= items@.take(j as int));
                assert(part.last() == items@[j as int]);
                assert(some.drop_last() =~= nodes@.take(j as int));
                assert(some.last() == nodes@[j as int]);
                assert(session::inserted_with_id(
                    mid,
                    self.state(),
                    mapping,
                    part.last().0,
                    node_data(some.last()),
                    max,
                    Ok(()),
                ));
            }
            j += 1;
        }
        assert(items@.take(n as int) =~= items@);
        assert(nodes@.take(n as int) =~= nodes@);
        Ok(())
    }

    /// Update the vector for a row in a collection.
    pub fn vector_update<F: Fn(&[u32], &[u32]) -> i64>(
        &mut self,
        catalog: &mut VectorCatalog,
        table: &str,
        collection: &str,
        rowid: u64,
        vector: &[u32],
        layer: u32,
        distance: &F,
    ) -> (r: Result<()>)
        requires
            old(self).wf(),
            old(catalog).inv(),
            layer < u32::MAX,
            forall|a: &[u32], b: &[u32]| call_requires(distance, (a, b)),
        ensures
            db_rows::steady(*old(self), *final(self)),
            final(catalog).inv(),
            exists|mid: StateView, done: Result<u32>, cleared: Result<bool>| #[trigger]
                vector_updated(
                    collection::measures(*distance),
                    old(self).state(),
                    mid,
                    final(self).state(),
                    *old(catalog),
                    *final(catalog),
                    table@,
                    collection@,
                    rowid,
                    vector@,
                    layer,
                    old(self).settings().2,
                    done,
                    cleared,
                    r,
                ),
    {
        let ghost g = collection::measures(*distance);
        let ghost max = self.settings().2;
        let ghost s = self.state();
        let ghost yes: Result<bool> = Ok(true);
        let i: usize = match catalog.position(table, collection) {
            Some(i) => i,
            None => {
                let e = missing(table, collection);
                assert(vector_updated(
                    g,
                    s,
                    s,
                    self.state(),
                    *old(catalog),
                    *catalog,
                    table@,
                    collection@,
                    rowid,
                    vector@,
                    layer,
                    max,
                    Ok(0),
                    yes,
                    Err(e),
                ));
                return Err(e);
            },
        };
        let done = catalog.entries[i].collection.update(rowid, vector, layer, distance);
        let ghost step = done;
        match done {
            Err(e) => {
                assert(vector_updated(
                    g,
                    s,
                    s,
                    self.state(),
                    *old(catalog),
                    *catalog,
                    table@,
                    collection@,
                    rowid,
                    vector@,
                    layer,
                    max,
                    step,
                    yes,
                    Err(e),
                ));
                Err(e)
            },
            Ok(node) => {
                let mapping = vector_mapping_table(table, collection);
                let cleared = self.delete(mapping.as_str(), rowid);
                let ghost mid = self.state();
                let r = self.note_node(table, collection, rowid, node);
                assert(vector_updated(
                    g,
                    s,
                    mid,
                    self.state(),
                    *old(catalog),
                    *catalog,
                    table@,
                    collection@,
                    rowid,
                    vector@,
                    layer,
                    max,
                    step,
                    cleared,
                    r,
                ));
                r
            },
        }
    }

    /// Delete a vector from a collection.
    pub fn vector_delete(
        &mut self,
        catalog: &mut VectorCatalog,
        table: &str,
        collection: &str,
        rowid: u64,
    ) -> (r: Result<()>)
        requires
            old(self).wf(),
            old(catalog).inv(),
        ensures
            db_rows::steady(*old(self), *final(self)),
            final(catalog).inv(),
            exists|cleared: Result<bool>| #[trigger]
                vector_deleted(
                    old(self).state(),
                    final(self).state(),
                    *old(catalog),
                    *final(catalog),
                    table@,
                    collection@,
                    rowid,
                    cleared,
                    r,
                ),
    {
        let ghost s = self.state();
        let ghost yes: Result<bool> = Ok(true);
        let i: usize = match catalog.position(table, collection) {
            Some(i) => i,
            None => {
                let e = missing(table, collection);
                assert(vector_deleted(
                    s,
                    self.state(),
                    *old(catalog),
                    *catalog,
                    table@,
                    collection@,
                    rowid,
                    yes,
                    Err(e),
                ));
                return Err(e);
            },
        };
        let r = catalog.entries[i].collection.delete(rowid);
        let ghost mut cleared_as = yes;
        if r.is_ok() {
            let mapping = vector_mapping_table(table, collection);
            let cleared = self.delete(mapping.as_str(), rowid);
            proof {
                cleared_as = cleared;
            }
        }
        assert(vector_deleted(
            s,
            self.state(),
            *old(catalog),
            *catalog,
            table@,
            collection@,
            rowid,
            cleared_as,
            r,
        ));
        r
    }

    /// Search for the nearest vectors, filtering by the rows they belong to if a
    /// filter is given.
    pub fn vector_search<F: Fn(&[u32], &[u32]) -> i64>(
        &self,
        catalog: &VectorCatalog,
        table: &str,
        collection: &str,
        query: &[u32],
        options: &VectorSearchOptions,
        distance: &F,
    ) -> (r: Result<Vec<VectorResult>>)
        requires
            catalog.inv(),
            forall|a: &[u32], b: &[u32]| call_requires(distance, (a, b)),
        ensures
            match catalog.place(table@, collection@) {
                None => r matches Err(e) && no_collection(e, table@, collection@),
                Some(i) => {
                    let c = catalog.entries@[i].collection;
                    &&& r is Ok <==> query@.len() == c@.file.header.dimensions
                    &&& r matches Ok(v) ==> collection::searched(
                        collection::measures(*distance),
                        c@,
                        filtered(self.state(), table@, c@.rows, options.filter),
                        query@,
                        options.k,
                        options.ef_search,
                        v@,
                    )
                    &&& r matches Err(e) ==> e == (BoogyError::VectorDimensionMismatch {
                        expected: c@.file.header.dimensions,
                        got: query@.len() as u32,
                    })
                },
            },
    {
        let i: usize = match catalog.position(table, collection) {
            Some(i) => i,
            None => {
                return Err(missing(table, collection));
            },
        };
        let c = &catalog.entries[i].collection;
        let db = self;
        match &options.filter {
            None => {
                let all = |rowid: u64| -> (b: bool)
                    ensures
                        b,
                    {
                        true
                    };
                let none = if true {
                    None
                } else {
                    Some(&all)
                };
                let r = c.search(query, options.k, options.ef_search, distance, none);
                proof {
                    if r is Ok {
                        collection::searched_within(
                            collection::measures(*distance),
                            c@,
                            collection::rows_allowed(c@.rows, none),
                            filtered(self.state(), table@, c@.rows, options.filter),
                            query@,
                            options.k,
                            options.ef_search,
                            r->Ok_0@,
                        );
                    }
                }
                r
            },
            Some(f) => {
                let asks = |rowid: u64| -> (b: bool)
                    ensures
                        allow_row(db, table, f, rowid, b),
                    {
                        let r = db.get(table, rowid);
                        let ghost was = r;
                        let b: bool = match r {
                            Ok(Some(row)) => {
                                let cols = row.columns();
                                columns_pass(&cols, f)
                            },
                            _ => false,
                        };
                        assert(session::got(db.state(), table@, rowid, was));
                        b
                    };
                let r = c.search(query, options.k, options.ef_search, distance, Some(&asks));
                proof {
                    if r is Ok {
                        collection::searched_within(
                            collection::measures(*distance),
                            c@,
                            collection::rows_allowed(c@.rows, Some(&asks)),
                            filtered(self.state(), table@, c@.rows, options.filter),
                            query@,
                            options.k,
                            options.ef_search,
                            r->Ok_0@,
                        );
                    }
                }
                r
            },
        }
    }
}

/// A collection was added at the end.
pub open spec fn catalog_grown(
    a: VectorCatalog,
    b: VectorCatalog,
    table: Seq<char>,
    name: Seq<char>,
) -> bool {
    &&& b.entries@.len() == a.entries@.len() + 1
    &&& b.entries@.drop_last() == a.entries@
    &&& called(b.entries@.last(), table, name)
}

/// The table does not exist.
pub open spec fn no_table(e: BoogyError, table: Seq<char>) -> bool {
    e matches BoogyError::TableNotFound(t) && t@ == table
}

/// The collection exists already.
pub open spec fn has_collection(e: BoogyError, table: Seq<char>, name: Seq<char>) -> bool {
    e matches BoogyError::VectorCollectionExists(t) && t@ == table + "."@ + name
}

impl BoogyDb {
    /// Create a new vector collection attached to an existing table, and the table
    /// that holds its nodes.
    pub fn create_vector_collection(
        &mut self,
        catalog: &mut VectorCatalog,
        table: &str,
        name: &str,
        options: &VectorCollectionOptions,
        key: Option<&[u8; 32]>,
    ) -> (r: Result<()>)
        requires
            old(self).wf(),
            old(catalog).inv(),
        ensures
            db::on_ground(*old(self), *final(self)),
            r is Ok && file::tidy(old(self).pages()) ==> file::tidy(final(self).pages()),
            final(self).wf(),
            final(self).settings() == old(self).settings(),
            final(catalog).inv(),
            if table::table_place(old(self).views(), table@) is None {
                (r matches Err(e) && no_table(e, table@)) && *final(self) == *old(self) && *final(
                    catalog) == *old(catalog)
            } else if old(catalog).place(table@, name@) is Some {
                (r matches Err(e) && has_collection(e, table@, name@)) && *final(self) == *old(
                    self,
                ) && *final(catalog) == *old(catalog)
            } else if !collection::allowed_options(options.dimensions, options.m) {
                (r matches Err(e) && e is VectorError) && *final(self) == *old(self) && *final(
                    catalog) == *old(catalog)
            } else {
                &&& catalog_grown(*old(catalog), *final(catalog), table@, name@)
                &&& final(catalog).entries@.last().collection@.file == vecfile::blank_file(
                    options.dimensions,
                    options.metric,
                    options.m,
                    options.ef_construction,
                    1024,
                )
                &&& final(catalog).entries@.last().collection@.nodes == Map::<u64, u32>::empty()
                &&& db::table_created(
                    *old(self),
                    *final(self),
                    names::mapping_name(table@, name@),
                    mapping_columns(),
                    None,
                    r,
                )
            },
    {
        if self.tables().position(table).is_none() {
            return Err(BoogyError::TableNotFound(owned(table)));
        }
        if catalog.position(table, name).is_some() {
            return Err(BoogyError::VectorCollectionExists(dotted(table, name)));
        }
        let made = VectorCollection::create(options, key)?;
        catalog.entries.push(
            NamedCollection { table: owned(table), name: owned(name), collection: made },
        );
        assert(catalog.entries@.drop_last() =~= old(catalog).entries@);
        let mapping = vector_mapping_table(table, name);
        let mut columns: Vec<ColumnDef> = Vec::new();
        columns.push(ColumnDef::new("node_id", Type::Integer));
        assert(table::columns_view(columns@) =~= mapping_columns());
        self.create_table(mapping.as_str(), columns.as_slice())
    }

    /// Open an existing vector collection from the bytes of its file and its log.
    pub fn open_vector_collection(
        &self,
        catalog: &mut VectorCatalog,
        table: &str,
        name: &str,
        raw: &[u8],
        log: Vec<u8>,
        key: Option<&[u8; 32]>,
    ) -> (r: Result<()>)
        requires
            old(catalog).inv(),
        ensures
            final(catalog).inv(),
            r is Err ==> *final(catalog) == *old(catalog),
            r is Ok ==> {
                &&& table::table_place(self.views(), table@) is Some
                &&& old(catalog).place(table@, name@) is None
                &&& catalog_grown(*old(catalog), *final(catalog), table@, name@)
                &&& collection::recovered(
                    raw@,
                    log@,
                    vecfile::crypto_key(key),
                    final(catalog).entries@.last().collection@.file,
                )
                &&& final(catalog).entries@.last().collection@.nodes == Map::<u64, u32>::empty()
            },
            table::table_place(self.views(), table@) is None ==> (r matches Err(e) && no_table(
                e,
                table@,
            )),
            table::table_place(self.views(), table@) is Some && old(catalog).place(table@, name@)
                is Some ==> (r matches Err(e) && has_collection(e, table@, name@)),
            table::table_place(self.views(), table@) is Some && old(catalog).place(table@, name@)
                is None && r is Err ==> !collection::openable(
                raw@,
                log@,
                vecfile::crypto_key(key),
            ),
    {
        if self.tables().position(table).is_none() {
            return Err(BoogyError::TableNotFound(owned(table)));
        }
        if catalog.position(table, name).is_some() {
            return Err(BoogyError::VectorCollectionExists(dotted(table, name)));
        }
        let opened = VectorCollection::open(raw, log, key)?;
        catalog.entries.push(
            NamedCollection { table: owned(table), name: owned(name), collection: opened },
        );
        assert(catalog.entries@.drop_last() =~= old(catalog).entries@);
        Ok(())
    }

    /// Fill in which row each node of a collection belongs to.
    pub fn vector_rebuild_mappings(
        &self,
        catalog: &mut VectorCatalog,
        table: &str,
        collection: &str,
        mappings: &Vec<(u64, u32)>,
    ) -> (r: Result<()>)
        requires
            old(catalog).inv(),
        ensures
            final(catalog).inv(),
            match old(catalog).place(table@, collection@) {
                None => (r matches Err(e) && no_collection(e, table@, collection@)) && *final(
                    catalog) == *old(catalog),
                Some(i) => {
                    let c = final(catalog).entries@[i].collection@;
                    &&& r is Ok
                    &&& only_at(*old(catalog), *final(catalog), i)
                    &&& c.file == old(catalog).entries@[i].collection@.file
                    &&& c.nodes == collection::nodes_of(mappings@)
                    &&& c.rows == collection::rows_of(mappings@)
                },
            },
    {
        let i: usize = match catalog.position(table, collection) {
            Some(i) => i,
            None => {
                return Err(missing(table, collection));
            },
        };
        catalog.entries[i].collection.rebuild_mappings(mappings);
        Ok(())
    }

    /// Drop a vector collection, and the table that holds its nodes.
    pub fn drop_vector_collection(
        &mut self,
        catalog: &mut VectorCatalog,
        table: &str,
        name: &str,
    ) -> (r: Result<()>)
        requires
            old(self).wf(),
            old(catalog).inv(),
        ensures
            db::on_ground(*old(self), *final(self)),
            file::tidy(old(self).pages()) ==> file::tidy(final(self).pages()),
            final(self).wf(),
            final(self).settings() == old(self).settings(),
            final(catalog).inv(),
            match old(catalog).place(table@, name@) {
                None => (r matches Err(e) && no_collection(e, table@, name@)) && *final(self) == *old(
                    self,
                ) && *final(catalog) == *old(catalog),
                Some(i) => {
                    &&& r is Ok
                    &&& final(catalog).entries@ == old(catalog).entries@.remove(i)
                    &&& exists|dropped: Result<()>| #[trigger]
                        db::table_dropped(
                            *old(self),
                            *final(self),
                            names::mapping_name(table@, name@),
                            dropped,
                        )
                },
            },
    {
        let i: usize = match catalog.position(table, name) {
            Some(i) => i,
            None => {
                return Err(missing(table, name));
            },
        };
        catalog.entries.remove(i);
        let mapping = vector_mapping_table(table, name);
        let dropped = self.drop_table(mapping.as_str());
        Ok(())
    }

    /// The tables that hold the nodes of collections: each with the names of the
    /// table and of the collection that its name gives.
    pub fn vector_mapping_tables(&self) -> (r: Vec<(String, String, String)>)
        ensures
            mapping_tables_view(r@) == mapping_tables(table::table_names_of(self.views())),
    {
        let all = self.tables().table_names();
        let ghost texts = table::texts(all@);
        let mut out: Vec<(String, String, String)> = Vec::new();
        let n: usize = all.len();
        let mut i: usize = 0;
        assert(texts.take(0) =~= Seq::empty());
        assert(mapping_tables_view(out@) =~= Seq::empty());
        while i < n
            invariant
                i <= n,
                n == all@.len(),
                texts == table::texts(all@),
                mapping_tables_view(out@) == mapping_tables(texts.take(i as int)),
            decreases n - i,
        {
            let ghost before = out@;
            proof {
                assert(texts.take(i + 1).drop_last() =~= texts.take(i as int));
                assert(texts.take(i + 1).last() == all@[i as int]@);
            }
            match parse_vector_mapping_table(all[i].as_str()) {
                Some((t, c)) => {
                    out.push((owned(all[i].as_str()), t, c));
                    assert(mapping_tables_view(out@) =~= mapping_tables_view(before).push(
                        (all@[i as int]@, t@, c@),
                    ));
                },
                None => {},
            }
            i += 1;
        }
        assert(texts.take(n as int) =~= texts);
        out
    }

    /// Open again the collection that a table of nodes belongs to, from the bytes
    /// of its file and its log, and fill in its rows from that table.
    pub fn reopen_vector_collection(
        &self,
        catalog: &mut VectorCatalog,
        mapping: &str,
        table: &str,
        name: &str,
        raw: &[u8],
        log: Vec<u8>,
        key: Option<&[u8; 32]>,
    ) -> (r: Result<()>)
        requires
            old(catalog).inv(),
        ensures
            final(catalog).inv(),
            r is Err ==> *final(catalog) == *old(catalog),
            r is Ok ==> {
                let c = final(catalog).entries@.last().collection@;
                &&& catalog_grown(*old(catalog), *final(catalog), table@, name@)
                &&& collection::recovered(raw@, log@, vecfile::crypto_key(key), c.file)
                &&& exists|opts: FindOptions, found: FindResult| #[trigger]
                    listed(self.state(), mapping@, opts, Ok(found)) && c.nodes == collection::nodes_of(
                        names::mappings_in(query::rows_view(found.rows@)),
                    ) && c.rows == collection::rows_of(
                        names::mappings_in(query::rows_view(found.rows@)),
                    )
            },
            r matches Err(e) ==> !collection::openable(raw@, log@, vecfile::crypto_key(key))
                || exists|opts: FindOptions| #[trigger]
                listed(self.state(), mapping@, opts, Err(e)),
    {
        let mut opened = VectorCollection::open(raw, log, key)?;
        let opts = FindOptions::default();
        let found = match self.find(mapping, &opts) {
            Ok(found) => found,
            Err(e) => {
                assert(listed(self.state(), mapping@, opts, Err(e)));
                return Err(e);
            },
        };
        assert(listed(self.state(), mapping@, opts, Ok(found)));
        let pairs = mappings_of(&found.rows);
        opened.rebuild_mappings(&pairs);
        catalog.entries.push(
            NamedCollection { table: owned(table), name: owned(name), collection: opened },
        );
        assert(catalog.entries@.drop_last() =~= old(catalog).entries@);
        Ok(())
    }
}

/// What listing all rows of a table in order gives.
pub open spec fn listed(
    s: StateView,
    table: Seq<char>,
    opts: FindOptions,
    r: Result<FindResult>,
) -> bool {
    &&& opts.filters@.len() == 0
    &&& opts.sort@.len() == 0
    &&& opts.limit is None
    &&& opts.offset is None
    &&& db_rows::found(s, table, opts, r)
}

/// The tables among some that hold the nodes of collections.
pub open spec fn mapping_tables(all: Seq<Seq<char>>) -> Seq<(Seq<char>, Seq<char>, Seq<char>)>
    decreases all.len(),
{
    if all.len() == 0 {
        Seq::empty()
    } else {
        let rest = mapping_tables(all.drop_last());
        match names::mapping_parts(all.last()) {
            Some(p) => rest.push((all.last(), p.0, p.1)),
            None => rest,
        }
    }
}

/// Names as mathematical values.
pub open spec fn mapping_tables_view(v: Seq<(String, String, String)>) -> Seq<
    (Seq<char>, Seq<char>, Seq<char>),
> {
    v.map_values(|p: (String, String, String)| (p.0@, p.1@, p.2@))
}

}
