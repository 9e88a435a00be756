//! What is known of a table besides its pages: columns, indexes, counters.

use crate::crypto::Cipher;
use crate::row;
use crate::value::{same_text, ColumnDef, ColumnView, Type};
use vstd::prelude::*;

verus! {

/// Where a name stands first in a list of names.
pub open spec fn place(names: Seq<Seq<char>>, name: Seq<char>) -> Option<int>
    decreases names.len(),
{
    if names.len() == 0 {
        None
    } else {
        match place(names.drop_last(), name) {
            Some(i) => Some(i),
            None => if names.last() == name {
                Some(names.len() - 1)
            } else {
                None
            },
        }
    }
}

/// A place is where the name stands, and no earlier entry has the name.
pub proof fn place_first(names: Seq<Seq<char>>, name: Seq<char>)
    ensures
        match place(names, name) {
            Some(i) => 0 <= i < names.len() && names[i] == name && forall|j: int|
                0 <= j < i ==> #[trigger] names[j] != name,
            None => !names.contains(name),
        },
    decreases names.len(),
{
    if names.len() > 0 {
        place_first(names.drop_last(), name);
        if place(names.drop_last(), name) is None {
            assert forall|j: int| 0 <= j < names.len() - 1 implies #[trigger] names[j] != name by {
                assert(names.drop_last()[j] == names[j]);
            }
        } else {
            let i = place(names.drop_last(), name)->0;
            assert forall|j: int| 0 <= j < i implies #[trigger] names[j] != name by {
                assert(names.drop_last()[j] == names[j]);
            }
        }
    }
}

/// The place is found by looking at the names one after the other.
proof fn place_step(names: Seq<Seq<char>>, name: Seq<char>, i: int)
    requires
        0 <= i < names.len(),
        place(names.take(i), name) is None,
    ensures
        names[i] == name ==> place(names, name) == Some(i),
        names[i] != name ==> place(names.take(i + 1), name) is None,
{
    assert(names.take(i + 1).drop_last() =~= names.take(i));
    if names[i] == name {
        place_first(names.take(i), name);
        place_first(names, name);
        assert(names.contains(name));
        let p = place(names, name)->0;
        if p < i {
            assert(names.take(i)[p] == name);
        }
    }
}

/// What a list holds after a push.
proof fn push_contains(a: Seq<Seq<char>>, name: Seq<char>, x: Seq<char>)
    ensures
        a.push(name).contains(x) == (a.contains(x) || x == name),
{
    let b = a.push(name);
    assert(b[a.len() as int] == name);
    if a.contains(x) {
        let i = choose|i: int| 0 <= i < a.len() && a[i] == x;
        assert(b[i] == x);
    }
    if b.contains(x) && x != name {
        let i = choose|i: int| 0 <= i < b.len() && b[i] == x;
        assert(a[i] == x);
    }
}

/// The names of columns.
pub open spec fn column_names(columns: Seq<ColumnView>) -> Seq<Seq<char>> {
    columns.map_values(|c: ColumnView| c.name)
}

/// The number of a column: the position of the last column of that name.
pub open spec fn column_id(columns: Seq<ColumnView>, name: Seq<char>) -> Option<u16>
    decreases columns.len(),
{
    if columns.len() == 0 {
        None
    } else if columns.last().name == name {
        Some(row::low16(columns.len() - 1))
    } else {
        column_id(columns.drop_last(), name)
    }
}

/// The type of a column: that of the first column of that name.
pub open spec fn column_type(columns: Seq<ColumnView>, name: Seq<char>) -> Option<Type> {
    match place(column_names(columns), name) {
        None => None,
        Some(i) => Some(columns[i].col_type),
    }
}

/// A column has a number exactly if it has a type.
pub proof fn column_known(columns: Seq<ColumnView>, name: Seq<char>)
    ensures
        column_id(columns, name) is Some <==> column_type(columns, name) is Some,
        column_id(columns, name) is Some <==> column_names(columns).contains(name),
    decreases columns.len(),
{
    place_first(column_names(columns), name);
    if columns.len() > 0 {
        let rest = columns.drop_last();
        column_known(rest, name);
        place_first(column_names(rest), name);
        assert(column_names(rest) =~= column_names(columns).drop_last());
        assert(column_names(columns)[columns.len() - 1] == columns.last().name);
        assert(column_names(columns).contains(columns.last().name));
        if column_names(rest).contains(name) {
            let i = choose|i: int| 0 <= i < rest.len() && column_names(rest)[i] == name;
            assert(column_names(columns)[i] == name);
        }
        if column_names(columns).contains(name) && columns.last().name != name {
            let i = choose|i: int| 0 <= i < columns.len() && column_names(columns)[i] == name;
            assert(column_names(rest)[i] == name);
        }
    }
}

/// Metadata for a secondary index.
#[derive(Debug)]
pub struct IndexMeta {
    /// Name of this index (e.g. "idx_author").
    pub name: String,
    /// Columns this index covers, in key order.
    pub columns: Vec<String>,
    /// When true, no two rows may have the same key tuple.
    pub unique: bool,
    /// B+ tree root page number for the index tree.
    pub root_page: u32,
}

/// An index as a mathematical value.
pub struct IndexView {
    pub name: Seq<char>,
    pub columns: Seq<Seq<char>>,
    pub unique: bool,
    pub root_page: u32,
}

/// The strings of a list.
pub open spec fn texts(v: Seq<String>) -> Seq<Seq<char>> {
    v.map_values(|s: String| s@)
}

impl View for IndexMeta {
    type V = IndexView;

    open spec fn view(&self) -> IndexView {
        IndexView {
            name: self.name@,
            columns: texts(self.columns@),
            unique: self.unique,
            root_page: self.root_page,
        }
    }
}

/// A copy of a list of strings.
pub fn copy_texts(v: &Vec<String>) -> (r: Vec<String>)
    ensures
        texts(r@) == texts(v@),
{
    let mut r: Vec<String> = Vec::new();
    let n: usize = v.len();
    let mut i: usize = 0;
    while i < n
        invariant
            n == v@.len(),
            i <= n,
            texts(r@) == texts(v@).take(i as int),
        decreases n - i,
    {
        let ghost before = r@;
        r.push(v[i].clone());
        assert(texts(r@) =~= texts(before).push(r@.last()@));
        assert(texts(v@).take(i + 1) =~= texts(v@).take(i as int).push(texts(v@)[i as int]));
        i += 1;
    }
    assert(texts(v@).take(n as int) =~= texts(v@));
    r
}

impl Clone for IndexMeta {
    fn clone(&self) -> (r: IndexMeta)
        ensures
            r@ == self@,
    {
        IndexMeta {
            name: self.name.clone(),
            columns: copy_texts(&self.columns),
            unique: self.unique,
            root_page: self.root_page,
        }
    }
}

/// The column an index starts with; the empty name if it covers none.
pub open spec fn leading(ix: IndexView) -> Seq<char> {
    if ix.columns.len() == 0 {
        Seq::empty()
    } else {
        ix.columns[0]
    }
}

impl IndexMeta {
    /// The column the index starts with; the empty name if it covers none.
    pub fn leading_column(&self) -> (s: String)
        ensures
            s@ == leading(self@),
    {
        if self.columns.len() == 0 {
            String::new()
        } else {
            self.columns[0].clone()
        }
    }
}

/// Metadata for a registered table.
pub struct TableMeta {
    pub name: String,
    pub table_id: u32,
    pub columns: Vec<ColumnDef>,
    /// B+ tree root page number.
    pub root_page: u32,
    /// Number of rows (maintained by insert/delete).
    pub row_count: u64,
    /// Next rowid to assign on insert.
    pub next_rowid: u64,
    /// Secondary indexes on this table.
    pub indexes: Vec<IndexMeta>,
    /// Whether this table's pages are encrypted at rest.
    pub encrypted: bool,
    /// In-memory cipher for encrypt/decrypt (not persisted).
    pub cipher: Option<Cipher>,
}

/// A table's metadata as a mathematical value.
pub struct TableView {
    pub name: Seq<char>,
    pub table_id: u32,
    pub columns: Seq<ColumnView>,
    pub root_page: u32,
    pub row_count: u64,
    pub next_rowid: u64,
    pub indexes: Seq<IndexView>,
    pub encrypted: bool,
    pub key: Option<Seq<u8>>,
}

/// The columns of a list.
pub open spec fn columns_view(v: Seq<ColumnDef>) -> Seq<ColumnView> {
    v.map_values(|c: ColumnDef| c@)
}

/// The indexes of a list.
pub open spec fn indexes_view(v: Seq<IndexMeta>) -> Seq<IndexView> {
    v.map_values(|ix: IndexMeta| ix@)
}

/// The key of a cipher that may be missing.
pub open spec fn key_view(c: Option<Cipher>) -> Option<Seq<u8>> {
    match c {
        None => None,
        Some(c) => Some(c.secret()),
    }
}

impl View for TableMeta {
    type V = TableView;

    open spec fn view(&self) -> TableView {
        TableView {
            name: self.name@,
            table_id: self.table_id,
            columns: columns_view(self.columns@),
            root_page: self.root_page,
            row_count: self.row_count,
            next_rowid: self.next_rowid,
            indexes: indexes_view(self.indexes@),
            encrypted: self.encrypted,
            key: key_view(self.cipher),
        }
    }
}

/// A copy of a list of columns.
pub fn copy_columns(v: &[ColumnDef]) -> (r: Vec<ColumnDef>)
    ensures
        columns_view(r@) == columns_view(v@),
{
    let mut r: Vec<ColumnDef> = Vec::new();
    let n: usize = v.len();
    let mut i: usize = 0;
    while i < n
        invariant
            n == v@.len(),
            i <= n,
            columns_view(r@) == columns_view(v@).take(i as int),
        decreases n - i,
    {
        let ghost before = r@;
        r.push(v[i].clone());
        assert(columns_view(r@) =~= columns_view(before).push(r@.last()@));
        assert(columns_view(v@).take(i + 1) =~= columns_view(v@).take(i as int).push(columns_view(v@)[i as int]));
        i += 1;
    }
    assert(columns_view(v@).take(n as int) =~= columns_view(v@));
    r
}

fn copy_indexes(v: &Vec<IndexMeta>) -> (r: Vec<IndexMeta>)
    ensures
        indexes_view(r@) == indexes_view(v@),
{
    let mut r: Vec<IndexMeta> = Vec::new();
    let n: usize = v.len();
    let mut i: usize = 0;
    while i < n
        invariant
            n == v@.len(),
            i <= n,
            indexes_view(r@) == indexes_view(v@).take(i as int),
        decreases n - i,
    {
        let ghost before = r@;
        r.push(v[i].clone());
        assert(indexes_view(r@) =~= indexes_view(before).push(r@.last()@));
        assert(indexes_view(v@).take(i + 1) =~= indexes_view(v@).take(i as int).push(indexes_view(v@)[i as int]));
        i += 1;
    }
    assert(indexes_view(v@).take(n as int) =~= indexes_view(v@));
    r
}

/// A copy of a cipher that may be missing.
pub fn copy_cipher(c: &Option<Cipher>) -> (r: Option<Cipher>)
    ensures
        key_view(r) == key_view(*c),
{
    match c {
        None => None,
        Some(x) => Some(x.clone()),
    }
}

impl Clone for TableMeta {
    fn clone(&self) -> (r: TableMeta)
        ensures
            r@ == self@,
    {
        TableMeta {
            name: self.name.clone(),
            table_id: self.table_id,
            columns: copy_columns(self.columns.as_slice()),
            root_page: self.root_page,
            row_count: self.row_count,
            next_rowid: self.next_rowid,
            indexes: copy_indexes(&self.indexes),
            encrypted: self.encrypted,
            cipher: copy_cipher(&self.cipher),
        }
    }
}

/// The names of indexes.
pub open spec fn index_names(v: Seq<IndexView>) -> Seq<Seq<char>> {
    v.map_values(|ix: IndexView| ix.name)
}

/// An index starts with the column.
pub open spec fn leads_with(ix: IndexView, column: Seq<char>) -> bool {
    ix.columns.len() > 0 && ix.columns[0] == column
}

/// The first index that starts with a column.
pub open spec fn index_for(v: Seq<IndexView>, column: Seq<char>) -> Option<int>
    decreases v.len(),
{
    if v.len() == 0 {
        None
    } else {
        match index_for(v.drop_last(), column) {
            Some(i) => Some(i),
            None => if leads_with(v.last(), column) {
                Some(v.len() - 1)
            } else {
                None
            },
        }
    }
}

/// The index found for a column is the first that starts with it.
pub proof fn index_for_first(v: Seq<IndexView>, column: Seq<char>)
    ensures
        match index_for(v, column) {
            Some(i) => 0 <= i < v.len() && leads_with(v[i], column) && forall|j: int|
                0 <= j < i ==> !leads_with(#[trigger] v[j], column),
            None => forall|j: int| 0 <= j < v.len() ==> !leads_with(#[trigger] v[j], column),
        },
    decreases v.len(),
{
    if v.len() > 0 {
        index_for_first(v.drop_last(), column);
        if index_for(v.drop_last(), column) is None {
            assert forall|j: int| 0 <= j < v.len() - 1 implies !leads_with(
                #[trigger] v[j],
                column,
            ) by {
                assert(v.drop_last()[j] == v[j]);
            }
        } else {
            let i = index_for(v.drop_last(), column)->0;
            assert forall|j: int| 0 <= j < i implies !leads_with(#[trigger] v[j], column) by {
                assert(v.drop_last()[j] == v[j]);
            }
        }
    }
}

proof fn index_for_step(v: Seq<IndexView>, column: Seq<char>, i: int)
    requires
        0 <= i < v.len(),
        index_for(v.take(i), column) is None,
    ensures
        leads_with(v[i], column) ==> index_for(v, column) == Some(i),
        !leads_with(v[i], column) ==> index_for(v.take(i + 1), column) is None,
{
    assert(v.take(i + 1).drop_last() =~= v.take(i));
    if leads_with(v[i], column) {
        index_for_first(v.take(i), column);
        index_for_first(v, column);
        let p = index_for(v, column)->0;
        if p < i {
            assert(v.take(i)[p] == v[p]);
        }
    }
}

impl TableMeta {
    /// A table without rows and without indexes.
    pub fn new(name: String, table_id: u32, columns: Vec<ColumnDef>, root_page: u32) -> (t: TableMeta)
        ensures
            t@ == (TableView {
                name: name@,
                table_id,
                columns: columns_view(columns@),
                root_page,
                row_count: 0,
                next_rowid: 1,
                indexes: Seq::empty(),
                encrypted: false,
                key: None,
            }),
    {
        let t = TableMeta {
            name,
            table_id,
            columns,
            root_page,
            row_count: 0,
            next_rowid: 1,
            indexes: Vec::new(),
            encrypted: false,
            cipher: None,
        };
        assert(indexes_view(t.indexes@) =~= Seq::<IndexView>::empty());
        t
    }

    /// The number of a column.
    pub fn col_id(&self, name: &str) -> (r: Option<u16>)
        ensures
            r == column_id(self@.columns, name@),
    {
        let mut i: usize = self.columns.len();
        assert(self@.columns.take(i as int) =~= self@.columns);
        while i > 0
            invariant
                i <= self.columns@.len(),
                column_id(self@.columns, name@) == column_id(self@.columns.take(i as int), name@),
            decreases i,
        {
            i -= 1;
            let ghost c = self@.columns.take(i + 1);
            assert(c.drop_last() =~= self@.columns.take(i as int));
            assert(c.last() == self@.columns[i as int]);
            if same_text(self.columns[i].name.as_str(), name) {
                return Some((i % 0x1_0000) as u16);
            }
        }
        None
    }

    /// The type of a column.
    pub fn col_type(&self, name: &str) -> (r: Option<Type>)
        ensures
            r == column_type(self@.columns, name@),
    {
        let ghost names = column_names(self@.columns);
        let n: usize = self.columns.len();
        let mut i: usize = 0;
        while i < n
            invariant
                i <= n,
                n == self.columns@.len(),
                names == column_names(self@.columns),
                place(names.take(i as int), name@) is None,
            decreases n - i,
        {
            proof {
                place_step(names, name@, i as int);
            }
            assert(names[i as int] == self.columns@[i as int].name@);
            if same_text(self.columns[i].name.as_str(), name) {
                return Some(self.columns[i].col_type);
            }
            i += 1;
        }
        assert(names.take(n as int) =~= names);
        None
    }

    /// The names of the columns, by number.
    pub fn col_names(&self) -> (r: Vec<String>)
        ensures
            texts(r@) == column_names(self@.columns),
    {
        let mut r: Vec<String> = Vec::new();
        let n: usize = self.columns.len();
        let mut i: usize = 0;
        while i < n
            invariant
                n == self.columns@.len(),
                i <= n,
                texts(r@) == column_names(self@.columns).take(i as int),
            decreases n - i,
        {
            let ghost before = r@;
            r.push(self.columns[i].name.clone());
            assert(texts(r@) =~= texts(before).push(r@.last()@));
            assert(column_names(self@.columns).take(i + 1) =~= column_names(self@.columns).take(
                i as int,
            ).push(column_names(self@.columns)[i as int]));
            i += 1;
        }
        assert(column_names(self@.columns).take(n as int) =~= column_names(self@.columns));
        r
    }

    /// Where the index of that name stands.
    pub fn index_position(&self, name: &str) -> (r: Option<usize>)
        ensures
            match r {
                Some(i) => place(index_names(self@.indexes), name@) == Some(i as int) && i
                    < self.indexes@.len(),
                None => place(index_names(self@.indexes), name@) is None,
            },
    {
        let ghost names = index_names(self@.indexes);
        let n: usize = self.indexes.len();
        let mut i: usize = 0;
        while i < n
            invariant
                i <= n,
                n == self.indexes@.len(),
                names == index_names(self@.indexes),
                place(names.take(i as int), name@) is None,
            decreases n - i,
        {
            proof {
                place_step(names, name@, i as int);
            }
            assert(names[i as int] == self.indexes@[i as int].name@);
            if same_text(self.indexes[i].name.as_str(), name) {
                return Some(i);
            }
            i += 1;
        }
        assert(names.take(n as int) =~= names);
        None
    }

    /// Find index metadata by index name.
    pub fn find_index(&self, name: &str) -> (r: Option<&IndexMeta>)
        ensures
            match place(index_names(self@.indexes), name@) {
                Some(i) => r matches Some(ix) && ix@ == self@.indexes[i],
                None => r is None,
            },
    {
        match self.index_position(name) {
            Some(i) => Some(&self.indexes[i]),
            None => None,
        }
    }

    /// Find an index whose leading column matches `column`.
    pub fn find_index_for_column(&self, column: &str) -> (r: Option<&IndexMeta>)
        ensures
            match index_for(self@.indexes, column@) {
                Some(i) => r matches Some(ix) && ix@ == self@.indexes[i],
                None => r is None,
            },
    {
        let ghost v = self@.indexes;
        let n: usize = self.indexes.len();
        let mut i: usize = 0;
        while i < n
            invariant
                i <= n,
                n == self.indexes@.len(),
                v == self@.indexes,
                index_for(v.take(i as int), column@) is None,
            decreases n - i,
        {
            proof {
                index_for_step(v, column@, i as int);
            }
            assert(v[i as int] == self.indexes@[i as int]@);
            let ix = &self.indexes[i];
            if ix.columns.len() > 0 && same_text(ix.columns[0].as_str(), column) {
                return Some(ix);
            }
            i += 1;
        }
        assert(v.take(n as int) =~= v);
        None
    }

    /// Append a new column. Its number is the new last position.
    pub fn add_column(&mut self, col: ColumnDef)
        ensures
            final(self)@ == (TableView {
                columns: old(self)@.columns.push(col@),
                ..old(self)@
            }),
    {
        self.columns.push(col);
        assert(columns_view(self.columns@) =~= columns_view(old(self).columns@).push(col@));
    }
}

/// Registry of all tables in a database, in the order of their registration.
pub struct TableRegistry {
    tables: Vec<TableMeta>,
    next_table_id: u32,
}

/// The tables of a list.
pub open spec fn tables_view(v: Seq<TableMeta>) -> Seq<TableView> {
    v.map_values(|t: TableMeta| t@)
}

/// The names of tables.
pub open spec fn table_names_of(v: Seq<TableView>) -> Seq<Seq<char>> {
    v.map_values(|t: TableView| t.name)
}

/// The place of a table.
pub open spec fn table_place(v: Seq<TableView>, name: Seq<char>) -> Option<int> {
    place(table_names_of(v), name)
}

impl View for TableRegistry {
    type V = Seq<TableView>;

    closed spec fn view(&self) -> Seq<TableView> {
        tables_view(self.tables@)
    }
}

impl TableRegistry {
    /// The number the next table gets.
    pub closed spec fn next_id(&self) -> u32 {
        self.next_table_id
    }

    /// No two tables have the same name.
    pub open spec fn wf(&self) -> bool {
        table_names_of(self@).no_duplicates()
    }

    /// A registry without tables.
    pub fn new() -> (r: TableRegistry)
        ensures
            r@ == Seq::<TableView>::empty(),
            r.next_id() == 1,
            r.wf(),
    {
        let r = TableRegistry { tables: Vec::new(), next_table_id: 1 };
        assert(r@ =~= Seq::<TableView>::empty());
        r
    }

    /// A registry of given tables; of two with one name the later one counts.
    pub fn of(metas: Vec<TableMeta>, next_table_id: u32) -> (r: TableRegistry)
        ensures
            r.wf(),
            r.next_id() == next_table_id,
            table_names_of(tables_view(metas@)).no_duplicates() ==> r@ == tables_view(metas@),
            forall|name: Seq<char>|
                (table_place(r@, name) is Some) == table_names_of(tables_view(metas@)).contains(name),
    {
        let mut r = TableRegistry { tables: Vec::new(), next_table_id };
        assert(r@ =~= Seq::<TableView>::empty());
        let ghost all = tables_view(metas@);
        let n: usize = metas.len();
        let mut i: usize = 0;
        assert(table_names_of(r@) =~= Seq::<Seq<char>>::empty());
        while i < n
            invariant
                i <= n,
                n == metas@.len(),
                all == tables_view(metas@),
                r.wf(),
                r.next_id() == next_table_id,
                table_names_of(all).no_duplicates() ==> r@ == all.take(i as int),
                forall|name: Seq<char>| #[trigger]
                    table_names_of(r@).contains(name) == table_names_of(all.take(i as int)).contains(
                        name,
                    ),
            decreases n - i,
        {
            let ghost before = r@;
            let ghost name = metas@[i as int].name@;
            r.put(metas[i].clone());
            proof {
                let prev = all.take(i as int);
                let next = all.take(i + 1);
                assert(next =~= prev.push(all[i as int]));
                assert(table_names_of(next) =~= table_names_of(prev).push(name));
                place_first(table_names_of(before), name);
                if table_names_of(all).no_duplicates() {
                    assert forall|j: int| 0 <= j < i implies table_names_of(before)[j] != name by {
                        assert(table_names_of(all)[j] == table_names_of(before)[j]);
                        assert(table_names_of(all)[i as int] == name);
                    }
                    assert(r@ =~= next);
                }
                assert forall|x: Seq<char>| #[trigger] table_names_of(r@).contains(x)
                    == table_names_of(next).contains(x) by {
                    let a = table_names_of(before);
                    let b = table_names_of(r@);
                    if table_place(before, name) is Some {
                        assert(b =~= a);
                    } else {
                        assert(b =~= a.push(name));
                        push_contains(a, name, x);
                    }
                    push_contains(table_names_of(prev), name, x);
                    assert(a.contains(x) == table_names_of(prev).contains(x));
                }
            }
            i += 1;
        }
        assert(all.take(n as int) =~= all);
        proof {
            assert forall|name: Seq<char>| (table_place(r@, name) is Some) == table_names_of(
                tables_view(metas@),
            ).contains(name) by {
                place_first(table_names_of(r@), name);
                assert(table_names_of(r@).contains(name) == table_names_of(all).contains(name));
            }
        }
        r
    }

    /// The number of tables.
    pub fn len(&self) -> (n: usize)
        ensures
            n == self@.len(),
    {
        self.tables.len()
    }

    /// The number the next table gets.
    pub fn next_table_id(&self) -> (n: u32)
        ensures
            n == self.next_id(),
    {
        self.next_table_id
    }

    /// The table at a place.
    pub fn at(&self, i: usize) -> (t: &TableMeta)
        requires
            i < self@.len(),
        ensures
            t@ == self@[i as int],
    {
        &self.tables[i]
    }

    /// Replaces the table at a place.
    pub fn set(&mut self, i: usize, meta: TableMeta)
        requires
            i < old(self)@.len(),
        ensures
            final(self)@ == old(self)@.update(i as int, meta@),
            final(self).next_id() == old(self).next_id(),
            old(self).wf() && meta@.name == old(self)@[i as int].name ==> final(self).wf(),
    {
        let ghost before = self@;
        self.tables.set(i, meta);
        assert(self@ =~= before.update(i as int, meta@));
        proof {
            if meta@.name == before[i as int].name {
                assert(table_names_of(self@) =~= table_names_of(before));
            }
        }
    }

    /// Where the table of that name stands.
    pub fn position(&self, name: &str) -> (r: Option<usize>)
        ensures
            match r {
                Some(i) => table_place(self@, name@) == Some(i as int) && i < self@.len()
                    && self@[i as int].name == name@,
                None => table_place(self@, name@) is None,
            },
    {
        let ghost names = table_names_of(self@);
        let n: usize = self.tables.len();
        let mut i: usize = 0;
        while i < n
            invariant
                i <= n,
                n == self.tables@.len(),
                names == table_names_of(self@),
                place(names.take(i as int), name@) is None,
            decreases n - i,
        {
            proof {
                place_step(names, name@, i as int);
            }
            assert(names[i as int] == self.tables@[i as int].name@);
            if same_text(self.tables[i].name.as_str(), name) {
                return Some(i);
            }
            i += 1;
        }
        assert(names.take(n as int) =~= names);
        None
    }

    /// Puts a table in the place of the one with its name, or at the end.
    pub fn put(&mut self, meta: TableMeta)
        requires
            old(self).wf(),
        ensures
            final(self).wf(),
            final(self).next_id() == old(self).next_id(),
            final(self)@ == match table_place(old(self)@, meta@.name) {
                Some(i) => old(self)@.update(i, meta@),
                None => old(self)@.push(meta@),
            },
    {
        let ghost before = self@;
        match self.position(meta.name.as_str()) {
            Some(i) => {
                self.set(i, meta);
            },
            None => {
                proof {
                    place_first(table_names_of(before), meta@.name);
                }
                self.tables.push(meta);
                assert(self@ =~= before.push(meta@));
                assert(table_names_of(self@) =~= table_names_of(before).push(meta@.name));
            },
        }
    }

    /// Gives out a table number.
    pub fn take_id(&mut self) -> (id: u32)
        requires
            old(self).next_id() < u32::MAX,
        ensures
            id == old(self).next_id(),
            final(self).next_id() == id + 1,
            final(self)@ == old(self)@,
    {
        let id: u32 = self.next_table_id;
        self.next_table_id = id + 1;
        id
    }

    /// Registers a table under the next number.
    pub fn register(&mut self, name: String, columns: Vec<ColumnDef>, root_page: u32) -> (t:
        &TableMeta)
        requires
            old(self).wf(),
            old(self).next_id() < u32::MAX,
        ensures
            final(self).wf(),
            final(self).next_id() == old(self).next_id() + 1,
            t@ == (TableView {
                name: name@,
                table_id: old(self).next_id(),
                columns: columns_view(columns@),
                root_page,
                row_count: 0,
                next_rowid: 1,
                indexes: Seq::empty(),
                encrypted: false,
                key: None,
            }),
            final(self)@ == match table_place(old(self)@, name@) {
                Some(i) => old(self)@.update(i, t@),
                None => old(self)@.push(t@),
            },
    {
        let id: u32 = self.take_id();
        let ghost before = self@;
        let at: usize = match self.position(name.as_str()) {
            Some(i) => i,
            None => self.tables.len(),
        };
        let meta = TableMeta::new(name, id, columns, root_page);
        self.put(meta);
        assert(self@[at as int] == meta@);
        &self.tables[at]
    }

    /// The table of that name.
    pub fn get(&self, name: &str) -> (r: Option<&TableMeta>)
        ensures
            match table_place(self@, name@) {
                Some(i) => r matches Some(t) && t@ == self@[i],
                None => r is None,
            },
    {
        match self.position(name) {
            Some(i) => Some(&self.tables[i]),
            None => None,
        }
    }

    /// The table of that name, for changes.
    pub fn get_mut(&mut self, name: &str) -> (r: Option<&mut TableMeta>)
        ensures
            match table_place(old(self)@, name@) {
                Some(i) => r matches Some(t) && t@ == old(self)@[i] && final(self)@ == old(
                    self,
                )@.update(i, (*final(t))@),
                None => r is None && final(self)@ == old(self)@,
            },
            final(self).next_id() == old(self).next_id(),
    {
        match self.position(name) {
            Some(i) => Some(&mut self.tables[i]),
            None => None,
        }
    }

    /// Takes the table of that name out.
    pub fn remove(&mut self, name: &str) -> (r: Option<TableMeta>)
        requires
            old(self).wf(),
        ensures
            final(self).wf(),
            final(self).next_id() == old(self).next_id(),
            match table_place(old(self)@, name@) {
                Some(i) => r matches Some(t) && t@ == old(self)@[i] && final(self)@ == old(
                    self,
                )@.remove(i),
                None => r is None && final(self)@ == old(self)@,
            },
    {
        let ghost before = self@;
        match self.position(name) {
            Some(i) => {
                let t = self.tables.remove(i);
                assert(self@ =~= before.remove(i as int));
                assert(table_names_of(self@) =~= table_names_of(before).remove(i as int));
                Some(t)
            },
            None => None,
        }
    }

    /// The names of all tables.
    pub fn table_names(&self) -> (r: Vec<String>)
        ensures
            texts(r@) == table_names_of(self@),
    {
        let mut r: Vec<String> = Vec::new();
        let n: usize = self.tables.len();
        let mut i: usize = 0;
        while i < n
            invariant
                n == self.tables@.len(),
                i <= n,
                texts(r@) == table_names_of(self@).take(i as int),
            decreases n - i,
        {
            let ghost before = r@;
            r.push(self.tables[i].name.clone());
            assert(texts(r@) =~= texts(before).push(r@.last()@));
            assert(table_names_of(self@).take(i + 1) =~= table_names_of(self@).take(i as int).push(
                table_names_of(self@)[i as int],
            ));
            i += 1;
        }
        assert(table_names_of(self@).take(n as int) =~= table_names_of(self@));
        r
    }

    /// A copy of all tables.
    pub fn snapshot(&self) -> (r: Vec<TableMeta>)
        ensures
            tables_view(r@) == self@,
    {
        let mut r: Vec<TableMeta> = Vec::new();
        let n: usize = self.tables.len();
        let mut i: usize = 0;
        while i < n
            invariant
                n == self.tables@.len(),
                i <= n,
                tables_view(r@) == self@.take(i as int),
            decreases n - i,
        {
            let ghost before = r@;
            r.push(self.tables[i].clone());
            assert(tables_view(r@) =~= tables_view(before).push(r@.last()@));
            assert(self@.take(i + 1) =~= self@.take(i as int).push(self@[i as int]));
            i += 1;
        }
        assert(self@.take(n as int) =~= self@);
        r
    }
}

/// What was put into a registry under a name is found under it, and what
/// stands under other names stays.
pub proof fn put_then_get(v: Seq<TableView>, t: TableView, other: Seq<char>)
    requires
        table_names_of(v).no_duplicates(),
    ensures
        ({
            let w = match table_place(v, t.name) {
                Some(i) => v.update(i, t),
                None => v.push(t),
            };
            &&& table_place(w, t.name) matches Some(i) && w[i] == t
            &&& other != t.name ==> match table_place(v, other) {
                Some(i) => table_place(w, other) == Some(i) && w[i] == v[i],
                None => table_place(w, other) is None,
            }
        }),
{
    let w = match table_place(v, t.name) {
        Some(i) => v.update(i, t),
        None => v.push(t),
    };
    let a = table_names_of(v);
    let b = table_names_of(w);
    place_first(a, t.name);
    place_first(a, other);
    place_first(b, t.name);
    place_first(b, other);
    if table_place(v, t.name) is Some {
        assert(b =~= a);
    } else {
        assert(b =~= a.push(t.name));
        assert(b[v.len() as int] == t.name);
        assert(b.contains(t.name));
        let i = table_place(w, t.name)->0;
        if i < v.len() {
            assert(a[i] == b[i]);
            assert(a.contains(t.name));
        }
        push_contains(a, t.name, other);
        if other != t.name && table_place(v, other) is Some {
            let x = table_place(v, other)->0;
            let y = table_place(w, other)->0;
            assert(a[x] == b[x]);
            assert(b.contains(other));
            if y < v.len() {
                assert(a[y] == b[y]);
            }
        }
    }
}

}
