//! Names: of files, and of the tables that vector collections keep.

use crate::error::{owned, BoogyError, Result};
use crate::query;
use crate::query::{Row, RowView};
use crate::value::{Value, ValueView};
use vstd::prelude::*;
use vstd::string::{StrSliceExecFns, StringExecFns};

verus! {

/// A part of a path between two separators, or between one and an end.
pub open spec fn is_component(path: Seq<char>, a: int, b: int) -> bool {
    &&& 0 <= a <= b <= path.len()
    &&& a == 0 || path[a - 1] == '/'
    &&& b == path.len() || path[b] == '/'
    &&& forall|i: int| a <= i < b ==> path[i] != '/'
}

/// The part leads to the parent directory.
pub open spec fn is_parent(path: Seq<char>, a: int, b: int) -> bool {
    is_component(path, a, b) && b == a + 2 && path[a] == '.' && path[a + 1] == '.'
}

/// A path that leads to no parent directory and holds no null character.
pub open spec fn path_ok(path: Seq<char>) -> bool {
    &&& forall|i: int| 0 <= i < path.len() ==> path[i] != '\0'
    &&& forall|a: int, b: int| !#[trigger] is_parent(path, a, b)
}

/// A path is refused if it leads to a parent directory at its start, in its middle or at
/// its end, or is nothing else, and if it holds a null character.
pub proof fn paths_to_parents_refused(p: Seq<char>, q: Seq<char>)
    ensures
        !path_ok(p + seq!['/', '.', '.', '/'] + q),
        !path_ok(seq!['.', '.', '/'] + q),
        !path_ok(p + seq!['/', '.', '.']),
        !path_ok(seq!['.', '.']),
        !path_ok(p + seq!['\0'] + q),
{
    let n = p.len() as int;
    assert(is_parent(p + seq!['/', '.', '.', '/'] + q, n + 1, n + 3));
    assert(is_parent(seq!['.', '.', '/'] + q, 0, 2));
    assert(is_parent(p + seq!['/', '.', '.'], n + 1, n + 3));
    assert(is_parent(seq!['.', '.'], 0, 2));
    assert((p + seq!['\0'] + q)[n] == '\0');
}

/// A path without null characters is taken if all pairs of dots in it have a character
/// beside them that is no separator.
pub proof fn other_paths_taken(path: Seq<char>)
    requires
        forall|i: int| 0 <= i < path.len() ==> path[i] != '\0',
        forall|i: int, j: int|
            0 <= i && j == i + 1 && j < path.len() && #[trigger] path[i] == '.' && #[trigger] path[j]
                == '.' ==> (i > 0 && path[i - 1] != '/') || (j + 1 < path.len() && path[j + 1]
                != '/'),
    ensures
        path_ok(path),
{
    assert forall|a: int, b: int| !#[trigger] is_parent(path, a, b) by {
        if is_parent(path, a, b) {
            assert(path[a] == '.' && path[a + 1] == '.');
        }
    }
}

/// Refuses a path with a null character or a `..` component.
pub fn validate_path(path: &str) -> (r: Result<()>)
    ensures
        r is Ok <==> path_ok(path@),
        r matches Err(e) ==> e is Io,
{
    let n: usize = path.unicode_len();
    let mut i: usize = 0;
    while i < n
        invariant
            i <= n,
            n == path@.len(),
            forall|j: int| 0 <= j < i ==> path@[j] != '\0',
        decreases n - i,
    {
        if path.get_char(i) == '\0' {
            return Err(BoogyError::Io(owned("invalid path")));
        }
        i += 1;
    }
    let mut start: usize = 0;
    let mut at: usize = 0;
    while at < n
        invariant
            start <= at <= n,
            n == path@.len(),
            forall|j: int| 0 <= j < n ==> path@[j] != '\0',
            start == 0 || path@[start - 1] == '/',
            forall|j: int| start <= j < at ==> path@[j] != '/',
            forall|a: int, b: int| b < start ==> !#[trigger] is_parent(path@, a, b),
        decreases n - at,
    {
        if path.get_char(at) == '/' {
            if at - start == 2 && path.get_char(start) == '.' && path.get_char(start + 1) == '.' {
                assert(is_parent(path@, start as int, at as int));
                return Err(BoogyError::Io(owned("invalid path")));
            }
            proof {
                assert forall|a: int, b: int| b < at + 1 implies !#[trigger] is_parent(path@, a, b) by {
                    if is_parent(path@, a, b) && b >= start {
                        if a < start {
                            assert(path@[start - 1] == '/');
                        }
                        assert(a == start) by {
                            if a > start {
                                assert(path@[a - 1] == '/');
                            }
                        }
                        assert(b == at) by {
                            if b < at {
                                assert(path@[b] == '/');
                            }
                        }
                    }
                }
            }
            start = at + 1;
        }
        at += 1;
    }
    if n - start == 2 && path.get_char(start) == '.' && path.get_char(start + 1) == '.' {
        assert(is_parent(path@, start as int, n as int));
        return Err(BoogyError::Io(owned("invalid path")));
    }
    proof {
        assert forall|a: int, b: int| !#[trigger] is_parent(path@, a, b) by {
            if is_parent(path@, a, b) && b >= start {
                if a < start {
                    assert(path@[start - 1] == '/');
                }
                if a > start {
                    assert(path@[a - 1] == '/');
                }
                if b < n {
                    assert(path@[b] == '/');
                }
            }
        }
    }
    Ok(())
}

/// The name of the table that stores the numbers of the nodes of a collection.
pub open spec fn mapping_name(table: Seq<char>, collection: Seq<char>) -> Seq<char> {
    "__vec_"@ + table + "_"@ + collection
}

/// Internal table name for storing the mapping between rows and nodes.
pub fn vector_mapping_table(table: &str, collection: &str) -> (s: String)
    ensures
        s@ == mapping_name(table@, collection@),
{
    let mut s: String = owned("__vec_");
    s.append(table);
    s.append("_");
    s.append(collection);
    s
}

/// What the name of a mapping table says: the name of the table, which ends at
/// the first `_` after the prefix, and that of the collection.
pub open spec fn mapping_parts(name: Seq<char>) -> Option<(Seq<char>, Seq<char>)> {
    let prefix = "__vec_"@;
    if !prefix.is_prefix_of(name) {
        None
    } else {
        let rest = name.skip(prefix.len() as int);
        if !rest.contains('_') {
            None
        } else {
            let at = rest.index_of_first('_')->0;
            if at == 0 || at + 1 == rest.len() {
                None
            } else {
                Some((rest.take(at), rest.skip(at + 1)))
            }
        }
    }
}

/// Parse an internal mapping table name back into table and collection.
pub fn parse_vector_mapping_table(name: &str) -> (r: Option<(String, String)>)
    ensures
        match r {
            Some(p) => mapping_parts(name@) == Some((p.0@, p.1@)),
            None => mapping_parts(name@) is None,
        },
{
    proof {
        reveal_strlit("__vec_");
    }
    let n: usize = name.unicode_len();
    if n < 6 {
        return None;
    }
    if !(name.get_char(0) == '_' && name.get_char(1) == '_' && name.get_char(2) == 'v'
        && name.get_char(3) == 'e' && name.get_char(4) == 'c' && name.get_char(5) == '_') {
        proof {
            let p = "__vec_"@;
            if p.is_prefix_of(name@) {
                let head = name@.subrange(0, 6);
                assert(head == p);
                assert(head[0] == name@[0] && head[1] == name@[1] && head[2] == name@[2]);
                assert(head[3] == name@[3] && head[4] == name@[4] && head[5] == name@[5]);
                assert(p[0] == '_' && p[1] == '_' && p[2] == 'v');
                assert(p[3] == 'e' && p[4] == 'c' && p[5] == '_');
            }
        }
        return None;
    }
    let ghost rest = name@.skip(6);
    assert("__vec_"@.is_prefix_of(name@)) by {
        assert(name@.take(6) =~= "__vec_"@);
    }
    let mut at: usize = 6;
    while at < n && name.get_char(at) != '_'
        invariant
            6 <= at <= n,
            n == name@.len(),
            rest == name@.skip(6),
            forall|j: int| 0 <= j < at - 6 ==> #[trigger] rest[j] != '_',
        decreases n - at,
    {
        at += 1;
    }
    if at == n {
        assert(!rest.contains('_'));
        return None;
    }
    proof {
        let i = at - 6;
        assert(rest[i] == '_');
        rest.index_of_first_ensures('_');
        let f = rest.index_of_first('_')->0;
        assert(f == i) by {
            if f < i {
                assert(rest[f] == '_');
            }
        }
        assert(name@.subrange(6, at as int) =~= rest.take(i));
        assert(name@.subrange(at + 1, n as int) =~= rest.skip(i + 1));
    }
    if at == 6 || at + 1 == n {
        return None;
    }
    Some((owned(name.substring_char(6, at)), owned(name.substring_char(at + 1, n))))
}

/// Only the name of a mapping table is taken apart, and its parts make the name again; the
/// name of the table is the shortest that can be.
pub proof fn parts_make_the_name(name: Seq<char>)
    ensures
        mapping_parts(name) matches Some(p) ==> name == mapping_name(p.0, p.1) && p.0.len() > 0
            && p.1.len() > 0 && !p.0.contains('_'),
{
    reveal_strlit("__vec_");
    reveal_strlit("_");
    if let Some(p) = mapping_parts(name) {
        let rest = name.skip(6);
        rest.index_of_first_ensures('_');
        assert(name =~= "__vec_"@ + rest);
        assert(rest =~= p.0 + "_"@ + p.1);
        assert(name =~= mapping_name(p.0, p.1));
        if p.0.contains('_') {
            let i = choose|i: int| 0 <= i < p.0.len() && p.0[i] == '_';
            assert(rest[i] == '_');
        }
    }
}

/// The name of a mapping table names the table and the collection it was made
/// from, where the name of the table holds no `_` and neither is empty.
pub proof fn mapping_name_parts(table: Seq<char>, collection: Seq<char>)
    requires
        table.len() > 0,
        collection.len() > 0,
        !table.contains('_'),
    ensures
        mapping_parts(mapping_name(table, collection)) == Some((table, collection)),
{
    reveal_strlit("__vec_");
    reveal_strlit("_");
    let name = mapping_name(table, collection);
    let rest = name.skip(6);
    assert(name.take(6) =~= "__vec_"@);
    assert(rest =~= table + "_"@ + collection);
    assert(rest[table.len() as int] == '_');
    rest.index_of_first_ensures('_');
    let at = rest.index_of_first('_')->0;
    assert(at == table.len()) by {
        if at < table.len() {
            assert(rest[at] == table[at]);
        }
    }
    assert(rest.take(at) =~= table);
    assert(rest.skip(at + 1) =~= collection);
}

/// The node of a row of a mapping table.
pub open spec fn node_in(row: RowView) -> Option<u32> {
    match query::value_in(row, "node_id"@) {
        Some(ValueView::Integer(n)) => Some(low32(n)),
        _ => None,
    }
}

/// The lower half of an integer.
pub open spec fn low32(n: i64) -> u32 {
    (n as int % 0x1_0000_0000) as u32
}

/// The mapping that rows of a mapping table hold.
pub open spec fn mappings_in(rows: Seq<RowView>) -> Seq<(u64, u32)>
    decreases rows.len(),
{
    if rows.len() == 0 {
        Seq::empty()
    } else {
        let rest = mappings_in(rows.drop_last());
        match node_in(rows.last()) {
            Some(n) => rest.push((rows.last().id, n)),
            None => rest,
        }
    }
}

/// The lower half of an integer.
fn low_half(n: i64) -> (r: u32)
    ensures
        r == low32(n),
{
    let r: u32 = (n as u64 & 0xFFFF_FFFF) as u32;
    proof {
        let u: u64 = n as u64;
        assert(u & 0xFFFF_FFFF == u % 0x1_0000_0000) by (bit_vector);
        assert(n >= 0 ==> u == n) by (bit_vector)
            requires
                u == n as u64,
        ;
        assert(n < 0 ==> u == n + 0x1_0000_0000_0000_0000) by (bit_vector)
            requires
                u == n as u64,
        ;
    }
    r
}

/// Reads the mapping between rows and nodes out of the rows of a mapping table.
pub fn mappings_of(rows: &Vec<Row>) -> (r: Vec<(u64, u32)>)
    ensures
        r@ == mappings_in(query::rows_view(rows@)),
{
    let mut out: Vec<(u64, u32)> = Vec::new();
    let ghost views = query::rows_view(rows@);
    let n: usize = rows.len();
    let mut i: usize = 0;
    assert(views.take(0) =~= Seq::empty());
    while i < n
        invariant
            i <= n,
            n == rows@.len(),
            views == query::rows_view(rows@),
            out@ == mappings_in(views.take(i as int)),
        decreases n - i,
    {
        let row = &rows[i];
        proof {
            assert(views.take(i + 1).drop_last() =~= views.take(i as int));
            assert(views.take(i + 1).last() == row@);
        }
        match row.get("node_id") {
            Some(Value::Integer(k)) => {
                out.push((row.id, low_half(k)));
            },
            _ => {},
        }
        i += 1;
    }
    assert(views.take(n as int) =~= views);
    out
}

}
