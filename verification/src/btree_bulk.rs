//! Deleting and updating many rows in one walk along the leaves.

use crate::btree;
use crate::btree::{fetch_leaf, leaf_list, reassemble_row};
use crate::btree_node;
use crate::btree_node::{leaf_row, replace_within, write_leaf_without_multiple};
use crate::btree_writer;
use crate::btree_writer::{BTreeWriter, MAX_OWN_CELL};
use crate::error::Result;
use crate::file;
use crate::file::WriteGuard;
use crate::overflow;
use crate::overflow::has_overflow;
use crate::page;
use crate::page::Page;
use crate::row::extract_id;
use crate::tree;
use crate::tree::{Key, Node};
use vstd::prelude::*;

verus! {

/// The answers of a predicate are those of `g`.
pub open spec fn decides<F: Fn(&[u8]) -> bool>(pred: F, g: spec_fn(Seq<u8>) -> bool) -> bool {
    forall|s: &[u8], b: bool| #[trigger] call_ensures(pred, (s,), b) ==> b == g(s@)
}

/// The results of an updater are those of `u`.
pub open spec fn renews<U: Fn(&[u8]) -> Vec<u8>>(
    updater: U,
    u: spec_fn(Seq<u8>) -> Seq<u8>,
) -> bool {
    forall|s: &[u8], v: Vec<u8>| #[trigger] call_ensures(updater, (s,), v) ==> v@ == u(s@)
}

/// The cell leads to its row over overflow pages only, and holds the id itself.
pub open spec fn sound_cell(m: Map<u32, Seq<u8>>, cell: Seq<u8>) -> bool {
    overflow::overflows(cell) ==> {
        let remaining = overflow::trailer_remaining(cell) as nat;
        &&& cell.len() >= 17
        &&& btree::chain_apart(
            m,
            overflow::trailer_page(cell),
            remaining,
            btree::chain_fuel(remaining),
        )
    }
}

/// See [`sound_cell`].
pub open spec fn all_sound(m: Map<u32, Seq<u8>>, items: Seq<(u64, Seq<u8>)>) -> bool {
    forall|i: int| 0 <= i < items.len() ==> sound_cell(m, (#[trigger] items[i]).1)
}

/// The row is selected, and its cell stands for a row with an id.
pub open spec fn chosen(
    m: Map<u32, Seq<u8>>,
    g: spec_fn(Seq<u8>) -> bool,
    it: (u64, Seq<u8>),
) -> bool {
    btree::expands(m, it.1) && g(btree::expand(m, it.1)->0)
}

/// Selects the chosen items.
pub open spec fn chosen_fn(m: Map<u32, Seq<u8>>, g: spec_fn(Seq<u8>) -> bool) -> spec_fn(
    (u64, Seq<u8>),
) -> bool {
    |it: (u64, Seq<u8>)| chosen(m, g, it)
}

/// Selects the other items.
pub open spec fn spared_fn(m: Map<u32, Seq<u8>>, g: spec_fn(Seq<u8>) -> bool) -> spec_fn(
    (u64, Seq<u8>),
) -> bool {
    |it: (u64, Seq<u8>)| !chosen(m, g, it)
}

/// Some cell leads nowhere.
pub open spec fn broken(m: Map<u32, Seq<u8>>, items: Seq<(u64, Seq<u8>)>) -> bool {
    exists|i: int|
        0 <= i < items.len() && btree::expand(m, (#[trigger] items[i]).1) is None
}

/// The indices of the chosen items among the first `n`.
spec fn picked(
    m: Map<u32, Seq<u8>>,
    items: Seq<(u64, Seq<u8>)>,
    g: spec_fn(Seq<u8>) -> bool,
    n: int,
) -> Seq<usize>
    decreases n,
{
    if n <= 0 {
        Seq::empty()
    } else if chosen(m, g, items[n - 1]) {
        picked(m, items, g, n - 1).push((n - 1) as usize)
    } else {
        picked(m, items, g, n - 1)
    }
}

proof fn picked_spec(
    m: Map<u32, Seq<u8>>,
    items: Seq<(u64, Seq<u8>)>,
    g: spec_fn(Seq<u8>) -> bool,
    n: int,
)
    requires
        0 <= n <= items.len() <= 4096,
    ensures
        forall|i: int|
            0 <= i < items.len() ==> (#[trigger] picked(m, items, g, n).contains(i as usize) <==> i
                < n && chosen(m, g, items[i])),
        forall|x: int| 0 <= x < picked(m, items, g, n).len() ==> (#[trigger] picked(
            m,
            items,
            g,
            n,
        )[x]) < n,
        forall|x: int, y: int|
            0 <= x < y < picked(m, items, g, n).len() ==> picked(m, items, g, n)[x] < picked(
                m,
                items,
                g,
                n,
            )[y],
    decreases n,
{
    if n > 0 {
        picked_spec(m, items, g, n - 1);
        let p = picked(m, items, g, n - 1);
        let q = picked(m, items, g, n);
        assert forall|i: int| 0 <= i < items.len() implies (#[trigger] q.contains(i as usize) <==> i
            < n && chosen(m, g, items[i])) by {
            assert(p.contains(i as usize) <==> i < n - 1 && chosen(m, g, items[i]));
            if chosen(m, g, items[n - 1]) {
                if p.contains(i as usize) {
                    let x = choose|x: int| 0 <= x < p.len() && p[x] == i as usize;
                    assert(q[x] == i as usize);
                }
                if i == n - 1 {
                    assert(q[p.len() as int] == i as usize);
                }
                if q.contains(i as usize) {
                    let x = choose|x: int| 0 <= x < q.len() && q[x] == i as usize;
                    if x < p.len() {
                        assert(p[x] == i as usize);
                    }
                }
            }
        }
    }
}

/// Taking the chosen rows out of a leaf leaves the others.
proof fn without_picked(
    m: Map<u32, Seq<u8>>,
    cells: Seq<Seq<u8>>,
    g: spec_fn(Seq<u8>) -> bool,
    n: int,
)
    requires
        0 <= n <= cells.len() <= 4096,
    ensures
        btree_node::keyed(
            btree_node::without_all(
                cells,
                picked(m, btree_node::keyed(cells), g, cells.len() as int),
                n,
            ),
        ) == btree_node::keyed(cells).take(n).filter(spared_fn(m, g)),
    decreases n,
{
    let items = btree_node::keyed(cells);
    let skip = picked(m, items, g, cells.len() as int);
    if n == 0 {
        assert(items.take(0) =~= Seq::empty());
        btree::filter_none(items.take(0), spared_fn(m, g));
        assert(btree_node::keyed(btree_node::without_all(cells, skip, 0)) =~= Seq::empty());
    } else {
        without_picked(m, cells, g, n - 1);
        picked_spec(m, items, g, cells.len() as int);
        assert(skip.contains((n - 1) as usize) <==> chosen(m, g, items[n - 1]));
        assert(items.take(n) =~= items.take(n - 1).push(items[n - 1]));
        btree::filter_push(items.take(n - 1), items[n - 1], spared_fn(m, g));
        let w = btree_node::without_all(cells, skip, n - 1);
        assert(btree_node::keyed(w.push(cells[n - 1])) =~= btree_node::keyed(w).push(
            items[n - 1],
        ));
    }
}

/// A sound cell stands for the same row as long as the overflow pages are kept.
proof fn sound_kept(m: Map<u32, Seq<u8>>, m2: Map<u32, Seq<u8>>, cell: Seq<u8>)
    requires
        sound_cell(m, cell),
        btree_writer::overflow_kept(m, m2),
    ensures
        sound_cell(m2, cell),
        btree::expand(m2, cell) == btree::expand(m, cell),
        btree::expands(m2, cell) == btree::expands(m, cell),
        btree::whole(m2, cell) == btree::whole(m, cell),
{
    if overflow::overflows(cell) {
        let remaining = overflow::trailer_remaining(cell) as nat;
        btree_writer::chain_kept(
            m,
            m2,
            overflow::trailer_page(cell),
            remaining,
            btree::chain_fuel(remaining),
        );
    }
}

proof fn sound_filter(
    m: Map<u32, Seq<u8>>,
    m2: Map<u32, Seq<u8>>,
    items: Seq<(u64, Seq<u8>)>,
    g: spec_fn(Seq<u8>) -> bool,
)
    requires
        all_sound(m, items),
        btree_writer::overflow_kept(m, m2),
    ensures
        items.filter(chosen_fn(m2, g)) == items.filter(chosen_fn(m, g)),
        items.filter(spared_fn(m2, g)) == items.filter(spared_fn(m, g)),
        btree::expanded(m2, items.filter(chosen_fn(m, g))) == btree::expanded(
            m,
            items.filter(chosen_fn(m, g)),
        ),
        broken(m2, items) == broken(m, items),
        all_sound(m2, items),
    decreases items.len(),
{
    reveal(Seq::filter);
    if items.len() > 0 {
        let d = items.drop_last();
        let x = items.last();
        assert forall|i: int| 0 <= i < d.len() implies sound_cell(m, (#[trigger] d[i]).1) by {
            assert(items[i] == d[i]);
        }
        sound_filter(m, m2, d, g);
        assert(sound_cell(m, items[items.len() - 1].1));
        sound_kept(m, m2, x.1);
        let f = d.filter(chosen_fn(m, g));
        assert(btree::expanded(m2, f.push(x)) =~= btree::expanded(m2, f).push(
            btree::whole(m2, x.1),
        ));
        assert(btree::expanded(m, f.push(x)) =~= btree::expanded(m, f).push(btree::whole(m, x.1)));
    } else {
        assert(btree::expanded(m2, items.filter(chosen_fn(m, g))) =~= btree::expanded(
            m,
            items.filter(chosen_fn(m, g)),
        ));
    }
    assert forall|i: int| 0 <= i < items.len() implies sound_cell(m2, (#[trigger] items[i]).1)
        && btree::expand(m2, items[i].1) == btree::expand(m, items[i].1) by {
        sound_kept(m, m2, items[i].1);
    }
    if broken(m, items) {
        let i = choose|i: int|
            0 <= i < items.len() && btree::expand(m, (#[trigger] items[i]).1) is None;
        assert(btree::expand(m2, items[i].1) is None);
    }
    if broken(m2, items) {
        let i = choose|i: int|
            0 <= i < items.len() && btree::expand(m2, (#[trigger] items[i]).1) is None;
        assert(btree::expand(m, items[i].1) is None);
    }
}

// ---------------------------------------------------------------------------
// Walking and rewriting
// ---------------------------------------------------------------------------

/// The first `x` leaves may have been rewritten in place; nothing else changed.
pub open spec fn sweeping(
    m: Map<u32, Seq<u8>>,
    mc: Map<u32, Seq<u8>>,
    root: u32,
    ls: Seq<u32>,
    x: int,
) -> bool {
    let t = btree::view_of(m);
    let tc = btree::view_of(mc);
    &&& btree::is_tree(mc, root)
    &&& tree::height(tc, root) == tree::height(t, root)
    &&& tree::leaves(tc, root, tree::height(t, root)) == ls
    &&& forall|q: u32| #[trigger] tree::has(tc, root, q) == tree::has(t, root, q)
    &&& forall|q: u32| #[trigger] mc.contains_key(q) <==> m.contains_key(q)
    &&& forall|q: u32| #[trigger]
        m.contains_key(q) && !ls.take(x).contains(q) ==> mc[q] == m[q]
    &&& btree_writer::overflow_kept(m, mc)
}

proof fn sweep_start(m: Map<u32, Seq<u8>>, root: u32)
    requires
        btree::is_tree(m, root),
    ensures
        ({
            let t = btree::view_of(m);
            sweeping(m, m, root, tree::leaves(t, root, tree::height(t, root)), 0)
        }),
{
}

/// Leaf `x` stays as it is.
proof fn sweep_skip(m: Map<u32, Seq<u8>>, mc: Map<u32, Seq<u8>>, root: u32, ls: Seq<u32>, x: int)
    requires
        sweeping(m, mc, root, ls, x),
        0 <= x < ls.len(),
    ensures
        sweeping(m, mc, root, ls, x + 1),
{
    assert forall|q: u32| #[trigger]
        m.contains_key(q) && !ls.take(x + 1).contains(q) implies mc[q] == m[q] by {
        if ls.take(x).contains(q) {
            let i = choose|i: int| 0 <= i < x && ls.take(x)[i] == q;
            assert(ls.take(x + 1)[i] == q);
        }
    }
}

/// Leaf `x` is rewritten.
proof fn sweep_step(
    m: Map<u32, Seq<u8>>,
    mc: Map<u32, Seq<u8>>,
    m2: Map<u32, Seq<u8>>,
    root: u32,
    ls: Seq<u32>,
    x: int,
    cells: Seq<Seq<u8>>,
)
    requires
        sweeping(m, mc, root, ls, x),
        0 <= x < ls.len(),
        btree_writer::leaf_set(mc, m2, ls[x], cells),
        btree_node::row_leaf(mc[ls[x]]),
        forall|lo: Option<u64>, hi: Option<u64>| #[trigger]
            tree::items_ok(btree_node::items_of(mc[ls[x]]), lo, hi) ==> tree::items_ok(
                btree_node::keyed(cells),
                lo,
                hi,
            ),
    ensures
        sweeping(m, m2, root, ls, x + 1),
        forall|i: int| 0 <= i < ls.len() && i != x ==> m2[#[trigger] ls[i]] == mc[ls[i]],
        btree_node::items_of(m2[ls[x]]) == btree_node::keyed(cells),
{
    let t = btree::view_of(m);
    let tc = btree::view_of(mc);
    let t2 = btree::view_of(m2);
    let h = tree::height(t, root);
    btree::tree_chained(mc, root);
    assert(mc.contains_key(ls[x]));
    btree_writer::leaf_set_node(mc, m2, ls[x], cells);
    btree_writer::leaf_set_overflow(mc, m2, ls[x], cells);
    tree::all_rewritten(tc, t2, root, x);
    assert forall|q: u32| #[trigger] tree::has(t2, root, q) == tree::has(t, root, q) by {
        assert(tree::has(tc, root, q) == tree::has(t, root, q));
    }
    assert(m2 == mc.insert(ls[x], m2[ls[x]]));
    assert forall|q: u32| #[trigger] m2.contains_key(q) <==> m.contains_key(q) by {
        assert(mc.contains_key(q) <==> m.contains_key(q));
    }
    assert forall|q: u32| #[trigger]
        m.contains_key(q) && !ls.take(x + 1).contains(q) implies m2[q] == m[q] by {
        assert(ls.take(x + 1)[x] == ls[x]);
        if ls.take(x).contains(q) {
            let i = choose|i: int| 0 <= i < x && ls.take(x)[i] == q;
            assert(ls.take(x + 1)[i] == q);
        }
    }
    assert(btree_writer::overflow_kept(m, m2)) by {
        assert forall|q: u32| #[trigger]
            m.contains_key(q) && page::flags_of(m[q]) == page::PAGE_OVERFLOW implies m2.contains_key(
            q,
        ) && m2[q] == m[q] by {
            assert(mc[q] == m[q] && mc.contains_key(q));
        }
    }
}

/// A leaf that was not reached yet.
proof fn sweep_ahead(m: Map<u32, Seq<u8>>, mc: Map<u32, Seq<u8>>, root: u32, ls: Seq<u32>, x: int)
    requires
        btree::is_tree(m, root),
        ls == tree::leaves(
            btree::view_of(m),
            root,
            tree::height(btree::view_of(m), root),
        ),
        sweeping(m, mc, root, ls, x),
        0 <= x < ls.len(),
    ensures
        mc.contains_key(ls[x]),
        mc[ls[x]] == m[ls[x]],
        btree_node::row_leaf(mc[ls[x]]),
{
    btree::tree_chained(m, root);
    assert(m.contains_key(ls[x]));
    if ls.take(x).contains(ls[x]) {
        let i = choose|i: int| 0 <= i < x && ls.take(x)[i] == ls[x];
        assert(ls[i] == ls[x]);
    }
}

/// What came out of a walk that selected items leaf by leaf.
proof fn leaf_rows_filtered(
    t: Map<u32, Node<u64, Seq<u8>>>,
    t2: Map<u32, Node<u64, Seq<u8>>>,
    ls: Seq<u32>,
    pred: spec_fn((u64, Seq<u8>)) -> bool,
)
    requires
        forall|i: int|
            0 <= i < ls.len() ==> t2[#[trigger] ls[i]]->items == t[ls[i]]->items.filter(pred),
    ensures
        tree::leaf_rows(t2, ls) == tree::leaf_rows(t, ls).filter(pred),
    decreases ls.len(),
{
    if ls.len() == 0 {
        btree::filter_none(tree::leaf_rows(t, ls), pred);
    } else {
        let d = ls.drop_last();
        assert forall|i: int| 0 <= i < d.len() implies t2[#[trigger] d[i]]->items
            == t[d[i]]->items.filter(pred) by {
            assert(d[i] == ls[i]);
        }
        leaf_rows_filtered(t, t2, d, pred);
        assert(t2[ls[ls.len() - 1]]->items == t[ls[ls.len() - 1]]->items.filter(pred));
        Seq::filter_distributes_over_add(tree::leaf_rows(t, d), t[ls.last()]->items, pred);
    }
}

// ---------------------------------------------------------------------------
// Deleting
// ---------------------------------------------------------------------------

/// Finds the rows of a leaf that are to be deleted.
fn match_leaf<F: Fn(&[u8]) -> bool>(
    guard: &WriteGuard,
    page: &Page,
    pred: &F,
    out: &mut Vec<(u64, Vec<u8>)>,
) -> (r: Result<Vec<usize>>)
    requires
        btree_node::row_leaf(page.data@),
        forall|s: &[u8]| #[trigger] call_requires(*pred, (s,)),
    ensures
        r matches Ok(idx) ==> {
            let m = guard.pages();
            let items = btree_node::items_of(page.data@);
            &&& forall|x: int, y: int| 0 <= x < y < idx@.len() ==> idx@[x] < idx@[y]
            &&& forall|g: spec_fn(Seq<u8>) -> bool| #[trigger]
                decides(*pred, g) ==> {
                    &&& idx@ == picked(m, items, g, items.len() as int)
                    &&& pairs_grew(old(out)@, final(out)@, m, items.filter(chosen_fn(m, g)))
                }
        },
        r is Err ==> forall|g: spec_fn(Seq<u8>) -> bool| #[trigger]
            decides(*pred, g) ==> broken(guard.pages(), btree_node::items_of(page.data@)),
        r matches Err(e) ==> e is Corruption || e is Io,
{
    let ghost m = guard.pages();
    let ghost items = btree_node::items_of(page.data@);
    let n: usize = page.num_rows() as usize;
    let mut idx: Vec<usize> = Vec::new();
    let mut i: usize = 0;
    proof {
        btree_node::leaf_basics(page.data@);
        assert(items.take(0) =~= Seq::empty());
        assert forall|g: spec_fn(Seq<u8>) -> bool| #[trigger] decides(*pred, g) implies pairs_grew(
            old(out)@,
            out@,
            m,
            items.take(0).filter(chosen_fn(m, g)),
        ) by {
            btree::filter_none(items.take(0), chosen_fn(m, g));
            assert(btree::pairs(out@) =~= btree::pairs(old(out)@) + btree::expanded(
                m,
                items.take(0).filter(chosen_fn(m, g)),
            ));
        }
    }
    while i < n
        invariant
            i <= n == page::count_of(page.data@) == items.len(),
            n <= 2038,
            items == btree_node::items_of(page.data@),
            btree_node::row_leaf(page.data@),
            m == guard.pages(),
            forall|s: &[u8]| #[trigger] call_requires(*pred, (s,)),
            forall|x: int| 0 <= x < idx@.len() ==> (#[trigger] idx@[x]) < i,
            forall|x: int, y: int| 0 <= x < y < idx@.len() ==> idx@[x] < idx@[y],
            forall|g: spec_fn(Seq<u8>) -> bool| #[trigger]
                decides(*pred, g) ==> {
                    &&& idx@ == picked(m, items, g, i as int)
                    &&& pairs_grew(
                        old(out)@,
                        out@,
                        m,
                        items.take(i as int).filter(chosen_fn(m, g)),
                    )
                },
        decreases n - i,
    {
        let cell: &[u8] = leaf_row(page, i);
        let ghost it = items[i as int];
        assert(it.1 == cell@);
        let ghost before = out@;
        let full: Vec<u8> = match reassemble_row(cell, guard) {
            Ok(f) => f,
            Err(e) => {
                assert(btree::expand(m, items[i as int].1) is None);
                return Err(e);
            },
        };
        let hit: bool = pred(full.as_slice());
        assert forall|g: spec_fn(Seq<u8>) -> bool| #[trigger] decides(*pred, g) implies hit == g(
            full@,
        ) by {}
        proof {
            assert forall|g: spec_fn(Seq<u8>) -> bool| #[trigger] decides(*pred, g) implies items.take(
                i + 1,
            ).filter(chosen_fn(m, g)) == if chosen(m, g, it) {
                items.take(i as int).filter(chosen_fn(m, g)).push(it)
            } else {
                items.take(i as int).filter(chosen_fn(m, g))
            } by {
                assert(items.take(i + 1) =~= items.take(i as int).push(it));
                btree::filter_push(items.take(i as int), it, chosen_fn(m, g));
            }
        }
        if hit {
            match extract_id(full.as_slice()) {
                Ok(id) => {
                    out.push((id, full));
                    idx.push(i);
                    proof {
                        assert(btree::pairs(out@) =~= btree::pairs(before).push(
                            btree::whole(m, it.1),
                        ));
                        assert forall|g: spec_fn(Seq<u8>) -> bool| #[trigger] decides(
                            *pred,
                            g,
                        ) implies pairs_grew(
                            old(out)@,
                            out@,
                            m,
                            items.take(i + 1).filter(chosen_fn(m, g)),
                        ) by {
                            let f = items.take(i as int).filter(chosen_fn(m, g));
                            assert(btree::expanded(m, f.push(it)) =~= btree::expanded(m, f).push(
                                btree::whole(m, it.1),
                            ));
                            assert(btree::pairs(out@) =~= btree::pairs(old(out)@)
                                + btree::expanded(m, f.push(it)));
                        }
                    }
                },
                Err(_) => {},
            }
        }
        i += 1;
    }
    assert(items.take(n as int) =~= items);
    Ok(idx)
}

/// The list grew by the rows of the given cells.
spec fn pairs_grew(
    before: Seq<(u64, Vec<u8>)>,
    after: Seq<(u64, Vec<u8>)>,
    m: Map<u32, Seq<u8>>,
    sel: Seq<(u64, Seq<u8>)>,
) -> bool {
    btree::pairs(after) == btree::pairs(before) + btree::expanded(m, sel)
}

/// What [`BTreeWriter::delete_matching`] does when the predicate answers like
/// `g`.
pub open spec fn deleted_matching(
    m: Map<u32, Seq<u8>>,
    m2: Map<u32, Seq<u8>>,
    root: u32,
    g: spec_fn(Seq<u8>) -> bool,
    r: Result<Vec<(u64, Vec<u8>)>>,
) -> bool {
    let cells = btree::all_cells(m, root);
    match r {
        Ok(v) => {
            &&& btree::walkable(m, root)
            &&& btree::is_tree(m2, root)
            &&& tree::height(btree::view_of(m2), root) == tree::height(btree::view_of(m), root)
            &&& btree_writer::only_tree(m, m2, root, root)
            &&& btree::all_cells(m2, root) == cells.filter(spared_fn(m, g))
            &&& btree::pairs(v@) == btree::expanded(m, cells.filter(chosen_fn(m, g)))
        },
        Err(_) => !btree::walkable(m, root) || broken(m, cells),
    }
}

impl BTreeWriter {
    /// Deletes all rows whose cells satisfy `pred`, in one walk along the leaves.
    /// Returns the deleted rows with their ids.
    pub fn delete_matching<F: Fn(&[u8]) -> bool>(&self, guard: &mut WriteGuard, pred: F) -> (r:
        Result<Vec<(u64, Vec<u8>)>>)
        requires
            old(guard).wf(),
            forall|s: &[u8]| #[trigger] call_requires(pred, (s,)),
        ensures
            r is Ok && file::tidy(old(guard).pages()) ==> file::tidy(final(guard).pages()),
            final(guard).wf(),
            final(guard).total() == old(guard).total(),
            final(guard).inner().contents() == old(guard).inner().contents(),
            file::grounded(old(guard).inner(), final(guard).inner()),
            file::trim_kept(*old(guard), *final(guard)),
            final(guard).inner().count() == old(guard).inner().count(),
            btree_writer::fresh(old(guard).pages(), final(guard).pages(), old(guard).total()),
            btree::is_tree(old(guard).pages(), self.root_no()) && all_sound(
                old(guard).pages(),
                btree::all_cells(old(guard).pages(), self.root_no()),
            ) ==> forall|g: spec_fn(Seq<u8>) -> bool| #[trigger]
                decides(pred, g) ==> deleted_matching(
                    old(guard).pages(),
                    final(guard).pages(),
                    self.root_no(),
                    g,
                    r,
                ),
            r matches Err(e) ==> e is Corruption || e is Io,
    {
        let ghost m = guard.pages();
        let ghost root = self.root_no();
        let ghost t = btree::view_of(m);
        let ghost cells = btree::all_cells(m, root);
        let ghost ok = btree::is_tree(m, root) && all_sound(m, cells);
        let root_page: u32 = self.root_page();
        let leaves: Vec<u32> = leaf_list(guard, root_page)?;
        let ghost ls = leaves@;
        let mut deleted: Vec<(u64, Vec<u8>)> = Vec::new();
        let mut x: usize = 0;
        proof {
            if ok {
                btree::tree_chained(m, root);
                sweep_start(m, root);
                assert(ls.take(0) =~= Seq::empty());
                assert forall|g: spec_fn(Seq<u8>) -> bool| #[trigger] decides(pred, g) implies btree::pairs(
                    deleted@,
                ) == btree::expanded(
                    m,
                    tree::leaf_rows(t, ls.take(0)).filter(chosen_fn(m, g)),
                ) by {
                    btree::filter_none(tree::leaf_rows(t, ls.take(0)), chosen_fn(m, g));
                    assert(btree::pairs(deleted@) =~= btree::expanded(
                        m,
                        tree::leaf_rows(t, ls.take(0)).filter(chosen_fn(m, g)),
                    ));
                }
            }
        }
        while x < leaves.len()
            invariant
                x <= leaves@.len(),
                ls == leaves@,
                guard.wf(),
                guard.total() == old(guard).total(),
                guard.inner().contents() == old(guard).inner().contents(),
                file::grounded(old(guard).inner(), guard.inner()),
                file::trim_kept(*old(guard), *guard),
                guard.inner().count() == old(guard).inner().count(),
                btree_writer::fresh(old(guard).pages(), guard.pages(), old(guard).total()),
                file::tidy(m) ==> file::tidy(guard.pages()),
                forall|s: &[u8]| #[trigger] call_requires(pred, (s,)),
                m == old(guard).pages(),
                t == btree::view_of(m),
                cells == btree::all_cells(m, root),
                ok == (btree::is_tree(m, root) && all_sound(m, cells)),
                root == self.root_no(),
                ok ==> {
                    &&& btree::walkable(m, root)
                    &&& ls == tree::leaves(t, root, tree::height(t, root))
                    &&& sweeping(m, guard.pages(), root, ls, x as int)
                    &&& forall|g: spec_fn(Seq<u8>) -> bool| #[trigger]
                        decides(pred, g) ==> {
                            &&& btree::pairs(deleted@) == btree::expanded(
                                m,
                                tree::leaf_rows(t, ls.take(x as int)).filter(chosen_fn(m, g)),
                            )
                            &&& forall|i: int|
                                0 <= i < x ==> btree_node::items_of(
                                    guard.pages()[#[trigger] ls[i]],
                                ) == btree_node::items_of(m[ls[i]]).filter(spared_fn(m, g))
                        }
                },
            decreases leaves@.len() - x,
        {
            let ghost mc = guard.pages();
            let page_no: u32 = leaves[x];
            proof {
                if ok {
                    sweep_ahead(m, mc, root, ls, x as int);
                }
            }
            let page: Page = fetch_leaf(guard, page_no)?;
            let ghost items = btree_node::items_of(page.data@);
            let next: u32 = page.next_leaf();
            let prev: u32 = page.prev_leaf();
            let ghost a = tree::leaf_rows(t, ls.take(x as int));
            let ghost before = deleted@;
            proof {
                btree_node::leaf_basics(page.data@);
                if ok {
                    leaf_among(m, root, x as int);
                    assert forall|g: spec_fn(Seq<u8>) -> bool| #[trigger] decides(pred, g) implies {
                        &&& items.filter(chosen_fn(mc, g)) == items.filter(chosen_fn(m, g))
                        &&& items.filter(spared_fn(mc, g)) == items.filter(spared_fn(m, g))
                        &&& btree::expanded(mc, items.filter(chosen_fn(m, g))) == btree::expanded(
                            m,
                            items.filter(chosen_fn(m, g)),
                        )
                        &&& broken(mc, items) ==> broken(m, cells)
                    } by {
                        sound_filter(m, mc, items, g);
                        if broken(m, items) {
                            let i = choose|i: int|
                                0 <= i < items.len() && btree::expand(m, (#[trigger] items[i]).1) is None;
                            assert(cells[a.len() + i] == items[i]);
                        }
                    }
                }
            }
            let idx: Vec<usize> = match_leaf(guard, &page, &pred, &mut deleted)?;
            proof {
                if ok {
                    assert forall|g: spec_fn(Seq<u8>) -> bool| #[trigger] decides(pred, g) implies btree::pairs(
                        deleted@,
                    ) == btree::expanded(
                        m,
                        tree::leaf_rows(t, ls.take(x + 1)).filter(chosen_fn(m, g)),
                    ) by {
                        tree::leaf_rows_step(t, ls, x as int);
                        Seq::filter_distributes_over_add(a, items, chosen_fn(m, g));
                        btree::expanded_concat(
                            m,
                            a.filter(chosen_fn(m, g)),
                            items.filter(chosen_fn(m, g)),
                        );
                        assert(pairs_grew(before, deleted@, mc, items.filter(chosen_fn(mc, g))));
                    }
                }
            }
            if idx.len() > 0 {
                let mut wp: Page = guard.write_page(page_no)?;
                write_leaf_without_multiple(&mut wp, &page, idx.as_slice());
                let ghost w0 = wp.data@;
                wp.set_next_leaf(next);
                wp.set_prev_leaf(prev);
                wp.update_checksum();
                proof {
                    btree_node::same_body(w0, wp.data@);
                    page::trimmed_same(w0, wp.data@);
                    guard.pages_bounded();
                    file::tidy_page(guard.pages(), page_no);
                    file::tidy_put(guard.pages(), page_no, wp.data@);
                }
                guard.put_page(page_no, wp);
                proof {
                    if ok {
                        let m2 = guard.pages();
                        let rows = btree_node::cells(page.data@);
                        let left = btree_node::without_all(rows, idx@, rows.len() as int);
                        assert(btree_writer::leaf_set(mc, m2, page_no, left));
                        assert forall|lo: Option<u64>, hi: Option<u64>| #[trigger]
                            tree::items_ok(items, lo, hi) implies tree::items_ok(
                            btree_node::keyed(left),
                            lo,
                            hi,
                        ) by {
                            without_ok(rows, idx@, rows.len() as int, lo, hi);
                            assert(items.take(rows.len() as int) =~= items);
                        }
                        sweep_step(m, mc, m2, root, ls, x as int, left);
                        assert forall|g: spec_fn(Seq<u8>) -> bool| #[trigger] decides(
                            pred,
                            g,
                        ) implies forall|i: int|
                            0 <= i < x + 1 ==> btree_node::items_of(m2[#[trigger] ls[i]])
                                == btree_node::items_of(m[ls[i]]).filter(spared_fn(m, g)) by {
                            without_picked(mc, rows, g, rows.len() as int);
                            assert(items.take(rows.len() as int) =~= items);
                        }
                    }
                }
            } else {
                proof {
                    if ok {
                        sweep_skip(m, mc, root, ls, x as int);
                        assert forall|g: spec_fn(Seq<u8>) -> bool| #[trigger] decides(
                            pred,
                            g,
                        ) implies forall|i: int|
                            0 <= i < x + 1 ==> btree_node::items_of(mc[#[trigger] ls[i]])
                                == btree_node::items_of(m[ls[i]]).filter(spared_fn(m, g)) by {
                            let rows = btree_node::cells(page.data@);
                            without_picked(mc, rows, g, rows.len() as int);
                            assert(items.take(rows.len() as int) =~= items);
                            without_none(rows, idx@, rows.len() as int);
                            assert(rows.take(rows.len() as int) =~= rows);
                        }
                    }
                }
            }
            x += 1;
        }
        proof {
            if ok {
                let m2 = guard.pages();
                let t2 = btree::view_of(m2);
                assert(ls.take(ls.len() as int) =~= ls);
                btree::tree_chained(m2, root);
                btree::tree_chained(m, root);
                assert forall|g: spec_fn(Seq<u8>) -> bool| #[trigger] decides(pred, g) implies deleted_matching(
                    m,
                    m2,
                    root,
                    g,
                    Ok(deleted),
                ) by {
                    assert forall|i: int| 0 <= i < ls.len() implies t2[#[trigger] ls[i]]->items
                        == t[ls[i]]->items.filter(spared_fn(m, g)) by {
                        assert(t2[ls[i]]->items == btree_node::items_of(m2[ls[i]]));
                        assert(t[ls[i]]->items == btree_node::items_of(m[ls[i]]));
                    }
                    leaf_rows_filtered(t, t2, ls, spared_fn(m, g));
                    sweep_only(m, m2, root, ls);
                }
            }
        }
        Ok(deleted)
    }
}

/// A walk changes pages of the tree only.
proof fn sweep_only(m: Map<u32, Seq<u8>>, m2: Map<u32, Seq<u8>>, root: u32, ls: Seq<u32>)
    requires
        btree::is_tree(m, root),
        ls == tree::leaves(
            btree::view_of(m),
            root,
            tree::height(btree::view_of(m), root),
        ),
        sweeping(m, m2, root, ls, ls.len() as int),
    ensures
        btree_writer::only_tree(m, m2, root, root),
{
    let t = btree::view_of(m);
    let t2 = btree::view_of(m2);
    btree::tree_chained(m, root);
    assert forall|q: u32| #[trigger]
        m.contains_key(q) && !tree::has(t, root, q) implies m2.contains_key(q) && m2[q] == m[q] by {
        assert(m2.contains_key(q) <==> m.contains_key(q));
        if ls.take(ls.len() as int).contains(q) {
            let i = choose|i: int| 0 <= i < ls.len() && ls.take(ls.len() as int)[i] == q;
            assert(ls[i] == q);
            assert(tree::has(t, root, ls[i]));
        }
    }
    assert forall|q: u32| #[trigger] tree::has(t2, root, q) implies tree::has(t, root, q)
        || !m.contains_key(q) by {
        assert(tree::has(t2, root, q) == tree::has(t, root, q));
    }
}

/// The items of leaf `x` lie among all items.
proof fn leaf_among(m: Map<u32, Seq<u8>>, root: u32, x: int)
    requires
        btree::is_tree(m, root),
        0 <= x < tree::leaves(
            btree::view_of(m),
            root,
            tree::height(btree::view_of(m), root),
        ).len(),
    ensures
        ({
            let t = btree::view_of(m);
            let ls = tree::leaves(t, root, tree::height(t, root));
            let a = tree::leaf_rows(t, ls.take(x));
            let items = btree_node::items_of(m[ls[x]]);
            let cells = btree::all_cells(m, root);
            &&& t[ls[x]]->items == items
            &&& a.len() + items.len() <= cells.len()
            &&& forall|i: int| 0 <= i < items.len() ==> cells[a.len() + i] == #[trigger] items[i]
            &&& all_sound(m, cells) ==> all_sound(m, items)
        }),
{
    let t = btree::view_of(m);
    let ls = tree::leaves(t, root, tree::height(t, root));
    btree::tree_chained(m, root);
    assert(m.contains_key(ls[x]));
    tree::leaf_rows_step(t, ls, x);
    tree::leaf_rows_parted(t, ls, x + 1);
    let a = tree::leaf_rows(t, ls.take(x));
    let items = btree_node::items_of(m[ls[x]]);
    let cells = btree::all_cells(m, root);
    assert forall|i: int| 0 <= i < items.len() implies cells[a.len() + i] == #[trigger] items[i] by {
        assert((a + items)[a.len() + i] == items[i]);
    }
    if all_sound(m, cells) {
        assert forall|i: int| 0 <= i < items.len() implies sound_cell(m, (#[trigger] items[i]).1) by {
            assert(sound_cell(m, cells[a.len() + i].1));
        }
    }
}

/// All keys lie below `k`.
spec fn below(items: Seq<(u64, Seq<u8>)>, k: u64) -> bool {
    forall|i: int| 0 <= i < items.len() ==> (#[trigger] items[i]).0 < k
}

/// Leaving rows out keeps the others in order and in bounds.
proof fn without_ok(rows: Seq<Seq<u8>>, skip: Seq<usize>, n: int, lo: Option<u64>, hi: Option<u64>)
    requires
        0 <= n <= rows.len(),
        tree::items_ok(btree_node::keyed(rows).take(n), lo, hi),
    ensures
        tree::items_ok(btree_node::keyed(btree_node::without_all(rows, skip, n)), lo, hi),
        forall|k: u64|
            below(btree_node::keyed(rows).take(n), k) ==> #[trigger] below(
                btree_node::keyed(btree_node::without_all(rows, skip, n)),
                k,
            ),
    decreases n,
{
    if n > 0 {
        let items = btree_node::keyed(rows);
        let a = items.take(n);
        let b = items.take(n - 1);
        assert forall|i: int| 0 <= i < b.len() implies tree::in_range(lo, hi, (#[trigger] b[i]).0) by {
            assert(a[i] == b[i]);
        }
        assert forall|i: int, j: int| 0 <= i < j < b.len() implies (#[trigger] b[i]).0.before(
            (#[trigger] b[j]).0,
        ) by {
            assert(a[i].0.before(a[j].0));
        }
        without_ok(rows, skip, n - 1, lo, hi);
        let w = btree_node::keyed(btree_node::without_all(rows, skip, n - 1));
        let x = items[n - 1];
        assert(below(b, x.0)) by {
            assert forall|i: int| 0 <= i < b.len() implies (#[trigger] b[i]).0 < x.0 by {
                assert(a[i].0.before(a[n - 1].0));
            }
        }
        assert(below(w, x.0));
        assert(a[n - 1] == x);
        let w2 = btree_node::keyed(btree_node::without_all(rows, skip, n));
        if !skip.contains((n - 1) as usize) {
            assert(w2 =~= w.push(x));
        }
        assert forall|k: u64| below(a, k) implies #[trigger] below(w2, k) by {
            assert(below(b, k)) by {
                assert forall|i: int| 0 <= i < b.len() implies (#[trigger] b[i]).0 < k by {
                    assert(a[i].0 < k);
                }
            }
            assert(below(w, k));
            assert(a[n - 1].0 < k);
        }
    }
}

/// Leaving nothing out.
proof fn without_none(rows: Seq<Seq<u8>>, skip: Seq<usize>, n: int)
    requires
        0 <= n <= rows.len(),
        skip.len() == 0,
    ensures
        btree_node::without_all(rows, skip, n) == rows.take(n),
    decreases n,
{
    if n > 0 {
        without_none(rows, skip, n - 1);
        assert(rows.take(n) =~= rows.take(n - 1).push(rows[n - 1]));
    } else {
        assert(rows.take(0) =~= Seq::empty());
    }
}

// ---------------------------------------------------------------------------
// Updating
// ---------------------------------------------------------------------------

/// The new bytes of a row.
pub open spec fn renew(
    m: Map<u32, Seq<u8>>,
    u: spec_fn(Seq<u8>) -> Seq<u8>,
    it: (u64, Seq<u8>),
) -> Seq<u8> {
    u(btree::expand(m, it.1)->0)
}

/// The items with the chosen ones renewed.
pub open spec fn renewed(
    m: Map<u32, Seq<u8>>,
    g: spec_fn(Seq<u8>) -> bool,
    u: spec_fn(Seq<u8>) -> Seq<u8>,
    items: Seq<(u64, Seq<u8>)>,
) -> Seq<(u64, Seq<u8>)> {
    items.map_values(
        |it: (u64, Seq<u8>)|
            if chosen(m, g, it) {
                (it.0, renew(m, u, it))
            } else {
                it
            },
    )
}

/// The id, the old bytes and the new bytes of each of the given rows.
pub open spec fn changes(
    m: Map<u32, Seq<u8>>,
    u: spec_fn(Seq<u8>) -> Seq<u8>,
    items: Seq<(u64, Seq<u8>)>,
) -> Seq<(u64, Seq<u8>, Seq<u8>)> {
    items.map_values(
        |it: (u64, Seq<u8>)|
            (btree::whole(m, it.1).0, btree::whole(m, it.1).1, renew(m, u, it)),
    )
}

/// The renewed rows of a leaf fit into it, each as its own cell.
pub open spec fn renewal_fits(
    m: Map<u32, Seq<u8>>,
    g: spec_fn(Seq<u8>) -> bool,
    u: spec_fn(Seq<u8>) -> Seq<u8>,
    cap: int,
    items: Seq<(u64, Seq<u8>)>,
) -> bool {
    btree_node::rows_fit(btree_writer::values(renewed(m, g, u, items)), cap) && all_whole(
        changes(m, u, items.filter(chosen_fn(m, g))),
    )
}

/// The new rows are their own cells.
pub open spec fn all_whole(v: Seq<(u64, Seq<u8>, Seq<u8>)>) -> bool {
    forall|x: int| 0 <= x < v.len() ==> btree_writer::own_cell((#[trigger] v[x]).2)
}

/// The items of the leaves after an update: those of a leaf are renewed if they
/// fit into it then, and stay otherwise.
pub open spec fn renewed_in_place(
    m: Map<u32, Seq<u8>>,
    ls: Seq<u32>,
    g: spec_fn(Seq<u8>) -> bool,
    u: spec_fn(Seq<u8>) -> Seq<u8>,
    cap: int,
) -> Seq<(u64, Seq<u8>)>
    decreases ls.len(),
{
    if ls.len() == 0 {
        Seq::empty()
    } else {
        let items = btree_node::items_of(m[ls.last()]);
        renewed_in_place(m, ls.drop_last(), g, u, cap) + if renewal_fits(m, g, u, cap, items) {
            renewed(m, g, u, items)
        } else {
            items
        }
    }
}

/// The changes in leaves whose renewed rows fit (`fitting`), or do not.
pub open spec fn changes_in(
    m: Map<u32, Seq<u8>>,
    ls: Seq<u32>,
    g: spec_fn(Seq<u8>) -> bool,
    u: spec_fn(Seq<u8>) -> Seq<u8>,
    cap: int,
    fitting: bool,
) -> Seq<(u64, Seq<u8>, Seq<u8>)>
    decreases ls.len(),
{
    if ls.len() == 0 {
        Seq::empty()
    } else {
        let items = btree_node::items_of(m[ls.last()]);
        changes_in(m, ls.drop_last(), g, u, cap, fitting) + if renewal_fits(m, g, u, cap, items)
            == fitting {
            changes(m, u, items.filter(chosen_fn(m, g)))
        } else {
            Seq::empty()
        }
    }
}

/// What triples hold.
pub open spec fn triples(v: Seq<(u64, Vec<u8>, Vec<u8>)>) -> Seq<(u64, Seq<u8>, Seq<u8>)> {
    v.map_values(|c: (u64, Vec<u8>, Vec<u8>)| (c.0, c.1@, c.2@))
}

/// A row that is to be replaced: its index in the leaf, its new bytes, its id and
/// its old bytes.
struct Replacement {
    index: usize,
    new_bytes: Vec<u8>,
    id: u64,
    old_bytes: Vec<u8>,
}

/// What replacements change.
spec fn repl_changes(v: Seq<Replacement>) -> Seq<(u64, Seq<u8>, Seq<u8>)> {
    v.map_values(|r: Replacement| (r.id, r.old_bytes@, r.new_bytes@))
}

/// Where replacements go.
spec fn repl_cells(v: Seq<Replacement>) -> Seq<(usize, Seq<u8>)> {
    v.map_values(|r: Replacement| (r.index, r.new_bytes@))
}

/// The new cells of the chosen items among the first `n`.
spec fn plan(
    m: Map<u32, Seq<u8>>,
    items: Seq<(u64, Seq<u8>)>,
    g: spec_fn(Seq<u8>) -> bool,
    u: spec_fn(Seq<u8>) -> Seq<u8>,
    n: int,
) -> Seq<(usize, Seq<u8>)>
    decreases n,
{
    if n <= 0 {
        Seq::empty()
    } else if chosen(m, g, items[n - 1]) {
        plan(m, items, g, u, n - 1).push(((n - 1) as usize, renew(m, u, items[n - 1])))
    } else {
        plan(m, items, g, u, n - 1)
    }
}

/// Replacing the planned cells renews the chosen items.
proof fn plan_renews(
    m: Map<u32, Seq<u8>>,
    items: Seq<(u64, Seq<u8>)>,
    g: spec_fn(Seq<u8>) -> bool,
    u: spec_fn(Seq<u8>) -> Seq<u8>,
    n: int,
)
    requires
        0 <= n <= items.len() <= 4096,
    ensures
        ({
            let w = btree_node::with_replaced(
                btree_writer::values(items),
                plan(m, items, g, u, n),
            );
            &&& w.len() == items.len()
            &&& forall|i: int|
                0 <= i < items.len() ==> #[trigger] w[i] == if i < n {
                    renewed(m, g, u, items)[i].1
                } else {
                    items[i].1
                }
        }),
    decreases n,
{
    if n > 0 {
        plan_renews(m, items, g, u, n - 1);
        let p = plan(m, items, g, u, n - 1);
        if chosen(m, g, items[n - 1]) {
            let q = plan(m, items, g, u, n);
            assert(q.drop_last() =~= p);
        }
    }
}

/// Finds the rows of a leaf that are to be updated, with their new bytes.
fn plan_leaf<F: Fn(&[u8]) -> bool, U: Fn(&[u8]) -> Vec<u8>>(
    guard: &WriteGuard,
    page: &Page,
    pred: &F,
    updater: &U,
) -> (r: Result<Vec<Replacement>>)
    requires
        btree_node::row_leaf(page.data@),
        forall|s: &[u8]| #[trigger] call_requires(*pred, (s,)),
        forall|s: &[u8]| s@.len() >= 8 ==> #[trigger] call_requires(*updater, (s,)),
    ensures
        r matches Ok(v) ==> {
            let m = guard.pages();
            let items = btree_node::items_of(page.data@);
            &&& forall|x: int|
                0 <= x < v@.len() ==> {
                    &&& (#[trigger] v@[x]).index < items.len()
                    &&& btree::expand(m, items[v@[x].index as int].1) == Some(v@[x].old_bytes@)
                    &&& v@[x].old_bytes@.len() >= 8
                    &&& exists|s: &[u8]| s@ == v@[x].old_bytes@ && #[trigger] call_ensures(
                        *updater,
                        (s,),
                        v@[x].new_bytes,
                    )
                }
            &&& forall|g: spec_fn(Seq<u8>) -> bool, u: spec_fn(Seq<u8>) -> Seq<u8>|
                #[trigger] decides(*pred, g) && #[trigger] renews(*updater, u) ==> {
                    &&& repl_cells(v@) == plan(m, items, g, u, items.len() as int)
                    &&& repl_changes(v@) == changes(m, u, items.filter(chosen_fn(m, g)))
                }
        },
        r is Err ==> forall|g: spec_fn(Seq<u8>) -> bool| #[trigger]
            decides(*pred, g) ==> broken(guard.pages(), btree_node::items_of(page.data@)),
        r matches Err(e) ==> e is Corruption || e is Io,
{
    let ghost m = guard.pages();
    let ghost items = btree_node::items_of(page.data@);
    let n: usize = page.num_rows() as usize;
    let mut v: Vec<Replacement> = Vec::new();
    let mut i: usize = 0;
    proof {
        btree_node::leaf_basics(page.data@);
        assert(items.take(0) =~= Seq::empty());
        assert forall|g: spec_fn(Seq<u8>) -> bool, u: spec_fn(Seq<u8>) -> Seq<u8>|
            #[trigger] decides(*pred, g) && #[trigger] renews(*updater, u) implies {
            &&& repl_cells(v@) == plan(m, items, g, u, 0)
            &&& repl_changes(v@) == changes(m, u, items.take(0).filter(chosen_fn(m, g)))
        } by {
            btree::filter_none(items.take(0), chosen_fn(m, g));
            assert(repl_cells(v@) =~= plan(m, items, g, u, 0));
            assert(repl_changes(v@) =~= changes(m, u, items.take(0).filter(chosen_fn(m, g))));
        }
    }
    while i < n
        invariant
            i <= n == page::count_of(page.data@) == items.len(),
            n <= 2038,
            items == btree_node::items_of(page.data@),
            btree_node::row_leaf(page.data@),
            m == guard.pages(),
            forall|s: &[u8]| #[trigger] call_requires(*pred, (s,)),
            forall|s: &[u8]| s@.len() >= 8 ==> #[trigger] call_requires(*updater, (s,)),
            forall|x: int|
                0 <= x < v@.len() ==> {
                    &&& (#[trigger] v@[x]).index < items.len()
                    &&& btree::expand(m, items[v@[x].index as int].1) == Some(v@[x].old_bytes@)
                    &&& v@[x].old_bytes@.len() >= 8
                    &&& exists|s: &[u8]| s@ == v@[x].old_bytes@ && #[trigger] call_ensures(
                        *updater,
                        (s,),
                        v@[x].new_bytes,
                    )
                },
            forall|g: spec_fn(Seq<u8>) -> bool, u: spec_fn(Seq<u8>) -> Seq<u8>|
                #[trigger] decides(*pred, g) && #[trigger] renews(*updater, u) ==> {
                    &&& repl_cells(v@) == plan(m, items, g, u, i as int)
                    &&& repl_changes(v@) == changes(
                        m,
                        u,
                        items.take(i as int).filter(chosen_fn(m, g)),
                    )
                },
        decreases n - i,
    {
        let cell: &[u8] = leaf_row(page, i);
        let ghost it = items[i as int];
        assert(it.1 == cell@);
        let ghost before = v@;
        let full: Vec<u8> = match reassemble_row(cell, guard) {
            Ok(f) => f,
            Err(e) => {
                assert(btree::expand(m, items[i as int].1) is None);
                return Err(e);
            },
        };
        let hit: bool = pred(full.as_slice());
        assert forall|g: spec_fn(Seq<u8>) -> bool| #[trigger] decides(*pred, g) implies hit == g(
            full@,
        ) by {}
        proof {
            assert forall|g: spec_fn(Seq<u8>) -> bool| #[trigger] decides(*pred, g) implies items.take(
                i + 1,
            ).filter(chosen_fn(m, g)) == if chosen(m, g, it) {
                items.take(i as int).filter(chosen_fn(m, g)).push(it)
            } else {
                items.take(i as int).filter(chosen_fn(m, g))
            } by {
                assert(items.take(i + 1) =~= items.take(i as int).push(it));
                btree::filter_push(items.take(i as int), it, chosen_fn(m, g));
            }
        }
        if hit {
            match extract_id(full.as_slice()) {
                Ok(id) => {
                    let old_slice: &[u8] = full.as_slice();
                    let new_bytes: Vec<u8> = updater(old_slice);
                    let ghost new_view = new_bytes@;
                    let ghost full_view = full@;
                    let ghost given = old_slice;
                    let ghost got = new_bytes;
                    assert(call_ensures(*updater, (given,), got));
                    let rep: Replacement = Replacement { index: i, new_bytes, id, old_bytes: full };
                    v.push(rep);
                    proof {
                        let last = v@.last();
                        assert(last.new_bytes == got && given@ == last.old_bytes@);
                        assert(call_ensures(*updater, (given,), last.new_bytes));
                        assert forall|g: spec_fn(Seq<u8>) -> bool, u: spec_fn(Seq<u8>) -> Seq<u8>|
                            #[trigger] decides(*pred, g) && #[trigger] renews(
                                *updater,
                                u,
                            ) implies {
                            &&& repl_cells(v@) == plan(m, items, g, u, i + 1)
                            &&& repl_changes(v@) == changes(
                                m,
                                u,
                                items.take(i + 1).filter(chosen_fn(m, g)),
                            )
                        } by {
                            let f = items.take(i as int).filter(chosen_fn(m, g));
                            assert(new_view == renew(m, u, it));
                            assert(repl_cells(v@) =~= repl_cells(before).push((i, new_view)));
                            assert(repl_changes(v@) =~= repl_changes(before).push(
                                (id, full_view, new_view),
                            ));
                            assert(changes(m, u, f.push(it)) =~= changes(m, u, f).push(
                                (btree::whole(m, it.1).0, btree::whole(m, it.1).1, renew(m, u, it)),
                            ));
                        }
                    }
                },
                Err(_) => {},
            }
        }
        i += 1;
    }
    assert(items.take(n as int) =~= items);
    Ok(v)
}

/// What [`BTreeWriter::update_matching`] does when the predicate answers like `g`
/// and the updater like `u`.
pub open spec fn updated_matching(
    m: Map<u32, Seq<u8>>,
    m2: Map<u32, Seq<u8>>,
    root: u32,
    g: spec_fn(Seq<u8>) -> bool,
    u: spec_fn(Seq<u8>) -> Seq<u8>,
    cap: int,
    r: Result<(Vec<(u64, Vec<u8>, Vec<u8>)>, Vec<(u64, Vec<u8>, Vec<u8>)>)>,
) -> bool {
    let t = btree::view_of(m);
    let ls = tree::leaves(t, root, tree::height(t, root));
    match r {
        Ok(v) => {
            &&& btree::walkable(m, root)
            &&& btree::is_tree(m2, root)
            &&& tree::height(btree::view_of(m2), root) == tree::height(t, root)
            &&& btree_writer::only_tree(m, m2, root, root)
            &&& btree::all_cells(m2, root) == renewed_in_place(m, ls, g, u, cap)
            &&& triples(v.0@) == changes_in(m, ls, g, u, cap, true)
            &&& triples(v.1@) == changes_in(m, ls, g, u, cap, false)
        },
        Err(_) => !btree::walkable(m, root) || broken(m, btree::all_cells(m, root)),
    }
}

/// The updater keeps the ids of rows.
pub open spec fn keeps_id<U: Fn(&[u8]) -> Vec<u8>>(updater: U) -> bool {
    forall|s: &[u8], v: Vec<u8>| #[trigger]
        call_ensures(updater, (s,), v) && s@.len() >= 8 ==> v@.len() >= 8 && btree_node::id_of(v@)
            == btree_node::id_of(s@)
}

/// The replacements as index and slice.
fn repl_refs<'a>(v: &'a Vec<Replacement>) -> (refs: Vec<(usize, &'a [u8])>)
    ensures
        btree_node::repl_view(refs@) == repl_cells(v@),
        refs@.len() == v@.len(),
        forall|x: int|
            0 <= x < v@.len() ==> (#[trigger] refs@[x]).0 == v@[x].index && refs@[x].1@
                == v@[x].new_bytes@,
{
    let mut refs: Vec<(usize, &'a [u8])> = Vec::new();
    let mut i: usize = 0;
    while i < v.len()
        invariant
            i <= v@.len(),
            refs@.len() == i,
            forall|x: int|
                0 <= x < i ==> (#[trigger] refs@[x]).0 == v@[x].index && refs@[x].1@
                    == v@[x].new_bytes@,
        decreases v@.len() - i,
    {
        refs.push((v[i].index, v[i].new_bytes.as_slice()));
        i += 1;
    }
    assert(btree_node::repl_view(refs@) =~= repl_cells(v@));
    refs
}

/// Whether the new rows are their own cells.
fn check_whole(v: &Vec<Replacement>) -> (r: bool)
    ensures
        r == all_whole(repl_changes(v@)),
{
    let mut i: usize = 0;
    while i < v.len()
        invariant
            i <= v@.len(),
            forall|x: int|
                0 <= x < i ==> btree_writer::own_cell((#[trigger] repl_changes(v@)[x]).2),
        decreases v@.len() - i,
    {
        assert(repl_changes(v@)[i as int].2 == v@[i as int].new_bytes@);
        if v[i].new_bytes.len() > MAX_OWN_CELL || has_overflow(v[i].new_bytes.as_slice()) {
            return false;
        }
        i += 1;
    }
    true
}

/// Moves the changes of replacements to a list.
fn report(v: Vec<Replacement>, out: &mut Vec<(u64, Vec<u8>, Vec<u8>)>)
    ensures
        triples(final(out)@) == triples(old(out)@) + repl_changes(v@),
{
    let ghost all = v@;
    let mut rest: Vec<Replacement> = v;
    let mut rev: Vec<Replacement> = Vec::new();
    while rest.len() > 0
        invariant
            rest@.len() + rev@.len() == all.len(),
            rest@ == all.take(rest@.len() as int),
            forall|x: int| 0 <= x < rev@.len() ==> #[trigger] rev@[x] == all[all.len() - 1 - x],
        decreases rest@.len(),
    {
        let ghost before = rest@;
        match rest.pop() {
            Some(r) => {
                rev.push(r);
            },
            None => {},
        }
        assert(rest@ =~= all.take(rest@.len() as int));
    }
    assert(triples(out@) =~= triples(old(out)@) + repl_changes(all.take(0)));
    while rev.len() > 0
        invariant
            rev@.len() <= all.len(),
            forall|x: int| 0 <= x < rev@.len() ==> #[trigger] rev@[x] == all[all.len() - 1 - x],
            triples(out@) == triples(old(out)@) + repl_changes(
                all.take(all.len() - rev@.len()),
            ),
        decreases rev@.len(),
    {
        let ghost before = out@;
        let ghost done = all.len() - rev@.len();
        match rev.pop() {
            Some(r) => {
                let ghost c = (r.id, r.old_bytes@, r.new_bytes@);
                out.push((r.id, r.old_bytes, r.new_bytes));
                proof {
                    assert(triples(out@) =~= triples(before).push(c));
                    assert(all.take(done + 1) =~= all.take(done).push(all[done]));
                    assert(repl_changes(all.take(done + 1)) =~= repl_changes(all.take(done)).push(
                        c,
                    ));
                }
            },
            None => {},
        }
    }
    assert(all.take(all.len() as int) =~= all);
}

impl BTreeWriter {
    /// Updates all rows whose cells satisfy `pred`, in one walk along the leaves:
    /// `updater` turns the bytes of a row into its new bytes. The rows of a leaf
    /// are replaced in place if they fit into it then. Returns the rows that were
    /// updated and those that would not have fitted, each with its id, its old
    /// bytes and its new bytes.
    #[verifier::rlimit(60)]
    pub fn update_matching<F: Fn(&[u8]) -> bool, U: Fn(&[u8]) -> Vec<u8>>(
        &self,
        guard: &mut WriteGuard,
        pred: F,
        updater: U,
    ) -> (r: Result<(Vec<(u64, Vec<u8>, Vec<u8>)>, Vec<(u64, Vec<u8>, Vec<u8>)>)>)
        requires
            old(guard).wf(),
            forall|s: &[u8]| #[trigger] call_requires(pred, (s,)),
            forall|s: &[u8]| s@.len() >= 8 ==> #[trigger] call_requires(updater, (s,)),
            keeps_id(updater),
        ensures
            r is Ok && file::tidy(old(guard).pages()) ==> file::tidy(final(guard).pages()),
            final(guard).wf(),
            final(guard).total() == old(guard).total(),
            final(guard).inner().contents() == old(guard).inner().contents(),
            file::grounded(old(guard).inner(), final(guard).inner()),
            file::trim_kept(*old(guard), *final(guard)),
            final(guard).inner().count() == old(guard).inner().count(),
            btree_writer::fresh(old(guard).pages(), final(guard).pages(), old(guard).total()),
            btree::is_tree(old(guard).pages(), self.root_no()) && all_sound(
                old(guard).pages(),
                btree::all_cells(old(guard).pages(), self.root_no()),
            ) ==> forall|g: spec_fn(Seq<u8>) -> bool, u: spec_fn(Seq<u8>) -> Seq<u8>|
                #[trigger] decides(pred, g) && #[trigger] renews(updater, u) ==> updated_matching(
                    old(guard).pages(),
                    final(guard).pages(),
                    self.root_no(),
                    g,
                    u,
                    old(guard).cap(),
                    r,
                ),
            r matches Err(e) ==> e is Corruption || e is Io,
    {
        let ghost m = guard.pages();
        let ghost root = self.root_no();
        let ghost t = btree::view_of(m);
        let ghost cells = btree::all_cells(m, root);
        let ghost ok = btree::is_tree(m, root) && all_sound(m, cells);
        let end: usize = guard.page_end();
        let ghost cap = guard.cap();
        let root_page: u32 = self.root_page();
        let leaves: Vec<u32> = leaf_list(guard, root_page)?;
        let ghost ls = leaves@;
        let mut updated: Vec<(u64, Vec<u8>, Vec<u8>)> = Vec::new();
        let mut overflow: Vec<(u64, Vec<u8>, Vec<u8>)> = Vec::new();
        let mut x: usize = 0;
        proof {
            if ok {
                btree::tree_chained(m, root);
                sweep_start(m, root);
                assert(ls.take(0) =~= Seq::empty());
                assert(triples(updated@) =~= Seq::empty());
                assert(triples(overflow@) =~= Seq::empty());
            }
        }
        while x < leaves.len()
            invariant
                x <= leaves@.len(),
                ls == leaves@,
                end == cap == guard.cap(),
                cap == old(guard).cap(),
                guard.wf(),
                guard.total() == old(guard).total(),
                guard.inner().contents() == old(guard).inner().contents(),
                file::grounded(old(guard).inner(), guard.inner()),
                file::trim_kept(*old(guard), *guard),
                guard.inner().count() == old(guard).inner().count(),
                btree_writer::fresh(old(guard).pages(), guard.pages(), old(guard).total()),
                file::tidy(m) ==> file::tidy(guard.pages()),
                forall|s: &[u8]| #[trigger] call_requires(pred, (s,)),
                forall|s: &[u8]| s@.len() >= 8 ==> #[trigger] call_requires(updater, (s,)),
                keeps_id(updater),
                m == old(guard).pages(),
                t == btree::view_of(m),
                cells == btree::all_cells(m, root),
                ok == (btree::is_tree(m, root) && all_sound(m, cells)),
                root == self.root_no(),
                ok ==> {
                    &&& btree::walkable(m, root)
                    &&& ls == tree::leaves(t, root, tree::height(t, root))
                    &&& sweeping(m, guard.pages(), root, ls, x as int)
                    &&& forall|g: spec_fn(Seq<u8>) -> bool, u: spec_fn(Seq<u8>) -> Seq<u8>|
                        #[trigger] decides(pred, g) && #[trigger] renews(updater, u)
                            ==> swept_so_far(
                            m,
                            guard.pages(),
                            ls,
                            x as int,
                            g,
                            u,
                            cap,
                            updated@,
                            overflow@,
                        )
                },
            decreases leaves@.len() - x,
        {
            let ghost mc = guard.pages();
            let page_no: u32 = leaves[x];
            proof {
                if ok {
                    sweep_ahead(m, mc, root, ls, x as int);
                }
            }
            let page: Page = fetch_leaf(guard, page_no)?;
            let ghost items = btree_node::items_of(page.data@);
            let ghost rows = btree_node::cells(page.data@);
            proof {
                btree_node::leaf_basics(page.data@);
                assert(btree_writer::values(items) =~= rows);
                if ok {
                    leaf_among(m, root, x as int);
                    broken_among(m, mc, root, x as int, pred);
                }
            }
            let reps: Vec<Replacement> = plan_leaf(guard, &page, &pred, &updater)?;
            let ghost rv = reps@;
            if reps.len() > 0 {
                let refs: Vec<(usize, &[u8])> = repl_refs(&reps);
                proof {
                    assert forall|i: int| 0 <= i < refs@.len() implies (#[trigger] refs@[i]).0
                        < page::count_of(page.data@) && refs@[i].1@.len() >= 8 by {
                        assert(rv[i].index < items.len());
                    }
                }
                let mut wp: Page = guard.write_page(page_no)?;
                let whole: bool = check_whole(&reps);
                let fits: bool = replace_within(&mut wp, &page, refs.as_slice(), end)
                    && whole;
                if fits {
                    proof {
                        guard.pages_bounded();
                        file::tidy_page(guard.pages(), page_no);
                        file::tidy_put(guard.pages(), page_no, wp.data@);
                    }
                    guard.put_page(page_no, wp);
                    proof {
                        if ok {
                            let m2 = guard.pages();
                            let new = btree_node::with_replaced(rows, repl_cells(rv));
                            assert(btree_writer::leaf_set(mc, m2, page_no, new));
                            replaced_ok(m, mc, items, rv, updater);
                            sweep_step(m, mc, m2, root, ls, x as int, new);
                        }
                    }
                }
                let ghost u0 = updated@;
                let ghost o0 = overflow@;
                if fits {
                    report(reps, &mut updated);
                } else {
                    report(reps, &mut overflow);
                    proof {
                        if ok {
                            sweep_skip(m, mc, root, ls, x as int);
                        }
                    }
                }
                proof {
                    if ok {
                        let m2 = guard.pages();
                        assert forall|g: spec_fn(Seq<u8>) -> bool, u: spec_fn(Seq<u8>) -> Seq<u8>|
                            #[trigger] decides(pred, g) && #[trigger] renews(
                                updater,
                                u,
                            ) implies swept_so_far(
                            m,
                            m2,
                            ls,
                            x + 1,
                            g,
                            u,
                            cap,
                            updated@,
                            overflow@,
                        ) by {
                            sweep_plan(m, mc, items, rv, g, u);
                            assert(ls.take(x + 1).drop_last() =~= ls.take(x as int));
                            assert(ls.take(x + 1).last() == ls[x as int]);
                            if fits {
                                let new = btree_node::with_replaced(rows, repl_cells(rv));
                                let want = renewed(m, g, u, items);
                                assert(btree_node::keyed(new) =~= want) by {
                                    assert forall|i: int| 0 <= i < want.len() implies btree_node::keyed(
                                        new,
                                    )[i] == #[trigger] want[i] by {
                                        assert(btree_node::id_of(new[i]) == items[i].0);
                                        assert(btree_writer::values(want)[i] == new[i]);
                                    }
                                }
                            } else {
                                assert(m2 =~= mc);
                            }
                            assert(triples(u0) + Seq::empty() =~= triples(u0));
                            assert(triples(o0) + Seq::empty() =~= triples(o0));
                        }
                    }
                }
            } else {
                proof {
                    if ok {
                        sweep_skip(m, mc, root, ls, x as int);
                        assert forall|g: spec_fn(Seq<u8>) -> bool, u: spec_fn(Seq<u8>) -> Seq<u8>|
                            #[trigger] decides(pred, g) && #[trigger] renews(
                                updater,
                                u,
                            ) implies swept_so_far(
                            m,
                            mc,
                            ls,
                            x + 1,
                            g,
                            u,
                            cap,
                            updated@,
                            overflow@,
                        ) by {
                            sweep_plan(m, mc, items, rv, g, u);
                            assert(ls.take(x + 1).drop_last() =~= ls.take(x as int));
                            assert(ls.take(x + 1).last() == ls[x as int]);
                            assert(repl_changes(rv) =~= Seq::empty());
                            assert(repl_cells(rv) =~= Seq::empty());
                            assert(renewed(m, g, u, items) =~= items);
                            assert(triples(updated@) + Seq::empty() =~= triples(updated@));
                            assert(triples(overflow@) + Seq::empty() =~= triples(overflow@));
                        }
                    }
                }
            }
            x += 1;
        }
        proof {
            if ok {
                let m2 = guard.pages();
                assert(ls.take(ls.len() as int) =~= ls);
                btree::tree_chained(m2, root);
                sweep_only(m, m2, root, ls);
                assert forall|g: spec_fn(Seq<u8>) -> bool, u: spec_fn(Seq<u8>) -> Seq<u8>|
                    #[trigger] decides(pred, g) && #[trigger] renews(
                        updater,
                        u,
                    ) implies updated_matching(m, m2, root, g, u, cap, Ok((updated, overflow))) by {
                    sweep_done(m, m2, root, ls, g, u, cap, updated@, overflow@);
                }
            }
        }
        Ok((updated, overflow))
    }
}

/// The first `x` leaves were updated.
spec fn swept_so_far(
    m: Map<u32, Seq<u8>>,
    mc: Map<u32, Seq<u8>>,
    ls: Seq<u32>,
    x: int,
    g: spec_fn(Seq<u8>) -> bool,
    u: spec_fn(Seq<u8>) -> Seq<u8>,
    cap: int,
    updated: Seq<(u64, Vec<u8>, Vec<u8>)>,
    overflow: Seq<(u64, Vec<u8>, Vec<u8>)>,
) -> bool {
    &&& triples(updated) == changes_in(m, ls.take(x), g, u, cap, true)
    &&& triples(overflow) == changes_in(m, ls.take(x), g, u, cap, false)
    &&& forall|i: int|
        0 <= i < x ==> btree_node::items_of(mc[#[trigger] ls[i]]) == if renewal_fits(
            m,
            g,
            u,
            cap,
            btree_node::items_of(m[ls[i]]),
        ) {
            renewed(m, g, u, btree_node::items_of(m[ls[i]]))
        } else {
            btree_node::items_of(m[ls[i]])
        }
}

/// A selected cell of a leaf that leads nowhere is one of the tree.
proof fn broken_among<F: Fn(&[u8]) -> bool>(
    m: Map<u32, Seq<u8>>,
    mc: Map<u32, Seq<u8>>,
    root: u32,
    x: int,
    pred: F,
)
    requires
        btree::is_tree(m, root),
        all_sound(m, btree::all_cells(m, root)),
        btree_writer::overflow_kept(m, mc),
        0 <= x < tree::leaves(
            btree::view_of(m),
            root,
            tree::height(btree::view_of(m), root),
        ).len(),
    ensures
        ({
            let t = btree::view_of(m);
            let ls = tree::leaves(t, root, tree::height(t, root));
            let items = btree_node::items_of(m[ls[x]]);
            forall|g: spec_fn(Seq<u8>) -> bool| #[trigger]
                decides(pred, g) ==> broken(mc, items) ==> broken(m, btree::all_cells(m, root))
        }),
{
    let t = btree::view_of(m);
    let ls = tree::leaves(t, root, tree::height(t, root));
    let items = btree_node::items_of(m[ls[x]]);
    let cells = btree::all_cells(m, root);
    let a = tree::leaf_rows(t, ls.take(x));
    leaf_among(m, root, x);
    assert forall|g: spec_fn(Seq<u8>) -> bool| #[trigger] decides(pred, g) && broken(mc, items) implies broken(m, cells) by {
        sound_filter(m, mc, items, g);
        let i = choose|i: int|
            0 <= i < items.len() && btree::expand(m, (#[trigger] items[i]).1) is None;
        assert(cells[a.len() + i] == items[i]);
    }
}

/// What was planned for a leaf, said over the pages before the walk.
proof fn sweep_plan(
    m: Map<u32, Seq<u8>>,
    mc: Map<u32, Seq<u8>>,
    items: Seq<(u64, Seq<u8>)>,
    rv: Seq<Replacement>,
    g: spec_fn(Seq<u8>) -> bool,
    u: spec_fn(Seq<u8>) -> Seq<u8>,
)
    requires
        all_sound(m, items),
        btree_writer::overflow_kept(m, mc),
        items.len() <= 4096,
        repl_cells(rv) == plan(mc, items, g, u, items.len() as int),
        repl_changes(rv) == changes(mc, u, items.filter(chosen_fn(mc, g))),
    ensures
        btree_node::with_replaced(btree_writer::values(items), repl_cells(rv))
            == btree_writer::values(renewed(m, g, u, items)),
        repl_changes(rv) == changes(m, u, items.filter(chosen_fn(m, g))),
        rv.len() == 0 ==> forall|i: int| 0 <= i < items.len() ==> !chosen(m, g, #[trigger] items[i]),
        forall|i: int|
            0 <= i < items.len() && chosen(m, g, #[trigger] items[i]) ==> exists|x: int|
                0 <= x < rv.len() && (#[trigger] rv[x]).index == i && rv[x].new_bytes@ == renew(
                    m,
                    u,
                    items[i],
                ),
{
    let n = items.len() as int;
    plan_renews(mc, items, g, u, n);
    sound_filter(m, mc, items, g);
    assert forall|i: int| 0 <= i < n implies (chosen(m, g, #[trigger] items[i]) == chosen(
        mc,
        g,
        items[i],
    )) && renew(m, u, items[i]) == renew(mc, u, items[i]) && btree::whole(m, items[i].1)
        == btree::whole(mc, items[i].1) by {
        sound_kept(m, mc, items[i].1);
    }
    assert(renewed(m, g, u, items) =~= renewed(mc, g, u, items));
    let w = btree_node::with_replaced(btree_writer::values(items), repl_cells(rv));
    assert(w =~= btree_writer::values(renewed(m, g, u, items))) by {
        assert forall|i: int| 0 <= i < n implies #[trigger] w[i] == btree_writer::values(
            renewed(m, g, u, items),
        )[i] by {
            assert(w[i] == renewed(mc, g, u, items)[i].1);
        }
    }
    let f = items.filter(chosen_fn(m, g));
    assert(changes(mc, u, f) =~= changes(m, u, f)) by {
        filter_sound(m, items, chosen_fn(m, g));
        assert forall|j: int| 0 <= j < f.len() implies changes(mc, u, f)[j] == #[trigger] changes(
            m,
            u,
            f,
        )[j] by {
            sound_kept(m, mc, f[j].1);
        }
    }
    plan_has(mc, items, g, u, n);
    assert forall|i: int| 0 <= i < n && chosen(m, g, #[trigger] items[i]) implies exists|x: int|
        0 <= x < rv.len() && (#[trigger] rv[x]).index == i && rv[x].new_bytes@ == renew(
            m,
            u,
            items[i],
        ) by {
        let p = plan(mc, items, g, u, n);
        let x = choose|x: int|
            0 <= x < p.len() && #[trigger] p[x] == (i as usize, renew(mc, u, items[i]));
        assert(repl_cells(rv)[x] == p[x]);
        assert(rv[x].index == i);
    }
}

proof fn filter_sound(
    m: Map<u32, Seq<u8>>,
    items: Seq<(u64, Seq<u8>)>,
    pred: spec_fn((u64, Seq<u8>)) -> bool,
)
    requires
        all_sound(m, items),
    ensures
        all_sound(m, items.filter(pred)),
    decreases items.len(),
{
    reveal(Seq::filter);
    if items.len() > 0 {
        let d = items.drop_last();
        assert forall|i: int| 0 <= i < d.len() implies sound_cell(m, (#[trigger] d[i]).1) by {
            assert(d[i] == items[i]);
        }
        filter_sound(m, d, pred);
        assert(sound_cell(m, items[items.len() - 1].1));
    }
}

/// Every chosen item is in the plan.
proof fn plan_has(
    m: Map<u32, Seq<u8>>,
    items: Seq<(u64, Seq<u8>)>,
    g: spec_fn(Seq<u8>) -> bool,
    u: spec_fn(Seq<u8>) -> Seq<u8>,
    n: int,
)
    requires
        0 <= n <= items.len() <= 4096,
    ensures
        forall|i: int|
            0 <= i < n && chosen(m, g, #[trigger] items[i]) ==> exists|x: int|
                0 <= x < plan(m, items, g, u, n).len() && #[trigger] plan(m, items, g, u, n)[x] == (
                i as usize,
                renew(m, u, items[i]),
            ),
    decreases n,
{
    if n > 0 {
        plan_has(m, items, g, u, n - 1);
        let p = plan(m, items, g, u, n - 1);
        let q = plan(m, items, g, u, n);
        assert forall|i: int| 0 <= i < n && chosen(m, g, #[trigger] items[i]) implies exists|x: int|
            0 <= x < q.len() && #[trigger] q[x] == (i as usize, renew(m, u, items[i])) by {
            if i < n - 1 {
                let x = choose|x: int|
                    0 <= x < p.len() && #[trigger] p[x] == (i as usize, renew(m, u, items[i]));
                assert(q[x] == p[x]);
            } else {
                assert(q[p.len() as int] == (i as usize, renew(m, u, items[i])));
            }
        }
    }
}

/// Replaced cells keep their ids, so the items stay in order and in bounds.
proof fn replaced_ok<U: Fn(&[u8]) -> Vec<u8>>(
    m: Map<u32, Seq<u8>>,
    mc: Map<u32, Seq<u8>>,
    items: Seq<(u64, Seq<u8>)>,
    rv: Seq<Replacement>,
    updater: U,
)
    requires
        all_sound(m, items),
        btree_writer::overflow_kept(m, mc),
        keeps_id(updater),
        forall|i: int|
            0 <= i < items.len() ==> (#[trigger] items[i]).0 == btree_node::id_of(items[i].1),
        forall|x: int|
            0 <= x < rv.len() ==> {
                &&& (#[trigger] rv[x]).index < items.len()
                &&& btree::expand(mc, items[rv[x].index as int].1) == Some(rv[x].old_bytes@)
                &&& rv[x].old_bytes@.len() >= 8
                &&& exists|s: &[u8]| s@ == rv[x].old_bytes@ && #[trigger] call_ensures(
                    updater,
                    (s,),
                    rv[x].new_bytes,
                )
            },
    ensures
        ({
            let new = btree_node::with_replaced(btree_writer::values(items), repl_cells(rv));
            &&& new.len() == items.len()
            &&& forall|i: int|
                0 <= i < items.len() ==> btree_node::id_of(#[trigger] new[i]) == items[i].0
            &&& forall|lo: Option<u64>, hi: Option<u64>| #[trigger]
                tree::items_ok(items, lo, hi) ==> tree::items_ok(btree_node::keyed(new), lo, hi)
        }),
    decreases rv.len(),
{
    let new = btree_node::with_replaced(btree_writer::values(items), repl_cells(rv));
    if rv.len() > 0 {
        let d = rv.drop_last();
        assert forall|x: int| 0 <= x < d.len() implies {
            &&& (#[trigger] d[x]).index < items.len()
            &&& btree::expand(mc, items[d[x].index as int].1) == Some(d[x].old_bytes@)
            &&& d[x].old_bytes@.len() >= 8
            &&& exists|s: &[u8]| s@ == d[x].old_bytes@ && #[trigger] call_ensures(
                updater,
                (s,),
                d[x].new_bytes,
            )
        } by {
            assert(d[x] == rv[x]);
        }
        replaced_ok(m, mc, items, d, updater);
        assert(repl_cells(rv).drop_last() =~= repl_cells(d));
        let r = rv[rv.len() - 1];
        let it = items[r.index as int];
        let s = choose|s: &[u8]| s@ == r.old_bytes@ && #[trigger] call_ensures(
            updater,
            (s,),
            r.new_bytes,
        );
        assert(btree_node::id_of(r.new_bytes@) == btree_node::id_of(r.old_bytes@));
        assert(sound_cell(m, it.1));
        sound_kept(m, mc, it.1);
        sound_id(mc, it.1);
        assert(repl_cells(rv).last() == (r.index, r.new_bytes@));
    }
    assert forall|lo: Option<u64>, hi: Option<u64>| #[trigger]
        tree::items_ok(items, lo, hi) implies tree::items_ok(btree_node::keyed(new), lo, hi) by {
        let k = btree_node::keyed(new);
        assert forall|i: int| 0 <= i < k.len() implies tree::in_range(lo, hi, (#[trigger] k[i]).0) by {
            assert(btree_node::id_of(new[i]) == items[i].0);
        }
        assert forall|i: int, j: int| 0 <= i < j < k.len() implies (#[trigger] k[i]).0.before(
            (#[trigger] k[j]).0,
        ) by {
            assert(btree_node::id_of(new[i]) == items[i].0);
            assert(btree_node::id_of(new[j]) == items[j].0);
        }
    }
}

/// The row of a sound cell has the id that the cell has.
proof fn sound_id(m: Map<u32, Seq<u8>>, cell: Seq<u8>)
    requires
        sound_cell(m, cell),
        btree::expand(m, cell) is Some,
    ensures
        btree_node::id_of(btree::expand(m, cell)->0) == btree_node::id_of(cell),
{
    if overflow::overflows(cell) {
        crate::bytes::get_agree(btree::expand(m, cell)->0, 0, cell, 0, 8);
    }
}

/// The walk is over.
proof fn sweep_done(
    m: Map<u32, Seq<u8>>,
    m2: Map<u32, Seq<u8>>,
    root: u32,
    ls: Seq<u32>,
    g: spec_fn(Seq<u8>) -> bool,
    u: spec_fn(Seq<u8>) -> Seq<u8>,
    cap: int,
    updated: Seq<(u64, Vec<u8>, Vec<u8>)>,
    overflow: Seq<(u64, Vec<u8>, Vec<u8>)>,
)
    requires
        btree::is_tree(m2, root),
        ls == tree::leaves(
            btree::view_of(m2),
            root,
            tree::height(btree::view_of(m2), root),
        ),
        swept_so_far(m, m2, ls, ls.len() as int, g, u, cap, updated, overflow),
    ensures
        btree::all_cells(m2, root) == renewed_in_place(m, ls, g, u, cap),
{
    btree::tree_chained(m2, root);
    let t2 = btree::view_of(m2);
    assert forall|i: int| 0 <= i < ls.len() implies t2[#[trigger] ls[i]]->items
        == btree_node::items_of(m2[ls[i]]) by {}
    rows_in_place(m, m2, ls, g, u, cap);
}

proof fn rows_in_place(
    m: Map<u32, Seq<u8>>,
    m2: Map<u32, Seq<u8>>,
    ls: Seq<u32>,
    g: spec_fn(Seq<u8>) -> bool,
    u: spec_fn(Seq<u8>) -> Seq<u8>,
    cap: int,
)
    requires
        forall|i: int|
            0 <= i < ls.len() ==> btree::view_of(m2)[#[trigger] ls[i]]->items
                == btree_node::items_of(m2[ls[i]]),
        forall|i: int|
            0 <= i < ls.len() ==> btree_node::items_of(m2[#[trigger] ls[i]]) == if renewal_fits(
                m,
                g,
                u,
                cap,
                btree_node::items_of(m[ls[i]]),
            ) {
                renewed(m, g, u, btree_node::items_of(m[ls[i]]))
            } else {
                btree_node::items_of(m[ls[i]])
            },
    ensures
        tree::leaf_rows(btree::view_of(m2), ls) == renewed_in_place(m, ls, g, u, cap),
    decreases ls.len(),
{
    if ls.len() > 0 {
        let d = ls.drop_last();
        assert forall|i: int| 0 <= i < d.len() implies #[trigger] d[i] == ls[i] by {}
        rows_in_place(m, m2, d, g, u, cap);
        assert(ls.last() == ls[ls.len() - 1]);
    }
}

}
