//! What the lists that are read from trees hold.

use crate::btree;
use crate::index_tree;
use crate::laws;
use vstd::prelude::*;

verus! {

/// Of the keys of a tree exactly those with a prefix are listed under it.
pub proof fn listed_under_prefix(m: Map<u32, Seq<u8>>, root: u32, prefix: Seq<u8>, key: Seq<u8>)
    ensures
        index_tree::keys_with(m, root, prefix).contains(key) <==> index_tree::all_keys(
            m,
            root,
        ).contains((key, ())) && prefix.len() <= key.len() && key.take(prefix.len() as int)
            == prefix,
{
    let all = index_tree::all_keys(m, root);
    let p = index_tree::prefix_fn(prefix);
    let some = all.filter(p);
    laws::filtered_members(all, p, (key, ()));
    if index_tree::keys_with(m, root, prefix).contains(key) {
        let i = choose|i: int|
            0 <= i < index_tree::keys_with(m, root, prefix).len() && index_tree::keys_with(
                m,
                root,
                prefix,
            )[i] == key;
        assert(some[i] == (key, ()));
    }
    if some.contains((key, ())) {
        let i = choose|i: int| 0 <= i < some.len() && some[i] == (key, ());
        assert(index_tree::keys_with(m, root, prefix)[i] == key);
    }
    if prefix.is_prefix_of(key) {
        assert(key.take(prefix.len() as int) =~= prefix);
    }
    if prefix.len() <= key.len() && key.take(prefix.len() as int) == prefix {
        assert(prefix.is_prefix_of(key));
    }
}

/// No more keys are listed than asked for, and as many as there are up to that.
pub proof fn listed_up_to(keys: Seq<Seq<u8>>, max: usize)
    ensures
        ({
            let some = keys.take(index_tree::collected_of(keys.len(), Some(max)) as int);
            &&& some.len() <= max
            &&& some.len() < max ==> some == keys
            &&& some.is_prefix_of(keys)
        }),
{
    let some = keys.take(index_tree::collected_of(keys.len(), Some(max)) as int);
    if some.len() < max {
        assert(some =~= keys);
    }
}

/// Of the rows of a tree exactly those with the wanted numbers are read.
pub proof fn wanted_are_read(
    items: Seq<(u64, Seq<u8>)>,
    ids: Seq<u64>,
    item: (u64, Seq<u8>),
)
    ensures
        btree::wanted(items, ids).contains(item) <==> items.contains(item) && exists|j: int|
            0 <= j < ids.len() && ids[j] == item.0,
{
    laws::filtered_members(items, btree::id_among(ids), item);
}

}
