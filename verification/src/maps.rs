//! Trusted interface to `indexmap::IndexMap`, the insertion-ordered map that
//! holds graph attributes and nodes.  Verus sees a map only through the
//! sequence of its entries (`str_entries`, `node_entries`); each wrapper below
//! states what the corresponding `IndexMap` method does to that sequence.
use indexmap::IndexMap;
use vstd::prelude::*;

use crate::graph::NodeInfo;
use crate::text::seq_less;

verus! {

#[verifier::external_type_specification]
#[verifier::external_body]
#[verifier::reject_recursive_types(K)]
#[verifier::reject_recursive_types(V)]
#[verifier::reject_recursive_types(S)]
pub struct ExIndexMap<K, V, S>(IndexMap<K, V, S>);

/// `IndexMap::clone` for any entry types.  Nothing is stated of the copy here;
/// `str_map_clone` states it for the string maps whose content the library reads.
pub assume_specification<K, V, S>[ <IndexMap<K, V, S> as Clone>::clone ](m: &IndexMap<K, V, S>) -> (r: IndexMap<K, V, S>)
    where
        K: Clone,
        V: Clone,
        S: Clone,
;

/// Index of the first entry of `s` whose key is `k`, or -1 when there is none.
pub open spec fn find_key<V>(s: Seq<(Seq<char>, V)>, k: Seq<char>) -> int
    decreases s.len(),
{
    if s.len() == 0 {
        -1
    } else if s[0].0 == k {
        0
    } else {
        let r = find_key(s.drop_first(), k);
        if r < 0 {
            -1
        } else {
            r + 1
        }
    }
}

/// Whether some entry of `s` has key `k`.
pub open spec fn has_key<V>(s: Seq<(Seq<char>, V)>, k: Seq<char>) -> bool {
    exists|i: int| 0 <= i < s.len() && #[trigger] s[i].0 == k
}

/// The value stored under `k` (that of the first entry with that key).
pub open spec fn value_of<V>(s: Seq<(Seq<char>, V)>, k: Seq<char>) -> Option<V> {
    if find_key(s, k) >= 0 {
        Some(s[find_key(s, k)].1)
    } else {
        None
    }
}

/// The entries after inserting `(k, v)`: an existing key keeps its place and
/// takes the new value; a new key goes last.
pub open spec fn insert_entry<V>(s: Seq<(Seq<char>, V)>, k: Seq<char>, v: V) -> Seq<(Seq<char>, V)> {
    if find_key(s, k) >= 0 {
        s.update(find_key(s, k), (k, v))
    } else {
        s.push((k, v))
    }
}

/// The keys of `s`, in order.
pub open spec fn keys_of<V>(s: Seq<(Seq<char>, V)>) -> Seq<Seq<char>> {
    s.map_values(|e: (Seq<char>, V)| e.0)
}

pub proof fn lemma_find_key<V>(s: Seq<(Seq<char>, V)>, k: Seq<char>)
    ensures
        -1 <= find_key(s, k) < s.len(),
        find_key(s, k) >= 0 ==> s[find_key(s, k)].0 == k,
        find_key(s, k) >= 0 ==> forall|j: int| 0 <= j < find_key(s, k) ==> s[j].0 != k,
        find_key(s, k) < 0 ==> forall|j: int| 0 <= j < s.len() ==> s[j].0 != k,
        (find_key(s, k) >= 0) == has_key(s, k),
    decreases s.len(),
{
    if s.len() > 0 && s[0].0 != k {
        lemma_find_key(s.drop_first(), k);
        assert forall|j: int| 1 <= j < s.len() implies s[j] == s.drop_first()[j - 1] by {}
    }
    if find_key(s, k) < 0 {
        assert forall|i: int| 0 <= i < s.len() implies s[i].0 != k by {
            if i > 0 {
                assert(s[i] == s.drop_first()[i - 1]);
            }
        }
    }
}

/// `find_key` looks only at keys.
pub proof fn lemma_find_key_same_keys<V, W>(s: Seq<(Seq<char>, V)>, t: Seq<(Seq<char>, W)>, k: Seq<char>)
    requires
        s.len() == t.len(),
        forall|i: int| 0 <= i < s.len() ==> s[i].0 == t[i].0,
    ensures
        find_key(s, k) == find_key(t, k),
        has_key(s, k) == has_key(t, k),
    decreases s.len(),
{
    lemma_find_key(s, k);
    lemma_find_key(t, k);
    if s.len() > 0 {
        let (a, b) = (s.drop_first(), t.drop_first());
        assert forall|i: int| 0 <= i < a.len() implies a[i].0 == b[i].0 by {
            assert(a[i] == s[i + 1]);
            assert(b[i] == t[i + 1]);
        }
        lemma_find_key_same_keys(a, b, k);
    }
}

/// Inserting keeps every other key's entry and makes `k` present with value `v`.
pub proof fn lemma_insert_entry<V>(s: Seq<(Seq<char>, V)>, k: Seq<char>, v: V)
    ensures
        has_key(insert_entry(s, k, v), k),
        value_of(insert_entry(s, k, v), k) == Some(v),
        forall|k2: Seq<char>| k2 != k ==> value_of(insert_entry(s, k, v), k2) == value_of(s, k2),
        forall|k2: Seq<char>| has_key(insert_entry(s, k, v), k2) == (has_key(s, k2) || k2 == k),
{
    let t = insert_entry(s, k, v);
    lemma_find_key(s, k);
    lemma_find_key(t, k);
    assert(t[find_key(s, k)].0 == k || t[s.len() as int].0 == k);
    assert forall|k2: Seq<char>| k2 != k implies value_of(t, k2) == value_of(s, k2) by {
        lemma_find_key(s, k2);
        lemma_find_key(t, k2);
        if find_key(s, k2) >= 0 {
            assert(t[find_key(s, k2)].0 == k2);
        }
        if find_key(t, k2) >= 0 {
            assert(s[find_key(t, k2)].0 == k2);
        }
    }
    assert forall|k2: Seq<char>| has_key(t, k2) == (has_key(s, k2) || k2 == k) by {
        if k2 == k {
            if find_key(s, k) >= 0 {
                assert(t[find_key(s, k)].0 == k);
            } else {
                assert(t[s.len() as int].0 == k);
            }
        } else {
            if has_key(s, k2) {
                let i = choose|i: int| 0 <= i < s.len() && #[trigger] s[i].0 == k2;
                assert(t[i].0 == k2);
            }
            if has_key(t, k2) {
                let i = choose|i: int| 0 <= i < t.len() && #[trigger] t[i].0 == k2;
                assert(s[i].0 == k2);
            }
        }
    }
}

// ---------------------------------------------------------------------------
// IndexMap<String, String>
// ---------------------------------------------------------------------------

/// The key/value pairs of a string-to-string `IndexMap`, in insertion order.
pub uninterp spec fn str_entries(m: IndexMap<String, String>) -> Seq<(Seq<char>, Seq<char>)>;

/// `IndexMap::new`: the new map has no entries.
#[verifier::external_body]
pub fn str_map_new() -> (m: IndexMap<String, String>)
    ensures
        str_entries(m) == Seq::<(Seq<char>, Seq<char>)>::empty(),
{
    IndexMap::new()
}

/// `IndexMap::clone`: the copy has the same entries in the same order.
#[verifier::external_body]
pub fn str_map_clone(m: &IndexMap<String, String>) -> (r: IndexMap<String, String>)
    ensures
        str_entries(r) == str_entries(*m),
{
    m.clone()
}

/// `IndexMap::len`: the number of entries.
#[verifier::external_body]
pub fn str_map_len(m: &IndexMap<String, String>) -> (n: usize)
    ensures
        n == str_entries(*m).len(),
{
    m.len()
}

/// `IndexMap::get_index`: the entry at position `i`, if any.
#[verifier::external_body]
pub fn str_map_get_index(m: &IndexMap<String, String>, i: usize) -> (r: Option<(&String, &String)>)
    ensures
        r is Some == (i < str_entries(*m).len()),
        r matches Some(p) ==> p.0@ == str_entries(*m)[i as int].0 && p.1@ == str_entries(*m)[i as int].1,
{
    m.get_index(i)
}

/// `IndexMap::get`: the value of the entry whose key is `k`, if any.
#[verifier::external_body]
pub fn str_map_get<'a>(m: &'a IndexMap<String, String>, k: &str) -> (r: Option<&'a String>)
    ensures
        match r {
            Some(v) => value_of(str_entries(*m), k@) == Some(v@),
            None => value_of(str_entries(*m), k@) is None,
        },
{
    m.get(k)
}

/// `IndexMap::contains_key`: whether some entry has key `k`.
#[verifier::external_body]
pub fn str_map_contains_key(m: &IndexMap<String, String>, k: &str) -> (b: bool)
    ensures
        b == has_key(str_entries(*m), k@),
{
    m.contains_key(k)
}

/// `s` without the entry whose key is `k`, the last entry moved into its
/// place (nothing changes when there is no such entry).
pub open spec fn swap_removed<V>(s: Seq<(Seq<char>, V)>, k: Seq<char>) -> Seq<(Seq<char>, V)> {
    let i = find_key(s, k);
    if i < 0 {
        s
    } else {
        s.update(i, s.last()).drop_last()
    }
}

/// `IndexMap::swap_remove`: the entry with key `k`, if any, is removed and
/// the last entry takes its position.
#[verifier::external_body]
pub fn str_map_swap_remove(m: &mut IndexMap<String, String>, k: &str)
    ensures
        str_entries(*final(m)) == swap_removed(str_entries(*old(m)), k@),
{
    m.swap_remove(k);
}

/// `IndexMap::insert`: an existing key keeps its position and takes the new
/// value; otherwise the entry is appended.
#[verifier::external_body]
pub fn str_map_insert(m: &mut IndexMap<String, String>, k: String, v: String)
    ensures
        str_entries(*final(m)) =~= insert_entry(str_entries(*old(m)), k@, v@),
{
    m.insert(k, v);
}

// ---------------------------------------------------------------------------
// IndexMap<String, NodeInfo>
// ---------------------------------------------------------------------------

/// The entries of a node map, in insertion order: node id and node data.
pub uninterp spec fn node_entries(m: IndexMap<String, NodeInfo>) -> Seq<(Seq<char>, NodeInfo)>;

/// `IndexMap::new`: the new map has no entries.
#[verifier::external_body]
pub fn node_map_new() -> (m: IndexMap<String, NodeInfo>)
    ensures
        node_entries(m) == Seq::<(Seq<char>, NodeInfo)>::empty(),
{
    IndexMap::new()
}

/// `IndexMap::len`: the number of entries.
#[verifier::external_body]
pub fn node_map_len(m: &IndexMap<String, NodeInfo>) -> (n: usize)
    ensures
        n == node_entries(*m).len(),
{
    m.len()
}

/// `IndexMap::get_index`: the entry at position `i`, if any.
#[verifier::external_body]
pub fn node_map_get_index(m: &IndexMap<String, NodeInfo>, i: usize) -> (r: Option<(&String, &NodeInfo)>)
    ensures
        r is Some == (i < node_entries(*m).len()),
        r matches Some(p) ==> p.0@ == node_entries(*m)[i as int].0 && *p.1 == node_entries(*m)[i as int].1,
        r matches Some(p) ==> forall|j: int|
            0 <= j < node_entries(*m).len() && j != i ==> #[trigger] node_entries(*m)[j].0 != p.0@,
{
    m.get_index(i)
}

/// `IndexMap::get`: the node stored under id `k`, if any.
#[verifier::external_body]
pub fn node_map_get<'a>(m: &'a IndexMap<String, NodeInfo>, k: &str) -> (r: Option<&'a NodeInfo>)
    ensures
        match r {
            Some(v) => value_of(node_entries(*m), k@) == Some(*v),
            None => value_of(node_entries(*m), k@) is None,
        },
{
    m.get(k)
}

/// `IndexMap::contains_key`: whether some entry has id `k`.
#[verifier::external_body]
pub fn node_map_contains_key(m: &IndexMap<String, NodeInfo>, k: &str) -> (b: bool)
    ensures
        b == has_key(node_entries(*m), k@),
{
    m.contains_key(k)
}

/// `IndexMap::insert`: an existing id keeps its position and takes the new
/// node; otherwise the entry is appended.
#[verifier::external_body]
pub fn node_map_insert(m: &mut IndexMap<String, NodeInfo>, k: String, v: NodeInfo)
    ensures
        node_entries(*final(m)) == insert_entry(node_entries(*old(m)), k@, v),
{
    m.insert(k, v);
}

/// `t` with `e` inserted after the last entry whose key is not greater than
/// `e`'s (for `t` in key order, the result is in key order too).
pub open spec fn insert_sorted<V>(t: Seq<(Seq<char>, V)>, e: (Seq<char>, V)) -> Seq<(Seq<char>, V)>
    decreases t.len(),
{
    if t.len() == 0 {
        seq![e]
    } else if seq_less(e.0, t.last().0) {
        insert_sorted(t.drop_last(), e).push(t.last())
    } else {
        t.push(e)
    }
}

/// The entries of `s` in increasing key order, entries with equal keys in
/// their original order (a stable sort by key).
pub open spec fn sorted_by_key<V>(s: Seq<(Seq<char>, V)>) -> Seq<(Seq<char>, V)>
    decreases s.len(),
{
    if s.len() == 0 {
        s
    } else {
        insert_sorted(sorted_by_key(s.drop_last()), s.last())
    }
}

/// `IndexMap::sort_keys`: the entries sorted by key, stably (the standard
/// library's `sort_by` on the entries, which is stable), keys compared as
/// `String`s, that is code point by code point (`seq_less`).
#[verifier::external_body]
pub fn node_map_sort_keys(m: &mut IndexMap<String, NodeInfo>)
    ensures
        node_entries(*final(m)) == sorted_by_key(node_entries(*old(m))),
{
    m.sort_keys();
}

} // verus!

verus! {

// ---------------------------------------------------------------------------
// IndexMap<String, Vec<String>> (adjacency lists)
// ---------------------------------------------------------------------------

/// The entries of an adjacency map: a source id and its target ids, in insertion order.
pub uninterp spec fn adj_entries(m: IndexMap<String, Vec<String>>) -> Seq<(Seq<char>, Seq<Seq<char>>)>;

pub open spec fn str_views(v: Seq<String>) -> Seq<Seq<char>> {
    v.map_values(|s: String| s@)
}

/// `IndexMap::new`: the new map has no entries.
#[verifier::external_body]
pub fn adj_map_new() -> (m: IndexMap<String, Vec<String>>)
    ensures
        adj_entries(m) == Seq::<(Seq<char>, Seq<Seq<char>>)>::empty(),
{
    IndexMap::new()
}

/// `IndexMap::len`: the number of entries.
#[verifier::external_body]
pub fn adj_map_len(m: &IndexMap<String, Vec<String>>) -> (n: usize)
    ensures
        n == adj_entries(*m).len(),
{
    m.len()
}

/// `IndexMap::get_index`: the entry at position `i`, if any.
#[verifier::external_body]
pub fn adj_map_get_index(m: &IndexMap<String, Vec<String>>, i: usize) -> (r: Option<(&String, &Vec<String>)>)
    ensures
        r is Some == (i < adj_entries(*m).len()),
        r matches Some(p) ==> p.0@ == adj_entries(*m)[i as int].0 && str_views(p.1@) == adj_entries(*m)[i as int].1,
{
    m.get_index(i)
}

/// `IndexMap::get_index_of`: the position of the entry with key `k`, if any.
#[verifier::external_body]
pub fn adj_map_get_index_of(m: &IndexMap<String, Vec<String>>, k: &str) -> (r: Option<usize>)
    ensures
        match r {
            Some(i) => i as int == find_key(adj_entries(*m), k@),
            None => find_key(adj_entries(*m), k@) == -1,
        },
{
    m.get_index_of(k)
}

/// `IndexMap::insert`: an existing key keeps its position and takes the new
/// value; otherwise the entry is appended.
#[verifier::external_body]
pub fn adj_map_insert(m: &mut IndexMap<String, Vec<String>>, k: String, v: Vec<String>)
    ensures
        adj_entries(*final(m)) == insert_entry(adj_entries(*old(m)), k@, str_views(v@)),
{
    m.insert(k, v);
}

/// `IndexMap`'s `IndexMut<usize>` (then `Vec::push`): appends `t` to the value at position `i`.
#[verifier::external_body]
pub fn adj_map_push_at(m: &mut IndexMap<String, Vec<String>>, i: usize, t: String)
    requires
        i < adj_entries(*old(m)).len(),
    ensures
        adj_entries(*final(m)) == adj_entries(*old(m)).update(
            i as int,
            (adj_entries(*old(m))[i as int].0, adj_entries(*old(m))[i as int].1.push(t@)),
        ),
{
    m[i].push(t);
}

} // verus!

verus! {

// ---------------------------------------------------------------------------
// IndexMap<String, usize> (node id to position)
// ---------------------------------------------------------------------------

/// The entries of an id-to-position map, in insertion order.
pub uninterp spec fn idx_entries(m: IndexMap<String, usize>) -> Seq<(Seq<char>, usize)>;

/// `IndexMap::new`: the new map has no entries.
#[verifier::external_body]
pub fn idx_map_new() -> (m: IndexMap<String, usize>)
    ensures
        idx_entries(m) == Seq::<(Seq<char>, usize)>::empty(),
{
    IndexMap::new()
}

/// `IndexMap::get` (copied out): the position stored under `k`, if any.
#[verifier::external_body]
pub fn idx_map_get(m: &IndexMap<String, usize>, k: &str) -> (r: Option<usize>)
    ensures
        r == value_of(idx_entries(*m), k@),
{
    m.get(k).copied()
}

/// `IndexMap::insert`: an existing key keeps its position and takes the new
/// value; otherwise the entry is appended.
#[verifier::external_body]
pub fn idx_map_insert(m: &mut IndexMap<String, usize>, k: String, v: usize)
    ensures
        idx_entries(*final(m)) == insert_entry(idx_entries(*old(m)), k@, v),
{
    m.insert(k, v);
}

} // verus!

verus! {

// ---------------------------------------------------------------------------
// IndexMap<String, DiffNode> (diff results)
// ---------------------------------------------------------------------------

/// The entries of a diff node map, in insertion order.
pub uninterp spec fn diff_entries(m: IndexMap<String, crate::algorithm::diff::DiffNode>) -> Seq<(Seq<char>, crate::algorithm::diff::DiffNode)>;

/// `IndexMap::new`: the new map has no entries.
#[verifier::external_body]
pub fn diff_map_new() -> (m: IndexMap<String, crate::algorithm::diff::DiffNode>)
    ensures
        diff_entries(m) == Seq::<(Seq<char>, crate::algorithm::diff::DiffNode)>::empty(),
{
    IndexMap::new()
}

/// `IndexMap::len`: the number of entries.
#[verifier::external_body]
pub fn diff_map_len(m: &IndexMap<String, crate::algorithm::diff::DiffNode>) -> (n: usize)
    ensures
        n == diff_entries(*m).len(),
{
    m.len()
}

/// `IndexMap::get_index`: the entry at position `i`, if any.
#[verifier::external_body]
pub fn diff_map_get_index(m: &IndexMap<String, crate::algorithm::diff::DiffNode>, i: usize) -> (r: Option<(&String, &crate::algorithm::diff::DiffNode)>)
    ensures
        r is Some == (i < diff_entries(*m).len()),
        r matches Some(p) ==> p.0@ == diff_entries(*m)[i as int].0 && *p.1 == diff_entries(*m)[i as int].1,
{
    m.get_index(i)
}

/// `IndexMap::insert`: an existing id keeps its position and takes the new
/// value; otherwise the entry is appended.
#[verifier::external_body]
pub fn diff_map_insert(m: &mut IndexMap<String, crate::algorithm::diff::DiffNode>, k: String, v: crate::algorithm::diff::DiffNode)
    ensures
        diff_entries(*final(m)) == insert_entry(diff_entries(*old(m)), k@, v),
{
    m.insert(k, v);
}

} // verus!

verus! {

/// `IndexMap::get`: the diff node stored under id `k`, if any.
#[verifier::external_body]
pub fn diff_map_get<'a>(m: &'a IndexMap<String, crate::algorithm::diff::DiffNode>, k: &str) -> (r: Option<&'a crate::algorithm::diff::DiffNode>)
    ensures
        match r {
            Some(v) => value_of(diff_entries(*m), k@) == Some(*v),
            None => value_of(diff_entries(*m), k@) is None,
        },
{
    m.get(k)
}

} // verus!

verus! {

// ---------------------------------------------------------------------------
// IndexMap<(String, String), usize> (edge endpoints to position)
// ---------------------------------------------------------------------------

/// The positions stored in a map keyed by pairs of strings, by key.
pub uninterp spec fn pair_positions(m: IndexMap<(String, String), usize>) -> Map<(Seq<char>, Seq<char>), usize>;

/// `IndexMap::new`: the new map has no entries.
#[verifier::external_body]
pub fn pair_map_new() -> (m: IndexMap<(String, String), usize>)
    ensures
        forall|k: (Seq<char>, Seq<char>)| !pair_positions(m).dom().contains(k),
{
    IndexMap::new()
}

/// `IndexMap::get` (copied out): the position stored under `(a, b)`, if any.
#[verifier::external_body]
pub fn pair_map_get(m: &IndexMap<(String, String), usize>, a: &str, b: &str) -> (r: Option<usize>)
    ensures
        match r {
            Some(v) => pair_positions(*m).dom().contains((a@, b@)) && pair_positions(*m)[(a@, b@)] == v,
            None => !pair_positions(*m).dom().contains((a@, b@)),
        },
{
    m.get(&(a.to_string(), b.to_string())).copied()
}

/// `IndexMap::insert`: the key `(a, b)` now maps to `v`; other keys keep theirs.
#[verifier::external_body]
pub fn pair_map_insert(m: &mut IndexMap<(String, String), usize>, a: String, b: String, v: usize)
    ensures
        pair_positions(*final(m)) == pair_positions(*old(m)).insert((a@, b@), v),
{
    m.insert((a, b), v);
}

} // verus!
