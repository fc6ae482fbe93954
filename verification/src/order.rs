//! The mathematical model of a dependency graph and of its topological
//! orders, together with the lemmas that relate the model to the sorted
//! association lists the executable code works on.

use vstd::prelude::*;

verus! {

/// `x` occurs in `ord` before position `before`.
pub open spec fn in_prefix(ord: Seq<u32>, before: int, x: u32) -> bool {
    exists|p: int| 0 <= p < before && ord[p] == x
}

/// Every predecessor named in `srcs` occurs in `ord` before position `before`.
pub open spec fn preceded_by(ord: Seq<u32>, before: int, srcs: Seq<u32>) -> bool {
    forall|k: int| 0 <= k < srcs.len() ==> in_prefix(ord, before, #[trigger] srcs[k])
}

/// `preceded_by` only looks below `before`, so it carries over to any
/// sequence that agrees with the original on that prefix.
pub proof fn lemma_preceded_by_prefix(short: Seq<u32>, long: Seq<u32>, before: int, srcs: Seq<u32>)
    requires
        0 <= before <= short.len() <= long.len(),
        forall|p: int| 0 <= p < short.len() ==> long[p] == #[trigger] short[p],
        preceded_by(short, before, srcs),
    ensures
        preceded_by(long, before, srcs),
{
    assert forall|k: int| 0 <= k < srcs.len() implies in_prefix(long, before, #[trigger] srcs[k]) by {
        assert(in_prefix(short, before, srcs[k]));
        let p2 = choose|p2: int| 0 <= p2 < before && short[p2] == srcs[k];
        assert(long[p2] == short[p2]);
        assert(long[p2] == srcs[k]);
        assert(in_prefix(long, before, srcs[k]));
    }
}

/// `ord` is a topological order of the graph `g` (a map from identifier to
/// the sequence of predecessor identifiers): it lists every identifier of
/// `g` exactly once, and each node appears only after all of its
/// predecessors.
pub open spec fn valid_order(g: Map<u32, Seq<u32>>, ord: Seq<u32>) -> bool {
    &&& ord.no_duplicates()
    &&& ord.to_set() == g.dom()
    &&& forall|i: int| 0 <= i < ord.len() ==> preceded_by(ord, i, g[#[trigger] ord[i]])
}

/// No node of `g` lists the same predecessor twice.
pub open spec fn sources_unique(g: Map<u32, Seq<u32>>) -> bool {
    forall|id: u32| g.dom().contains(id) ==> (#[trigger] g[id]).no_duplicates()
}

/// The graphs on which the sort succeeds: a topological order exists, and no
/// predecessor list repeats an entry.  (A repeated entry is struck out only
/// once per completed predecessor, so its node would never reach in-degree
/// zero even when the graph is otherwise acyclic.)
pub open spec fn sortable(g: Map<u32, Seq<u32>>) -> bool {
    sources_unique(g) && exists|ord: Seq<u32>| valid_order(g, ord)
}

/// `path` walks backwards through predecessor lists and returns to its
/// start: the predecessors of each element include the next element, and the
/// predecessors of the last element include the first.
pub open spec fn is_cycle(g: Map<u32, Seq<u32>>, path: Seq<u32>) -> bool {
    &&& path.len() > 0
    &&& forall|i: int| 0 <= i < path.len() ==> g.dom().contains(#[trigger] path[i])
    &&& forall|i: int|
        0 <= i < path.len() ==> (#[trigger] g[path[i]]).contains(
            path[if i + 1 < path.len() { i + 1 } else { 0int }],
        )
}

/// The index at which `x` occurs in `ord`; meaningful when `ord` has no
/// duplicates and contains `x`.
spec fn position_of(ord: Seq<u32>, x: u32) -> int {
    ord.index_of(x)
}

proof fn lemma_found_position(ord: Seq<u32>, x: u32)
    requires
        ord.contains(x),
    ensures
        0 <= position_of(ord, x) < ord.len(),
        ord[position_of(ord, x)] == x,
{
    assert(exists|i: int| 0 <= i < ord.len() && ord[i] == x);
}

/// In a topological order an edge always points forward: if `b` is a
/// predecessor of `a`, then `b` stands strictly before `a`.
proof fn lemma_edge_precedes(g: Map<u32, Seq<u32>>, ord: Seq<u32>, a: u32, b: u32)
    requires
        valid_order(g, ord),
        ord.contains(a),
        g[a].contains(b),
    ensures
        ord.contains(b),
        position_of(ord, b) < position_of(ord, a),
{
    lemma_found_position(ord, a);
    let ia = position_of(ord, a);
    assert(preceded_by(ord, ia, g[ord[ia]]));
    let k = choose|k: int| 0 <= k < g[a].len() && g[a][k] == b;
    assert(in_prefix(ord, ia, g[a][k]));
    let p = choose|p: int| 0 <= p < ia && ord[p] == g[a][k];
    assert(ord[p] == b);
    assert(ord.contains(b));
    lemma_found_position(ord, b);
    assert(ord[position_of(ord, b)] == ord[p]);
    assert(position_of(ord, b) == p);
}

proof fn lemma_cycle_descent(g: Map<u32, Seq<u32>>, ord: Seq<u32>, path: Seq<u32>, m: int)
    requires
        valid_order(g, ord),
        is_cycle(g, path),
        0 <= m < path.len(),
    ensures
        ord.contains(path[m]),
        position_of(ord, path[m]) <= position_of(ord, path[0]) - m,
    decreases m,
{
    assert(g.dom().contains(path[m]));
    assert(ord.to_set().contains(path[m]));
    assert(ord.contains(path[m]));
    if m > 0 {
        lemma_cycle_descent(g, ord, path, m - 1);
        assert(g[path[m - 1]].contains(path[m]));
        lemma_edge_precedes(g, ord, path[m - 1], path[m]);
    }
}

/// A graph with a cycle among its predecessor lists has no topological order
/// at all, and in particular is not sortable.
pub proof fn lemma_cycle_not_sortable(g: Map<u32, Seq<u32>>, path: Seq<u32>)
    requires
        is_cycle(g, path),
    ensures
        forall|ord: Seq<u32>| !valid_order(g, ord),
        !sortable(g),
{
    assert forall|ord: Seq<u32>| !valid_order(g, ord) by {
        if valid_order(g, ord) {
            let last = path.len() - 1;
            lemma_cycle_descent(g, ord, path, last);
            assert(g[path[last]].contains(path[0]));
            lemma_edge_precedes(g, ord, path[last], path[0]);
        }
    }
}

/// The mapping that a list of keys and a parallel list of values stand for.
pub open spec fn assoc_map<V>(ids: Seq<u32>, vals: Seq<V>) -> Map<u32, V> {
    Map::new(|id: u32| ids.contains(id), |id: u32| vals[ids.index_of(id)])
}

pub proof fn lemma_assoc_map_dom<V>(ids: Seq<u32>, vals: Seq<V>)
    ensures
        assoc_map(ids, vals).dom() == ids.to_set(),
{
    assert(assoc_map(ids, vals).dom() =~= ids.to_set());
}

pub proof fn lemma_assoc_map_index<V>(ids: Seq<u32>, vals: Seq<V>, j: int)
    requires
        ids.no_duplicates(),
        ids.len() == vals.len(),
        0 <= j < ids.len(),
    ensures
        assoc_map(ids, vals).dom().contains(ids[j]),
        assoc_map(ids, vals)[ids[j]] == vals[j],
{
    assert(ids.contains(ids[j]));
    let i = ids.index_of(ids[j]);
    assert(0 <= i < ids.len() && ids[i] == ids[j]);
    assert(i == j);
}

/// Replacing the value stored under an existing key is, at the level of the
/// represented mapping, an insertion over that key.
pub proof fn lemma_assoc_map_update<V>(ids: Seq<u32>, vals: Seq<V>, j: int, v: V)
    requires
        ids.no_duplicates(),
        ids.len() == vals.len(),
        0 <= j < ids.len(),
    ensures
        assoc_map(ids, vals.update(j, v)) == assoc_map(ids, vals).insert(ids[j], v),
{
    let m1 = assoc_map(ids, vals.update(j, v));
    let m2 = assoc_map(ids, vals).insert(ids[j], v);
    assert(ids.contains(ids[j]));
    assert forall|k: u32| m1.dom().contains(k) implies #[trigger] m2.dom().contains(k) && m1[k]
        == m2[k] by {
        let i = ids.index_of(k);
        assert(0 <= i < ids.len() && ids[i] == k);
        if k == ids[j] {
            assert(i == j);
        } else {
            assert(i != j);
        }
    }
    assert forall|k: u32| m2.dom().contains(k) implies m1.dom().contains(k) by {}
    assert(m1 =~= m2);
}

/// Inserting a fresh key into an association list inserts it into the
/// represented mapping.
pub proof fn lemma_assoc_map_insert<V>(ids: Seq<u32>, vals: Seq<V>, j: int, id: u32, v: V)
    requires
        ids.no_duplicates(),
        ids.len() == vals.len(),
        0 <= j <= ids.len(),
        !ids.contains(id),
    ensures
        ids.insert(j, id).no_duplicates(),
        assoc_map(ids.insert(j, id), vals.insert(j, v)) == assoc_map(ids, vals).insert(id, v),
{
    ids.insert_ensures(j, id);
    vals.insert_ensures(j, v);
    let ids2 = ids.insert(j, id);
    let vals2 = vals.insert(j, v);
    let m1 = assoc_map(ids2, vals2);
    let m2 = assoc_map(ids, vals).insert(id, v);
    assert forall|p: int, q: int|
        0 <= p < ids2.len() && 0 <= q < ids2.len() && p != q implies ids2[p] != ids2[q] by {
        if p != j && q != j {
            let p0 = if p < j { p } else { p - 1 };
            let q0 = if q < j { q } else { q - 1 };
            assert(ids2[p] == ids[p0] && ids2[q] == ids[q0]);
        } else if p == j {
            let q0 = if q < j { q } else { q - 1 };
            assert(ids2[q] == ids[q0]);
            assert(ids.contains(ids[q0]));
        } else {
            let p0 = if p < j { p } else { p - 1 };
            assert(ids2[p] == ids[p0]);
            assert(ids.contains(ids[p0]));
        }
    }
    assert(ids2.no_duplicates());
    assert forall|k: u32| m1.dom().contains(k) implies #[trigger] m2.dom().contains(k) && m1[k]
        == m2[k] by {
        let i2 = ids2.index_of(k);
        assert(0 <= i2 < ids2.len() && ids2[i2] == k);
        if k == id {
            assert(i2 == j) by {
                if i2 != j {
                    let i0 = if i2 < j { i2 } else { i2 - 1 };
                    assert(ids2[i2] == ids[i0]);
                    assert(ids.contains(ids[i0]));
                }
            }
            assert(m1[k] == vals2[j]);
        } else {
            assert(i2 != j);
            let i0 = if i2 < j { i2 } else { i2 - 1 };
            assert(ids2[i2] == ids[i0] && vals2[i2] == vals[i0]);
            assert(ids.contains(k));
            let i = ids.index_of(k);
            assert(0 <= i < ids.len() && ids[i] == k);
            assert(i == i0);
            assert(m1[k] == vals[i0]);
            assert(m2[k] == vals[i]);
        }
    }
    assert forall|k: u32| m2.dom().contains(k) implies m1.dom().contains(k) by {
        if k == id {
            assert(ids2[j] == id);
            assert(ids2.contains(k));
        } else {
            assert(ids.contains(k));
            let i = ids.index_of(k);
            assert(0 <= i < ids.len() && ids[i] == k);
            let p = if i < j { i } else { i + 1 };
            assert(ids2[p] == k);
            assert(ids2.contains(k));
        }
    }
    assert(m1 =~= m2);
}

/// A duplicate-free list whose elements all occur in another duplicate-free
/// list is no longer than it.
pub proof fn lemma_unique_subset_len(a: Seq<u32>, b: Seq<u32>)
    requires
        a.no_duplicates(),
        b.no_duplicates(),
        forall|p: int| 0 <= p < a.len() ==> b.contains(#[trigger] a[p]),
    ensures
        a.len() <= b.len(),
{
    broadcast use vstd::seq_lib::seq_to_set_is_finite;

    a.unique_seq_to_set();
    b.unique_seq_to_set();
    assert forall|x: u32| a.to_set().contains(x) implies b.to_set().contains(x) by {
        assert(a.contains(x));
        let p = choose|p: int| 0 <= p < a.len() && a[p] == x;
        assert(b.contains(a[p]));
    }
    vstd::set_lib::lemma_len_subset(a.to_set(), b.to_set());
}

} // verus!
