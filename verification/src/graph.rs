//! The graph container and the topological sort.

use crate::node::DagNode;
use crate::order::assoc_map;
use crate::order::in_prefix;
use crate::order::lemma_assoc_map_dom;
use crate::order::lemma_assoc_map_index;
use crate::order::lemma_assoc_map_insert;
use crate::order::lemma_assoc_map_update;
use crate::order::lemma_preceded_by_prefix;
use crate::order::lemma_unique_subset_len;
use crate::order::preceded_by;
use crate::order::sortable;
use crate::order::sources_unique;
use crate::order::valid_order;
use vstd::multiset::Multiset;
use vstd::prelude::*;

verus! {

/// The single failure of [`DAG::add_node`]: committing the candidate node
/// would leave the graph without any topological order.
#[derive(Debug, Clone, Copy, PartialEq, Eq)]
pub struct CycleDetected;

/// The predecessor lists of a sequence of nodes, in the same order.
pub open spec fn sources_of<T: Copy + PartialEq>(ns: Seq<DagNode<T>>) -> Seq<Seq<u32>> {
    ns.map_values(|nd: DagNode<T>| nd.spec_sources())
}

/// An ordered mapping from unique integer identifiers to nodes.  The entries
/// are kept sorted by strictly ascending identifier, so iteration order is
/// ascending key order and every well-formed graph has unique keys.
#[derive(Debug, Clone, PartialEq)]
pub struct DAG<T: Copy + PartialEq> {
    nodes: Vec<(u32, DagNode<T>)>,
}

impl<T: Copy + PartialEq> DAG<T> {
    /// The identifiers, in storage order.
    pub closed spec fn ids(&self) -> Seq<u32> {
        self.nodes@.map_values(|e: (u32, DagNode<T>)| e.0)
    }

    /// The nodes, in storage order.
    pub closed spec fn node_seq(&self) -> Seq<DagNode<T>> {
        self.nodes@.map_values(|e: (u32, DagNode<T>)| e.1)
    }

    /// Well-formedness: identifiers strictly ascend, hence are unique.
    pub closed spec fn wf(&self) -> bool {
        forall|a: int, b: int|
            0 <= a < b < self.nodes@.len() ==> (#[trigger] self.nodes@[a]).0
                < (#[trigger] self.nodes@[b]).0
    }

    /// The graph as a mapping from identifier to stored node.
    pub closed spec fn as_map(&self) -> Map<u32, DagNode<T>> {
        assoc_map(self.ids(), self.node_seq())
    }

    /// The graph as a mapping from identifier to predecessor list: the form
    /// the sort is specified against.
    pub closed spec fn graph(&self) -> Map<u32, Seq<u32>> {
        assoc_map(self.ids(), sources_of(self.node_seq()))
    }

    proof fn lemma_ids_shape(&self)
        requires
            self.wf(),
        ensures
            self.ids().len() == self.nodes@.len(),
            self.node_seq().len() == self.nodes@.len(),
            self.ids().no_duplicates(),
            forall|k: int| 0 <= k < self.nodes@.len() ==> self.ids()[k] == (#[trigger] self.nodes@[k]).0,
            forall|k: int|
                0 <= k < self.nodes@.len() ==> self.node_seq()[k] == (#[trigger] self.nodes@[k]).1,
    {
        assert forall|a: int, b: int|
            0 <= a < self.ids().len() && 0 <= b < self.ids().len() && a != b implies self.ids()[a]
            != self.ids()[b] by {
            if a < b {
                assert(self.nodes@[a].0 < self.nodes@[b].0);
            } else {
                assert(self.nodes@[b].0 < self.nodes@[a].0);
            }
        }
    }

    /// Both views have the same domain, and the predecessor list the graph
    /// view records for an identifier is exactly the stored node's list: an
    /// in-degree lookup and the stored node's own length always agree.
    pub proof fn lemma_views_agree(&self, id: u32)
        requires
            self.wf(),
        ensures
            self.graph().dom() == self.as_map().dom(),
            self.graph().dom().contains(id) ==> self.graph()[id] == self.as_map()[id].spec_sources(),
    {
        self.lemma_ids_shape();
        lemma_assoc_map_dom(self.ids(), self.node_seq());
        lemma_assoc_map_dom(self.ids(), sources_of(self.node_seq()));
        if self.graph().dom().contains(id) {
            assert(self.ids().contains(id));
            let j = choose|j: int| 0 <= j < self.ids().len() && self.ids()[j] == id;
            lemma_assoc_map_index(self.ids(), self.node_seq(), j);
            lemma_assoc_map_index(self.ids(), sources_of(self.node_seq()), j);
        }
    }

    /// An empty graph.
    pub fn new() -> (r: Self)
        ensures
            r.wf(),
            r.graph() == Map::<u32, Seq<u32>>::empty(),
            r.as_map() == Map::<u32, DagNode<T>>::empty(),
    {
        let r = DAG { nodes: Vec::new() };
        proof {
            assert(r.graph() =~= Map::<u32, Seq<u32>>::empty());
            assert(r.as_map() =~= Map::<u32, DagNode<T>>::empty());
        }
        r
    }

    /// The storage index holding `id`, if any.
    fn find_index(&self, id: u32) -> (r: Option<usize>)
        ensures
            match r {
                Some(p) => p < self.nodes@.len() && self.nodes@[p as int].0 == id,
                None => !self.ids().contains(id),
            },
    {
        let mut i: usize = 0;
        while i < self.nodes.len()
            invariant
                i <= self.nodes@.len(),
                forall|k: int| 0 <= k < i ==> (#[trigger] self.nodes@[k]).0 != id,
            decreases self.nodes@.len() - i,
        {
            if self.nodes[i].0 == id {
                return Some(i);
            }
            i = i + 1;
        }
        proof {
            assert forall|k: int| 0 <= k < self.ids().len() implies self.ids()[k] != id by {
                assert(self.nodes@[k].0 != id);
            }
        }
        None
    }

    /// The first storage index whose identifier is not below `id`.
    fn lower_bound(&self, id: u32) -> (p: usize)
        requires
            self.wf(),
        ensures
            p <= self.nodes@.len(),
            forall|k: int| 0 <= k < p ==> (#[trigger] self.nodes@[k]).0 < id,
            forall|k: int| p <= k < self.nodes@.len() ==> (#[trigger] self.nodes@[k]).0 >= id,
    {
        let mut i: usize = 0;
        while i < self.nodes.len()
            invariant
                self.wf(),
                i <= self.nodes@.len(),
                forall|k: int| 0 <= k < i ==> (#[trigger] self.nodes@[k]).0 < id,
            decreases self.nodes@.len() - i,
        {
            if self.nodes[i].0 >= id {
                proof {
                    assert forall|k: int|
                        i <= k < self.nodes@.len() implies (#[trigger] self.nodes@[k]).0 >= id by {
                        if k > i {
                            assert(self.nodes@[i as int].0 < self.nodes@[k].0);
                        }
                    }
                }
                return i;
            }
            i = i + 1;
        }
        i
    }

    /// The number of predecessors currently recorded for `id`, or `None`
    /// when `id` is absent.
    pub fn in_degree(&self, node: u32) -> (r: Option<usize>)
        requires
            self.wf(),
        ensures
            (r is Some) <==> self.graph().dom().contains(node),
            r matches Some(d) ==> d == self.graph()[node].len(),
    {
        proof {
            self.lemma_ids_shape();
            lemma_assoc_map_dom(self.ids(), sources_of(self.node_seq()));
        }
        match self.find_index(node) {
            Some(p) => {
                proof {
                    lemma_assoc_map_index(self.ids(), sources_of(self.node_seq()), p as int);
                }
                Some(self.nodes[p].1.sources_len())
            },
            None => None,
        }
    }

    /// Inserts or replaces the node stored under `node_id` without any
    /// validity check, returning the node previously stored there.  A graph
    /// extended this way may have lost every topological order; `sort` then
    /// reports `None`.  [`DAG::add_node`] is the checked insertion.
    pub fn insert_unchecked(&mut self, node_id: u32, node: DagNode<T>) -> (r: Option<DagNode<T>>)
        requires
            old(self).wf(),
        ensures
            final(self).wf(),
            final(self).as_map() == old(self).as_map().insert(node_id, node),
            final(self).graph() == old(self).graph().insert(node_id, node.spec_sources()),
            r == (if old(self).as_map().dom().contains(node_id) {
                Some(old(self).as_map()[node_id])
            } else {
                None::<DagNode<T>>
            }),
    {
        proof {
            old(self).lemma_ids_shape();
            lemma_assoc_map_dom(old(self).ids(), old(self).node_seq());
        }
        let ghost old_ids = old(self).ids();
        let ghost old_nodes = old(self).node_seq();
        let p = self.lower_bound(node_id);
        let found = p < self.nodes.len() && self.nodes[p].0 == node_id;
        if found {
            let prev = self.nodes.remove(p);
            self.nodes.insert(p, (node_id, node));
            proof {
                let j = p as int;
                old(self).nodes@.remove_ensures(j);
                old(self).nodes@.remove(j).insert_ensures(j, (node_id, node));
                assert(self.nodes@ =~= old(self).nodes@.update(j, (node_id, node)));
                assert(self.ids() =~= old_ids);
                assert(self.node_seq() =~= old_nodes.update(j, node));
                assert(sources_of(self.node_seq()) =~= sources_of(old_nodes).update(
                    j,
                    node.spec_sources(),
                ));
                assert(self.wf());
                lemma_assoc_map_update(old_ids, old_nodes, j, node);
                lemma_assoc_map_update(old_ids, sources_of(old_nodes), j, node.spec_sources());
                lemma_assoc_map_index(old_ids, old_nodes, j);
                assert(old_ids.contains(node_id));
            }
            Some(prev.1)
        } else {
            self.nodes.insert(p, (node_id, node));
            proof {
                let j = p as int;
                assert forall|k: int| 0 <= k < old_ids.len() implies old_ids[k] != node_id by {
                    if k < j {
                        assert(old(self).nodes@[k].0 < node_id);
                    } else {
                        assert(old(self).nodes@[k].0 >= node_id);
                        if k == j {
                            assert(old(self).nodes@[k].0 != node_id);
                        } else {
                            assert(old(self).nodes@[j].0 < old(self).nodes@[k].0);
                        }
                    }
                }
                assert(!old_ids.contains(node_id));
                old(self).nodes@.insert_ensures(j, (node_id, node));
                old_ids.insert_ensures(j, node_id);
                old_nodes.insert_ensures(j, node);
                assert(self.ids() =~= old_ids.insert(j, node_id));
                assert(self.node_seq() =~= old_nodes.insert(j, node));
                assert(sources_of(self.node_seq()) =~= sources_of(old_nodes).insert(
                    j,
                    node.spec_sources(),
                ));
                assert forall|a: int, b: int|
                    0 <= a < b < self.nodes@.len() implies (#[trigger] self.nodes@[a]).0
                    < (#[trigger] self.nodes@[b]).0 by {
                    let a0 = if a < j { a } else { a - 1 };
                    let b0 = if b < j { b } else { b - 1 };
                    if a == j {
                        assert(old(self).nodes@[b0].0 >= node_id);
                        assert(old(self).nodes@[b0].0 != node_id);
                    } else if b == j {
                        assert(old(self).nodes@[a0].0 < node_id);
                    } else if a0 < b0 {
                        assert(old(self).nodes@[a0].0 < old(self).nodes@[b0].0);
                    } else {
                        assert(a0 == b0 && a < j && j < b);
                        assert(old(self).nodes@[a0].0 < node_id);
                        assert(old(self).nodes@[b0].0 >= node_id);
                    }
                }
                lemma_assoc_map_insert(old_ids, old_nodes, j, node_id, node);
                lemma_assoc_map_insert(
                    old_ids,
                    sources_of(old_nodes),
                    j,
                    node_id,
                    node.spec_sources(),
                );
            }
            None
        }
    }
}

/// `true` iff `x` occurs in `v`.
fn has_elem(v: &Vec<u32>, x: u32) -> (r: bool)
    ensures
        r == v@.contains(x),
{
    let mut i: usize = 0;
    while i < v.len()
        invariant
            i <= v@.len(),
            forall|k: int| 0 <= k < i ==> v@[k] != x,
        decreases v@.len() - i,
    {
        if v[i] == x {
            proof {
                assert(v@.contains(x));
            }
            return true;
        }
        i = i + 1;
    }
    false
}

/// The index of the first occurrence of `x` in `v`, if any.
fn first_index_of(v: &Vec<u32>, x: u32) -> (r: Option<usize>)
    ensures
        match r {
            Some(p) => p < v@.len() && v@[p as int] == x,
            None => !v@.contains(x),
        },
{
    let mut i: usize = 0;
    while i < v.len()
        invariant
            i <= v@.len(),
            forall|k: int| 0 <= k < i ==> v@[k] != x,
        decreases v@.len() - i,
    {
        if v[i] == x {
            return Some(i);
        }
        i = i + 1;
    }
    None
}

/// A fresh list with the same contents.
fn copy_list(v: &Vec<u32>) -> (r: Vec<u32>)
    ensures
        r@ == v@,
{
    let mut r: Vec<u32> = Vec::new();
    let mut i: usize = 0;
    while i < v.len()
        invariant
            i <= v@.len(),
            r@ == v@.take(i as int),
        decreases v@.len() - i,
    {
        r.push(v[i]);
        proof {
            assert(r@ =~= v@.take(i as int + 1));
        }
        i = i + 1;
    }
    proof {
        assert(v@.take(v@.len() as int) =~= v@);
    }
    r
}

/// The sequence views of a list of predecessor lists.
spec fn deep(rows: Seq<Vec<u32>>) -> Seq<Seq<u32>> {
    rows.map_values(|r: Vec<u32>| r@)
}

/// After every identifier in `popped` (none of them repeated) has struck out
/// its first occurrence in `src`, the multiplicities left in the working
/// copy `w` are exactly these.
spec fn count_ok(src: Seq<u32>, popped: Seq<u32>, w: Seq<u32>) -> bool {
    forall|x: u32|
        #[trigger] w.to_multiset().count(x) == src.to_multiset().count(x) - (
        if popped.contains(x) && src.contains(x) {
            1int
        } else {
            0int
        })
}

/// Completeness of the strike-out process: once the popped identifiers are
/// exactly the queued ones, every node that a topological order can list has
/// in fact been queued.
proof fn lemma_kahn_complete(
    ids: Seq<u32>,
    ss: Seq<Seq<u32>>,
    ws: Seq<Seq<u32>>,
    qs: Seq<u32>,
    ord: Seq<u32>,
    m: int,
)
    requires
        ids.no_duplicates(),
        ss.len() == ids.len(),
        ws.len() == ids.len(),
        valid_order(assoc_map(ids, ss), ord),
        sources_unique(assoc_map(ids, ss)),
        forall|j: int| 0 <= j < ids.len() ==> count_ok(ss[j], qs, #[trigger] ws[j]),
        forall|j: int| 0 <= j < ids.len() ==> (qs.contains(#[trigger] ids[j]) <==> ws[j].len() == 0),
        0 <= m <= ord.len(),
    ensures
        forall|i: int| 0 <= i < m ==> qs.contains(#[trigger] ord[i]),
    decreases m,
{
    broadcast use vstd::seq_lib::group_to_multiset_ensures;
    broadcast use vstd::multiset::group_multiset_axioms;

    if m > 0 {
        lemma_kahn_complete(ids, ss, ws, qs, ord, m - 1);
        let g = assoc_map(ids, ss);
        let x = ord[m - 1];
        assert(ord.contains(x));
        assert(ord.to_set().contains(x));
        assert(g.dom().contains(x));
        lemma_assoc_map_dom(ids, ss);
        assert(ids.to_set().contains(x));
        assert(ids.contains(x));
        let j = choose|j: int| 0 <= j < ids.len() && ids[j] == x;
        lemma_assoc_map_index(ids, ss, j);
        assert(g[x] == ss[j]);
        assert(preceded_by(ord, m - 1, g[ord[m - 1]]));
        assert(g[x].no_duplicates());
        ss[j].lemma_multiset_has_no_duplicates();
        assert forall|y: u32| #[trigger] ws[j].to_multiset().count(y) == 0 by {
            assert(ws[j].to_multiset().count(y) == ss[j].to_multiset().count(y) - (
            if qs.contains(y) && ss[j].contains(y) {
                1int
            } else {
                0int
            }));
            if ss[j].contains(y) {
                assert(ss[j].to_multiset().count(y) > 0);
                assert(ss[j].to_multiset().contains(y));
                assert(ss[j].to_multiset().count(y) == 1);
                let k = choose|k: int| 0 <= k < ss[j].len() && ss[j][k] == y;
                assert(in_prefix(ord, m - 1, ss[j][k]));
                let p = choose|p: int| 0 <= p < m - 1 && ord[p] == ss[j][k];
                assert(qs.contains(ord[p]));
                assert(qs.contains(y));
            } else {
                assert(ss[j].to_multiset().count(y) == 0);
            }
        }
        assert(ws[j].to_multiset() =~= Multiset::<u32>::empty());
        assert(ws[j].len() == ws[j].to_multiset().len());
        assert(ws[j].len() == 0);
        assert(qs.contains(ids[j]));
    }
}

/// Kahn's algorithm over an association list of nodes: `ids[j]` is the
/// identifier of the node whose predecessor list is `srcs[j]`.  Pops the
/// queued in-degree-zero nodes in turn; each pop strikes the popped
/// identifier out of every remaining predecessor list (its first occurrence
/// only) and queues the nodes whose list just became empty.
fn kahn(ids: &Vec<u32>, srcs: &Vec<Vec<u32>>) -> (r: Option<Vec<u32>>)
    requires
        ids@.no_duplicates(),
        ids@.len() == srcs@.len(),
    ensures
        (r is Some) <==> sortable(assoc_map(ids@, deep(srcs@))),
        r matches Some(ord) ==> valid_order(assoc_map(ids@, deep(srcs@)), ord@),
{
    let ghost g = assoc_map(ids@, deep(srcs@));
    let n = ids.len();

    let mut work: Vec<Vec<u32>> = Vec::new();
    let mut queue: Vec<u32> = Vec::new();
    let mut i: usize = 0;
    while i < n
        invariant
            ids@.no_duplicates(),
            ids@.len() == n,
            srcs@.len() == n,
            i <= n,
            work@.len() == i,
            forall|jj: int| 0 <= jj < i ==> (#[trigger] work@[jj])@ == srcs@[jj]@,
            queue@.no_duplicates(),
            queue@.len() <= i,
            forall|p: int|
                0 <= p < queue@.len() ==> ids@.take(i as int).contains(#[trigger] queue@[p]),
            forall|jj: int|
                0 <= jj < i ==> (queue@.contains(#[trigger] ids@[jj]) <==> srcs@[jj]@.len() == 0),
        decreases n - i,
    {
        let ghost queue_b = queue@;
        let row = copy_list(&srcs[i]);
        let source_free = row.len() == 0;
        if source_free {
            proof {
                assert(!queue@.contains(ids@[i as int])) by {
                    if queue@.contains(ids@[i as int]) {
                        let p = choose|p: int|
                            0 <= p < queue@.len() && queue@[p] == ids@[i as int];
                        let pre = ids@.take(i as int);
                        assert(pre.contains(queue@[p]));
                        let jj = choose|jj: int| 0 <= jj < pre.len() && pre[jj] == queue@[p];
                        assert(ids@[jj] == ids@[i as int]);
                    }
                }
            }
            queue.push(ids[i]);
        }
        work.push(row);
        proof {
            assert forall|jj: int|
                0 <= jj < i + 1 implies (queue@.contains(#[trigger] ids@[jj]) <==> srcs@[jj]@.len()
                == 0) by {
                if source_free {
                    assert(queue@ == queue_b.push(ids@[i as int]));
                    assert(queue@[queue_b.len() as int] == ids@[i as int]);
                    if jj < i {
                        assert(queue@.contains(ids@[jj]) <==> queue_b.contains(ids@[jj])) by {
                            if queue@.contains(ids@[jj]) {
                                let p = choose|p: int|
                                    0 <= p < queue@.len() && queue@[p] == ids@[jj];
                                if p < queue_b.len() {
                                    assert(queue_b[p] == ids@[jj]);
                                } else {
                                    assert(ids@[i as int] == ids@[jj]);
                                }
                            }
                            if queue_b.contains(ids@[jj]) {
                                let p = choose|p: int|
                                    0 <= p < queue_b.len() && queue_b[p] == ids@[jj];
                                assert(queue@[p] == ids@[jj]);
                            }
                        }
                    } else {
                        assert(queue@.contains(ids@[jj]));
                    }
                } else {
                    if jj == i {
                        assert(!queue@.contains(ids@[jj])) by {
                            if queue@.contains(ids@[jj]) {
                                let p = choose|p: int|
                                    0 <= p < queue@.len() && queue@[p] == ids@[jj];
                                let pre = ids@.take(i as int);
                                assert(pre.contains(queue@[p]));
                                let j2 = choose|j2: int| 0 <= j2 < pre.len() && pre[j2] == queue@[p];
                                assert(ids@[j2] == ids@[jj]);
                            }
                        }
                    }
                }
            }
            assert forall|p: int|
                0 <= p < queue@.len() implies ids@.take(i as int + 1).contains(
                #[trigger] queue@[p]) by {
                let pre = ids@.take(i as int);
                let pre1 = ids@.take(i as int + 1);
                if p < queue_b.len() {
                    assert(pre.contains(queue_b[p]));
                    let jj = choose|jj: int| 0 <= jj < pre.len() && pre[jj] == queue_b[p];
                    assert(queue@[p] == queue_b[p]);
                    assert(pre1[jj] == ids@[jj]);
                    assert(pre1.contains(queue@[p]));
                } else {
                    assert(queue@[p] == ids@[i as int]);
                    assert(pre1[i as int] == ids@[i as int]);
                    assert(pre1.contains(queue@[p]));
                }
            }
            assert(queue@.no_duplicates()) by {
                if source_free {
                    assert forall|a: int, b: int|
                        0 <= a < queue@.len() && 0 <= b < queue@.len() && a != b implies queue@[a]
                        != queue@[b] by {
                        if a < queue_b.len() && b < queue_b.len() {
                            assert(queue_b[a] != queue_b[b]);
                        } else if a < queue_b.len() {
                            assert(queue@[b] == ids@[i as int]);
                            assert(!queue_b.contains(ids@[i as int]));
                            assert(queue_b[a] == queue@[a]);
                        } else {
                            assert(queue@[a] == ids@[i as int]);
                            assert(!queue_b.contains(ids@[i as int]));
                            assert(queue_b[b] == queue@[b]);
                        }
                    }
                }
            }
        }
        i = i + 1;
    }

    let mut head: usize = 0;
    proof {
        assert(queue@.take(0) =~= Seq::<u32>::empty());
        assert forall|j: int|
            0 <= j < n implies count_ok(srcs@[j]@, queue@.take(0), (#[trigger] work@[j])@) by {
            assert(work@[j]@ == srcs@[j]@);
            assert forall|x: u32| #[trigger] work@[j]@.to_multiset().count(x)
                == srcs@[j]@.to_multiset().count(x) - (
            if queue@.take(0).contains(x) && srcs@[j]@.contains(x) {
                1int
            } else {
                0int
            }) by {
                assert(!queue@.take(0).contains(x));
            }
        }
        assert forall|p: int| 0 <= p < queue@.len() implies ids@.contains(#[trigger] queue@[p]) by {
            assert(ids@.take(n as int).contains(queue@[p]));
            let pre = ids@.take(n as int);
            let jj = choose|jj: int| 0 <= jj < pre.len() && pre[jj] == queue@[p];
            assert(ids@[jj] == queue@[p]);
        }
        assert forall|p: int, j: int| #![trigger queue@[p], ids@[j]]
            0 <= p < queue@.len() && 0 <= j < n && ids@[j] == queue@[p] implies preceded_by(
            queue@,
            p,
            srcs@[j]@,
        ) by {
            assert(queue@.contains(ids@[j]));
            assert(srcs@[j]@.len() == 0);
        }
    }
    while head < queue.len()
        invariant
            ids@.no_duplicates(),
            ids@.len() == n,
            srcs@.len() == n,
            work@.len() == n,
            head <= queue@.len(),
            queue@.len() <= n,
            queue@.no_duplicates(),
            forall|p: int| 0 <= p < queue@.len() ==> ids@.contains(#[trigger] queue@[p]),
            forall|j: int|
                0 <= j < n ==> count_ok(srcs@[j]@, queue@.take(head as int), (#[trigger] work@[j])@),
            forall|j: int|
                0 <= j < n ==> (queue@.contains(#[trigger] ids@[j]) <==> work@[j]@.len() == 0),
            forall|p: int, j: int| #![trigger queue@[p], ids@[j]]
                0 <= p < queue@.len() && 0 <= j < n && ids@[j] == queue@[p] ==> preceded_by(
                    queue@,
                    p,
                    srcs@[j]@,
                ),
        decreases n - head,
    {
        let id = queue[head];
        let ghost head0 = head as int;
        let ghost popped_old = queue@.take(head0);
        let ghost popped_new = queue@.take(head0 + 1);
        proof {
            assert(popped_new =~= popped_old.push(id));
            assert(!popped_old.contains(id)) by {
                if popped_old.contains(id) {
                    let p = choose|p: int| 0 <= p < popped_old.len() && popped_old[p] == id;
                    assert(queue@[p] == queue@[head0]);
                }
            }
        }
        head = head + 1;
        let mut j: usize = 0;
        while j < n
            invariant
                ids@.no_duplicates(),
                ids@.len() == n,
                srcs@.len() == n,
                work@.len() == n,
                j <= n,
                head as int == head0 + 1,
                head <= queue@.len(),
                queue@.len() <= n,
                queue@.no_duplicates(),
                queue@.take(head as int) == popped_new,
                popped_new == popped_old.push(id),
                !popped_old.contains(id),
                forall|p: int| 0 <= p < queue@.len() ==> ids@.contains(#[trigger] queue@[p]),
                forall|jj: int|
                    0 <= jj < j ==> count_ok(srcs@[jj]@, popped_new, (#[trigger] work@[jj])@),
                forall|jj: int|
                    j <= jj < n ==> count_ok(srcs@[jj]@, popped_old, (#[trigger] work@[jj])@),
                forall|jj: int|
                    0 <= jj < n ==> (queue@.contains(#[trigger] ids@[jj]) <==> work@[jj]@.len()
                        == 0),
                forall|p: int, jj: int| #![trigger queue@[p], ids@[jj]]
                    0 <= p < queue@.len() && 0 <= jj < n && ids@[jj] == queue@[p] ==> preceded_by(
                        queue@,
                        p,
                        srcs@[jj]@,
                    ),
            decreases n - j,
        {
            let other_id = ids[j];
            let ghost queue_c = queue@;
            let ghost work_b = work@;
            let ghost sj = srcs@[j as int]@;
            let mut row = work.remove(j);
            let ghost row_b = row@;
            proof {
                assert(count_ok(sj, popped_old, row_b));
            }
            if let Some(pos) = first_index_of(&row, id) {
                row.remove(pos);
                proof {
                    broadcast use vstd::seq_lib::group_to_multiset_ensures;
                    broadcast use vstd::multiset::group_multiset_axioms;

                    assert(row@ == row_b.remove(pos as int));
                    assert(row_b.remove(pos as int).to_multiset() == row_b.to_multiset().remove(
                        row_b[pos as int],
                    ));
                    assert(row_b.contains(id));
                    assert(row_b.to_multiset().count(id) > 0);
                    assert(row_b.to_multiset().count(id) == sj.to_multiset().count(id) - (
                    if popped_old.contains(id) && sj.contains(id) {
                        1int
                    } else {
                        0int
                    }));
                    assert(sj.to_multiset().count(id) > 0);
                    assert(sj.contains(id));
                    assert forall|x: u32| #[trigger] row@.to_multiset().count(x)
                        == sj.to_multiset().count(x) - (
                    if popped_new.contains(x) && sj.contains(x) {
                        1int
                    } else {
                        0int
                    }) by {
                        assert(row_b.to_multiset().count(x) == sj.to_multiset().count(x) - (
                        if popped_old.contains(x) && sj.contains(x) {
                            1int
                        } else {
                            0int
                        }));
                        assert(popped_new.contains(x) <==> popped_old.contains(x) || x == id) by {
                            if popped_new.contains(x) {
                                let p = choose|p: int|
                                    0 <= p < popped_new.len() && popped_new[p] == x;
                                if p < popped_old.len() {
                                    assert(popped_old[p] == x);
                                }
                            }
                            if popped_old.contains(x) {
                                let p = choose|p: int|
                                    0 <= p < popped_old.len() && popped_old[p] == x;
                                assert(popped_new[p] == x);
                            }
                            assert(popped_new[popped_old.len() as int] == id);
                        }
                    }
                    assert(count_ok(sj, popped_new, row@));
                }
                if row.len() == 0 {
                    if !has_elem(&queue, other_id) {
                        proof {
                            broadcast use vstd::seq_lib::group_to_multiset_ensures;
                            broadcast use vstd::multiset::group_multiset_axioms;

                            assert forall|k: int|
                                0 <= k < sj.len() implies in_prefix(
                                queue_c,
                                queue_c.len() as int,
                                #[trigger] sj[k],
                            ) by {
                                let x = sj[k];
                                assert(sj.contains(x));
                                assert(sj.to_multiset().count(x) > 0);
                                assert(row@.to_multiset().count(x) == sj.to_multiset().count(x) - (
                                if popped_new.contains(x) && sj.contains(x) {
                                    1int
                                } else {
                                    0int
                                }));
                                assert(row@.to_multiset().len() == 0);
                                assert(row@.to_multiset().count(x) == 0);
                                assert(popped_new.contains(x));
                                let p2 = choose|p2: int|
                                    0 <= p2 < popped_new.len() && popped_new[p2] == x;
                                assert(queue_c[p2] == x);
                                assert(in_prefix(queue_c, queue_c.len() as int, x));
                            }
                        }
                        queue.push(other_id);
                        proof {
                            let ghost qlen = queue_c.len() as int;
                            assert(queue@ == queue_c.push(other_id));
                            assert(queue@[qlen] == other_id);
                            assert(queue@.no_duplicates()) by {
                                assert(!queue_c.contains(other_id));
                                assert forall|a: int, b: int|
                                    0 <= a < queue@.len() && 0 <= b < queue@.len() && a
                                        != b implies queue@[a] != queue@[b] by {
                                    if a < qlen && b < qlen {
                                        assert(queue_c[a] != queue_c[b]);
                                    } else if a < qlen {
                                        assert(queue_c[a] == queue@[a]);
                                    } else if b < qlen {
                                        assert(queue_c[b] == queue@[b]);
                                    }
                                }
                            }
                            assert(queue@.take(head as int) =~= queue_c.take(head as int));
                            assert(queue@.len() <= n) by {
                                lemma_unique_subset_len(queue@, ids@);
                            }
                            assert(preceded_by(queue@, qlen, sj)) by {
                                assert forall|k: int|
                                    0 <= k < sj.len() implies in_prefix(
                                    queue@,
                                    qlen,
                                    #[trigger] sj[k],
                                ) by {
                                    assert(in_prefix(queue_c, qlen, sj[k]));
                                    let p2 = choose|p2: int|
                                        0 <= p2 < qlen && queue_c[p2] == sj[k];
                                    assert(queue@[p2] == sj[k]);
                                    assert(in_prefix(queue@, qlen, sj[k]));
                                }
                            }
                            assert forall|p: int, jj: int| #![trigger queue@[p], ids@[jj]]
                                0 <= p < queue@.len() && 0 <= jj < n && ids@[jj]
                                    == queue@[p] implies preceded_by(queue@, p, srcs@[jj]@) by {
                                if p < qlen {
                                    assert(queue_c[p] == queue@[p]);
                                    assert(preceded_by(queue_c, p, srcs@[jj]@));
                                    assert forall|p0: int|
                                        0 <= p0 < queue_c.len() implies queue@[p0] == #[trigger] queue_c[p0] by {}
                                    lemma_preceded_by_prefix(queue_c, queue@, p, srcs@[jj]@);
                                } else {
                                    assert(queue@[p] == other_id);
                                    assert(ids@[jj] == ids@[j as int]);
                                    assert(jj == j as int);
                                }
                            }
                        }
                    } else {
                        proof {
                            // `other_id` can only already be queued when its
                            // working list was empty before this scan, and an
                            // empty list holds no occurrence to strike out.
                            assert(queue_c.contains(ids@[j as int]));
                            assert(work_b[j as int]@.len() == 0);
                            assert(row_b.len() == 0);
                            assert(false);
                        }
                    }
                }
            } else {
                proof {
                    broadcast use vstd::seq_lib::group_to_multiset_ensures;
                    broadcast use vstd::multiset::group_multiset_axioms;

                    assert(!row_b.contains(id));
                    assert(row_b.to_multiset().count(id) == 0);
                    assert forall|x: u32| #[trigger] row@.to_multiset().count(x)
                        == sj.to_multiset().count(x) - (
                    if popped_new.contains(x) && sj.contains(x) {
                        1int
                    } else {
                        0int
                    }) by {
                        assert(row_b.to_multiset().count(x) == sj.to_multiset().count(x) - (
                        if popped_old.contains(x) && sj.contains(x) {
                            1int
                        } else {
                            0int
                        }));
                        assert(popped_new.contains(x) <==> popped_old.contains(x) || x == id) by {
                            if popped_new.contains(x) {
                                let p = choose|p: int|
                                    0 <= p < popped_new.len() && popped_new[p] == x;
                                if p < popped_old.len() {
                                    assert(popped_old[p] == x);
                                }
                            }
                            if popped_old.contains(x) {
                                let p = choose|p: int|
                                    0 <= p < popped_old.len() && popped_old[p] == x;
                                assert(popped_new[p] == x);
                            }
                            assert(popped_new[popped_old.len() as int] == id);
                        }
                        if x == id {
                            assert(sj.to_multiset().count(id) == 0);
                            assert(!sj.contains(id));
                        }
                    }
                    assert(count_ok(sj, popped_new, row@));
                }
            }
            let ghost row_v = row;
            work.insert(j, row);
            proof {
                work_b.remove_ensures(j as int);
                work_b.remove(j as int).insert_ensures(j as int, row_v);
                assert(work@ =~= work_b.update(j as int, row_v));
                assert(work@[j as int] == row_v);
                assert forall|jj: int|
                    0 <= jj < j + 1 implies count_ok(srcs@[jj]@, popped_new, (
                #[trigger] work@[jj])@) by {
                    if jj < j {
                        assert(work@[jj] == work_b[jj]);
                    }
                }
                assert forall|jj: int|
                    j + 1 <= jj < n implies count_ok(srcs@[jj]@, popped_old, (
                #[trigger] work@[jj])@) by {
                    assert(work@[jj] == work_b[jj]);
                }
                assert forall|jj: int|
                    0 <= jj < n implies (queue@.contains(#[trigger] ids@[jj]) <==> work@[jj]@.len()
                    == 0) by {
                    if queue@.len() == queue_c.len() {
                        assert(queue@ == queue_c);
                        if jj != j {
                            assert(work@[jj] == work_b[jj]);
                        } else {
                            assert(queue@.contains(ids@[jj]) <==> work_b[jj]@.len() == 0);
                        }
                    } else {
                        assert(queue@ == queue_c.push(ids@[j as int]));
                        assert(row_v@.len() == 0);
                        if jj == j {
                            assert(queue@[queue_c.len() as int] == ids@[jj]);
                            assert(queue@.contains(ids@[jj]));
                        } else {
                            assert(work@[jj] == work_b[jj]);
                            assert(queue@.contains(ids@[jj]) <==> queue_c.contains(ids@[jj])) by {
                                if queue@.contains(ids@[jj]) {
                                    let p = choose|p: int|
                                        0 <= p < queue@.len() && queue@[p] == ids@[jj];
                                    if p < queue_c.len() {
                                        assert(queue_c[p] == ids@[jj]);
                                    } else {
                                        assert(ids@[j as int] == ids@[jj]);
                                    }
                                }
                                if queue_c.contains(ids@[jj]) {
                                    let p = choose|p: int|
                                        0 <= p < queue_c.len() && queue_c[p] == ids@[jj];
                                    assert(queue@[p] == ids@[jj]);
                                }
                            }
                        }
                    }
                }
            }
            j = j + 1;
        }
    }

    if queue.len() == n {
        proof {
            broadcast use vstd::seq_lib::group_to_multiset_ensures;
            broadcast use vstd::multiset::group_multiset_axioms;
            broadcast use vstd::seq_lib::seq_to_set_is_finite;

            let q = queue@;
            assert(q.take(head as int) =~= q);
            lemma_assoc_map_dom(ids@, deep(srcs@));
            queue@.unique_seq_to_set();
            ids@.unique_seq_to_set();
            assert forall|x: u32| q.to_set().contains(x) implies ids@.to_set().contains(x) by {
                assert(q.contains(x));
                let p = choose|p: int| 0 <= p < q.len() && q[p] == x;
                assert(ids@.contains(q[p]));
            }
            assert(q.to_set().subset_of(ids@.to_set()));
            assert forall|x: u32| ids@.to_set().contains(x) implies q.to_set().contains(x) by {
                if !q.to_set().contains(x) {
                    q.to_set().lemma_subset_not_in_lt(ids@.to_set(), x);
                }
            }
            assert(q.to_set() =~= ids@.to_set());
            assert(g.dom() == ids@.to_set());
            assert forall|i2: int|
                0 <= i2 < q.len() implies preceded_by(q, i2, g[#[trigger] q[i2]]) by {
                assert(ids@.contains(q[i2]));
                let jj = choose|jj: int| 0 <= jj < ids@.len() && ids@[jj] == q[i2];
                lemma_assoc_map_index(ids@, deep(srcs@), jj);
                assert(g[q[i2]] == deep(srcs@)[jj]);
                assert(deep(srcs@)[jj] == srcs@[jj]@);
                assert(preceded_by(q, i2, srcs@[jj]@));
            }
            assert(valid_order(g, q));
            assert forall|id2: u32|
                g.dom().contains(id2) implies (#[trigger] g[id2]).no_duplicates() by {
                assert(ids@.contains(id2));
                let jj = choose|jj: int| 0 <= jj < ids@.len() && ids@[jj] == id2;
                lemma_assoc_map_index(ids@, deep(srcs@), jj);
                assert(g[id2] == srcs@[jj]@);
                assert(q.to_set().contains(id2));
                assert(q.contains(ids@[jj]));
                assert(work@[jj]@.len() == 0);
                let sj = srcs@[jj]@;
                assert forall|x: u32|
                    sj.to_multiset().contains(x) implies sj.to_multiset().count(x) == 1 by {
                    assert(work@[jj]@.to_multiset().count(x) == sj.to_multiset().count(x) - (
                    if q.take(head as int).contains(x) && sj.contains(x) {
                        1int
                    } else {
                        0int
                    }));
                    assert(work@[jj]@.to_multiset().len() == 0);
                    assert(work@[jj]@.to_multiset().count(x) == 0);
                    assert(sj.contains(x));
                }
                sj.lemma_multiset_has_no_duplicates_conv();
            }
            assert(sources_unique(g));
            assert(sortable(g));
        }
        Some(queue)
    } else {
        proof {
            broadcast use vstd::seq_lib::group_to_multiset_ensures;
            broadcast use vstd::multiset::group_multiset_axioms;

            if sortable(g) {
                let ord = choose|ord: Seq<u32>| valid_order(g, ord);
                assert(queue@.take(head as int) =~= queue@);
                assert forall|jj: int|
                    0 <= jj < ids@.len() implies count_ok(deep(srcs@)[jj], queue@, (
                #[trigger] deep(work@)[jj])) by {
                    assert(deep(work@)[jj] == work@[jj]@);
                    assert(deep(srcs@)[jj] == srcs@[jj]@);
                    assert(count_ok(srcs@[jj]@, queue@.take(head as int), work@[jj]@));
                }
                assert forall|jj: int|
                    0 <= jj < ids@.len() implies (queue@.contains(#[trigger] ids@[jj]) <==> deep(
                    work@,
                )[jj].len() == 0) by {
                    assert(deep(work@)[jj] == work@[jj]@);
                }
                lemma_kahn_complete(ids@, deep(srcs@), deep(work@), queue@, ord, ord.len() as int);
                lemma_unique_subset_len(ord, queue@);
                ord.unique_seq_to_set();
                ids@.unique_seq_to_set();
                lemma_assoc_map_dom(ids@, deep(srcs@));
                assert(ord.to_set() == ids@.to_set());
                assert(ord.len() == ids@.len());
                assert(false);
            }
        }
        None
    }
}

/// Topological ordering of a dependency graph.
pub trait TopologicalSort {
    /// Validity of the representation the sort relies on.
    spec fn topo_wf(&self) -> bool;

    /// The graph being ordered, as a map from identifier to the identifiers
    /// of its predecessors.
    spec fn topo_graph(&self) -> Map<u32, Seq<u32>>;

    /// Returns a topological order of the graph, or `None` exactly when no
    /// such order exists: a cycle, a predecessor that no node satisfies, or
    /// a repeated predecessor entry.
    fn sort(&self) -> (r: Option<Vec<u32>>)
        requires
            self.topo_wf(),
        ensures
            (r is Some) <==> sortable(self.topo_graph()),
            r matches Some(ord) ==> valid_order(self.topo_graph(), ord@),
    ;
}

impl<T: Copy + PartialEq> TopologicalSort for DAG<T> {
    open spec fn topo_wf(&self) -> bool {
        self.wf()
    }

    open spec fn topo_graph(&self) -> Map<u32, Seq<u32>> {
        self.graph()
    }

    fn sort(&self) -> (r: Option<Vec<u32>>) {
        let mut ids_list: Vec<u32> = Vec::new();
        let mut srcs_list: Vec<Vec<u32>> = Vec::new();
        let mut i: usize = 0;
        while i < self.nodes.len()
            invariant
                i <= self.nodes@.len(),
                ids_list@.len() == i,
                srcs_list@.len() == i,
                forall|k: int| 0 <= k < i ==> ids_list@[k] == (#[trigger] self.nodes@[k]).0,
                forall|k: int|
                    0 <= k < i ==> (#[trigger] srcs_list@[k])@ == self.nodes@[k].1.spec_sources(),
            decreases self.nodes@.len() - i,
        {
            ids_list.push(self.nodes[i].0);
            srcs_list.push(copy_list(self.nodes[i].1.sources()));
            i = i + 1;
        }
        proof {
            self.lemma_ids_shape();
            assert(ids_list@ =~= self.ids());
            assert(deep(srcs_list@) =~= sources_of(self.node_seq()));
            assert(assoc_map(ids_list@, deep(srcs_list@)) == self.graph());
        }
        kahn(&ids_list, &srcs_list)
    }
}

impl<T: Copy + PartialEq> DAG<T> {
    /// Checked insertion.  A scratch copy of the graph's predecessor lists,
    /// with the candidate node inserted, is validated by a trial sort; only
    /// when an order still exists is the node committed.  On success the
    /// previously stored node is returned; on failure the graph is left
    /// completely unmodified.
    pub fn add_node(&mut self, node_id: u32, node: DagNode<T>) -> (r: Result<
        Option<DagNode<T>>,
        CycleDetected,
    >)
        requires
            old(self).wf(),
        ensures
            final(self).wf(),
            (r is Ok) <==> sortable(old(self).graph().insert(node_id, node.spec_sources())),
            r is Ok ==> final(self).as_map() == old(self).as_map().insert(node_id, node),
            r is Ok ==> final(self).graph() == old(self).graph().insert(
                node_id,
                node.spec_sources(),
            ),
            r matches Ok(prev) ==> prev == (if old(self).as_map().dom().contains(node_id) {
                Some(old(self).as_map()[node_id])
            } else {
                None::<DagNode<T>>
            }),
            r is Err ==> *final(self) == *old(self),
    {
        proof {
            self.lemma_ids_shape();
        }
        let ghost cur_ids = self.ids();
        let ghost cur_srcs = sources_of(self.node_seq());
        let p = self.lower_bound(node_id);
        let found = p < self.nodes.len() && self.nodes[p].0 == node_id;
        let mut cand_ids: Vec<u32> = Vec::new();
        let mut cand_srcs: Vec<Vec<u32>> = Vec::new();
        let mut i: usize = 0;
        while i < self.nodes.len()
            invariant
                i <= self.nodes@.len(),
                cand_ids@.len() == i,
                cand_srcs@.len() == i,
                forall|k: int| 0 <= k < i ==> cand_ids@[k] == (#[trigger] self.nodes@[k]).0,
                forall|k: int|
                    0 <= k < i ==> (#[trigger] cand_srcs@[k])@ == self.nodes@[k].1.spec_sources(),
            decreases self.nodes@.len() - i,
        {
            cand_ids.push(self.nodes[i].0);
            cand_srcs.push(copy_list(self.nodes[i].1.sources()));
            i = i + 1;
        }
        proof {
            assert(cand_ids@ =~= cur_ids);
            assert(deep(cand_srcs@) =~= cur_srcs);
        }
        let new_row = copy_list(node.sources());
        let ghost nrv = new_row;
        if found {
            let ghost cs_b = cand_srcs@;
            let _ = cand_srcs.remove(p);
            cand_srcs.insert(p, new_row);
            proof {
                cs_b.remove_ensures(p as int);
                cs_b.remove(p as int).insert_ensures(p as int, nrv);
                assert(cand_srcs@ =~= cs_b.update(p as int, nrv));
                assert(deep(cand_srcs@) =~= cur_srcs.update(p as int, node.spec_sources()));
                lemma_assoc_map_update(cur_ids, cur_srcs, p as int, node.spec_sources());
                assert(cur_ids[p as int] == node_id);
                assert(assoc_map(cand_ids@, deep(cand_srcs@)) == self.graph().insert(
                    node_id,
                    node.spec_sources(),
                ));
            }
        } else {
            let ghost cs_b = cand_srcs@;
            cand_ids.insert(p, node_id);
            cand_srcs.insert(p, new_row);
            proof {
                assert forall|k: int| 0 <= k < cur_ids.len() implies cur_ids[k] != node_id by {
                    if k < p {
                        assert(self.nodes@[k].0 < node_id);
                    } else {
                        assert(self.nodes@[k].0 >= node_id);
                        if k == p {
                            assert(self.nodes@[k].0 != node_id);
                        } else {
                            assert(self.nodes@[p as int].0 < self.nodes@[k].0);
                        }
                    }
                }
                assert(!cur_ids.contains(node_id));
                cs_b.insert_ensures(p as int, nrv);
                cur_srcs.insert_ensures(p as int, node.spec_sources());
                assert(cand_ids@ == cur_ids.insert(p as int, node_id));
                assert(deep(cand_srcs@) =~= cur_srcs.insert(p as int, node.spec_sources()));
                lemma_assoc_map_insert(cur_ids, cur_srcs, p as int, node_id, node.spec_sources());
                assert(assoc_map(cand_ids@, deep(cand_srcs@)) == self.graph().insert(
                    node_id,
                    node.spec_sources(),
                ));
            }
        }
        if kahn(&cand_ids, &cand_srcs).is_some() {
            let prev = self.insert_unchecked(node_id, node);
            Ok(prev)
        } else {
            Err(CycleDetected)
        }
    }
}

} // verus!
