//! The graph itself: a mapping from each node to the ordered sequence of its
//! direct neighbors, maintained as the symmetric closure of the inserted
//! edges. Neighbor sequences keep duplicates: inserting the same edge twice,
//! or a self-loop, leaves multiple entries, and all of them count toward the
//! degree.

use std::collections::HashMap;
use std::collections::HashSet;
use vstd::prelude::*;
use vstd::std_specs::hash::spec_keys_iter;
use vstd::std_specs::iter::IteratorSpec;

verus! {

/// The neighbor sequence of `n` in the adjacency map `m`; empty when `n` has
/// never taken part in an edge.
pub open spec fn adj(m: Map<usize, Seq<usize>>, n: usize) -> Seq<usize> {
    if m.contains_key(n) {
        m[n]
    } else {
        Seq::empty()
    }
}

/// The adjacency map after recording the undirected edge `(a, b)`: first `b`
/// is appended to `a`'s neighbor sequence, then `a` is appended to `b`'s.
/// For a self-loop the two appends land in the same sequence.
pub open spec fn with_edge(m: Map<usize, Seq<usize>>, a: usize, b: usize) -> Map<
    usize,
    Seq<usize>,
> {
    let m1 = m.insert(a, adj(m, a).push(b));
    m1.insert(b, adj(m1, b).push(a))
}

/// The nodes reachable from `n` in exactly two hops, excluding `n` itself.
pub open spec fn distance_2(m: Map<usize, Seq<usize>>, n: usize) -> Set<usize> {
    Set::new(
        |x: usize|
            x != n && exists|mid: usize|
                adj(m, n).contains(mid) && #[trigger] adj(m, mid).contains(x),
    )
}

/// The entries of `s` other than `n`, as a set.
spec fn entries_excluding(s: Seq<usize>, n: usize) -> Set<usize> {
    Set::new(|x: usize| x != n && s.contains(x))
}

/// The distance-2 neighbors of `n` contributed by the first hops listed in
/// `mids`: what `distance_2` becomes once `mids` is all of `n`'s neighbors.
spec fn distance_2_prefix(m: Map<usize, Seq<usize>>, n: usize, mids: Seq<usize>) -> Set<usize> {
    Set::new(
        |x: usize|
            x != n && exists|k: int|
                0 <= k < mids.len() && #[trigger] adj(m, mids[k]).contains(x),
    )
}

proof fn lemma_prefix_step(m: Map<usize, Seq<usize>>, n: usize, mids: Seq<usize>, i: int)
    requires
        0 <= i < mids.len(),
    ensures
        distance_2_prefix(m, n, mids.take(i + 1)) == distance_2_prefix(
            m,
            n,
            mids.take(i),
        ).union(entries_excluding(adj(m, mids[i]), n)),
{
    let lhs = distance_2_prefix(m, n, mids.take(i + 1));
    let rhs = distance_2_prefix(m, n, mids.take(i)).union(entries_excluding(adj(m, mids[i]), n));
    assert forall|x: usize| lhs.contains(x) implies rhs.contains(x) by {
        let k = choose|k: int|
            0 <= k < mids.take(i + 1).len() && #[trigger] adj(
                m,
                mids.take(i + 1)[k],
            ).contains(x);
        if k < i {
            assert(adj(m, mids.take(i)[k]).contains(x));
        } else {
            assert(adj(m, mids[i]).contains(x));
        }
    }
    assert forall|x: usize| rhs.contains(x) implies lhs.contains(x) by {
        if distance_2_prefix(m, n, mids.take(i)).contains(x) {
            let k = choose|k: int|
                0 <= k < mids.take(i).len() && #[trigger] adj(m, mids.take(i)[k]).contains(x);
            assert(adj(m, mids.take(i + 1)[k]).contains(x));
        } else {
            assert(adj(m, mids.take(i + 1)[i]).contains(x));
        }
    }
    assert(lhs =~= rhs);
}

proof fn lemma_prefix_full(m: Map<usize, Seq<usize>>, n: usize)
    ensures
        distance_2_prefix(m, n, adj(m, n)) == distance_2(m, n),
{
    let mids = adj(m, n);
    assert forall|x: usize|
        distance_2_prefix(m, n, mids).contains(x) implies distance_2(m, n).contains(x) by {
        let k = choose|k: int| 0 <= k < mids.len() && #[trigger] adj(m, mids[k]).contains(x);
        assert(mids.contains(mids[k]));
    }
    assert forall|x: usize|
        distance_2(m, n).contains(x) implies distance_2_prefix(m, n, mids).contains(x) by {
        let mid = choose|mid: usize| mids.contains(mid) && #[trigger] adj(m, mid).contains(x);
        let k = choose|k: int| 0 <= k < mids.len() && mids[k] == mid;
        assert(adj(m, mids[k]).contains(x));
    }
    assert(distance_2_prefix(m, n, mids) =~= distance_2(m, n));
}

/// Every directed adjacency entry is matched by its reverse entry.
pub open spec fn is_symmetric(m: Map<usize, Seq<usize>>) -> bool {
    forall|a: usize, b: usize| #[trigger] adj(m, a).contains(b) ==> adj(m, b).contains(a)
}

/// Law: after the edge `(a, b)` is recorded, `b` is a direct neighbor of `a`
/// and `a` is a direct neighbor of `b`.
pub proof fn lemma_edge_symmetry(m: Map<usize, Seq<usize>>, a: usize, b: usize)
    ensures
        adj(with_edge(m, a, b), a).contains(b),
        adj(with_edge(m, a, b), b).contains(a),
{
    broadcast use vstd::seq_lib::lemma_seq_contains_after_push;

}

/// Law: recording an edge keeps the adjacency map a symmetric closure, so a
/// graph grown from empty by edge insertions alone is symmetric throughout.
pub proof fn lemma_edge_preserves_symmetry(m: Map<usize, Seq<usize>>, a: usize, b: usize)
    requires
        is_symmetric(m),
    ensures
        is_symmetric(with_edge(m, a, b)),
{
    broadcast use vstd::seq_lib::lemma_seq_contains_after_push;

    let m2 = with_edge(m, a, b);
    assert forall|x: usize, y: usize| #[trigger]
        adj(m2, x).contains(y) implies adj(m2, y).contains(x) by {
        if adj(m, x).contains(y) {
            assert(adj(m, y).contains(x));
        }
    }
}

/// Law: the empty adjacency map is symmetric.
pub proof fn lemma_empty_symmetric()
    ensures
        is_symmetric(Map::<usize, Seq<usize>>::empty()),
{
}

/// Law: recording the edge `(a, b)` makes exactly `a` and `b` present,
/// besides the nodes already present.
pub proof fn lemma_edge_dom(m: Map<usize, Seq<usize>>, a: usize, b: usize)
    ensures
        with_edge(m, a, b).dom() == m.dom().insert(a).insert(b),
{
    assert(with_edge(m, a, b).dom() =~= m.dom().insert(a).insert(b));
}

/// Law: recording an edge leaves the neighbor sequence of every other node
/// unchanged; in particular a node never named in any insertion stays absent,
/// with an empty neighbor sequence.
pub proof fn lemma_edge_untouched(m: Map<usize, Seq<usize>>, a: usize, b: usize, n: usize)
    requires
        n != a,
        n != b,
    ensures
        adj(with_edge(m, a, b), n) == adj(m, n),
{
}

/// Law: a node absent from the adjacency map has an empty neighbor sequence,
/// so its degree is zero.
pub proof fn lemma_absent_node_degree(m: Map<usize, Seq<usize>>, n: usize)
    requires
        !m.contains_key(n),
    ensures
        adj(m, n).len() == 0,
{
}

/// Law: a node never appears in its own distance-2 neighbor set.
pub proof fn lemma_distance_2_excludes_self(m: Map<usize, Seq<usize>>, n: usize)
    ensures
        !distance_2(m, n).contains(n),
{
}

/// Law: the distance-2 neighbor set of an absent node is empty.
pub proof fn lemma_distance_2_absent(m: Map<usize, Seq<usize>>, n: usize)
    requires
        !m.contains_key(n),
    ensures
        distance_2(m, n) == Set::<usize>::empty(),
{
    assert(distance_2(m, n) =~= Set::<usize>::empty());
}

/// An undirected graph over `usize`-identified nodes, stored as an adjacency
/// mapping. Its view is the abstract map from each present node to its
/// neighbor sequence.
#[derive(Debug)]
pub struct Graph {
    edges: HashMap<usize, Vec<usize>>,
}

impl View for Graph {
    type V = Map<usize, Seq<usize>>;

    closed spec fn view(&self) -> Map<usize, Seq<usize>> {
        Map::new(
            |k: usize| self.edges@.contains_key(k),
            |k: usize| self.edges@[k]@,
        )
    }
}

impl Graph {
    /// An empty graph: no nodes, no edges.
    pub fn new() -> (g: Graph)
        ensures
            g@ == Map::<usize, Seq<usize>>::empty(),
    {
        let g = Graph { edges: HashMap::new() };
        proof {
            assert(g@ =~= Map::<usize, Seq<usize>>::empty());
        }
        g
    }

    /// Records the undirected edge `(source, target)`: `target` is appended
    /// to `source`'s neighbor sequence and `source` to `target`'s, either
    /// sequence created on first use. A self-loop leaves two entries in the
    /// one sequence. Repeated insertions accumulate; nothing is deduplicated.
    pub fn add_edge(&mut self, source: usize, target: usize)
        ensures
            final(self)@ == with_edge(old(self)@, source, target),
    {
        let mut source_list: Vec<usize> = match self.edges.remove(&source) {
            Some(list) => list,
            None => Vec::new(),
        };
        source_list.push(target);
        self.edges.insert(source, source_list);
        let mut target_list: Vec<usize> = match self.edges.remove(&target) {
            Some(list) => list,
            None => Vec::new(),
        };
        target_list.push(source);
        self.edges.insert(target, target_list);
        proof {
            assert(final(self)@ =~= with_edge(old(self)@, source, target));
        }
    }

    /// The number of adjacency entries recorded for `node`, duplicates and
    /// self-loop entries each counted; `0` for a node absent from the graph.
    pub fn degree(&self, node: usize) -> (d: usize)
        ensures
            d == adj(self@, node).len(),
    {
        match self.edges.get(&node) {
            Some(neighbors) => neighbors.len(),
            None => 0,
        }
    }

    /// The deduplicated set of nodes reachable by exactly one hop from each
    /// of `node`'s direct neighbors, excluding `node` itself. A direct
    /// neighbor may well appear in the result, through a two-hop path of its
    /// own; `node` never does. An absent node yields the empty set.
    #[verifier::loop_isolation(false)]
    pub fn neighbors_at_distance_2(&self, node: usize) -> (result: HashSet<usize>)
        ensures
            result@ == distance_2(self@, node),
    {
        let mut neighbors: HashSet<usize> = HashSet::new();
        match self.edges.get(&node) {
            None => {
                proof {
                    assert(neighbors@ =~= distance_2(self@, node));
                }
            },
            Some(adjacent_nodes) => {
                proof {
                    assert(adjacent_nodes@.take(0) =~= Seq::<usize>::empty());
                    assert(neighbors@ =~= distance_2_prefix(self@, node, adjacent_nodes@.take(0)));
                }
                for i in 0..adjacent_nodes.len()
                    invariant
                        neighbors@ == distance_2_prefix(self@, node, adjacent_nodes@.take(i as int)),
                {
                    let mid = adjacent_nodes[i];
                    match self.edges.get(&mid) {
                        None => {
                            proof {
                                lemma_prefix_step(self@, node, adjacent_nodes@, i as int);
                                assert(adj(self@, mid) =~= Seq::<usize>::empty());
                                assert(entries_excluding(adj(self@, mid), node)
                                    =~= Set::<usize>::empty());
                                assert(neighbors@ =~= distance_2_prefix(
                                    self@,
                                    node,
                                    adjacent_nodes@.take(i + 1),
                                ));
                            }
                        },
                        Some(second_order) => {
                            let ghost base = neighbors@;
                            proof {
                                assert(second_order@.take(0) =~= Seq::<usize>::empty());
                                assert(neighbors@ =~= base.union(
                                    entries_excluding(second_order@.take(0), node),
                                ));
                            }
                            for j in 0..second_order.len()
                                invariant
                                    neighbors@ == base.union(
                                        entries_excluding(second_order@.take(j as int), node),
                                    ),
                            {
                                let x = second_order[j];
                                if x != node {
                                    neighbors.insert(x);
                                }
                                proof {
                                    broadcast use vstd::seq_lib::lemma_seq_contains_after_push;

                                    assert(second_order@.take(j + 1)
                                        =~= second_order@.take(j as int).push(x));
                                    assert(neighbors@ =~= base.union(
                                        entries_excluding(second_order@.take(j + 1), node),
                                    ));
                                }
                            }
                            proof {
                                assert(second_order@.take(second_order@.len() as int)
                                    =~= second_order@);
                                lemma_prefix_step(self@, node, adjacent_nodes@, i as int);
                                assert(second_order@ == adj(self@, mid));
                                assert(neighbors@ =~= distance_2_prefix(
                                    self@,
                                    node,
                                    adjacent_nodes@.take(i + 1),
                                ));
                            }
                        },
                    }
                }
                proof {
                    assert(adjacent_nodes@.take(adjacent_nodes@.len() as int) =~= adjacent_nodes@);
                    assert(adjacent_nodes@ == adj(self@, node));
                    lemma_prefix_full(self@, node);
                }
            },
        }
        neighbors
    }

    /// Every node that has taken part in at least one edge, in no particular
    /// order and without repetition.
    #[verifier::loop_isolation(false)]
    pub fn nodes(&self) -> (result: Vec<usize>)
        ensures
            result@.to_set() == self@.dom(),
            result@.no_duplicates(),
    {
        let mut result: Vec<usize> = Vec::new();
        let ghost all_keys = spec_keys_iter(&self.edges).remaining();
        for k in it: self.edges.keys()
            invariant
                it.seq() == all_keys,
                result@ == all_keys.subrange(0, it.index()).unref(),
        {
            result.push(*k);
            proof {
                assert(all_keys.subrange(0, it.index() + 1) =~= all_keys.subrange(
                    0,
                    it.index(),
                ).push(all_keys[it.index()]));
                assert(result@ =~= all_keys.subrange(0, it.index() + 1).unref());
            }
        }
        proof {
            assert(all_keys.subrange(0, all_keys.len() as int) =~= all_keys);
            assert(result@ == all_keys.unref());
            assert(self@.dom() =~= self.edges@.dom());
            assert(result@.to_set() == self.edges@.dom());
            result@.lemma_no_dup_set_cardinality();
        }
        result
    }

    /// The recorded neighbor sequence of `node`, in insertion order, or
    /// `None` for a node absent from the graph.
    pub fn neighbors_of(&self, node: usize) -> (r: Option<&Vec<usize>>)
        ensures
            match r {
                Some(list) => self@.contains_key(node) && list@ == self@[node],
                None => !self@.contains_key(node),
            },
    {
        self.edges.get(&node)
    }
}

} // verus!
