//! The class-level graph of an e-graph that the MaxSAT extractor blocks
//! cycles in: an edge from one e-class to another for every e-node of the
//! first with a child in the second, labelled with those e-nodes' variables.
use vstd::prelude::*;
use std::collections::{HashMap, HashSet, VecDeque};
use crate::extract::indexed_egraph::IndexedEGraph;

pub mod johnson;
pub mod scc;

verus! {

broadcast use vstd::std_specs::hash::group_hash_axioms;

/// Where `v` occurs as a target in an adjacency list, the e-node variables
/// on that edge.
pub open spec fn adj_lookup(list: Seq<(usize, Vec<usize>)>, v: usize) -> Option<Set<usize>>
    decreases list.len(),
{
    if list.len() == 0 {
        None
    } else if list.last().0 == v {
        Some(list.last().1@.to_set())
    } else {
        adj_lookup(list.drop_last(), v)
    }
}

/// A directed graph on e-classes, each class numbered by the order in which
/// it was added. Edges carry the set of e-node variables that induce them.
pub struct HyperGraph {
    /// hyper-edges from an e-class to its neighbors: multiple e-nodes might
    /// connect the same pair of classes, so they are collapsed together and
    /// the corresponding e-node variables recorded
    edges: Vec<Vec<(usize, Vec<usize>)>>,
    nodes: HashSet<usize>,
    ids_to_nodes: HashMap<usize, usize>,
    nodes_to_ids: Vec<usize>,
    num_nodes: usize,
}

impl HyperGraph {
    /// Class of each node number.
    pub closed spec fn ids(&self) -> Seq<usize> {
        self.nodes_to_ids@
    }

    /// Node number of each class that was ever added.
    pub closed spec fn index(&self) -> Map<usize, usize> {
        self.ids_to_nodes@
    }

    /// The node numbers that have not been removed.
    pub closed spec fn live(&self) -> Set<usize> {
        self.nodes@
    }

    /// The e-node variables on the edge from node `u` to node `v`, if there
    /// is one.
    pub closed spec fn edge(&self, u: usize, v: usize) -> Option<Set<usize>> {
        if u < self.edges@.len() {
            adj_lookup(self.edges@[u as int]@, v)
        } else {
            None
        }
    }

    /// The bookkeeping is consistent.
    pub closed spec fn wf(&self) -> bool {
        &&& self.num_nodes == self.nodes_to_ids@.len()
        &&& self.num_nodes == self.edges@.len()
        &&& forall|n: int|
            0 <= n < self.num_nodes ==> #[trigger] self.ids_to_nodes@.contains_key(
                self.nodes_to_ids@[n],
            ) && self.ids_to_nodes@[self.nodes_to_ids@[n]] == n
        &&& forall|c: usize| #[trigger]
            self.ids_to_nodes@.contains_key(c) ==> self.ids_to_nodes@[c] < self.num_nodes
                && self.nodes_to_ids@[self.ids_to_nodes@[c] as int] == c
        &&& forall|n: usize| #[trigger] self.nodes@.contains(n) ==> n < self.num_nodes
        &&& forall|n: int|
            0 <= n < self.num_nodes && !self.nodes@.contains(n as usize) ==> (
            #[trigger] self.edges@[n])@.len() == 0
        &&& forall|n: int, k: int|
            0 <= n < self.num_nodes && 0 <= k < self.edges@[n]@.len() ==> {
                let e = #[trigger] self.edges@[n]@[k];
                &&& e.0 < self.num_nodes
                &&& self.nodes@.contains(e.0)
                &&& self.nodes@.contains(n as usize)
                &&& e.1@.no_duplicates()
                &&& e.1@.len() > 0
            }
        &&& forall|n: int, k1: int, k2: int|
            0 <= n < self.num_nodes && 0 <= k1 < self.edges@[n]@.len() && 0 <= k2
                < self.edges@[n]@.len() && k1 != k2 ==> #[trigger] self.edges@[n]@[k1].0
                != #[trigger] self.edges@[n]@[k2].0
    }

    /// Class `c` has been added to the graph.
    pub open spec fn has_class(&self, c: usize) -> bool {
        self.index().contains_key(c)
    }

    /// Class `c` has been added and not removed.
    pub open spec fn class_is_live(&self, c: usize) -> bool {
        self.has_class(c) && self.live().contains(self.index()[c])
    }

    /// The e-node variables on the edge from class `a` to class `b`, if any.
    pub open spec fn class_edge(&self, a: usize, b: usize) -> Option<Set<usize>> {
        if self.has_class(a) && self.has_class(b) {
            self.edge(self.index()[a], self.index()[b])
        } else {
            None
        }
    }

    /// There is an edge from class `a` to class `b`.
    pub open spec fn linked(&self, a: usize, b: usize) -> bool {
        self.class_edge(a, b) is Some
    }

    /// Class `c` has an edge to or from some class.
    pub open spec fn touched(&self, c: usize) -> bool {
        exists|b: usize| self.linked(c, b) || self.linked(b, c)
    }

    /// The classes that have been added and not removed.
    pub open spec fn live_classes(&self) -> Set<usize> {
        Set::new(|c: usize| self.class_is_live(c))
    }

    /// What the graph's bookkeeping guarantees: node numbers and classes are
    /// in one-to-one correspondence, and edges join live nodes only.
    pub proof fn lemma_facts(&self)
        requires
            self.wf(),
        ensures
            self.ids().len() == self.num_nodes_spec(),
            forall|n: int|
                0 <= n < self.ids().len() ==> #[trigger] self.index().contains_key(self.ids()[n])
                    && self.index()[self.ids()[n]] == n,
            forall|c: usize| #[trigger]
                self.has_class(c) ==> self.index()[c] < self.ids().len() && self.ids()[self.index()[c] as int] == c,
            forall|n: usize| #[trigger] self.live().contains(n) ==> n < self.ids().len(),
            forall|u: usize, v: usize| #[trigger]
                self.edge(u, v) is Some ==> self.live().contains(u) && self.live().contains(v) && u < self.ids().len() && v < self.ids().len(),
            forall|a: usize, b: usize| #[trigger]
                self.linked(a, b) ==> self.class_is_live(a) && self.class_is_live(b),
            self.live().finite(),
            self.live_classes().finite(),
            self.live_classes().len() == self.live().len(),
            self.live().len() <= self.ids().len(),
    {
        assert forall|u: usize, v: usize| #[trigger]
            self.edge(u, v) is Some implies self.live().contains(u) && self.live().contains(v) && u < self.ids().len() && v < self.ids().len() by {
            let k = lemma_adj_lookup(self.edges@[u as int]@, v);
            let e = self.edges@[u as int]@[k];
            assert(e.0 == v);
        }
        let num = self.num_nodes as int;
        let range = Set::new(|n: usize| n < num);
        lemma_range_finite(num as nat);
        vstd::set_lib::lemma_len_subset(self.live(), range);
        assert(self.live().finite());
        assert(self.live().len() <= self.ids().len());
        let f = |n: usize| self.nodes_to_ids@[n as int];
        assert(self.live_classes() =~= self.live().map(f)) by {
            assert forall|c: usize| self.live_classes().contains(c) implies self.live().map(f).contains(c) by {
                assert(f(self.index()[c]) == c);
            }
            assert forall|c: usize| self.live().map(f).contains(c) implies self.live_classes().contains(c) by {
                let n = choose|n: usize| self.live().contains(n) && f(n) == c;
                assert(self.ids_to_nodes@.contains_key(self.nodes_to_ids@[n as int]));
            }
        }
        assert forall|x: usize, y: usize| self.live().contains(x) && self.live().contains(y) && #[trigger] f(x) == #[trigger] f(y) implies x == y by {
            assert(self.ids_to_nodes@.contains_key(self.nodes_to_ids@[x as int]));
            assert(self.ids_to_nodes@.contains_key(self.nodes_to_ids@[y as int]));
        }
        vstd::set_lib::lemma_map_size(self.live(), self.live_classes(), f);
    }

    /// The number of node numbers handed out so far.
    pub closed spec fn num_nodes_spec(&self) -> nat {
        self.num_nodes as nat
    }
}

impl HyperGraph {
    /// An empty graph.
    pub fn new() -> (g: Self)
        ensures
            g.wf(),
            g.ids() == Seq::<usize>::empty(),
            g.index() == Map::<usize, usize>::empty(),
            g.live() == Set::<usize>::empty(),
    {
        HyperGraph {
            edges: Vec::new(),
            nodes: HashSet::new(),
            ids_to_nodes: HashMap::new(),
            nodes_to_ids: Vec::new(),
            num_nodes: 0,
        }
    }

    /// Whether class `eclass` was ever added (removal does not forget it).
    pub fn contains(&self, eclass: usize) -> (r: bool)
        ensures
            r == self.has_class(eclass),
    {
        self.ids_to_nodes.contains_key(&eclass)
    }

    /// How many node numbers have been handed out.
    fn node_count(&self) -> (r: usize)
        ensures
            r == self.ids().len(),
    {
        self.nodes_to_ids.len()
    }

    /// The node number of a class that has been added.
    pub fn get_node_by_id(&self, id: usize) -> (r: usize)
        requires
            self.has_class(id),
        ensures
            r == self.index()[id],
    {
        *self.ids_to_nodes.get(&id).unwrap()
    }

    /// The class of a node number that has been handed out.
    pub fn get_id_by_node(&self, node: usize) -> (r: usize)
        requires
            node < self.ids().len(),
        ensures
            r == self.ids()[node as int],
    {
        self.nodes_to_ids[node]
    }

    /// The number of classes that have been added and not removed.
    pub fn size(&self) -> (r: usize)
        requires
            self.wf(),
        ensures
            r == self.live_classes().len(),
    {
        proof {
            self.lemma_facts();
        }
        self.nodes.len()
    }

    /// Gives class `k` the next node number, with no edges.
    #[verifier::spinoff_prover]
    fn add_node(&mut self, k: usize)
        requires
            old(self).wf(),
            !old(self).has_class(k),
            old(self).ids().len() < usize::MAX,
        ensures
            final(self).wf(),
            final(self).ids() == old(self).ids().push(k),
            final(self).index() == old(self).index().insert(k, old(self).ids().len() as usize),
            final(self).live() == old(self).live().insert(old(self).ids().len() as usize),
            forall|u: usize, v: usize| #[trigger] final(self).edge(u, v) == old(self).edge(u, v),
    {
        let node_id = self.num_nodes;
        self.ids_to_nodes.insert(k, node_id);
        self.nodes_to_ids.push(k);
        self.edges.push(Vec::new());
        self.nodes.insert(node_id);
        self.num_nodes = self.num_nodes + 1;
        proof {
            let o = old(self);
            assert forall|n: int, kk: int|
                0 <= n < self.num_nodes && 0 <= kk < self.edges@[n]@.len() implies {
                    let e = #[trigger] self.edges@[n]@[kk];
                    &&& e.0 < self.num_nodes
                    &&& self.nodes@.contains(e.0)
                    &&& self.nodes@.contains(n as usize)
                    &&& e.1@.no_duplicates()
                    &&& e.1@.len() > 0
                } by {
                assert(n < o.num_nodes);
                assert(self.edges@[n] == o.edges@[n]);
            }
            assert forall|n: int, k1: int, k2: int|
                0 <= n < self.num_nodes && 0 <= k1 < self.edges@[n]@.len() && 0 <= k2
                    < self.edges@[n]@.len() && k1 != k2 implies #[trigger] self.edges@[n]@[k1].0
                    != #[trigger] self.edges@[n]@[k2].0 by {
                assert(self.edges@[n] == o.edges@[n]);
            }
            assert forall|u: usize, v: usize| #[trigger] self.edge(u, v) == o.edge(u, v) by {
                if u < o.num_nodes {
                    assert(self.edges@[u as int] == o.edges@[u as int]);
                } else if u == o.num_nodes {
                    assert(self.edges@[u as int]@ =~= Seq::<(usize, Vec<usize>)>::empty());
                }
            }
        }
    }
}

impl HyperGraph {
    /// The adjacency list of a live node.
    closed spec fn adj(&self, n: usize) -> Seq<(usize, Vec<usize>)> {
        self.edges@[n as int]@
    }

    /// An entry of the adjacency list of live class `u` is an edge to the class
    /// of its target, and every edge out of `u` is such an entry.
    proof fn lemma_adj_entries(&self, u: usize)
        requires
            self.wf(),
            self.class_is_live(u),
        ensures
            forall|k: int|
                0 <= k < self.adj(self.index()[u]).len() ==> {
                    let e = #[trigger] self.adj(self.index()[u])[k];
                    &&& e.0 < self.ids().len()
                    &&& self.has_class(self.ids()[e.0 as int])
                    &&& self.index()[self.ids()[e.0 as int]] == e.0
                    &&& self.class_edge(u, self.ids()[e.0 as int]) == Some(e.1@.to_set())
                },
            forall|c: usize| #[trigger]
                self.linked(u, c) ==> exists|k: int|
                    0 <= k < self.adj(self.index()[u]).len() && #[trigger] self.adj(
                        self.index()[u],
                    )[k].0 == self.index()[c],
            forall|k1: int, k2: int|
                0 <= k1 < self.adj(self.index()[u]).len() && 0 <= k2 < self.adj(
                    self.index()[u],
                ).len() && k1 != k2 ==> #[trigger] self.adj(self.index()[u])[k1].0
                    != #[trigger] self.adj(self.index()[u])[k2].0,
    {
        let n = self.index()[u];
        let list = self.adj(n);
        assert(self.nodes_to_ids@[n as int] == u);
        assert forall|k: int| 0 <= k < list.len() implies {
            let e = #[trigger] list[k];
            &&& e.0 < self.ids().len()
            &&& self.has_class(self.ids()[e.0 as int])
            &&& self.index()[self.ids()[e.0 as int]] == e.0
            &&& self.class_edge(u, self.ids()[e.0 as int]) == Some(e.1@.to_set())
        } by {
            let e = self.edges@[n as int]@[k];
            assert(self.ids_to_nodes@.contains_key(self.nodes_to_ids@[e.0 as int]));
            lemma_adj_lookup_at(list, k);
        }
        assert forall|c: usize| #[trigger] self.linked(u, c) implies exists|k: int|
            0 <= k < list.len() && #[trigger] list[k].0 == self.index()[c] by {
            let k = lemma_adj_lookup(list, self.index()[c]);
        }
    }

    /// The classes that class `u` has an edge to.
    #[verifier::spinoff_prover]
    pub fn neighbors(&self, u: usize) -> (r: Vec<usize>)
        requires
            self.wf(),
            self.has_class(u) ==> self.class_is_live(u),
        ensures
            r@.no_duplicates(),
            forall|c: usize| r@.contains(c) <==> self.linked(u, c),
    {
        let mut r: Vec<usize> = Vec::new();
        if self.contains(u) {
            let n = self.get_node_by_id(u);
            proof {
                self.lemma_adj_entries(u);
            }
            let list = &self.edges[n];
            let mut k: usize = 0;
            while k < list.len()
                invariant
                    self.wf(),
                    self.class_is_live(u),
                    n == self.index()[u],
                    list@ == self.adj(n),
                    k <= list@.len(),
                    r@.len() == k,
                    forall|j: int| 0 <= j < k ==> #[trigger] r@[j] == self.ids()[list@[j].0 as int],
                    forall|kk: int|
                        0 <= kk < self.adj(self.index()[u]).len() ==> {
                            let e = #[trigger] self.adj(self.index()[u])[kk];
                            &&& e.0 < self.ids().len()
                            &&& self.has_class(self.ids()[e.0 as int])
                            &&& self.index()[self.ids()[e.0 as int]] == e.0
                            &&& self.class_edge(u, self.ids()[e.0 as int]) == Some(e.1@.to_set())
                        },
                decreases list@.len() - k,
            {
                let e = list[k].0;
                r.push(self.nodes_to_ids[e]);
                k = k + 1;
            }
            proof {
                assert forall|c: usize| r@.contains(c) <==> self.linked(u, c) by {
                    if r@.contains(c) {
                        let j = choose|j: int| 0 <= j < r@.len() && r@[j] == c;
                        assert(self.adj(self.index()[u])[j] == list@[j]);
                    }
                    if self.linked(u, c) {
                        let kk = choose|kk: int|
                            0 <= kk < self.adj(self.index()[u]).len() && #[trigger] self.adj(
                                self.index()[u],
                            )[kk].0 == self.index()[c];
                        assert(self.ids()[self.index()[c] as int] == c);
                        assert(r@[kk] == c);
                    }
                }
                assert forall|i: int, j: int| 0 <= i < r@.len() && 0 <= j < r@.len() && i != j implies r@[i] != r@[j] by {
                    assert(self.adj(self.index()[u])[i] == list@[i]);
                    assert(self.adj(self.index()[u])[j] == list@[j]);
                }
            }
        } else {
            proof {
                assert forall|c: usize| r@.contains(c) <==> self.linked(u, c) by {}
            }
        }
        r
    }
}

impl HyperGraph {
    /// The edges out of class `eclass`: each target class with the e-node
    /// variables on that edge; `None` where the class was never added.
    #[verifier::spinoff_prover]
    pub fn edges(&self, eclass: usize) -> (r: Option<Vec<(usize, Vec<usize>)>>)
        requires
            self.wf(),
            self.has_class(eclass) ==> self.class_is_live(eclass),
        ensures
            r is None <==> !self.has_class(eclass),
            r matches Some(v) ==> {
                &&& forall|k1: int, k2: int|
                    0 <= k1 < v@.len() && 0 <= k2 < v@.len() && k1 != k2 ==> #[trigger] v@[k1].0
                        != #[trigger] v@[k2].0
                &&& forall|k: int|
                    0 <= k < v@.len() ==> self.class_edge(eclass, (#[trigger] v@[k]).0) == Some(
                        v@[k].1@.to_set(),
                    )
                &&& forall|c: usize|
                    self.linked(eclass, c) ==> exists|k: int|
                        0 <= k < v@.len() && #[trigger] v@[k].0 == c
            },
    {
        if !self.contains(eclass) {
            return None;
        }
        let n = self.get_node_by_id(eclass);
        proof {
            self.lemma_adj_entries(eclass);
        }
        let list = &self.edges[n];
        let mut r: Vec<(usize, Vec<usize>)> = Vec::new();
        let mut k: usize = 0;
        while k < list.len()
            invariant
                self.wf(),
                self.class_is_live(eclass),
                n == self.index()[eclass],
                list@ == self.adj(n),
                k <= list@.len(),
                r@.len() == k,
                forall|j: int|
                    0 <= j < k ==> (#[trigger] r@[j]).0 == self.ids()[list@[j].0 as int] && r@[j].1@
                        == list@[j].1@,
                forall|kk: int|
                    0 <= kk < self.adj(self.index()[eclass]).len() ==> {
                        let e = #[trigger] self.adj(self.index()[eclass])[kk];
                        &&& e.0 < self.ids().len()
                        &&& self.has_class(self.ids()[e.0 as int])
                        &&& self.index()[self.ids()[e.0 as int]] == e.0
                        &&& self.class_edge(eclass, self.ids()[e.0 as int]) == Some(e.1@.to_set())
                    },
            decreases list@.len() - k,
        {
            let target = self.nodes_to_ids[list[k].0];
            let enodes = copy_vec(&list[k].1);
            r.push((target, enodes));
            k = k + 1;
        }
        proof {
            assert forall|k1: int, k2: int|
                0 <= k1 < r@.len() && 0 <= k2 < r@.len() && k1 != k2 implies #[trigger] r@[k1].0
                    != #[trigger] r@[k2].0 by {
                assert(self.adj(self.index()[eclass])[k1] == list@[k1]);
                assert(self.adj(self.index()[eclass])[k2] == list@[k2]);
            }
            assert forall|kk: int|
                0 <= kk < r@.len() implies self.class_edge(eclass, (#[trigger] r@[kk]).0) == Some(
                    r@[kk].1@.to_set(),
                ) by {
                assert(self.adj(self.index()[eclass])[kk] == list@[kk]);
            }
            assert forall|c: usize| self.linked(eclass, c) implies exists|kk: int|
                0 <= kk < r@.len() && #[trigger] r@[kk].0 == c by {
                let kk = choose|kk: int|
                    0 <= kk < self.adj(self.index()[eclass]).len() && #[trigger] self.adj(
                        self.index()[eclass],
                    )[kk].0 == self.index()[c];
                assert(self.ids()[self.index()[c] as int] == c);
                assert(r@[kk].0 == c);
            }
        }
        Some(r)
    }

    /// The classes that have been added and not removed.
    #[verifier::spinoff_prover]
    pub fn nodes(&self) -> (r: HashSet<usize>)
        requires
            self.wf(),
        ensures
            r@ == self.live_classes(),
    {
        let mut r: HashSet<usize> = HashSet::new();
        let mut n: usize = 0;
        while n < self.num_nodes
            invariant
                self.wf(),
                n <= self.num_nodes,
                r@ == Set::new(|c: usize| self.class_is_live(c) && self.index()[c] < n),
            decreases self.num_nodes - n,
        {
            if self.nodes.contains(&n) {
                let c = self.nodes_to_ids[n];
                r.insert(c);
                proof {
                    assert(self.ids_to_nodes@.contains_key(self.nodes_to_ids@[n as int]));
                }
            }
            proof {
                let ghost target = Set::new(|c: usize| self.class_is_live(c) && self.index()[c] < n + 1);
                assert forall|c: usize| r@.contains(c) <==> target.contains(c) by {
                    if target.contains(c) && self.index()[c] == n {
                        assert(self.ids_to_nodes@.contains_key(c));
                    }
                }
                assert(r@ =~= target);
            }
            n = n + 1;
        }
        proof {
            assert forall|c: usize| r@.contains(c) <==> self.live_classes().contains(c) by {
                if self.has_class(c) {
                    assert(self.ids_to_nodes@.contains_key(c));
                }
            }
            assert(r@ =~= self.live_classes());
        }
        r
    }
}

/// No two entries of an adjacency list have the same target.
pub open spec fn distinct_targets(list: Seq<(usize, Vec<usize>)>) -> bool {
    forall|k1: int, k2: int|
        0 <= k1 < list.len() && 0 <= k2 < list.len() && k1 != k2 ==> #[trigger] list[k1].0
            != #[trigger] list[k2].0
}

/// Whether `x` occurs in `v`.
fn vec_contains(v: &Vec<usize>, x: usize) -> (r: bool)
    ensures
        r == v@.contains(x),
{
    let mut i: usize = 0;
    while i < v.len()
        invariant
            i <= v@.len(),
            forall|j: int| 0 <= j < i ==> v@[j] != x,
        decreases v@.len() - i,
    {
        if v[i] == x {
            return true;
        }
        i = i + 1;
    }
    false
}

/// Adds `enode` to the e-node variables of the entry for `t` in an adjacency
/// list with distinct targets, making that entry if there is none.
#[verifier::spinoff_prover]
fn add_to_list(list: &mut Vec<(usize, Vec<usize>)>, t: usize, enode: usize)
    requires
        distinct_targets(old(list)@),
        forall|k: int| 0 <= k < old(list)@.len() ==> (#[trigger] old(list)@[k]).1@.no_duplicates(),
    ensures
        distinct_targets(final(list)@),
        forall|k: int| 0 <= k < final(list)@.len() ==> (#[trigger] final(list)@[k]).1@.no_duplicates(),
        forall|k: int| 0 <= k < final(list)@.len() ==> ((#[trigger] final(list)@[k]).0 == t || exists|j: int| 0 <= j < old(list)@.len() && old(list)@[j] == final(list)@[k]),
        forall|k: int| 0 <= k < final(list)@.len() && (#[trigger] final(list)@[k]).0 == t ==> final(list)@[k].1@.len() > 0,
        forall|v: usize|
            adj_lookup(final(list)@, v) == if v == t {
                Some(
                    match adj_lookup(old(list)@, v) {
                        Some(s) => s,
                        None => Set::empty(),
                    }.insert(enode),
                )
            } else {
                adj_lookup(old(list)@, v)
            },
{
    let ghost l0 = list@;
    let mut k: usize = 0;
    let mut found = false;
    while k < list.len()
        invariant
            list@ == l0,
            k <= l0.len(),
            forall|j: int| 0 <= j < k ==> #[trigger] l0[j].0 != t,
            found ==> k < l0.len() && l0[k as int].0 == t,
        ensures
            found ==> k < l0.len() && l0[k as int].0 == t,
            !found ==> forall|j: int| 0 <= j < l0.len() ==> #[trigger] l0[j].0 != t,
        decreases l0.len() - k,
    {
        if list[k].0 == t {
            found = true;
            break;
        }
        k = k + 1;
    }
    if found {
        let (tg, mut es) = list.remove(k);
        let ghost es0 = es@;
        if !vec_contains(&es, enode) {
            es.push(enode);
        }
        list.insert(k, (tg, es));
        proof {
            assert(list@ =~= l0.update(k as int, (tg, es)));
            assert forall|x: usize| es@.contains(x) <==> es0.contains(x) || x == enode by {
                if es0.contains(x) {
                    let i = choose|i: int| 0 <= i < es0.len() && es0[i] == x;
                    assert(es@[i] == x);
                }
                if x == enode && !es0.contains(enode) {
                    assert(es@[es0.len() as int] == x);
                }
                if es@.contains(x) && !es0.contains(enode) {
                    let i = choose|i: int| 0 <= i < es@.len() && es@[i] == x;
                    if i < es0.len() {
                        assert(es0[i] == x);
                    }
                }
            }
            assert(es@.to_set() =~= es0.to_set().insert(enode));
            assert(es@.no_duplicates()) by {
                if !es0.contains(enode) {
                    assert forall|a: int, b: int| 0 <= a < es@.len() && 0 <= b < es@.len() && a != b implies es@[a] != es@[b] by {
                        if a == es0.len() as int {
                            assert(es@[b] == es0[b]);
                        } else if b == es0.len() as int {
                            assert(es@[a] == es0[a]);
                        } else {
                            assert(es@[a] == es0[a] && es@[b] == es0[b]);
                        }
                    }
                }
            }
            assert forall|v: usize|
                adj_lookup(list@, v) == if v == t {
                    Some(
                        match adj_lookup(l0, v) {
                            Some(s) => s,
                            None => Set::empty(),
                        }.insert(enode),
                    )
                } else {
                    adj_lookup(l0, v)
                } by {
                lemma_adj_lookup_at(l0, k as int);
                if v == t {
                    lemma_adj_lookup_at(list@, k as int);
                } else if adj_lookup(l0, v) is Some {
                    let j = lemma_adj_lookup(l0, v);
                    assert(list@[j] == l0[j]);
                    lemma_adj_lookup_at(list@, j);
                } else {
                    assert forall|j: int| 0 <= j < list@.len() implies #[trigger] list@[j].0 != v by {
                        if j != k {
                            assert(list@[j] == l0[j]);
                            if l0[j].0 == v {
                                lemma_adj_lookup_at(l0, j);
                            }
                        }
                    }
                    lemma_adj_lookup_none(list@, v);
                }
            }
            assert forall|kk: int| 0 <= kk < list@.len() implies ((#[trigger] list@[kk]).0 == t || exists|j: int| 0 <= j < l0.len() && l0[j] == list@[kk]) by {
                if kk != k {
                    assert(l0[kk] == list@[kk]);
                }
            }
        }
    } else {
        let mut es: Vec<usize> = Vec::new();
        es.push(enode);
        list.push((t, es));
        proof {
            assert(es@ =~= seq![enode]);
            assert(es@.to_set() =~= Set::<usize>::empty().insert(enode)) by {
                assert(es@[0] == enode);
            }
            lemma_adj_lookup_none(l0, t);
            assert forall|v: usize|
                adj_lookup(list@, v) == if v == t {
                    Some(
                        match adj_lookup(l0, v) {
                            Some(s) => s,
                            None => Set::empty(),
                        }.insert(enode),
                    )
                } else {
                    adj_lookup(l0, v)
                } by {
                assert(list@.drop_last() =~= l0);
            }
            assert forall|kk: int| 0 <= kk < list@.len() implies ((#[trigger] list@[kk]).0 == t || exists|j: int| 0 <= j < l0.len() && l0[j] == list@[kk]) by {
                if kk < l0.len() {
                    assert(l0[kk] == list@[kk]);
                }
            }
        }
    }
}

/// The classes by number once `from` and then `to` are numbered: each one
/// new to the graph gets the next number.
pub open spec fn numbered_after(g: &HyperGraph, from: usize, to: usize) -> Seq<usize> {
    let ids1 = if g.has_class(from) {
        g.ids()
    } else {
        g.ids().push(from)
    };
    if g.has_class(to) || to == from {
        ids1
    } else {
        ids1.push(to)
    }
}

impl HyperGraph {
    /// What `connect(from, to, enode)` leaves: both classes live, the edge
    /// from `from` to `to` carrying `enode` besides what it carried, every other
    /// edge as it was, and the numbering of the classes already there kept.
    pub open spec fn connected(
        &self,
        old_graph: &HyperGraph,
        from: usize,
        to: usize,
        enode: usize,
    ) -> bool {
        &&& self.class_is_live(from)
        &&& self.class_is_live(to)
        &&& forall|c: usize| #[trigger]
            self.has_class(c) <==> old_graph.has_class(c) || c == from || c == to
        &&& forall|c: usize| #[trigger]
            old_graph.has_class(c) ==> self.index()[c] == old_graph.index()[c]
        &&& self.live_classes() == old_graph.live_classes().insert(from).insert(to)
        &&& forall|a: usize, b: usize| #[trigger]
            self.class_edge(a, b) == if a == from && b == to {
                Some(
                    match old_graph.class_edge(a, b) {
                        Some(s) => s,
                        None => Set::empty(),
                    }.insert(enode),
                )
            } else {
                old_graph.class_edge(a, b)
            }
        &&& old_graph.ids().len() <= self.ids().len() <= old_graph.ids().len() + 2
        &&& forall|n: int| 0 <= n < old_graph.ids().len() ==> #[trigger] self.ids()[n] == old_graph.ids()[n]
        &&& self.ids() == numbered_after(old_graph, from, to)
        &&& forall|n: usize| #[trigger]
            self.live().contains(n) <==> old_graph.live().contains(n) || old_graph.ids().len() <= n
                < self.ids().len()
    }

    /// Records that e-node variable `enode` induces an edge from class `from`
    /// to class `to`, adding either class first if it is new.
    #[verifier::spinoff_prover]
    fn connect(&mut self, from: usize, to: usize, enode: usize)
        requires
            old(self).wf(),
            old(self).has_class(from) ==> old(self).class_is_live(from),
            old(self).has_class(to) ==> old(self).class_is_live(to),
            old(self).ids().len() + 2 <= usize::MAX,
        ensures
            final(self).wf(),
            final(self).connected(&*old(self), from, to, enode),
    {
        let ghost g0 = *self;
        if !self.contains(from) {
            self.add_node(from);
        }
        if !self.contains(to) {
            self.add_node(to);
        }
        let ghost g1 = *self;
        let f = self.get_node_by_id(from);
        let t = self.get_node_by_id(to);
        proof {
            assert(g1.ids_to_nodes@.contains_key(g1.nodes_to_ids@[f as int]));
            assert(g1.ids_to_nodes@.contains_key(g1.nodes_to_ids@[t as int]));
            assert forall|k: int| 0 <= k < g1.edges@[f as int]@.len() implies (#[trigger] g1.edges@[f as int]@[k]).1@.no_duplicates() by {
                let e = g1.edges@[f as int]@[k];
            }
        }
        let mut list: Vec<(usize, Vec<usize>)> = Vec::new();
        std::mem::swap(&mut list, &mut self.edges[f]);
        add_to_list(&mut list, t, enode);
        std::mem::swap(&mut list, &mut self.edges[f]);
        proof {
            let l0 = g1.edges@[f as int]@;
            let l1 = self.edges@[f as int]@;
            assert(self.edges@ =~= g1.edges@.update(f as int, self.edges@[f as int]));
            assert(self.nodes_to_ids@ == g1.nodes_to_ids@);
            assert(self.ids_to_nodes@ == g1.ids_to_nodes@);
            assert(self.nodes@ == g1.nodes@);
            assert forall|n: int, kk: int|
                0 <= n < self.num_nodes && 0 <= kk < self.edges@[n]@.len() implies {
                    let e = #[trigger] self.edges@[n]@[kk];
                    &&& e.0 < self.num_nodes
                    &&& self.nodes@.contains(e.0)
                    &&& self.nodes@.contains(n as usize)
                    &&& e.1@.no_duplicates()
                    &&& e.1@.len() > 0
                } by {
                if n == f {
                    let e = l1[kk];
                    if e.0 != t {
                        let j = choose|j: int| 0 <= j < l0.len() && l0[j] == l1[kk];
                        let e0 = g1.edges@[n]@[j];
                    }
                } else {
                    assert(self.edges@[n] == g1.edges@[n]);
                    let e = g1.edges@[n]@[kk];
                }
            }
            assert forall|n: int, k1: int, k2: int|
                0 <= n < self.num_nodes && 0 <= k1 < self.edges@[n]@.len() && 0 <= k2
                    < self.edges@[n]@.len() && k1 != k2 implies #[trigger] self.edges@[n]@[k1].0
                    != #[trigger] self.edges@[n]@[k2].0 by {
                if n != f {
                    assert(self.edges@[n] == g1.edges@[n]);
                }
            }
            assert forall|n: int|
                0 <= n < self.num_nodes && !self.nodes@.contains(n as usize) implies (
                #[trigger] self.edges@[n])@.len() == 0 by {
                assert(n != f);
                assert(self.edges@[n] == g1.edges@[n]);
            }
            assert(g1.wf());
            assert(self.num_nodes == g1.num_nodes);
            assert(self.edges@.len() == g1.edges@.len());
            assert(self.wf());
            assert forall|u: usize, v: usize| #[trigger] self.edge(u, v) == if u == f && v == t {
                Some(
                    match g1.edge(u, v) {
                        Some(s) => s,
                        None => Set::empty(),
                    }.insert(enode),
                )
            } else {
                g1.edge(u, v)
            } by {
                if u != f && u < self.num_nodes {
                    assert(self.edges@[u as int] == g1.edges@[u as int]);
                }
            }
            g1.lemma_facts();
            g0.lemma_facts();
            assert forall|a: usize, b: usize| #[trigger]
                self.class_edge(a, b) == if a == from && b == to {
                    Some(
                        match g0.class_edge(a, b) {
                            Some(s) => s,
                            None => Set::empty(),
                        }.insert(enode),
                    )
                } else {
                    g0.class_edge(a, b)
                } by {
                if self.has_class(a) && self.has_class(b) {
                    let ia = self.index()[a];
                    let ib = self.index()[b];
                    assert(g1.edge(ia, ib) == g0.edge(ia, ib));
                    if g0.has_class(a) && g0.has_class(b) {
                    } else {
                        if g1.edge(ia, ib) is Some {
                            assert(g0.live().contains(ia) && g0.live().contains(ib));
                            assert(g0.ids_to_nodes@.contains_key(g0.nodes_to_ids@[ia as int]));
                            assert(g0.ids_to_nodes@.contains_key(g0.nodes_to_ids@[ib as int]));
                        }
                    }
                    if a == from && b == to {
                        assert(ia == f && ib == t);
                    } else {
                        assert(ia != f || ib != t);
                    }
                }
            }
            assert forall|c: usize| self.live_classes().contains(c) <==> g0.live_classes().insert(from).insert(to).contains(c) by {
                if g0.has_class(c) {
                    assert(g0.ids_to_nodes@.contains_key(c));
                }
            }
            assert(self.live_classes() =~= g0.live_classes().insert(from).insert(to));
        }
    }
}

impl HyperGraph {
    /// Removes node number `node`, with every edge into or out of it, if it
    /// is live. Node numbers and classes keep their correspondence.
    #[verifier::spinoff_prover]
    pub fn remove_node_raw(&mut self, node: usize)
        requires
            old(self).wf(),
        ensures
            final(self).wf(),
            final(self).ids() == old(self).ids(),
            final(self).index() == old(self).index(),
            final(self).live() == old(self).live().remove(node),
            forall|u: usize, v: usize| #[trigger]
                final(self).edge(u, v) == if u == node || v == node {
                    None
                } else {
                    old(self).edge(u, v)
                },
    {
        if !self.nodes.contains(&node) {
            proof {
                assert(self.live() =~= self.live().remove(node));
                assert forall|u: usize, v: usize| #[trigger]
                    self.edge(u, v) == if u == node || v == node {
                        None
                    } else {
                        self.edge(u, v)
                    } by {
                    if self.edge(u, v) is Some {
                        self.lemma_facts();
                    }
                }
            }
            return;
        }
        let ghost g_old = *self;
        let mut own: Vec<(usize, Vec<usize>)> = Vec::new();
        std::mem::swap(&mut own, &mut self.edges[node]);
        let ghost g0 = *self;
        proof {
            assert(g0.edges@ =~= g_old.edges@.update(node as int, g0.edges@[node as int]));
            assert(g0.edges@[node as int]@.len() == 0);
            assert forall|n: int, kk: int|
                0 <= n < g0.num_nodes && 0 <= kk < g0.edges@[n]@.len() implies {
                    let e = #[trigger] g0.edges@[n]@[kk];
                    &&& e.0 < g0.num_nodes
                    &&& g0.nodes@.contains(e.0)
                    &&& g0.nodes@.contains(n as usize)
                    &&& e.1@.no_duplicates()
                    &&& e.1@.len() > 0
                } by {
                assert(g0.edges@[n] == g_old.edges@[n]);
            }
            assert forall|n: int, k1: int, k2: int|
                0 <= n < g0.num_nodes && 0 <= k1 < g0.edges@[n]@.len() && 0 <= k2
                    < g0.edges@[n]@.len() && k1 != k2 implies #[trigger] g0.edges@[n]@[k1].0
                    != #[trigger] g0.edges@[n]@[k2].0 by {
                assert(g0.edges@[n] == g_old.edges@[n]);
            }
        }
        let mut u: usize = 0;
        while u < self.edges.len()
            invariant
                self.wf(),
                self.nodes@ == g0.nodes@,
                self.nodes_to_ids@ == g0.nodes_to_ids@,
                self.ids_to_nodes@ == g0.ids_to_nodes@,
                self.num_nodes == g0.num_nodes,
                self.edges@.len() == g0.edges@.len(),
                g0.wf(),
                g0.nodes@.contains(node),
                u <= self.edges@.len(),
                forall|w: int| u <= w < self.edges@.len() ==> #[trigger] self.edges@[w] == g0.edges@[w],
                forall|w: int, k: int|
                    0 <= w < u && 0 <= k < self.edges@[w]@.len() ==> (#[trigger] self.edges@[w]@[k]).0
                        != node,
                forall|w: usize, v: usize|
                    w < u ==> #[trigger] self.edge(w, v) == if v == node {
                        None
                    } else {
                        g0.edge(w, v)
                    },
            decreases self.edges@.len() - u,
        {
            let ghost before = *self;
            let filtered = filter_out(&self.edges[u], node);
            proof {
                let list = before.edges@[u as int]@;
                assert forall|v: usize| adj_lookup(filtered@, v) == if v == node {
                    None
                } else {
                    adj_lookup(list, v)
                } by {
                    lemma_filtered_lookup(filtered@, list, node, v);
                }
            }
            self.edges.set(u, filtered);
            proof {
                let list = before.edges@[u as int]@;
                assert(self.edges@ =~= before.edges@.update(u as int, filtered));
                assert forall|n: int, kk: int|
                    0 <= n < self.num_nodes && 0 <= kk < self.edges@[n]@.len() implies {
                        let e = #[trigger] self.edges@[n]@[kk];
                        &&& e.0 < self.num_nodes
                        &&& self.nodes@.contains(e.0)
                        &&& self.nodes@.contains(n as usize)
                        &&& e.1@.no_duplicates()
                        &&& e.1@.len() > 0
                    } by {
                    if n == u {
                        let j = choose|j: int|
                            0 <= j < list.len() && #[trigger] list[j].0 == filtered@[kk].0 && list[j].1@
                                == filtered@[kk].1@;
                        let e0 = before.edges@[n]@[j];
                    } else {
                        assert(self.edges@[n] == before.edges@[n]);
                        let e0 = before.edges@[n]@[kk];
                    }
                }
                assert forall|n: int, k1: int, k2: int|
                    0 <= n < self.num_nodes && 0 <= k1 < self.edges@[n]@.len() && 0 <= k2
                        < self.edges@[n]@.len() && k1 != k2 implies #[trigger] self.edges@[n]@[k1].0
                        != #[trigger] self.edges@[n]@[k2].0 by {
                    if n != u {
                        assert(self.edges@[n] == before.edges@[n]);
                    }
                }
                assert forall|n: int|
                    0 <= n < self.num_nodes && !self.nodes@.contains(n as usize) implies (
                    #[trigger] self.edges@[n])@.len() == 0 by {
                    if n == u {
                        assert(list.len() == 0);
                        if filtered@.len() > 0 {
                            let j = choose|j: int|
                                0 <= j < list.len() && #[trigger] list[j].0 == filtered@[0].0;
                        }
                    } else {
                        assert(self.edges@[n] == before.edges@[n]);
                    }
                }
                assert forall|w: usize, v: usize|
                    w < u + 1 implies #[trigger] self.edge(w, v) == if v == node {
                        None
                    } else {
                        g0.edge(w, v)
                    } by {
                    if w < u {
                        assert(self.edges@[w as int] == before.edges@[w as int]);
                        assert(before.edge(w, v) == self.edge(w, v));
                    } else {
                        assert(before.edges@[u as int] == g0.edges@[u as int]);
                    }
                }
                assert forall|w: int| u + 1 <= w < self.edges@.len() implies #[trigger] self.edges@[w] == g0.edges@[w] by {
                    assert(self.edges@[w] == before.edges@[w]);
                }
                assert forall|w: int, k: int|
                    0 <= w < u + 1 && 0 <= k < self.edges@[w]@.len() implies (#[trigger] self.edges@[w]@[k]).0
                        != node by {
                    if w < u {
                        assert(self.edges@[w] == before.edges@[w]);
                    }
                }
            }
            u = u + 1;
        }
        let ghost g2 = *self;
        self.nodes.remove(&node);
        proof {
            assert forall|n: int, kk: int|
                0 <= n < self.num_nodes && 0 <= kk < self.edges@[n]@.len() implies {
                    let e = #[trigger] self.edges@[n]@[kk];
                    &&& e.0 < self.num_nodes
                    &&& self.nodes@.contains(e.0)
                    &&& self.nodes@.contains(n as usize)
                    &&& e.1@.no_duplicates()
                    &&& e.1@.len() > 0
                } by {
                let e = g2.edges@[n]@[kk];
                if n == node {
                    assert(g0.edges@[n]@.len() == 0);
                    assert(g0.edge(node, e.0) is None);
                    assert(g2.edge(node, e.0) is None);
                    lemma_adj_lookup_at(g2.edges@[n]@, kk);
                }
            }
            assert forall|n: int|
                0 <= n < self.num_nodes && !self.nodes@.contains(n as usize) implies (
                #[trigger] self.edges@[n])@.len() == 0 by {
                if n == node {
                    if self.edges@[n]@.len() > 0 {
                        let e = g2.edges@[n]@[0];
                        assert(g0.edge(node, e.0) is None);
                        assert(g2.edge(node, e.0) is None);
                        lemma_adj_lookup_at(g2.edges@[n]@, 0);
                    }
                }
            }
            assert(self.wf());
            assert(self.live() =~= g_old.live().remove(node));
            assert forall|uu: usize, v: usize| #[trigger]
                self.edge(uu, v) == if uu == node || v == node {
                    None
                } else {
                    g_old.edge(uu, v)
                } by {
                if uu < self.num_nodes {
                    assert(self.edge(uu, v) == g2.edge(uu, v));
                    if uu != node {
                        assert(g0.edges@[uu as int] == g_old.edges@[uu as int]);
                    }
                }
            }
        }
    }

    /// Removes class `node`, with every edge into or out of it. The class
    /// keeps its node number.
    #[verifier::spinoff_prover]
    pub fn remove_node(&mut self, node: usize)
        requires
            old(self).wf(),
            old(self).has_class(node),
        ensures
            final(self).wf(),
            final(self).ids() == old(self).ids(),
            final(self).index() == old(self).index(),
            final(self).live_classes() == old(self).live_classes().remove(node),
            forall|a: usize, b: usize| #[trigger]
                final(self).class_edge(a, b) == if a == node || b == node {
                    None
                } else {
                    old(self).class_edge(a, b)
                },
    {
        let node_id = self.get_node_by_id(node);
        let ghost g0 = *self;
        self.remove_node_raw(node_id);
        proof {
            assert forall|c: usize| self.live_classes().contains(c) <==> g0.live_classes().remove(node).contains(c) by {
                if g0.has_class(c) && c != node {
                    assert(g0.ids_to_nodes@.contains_key(c));
                    assert(g0.ids_to_nodes@.contains_key(node));
                    assert(g0.nodes_to_ids@[g0.index()[c] as int] == c);
                }
            }
            assert(self.live_classes() =~= g0.live_classes().remove(node));
            assert forall|a: usize, b: usize| #[trigger]
                self.class_edge(a, b) == if a == node || b == node {
                    None
                } else {
                    g0.class_edge(a, b)
                } by {
                if g0.has_class(a) && g0.has_class(b) {
                    assert(g0.ids_to_nodes@.contains_key(a));
                    assert(g0.ids_to_nodes@.contains_key(b));
                    assert(g0.ids_to_nodes@.contains_key(node));
                    assert(g0.nodes_to_ids@[g0.index()[a] as int] == a);
                    assert(g0.nodes_to_ids@[g0.index()[b] as int] == b);
                    assert(g0.nodes_to_ids@[g0.index()[node] as int] == node);
                }
            }
        }
    }
}

impl HyperGraph {
    /// A graph whose classes all lie in a finite set has at most as many
    /// node numbers as the set has elements.
    proof fn lemma_ids_bound(&self, s: Set<usize>)
        requires
            self.wf(),
            s.finite(),
            forall|c: usize| #[trigger] self.has_class(c) ==> s.contains(c),
        ensures
            self.ids().len() <= s.len(),
    {
        let ids = self.ids();
        assert forall|i: int, j: int| 0 <= i < ids.len() && 0 <= j < ids.len() && i != j implies ids[i] != ids[j] by {
            assert(self.ids_to_nodes@.contains_key(self.nodes_to_ids@[i]));
            assert(self.ids_to_nodes@.contains_key(self.nodes_to_ids@[j]));
        }
        ids.unique_seq_to_set();
        assert forall|c: usize| ids.to_set().contains(c) implies s.contains(c) by {
            let i = choose|i: int| 0 <= i < ids.len() && ids[i] == c;
            assert(self.ids_to_nodes@.contains_key(self.nodes_to_ids@[i]));
            assert(self.has_class(ids[i]));
        }
        vstd::set_lib::lemma_len_subset(ids.to_set(), s);
    }

    /// The graph on the classes in `nodes`, with the edges of this graph
    /// that join two of them. Each class gets its number in the new graph when
    /// an edge first mentions it.
    #[verifier::spinoff_prover]
    pub fn subgraph(&self, nodes: &[usize]) -> (g: Self)
        requires
            self.wf(),
            forall|i: int| 0 <= i < nodes@.len() ==> self.class_is_live(#[trigger] nodes@[i]),
            nodes@.len() < usize::MAX - 1,
        ensures
            g.wf(),
            forall|a: usize, b: usize| #[trigger]
                g.class_edge(a, b) == if nodes@.contains(a) && nodes@.contains(b) {
                    self.class_edge(a, b)
                } else {
                    None
                },
            forall|c: usize| #[trigger] g.has_class(c) ==> nodes@.contains(c),
            forall|c: usize| #[trigger]
                g.has_class(c) <==> nodes@.contains(c) && exists|b: usize|
                    nodes@.contains(b) && (self.linked(c, b) || self.linked(b, c)),
            forall|n: usize| #[trigger] g.live().contains(n) <==> n < g.ids().len(),
            g.ids().len() <= nodes@.len(),
    {
        let ghost s = nodes@.to_set();
        proof {
            nodes@.lemma_cardinality_of_set();
        }
        let mut set: HashSet<usize> = HashSet::new();
        let mut i: usize = 0;
        while i < nodes.len()
            invariant
                i <= nodes@.len(),
                set@ == nodes@.subrange(0, i as int).to_set(),
            decreases nodes@.len() - i,
        {
            set.insert(nodes[i]);
            proof {
                lemma_prefix_set(nodes@, i as int);
            }
            i = i + 1;
        }
        proof {
            assert(nodes@.subrange(0, nodes@.len() as int) =~= nodes@);
        }
        let mut graph = HyperGraph::new();
        let mut done: HashSet<usize> = HashSet::new();
        let mut i: usize = 0;
        while i < nodes.len()
            invariant
                self.wf(),
                forall|j: int| 0 <= j < nodes@.len() ==> self.class_is_live(#[trigger] nodes@[j]),
                nodes@.len() < usize::MAX - 1,
                s == nodes@.to_set(),
                s.len() <= nodes@.len(),
                set@ == s,
                i <= nodes@.len(),
                done@ == nodes@.subrange(0, i as int).to_set(),
                graph.wf(),
                forall|a: usize, b: usize| #[trigger]
                    graph.class_edge(a, b) == if done@.contains(a) && s.contains(b) {
                        self.class_edge(a, b)
                    } else {
                        None
                    },
                forall|c: usize| #[trigger] graph.has_class(c) ==> s.contains(c),
                forall|c: usize| #[trigger] graph.has_class(c) ==> graph.touched(c),
                forall|n: usize| #[trigger] graph.live().contains(n) <==> n < graph.ids().len(),
            decreases nodes@.len() - i,
        {
            let n = nodes[i];
            let ghost done0 = done@;
            proof {
                lemma_prefix_set(nodes@, i as int);
                assert(s.contains(n)) by {
                    assert(nodes@[i as int] == n);
                }
            }
            if !done.contains(&n) {
                done.insert(n);
                proof {
                    assert(self.class_is_live(nodes@[i as int]));
                    self.lemma_adj_entries(n);
                }
                let idx = self.get_node_by_id(n);
                let list = &self.edges[idx];
                let mut k: usize = 0;
                while k < list.len()
                    invariant
                        self.wf(),
                        self.class_is_live(n),
                        idx == self.index()[n],
                        list@ == self.adj(idx),
                        forall|kk: int|
                            0 <= kk < self.adj(self.index()[n]).len() ==> {
                                let e = #[trigger] self.adj(self.index()[n])[kk];
                                &&& e.0 < self.ids().len()
                                &&& self.has_class(self.ids()[e.0 as int])
                                &&& self.index()[self.ids()[e.0 as int]] == e.0
                                &&& self.class_edge(n, self.ids()[e.0 as int]) == Some(e.1@.to_set())
                            },
                        forall|k1: int, k2: int|
                            0 <= k1 < self.adj(self.index()[n]).len() && 0 <= k2 < self.adj(
                                self.index()[n],
                            ).len() && k1 != k2 ==> #[trigger] self.adj(self.index()[n])[k1].0
                                != #[trigger] self.adj(self.index()[n])[k2].0,
                        forall|c: usize| #[trigger]
                            self.linked(n, c) ==> exists|kk: int|
                                0 <= kk < self.adj(self.index()[n]).len() && #[trigger] self.adj(
                                    self.index()[n],
                                )[kk].0 == self.index()[c],
                        nodes@.len() < usize::MAX - 1,
                        s == nodes@.to_set(),
                        s.len() <= nodes@.len(),
                        set@ == s,
                        s.contains(n),
                        !done0.contains(n),
                        k <= list@.len(),
                        graph.wf(),
                        forall|a: usize, b: usize| #[trigger]
                            graph.class_edge(a, b) == if s.contains(b) && (done0.contains(a) || (a == n
                                && exists|j: int| 0 <= j < k && self.ids()[list@[j].0 as int] == b)) {
                                self.class_edge(a, b)
                            } else {
                                None
                            },
                        forall|c: usize| #[trigger] graph.has_class(c) ==> s.contains(c),
                forall|c: usize| #[trigger] graph.has_class(c) ==> graph.touched(c),
                        forall|m: usize| #[trigger] graph.live().contains(m) <==> m < graph.ids().len(),
                    decreases list@.len() - k,
                {
                    let nb = self.nodes_to_ids[list[k].0];
                    let ghost seen = Set::new(|b: usize| exists|j: int| 0 <= j < k && self.ids()[list@[j].0 as int] == b);
                    let ghost seen1 = Set::new(|b: usize| exists|j: int| 0 <= j < k + 1 && self.ids()[list@[j].0 as int] == b);
                    proof {
                        let e = self.adj(self.index()[n])[k as int];
                        assert(e == list@[k as int]);
                        assert(!seen.contains(nb)) by {
                            if seen.contains(nb) {
                                let j = choose|j: int| 0 <= j < k && self.ids()[list@[j].0 as int] == nb;
                                let ej = self.adj(self.index()[n])[j];
                                assert(ej == list@[j]);
                                assert(ej.0 != e.0);
                            }
                        }
                        assert forall|b: usize| seen1.contains(b) <==> seen.contains(b) || b == nb by {
                            if seen1.contains(b) {
                                let j = choose|j: int| 0 <= j < k + 1 && self.ids()[list@[j].0 as int] == b;
                                if j < k {
                                    assert(seen.contains(b));
                                }
                            }
                            if seen.contains(b) {
                                let j = choose|j: int| 0 <= j < k && self.ids()[list@[j].0 as int] == b;
                                assert(seen1.contains(b));
                            }
                            if b == nb {
                                assert(self.ids()[list@[k as int].0 as int] == b);
                                assert(seen1.contains(b));
                            }
                        }
                    }
                    if set.contains(&nb) {
                        let enodes = &list[k].1;
                        let mut e: usize = 0;
                        proof {
                            let en = self.adj(self.index()[n])[k as int];
                            assert(en == list@[k as int]);
                        }
                        while e < enodes.len()
                            invariant
                                self.wf(),
                                self.class_is_live(n),
                                enodes@ == list@[k as int].1@,
                                enodes@.len() > 0,
                                self.class_edge(n, nb) == Some(enodes@.to_set()),
                                nodes@.len() < usize::MAX - 1,
                                s == nodes@.to_set(),
                                s.len() <= nodes@.len(),
                                s.contains(n),
                                s.contains(nb),
                                !done0.contains(n),
                                !seen.contains(nb),
                                e <= enodes@.len(),
                                graph.wf(),
                                forall|a: usize, b: usize| #[trigger]
                                    graph.class_edge(a, b) == if a == n && b == nb {
                                        if e == 0 {
                                            None
                                        } else {
                                            Some(enodes@.subrange(0, e as int).to_set())
                                        }
                                    } else if s.contains(b) && (done0.contains(a) || (a == n
                                        && seen.contains(b))) {
                                        self.class_edge(a, b)
                                    } else {
                                        None
                                    },
                                forall|c: usize| #[trigger] graph.has_class(c) ==> s.contains(c),
                forall|c: usize| #[trigger] graph.has_class(c) ==> graph.touched(c),
                                forall|m: usize| #[trigger] graph.live().contains(m) <==> m < graph.ids().len(),
                            decreases enodes@.len() - e,
                        {
                            proof {
                                graph.lemma_ids_bound(s);
                                graph.lemma_facts();
                            }
                            let ghost g0 = graph;
                            graph.connect(n, nb, enodes[e]);
                            proof {
                                lemma_prefix_set(enodes@, e as int);
                                assert(enodes@.subrange(0, 0).to_set() =~= Set::<usize>::empty());
                                assert forall|m: usize| #[trigger] graph.live().contains(m) <==> m < graph.ids().len() by {
                                    assert(graph.live().contains(m) <==> g0.live().contains(m) || g0.ids().len() <= m < graph.ids().len());
                                }
                                assert forall|c: usize| #[trigger] graph.has_class(c) implies s.contains(c) by {
                                    assert(graph.has_class(c) <==> g0.has_class(c) || c == n || c == nb);
                                }
                                assert(graph.linked(n, nb));
                                assert forall|c: usize| #[trigger] graph.has_class(c) implies graph.touched(c) by {
                                    if c == n || c == nb {
                                        assert(graph.linked(n, nb));
                                    } else {
                                        assert(g0.has_class(c));
                                        assert(g0.touched(c));
                                        let b = choose|b: usize| g0.linked(c, b) || g0.linked(b, c);
                                        if g0.linked(c, b) {
                                            assert(graph.linked(c, b));
                                        } else {
                                            assert(graph.linked(b, c));
                                        }
                                    }
                                }
                            }
                            e = e + 1;
                        }
                        proof {
                            assert(enodes@.subrange(0, enodes@.len() as int) =~= enodes@);
                        }
                    }
                    proof {
                        assert forall|a: usize, b: usize| #[trigger]
                            graph.class_edge(a, b) == if s.contains(b) && (done0.contains(a) || (a == n
                                && exists|j: int| 0 <= j < k + 1 && self.ids()[list@[j].0 as int] == b)) {
                                self.class_edge(a, b)
                            } else {
                                None
                            } by {
                            assert((exists|j: int| 0 <= j < k + 1 && self.ids()[list@[j].0 as int] == b) == seen1.contains(b));
                            assert((exists|j: int| 0 <= j < k && self.ids()[list@[j].0 as int] == b) == seen.contains(b));
                        }
                    }
                    k = k + 1;
                }
                proof {
                    assert forall|a: usize, b: usize| #[trigger]
                        graph.class_edge(a, b) == if done0.insert(n).contains(a) && s.contains(b) {
                            self.class_edge(a, b)
                        } else {
                            None
                        } by {
                        if a == n && s.contains(b) && !(exists|j: int| 0 <= j < k && self.ids()[list@[j].0 as int] == b) {
                            if self.linked(n, b) {
                                let kk = choose|kk: int|
                                    0 <= kk < self.adj(self.index()[n]).len() && #[trigger] self.adj(
                                        self.index()[n],
                                    )[kk].0 == self.index()[b];
                                assert(self.ids()[self.index()[b] as int] == b) by {
                                    self.lemma_facts();
                                }
                                assert(self.ids()[list@[kk].0 as int] == b);
                            }
                        }
                    }
                }
            } else {
                proof {
                    assert(done0.insert(n) =~= done0);
                }
            }
            i = i + 1;
        }
        proof {
            assert(nodes@.subrange(0, nodes@.len() as int) =~= nodes@);
            graph.lemma_ids_bound(s);
            assert forall|c: usize| #[trigger]
                graph.has_class(c) <==> nodes@.contains(c) && exists|b: usize|
                    nodes@.contains(b) && (self.linked(c, b) || self.linked(b, c)) by {
                if graph.has_class(c) {
                    assert(graph.touched(c));
                    let b = choose|b: usize| graph.linked(c, b) || graph.linked(b, c);
                    assert(graph.class_edge(c, b) is Some || graph.class_edge(b, c) is Some);
                    assert(nodes@.contains(b) && (self.linked(c, b) || self.linked(b, c)));
                }
                if nodes@.contains(c) && exists|b: usize| nodes@.contains(b) && (self.linked(c, b) || self.linked(b, c)) {
                    let b = choose|b: usize| nodes@.contains(b) && (self.linked(c, b) || self.linked(b, c));
                    assert(graph.class_edge(c, b) is Some || graph.class_edge(b, c) is Some);
                }
            }
        }
        graph
    }
}

/// The elements of a prefix one longer are those of the prefix and the next
/// element.
proof fn lemma_prefix_set(s: Seq<usize>, i: int)
    requires
        0 <= i < s.len(),
    ensures
        s.subrange(0, i + 1).to_set() == s.subrange(0, i).to_set().insert(s[i]),
{
    let a = s.subrange(0, i);
    let b = s.subrange(0, i + 1);
    assert forall|c: usize| b.to_set().contains(c) <==> a.to_set().insert(s[i]).contains(c) by {
        if c == s[i] {
            assert(b[i] == c);
        }
        if a.contains(c) {
            let j = choose|j: int| 0 <= j < a.len() && a[j] == c;
            assert(b[j] == c);
        }
        if b.contains(c) {
            let j = choose|j: int| 0 <= j < b.len() && b[j] == c;
            if j < i {
                assert(a[j] == c);
            }
        }
    }
    assert(b.to_set() =~= a.to_set().insert(s[i]));
}

impl HyperGraph {
    /// The live classes, each once, in the order of their node numbers.
    #[verifier::spinoff_prover]
    pub(crate) fn class_list(&self) -> (r: Vec<usize>)
        requires
            self.wf(),
        ensures
            r@.no_duplicates(),
            r@.to_set() == self.live_classes(),
    {
        let mut r: Vec<usize> = Vec::new();
        let mut n: usize = 0;
        while n < self.num_nodes
            invariant
                self.wf(),
                n <= self.num_nodes,
                r@.no_duplicates(),
                r@.to_set() == Set::new(|c: usize| self.class_is_live(c) && self.index()[c] < n),
            decreases self.num_nodes - n,
        {
            let ghost before = r@;
            if self.nodes.contains(&n) {
                let c = self.nodes_to_ids[n];
                proof {
                    assert(self.ids_to_nodes@.contains_key(self.nodes_to_ids@[n as int]));
                    assert(!before.contains(c)) by {
                        if before.contains(c) {
                            assert(before.to_set().contains(c));
                        }
                    }
                }
                r.push(c);
                proof {
                    assert forall|i: int, j: int| 0 <= i < r@.len() && 0 <= j < r@.len() && i != j implies r@[i] != r@[j] by {
                        if i < before.len() && j < before.len() {
                            assert(r@[i] == before[i] && r@[j] == before[j]);
                        } else if i < before.len() {
                            assert(r@[i] == before[i]);
                            assert(before.contains(r@[i]));
                        } else if j < before.len() {
                            assert(r@[j] == before[j]);
                            assert(before.contains(r@[j]));
                        }
                    }
                }
            }
            proof {
                let ghost target = Set::new(|c: usize| self.class_is_live(c) && self.index()[c] < n + 1);
                let ghost old_target = Set::new(|c: usize| self.class_is_live(c) && self.index()[c] < n);
                assert(before.to_set() == old_target);
                if self.live().contains(n) {
                    let c0 = self.nodes_to_ids@[n as int];
                    assert(r@ == before.push(c0));
                    assert(self.ids_to_nodes@.contains_key(c0));
                    assert forall|c: usize| r@.to_set().contains(c) <==> target.contains(c) by {
                        if r@.contains(c) {
                            let i = choose|i: int| 0 <= i < r@.len() && r@[i] == c;
                            if i < before.len() {
                                assert(before[i] == c);
                                assert(before.to_set().contains(c));
                            }
                        }
                        if target.contains(c) {
                            if self.index()[c] == n {
                                assert(self.ids_to_nodes@.contains_key(c));
                                assert(c == c0);
                                assert(r@[before.len() as int] == c);
                            } else {
                                assert(old_target.contains(c));
                                assert(before.contains(c));
                                let i = choose|i: int| 0 <= i < before.len() && before[i] == c;
                                assert(r@[i] == c);
                            }
                        }
                    }
                } else {
                    assert(r@ == before);
                    assert forall|c: usize| r@.to_set().contains(c) <==> target.contains(c) by {
                        if target.contains(c) && self.index()[c] == n {
                            assert(self.live().contains(n));
                        }
                        if target.contains(c) && self.index()[c] < n {
                            assert(old_target.contains(c));
                        }
                        if r@.to_set().contains(c) {
                            assert(old_target.contains(c));
                        }
                    }
                }
                assert(r@.to_set() =~= target);
            }
            n = n + 1;
        }
        proof {
            assert forall|c: usize| r@.to_set().contains(c) <==> self.live_classes().contains(c) by {
                if self.has_class(c) {
                    assert(self.ids_to_nodes@.contains_key(c));
                }
            }
            assert(r@.to_set() =~= self.live_classes());
        }
        r
    }
}

/// The variables of the e-nodes of class `a` that have a child in class `b`.
pub open spec fn enode_vars(g: &IndexedEGraph, vars: Seq<usize>, a: usize, b: usize) -> Set<usize> {
    Set::new(
        |v: usize|
            exists|k: int|
                0 <= k < g.class_nodes@[a as int]@.len() && #[trigger] g.node_points_to(
                    g.member(a, k),
                    b,
                ) && v == vars[g.member(a, k) as int],
    )
}

/// The edge that the e-nodes of class `a` induce to class `b`, if any.
pub open spec fn induced_edge(g: &IndexedEGraph, vars: Seq<usize>, a: usize, b: usize) -> Option<
    Set<usize>,
> {
    if g.class_points_to(a, b) {
        Some(enode_vars(g, vars, a, b))
    } else {
        None
    }
}

/// Two edges merged into one carrying the variables of both.
pub open spec fn merge_edge(x: Option<Set<usize>>, y: Option<Set<usize>>) -> Option<Set<usize>> {
    match x {
        None => y,
        Some(s) => match y {
            None => Some(s),
            Some(t) => Some(s.union(t)),
        },
    }
}

/// Among the first `k` e-nodes of class `a` and the first `j` children of
/// its `k`-th, one points to class `b`.
pub open spec fn partial_points(g: &IndexedEGraph, a: usize, b: usize, k: int, j: int) -> bool {
    ||| exists|k2: int| 0 <= k2 < k && #[trigger] g.node_points_to(g.member(a, k2), b)
    ||| exists|j2: int| 0 <= j2 < j && #[trigger] g.child_class(g.member(a, k), j2) == b
}

/// The variables of the e-nodes counted by `partial_points`.
pub open spec fn partial_vars(
    g: &IndexedEGraph,
    vars: Seq<usize>,
    a: usize,
    b: usize,
    k: int,
    j: int,
) -> Set<usize> {
    Set::new(
        |v: usize|
            (exists|k2: int|
                0 <= k2 < k && #[trigger] g.node_points_to(g.member(a, k2), b) && v == vars[g.member(
                    a,
                    k2,
                ) as int]) || ((exists|j2: int| 0 <= j2 < j && #[trigger] g.child_class(g.member(a, k), j2) == b)
                && v == vars[g.member(a, k) as int]),
    )
}

/// The edge induced so far while the e-nodes of class `a` are gone through.
pub open spec fn partial_edge(g: &IndexedEGraph, vars: Seq<usize>, a: usize, b: usize, k: int, j: int) -> Option<
    Set<usize>,
> {
    if partial_points(g, a, b, k, j) {
        Some(partial_vars(g, vars, a, b, k, j))
    } else {
        None
    }
}

/// Going past the last child of an e-node is going to the next e-node.
proof fn lemma_partial_next_node(g: &IndexedEGraph, vars: Seq<usize>, a: usize, b: usize, k: int)
    requires
        0 <= k,
    ensures
        partial_edge(g, vars, a, b, k, g.node_children@[g.member(a, k) as int]@.len() as int)
            == partial_edge(g, vars, a, b, k + 1, 0),
{
    let len = g.node_children@[g.member(a, k) as int]@.len() as int;
    let n = g.member(a, k);
    assert(partial_points(g, a, b, k, len) == partial_points(g, a, b, k + 1, 0)) by {
        if partial_points(g, a, b, k, len) {
            if exists|j2: int| 0 <= j2 < len && #[trigger] g.child_class(n, j2) == b {
                let j2 = choose|j2: int| 0 <= j2 < len && #[trigger] g.child_class(n, j2) == b;
                assert(g.node_points_to(n, b));
            } else {
                let k2 = choose|k2: int| 0 <= k2 < k && #[trigger] g.node_points_to(g.member(a, k2), b);
            }
        }
        if partial_points(g, a, b, k + 1, 0) {
            let k2 = choose|k2: int| 0 <= k2 < k + 1 && #[trigger] g.node_points_to(g.member(a, k2), b);
            if k2 == k {
                let j2 = choose|j2: int| 0 <= j2 < len && #[trigger] g.child_class(n, j2) == b;
            }
        }
    }
    assert(partial_vars(g, vars, a, b, k, len) =~= partial_vars(g, vars, a, b, k + 1, 0)) by {
        assert forall|v: usize| partial_vars(g, vars, a, b, k, len).contains(v) <==> partial_vars(g, vars, a, b, k + 1, 0).contains(v) by {
            if partial_vars(g, vars, a, b, k, len).contains(v) {
                if exists|j2: int| 0 <= j2 < len && #[trigger] g.child_class(n, j2) == b {
                    if v == vars[n as int] {
                        let j2 = choose|j2: int| 0 <= j2 < len && #[trigger] g.child_class(n, j2) == b;
                        assert(g.node_points_to(g.member(a, k), b));
                    }
                }
            }
            if partial_vars(g, vars, a, b, k + 1, 0).contains(v) {
                let k2 = choose|k2: int| 0 <= k2 < k + 1 && #[trigger] g.node_points_to(g.member(a, k2), b) && v == vars[g.member(a, k2) as int];
                if k2 == k {
                    let j2 = choose|j2: int| 0 <= j2 < len && #[trigger] g.child_class(n, j2) == b;
                }
            }
        }
    }
}

/// Going past a child adds its class to the e-node's targets.
proof fn lemma_partial_next_child(g: &IndexedEGraph, vars: Seq<usize>, a: usize, b: usize, k: int, j: int)
    requires
        0 <= k,
        0 <= j,
    ensures
        partial_edge(g, vars, a, b, k, j + 1) == if g.child_class(g.member(a, k), j) == b {
            Some(
                match partial_edge(g, vars, a, b, k, j) {
                    Some(s) => s,
                    None => Set::empty(),
                }.insert(vars[g.member(a, k) as int]),
            )
        } else {
            partial_edge(g, vars, a, b, k, j)
        },
{
    let n = g.member(a, k);
    if g.child_class(n, j) == b {
        assert(partial_points(g, a, b, k, j + 1));
        assert(partial_vars(g, vars, a, b, k, j + 1) =~= match partial_edge(g, vars, a, b, k, j) {
            Some(s) => s,
            None => Set::empty(),
        }.insert(vars[n as int])) by {
            assert forall|v: usize| #[trigger] partial_vars(g, vars, a, b, k, j + 1).contains(v) <==> (match partial_edge(g, vars, a, b, k, j) {
                Some(s) => s,
                None => Set::empty(),
            }.insert(vars[n as int])).contains(v) by {
                if partial_vars(g, vars, a, b, k, j).contains(v) {
                    assert(partial_points(g, a, b, k, j));
                }
            }
        }
    } else {
        assert(partial_points(g, a, b, k, j + 1) == partial_points(g, a, b, k, j)) by {
            if partial_points(g, a, b, k, j + 1) {
                if exists|j2: int| 0 <= j2 < j + 1 && #[trigger] g.child_class(n, j2) == b {
                    let j2 = choose|j2: int| 0 <= j2 < j + 1 && #[trigger] g.child_class(n, j2) == b;
                    assert(j2 != j);
                }
            }
        }
        assert(partial_vars(g, vars, a, b, k, j + 1) =~= partial_vars(g, vars, a, b, k, j)) by {
            assert forall|v: usize| partial_vars(g, vars, a, b, k, j + 1).contains(v) <==> partial_vars(g, vars, a, b, k, j).contains(v) by {
                if partial_vars(g, vars, a, b, k, j + 1).contains(v) {
                    if exists|j2: int| 0 <= j2 < j + 1 && #[trigger] g.child_class(n, j2) == b {
                        let j2 = choose|j2: int| 0 <= j2 < j + 1 && #[trigger] g.child_class(n, j2) == b;
                        assert(j2 != j);
                    }
                }
            }
        }
    }
}

/// All the e-nodes of a class gone through give its induced edge.
proof fn lemma_partial_done(g: &IndexedEGraph, vars: Seq<usize>, a: usize, b: usize)
    ensures
        partial_edge(g, vars, a, b, g.class_nodes@[a as int]@.len() as int, 0) == induced_edge(g, vars, a, b),
{
    let len = g.class_nodes@[a as int]@.len() as int;
    assert(partial_points(g, a, b, len, 0) == g.class_points_to(a, b));
    assert(partial_vars(g, vars, a, b, len, 0) =~= enode_vars(g, vars, a, b));
}

/// Adds to `hgraph` the edges of every class reachable from `root` in the
/// e-graph: an edge from a class to the class of each child of each of its
/// e-nodes, carrying that e-node's variable.
#[verifier::spinoff_prover]
pub fn to_hypergraph(root: usize, egraph: &IndexedEGraph, node_vars: &Vec<usize>, hgraph: &mut HyperGraph)
    requires
        egraph.wf(),
        root < egraph.num_classes(),
        node_vars@.len() == egraph.node_class@.len(),
        egraph.num_classes() + 2 <= usize::MAX,
        old(hgraph).wf(),
        forall|c: usize| #[trigger] old(hgraph).has_class(c) ==> c < egraph.num_classes(),
        forall|n: usize| #[trigger] old(hgraph).live().contains(n) <==> n < old(hgraph).ids().len(),
    ensures
        final(hgraph).wf(),
        forall|c: usize| #[trigger] final(hgraph).has_class(c) ==> c < egraph.num_classes(),
        forall|n: usize| #[trigger] final(hgraph).live().contains(n) <==> n < final(hgraph).ids().len(),
        forall|a: usize, b: usize| #[trigger]
            final(hgraph).class_edge(a, b) == if egraph.reachable(root, a) {
                merge_edge(old(hgraph).class_edge(a, b), induced_edge(egraph, node_vars@, a, b))
            } else {
                old(hgraph).class_edge(a, b)
            },
{
    let ghost g0 = *hgraph;
    let ghost vars = node_vars@;
    let ghost num = egraph.num_classes();
    let ghost range = Set::new(|i: usize| i < num);
    proof {
        lemma_range_finite(num);
    }
    let mut visited: HashSet<usize> = HashSet::new();
    let mut queue: VecDeque<usize> = VecDeque::new();
    queue.push_front(root);
    visited.insert(root);
    let ghost mut processed: Set<usize> = Set::empty();
    proof {
        assert(queue@ =~= seq![root]);
        assert(visited@ =~= processed.union(queue@.to_set())) by {
            assert forall|x: usize| visited@.contains(x) <==> processed.union(queue@.to_set()).contains(x) by {
                if x == root {
                    assert(queue@[0] == root);
                }
            }
        }
        assert forall|s: Set<usize>| egraph.closed_under_children(s) && s.contains(root) implies s.contains(root) by {}
        assert(visited@.subset_of(range));
        vstd::set_lib::lemma_len_subset(visited@, range);
    }
    while queue.len() > 0
        invariant
            egraph.wf(),
            root < num,
            num == egraph.num_classes(),
            num + 2 <= usize::MAX,
            range == Set::new(|i: usize| i < num),
            range.finite(),
            range.len() <= num,
            vars == node_vars@,
            vars.len() == egraph.node_class@.len(),
            visited@.contains(root),
            visited@.subset_of(range),
            visited@.finite(),
            visited@.len() <= num,
            visited@ == processed.union(queue@.to_set()),
            queue@.no_duplicates(),
            forall|x: usize| processed.contains(x) ==> !queue@.contains(x),
            forall|c: usize| #[trigger] visited@.contains(c) ==> egraph.reachable(root, c),
            forall|a: usize, b: usize|
                #![trigger processed.contains(a), egraph.class_points_to(a, b)]
                processed.contains(a) && egraph.class_points_to(a, b) ==> visited@.contains(b),
            hgraph.wf(),
            forall|c: usize| #[trigger] hgraph.has_class(c) ==> c < num,
            forall|m: usize| #[trigger] hgraph.live().contains(m) <==> m < hgraph.ids().len(),
            forall|a: usize, b: usize| #[trigger]
                hgraph.class_edge(a, b) == if processed.contains(a) {
                    merge_edge(g0.class_edge(a, b), induced_edge(egraph, vars, a, b))
                } else {
                    g0.class_edge(a, b)
                },
        decreases num - visited@.len(), queue@.len(),
    {
        let ghost q_before = queue@;
        let ghost v_before = visited@;
        let front = queue.pop_front().unwrap();
        proof {
            assert(q_before[0] == front);
            assert(queue@ =~= q_before.drop_first());
            assert(visited@.contains(front)) by {
                assert(q_before.to_set().contains(front));
            }
            assert(!processed.contains(front)) by {
                assert(q_before.contains(front));
            }
            assert(front < num);
            assert(!queue@.contains(front)) by {
                if queue@.contains(front) {
                    let i = choose|i: int| 0 <= i < queue@.len() && queue@[i] == front;
                    assert(q_before[i + 1] == front);
                }
            }
            assert forall|x: usize| visited@.contains(x) <==> processed.insert(front).union(queue@.to_set()).contains(x) by {
                if q_before.contains(x) && x != front {
                    let i = choose|i: int| 0 <= i < q_before.len() && q_before[i] == x;
                    assert(i != 0);
                    assert(queue@[i - 1] == x);
                }
                if queue@.contains(x) {
                    let i = choose|i: int| 0 <= i < queue@.len() && queue@[i] == x;
                    assert(q_before[i + 1] == x);
                    assert(q_before.to_set().contains(x));
                }
            }
            assert(visited@ =~= processed.insert(front).union(queue@.to_set()));
            assert forall|i1: int, i2: int| 0 <= i1 < queue@.len() && 0 <= i2 < queue@.len() && i1 != i2 implies queue@[i1] != queue@[i2] by {
                assert(queue@[i1] == q_before[i1 + 1] && queue@[i2] == q_before[i2 + 1]);
            }
            assert forall|x: usize| processed.contains(x) implies !queue@.contains(x) by {
                if queue@.contains(x) {
                    let i = choose|i: int| 0 <= i < queue@.len() && queue@[i] == x;
                    assert(q_before[i + 1] == x);
                }
            }
        }
        let ghost mut pushed: nat = 0;
        let nodes = &egraph.class_nodes[front];
        let mut k: usize = 0;
        while k < nodes.len()
            invariant
                egraph.wf(),
                front < num,
                nodes@ == egraph.class_nodes@[front as int]@,
                k <= nodes@.len(),
                root < num,
                num == egraph.num_classes(),
                num + 2 <= usize::MAX,
                range == Set::new(|i: usize| i < num),
                range.finite(),
                range.len() <= num,
                vars == node_vars@,
                vars.len() == egraph.node_class@.len(),
                visited@.contains(root),
                visited@.contains(front),
                visited@.subset_of(range),
                visited@.finite(),
                visited@.len() <= num,
                v_before.subset_of(visited@),
                visited@.len() == v_before.len() + pushed,
                queue@.len() == q_before.len() - 1 + pushed,
                visited@ == processed.insert(front).union(queue@.to_set()),
                queue@.no_duplicates(),
                !processed.contains(front),
                !queue@.contains(front),
                forall|x: usize| processed.contains(x) ==> !queue@.contains(x),
                forall|c: usize| #[trigger] visited@.contains(c) ==> egraph.reachable(root, c),
                forall|a: usize, b: usize|
                    #![trigger processed.contains(a), egraph.class_points_to(a, b)]
                    processed.contains(a) && egraph.class_points_to(a, b) ==> visited@.contains(b),
                forall|k2: int, j2: int|
                    0 <= k2 < k && 0 <= j2 < egraph.node_children@[egraph.member(front, k2) as int]@.len()
                        ==> visited@.contains(#[trigger] egraph.child_class(egraph.member(front, k2), j2)),
                hgraph.wf(),
                forall|c: usize| #[trigger] hgraph.has_class(c) ==> c < num,
                forall|m: usize| #[trigger] hgraph.live().contains(m) <==> m < hgraph.ids().len(),
                forall|a: usize, b: usize| #[trigger]
                    hgraph.class_edge(a, b) == if processed.contains(a) {
                        merge_edge(g0.class_edge(a, b), induced_edge(egraph, vars, a, b))
                    } else if a == front {
                        merge_edge(g0.class_edge(a, b), partial_edge(egraph, vars, a, b, k as int, 0))
                    } else {
                        g0.class_edge(a, b)
                    },
            decreases nodes@.len() - k,
        {
            let node = nodes[k];
            proof {
                assert(egraph.member(front, k as int) == node);
            }
            let children = &egraph.node_children[node];
            let mut j: usize = 0;
            while j < children.len()
                invariant
                    egraph.wf(),
                    front < num,
                    nodes@ == egraph.class_nodes@[front as int]@,
                    k < nodes@.len(),
                    node == egraph.member(front, k as int),
                    node < egraph.node_class@.len(),
                    children@ == egraph.node_children@[node as int]@,
                    j <= children@.len(),
                    root < num,
                    num == egraph.num_classes(),
                    num + 2 <= usize::MAX,
                    range == Set::new(|i: usize| i < num),
                    range.finite(),
                    range.len() <= num,
                    vars == node_vars@,
                    vars.len() == egraph.node_class@.len(),
                    visited@.contains(root),
                    visited@.contains(front),
                    visited@.subset_of(range),
                    visited@.finite(),
                visited@.len() <= num,
                    v_before.subset_of(visited@),
                    visited@.len() == v_before.len() + pushed,
                    queue@.len() == q_before.len() - 1 + pushed,
                    visited@ == processed.insert(front).union(queue@.to_set()),
                    queue@.no_duplicates(),
                    !processed.contains(front),
                    !queue@.contains(front),
                    forall|x: usize| processed.contains(x) ==> !queue@.contains(x),
                    forall|c: usize| #[trigger] visited@.contains(c) ==> egraph.reachable(root, c),
                    forall|a: usize, b: usize|
                        #![trigger processed.contains(a), egraph.class_points_to(a, b)]
                        processed.contains(a) && egraph.class_points_to(a, b) ==> visited@.contains(b),
                    forall|k2: int, j2: int|
                        0 <= k2 < k && 0 <= j2 < egraph.node_children@[egraph.member(front, k2) as int]@.len()
                            ==> visited@.contains(#[trigger] egraph.child_class(egraph.member(front, k2), j2)),
                    forall|j2: int|
                        0 <= j2 < j ==> visited@.contains(#[trigger] egraph.child_class(node, j2)),
                    hgraph.wf(),
                    forall|c: usize| #[trigger] hgraph.has_class(c) ==> c < num,
                    forall|m: usize| #[trigger] hgraph.live().contains(m) <==> m < hgraph.ids().len(),
                    forall|a: usize, b: usize| #[trigger]
                        hgraph.class_edge(a, b) == if processed.contains(a) {
                            merge_edge(g0.class_edge(a, b), induced_edge(egraph, vars, a, b))
                        } else if a == front {
                            merge_edge(g0.class_edge(a, b), partial_edge(egraph, vars, a, b, k as int, j as int))
                        } else {
                            g0.class_edge(a, b)
                        },
                decreases children@.len() - j,
            {
                let ch = egraph.node_class[children[j]];
                proof {
                    assert(ch == egraph.child_class(node, j as int));
                    assert(ch < num);
                    hgraph.lemma_ids_bound(range);
                    hgraph.lemma_facts();
                }
                let ghost h0 = *hgraph;
                hgraph.connect(front, ch, node_vars[node]);
                proof {
                    assert forall|m: usize| #[trigger] hgraph.live().contains(m) <==> m < hgraph.ids().len() by {
                        assert(hgraph.live().contains(m) <==> h0.live().contains(m) || h0.ids().len() <= m < hgraph.ids().len());
                    }
                    assert forall|c: usize| #[trigger] hgraph.has_class(c) implies c < num by {
                        assert(hgraph.has_class(c) <==> h0.has_class(c) || c == front || c == ch);
                    }
                    assert forall|a: usize, b: usize| #[trigger]
                        hgraph.class_edge(a, b) == if processed.contains(a) {
                            merge_edge(g0.class_edge(a, b), induced_edge(egraph, vars, a, b))
                        } else if a == front {
                            merge_edge(g0.class_edge(a, b), partial_edge(egraph, vars, a, b, k as int, j + 1))
                        } else {
                            g0.class_edge(a, b)
                        } by {
                        if a == front {
                            lemma_partial_next_child(egraph, vars, front, b, k as int, j as int);
                            let pe = partial_edge(egraph, vars, front, b, k as int, j as int);
                            let pe1 = partial_edge(egraph, vars, front, b, k as int, j + 1);
                            if b == ch {
                                assert(h0.class_edge(a, b) == merge_edge(g0.class_edge(a, b), pe));
                                match g0.class_edge(a, b) {
                                    Some(s0) => {
                                        match pe {
                                            Some(t) => {
                                                assert(s0.union(t).insert(vars[node as int]) =~= s0.union(t.insert(vars[node as int])));
                                            },
                                            None => {
                                                assert(s0.insert(vars[node as int]) =~= s0.union(Set::empty().insert(vars[node as int])));
                                            },
                                        }
                                    },
                                    None => {},
                                }
                            }
                        }
                    }
                }
                let ghost v1 = visited@;
                let ghost qq = queue@;
                if !visited.contains(&ch) {
                    visited.insert(ch);
                    queue.push_back(ch);
                    proof {
                        pushed = pushed + 1;
                        let q1 = queue@;
                        assert(q1.drop_last() =~= qq);
                        assert(v1 == processed.insert(front).union(qq.to_set()));
                        assert(!q1.drop_last().contains(ch)) by {
                            if q1.drop_last().contains(ch) {
                                assert(q1.drop_last().to_set().contains(ch));
                            }
                        }
                        assert(q1.drop_last() =~= queue@.subrange(0, q1.len() - 1));
                        assert forall|i1: int, i2: int| 0 <= i1 < q1.len() && 0 <= i2 < q1.len() && i1 != i2 implies q1[i1] != q1[i2] by {
                            if i1 == q1.len() - 1 {
                                assert(q1.drop_last()[i2] == q1[i2]);
                                assert(q1.drop_last().contains(q1[i2]));
                            } else if i2 == q1.len() - 1 {
                                assert(q1.drop_last()[i1] == q1[i1]);
                                assert(q1.drop_last().contains(q1[i1]));
                            } else {
                                assert(q1.drop_last()[i1] == q1[i1] && q1.drop_last()[i2] == q1[i2]);
                            }
                        }
                        assert forall|x: usize| visited@.contains(x) <==> processed.insert(front).union(queue@.to_set()).contains(x) by {
                            if q1.drop_last().contains(x) {
                                let i = choose|i: int| 0 <= i < q1.drop_last().len() && q1.drop_last()[i] == x;
                                assert(q1[i] == x);
                            }
                            if x == ch {
                                assert(q1[q1.len() - 1] == x);
                            }
                            if q1.contains(x) {
                                let i = choose|i: int| 0 <= i < q1.len() && q1[i] == x;
                                if i < q1.len() - 1 {
                                    assert(q1.drop_last()[i] == x);
                                    assert(q1.drop_last().to_set().contains(x));
                                }
                            }
                        }
                        assert(visited@ =~= processed.insert(front).union(queue@.to_set()));
                        assert forall|x: usize| processed.contains(x) implies !queue@.contains(x) by {
                            if queue@.contains(x) {
                                let i = choose|i: int| 0 <= i < q1.len() && q1[i] == x;
                                if i < q1.len() - 1 {
                                    assert(q1.drop_last()[i] == x);
                                    assert(q1.drop_last().contains(x));
                                } else {
                                    assert(v1.contains(x));
                                }
                            }
                        }
                        assert(!queue@.contains(front)) by {
                            if queue@.contains(front) {
                                let i = choose|i: int| 0 <= i < q1.len() && q1[i] == front;
                                if i < q1.len() - 1 {
                                    assert(q1.drop_last()[i] == front);
                                    assert(q1.drop_last().contains(front));
                                }
                            }
                        }
                        assert(egraph.node_points_to(node, ch));
                        assert(egraph.class_points_to(front, ch));
                        assert forall|s: Set<usize>| egraph.closed_under_children(s) && s.contains(root) implies s.contains(ch) by {
                            assert(egraph.reachable(root, front));
                            assert(s.contains(front));
                        }
                        assert(visited@.subset_of(range));
                        vstd::set_lib::lemma_len_subset(visited@, range);
                    }
                }
                j = j + 1;
            }
            proof {
                lemma_partial_next_node(egraph, vars, front, 0, k as int);
                assert forall|a: usize, b: usize| #[trigger]
                    hgraph.class_edge(a, b) == if processed.contains(a) {
                        merge_edge(g0.class_edge(a, b), induced_edge(egraph, vars, a, b))
                    } else if a == front {
                        merge_edge(g0.class_edge(a, b), partial_edge(egraph, vars, a, b, k + 1, 0))
                    } else {
                        g0.class_edge(a, b)
                    } by {
                    lemma_partial_next_node(egraph, vars, front, b, k as int);
                }
            }
            k = k + 1;
        }
        proof {
            let p2 = processed.insert(front);
            assert forall|a: usize, b: usize|
                #![trigger p2.contains(a), egraph.class_points_to(a, b)]
                p2.contains(a) && egraph.class_points_to(a, b) implies visited@.contains(b) by {
                if a == front {
                    let k2 = choose|k2: int|
                        0 <= k2 < egraph.class_nodes@[a as int]@.len() && #[trigger] egraph.node_points_to(
                            egraph.member(a, k2),
                            b,
                        );
                    let j2 = choose|j2: int| 0 <= j2 < egraph.node_children@[egraph.member(a, k2) as int]@.len() && #[trigger] egraph.child_class(egraph.member(a, k2), j2) == b;
                }
            }
            assert forall|a: usize, b: usize| #[trigger]
                hgraph.class_edge(a, b) == if p2.contains(a) {
                    merge_edge(g0.class_edge(a, b), induced_edge(egraph, vars, a, b))
                } else {
                    g0.class_edge(a, b)
                } by {
                if a == front {
                    lemma_partial_done(egraph, vars, front, b);
                }
            }
            processed = p2;
            assert(visited@ == processed.union(queue@.to_set()));
        }
    }
    proof {
        assert(queue@.to_set() =~= Set::<usize>::empty()) by {
            assert(queue@.len() == 0);
        }
        assert(visited@ =~= processed);
        assert(egraph.closed_under_children(processed)) by {
            assert forall|a: usize, b: usize|
                #![trigger processed.contains(a), egraph.class_points_to(a, b)]
                processed.contains(a) && a < egraph.num_classes() && egraph.class_points_to(a, b) implies processed.contains(b) by {
                assert(visited@.contains(b));
            }
        }
        assert forall|a: usize| processed.contains(a) <==> egraph.reachable(root, a) by {
            if egraph.reachable(root, a) {
                assert(egraph.closed_under_children(processed) && processed.contains(root));
            }
            if processed.contains(a) {
                assert(visited@.contains(a));
            }
        }
    }
}

/// A class's node number gives back the class, and a handed-out node number's
/// class gives back the number: `get_id_by_node(get_node_by_id(c)) == c` and
/// `get_node_by_id(get_id_by_node(n)) == n`.
pub proof fn law_numbering_round_trip(g: &HyperGraph, c: usize, n: usize)
    requires
        g.wf(),
    ensures
        g.has_class(c) ==> g.index()[c] < g.ids().len() && g.ids()[g.index()[c] as int] == c,
        n < g.ids().len() ==> g.has_class(g.ids()[n as int]) && g.index()[g.ids()[n as int]] == n,
{
    g.lemma_facts();
}

/// Adding the edges of an e-graph from a root a second time changes no edge:
/// `to_hypergraph` twice from the same root leaves what it leaves once.
pub proof fn law_to_hypergraph_twice(
    egraph: &IndexedEGraph,
    vars: Seq<usize>,
    root: usize,
    g0: &HyperGraph,
    g1: &HyperGraph,
    g2: &HyperGraph,
)
    requires
        forall|a: usize, b: usize| #[trigger]
            g1.class_edge(a, b) == if egraph.reachable(root, a) {
                merge_edge(g0.class_edge(a, b), induced_edge(egraph, vars, a, b))
            } else {
                g0.class_edge(a, b)
            },
        forall|a: usize, b: usize| #[trigger]
            g2.class_edge(a, b) == if egraph.reachable(root, a) {
                merge_edge(g1.class_edge(a, b), induced_edge(egraph, vars, a, b))
            } else {
                g1.class_edge(a, b)
            },
    ensures
        forall|a: usize, b: usize| #[trigger] g2.class_edge(a, b) == g1.class_edge(a, b),
{
    assert forall|a: usize, b: usize| #[trigger] g2.class_edge(a, b) == g1.class_edge(a, b) by {
        if egraph.reachable(root, a) {
            let o = g0.class_edge(a, b);
            let i = induced_edge(egraph, vars, a, b);
            match o {
                Some(s) => match i {
                    Some(t) => {
                        assert(s.union(t).union(t) =~= s.union(t));
                    },
                    None => {},
                },
                None => match i {
                    Some(t) => {
                        assert(t.union(t) =~= t);
                    },
                    None => {},
                },
            }
        }
    }
}

/// The subgraph on a list that holds every live class has exactly the
/// graph's edges.
pub proof fn law_subgraph_of_all_classes(g: &HyperGraph, nodes: Seq<usize>, sub: &HyperGraph)
    requires
        g.wf(),
        forall|c: usize| #[trigger] g.class_is_live(c) ==> nodes.contains(c),
        forall|a: usize, b: usize| #[trigger]
            sub.class_edge(a, b) == if nodes.contains(a) && nodes.contains(b) {
                g.class_edge(a, b)
            } else {
                None
            },
    ensures
        forall|a: usize, b: usize| #[trigger] sub.class_edge(a, b) == g.class_edge(a, b),
{
    g.lemma_facts();
    assert forall|a: usize, b: usize| #[trigger] sub.class_edge(a, b) == g.class_edge(a, b) by {
        if g.class_edge(a, b) is Some {
            assert(g.linked(a, b));
            assert(g.class_is_live(a) && g.class_is_live(b));
        }
    }
}

/// The set of numbers below `n` is finite with `n` elements.
pub proof fn lemma_range_finite(n: nat)
    ensures
        Set::new(|i: usize| i < n).finite(),
        Set::new(|i: usize| i < n).len() <= n,
    decreases n,
{
    if n == 0 {
        assert(Set::new(|i: usize| i < n) =~= Set::<usize>::empty());
    } else {
        lemma_range_finite((n - 1) as nat);
        let s = Set::new(|i: usize| i < n);
        let t = Set::new(|i: usize| i < n - 1);
        if n - 1 <= usize::MAX {
            assert(s =~= t.insert((n - 1) as usize));
        } else {
            assert(s =~= t);
        }
    }
}

/// A found adjacency entry is at some index of the list.
pub proof fn lemma_adj_lookup(list: Seq<(usize, Vec<usize>)>, v: usize) -> (k: int)
    requires
        adj_lookup(list, v) is Some,
    ensures
        0 <= k < list.len(),
        list[k].0 == v,
        adj_lookup(list, v) == Some(list[k].1@.to_set()),
    decreases list.len(),
{
    if list.last().0 == v {
        list.len() - 1
    } else {
        let k = lemma_adj_lookup(list.drop_last(), v);
        assert(list.drop_last()[k] == list[k]);
        k
    }
}

/// With distinct targets, the entry at index `k` is what a lookup finds.
pub proof fn lemma_adj_lookup_at(list: Seq<(usize, Vec<usize>)>, k: int)
    requires
        0 <= k < list.len(),
        forall|k1: int, k2: int|
            0 <= k1 < list.len() && 0 <= k2 < list.len() && k1 != k2 ==> #[trigger] list[k1].0
                != #[trigger] list[k2].0,
    ensures
        adj_lookup(list, list[k].0) == Some(list[k].1@.to_set()),
    decreases list.len(),
{
    if k != list.len() - 1 {
        let d = list.drop_last();
        assert(list[list.len() - 1].0 != list[k].0);
        assert forall|k1: int, k2: int|
            0 <= k1 < d.len() && 0 <= k2 < d.len() && k1 != k2 implies #[trigger] d[k1].0
                != #[trigger] d[k2].0 by {
            assert(d[k1] == list[k1] && d[k2] == list[k2]);
        }
        lemma_adj_lookup_at(d, k);
        assert(d[k] == list[k]);
    }
}

/// A target absent from every entry is not found.
pub proof fn lemma_adj_lookup_none(list: Seq<(usize, Vec<usize>)>, v: usize)
    requires
        forall|k: int| 0 <= k < list.len() ==> #[trigger] list[k].0 != v,
    ensures
        adj_lookup(list, v) is None,
    decreases list.len(),
{
    if list.len() > 0 {
        let d = list.drop_last();
        assert forall|k: int| 0 <= k < d.len() implies #[trigger] d[k].0 != v by {
            assert(d[k] == list[k]);
        }
        lemma_adj_lookup_none(d, v);
    }
}


/// A copy of a list of numbers.
pub fn copy_vec(v: &Vec<usize>) -> (r: Vec<usize>)
    ensures
        r@ == v@,
{
    let mut r: Vec<usize> = Vec::with_capacity(v.len());
    let mut i: usize = 0;
    while i < v.len()
        invariant
            i <= v@.len(),
            r@ == v@.subrange(0, i as int),
        decreases v@.len() - i,
    {
        r.push(v[i]);
        i = i + 1;
    }
    assert(r@ =~= v@);
    r
}

/// Two adjacency lists with the same targets and the same e-node variables
/// on each.
pub open spec fn same_entries_except(
    r: Seq<(usize, Vec<usize>)>,
    list: Seq<(usize, Vec<usize>)>,
    node: usize,
) -> bool {
    &&& forall|k: int|
        0 <= k < r.len() ==> (#[trigger] r[k]).0 != node && exists|j: int|
            0 <= j < list.len() && #[trigger] list[j].0 == r[k].0 && list[j].1@ == r[k].1@
    &&& forall|j: int|
        0 <= j < list.len() && (#[trigger] list[j]).0 != node ==> exists|k: int|
            0 <= k < r.len() && #[trigger] r[k].0 == list[j].0 && r[k].1@ == list[j].1@
    &&& forall|k1: int, k2: int|
        0 <= k1 < r.len() && 0 <= k2 < r.len() && k1 != k2 ==> #[trigger] r[k1].0
            != #[trigger] r[k2].0
}

/// Dropping the entries for `node` from an adjacency list with distinct
/// targets changes only the lookups of `node`.
pub proof fn lemma_filtered_lookup(
    r: Seq<(usize, Vec<usize>)>,
    list: Seq<(usize, Vec<usize>)>,
    node: usize,
    v: usize,
)
    requires
        same_entries_except(r, list, node),
        forall|k1: int, k2: int|
            0 <= k1 < list.len() && 0 <= k2 < list.len() && k1 != k2 ==> #[trigger] list[k1].0
                != #[trigger] list[k2].0,
    ensures
        adj_lookup(r, v) == if v == node {
            None
        } else {
            adj_lookup(list, v)
        },
{
    if adj_lookup(r, v) is Some {
        let k = lemma_adj_lookup(r, v);
        let j = choose|j: int| 0 <= j < list.len() && #[trigger] list[j].0 == r[k].0 && list[j].1@ == r[k].1@;
        lemma_adj_lookup_at(list, j);
    } else if v != node && adj_lookup(list, v) is Some {
        let j = lemma_adj_lookup(list, v);
        let k = choose|k: int| 0 <= k < r.len() && #[trigger] r[k].0 == list[j].0 && r[k].1@ == list[j].1@;
        lemma_adj_lookup_at(r, k);
    }
}

/// The entries of `list` whose target is not `node`, in order.
#[verifier::spinoff_prover]
fn filter_out(list: &Vec<(usize, Vec<usize>)>, node: usize) -> (r: Vec<(usize, Vec<usize>)>)
    requires
        forall|k1: int, k2: int|
            0 <= k1 < list@.len() && 0 <= k2 < list@.len() && k1 != k2 ==> #[trigger] list@[k1].0
                != #[trigger] list@[k2].0,
    ensures
        same_entries_except(r@, list@, node),
{
    let mut r: Vec<(usize, Vec<usize>)> = Vec::new();
    let mut j: usize = 0;
    while j < list.len()
        invariant
            j <= list@.len(),
            forall|k1: int, k2: int|
                0 <= k1 < list@.len() && 0 <= k2 < list@.len() && k1 != k2 ==> #[trigger] list@[k1].0
                    != #[trigger] list@[k2].0,
            forall|k: int|
                0 <= k < r@.len() ==> (#[trigger] r@[k]).0 != node && exists|i: int|
                    0 <= i < j && #[trigger] list@[i].0 == r@[k].0 && list@[i].1@ == r@[k].1@,
            forall|i: int|
                0 <= i < j && (#[trigger] list@[i]).0 != node ==> exists|k: int|
                    0 <= k < r@.len() && #[trigger] r@[k].0 == list@[i].0 && r@[k].1@ == list@[i].1@,
            forall|k1: int, k2: int|
                0 <= k1 < r@.len() && 0 <= k2 < r@.len() && k1 != k2 ==> #[trigger] r@[k1].0
                    != #[trigger] r@[k2].0,
        decreases list@.len() - j,
    {
        if list[j].0 != node {
            let entry = (list[j].0, copy_vec(&list[j].1));
            let ghost prev = r@;
            r.push(entry);
            proof {
                assert(r@[prev.len() as int] == entry);
                assert forall|k1: int, k2: int|
                    0 <= k1 < r@.len() && 0 <= k2 < r@.len() && k1 != k2 implies #[trigger] r@[k1].0
                        != #[trigger] r@[k2].0 by {
                    if k1 == prev.len() || k2 == prev.len() {
                        let other = if k1 == prev.len() { k2 } else { k1 };
                        assert(r@[other] == prev[other]);
                        let i = choose|i: int| 0 <= i < j && #[trigger] list@[i].0 == prev[other].0 && list@[i].1@ == prev[other].1@;
                        assert(list@[i].0 != list@[j as int].0);
                    } else {
                        assert(r@[k1] == prev[k1] && r@[k2] == prev[k2]);
                    }
                }
                assert forall|k: int|
                    0 <= k < r@.len() implies (#[trigger] r@[k]).0 != node && exists|i: int|
                        0 <= i < j + 1 && #[trigger] list@[i].0 == r@[k].0 && list@[i].1@ == r@[k].1@ by {
                    if k < prev.len() {
                        assert(r@[k] == prev[k]);
                        let i = choose|i: int| 0 <= i < j && #[trigger] list@[i].0 == prev[k].0 && list@[i].1@ == prev[k].1@;
                        assert(list@[i].0 == r@[k].0);
                    } else {
                        assert(list@[j as int].0 == r@[k].0);
                    }
                }
                assert forall|i: int|
                    0 <= i < j + 1 && (#[trigger] list@[i]).0 != node implies exists|k: int|
                        0 <= k < r@.len() && #[trigger] r@[k].0 == list@[i].0 && r@[k].1@ == list@[i].1@ by {
                    if i < j {
                        let k = choose|k: int| 0 <= k < prev.len() && #[trigger] prev[k].0 == list@[i].0 && prev[k].1@ == list@[i].1@;
                        assert(r@[k] == prev[k]);
                    } else {
                        assert(r@[prev.len() as int].0 == list@[i].0);
                    }
                }
            }
        }
        j = j + 1;
    }
    proof {
        assert(j == list@.len());
        assert forall|k: int|
            0 <= k < r@.len() implies (#[trigger] r@[k]).0 != node && exists|i: int|
                0 <= i < list@.len() && #[trigger] list@[i].0 == r@[k].0 && list@[i].1@ == r@[k].1@ by {
            let i = choose|i: int| 0 <= i < j && #[trigger] list@[i].0 == r@[k].0 && list@[i].1@ == r@[k].1@;
        }
    }
    r
}

} // verus!
