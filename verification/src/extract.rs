//! What an extraction chooses: one e-node for each class it covers, and the
//! checks that make a choice a valid extraction.
use vstd::prelude::*;
use std::collections::HashSet;
use indexmap::IndexMap;
use indexed_egraph::IndexedEGraph;

pub mod bottom_up_analysis;
pub mod compact_egraph;
pub mod faster_ilp_cbc;
pub mod greedy_dag_1;
pub mod indexed_egraph;
pub mod maxsat;
pub mod prio_queue;

verus! {

broadcast use vstd::std_specs::hash::group_hash_axioms;

/// Where the search for cycles stands with a class.
#[derive(Clone, Copy, PartialEq, Eq, Structural)]
enum Status {
    Doing,
    Done,
}

/// How many classes the search has not reached yet.
spec fn count_unvisited(s: Seq<Option<Status>>) -> nat
    decreases s.len(),
{
    if s.len() == 0 {
        0
    } else {
        count_unvisited(s.drop_last()) + if s.last() is None {
            1nat
        } else {
            0nat
        }
    }
}

/// Reaching classes never adds to the count of those not reached, and
/// reaching one more takes one off it.
proof fn lemma_count_unvisited(s1: Seq<Option<Status>>, s2: Seq<Option<Status>>, k: int)
    requires
        s1.len() == s2.len(),
        forall|i: int| 0 <= i < s1.len() && s1[i] is Some ==> s2[i] is Some,
    ensures
        count_unvisited(s2) <= count_unvisited(s1),
        0 <= k < s1.len() && s1[k] is None && s2[k] is Some ==> count_unvisited(s2) < count_unvisited(
            s1,
        ),
    decreases s1.len(),
{
    if s1.len() > 0 {
        let d1 = s1.drop_last();
        let d2 = s2.drop_last();
        assert forall|i: int| 0 <= i < d1.len() && d1[i] is Some implies d2[i] is Some by {
            assert(s1[i] == d1[i] && s2[i] == d2[i]);
        }
        lemma_count_unvisited(d1, d2, k);
        if 0 <= k < d1.len() {
            assert(s1[k] == d1[k] && s2[k] == d2[k]);
        }
    }
}

/// `indexmap::IndexMap`, an insertion-ordered hash map; declared so that the
/// library's types can hold one.
#[verifier::external_type_specification]
#[verifier::external_body]
#[verifier::reject_recursive_types(K)]
#[verifier::reject_recursive_types(V)]
#[verifier::reject_recursive_types(S)]
pub struct ExIndexMap<K, V, S>(IndexMap<K, V, S>);

/// A map from class numbers to e-node numbers, in the order the classes
/// were first given one.
pub type ChoiceMap = IndexMap<usize, usize>;

/// The entries of a map from class numbers to e-node numbers.
pub uninterp spec fn index_map_entries(m: ChoiceMap) -> Map<usize, usize>;

/// The map with no entries.
pub open spec fn no_choices() -> Map<usize, usize> {
    Map::empty()
}

/// `IndexMap::new`. Claimed: the map has no entries.
#[verifier::external_body]
fn index_map_new() -> (r: ChoiceMap)
    ensures
        index_map_entries(r) == no_choices(),
{
    IndexMap::new()
}

/// `IndexMap::insert`. Claimed: afterwards `key` maps to `value` and every
/// other key to what it mapped to before.
#[verifier::external_body]
fn index_map_insert(m: &mut ChoiceMap, key: usize, value: usize)
    ensures
        index_map_entries(*final(m)) == index_map_entries(*old(m)).insert(key, value),
{
    m.insert(key, value);
}

/// `IndexMap::get`, with the value copied out. Claimed: the value that `key`
/// maps to, if it is a key of the map.
#[verifier::external_body]
fn index_map_get(m: &ChoiceMap, key: usize) -> (r: Option<usize>)
    ensures
        r is Some <==> index_map_entries(*m).contains_key(key),
        r matches Some(v) ==> v == index_map_entries(*m)[key],
{
    m.get(&key).copied()
}

/// `IndexMap::iter`, with the entries copied out. Claimed: each key of the
/// map once, with the value it maps to, and nothing else.
#[verifier::external_body]
fn index_map_list(m: &ChoiceMap) -> (r: Vec<(usize, usize)>)
    ensures
        forall|i: int, j: int| 0 <= i < j < r@.len() ==> r@[i].0 != r@[j].0,
        forall|i: int|
            0 <= i < r@.len() ==> index_map_entries(*m).contains_key(#[trigger] r@[i].0)
                && index_map_entries(*m)[r@[i].0] == r@[i].1,
        forall|k: usize| #[trigger]
            index_map_entries(*m).contains_key(k) ==> exists|i: int| 0 <= i < r@.len() && r@[i].0 == k,
{
    m.iter().map(|(k, v)| (*k, *v)).collect()
}

/// The e-nodes chosen for the classes of an extraction: class `c` maps to
/// the e-node chosen for it, if one is.
pub struct ExtractionResult {
    pub choices: ChoiceMap,
}

impl ExtractionResult {
    /// The e-node chosen for class `c`, if any.
    pub open spec fn chosen(&self, c: usize) -> Option<usize> {
        if index_map_entries(self.choices).contains_key(c) {
            Some(index_map_entries(self.choices)[c])
        } else {
            None
        }
    }

    /// Class `a` has a chosen e-node of the e-graph with a child in class `b`.
    pub open spec fn points(&self, g: &IndexedEGraph, a: usize, b: usize) -> bool {
        &&& self.chosen(a) is Some
        &&& self.chosen(a)->0 < g.node_class@.len()
        &&& g.node_points_to(self.chosen(a)->0, b)
    }

    /// Every class that the chosen e-node of a class in `s` has a child in
    /// is in `s`.
    pub open spec fn closed_choice(&self, g: &IndexedEGraph, s: Set<usize>) -> bool {
        forall|a: usize, b: usize|
            #![trigger s.contains(a), self.points(g, a, b)]
            s.contains(a) && self.points(g, a, b) ==> s.contains(b)
    }

    /// The extraction of `roots` needs class `c`: it lies in every set that
    /// holds the roots and is closed under the chosen e-nodes' children.
    pub open spec fn depends(&self, g: &IndexedEGraph, roots: Seq<usize>, c: usize) -> bool {
        forall|s: Set<usize>|
            #![trigger self.closed_choice(g, s), s.contains(c)]
            self.closed_choice(g, s) && (forall|i: int| 0 <= i < roots.len() ==> s.contains(#[trigger] roots[i]))
                ==> s.contains(c)
    }

    /// Every class that the extraction of `roots` needs has a chosen e-node
    /// of the e-graph.
    pub open spec fn covers(&self, g: &IndexedEGraph, roots: Seq<usize>) -> bool {
        forall|c: usize| #[trigger]
            self.depends(g, roots, c) ==> self.chosen(c) is Some && self.chosen(c)->0
                < g.node_class@.len()
    }

    /// `rank` decreases along every edge between classes that the
    /// extraction of `roots` needs.
    pub open spec fn ranked_by(
        &self,
        g: &IndexedEGraph,
        roots: Seq<usize>,
        rank: spec_fn(usize) -> nat,
    ) -> bool {
        forall|a: usize, b: usize| #[trigger]
            self.points(g, a, b) && self.depends(g, roots, a) ==> rank(b) < rank(a)
    }

    /// The chosen e-nodes that the extraction of `roots` needs form no cycle.
    pub open spec fn acyclic(&self, g: &IndexedEGraph, roots: Seq<usize>) -> bool {
        exists|rank: spec_fn(usize) -> nat| self.ranked_by(g, roots, rank)
    }

    /// An extraction that chooses nothing.
    pub fn new() -> (r: Self)
        ensures
            forall|c: usize| r.chosen(c) is None,
    {
        ExtractionResult { choices: index_map_new() }
    }

    /// Chooses e-node `node_id` for class `class_id`.
    pub fn choose_node(&mut self, class_id: usize, node_id: usize)
        ensures
            forall|c: usize| #[trigger]
                final(self).chosen(c) == if c == class_id {
                    Some(node_id)
                } else {
                    old(self).chosen(c)
                },
    {
        index_map_insert(&mut self.choices, class_id, node_id);
    }

    /// The e-node chosen for class `class_id`, if any.
    pub fn get(&self, class_id: usize) -> (r: Option<usize>)
        ensures
            r == self.chosen(class_id),
    {
        index_map_get(&self.choices, class_id)
    }
}

impl ExtractionResult {
    /// `path` is a closed walk along chosen e-nodes: each class points to
    /// the next, and the last one back to the first.
    pub open spec fn is_loop(&self, g: &IndexedEGraph, path: Seq<usize>) -> bool {
        &&& path.len() > 0
        &&& forall|k: int| 0 <= k < path.len() - 1 ==> #[trigger] self.points(g, path[k], path[k + 1])
        &&& self.points(g, path[path.len() - 1], path[0])
    }

    /// Class `c` lies on a cycle of chosen e-nodes.
    pub open spec fn on_cycle(&self, g: &IndexedEGraph, c: usize) -> bool {
        exists|path: Seq<usize>| #[trigger] self.is_loop(g, path) && path[0] == c
    }

    /// Consecutive classes on `stack` are joined by chosen e-nodes.
    spec fn points_at(&self, g: &IndexedEGraph, stack: Seq<usize>, i: int) -> bool {
        self.points(g, stack[i], stack[i + 1])
    }

    /// Along a path of needed classes, `rank` goes down at each step.
    proof fn lemma_chain(
        &self,
        g: &IndexedEGraph,
        roots: Seq<usize>,
        stack: Seq<usize>,
        rank: spec_fn(usize) -> nat,
        i: int,
        j: int,
    )
        requires
            0 <= i < j < stack.len(),
            forall|k: int| 0 <= k < stack.len() - 1 ==> #[trigger] self.points_at(g, stack, k),
            forall|k: int| 0 <= k < stack.len() ==> self.depends(g, roots, #[trigger] stack[k]),
            self.ranked_by(g, roots, rank),
        ensures
            rank(stack[j]) < rank(stack[i]),
        decreases j - i,
    {
        assert(self.points_at(g, stack, j - 1));
        assert(self.depends(g, roots, stack[j - 1]));
        assert(self.points(g, stack[j - 1], stack[j]));
        if j - 1 > i {
            self.lemma_chain(g, roots, stack, rank, i, j - 1);
        }
    }

    /// A path of needed classes whose last class points back to one on the
    /// path is a cycle: no ranking exists.
    proof fn lemma_back_edge(&self, g: &IndexedEGraph, roots: Seq<usize>, stack: Seq<usize>, i: int)
        requires
            0 <= i < stack.len(),
            forall|k: int| 0 <= k < stack.len() - 1 ==> #[trigger] self.points_at(g, stack, k),
            forall|k: int| 0 <= k < stack.len() ==> self.depends(g, roots, #[trigger] stack[k]),
            self.points(g, stack[stack.len() - 1], stack[i]),
        ensures
            !self.acyclic(g, roots),
    {
        if self.acyclic(g, roots) {
            let rank = choose|rank: spec_fn(usize) -> nat| self.ranked_by(g, roots, rank);
            let last = stack.len() - 1;
            assert(self.depends(g, roots, stack[last]));
            assert(rank(stack[i]) < rank(stack[last]));
            if i < last {
                self.lemma_chain(g, roots, stack, rank, i, last);
            }
        }
    }

    /// What the search for cycles keeps true: the classes being searched
    /// from form a path of chosen e-nodes and are exactly those marked
    /// `Doing`; the finished classes are exactly those in `order`, each after
    /// the classes its chosen e-node points to unless a cycle was found;
    /// every marked class is needed; and a cycle was found only if there is
    /// one.
    spec fn dfs_inv(
        &self,
        g: &IndexedEGraph,
        roots: Seq<usize>,
        status: Seq<Option<Status>>,
        cycles: Seq<usize>,
        stack: Seq<usize>,
        order: Seq<usize>,
    ) -> bool {
        &&& status.len() == g.num_classes()
        &&& stack.no_duplicates()
        &&& forall|i: int|
            0 <= i < stack.len() ==> (#[trigger] stack[i]) < status.len() && status[stack[i] as int]
                == Some(Status::Doing)
        &&& forall|c: usize|
            c < status.len() && #[trigger] status[c as int] == Some(Status::Doing) ==> stack.contains(c)
        &&& forall|i: int| 0 <= i < stack.len() - 1 ==> #[trigger] self.points_at(g, stack, i)
        &&& order.no_duplicates()
        &&& forall|i: int|
            0 <= i < order.len() ==> (#[trigger] order[i]) < status.len() && status[order[i] as int]
                == Some(Status::Done)
        &&& forall|c: usize|
            c < status.len() && #[trigger] status[c as int] == Some(Status::Done) ==> order.contains(c)
        &&& forall|c: usize|
            c < status.len() && (#[trigger] status[c as int]) is Some ==> self.depends(g, roots, c)
        &&& cycles.len() == 0 ==> forall|i: int, b: usize|
            0 <= i < order.len() && #[trigger] self.points(g, order[i], b) ==> exists|j: int|
                0 <= j < i && #[trigger] order[j] == b
        &&& cycles.len() > 0 ==> !self.acyclic(g, roots)
        &&& forall|i: int|
            0 <= i < cycles.len() ==> self.on_cycle(g, #[trigger] cycles[i]) && self.depends(g, roots, cycles[i])
    }

    /// A needed class reached from a class it is a child of is needed too.
    proof fn lemma_depends_child(&self, g: &IndexedEGraph, roots: Seq<usize>, a: usize, b: usize)
        requires
            self.depends(g, roots, a),
            self.points(g, a, b),
        ensures
            self.depends(g, roots, b),
    {
        assert forall|s: Set<usize>|
            self.closed_choice(g, s) && (forall|i: int| 0 <= i < roots.len() ==> s.contains(#[trigger] roots[i]))
                implies s.contains(b) by {
            assert(s.contains(a));
        }
    }

    /// The depth-first search for cycles from class `class_id`: a class
    /// met again while it is still being searched from is recorded in
    /// `cycles`. Returns the finished classes in the order they finished.
    #[verifier::spinoff_prover]
    fn cycle_dfs(
        &self,
        egraph: &IndexedEGraph,
        class_id: usize,
        status: &mut Vec<Option<Status>>,
        cycles: &mut Vec<usize>,
        Ghost(roots): Ghost<Seq<usize>>,
        Ghost(stack): Ghost<Seq<usize>>,
        Ghost(order): Ghost<Seq<usize>>,
    ) -> (out: Ghost<Seq<usize>>)
        requires
            egraph.wf(),
            self.covers(egraph, roots),
            class_id < egraph.num_classes(),
            self.depends(egraph, roots, class_id),
            self.dfs_inv(egraph, roots, old(status)@, old(cycles)@, stack, order),
            stack.len() > 0 ==> self.points(egraph, stack[stack.len() - 1], class_id),
        ensures
            self.dfs_inv(egraph, roots, final(status)@, final(cycles)@, stack, out@),
            order.len() <= out@.len(),
            forall|i: int| 0 <= i < order.len() ==> out@[i] == order[i],
            final(status)@[class_id as int] is Some,
            old(status)@[class_id as int] != Some(Status::Doing) ==> final(status)@[class_id as int]
                == Some(Status::Done),
            forall|i: int|
                0 <= i < old(status)@.len() && old(status)@[i] is Some ==> final(status)@[i] is Some,
            old(cycles)@.len() <= final(cycles)@.len(),
            old(status)@[class_id as int] == Some(Status::Doing) ==> old(cycles)@.len()
                < final(cycles)@.len(),
        decreases count_unvisited(old(status)@),
    {
        match status[class_id] {
            Some(Status::Done) => Ghost(order),
            Some(Status::Doing) => {
                proof {
                    assert(stack.contains(class_id));
                    let i = choose|i: int| 0 <= i < stack.len() && stack[i] == class_id;
                    assert forall|k: int| 0 <= k < stack.len() implies self.depends(egraph, roots, #[trigger] stack[k]) by {
                        assert(status@[stack[k] as int] is Some);
                    }
                    self.lemma_back_edge(egraph, roots, stack, i);
                    let path = stack.subrange(i, stack.len() as int);
                    assert forall|k: int| 0 <= k < path.len() - 1 implies #[trigger] self.points(egraph, path[k], path[k + 1]) by {
                        assert(self.points_at(egraph, stack, i + k));
                    }
                    assert(self.is_loop(egraph, path));
                    assert(status@[class_id as int] is Some);
                }
                let ghost cycles0 = cycles@;
                cycles.push(class_id);
                proof {
                    assert forall|k: int| 0 <= k < cycles@.len() implies self.on_cycle(egraph, #[trigger] cycles@[k]) && self.depends(egraph, roots, cycles@[k]) by {
                        if k < cycles0.len() {
                            assert(cycles@[k] == cycles0[k]);
                        }
                    }
                }
                Ghost(order)
            },
            None => {
                let ghost status0 = status@;
                status.set(class_id, Some(Status::Doing));
                let ghost stack1 = stack.push(class_id);
                proof {
                    lemma_count_unvisited(status0, status@, class_id as int);
                    assert(!stack.contains(class_id));
                    assert(!order.contains(class_id)) by {
                        if order.contains(class_id) {
                            let i = choose|i: int| 0 <= i < order.len() && order[i] == class_id;
                        }
                    }
                    assert forall|i: int, j: int| 0 <= i < stack1.len() && 0 <= j < stack1.len() && i != j implies stack1[i] != stack1[j] by {
                        if i == stack.len() {
                            assert(stack.contains(stack1[j]));
                        } else if j == stack.len() {
                            assert(stack.contains(stack1[i]));
                        }
                    }
                    assert forall|i: int| 0 <= i < stack1.len() - 1 implies #[trigger] self.points_at(egraph, stack1, i) by {
                        if i < stack.len() - 1 {
                            assert(self.points_at(egraph, stack, i));
                        }
                    }
                    assert forall|c: usize|
                        c < status@.len() && #[trigger] status@[c as int] == Some(Status::Doing) implies stack1.contains(c) by {
                        if c == class_id {
                            assert(stack1[stack.len() as int] == c);
                        } else {
                            assert(status0[c as int] == Some(Status::Doing));
                            let i = choose|i: int| 0 <= i < stack.len() && stack[i] == c;
                            assert(stack1[i] == c);
                        }
                    }
                    assert forall|c: usize|
                        c < status@.len() && #[trigger] status@[c as int] == Some(Status::Done) implies order.contains(c) by {
                        assert(status0[c as int] == Some(Status::Done));
                    }
                    assert forall|c: usize|
                        c < status@.len() && (#[trigger] status@[c as int]) is Some implies self.depends(egraph, roots, c) by {
                        if c != class_id {
                            assert(status0[c as int] is Some);
                        }
                    }
                    assert forall|i: int| 0 <= i < order.len() implies (#[trigger] order[i]) < status@.len() && status@[order[i] as int] == Some(Status::Done) by {
                        assert(order[i] != class_id);
                    }
                    assert forall|i: int| 0 <= i < stack1.len() implies (#[trigger] stack1[i]) < status@.len() && status@[stack1[i] as int] == Some(Status::Doing) by {
                        if i < stack.len() {
                            assert(stack1[i] == stack[i]);
                            assert(stack[i] != class_id);
                        }
                    }
                }
                let node_id = index_map_get(&self.choices, class_id).unwrap();
                let children = &egraph.node_children[node_id];
                let ghost mut ord = order;
                let mut j: usize = 0;
                while j < children.len()
                    invariant
                        egraph.wf(),
                        self.covers(egraph, roots),
                        class_id < egraph.num_classes(),
                        self.depends(egraph, roots, class_id),
                        self.chosen(class_id) == Some(node_id),
                        node_id < egraph.node_class@.len(),
                        children@ == egraph.node_children@[node_id as int]@,
                        j <= children@.len(),
                        stack1 == stack.push(class_id),
                        self.dfs_inv(egraph, roots, status@, cycles@, stack1, ord),
                        status@.len() == status0.len(),
                        status@[class_id as int] == Some(Status::Doing),
                        count_unvisited(status@) < count_unvisited(status0),
                        forall|i: int| 0 <= i < status0.len() && status0[i] is Some ==> status@[i] is Some,
                        order.len() <= ord.len(),
                        forall|i: int| 0 <= i < order.len() ==> ord[i] == order[i],
                        old(cycles)@.len() <= cycles@.len(),
                        status0 == old(status)@,
                        cycles@.len() == 0 ==> forall|j2: int|
                            0 <= j2 < j ==> #[trigger] ord.contains(egraph.child_class(node_id, j2)),
                    decreases children@.len() - j,
                {
                    let child_cid = egraph.node_class[children[j]];
                    proof {
                        assert(child_cid == egraph.child_class(node_id, j as int));
                        assert(egraph.node_points_to(node_id, child_cid));
                        assert(self.points(egraph, class_id, child_cid));
                        self.lemma_depends_child(egraph, roots, class_id, child_cid);
                        assert(stack1[stack1.len() - 1] == class_id);
                    }
                    let ghost status_before = status@;
                    let ghost ord_before = ord;
                    let out = self.cycle_dfs(
                        egraph,
                        child_cid,
                        status,
                        cycles,
                        Ghost(roots),
                        Ghost(stack1),
                        Ghost(ord),
                    );
                    proof {
                        ord = out@;
                        lemma_count_unvisited(status_before, status@, -1);
                        assert forall|j2: int|
                            cycles@.len() == 0 && 0 <= j2 < j + 1 implies #[trigger] ord.contains(egraph.child_class(node_id, j2)) by {
                            if j2 < j {
                                let c2 = egraph.child_class(node_id, j2);
                                assert(ord_before.contains(c2));
                                let k = choose|k: int| 0 <= k < ord_before.len() && ord_before[k] == c2;
                                assert(ord[k] == c2);
                            } else {
                                if status_before[child_cid as int] == Some(Status::Doing) {
                                    assert(cycles@.len() > 0);
                                }
                                assert(status@[child_cid as int] == Some(Status::Done));
                                assert(ord.contains(child_cid));
                            }
                        }
                    }
                    j = j + 1;
                }
                let ghost status2 = status@;
                status.set(class_id, Some(Status::Done));
                let ghost out = ord.push(class_id);
                proof {
                    assert(!ord.contains(class_id)) by {
                        if ord.contains(class_id) {
                            let i = choose|i: int| 0 <= i < ord.len() && ord[i] == class_id;
                            assert(status2[class_id as int] == Some(Status::Done));
                        }
                    }
                    assert forall|i: int, k: int| 0 <= i < out.len() && 0 <= k < out.len() && i != k implies out[i] != out[k] by {
                        if i == ord.len() {
                            assert(ord.contains(out[k]));
                        } else if k == ord.len() {
                            assert(ord.contains(out[i]));
                        }
                    }
                    assert forall|i: int| 0 <= i < stack.len() implies (#[trigger] stack[i]) < status@.len() && status@[stack[i] as int] == Some(Status::Doing) by {
                        assert(stack1[i] == stack[i]);
                        assert(stack[i] != class_id) by {
                            assert(stack1[stack.len() as int] == class_id);
                        }
                    }
                    assert forall|c: usize|
                        c < status@.len() && #[trigger] status@[c as int] == Some(Status::Doing) implies stack.contains(c) by {
                        assert(status2[c as int] == Some(Status::Doing));
                        assert(stack1.contains(c));
                        let i = choose|i: int| 0 <= i < stack1.len() && stack1[i] == c;
                        assert(i != stack.len());
                        assert(stack[i] == c);
                    }
                    assert forall|i: int| 0 <= i < stack.len() - 1 implies #[trigger] self.points_at(egraph, stack, i) by {
                        assert(self.points_at(egraph, stack1, i));
                        assert(stack1[i] == stack[i] && stack1[i + 1] == stack[i + 1]);
                    }
                    assert forall|i: int| 0 <= i < out.len() implies (#[trigger] out[i]) < status@.len() && status@[out[i] as int] == Some(Status::Done) by {
                        if i < ord.len() {
                            assert(out[i] == ord[i]);
                        }
                    }
                    assert forall|c: usize|
                        c < status@.len() && #[trigger] status@[c as int] == Some(Status::Done) implies out.contains(c) by {
                        if c == class_id {
                            assert(out[ord.len() as int] == c);
                        } else {
                            assert(status2[c as int] == Some(Status::Done));
                            let i = choose|i: int| 0 <= i < ord.len() && ord[i] == c;
                            assert(out[i] == c);
                        }
                    }
                    assert forall|c: usize|
                        c < status@.len() && (#[trigger] status@[c as int]) is Some implies self.depends(egraph, roots, c) by {
                        if c != class_id {
                            assert(status2[c as int] is Some);
                        }
                    }
                    if cycles@.len() == 0 {
                        assert forall|i: int, b: usize|
                            0 <= i < out.len() && #[trigger] self.points(egraph, out[i], b) implies exists|k: int|
                                0 <= k < i && #[trigger] out[k] == b by {
                            if i < ord.len() {
                                assert(out[i] == ord[i]);
                                let k = choose|k: int| 0 <= k < i && #[trigger] ord[k] == b;
                                assert(out[k] == b);
                            } else {
                                assert(out[i] == class_id);
                                let j2 = choose|j2: int|
                                    0 <= j2 < egraph.node_children@[node_id as int]@.len() && #[trigger] egraph.child_class(node_id, j2) == b;
                                assert(ord.contains(egraph.child_class(node_id, j2)));
                                let k = choose|k: int| 0 <= k < ord.len() && ord[k] == b;
                                assert(out[k] == b);
                            }
                        }
                    }
                    lemma_count_unvisited(status0, status@, -1);
                }
                Ghost(out)
            },
        }
    }

    /// The classes at which the search from each of `roots` in turn, along
    /// chosen e-nodes, meets a class it is still searching from. Empty
    /// exactly when the chosen e-nodes needed by `roots` form no cycle.
    pub fn find_cycles(&self, egraph: &IndexedEGraph, roots: &[usize]) -> (r: Vec<usize>)
        requires
            egraph.wf(),
            forall|i: int| 0 <= i < roots@.len() ==> #[trigger] roots@[i] < egraph.num_classes(),
            self.covers(egraph, roots@),
        ensures
            r@.len() == 0 <==> self.acyclic(egraph, roots@),
            forall|i: int|
                0 <= i < r@.len() ==> self.on_cycle(egraph, #[trigger] r@[i]) && self.depends(egraph, roots@, r@[i]),
    {
        let n = egraph.class_nodes.len();
        let mut status: Vec<Option<Status>> = Vec::new();
        while status.len() < n
            invariant
                status@.len() <= n,
                forall|i: int| 0 <= i < status@.len() ==> status@[i] is None,
            decreases n - status@.len(),
        {
            status.push(None);
        }
        let mut cycles: Vec<usize> = Vec::new();
        let ghost mut order: Seq<usize> = Seq::empty();
        proof {
            assert(self.dfs_inv(egraph, roots@, status@, cycles@, Seq::empty(), order)) by {
                assert forall|c: usize| c < status@.len() && #[trigger] status@[c as int] == Some(Status::Doing) implies Seq::<usize>::empty().contains(c) by {
                    assert(status@[c as int] is None);
                }
                assert forall|c: usize| c < status@.len() && #[trigger] status@[c as int] == Some(Status::Done) implies order.contains(c) by {
                    assert(status@[c as int] is None);
                }
                assert forall|c: usize| c < status@.len() && (#[trigger] status@[c as int]) is Some implies self.depends(egraph, roots@, c) by {
                    assert(status@[c as int] is None);
                }
            }
        }
        let mut i: usize = 0;
        while i < roots.len()
            invariant
                egraph.wf(),
                forall|k: int| 0 <= k < roots@.len() ==> #[trigger] roots@[k] < egraph.num_classes(),
                self.covers(egraph, roots@),
                i <= roots@.len(),
                self.dfs_inv(egraph, roots@, status@, cycles@, Seq::empty(), order),
                forall|k: int| 0 <= k < i ==> (#[trigger] status@[roots@[k] as int]) is Some,
            decreases roots@.len() - i,
        {
            proof {
                let r = roots@[i as int];
                assert forall|s: Set<usize>|
                    self.closed_choice(egraph, s) && (forall|k: int| 0 <= k < roots@.len() ==> s.contains(#[trigger] roots@[k]))
                        implies s.contains(r) by {
                    assert(s.contains(roots@[i as int]));
                }
            }
            let ghost before = status@;
            let out = self.cycle_dfs(
                egraph,
                roots[i],
                &mut status,
                &mut cycles,
                Ghost(roots@),
                Ghost(Seq::empty()),
                Ghost(order),
            );
            proof {
                order = out@;
                assert forall|k: int| 0 <= k < i + 1 implies (#[trigger] status@[roots@[k] as int]) is Some by {
                    if k < i {
                        assert(before[roots@[k] as int] is Some);
                    }
                }
            }
            i = i + 1;
        }
        proof {
            if cycles@.len() == 0 {
                let vis = Set::new(|c: usize| c < status@.len() && status@[c as int] is Some);
                assert(self.closed_choice(egraph, vis)) by {
                    assert forall|a: usize, b: usize|
                        #![trigger vis.contains(a), self.points(egraph, a, b)]
                        vis.contains(a) && self.points(egraph, a, b) implies vis.contains(b) by {
                        if status@[a as int] == Some(Status::Doing) {
                            assert(Seq::<usize>::empty().contains(a));
                        }
                        assert(status@[a as int] == Some(Status::Done));
                        assert(order.contains(a));
                        let ia = choose|ia: int| 0 <= ia < order.len() && order[ia] == a;
                        assert(self.points(egraph, order[ia], b));
                        let kb = choose|kb: int| 0 <= kb < ia && #[trigger] order[kb] == b;
                        assert(status@[order[kb] as int] == Some(Status::Done));
                    }
                }
                assert forall|k: int| 0 <= k < roots@.len() implies vis.contains(#[trigger] roots@[k]) by {
                    assert(status@[roots@[k] as int] is Some);
                }
                let rank = |c: usize| (choose|p: int| 0 <= p < order.len() && order[p] == c) as nat;
                assert(self.ranked_by(egraph, roots@, rank)) by {
                    assert forall|a: usize, b: usize| #[trigger]
                        self.points(egraph, a, b) && self.depends(egraph, roots@, a) implies rank(b) < rank(a) by {
                        assert(vis.contains(a));
                        if status@[a as int] == Some(Status::Doing) {
                            assert(Seq::<usize>::empty().contains(a));
                        }
                        assert(status@[a as int] == Some(Status::Done));
                        assert(order.contains(a));
                        let ia = choose|p: int| 0 <= p < order.len() && order[p] == a;
                        assert(self.points(egraph, order[ia], b));
                        let kb = choose|kb: int| 0 <= kb < ia && #[trigger] order[kb] == b;
                        let pb = choose|p: int| 0 <= p < order.len() && order[p] == b;
                        assert(pb == kb);
                        assert(rank(a) == ia);
                        assert(rank(b) == pb);
                    }
                }
            }
        }
        cycles
    }
}

impl ExtractionResult {
    /// Every chosen e-node is an e-node of the e-graph, in the class it is
    /// chosen for.
    pub open spec fn consistent(&self, g: &IndexedEGraph) -> bool {
        forall|c: usize| #[trigger]
            self.chosen(c) is Some ==> self.chosen(c)->0 < g.node_class@.len()
                && g.node_class@[self.chosen(c)->0 as int] == c
    }

    /// The extraction is valid for the e-graph: there is a root, every root
    /// has a chosen e-node, every chosen e-node lies in its class, every class
    /// the roots need has a chosen e-node, and the chosen e-nodes the roots
    /// need form no cycle.
    pub open spec fn valid(&self, g: &IndexedEGraph) -> bool {
        &&& g.roots@.len() > 0
        &&& forall|i: int| 0 <= i < g.roots@.len() ==> self.chosen(#[trigger] g.roots@[i]) is Some
        &&& self.consistent(g)
        &&& self.covers(g, g.roots@)
        &&& self.acyclic(g, g.roots@)
    }

    /// The entry maps a class to an e-node of the e-graph in that class.
    spec fn entry_matches(g: &IndexedEGraph, e: (usize, usize)) -> bool {
        e.1 < g.node_class@.len() && g.node_class@[e.1 as int] == e.0
    }

    /// Whether every chosen e-node is an e-node of its class.
    fn choices_match(&self, egraph: &IndexedEGraph) -> (ok: bool)
        ensures
            ok == self.consistent(egraph),
    {
        let entries = index_map_list(&self.choices);
        let mut i: usize = 0;
        while i < entries.len()
            invariant
                i <= entries@.len(),
                forall|i2: int|
                    0 <= i2 < entries@.len() ==> index_map_entries(self.choices).contains_key(#[trigger] entries@[i2].0)
                        && index_map_entries(self.choices)[entries@[i2].0] == entries@[i2].1,
                forall|k: usize| #[trigger]
                    index_map_entries(self.choices).contains_key(k) ==> exists|i2: int|
                        0 <= i2 < entries@.len() && entries@[i2].0 == k,
                forall|i2: int| 0 <= i2 < i ==> Self::entry_matches(egraph, #[trigger] entries@[i2]),
            decreases entries@.len() - i,
        {
            let (c, n) = entries[i];
            if n >= egraph.node_class.len() || egraph.node_class[n] != c {
                proof {
                    assert(index_map_entries(self.choices).contains_key(entries@[i as int].0));
                    assert(self.chosen(c) == Some(n));
                }
                return false;
            }
            assert(Self::entry_matches(egraph, entries@[i as int]));
            i = i + 1;
        }
        proof {
            assert forall|d: usize| #[trigger] self.chosen(d) is Some implies self.chosen(d)->0 < egraph.node_class@.len()
                && egraph.node_class@[self.chosen(d)->0 as int] == d by {
                assert(index_map_entries(self.choices).contains_key(d));
                let i2 = choose|i2: int| 0 <= i2 < entries@.len() && entries@[i2].0 == d;
                assert(index_map_entries(self.choices).contains_key(entries@[i2].0));
                assert(Self::entry_matches(egraph, entries@[i2]));
            }
        }
        true
    }

    /// Whether every class that the roots need has a chosen e-node: a search
    /// from the roots along the chosen e-nodes' children.
    #[verifier::spinoff_prover]
    fn dependencies_chosen(&self, egraph: &IndexedEGraph) -> (ok: bool)
        requires
            egraph.wf(),
            self.consistent(egraph),
        ensures
            ok == self.covers(egraph, egraph.roots@),
    {
        let ghost roots = egraph.roots@;
        let ghost num = egraph.num_classes();
        let ghost range = Set::new(|i: usize| i < num);
        proof {
            crate::extract::maxsat::cycles::lemma_range_finite(num);
            assert forall|k: int| 0 <= k < roots.len() implies self.depends(egraph, roots, #[trigger] roots[k]) by {
                let r = roots[k];
                assert forall|s: Set<usize>|
                    self.closed_choice(egraph, s) && (forall|i: int| 0 <= i < roots.len() ==> s.contains(#[trigger] roots[i]))
                        implies s.contains(r) by {
                    assert(s.contains(roots[k]));
                }
            }
        }
        let mut waiting: Vec<usize> = Vec::new();
        let mut i: usize = 0;
        while i < egraph.roots.len()
            invariant
                egraph.wf(),
                roots == egraph.roots@,
                i <= roots.len(),
                waiting@ == roots.subrange(0, i as int),
            decreases roots.len() - i,
        {
            waiting.push(egraph.roots[i]);
            proof {
                assert(waiting@ =~= roots.subrange(0, i + 1));
            }
            i = i + 1;
        }
        proof {
            assert(waiting@ =~= roots);
        }
        let mut visited: HashSet<usize> = HashSet::new();
        proof {
            vstd::set_lib::lemma_len_subset(visited@, range);
        }
        while waiting.len() > 0
            invariant
                egraph.wf(),
                self.consistent(egraph),
                roots == egraph.roots@,
                num == egraph.num_classes(),
                range == Set::new(|i: usize| i < num),
                range.finite(),
                range.len() <= num,
                forall|k: int| 0 <= k < roots.len() ==> self.depends(egraph, roots, #[trigger] roots[k]),
                visited@.subset_of(range),
                visited@.finite(),
                visited@.len() <= num,
                forall|x: usize| #[trigger]
                    visited@.contains(x) ==> self.depends(egraph, roots, x) && self.chosen(x) is Some,
                forall|k: int|
                    0 <= k < waiting@.len() ==> self.depends(egraph, roots, #[trigger] waiting@[k]) && waiting@[k] < num,
                forall|k: int|
                    0 <= k < roots.len() ==> visited@.contains(#[trigger] roots[k]) || waiting@.contains(roots[k]),
                forall|a: usize, b: usize|
                    #![trigger visited@.contains(a), self.points(egraph, a, b)]
                    visited@.contains(a) && self.points(egraph, a, b) ==> visited@.contains(b) || waiting@.contains(b),
            decreases num - visited@.len(), waiting@.len(),
        {
            let ghost waiting0 = waiting@;
            let cid = waiting.pop().unwrap();
            proof {
                assert(waiting0[waiting0.len() - 1] == cid);
                assert(waiting@ =~= waiting0.drop_last());
                assert(self.depends(egraph, roots, waiting0[waiting0.len() - 1]));
            }
            if visited.contains(&cid) {
                proof {
                    assert forall|k: int| 0 <= k < roots.len() implies visited@.contains(#[trigger] roots[k]) || waiting@.contains(roots[k]) by {
                        if waiting0.contains(roots[k]) && !visited@.contains(roots[k]) {
                            let p = choose|p: int| 0 <= p < waiting0.len() && waiting0[p] == roots[k];
                            assert(p != waiting0.len() - 1);
                            assert(waiting@[p] == roots[k]);
                        }
                    }
                    assert forall|a: usize, b: usize|
                        #![trigger visited@.contains(a), self.points(egraph, a, b)]
                        visited@.contains(a) && self.points(egraph, a, b) implies visited@.contains(b) || waiting@.contains(b) by {
                        if waiting0.contains(b) && !visited@.contains(b) {
                            let p = choose|p: int| 0 <= p < waiting0.len() && waiting0[p] == b;
                            assert(p != waiting0.len() - 1);
                            assert(waiting@[p] == b);
                        }
                    }
                }
            } else {
                let ghost v0 = visited@;
                visited.insert(cid);
                match self.get(cid) {
                    None => {
                        proof {
                            assert(self.depends(egraph, roots, cid));
                        }
                        return false;
                    },
                    Some(node_id) => {
                        let children = &egraph.node_children[node_id];
                        let mut j: usize = 0;
                        proof {
                            assert(self.chosen(cid) == Some(node_id));
                            assert(node_id < egraph.node_class@.len());
                            assert(v0.insert(cid).subset_of(range));
                            vstd::set_lib::lemma_len_subset(visited@, range);
                            assert(visited@.len() == v0.len() + 1);
                        }
                        let ghost todo1 = waiting@;
                        while j < children.len()
                            invariant
                                egraph.wf(),
                                self.consistent(egraph),
                                self.chosen(cid) == Some(node_id),
                                node_id < egraph.node_class@.len(),
                                children@ == egraph.node_children@[node_id as int]@,
                                j <= children@.len(),
                                self.depends(egraph, roots, cid),
                                num == egraph.num_classes(),
                                waiting@.len() == todo1.len() + j,
                                forall|k: int| 0 <= k < todo1.len() ==> waiting@[k] == todo1[k],
                                forall|k: int|
                                    0 <= k < waiting@.len() ==> self.depends(egraph, roots, #[trigger] waiting@[k])
                                        && waiting@[k] < num,
                                forall|j2: int| 0 <= j2 < j ==> waiting@.contains(#[trigger] egraph.child_class(node_id, j2)),
                            decreases children@.len() - j,
                        {
                            let child = egraph.node_class[children[j]];
                            proof {
                                assert(child == egraph.child_class(node_id, j as int));
                                assert(egraph.node_points_to(node_id, child));
                                assert(self.points(egraph, cid, child));
                                self.lemma_depends_child(egraph, roots, cid, child);
                            }
                            let ghost tb = waiting@;
                            waiting.push(child);
                            proof {
                                assert forall|j2: int| 0 <= j2 < j + 1 implies waiting@.contains(#[trigger] egraph.child_class(node_id, j2)) by {
                                    if j2 < j {
                                        let p = choose|p: int| 0 <= p < tb.len() && tb[p] == egraph.child_class(node_id, j2);
                                        assert(waiting@[p] == tb[p]);
                                    } else {
                                        assert(waiting@[tb.len() as int] == child);
                                    }
                                }
                            }
                            j = j + 1;
                        }
                        proof {
                            assert forall|k: int| 0 <= k < roots.len() implies visited@.contains(#[trigger] roots[k]) || waiting@.contains(roots[k]) by {
                                if !v0.contains(roots[k]) && roots[k] != cid {
                                    assert(waiting0.contains(roots[k]));
                                    let p = choose|p: int| 0 <= p < waiting0.len() && waiting0[p] == roots[k];
                                    assert(p != waiting0.len() - 1);
                                    assert(todo1[p] == roots[k]);
                                    assert(waiting@[p] == roots[k]);
                                }
                            }
                            assert forall|a: usize, b: usize|
                                #![trigger visited@.contains(a), self.points(egraph, a, b)]
                                visited@.contains(a) && self.points(egraph, a, b) implies visited@.contains(b) || waiting@.contains(b) by {
                                if a == cid {
                                    let j2 = choose|j2: int|
                                        0 <= j2 < egraph.node_children@[node_id as int]@.len() && #[trigger] egraph.child_class(node_id, j2) == b;
                                    assert(waiting@.contains(egraph.child_class(node_id, j2)));
                                } else if !visited@.contains(b) {
                                    assert(v0.contains(a));
                                    assert(waiting0.contains(b));
                                    let p = choose|p: int| 0 <= p < waiting0.len() && waiting0[p] == b;
                                    assert(p != waiting0.len() - 1);
                                    assert(todo1[p] == b);
                                    assert(waiting@[p] == b);
                                }
                            }
                        }
                    },
                }
            }
        }
        proof {
            assert(self.closed_choice(egraph, visited@));
            assert forall|c: usize| #[trigger] self.depends(egraph, roots, c) implies self.chosen(c) is Some
                && self.chosen(c)->0 < egraph.node_class@.len() by {
                assert forall|k: int| 0 <= k < roots.len() implies visited@.contains(#[trigger] roots[k]) by {
                    assert(visited@.contains(roots[k]) || waiting@.contains(roots[k]));
                }
                assert(visited@.contains(c));
            }
        }
        true
    }

    /// Whether the extraction is valid for the e-graph: there is a root,
    /// every root has a chosen e-node, every chosen e-node lies in its
    /// class, every class the roots need has a chosen e-node, and the chosen
    /// e-nodes the roots need form no cycle.
    pub fn check(&self, egraph: &IndexedEGraph) -> (ok: bool)
        requires
            egraph.wf(),
        ensures
            ok == self.valid(egraph),
    {
        if egraph.roots.len() == 0 {
            return false;
        }
        let mut i: usize = 0;
        while i < egraph.roots.len()
            invariant
                i <= egraph.roots@.len(),
                forall|k: int| 0 <= k < i ==> self.chosen(#[trigger] egraph.roots@[k]) is Some,
            decreases egraph.roots@.len() - i,
        {
            if self.get(egraph.roots[i]).is_none() {
                return false;
            }
            i = i + 1;
        }
        if !self.choices_match(egraph) {
            return false;
        }
        if !self.dependencies_chosen(egraph) {
            return false;
        }
        let cycles = self.find_cycles(egraph, egraph.roots.as_slice());
        cycles.len() == 0
    }
}

} // verus!
