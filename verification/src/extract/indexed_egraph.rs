//! An e-graph with its classes and e-nodes numbered: what the extraction
//! logic reads of an e-graph, as plain numbers.
use vstd::prelude::*;

verus! {

/// An e-graph whose classes are numbered `0..class_nodes.len()` and whose
/// e-nodes are numbered `0..node_class.len()`.
pub struct IndexedEGraph {
    /// The class of each e-node.
    pub node_class: Vec<usize>,
    /// The children of each e-node, as e-node numbers; a child stands for its
    /// class.
    pub node_children: Vec<Vec<usize>>,
    /// The e-nodes of each class.
    pub class_nodes: Vec<Vec<usize>>,
    /// The root classes.
    pub roots: Vec<usize>,
}

impl IndexedEGraph {
    /// The numbers of classes and e-nodes agree with the lists: every class
    /// number and e-node number in the graph is in range, and each class
    /// lists only its own e-nodes.
    pub open spec fn wf(&self) -> bool {
        &&& self.node_children@.len() == self.node_class@.len()
        &&& forall|n: int|
            0 <= n < self.node_class@.len() ==> #[trigger] self.node_class@[n]
                < self.class_nodes@.len()
        &&& forall|n: int, k: int|
            0 <= n < self.node_children@.len() && 0 <= k < self.node_children@[n]@.len()
                ==> #[trigger] self.node_children@[n]@[k] < self.node_class@.len()
        &&& forall|c: int, k: int|
            0 <= c < self.class_nodes@.len() && 0 <= k < self.class_nodes@[c]@.len() ==> {
                let n = #[trigger] self.class_nodes@[c]@[k];
                &&& n < self.node_class@.len()
                &&& self.node_class@[n as int] == c
            }
        &&& forall|i: int| 0 <= i < self.roots@.len() ==> #[trigger] self.roots@[i] < self.class_nodes@.len()
    }

    /// Whether the numbers of classes and e-nodes agree with the lists
    /// (`wf`).
    pub fn is_wf(&self) -> (b: bool)
        ensures
            b == self.wf(),
    {
        let nodes = self.node_class.len();
        let classes = self.class_nodes.len();
        if self.node_children.len() != nodes {
            return false;
        }
        let mut n: usize = 0;
        while n < nodes
            invariant
                n <= nodes,
                nodes == self.node_class@.len(),
                classes == self.class_nodes@.len(),
                self.node_children@.len() == nodes,
                forall|m: int| 0 <= m < n ==> #[trigger] self.node_class@[m] < classes,
                forall|m: int, k: int|
                    0 <= m < n && 0 <= k < self.node_children@[m]@.len()
                        ==> #[trigger] self.node_children@[m]@[k] < nodes,
            decreases nodes - n,
        {
            if self.node_class[n] >= classes {
                return false;
            }
            let kids = &self.node_children[n];
            let mut k: usize = 0;
            while k < kids.len()
                invariant
                    k <= kids@.len(),
                    n < nodes,
                    nodes == self.node_class@.len(),
                    kids@ == self.node_children@[n as int]@,
                    forall|j: int| 0 <= j < k ==> #[trigger] kids@[j] < nodes,
                decreases kids@.len() - k,
            {
                if kids[k] >= nodes {
                    assert(self.node_children@[n as int]@[k as int] >= nodes);
                    return false;
                }
                k = k + 1;
            }
            n = n + 1;
        }
        let mut c: usize = 0;
        while c < classes
            invariant
                c <= classes,
                nodes == self.node_class@.len(),
                classes == self.class_nodes@.len(),
                forall|d: int, k: int|
                    0 <= d < c && 0 <= k < self.class_nodes@[d]@.len() ==> {
                        let m = #[trigger] self.class_nodes@[d]@[k];
                        &&& m < nodes
                        &&& self.node_class@[m as int] == d
                    },
            decreases classes - c,
        {
            let members = &self.class_nodes[c];
            let mut k: usize = 0;
            while k < members.len()
                invariant
                    k <= members@.len(),
                    c < classes,
                    classes == self.class_nodes@.len(),
                    nodes == self.node_class@.len(),
                    members@ == self.class_nodes@[c as int]@,
                    forall|j: int| 0 <= j < k ==> {
                        let m = #[trigger] members@[j];
                        &&& m < nodes
                        &&& self.node_class@[m as int] == c
                    },
                decreases members@.len() - k,
            {
                let m = members[k];
                if m >= nodes || self.node_class[m] != c {
                    assert(self.class_nodes@[c as int]@[k as int] == m);
                    return false;
                }
                k = k + 1;
            }
            c = c + 1;
        }
        let mut i: usize = 0;
        while i < self.roots.len()
            invariant
                i <= self.roots@.len(),
                classes == self.class_nodes@.len(),
                forall|j: int| 0 <= j < i ==> #[trigger] self.roots@[j] < classes,
            decreases self.roots@.len() - i,
        {
            if self.roots[i] >= classes {
                return false;
            }
            i = i + 1;
        }
        true
    }

    /// The number of classes.
    pub open spec fn num_classes(&self) -> nat {
        self.class_nodes@.len()
    }

    /// The `k`-th e-node of class `c`.
    pub open spec fn member(&self, c: usize, k: int) -> usize {
        self.class_nodes@[c as int]@[k]
    }

    /// The class of the `k`-th child of e-node `n`.
    pub open spec fn child_class(&self, n: usize, k: int) -> usize {
        self.node_class@[self.node_children@[n as int]@[k] as int]
    }

    /// E-node `n` has a child in class `b`.
    pub open spec fn node_points_to(&self, n: usize, b: usize) -> bool {
        exists|k: int| 0 <= k < self.node_children@[n as int]@.len() && #[trigger] self.child_class(n, k) == b
    }

    /// Some e-node of class `a` has a child in class `b`.
    pub open spec fn class_points_to(&self, a: usize, b: usize) -> bool {
        exists|k: int|
            0 <= k < self.class_nodes@[a as int]@.len() && #[trigger] self.node_points_to(
                self.member(a, k),
                b,
            )
    }

    /// Every class that a class of `s` points to is in `s`.
    pub open spec fn closed_under_children(&self, s: Set<usize>) -> bool {
        forall|a: usize, b: usize|
            #![trigger s.contains(a), self.class_points_to(a, b)]
            s.contains(a) && a < self.num_classes() && self.class_points_to(a, b) ==> s.contains(b)
    }

    /// Class `c` can be reached from class `root` by going from classes to the
    /// classes of their e-nodes' children: it lies in every set that holds
    /// `root` and is closed under children.
    pub open spec fn reachable(&self, root: usize, c: usize) -> bool {
        forall|s: Set<usize>|
            #![trigger self.closed_under_children(s), s.contains(c)]
            self.closed_under_children(s) && s.contains(root) ==> s.contains(c)
    }
}

} // verus!
