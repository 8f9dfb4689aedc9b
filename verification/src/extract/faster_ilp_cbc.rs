//! The structural passes of the faster CBC-based ILP extractor, on its
//! per-class variables numbered: `children[c][k]` lists the classes of the
//! children of the `k`-th remaining e-node of class `c`.
use vstd::prelude::*;
use super::{count_unvisited, lemma_count_unvisited, Status};

pub mod rows;

verus! {

/// Switches for the preprocessing passes and solver strategies of the
/// faster CBC-based ILP extractor.
pub struct Config {
    pub pull_up_costs: bool,
    pub remove_self_loops: bool,
    pub remove_high_cost_nodes: bool,
    pub remove_more_expensive_subsumed_nodes: bool,
    pub remove_more_expensive_nodes: bool,
    pub remove_unreachable_classes: bool,
    pub pull_up_single_parent: bool,
    pub take_intersection_of_children_in_class: bool,
    pub move_min_cost_of_members_to_class: bool,
    pub initialise_with_approx: bool,
    pub initialise_with_previous_solution: bool,
    pub prior_block_cycles: bool,
}

impl Config {
    /// The configuration the extractor runs with unless told otherwise.
    pub fn default() -> (c: Self)
        ensures
            c.pull_up_costs,
            !c.remove_self_loops,
            !c.remove_high_cost_nodes,
            !c.remove_more_expensive_subsumed_nodes,
            !c.remove_more_expensive_nodes,
            !c.remove_unreachable_classes,
            !c.pull_up_single_parent,
            !c.take_intersection_of_children_in_class,
            c.move_min_cost_of_members_to_class,
            c.initialise_with_approx,
            c.initialise_with_previous_solution,
            c.prior_block_cycles,
    {
        Config {
            pull_up_costs: true,
            remove_self_loops: false,
            remove_high_cost_nodes: false,
            remove_more_expensive_subsumed_nodes: false,
            remove_more_expensive_nodes: false,
            remove_unreachable_classes: false,
            pull_up_single_parent: false,
            take_intersection_of_children_in_class: false,
            move_min_cost_of_members_to_class: true,
            initialise_with_approx: true,
            initialise_with_previous_solution: true,
            prior_block_cycles: true,
        }
    }
}

/// Class `c` is one of the `k`-th e-node of class `a`'s children classes.
pub open spec fn child_of(children: Seq<Vec<Vec<usize>>>, a: int, k: int, c: usize) -> bool {
    children[a]@[k]@.contains(c)
}

/// Class `a` has an e-node with a child in class `c`.
pub open spec fn has_child(children: Seq<Vec<Vec<usize>>>, a: int, c: usize) -> bool {
    exists|k: int| 0 <= k < children[a]@.len() && #[trigger] child_of(children, a, k, c)
}

/// Every class that a class of `s` has a child in is in `s`.
pub open spec fn closed_set(children: Seq<Vec<Vec<usize>>>, s: Set<usize>) -> bool {
    forall|a: usize, c: usize|
        #![trigger s.contains(a), has_child(children, a as int, c)]
        s.contains(a) && a < children.len() && has_child(children, a as int, c) ==> s.contains(c)
}

/// Class `c` can be reached from one of `roots` through children: it lies in
/// every set that holds the roots and is closed under children.
pub open spec fn reaches_class(children: Seq<Vec<Vec<usize>>>, roots: Seq<usize>, c: usize) -> bool {
    forall|s: Set<usize>|
        #![trigger closed_set(children, s), s.contains(c)]
        closed_set(children, s) && (forall|i: int| 0 <= i < roots.len() ==> s.contains(#[trigger] roots[i]))
            ==> s.contains(c)
}

/// Every child class is a class.
pub open spec fn children_in_range(children: Seq<Vec<Vec<usize>>>) -> bool {
    forall|a: int, k: int, j: int|
        0 <= a < children.len() && 0 <= k < children[a]@.len() && 0 <= j < children[a]@[k]@.len()
            ==> #[trigger] children[a]@[k]@[j] < children.len()
}

/// Every child class and every root is a class.
pub open spec fn classes_in_range(children: Seq<Vec<Vec<usize>>>, roots: Seq<usize>) -> bool {
    &&& children_in_range(children)
    &&& forall|i: int| 0 <= i < roots.len() ==> #[trigger] roots[i] < children.len()
}

/// The number of classes not yet marked.
pub open spec fn count_unmarked(s: Seq<bool>) -> nat
    decreases s.len(),
{
    if s.len() == 0 {
        0
    } else {
        count_unmarked(s.drop_last()) + if s.last() {
            0nat
        } else {
            1nat
        }
    }
}

/// Marking an unmarked class leaves one fewer.
proof fn lemma_mark(s: Seq<bool>, c: int)
    requires
        0 <= c < s.len(),
        !s[c],
    ensures
        count_unmarked(s.update(c, true)) + 1 == count_unmarked(s),
    decreases s.len(),
{
    let t = s.update(c, true);
    if c < s.len() - 1 {
        assert(t.drop_last() =~= s.drop_last().update(c, true));
        lemma_mark(s.drop_last(), c);
    } else {
        assert(t.drop_last() =~= s.drop_last());
    }
}

/// Every class marked in `seen` and not waiting in `waiting` has all its
/// children marked.
pub open spec fn marked_closed(children: Seq<Vec<Vec<usize>>>, seen: Seq<bool>, waiting: Seq<usize>) -> bool {
    forall|a: int, k: int, j: int|
        0 <= a < children.len() && seen[a] && !waiting.contains(a as usize) && 0 <= k < children[a]@.len() && 0 <= j
            < children[a]@[k]@.len() ==> seen[#[trigger] children[a]@[k]@[j] as int]
}

/// Marking one more class keeps the others' children marked, and a class
/// that leaves the waiting list needs its own children marked.
proof fn lemma_mark_closed(
    children: Seq<Vec<Vec<usize>>>,
    seen: Seq<bool>,
    waiting: Seq<usize>,
    c: usize,
)
    requires
        marked_closed(children, seen, waiting),
        children_in_range(children),
        c < seen.len(),
        seen.len() == children.len(),
    ensures
        marked_closed(children, seen.update(c as int, true), waiting.push(c)),
{
    let s2 = seen.update(c as int, true);
    let t2 = waiting.push(c);
    assert forall|a: int, k: int, j: int|
        0 <= a < children.len() && s2[a] && !t2.contains(a as usize) && 0 <= k < children[a]@.len() && 0 <= j
            < children[a]@[k]@.len() implies s2[#[trigger] children[a]@[k]@[j] as int] by {
        if a != c {
            assert(seen[a]);
            if waiting.contains(a as usize) {
                let t = choose|t: int| 0 <= t < waiting.len() && waiting[t] == a as usize;
                assert(t2[t] == a as usize);
            }
        } else {
            assert(t2[waiting.len() as int] == c);
        }
    }
}

/// Which classes can be reached from `classes` through children.
pub fn reachable(children: &Vec<Vec<Vec<usize>>>, classes: &[usize]) -> (r: Vec<bool>)
    requires
        classes_in_range(children@, classes@),
    ensures
        r@.len() == children@.len(),
        forall|c: int| 0 <= c < children@.len() ==> (r@[c] <==> reaches_class(children@, classes@, c as usize)),
{
    let n = children.len();
    let mut seen: Vec<bool> = Vec::new();
    while seen.len() < n
        invariant
            seen@.len() <= n,
            forall|c: int| 0 <= c < seen@.len() ==> !seen@[c],
        decreases n - seen@.len(),
    {
        seen.push(false);
    }
    let mut waiting: Vec<usize> = Vec::new();
    proof {
        assert(marked_closed(children@, seen@, waiting@));
    }
    let mut i: usize = 0;
    while i < classes.len()
        invariant
            classes_in_range(children@, classes@),
            n == children@.len(),
            seen@.len() == n,
            i <= classes@.len(),
            forall|c: int| 0 <= c < n && seen@[c] ==> reaches_class(children@, classes@, c as usize),
            forall|i2: int| 0 <= i2 < i ==> seen@[#[trigger] classes@[i2] as int],
            forall|t: int| 0 <= t < waiting@.len() ==> #[trigger] waiting@[t] < n && seen@[waiting@[t] as int],
            marked_closed(children@, seen@, waiting@),
        decreases classes@.len() - i,
    {
        let c = classes[i];
        if !seen[c] {
            proof {
                assert forall|s: Set<usize>|
                    closed_set(children@, s) && (forall|i2: int| 0 <= i2 < classes@.len() ==> s.contains(#[trigger] classes@[i2]))
                        implies s.contains(c) by {
                    assert(s.contains(classes@[i as int]));
                }
                lemma_mark_closed(children@, seen@, waiting@, c);
            }
            seen.set(c, true);
            waiting.push(c);
        }
        i = i + 1;
    }
    while waiting.len() > 0
        invariant
            classes_in_range(children@, classes@),
            n == children@.len(),
            seen@.len() == n,
            forall|c: int| 0 <= c < n && seen@[c] ==> reaches_class(children@, classes@, c as usize),
            forall|i2: int| 0 <= i2 < classes@.len() ==> seen@[#[trigger] classes@[i2] as int],
            forall|t: int| 0 <= t < waiting@.len() ==> #[trigger] waiting@[t] < n && seen@[waiting@[t] as int],
            marked_closed(children@, seen@, waiting@),
        decreases 2 * count_unmarked(seen@) + waiting@.len(),
    {
        let ghost m0 = 2 * count_unmarked(seen@) + waiting@.len();
        let ghost waiting0 = waiting@;
        let a = waiting.pop().unwrap();
        proof {
            assert(waiting0 == waiting@.push(a));
            assert(waiting0[waiting0.len() - 1] == a);
        }
        let kids = &children[a];
        let mut k: usize = 0;
        while k < kids.len()
            invariant
                classes_in_range(children@, classes@),
                n == children@.len(),
                a < n,
                seen@[a as int],
                kids == children@[a as int],
                k <= kids@.len(),
                seen@.len() == n,
                forall|c: int| 0 <= c < n && seen@[c] ==> reaches_class(children@, classes@, c as usize),
                forall|i2: int| 0 <= i2 < classes@.len() ==> seen@[#[trigger] classes@[i2] as int],
                forall|t: int| 0 <= t < waiting@.len() ==> #[trigger] waiting@[t] < n && seen@[waiting@[t] as int],
                marked_closed(children@, seen@, waiting@.push(a)),
                forall|k2: int, j: int| 0 <= k2 < k && 0 <= j < kids@[k2]@.len() ==> seen@[#[trigger] kids@[k2]@[j] as int],
                2 * count_unmarked(seen@) + waiting@.len() < m0,
            decreases kids@.len() - k,
        {
            let row = &kids[k];
            let mut j: usize = 0;
            while j < row.len()
                invariant
                    classes_in_range(children@, classes@),
                    n == children@.len(),
                    a < n,
                    seen@[a as int],
                    kids == children@[a as int],
                    k < kids@.len(),
                    row == kids@[k as int],
                    j <= row@.len(),
                    seen@.len() == n,
                    forall|c: int| 0 <= c < n && seen@[c] ==> reaches_class(children@, classes@, c as usize),
                    forall|i2: int| 0 <= i2 < classes@.len() ==> seen@[#[trigger] classes@[i2] as int],
                    forall|t: int| 0 <= t < waiting@.len() ==> #[trigger] waiting@[t] < n && seen@[waiting@[t] as int],
                    marked_closed(children@, seen@, waiting@.push(a)),
                    forall|k2: int, j2: int| 0 <= k2 < k && 0 <= j2 < kids@[k2]@.len() ==> seen@[#[trigger] kids@[k2]@[j2] as int],
                    forall|j2: int| 0 <= j2 < j ==> seen@[#[trigger] row@[j2] as int],
                    2 * count_unmarked(seen@) + waiting@.len() < m0,
                decreases row@.len() - j,
            {
                let c = row[j];
                if !seen[c] {
                    proof {
                        assert(child_of(children@, a as int, k as int, c)) by {
                            assert(children@[a as int]@[k as int]@[j as int] == c);
                        }
                        assert(has_child(children@, a as int, c));
                        assert forall|s: Set<usize>|
                            closed_set(children@, s) && (forall|i2: int| 0 <= i2 < classes@.len() ==> s.contains(#[trigger] classes@[i2]))
                                implies s.contains(c) by {
                            assert(s.contains(a));
                        }
                        lemma_mark(seen@, c as int);
                        let t1 = waiting@.push(a);
                        lemma_mark_closed(children@, seen@, t1, c);
                        let s2 = seen@.update(c as int, true);
                        assert forall|a2: int, k2: int, j2: int|
                            0 <= a2 < children@.len() && s2[a2] && !waiting@.push(c).push(a).contains(a2 as usize) && 0 <= k2
                                < children@[a2]@.len() && 0 <= j2 < children@[a2]@[k2]@.len() implies s2[#[trigger] children@[a2]@[k2]@[j2] as int] by {
                            if t1.push(c).contains(a2 as usize) {
                                let t = choose|t: int| 0 <= t < t1.push(c).len() && t1.push(c)[t] == a2;
                                if t < waiting@.len() {
                                    assert(waiting@.push(c).push(a)[t] == a2);
                                } else if t == waiting@.len() {
                                    assert(waiting@.push(c).push(a)[t + 1] == a2);
                                } else {
                                    assert(waiting@.push(c).push(a)[t - 1] == a2);
                                }
                            }
                        }
                    }
                    seen.set(c, true);
                    waiting.push(c);
                }
                j = j + 1;
            }
            k = k + 1;
        }
        proof {
            assert forall|a2: int, k2: int, j2: int|
                0 <= a2 < children@.len() && seen@[a2] && !waiting@.contains(a2 as usize) && 0 <= k2 < children@[a2]@.len()
                    && 0 <= j2 < children@[a2]@[k2]@.len() implies seen@[#[trigger] children@[a2]@[k2]@[j2] as int] by {
                if a2 == a {
                    assert(kids@[k2]@[j2] == children@[a2]@[k2]@[j2]);
                } else if waiting@.push(a).contains(a2 as usize) {
                    let t = choose|t: int| 0 <= t < waiting@.push(a).len() && waiting@.push(a)[t] == a2;
                    assert(waiting@[t] == a2);
                }
            }
        }
    }
    proof {
        let s = Set::new(|c: usize| c < n && seen@[c as int]);
        assert(closed_set(children@, s)) by {
            assert forall|x: usize, y: usize| s.contains(x) && x < children@.len() && has_child(children@, x as int, y) implies s.contains(y) by {
                let k = choose|k: int| 0 <= k < children@[x as int]@.len() && #[trigger] child_of(children@, x as int, k, y);
                let j = choose|j: int| 0 <= j < children@[x as int]@[k]@.len() && children@[x as int]@[k]@[j] == y;
                assert(seen@[children@[x as int]@[k]@[j] as int]);
            }
        }
        assert forall|c: int| 0 <= c < children@.len() implies (seen@[c] <==> reaches_class(children@, classes@, c as usize)) by {
            if reaches_class(children@, classes@, c as usize) {
                assert forall|i2: int| 0 <= i2 < classes@.len() implies s.contains(#[trigger] classes@[i2]) by {
                    assert(seen@[classes@[i2] as int]);
                }
                assert(s.contains(c as usize));
            }
        }
    }
    seen
}

/// The children classes of the first `k` e-nodes of a class with the
/// children classes `cl`, e-node by e-node.
pub open spec fn node_children_list(cl: Seq<Vec<usize>>, k: int) -> Seq<usize>
    decreases k,
{
    if k <= 0 {
        Seq::empty()
    } else {
        node_children_list(cl, k - 1) + cl[k - 1]@
    }
}

/// The children classes of the first `a` classes, class by class.
pub open spec fn children_list(children: Seq<Vec<Vec<usize>>>, a: int) -> Seq<usize>
    decreases a,
{
    if a <= 0 {
        Seq::empty()
    } else {
        children_list(children, a - 1) + node_children_list(children[a - 1]@, children[a - 1]@.len() as int)
    }
}

/// The members of `s`, each once, in the order of their first occurrence.
pub open spec fn first_occurrences(s: Seq<usize>) -> Seq<usize>
    decreases s.len(),
{
    if s.len() == 0 {
        Seq::empty()
    } else {
        let d = first_occurrences(s.drop_last());
        if d.contains(s.last()) {
            d
        } else {
            d.push(s.last())
        }
    }
}

/// Class `p` is the one class with an e-node with a child in class `c`.
pub open spec fn sole_parent(children: Seq<Vec<Vec<usize>>>, c: usize, p: usize) -> bool {
    &&& p < children.len()
    &&& has_child(children, p as int, c)
    &&& forall|a: int| 0 <= a < children.len() && #[trigger] has_child(children, a, c) ==> a == p
}

/// For each class of `keys` in turn that has a sole parent, the class and
/// its parent.
pub open spec fn sole_parent_pairs(children: Seq<Vec<Vec<usize>>>, keys: Seq<usize>) -> Seq<(usize, usize)>
    decreases keys.len(),
{
    if keys.len() == 0 {
        Seq::empty()
    } else {
        let rest = sole_parent_pairs(children, keys.drop_last());
        let c = keys.last();
        if exists|p: usize| #[trigger] sole_parent(children, c, p) {
            rest.push((c, choose|p: usize| #[trigger] sole_parent(children, c, p)))
        } else {
            rest
        }
    }
}

/// Whether `x` occurs in `v`.
fn contains_class(v: &Vec<usize>, x: usize) -> (r: bool)
    ensures
        r == v@.contains(x),
{
    let mut i: usize = 0;
    while i < v.len()
        invariant
            i <= v@.len(),
            forall|j: int| 0 <= j < i ==> v@[j] != x,
        decreases v@.len() - i,
    {
        if v[i] == x {
            return true;
        }
        i = i + 1;
    }
    false
}

/// Whether class `a` has an e-node with a child in class `c`.
fn class_has_child(children: &Vec<Vec<Vec<usize>>>, a: usize, c: usize) -> (r: bool)
    requires
        a < children@.len(),
    ensures
        r == has_child(children@, a as int, c),
{
    let kids = &children[a];
    let mut k: usize = 0;
    while k < kids.len()
        invariant
            a < children@.len(),
            kids == children@[a as int],
            k <= kids@.len(),
            forall|k2: int| 0 <= k2 < k ==> !#[trigger] child_of(children@, a as int, k2, c),
        decreases kids@.len() - k,
    {
        if contains_class(&kids[k], c) {
            proof {
                assert(child_of(children@, a as int, k as int, c));
            }
            return true;
        }
        k = k + 1;
    }
    false
}

/// The children classes of all classes, class by class and e-node by
/// e-node.
fn all_children(children: &Vec<Vec<Vec<usize>>>) -> (r: Vec<usize>)
    ensures
        r@ == children_list(children@, children@.len() as int),
{
    let mut r: Vec<usize> = Vec::new();
    let mut a: usize = 0;
    while a < children.len()
        invariant
            a <= children@.len(),
            r@ == children_list(children@, a as int),
        decreases children@.len() - a,
    {
        let kids = &children[a];
        let ghost r0 = r@;
        let mut k: usize = 0;
        while k < kids.len()
            invariant
                a < children@.len(),
                kids == children@[a as int],
                k <= kids@.len(),
                r@ == r0 + node_children_list(kids@, k as int),
            decreases kids@.len() - k,
        {
            let row = &kids[k];
            let ghost r1 = r@;
            let mut j: usize = 0;
            while j < row.len()
                invariant
                    row == kids@[k as int],
                    j <= row@.len(),
                    r@ == r1 + row@.subrange(0, j as int),
                decreases row@.len() - j,
            {
                r.push(row[j]);
                proof {
                    assert(row@.subrange(0, j + 1) =~= row@.subrange(0, j as int).push(row@[j as int]));
                    assert(r@ =~= r1 + row@.subrange(0, j + 1));
                }
                j = j + 1;
            }
            proof {
                assert(row@.subrange(0, j as int) =~= row@);
                assert(r@ =~= r0 + node_children_list(kids@, k + 1));
            }
            k = k + 1;
        }
        a = a + 1;
    }
    r
}

/// The classes with exactly one parent class, each with that parent, in
/// the order in which the classes first occur as children, class by class
/// and e-node by e-node.
pub fn classes_with_single_parent(children: &Vec<Vec<Vec<usize>>>) -> (r: Vec<(usize, usize)>)
    ensures
        r@ == sole_parent_pairs(children@, first_occurrences(children_list(children@, children@.len() as int))),
{
    let all = all_children(children);
    let mut keys: Vec<usize> = Vec::new();
    let mut i: usize = 0;
    while i < all.len()
        invariant
            i <= all@.len(),
            keys@ == first_occurrences(all@.subrange(0, i as int)),
        decreases all@.len() - i,
    {
        let x = all[i];
        proof {
            let s = all@.subrange(0, i + 1);
            assert(s.drop_last() =~= all@.subrange(0, i as int));
            assert(s.last() == x);
        }
        if !contains_class(&keys, x) {
            keys.push(x);
        }
        i = i + 1;
    }
    proof {
        assert(all@.subrange(0, all@.len() as int) =~= all@);
    }
    let n = children.len();
    let mut r: Vec<(usize, usize)> = Vec::new();
    let mut q: usize = 0;
    while q < keys.len()
        invariant
            n == children@.len(),
            q <= keys@.len(),
            r@ == sole_parent_pairs(children@, keys@.subrange(0, q as int)),
        decreases keys@.len() - q,
    {
        let c = keys[q];
        let mut first: Option<usize> = None;
        let mut multiple = false;
        let mut a: usize = 0;
        while a < n
            invariant
                n == children@.len(),
                a <= n,
                first is None <==> forall|a2: int| 0 <= a2 < a ==> !#[trigger] has_child(children@, a2, c),
                first matches Some(p) ==> p < a && has_child(children@, p as int, c) && forall|a2: int|
                    0 <= a2 < p ==> !#[trigger] has_child(children@, a2, c),
                multiple <==> exists|a1: int, a2: int|
                    0 <= a1 < a2 < a && #[trigger] has_child(children@, a1, c) && #[trigger] has_child(children@, a2, c),
            decreases n - a,
        {
            if class_has_child(children, a, c) {
                match first {
                    None => {
                        first = Some(a);
                    },
                    Some(p) => {
                        proof {
                            assert(has_child(children@, p as int, c) && has_child(children@, a as int, c));
                        }
                        multiple = true;
                    },
                }
            }
            proof {
                if !multiple {
                    assert forall|a1: int, a2: int|
                        0 <= a1 < a2 < a + 1 && #[trigger] has_child(children@, a1, c) implies !#[trigger] has_child(children@, a2, c) by {
                        if a2 < a {
                        }
                    }
                }
            }
            a = a + 1;
        }
        let ghost keys_q = keys@.subrange(0, q + 1);
        proof {
            assert(keys_q.drop_last() =~= keys@.subrange(0, q as int));
            assert(keys_q.last() == c);
        }
        match first {
            Some(p) => {
                if !multiple {
                    proof {
                        assert(sole_parent(children@, c, p)) by {
                            assert forall|a2: int| 0 <= a2 < children@.len() && #[trigger] has_child(children@, a2, c) implies a2 == p by {
                                if a2 < p {
                                } else if a2 > p {
                                    assert(has_child(children@, p as int, c));
                                }
                            }
                        }
                        let p2 = choose|p2: usize| #[trigger] sole_parent(children@, c, p2);
                        assert(p2 == p);
                    }
                    r.push((c, p));
                } else {
                    proof {
                        assert(!exists|p2: usize| #[trigger] sole_parent(children@, c, p2)) by {
                            let (a1, a2) = choose|a1: int, a2: int|
                                0 <= a1 < a2 < n && #[trigger] has_child(children@, a1, c) && #[trigger] has_child(children@, a2, c);
                            if exists|p2: usize| #[trigger] sole_parent(children@, c, p2) {
                                let p2 = choose|p2: usize| #[trigger] sole_parent(children@, c, p2);
                                assert(a1 == p2 && a2 == p2);
                            }
                        }
                    }
                }
            },
            None => {
                proof {
                    assert(!exists|p2: usize| #[trigger] sole_parent(children@, c, p2)) by {
                        if exists|p2: usize| #[trigger] sole_parent(children@, c, p2) {
                            let p2 = choose|p2: usize| #[trigger] sole_parent(children@, c, p2);
                            assert(has_child(children@, p2 as int, c));
                        }
                    }
                }
            },
        }
        q = q + 1;
    }
    proof {
        assert(keys@.subrange(0, keys@.len() as int) =~= keys@);
    }
    r
}

/// The `k`-th e-node of class `a` loops: one of its children is in its own
/// class, or in the root class when there is only one root.
pub open spec fn loops_back(children: Seq<Vec<Vec<usize>>>, roots: Seq<usize>, a: int, k: int) -> bool {
    exists|j: int|
        0 <= j < children[a]@[k]@.len() && (#[trigger] children[a]@[k]@[j] == a || (roots.len() == 1
            && roots[0] == children[a]@[k]@[j]))
}

/// The positions, in ascending order, of the first `k` e-nodes of class `a`
/// that loop.
pub open spec fn looping_list(children: Seq<Vec<Vec<usize>>>, roots: Seq<usize>, a: int, k: int) -> Seq<usize>
    decreases k,
{
    if k <= 0 {
        Seq::empty()
    } else {
        looping_list(children, roots, a, k - 1) + if loops_back(children, roots, a, k - 1) {
            seq![(k - 1) as usize]
        } else {
            Seq::empty()
        }
    }
}

/// Whether an e-node with the children classes `row`, of class `a`, loops.
fn row_loops_back(row: &Vec<usize>, a: usize, roots: &[usize]) -> (r: bool)
    ensures
        r == exists|j: int|
            0 <= j < row@.len() && (#[trigger] row@[j] == a || (roots@.len() == 1 && roots@[0] == row@[j])),
{
    let mut j: usize = 0;
    while j < row.len()
        invariant
            j <= row@.len(),
            forall|j2: int| 0 <= j2 < j ==> !(#[trigger] row@[j2] == a || (roots@.len() == 1 && roots@[0] == row@[j2])),
        decreases row@.len() - j,
    {
        let cid = row[j];
        if cid == a || (roots.len() == 1 && roots[0] == cid) {
            return true;
        }
        j = j + 1;
    }
    false
}

/// For each class, the positions of its e-nodes that loop, in ascending
/// order: those that the removal of looping e-nodes takes out.
pub fn looping_members(children: &Vec<Vec<Vec<usize>>>, roots: &[usize]) -> (r: Vec<Vec<usize>>)
    ensures
        r@.len() == children@.len(),
        forall|a: int|
            0 <= a < children@.len() ==> (#[trigger] r@[a])@ == looping_list(children@, roots@, a, children@[a]@.len() as int),
{
    let mut r: Vec<Vec<usize>> = Vec::new();
    let mut a: usize = 0;
    while a < children.len()
        invariant
            a <= children@.len(),
            r@.len() == a,
            forall|a2: int|
                0 <= a2 < a ==> (#[trigger] r@[a2])@ == looping_list(children@, roots@, a2, children@[a2]@.len() as int),
        decreases children@.len() - a,
    {
        let kids = &children[a];
        let mut list: Vec<usize> = Vec::new();
        let mut k: usize = 0;
        while k < kids.len()
            invariant
                a < children@.len(),
                kids == children@[a as int],
                k <= kids@.len(),
                list@ == looping_list(children@, roots@, a as int, k as int),
            decreases kids@.len() - k,
        {
            let looped = row_loops_back(&kids[k], a, roots);
            proof {
                assert(looped == loops_back(children@, roots@, a as int, k as int));
            }
            if looped {
                list.push(k);
            }
            proof {
                assert(list@ =~= looping_list(children@, roots@, a as int, k + 1));
            }
            k = k + 1;
        }
        let ghost before = r@;
        r.push(list);
        proof {
            assert forall|a2: int|
                0 <= a2 < a + 1 implies (#[trigger] r@[a2])@ == looping_list(children@, roots@, a2, children@[a2]@.len() as int) by {
                if a2 < a {
                    assert(r@[a2] == before[a2]);
                }
            }
        }
        a = a + 1;
    }
    r
}

/// The most cycles the search for cycles in a solution looks for before it
/// stops entering new classes.
pub const CYCLE_LIMIT: usize = 1000;

/// Class `b` is a child class of the e-node chosen for class `a`:
/// `chosen[a]` lists those classes where `a` has a chosen e-node.
pub open spec fn chosen_edge(chosen: Seq<Option<Vec<usize>>>, a: usize, b: usize) -> bool {
    &&& a < chosen.len()
    &&& chosen[a as int] is Some
    &&& chosen[a as int]->0@.contains(b)
}

/// Every class that the chosen e-node of a class in `s` has a child in is
/// in `s`.
pub open spec fn closed_under_choice(chosen: Seq<Option<Vec<usize>>>, s: Set<usize>) -> bool {
    forall|a: usize, b: usize|
        #![trigger s.contains(a), chosen_edge(chosen, a, b)]
        s.contains(a) && chosen_edge(chosen, a, b) ==> s.contains(b)
}

/// The solution for `roots` needs class `c`: it lies in every set that holds
/// the roots and is closed under the chosen e-nodes' children.
pub open spec fn needed(chosen: Seq<Option<Vec<usize>>>, roots: Seq<usize>, c: usize) -> bool {
    forall|s: Set<usize>|
        #![trigger closed_under_choice(chosen, s), s.contains(c)]
        closed_under_choice(chosen, s) && (forall|i: int| 0 <= i < roots.len() ==> s.contains(#[trigger] roots[i]))
            ==> s.contains(c)
}

/// Every class that the solution for `roots` needs has a chosen e-node.
pub open spec fn needed_all_chosen(chosen: Seq<Option<Vec<usize>>>, roots: Seq<usize>) -> bool {
    forall|c: usize| #[trigger] needed(chosen, roots, c) ==> c < chosen.len() && chosen[c as int] is Some
}

/// `rank` goes down along each edge of the chosen e-nodes that the
/// solution for `roots` needs.
pub open spec fn ranked(chosen: Seq<Option<Vec<usize>>>, roots: Seq<usize>, rank: spec_fn(usize) -> nat) -> bool {
    forall|a: usize, b: usize| #[trigger] chosen_edge(chosen, a, b) && needed(chosen, roots, a) ==> rank(b) < rank(a)
}

/// The chosen e-nodes that the solution for `roots` needs form no cycle:
/// some ranking of the classes goes down along each of their edges.
pub open spec fn choice_acyclic(chosen: Seq<Option<Vec<usize>>>, roots: Seq<usize>) -> bool {
    exists|rank: spec_fn(usize) -> nat| ranked(chosen, roots, rank)
}

/// `c` is a cycle of chosen e-nodes: distinct classes, each with a chosen
/// e-node with a child in the next, and the last in the first.
pub open spec fn is_choice_cycle(chosen: Seq<Option<Vec<usize>>>, c: Seq<usize>) -> bool {
    &&& c.len() > 0
    &&& c.no_duplicates()
    &&& forall|i: int| 0 <= i < c.len() - 1 ==> #[trigger] chosen_edge(chosen, c[i], c[i + 1])
    &&& chosen_edge(chosen, c.last(), c[0])
}

/// Every chosen e-node's child classes are classes.
pub open spec fn choices_in_range(chosen: Seq<Option<Vec<usize>>>) -> bool {
    forall|a: int, j: int|
        0 <= a < chosen.len() && chosen[a] is Some && 0 <= j < chosen[a]->0@.len() ==> #[trigger] chosen[a]->0@[j]
            < chosen.len()
}

/// Consecutive classes on `stack` are joined by chosen e-nodes.
pub open spec fn stack_linked(chosen: Seq<Option<Vec<usize>>>, stack: Seq<usize>, i: int) -> bool {
    chosen_edge(chosen, stack[i], stack[i + 1])
}

/// What the search keeps true: the classes being searched from form a path
/// of chosen e-nodes and are exactly those marked `Doing`; the finished
/// classes are exactly those in `order`, each after the classes its chosen
/// e-node points to unless a cycle was found; every marked class is needed
/// and has a chosen e-node; a cycle was found only if there is one; and
/// each cycle found is one.
spec fn search_inv(
    chosen: Seq<Option<Vec<usize>>>,
    roots: Seq<usize>,
    status: Seq<Option<Status>>,
    cycles: Seq<Vec<usize>>,
    stack: Seq<usize>,
    order: Seq<usize>,
) -> bool {
    &&& status.len() == chosen.len()
    &&& stack.no_duplicates()
    &&& forall|i: int|
        0 <= i < stack.len() ==> (#[trigger] stack[i]) < status.len() && status[stack[i] as int] == Some(
            Status::Doing,
        )
    &&& forall|c: usize| c < status.len() && #[trigger] status[c as int] == Some(Status::Doing) ==> stack.contains(c)
    &&& forall|i: int| 0 <= i < stack.len() - 1 ==> #[trigger] stack_linked(chosen, stack, i)
    &&& order.no_duplicates()
    &&& forall|i: int|
        0 <= i < order.len() ==> (#[trigger] order[i]) < status.len() && status[order[i] as int] == Some(
            Status::Done,
        )
    &&& forall|c: usize| c < status.len() && #[trigger] status[c as int] == Some(Status::Done) ==> order.contains(c)
    &&& forall|c: usize|
        c < status.len() && (#[trigger] status[c as int]) is Some ==> needed(chosen, roots, c) && chosen[c as int] is Some
    &&& cycles.len() == 0 ==> forall|i: int, b: usize|
        0 <= i < order.len() && #[trigger] chosen_edge(chosen, order[i], b) ==> exists|j: int|
            0 <= j < i && #[trigger] order[j] == b
    &&& cycles.len() > 0 ==> !choice_acyclic(chosen, roots)
    &&& forall|k: int| 0 <= k < cycles.len() ==> is_choice_cycle(chosen, (#[trigger] cycles[k])@)
}

/// Along a path of needed classes, a ranking goes down at each step.
proof fn lemma_rank_chain(
    chosen: Seq<Option<Vec<usize>>>,
    roots: Seq<usize>,
    stack: Seq<usize>,
    rank: spec_fn(usize) -> nat,
    i: int,
    j: int,
)
    requires
        0 <= i < j < stack.len(),
        forall|k: int| 0 <= k < stack.len() - 1 ==> #[trigger] stack_linked(chosen, stack, k),
        forall|k: int| 0 <= k < stack.len() ==> needed(chosen, roots, #[trigger] stack[k]),
        ranked(chosen, roots, rank),
    ensures
        rank(stack[j]) < rank(stack[i]),
    decreases j - i,
{
    assert(stack_linked(chosen, stack, j - 1));
    assert(needed(chosen, roots, stack[j - 1]));
    assert(chosen_edge(chosen, stack[j - 1], stack[j]));
    if j - 1 > i {
        lemma_rank_chain(chosen, roots, stack, rank, i, j - 1);
    }
}

/// A path of needed classes whose last class points back to one on it
/// leaves no ranking.
proof fn lemma_back_edge(chosen: Seq<Option<Vec<usize>>>, roots: Seq<usize>, stack: Seq<usize>, i: int)
    requires
        0 <= i < stack.len(),
        forall|k: int| 0 <= k < stack.len() - 1 ==> #[trigger] stack_linked(chosen, stack, k),
        forall|k: int| 0 <= k < stack.len() ==> needed(chosen, roots, #[trigger] stack[k]),
        chosen_edge(chosen, stack[stack.len() - 1], stack[i]),
    ensures
        !choice_acyclic(chosen, roots),
{
    if choice_acyclic(chosen, roots) {
        let rank = choose|rank: spec_fn(usize) -> nat| ranked(chosen, roots, rank);
        let last = stack.len() - 1;
        assert(needed(chosen, roots, stack[last]));
        assert(rank(stack[i]) < rank(stack[last]));
        if i < last {
            lemma_rank_chain(chosen, roots, stack, rank, i, last);
        }
    }
}

/// A class that a needed class's chosen e-node points to is needed.
proof fn lemma_needed_child(chosen: Seq<Option<Vec<usize>>>, roots: Seq<usize>, a: usize, b: usize)
    requires
        needed(chosen, roots, a),
        chosen_edge(chosen, a, b),
    ensures
        needed(chosen, roots, b),
{
    assert forall|s: Set<usize>|
        closed_under_choice(chosen, s) && (forall|i: int| 0 <= i < roots.len() ==> s.contains(#[trigger] roots[i]))
            implies s.contains(b) by {
        assert(s.contains(a));
    }
}

/// The position of `x` on `stack`.
fn position_of(stack: &Vec<usize>, x: usize) -> (r: Option<usize>)
    ensures
        r matches Some(i) ==> i < stack@.len() && stack@[i as int] == x,
        r is None ==> !stack@.contains(x),
{
    let mut i: usize = 0;
    while i < stack.len()
        invariant
            i <= stack@.len(),
            forall|j: int| 0 <= j < i ==> stack@[j] != x,
        decreases stack@.len() - i,
    {
        if stack[i] == x {
            return Some(i);
        }
        i = i + 1;
    }
    None
}

/// The entries of `v` from position `from` on.
fn tail_from(v: &Vec<usize>, from: usize) -> (r: Vec<usize>)
    requires
        from <= v@.len(),
    ensures
        r@ == v@.subrange(from as int, v@.len() as int),
{
    let mut r: Vec<usize> = Vec::new();
    let mut i: usize = from;
    while i < v.len()
        invariant
            from <= i <= v@.len(),
            r@ == v@.subrange(from as int, i as int),
        decreases v@.len() - i,
    {
        r.push(v[i]);
        proof {
            assert(v@.subrange(from as int, i + 1) =~= v@.subrange(from as int, i as int).push(v@[i as int]));
        }
        i = i + 1;
    }
    r
}

/// The depth-first search for cycles from class `class_id` along the
/// chosen e-nodes: a class met again while it is still being searched from
/// closes a cycle, the part of the stack from that class on, which is
/// recorded; once more than `CYCLE_LIMIT` cycles are recorded no new class is
/// entered. Returns whether every class entered had a chosen e-node, and
/// the finished classes in the order they finished.
#[verifier::spinoff_prover]
#[verifier::rlimit(40)]
fn cycle_dfs(
    chosen: &Vec<Option<Vec<usize>>>,
    class_id: usize,
    status: &mut Vec<Option<Status>>,
    cycles: &mut Vec<Vec<usize>>,
    stack: &mut Vec<usize>,
    Ghost(roots): Ghost<Seq<usize>>,
    Ghost(order): Ghost<Seq<usize>>,
) -> (r: (bool, Ghost<Seq<usize>>))
    requires
        choices_in_range(chosen@),
        class_id < chosen@.len(),
        needed(chosen@, roots, class_id),
        search_inv(chosen@, roots, old(status)@, old(cycles)@, old(stack)@, order),
        old(stack)@.len() > 0 ==> chosen_edge(chosen@, old(stack)@.last(), class_id),
    ensures
        r.0 ==> final(stack)@ == old(stack)@,
        !r.0 ==> !needed_all_chosen(chosen@, roots),
        r.0 ==> search_inv(chosen@, roots, final(status)@, final(cycles)@, old(stack)@, r.1@),
        r.0 ==> order.len() <= r.1@.len() && forall|i: int| 0 <= i < order.len() ==> r.1@[i] == order[i],
        r.0 ==> final(status)@.len() == old(status)@.len(),
        r.0 ==> forall|i: int| 0 <= i < old(status)@.len() && old(status)@[i] is Some ==> final(status)@[i] is Some,
        r.0 ==> old(cycles)@.len() <= final(cycles)@.len(),
        r.0 && final(cycles)@.len() == 0 ==> final(status)@[class_id as int] == Some(Status::Done),
    decreases count_unvisited(old(status)@),
{
    match status[class_id] {
        Some(Status::Done) => (true, Ghost(order)),
        Some(Status::Doing) => {
            let pos = position_of(stack, class_id);
            proof {
                assert(stack@.contains(class_id));
            }
            let p = pos.unwrap();
            let cycle = tail_from(stack, p);
            proof {
                let st = stack@;
                assert forall|k: int| 0 <= k < st.len() implies needed(chosen@, roots, #[trigger] st[k]) by {
                    assert(status@[st[k] as int] is Some);
                }
                lemma_back_edge(chosen@, roots, st, p as int);
                let c = cycle@;
                assert(c.len() > 0);
                assert forall|i: int, j: int| 0 <= i < c.len() && 0 <= j < c.len() && i != j implies c[i] != c[j] by {
                    assert(c[i] == st[p + i] && c[j] == st[p + j]);
                }
                assert forall|i: int| 0 <= i < c.len() - 1 implies #[trigger] chosen_edge(chosen@, c[i], c[i + 1]) by {
                    assert(stack_linked(chosen@, st, p + i));
                    assert(c[i] == st[p + i] && c[i + 1] == st[p + i + 1]);
                }
                assert(c.last() == st.last());
                assert(c[0] == class_id);
            }
            let ghost before = cycles@;
            cycles.push(cycle);
            proof {
                assert forall|k: int| 0 <= k < cycles@.len() implies is_choice_cycle(chosen@, (#[trigger] cycles@[k])@) by {
                    if k < before.len() {
                        assert(cycles@[k] == before[k]);
                    }
                }
            }
            (true, Ghost(order))
        },
        None => {
            if cycles.len() > CYCLE_LIMIT {
                return (true, Ghost(order));
            }
            let kids = match &chosen[class_id] {
                Some(k) => k,
                None => {
                    return (false, Ghost(order));
                },
            };
            let ghost status0 = status@;
            let ghost stack0 = stack@;
            status.set(class_id, Some(Status::Doing));
            stack.push(class_id);
            let ghost stack1 = stack@;
            proof {
                lemma_count_unvisited(status0, status@, class_id as int);
                assert(!stack0.contains(class_id));
                assert(!order.contains(class_id)) by {
                    if order.contains(class_id) {
                        let i = choose|i: int| 0 <= i < order.len() && order[i] == class_id;
                    }
                }
                assert forall|i: int, j: int| 0 <= i < stack1.len() && 0 <= j < stack1.len() && i != j implies stack1[i] != stack1[j] by {
                    if i == stack0.len() {
                        assert(stack0.contains(stack1[j]));
                    } else if j == stack0.len() {
                        assert(stack0.contains(stack1[i]));
                    }
                }
                assert forall|i: int| 0 <= i < stack1.len() - 1 implies #[trigger] stack_linked(chosen@, stack1, i) by {
                    if i < stack0.len() - 1 {
                        assert(stack_linked(chosen@, stack0, i));
                    }
                }
                assert forall|c: usize|
                    c < status@.len() && #[trigger] status@[c as int] == Some(Status::Doing) implies stack1.contains(c) by {
                    if c == class_id {
                        assert(stack1[stack0.len() as int] == c);
                    } else {
                        assert(status0[c as int] == Some(Status::Doing));
                        let i = choose|i: int| 0 <= i < stack0.len() && stack0[i] == c;
                        assert(stack1[i] == c);
                    }
                }
                assert forall|c: usize|
                    c < status@.len() && #[trigger] status@[c as int] == Some(Status::Done) implies order.contains(c) by {
                    assert(status0[c as int] == Some(Status::Done));
                }
                assert forall|c: usize|
                    c < status@.len() && (#[trigger] status@[c as int]) is Some implies needed(chosen@, roots, c)
                        && chosen@[c as int] is Some by {
                    if c != class_id {
                        assert(status0[c as int] is Some);
                    }
                }
                assert forall|i: int| 0 <= i < order.len() implies (#[trigger] order[i]) < status@.len() && status@[order[i] as int] == Some(Status::Done) by {
                    assert(order[i] != class_id);
                }
                assert forall|i: int| 0 <= i < stack1.len() implies (#[trigger] stack1[i]) < status@.len() && status@[stack1[i] as int] == Some(Status::Doing) by {
                    if i < stack0.len() {
                        assert(stack1[i] == stack0[i]);
                        assert(stack0[i] != class_id);
                    }
                }
            }
            let ghost mut ord = order;
            let mut j: usize = 0;
            while j < kids.len()
                invariant
                    choices_in_range(chosen@),
                    class_id < chosen@.len(),
                    needed(chosen@, roots, class_id),
                    chosen@[class_id as int] == Some(*kids),
                    j <= kids@.len(),
                    stack@ == stack1,
                    stack1 == stack0.push(class_id),
                    search_inv(chosen@, roots, status@, cycles@, stack1, ord),
                    status@.len() == status0.len(),
                    status@[class_id as int] == Some(Status::Doing),
                    count_unvisited(status@) < count_unvisited(status0),
                    forall|i: int| 0 <= i < status0.len() && status0[i] is Some ==> status@[i] is Some,
                    order.len() <= ord.len(),
                    forall|i: int| 0 <= i < order.len() ==> ord[i] == order[i],
                    old(cycles)@.len() <= cycles@.len(),
                    status0 == old(status)@,
                    stack0 == old(stack)@,
                    cycles@.len() == 0 ==> forall|j2: int| 0 <= j2 < j ==> #[trigger] ord.contains(kids@[j2]),
                decreases kids@.len() - j,
            {
                let child = kids[j];
                proof {
                    assert(chosen_edge(chosen@, class_id, child));
                    lemma_needed_child(chosen@, roots, class_id, child);
                    assert(stack1.last() == class_id);
                }
                let ghost status_before = status@;
                let ghost ord_before = ord;
                let (ok, out) = cycle_dfs(chosen, child, status, cycles, stack, Ghost(roots), Ghost(ord));
                if !ok {
                    return (false, Ghost(order));
                }
                proof {
                    ord = out@;
                    lemma_count_unvisited(status_before, status@, -1);
                    assert forall|j2: int| cycles@.len() == 0 && 0 <= j2 < j + 1 implies #[trigger] ord.contains(kids@[j2]) by {
                        if j2 < j {
                            let c2 = kids@[j2];
                            assert(ord_before.contains(c2));
                            let k = choose|k: int| 0 <= k < ord_before.len() && ord_before[k] == c2;
                            assert(ord[k] == c2);
                        } else {
                            assert(status@[child as int] == Some(Status::Done));
                            assert(ord.contains(child));
                        }
                    }
                }
                j = j + 1;
            }
            let ghost status2 = status@;
            stack.pop();
            status.set(class_id, Some(Status::Done));
            let ghost out = ord.push(class_id);
            proof {
                assert(stack@ =~= stack0);
                assert(!ord.contains(class_id)) by {
                    if ord.contains(class_id) {
                        let i = choose|i: int| 0 <= i < ord.len() && ord[i] == class_id;
                        assert(status2[class_id as int] == Some(Status::Done));
                    }
                }
                assert forall|i: int, k: int| 0 <= i < out.len() && 0 <= k < out.len() && i != k implies out[i] != out[k] by {
                    if i == ord.len() {
                        assert(ord.contains(out[k]));
                    } else if k == ord.len() {
                        assert(ord.contains(out[i]));
                    }
                }
                assert forall|i: int| 0 <= i < stack0.len() implies (#[trigger] stack0[i]) < status@.len() && status@[stack0[i] as int] == Some(Status::Doing) by {
                    assert(stack1[i] == stack0[i]);
                    assert(stack0[i] != class_id) by {
                        assert(stack1[stack0.len() as int] == class_id);
                    }
                }
                assert forall|c: usize|
                    c < status@.len() && #[trigger] status@[c as int] == Some(Status::Doing) implies stack0.contains(c) by {
                    assert(status2[c as int] == Some(Status::Doing));
                    assert(stack1.contains(c));
                    let i = choose|i: int| 0 <= i < stack1.len() && stack1[i] == c;
                    assert(i != stack0.len());
                    assert(stack0[i] == c);
                }
                assert forall|i: int| 0 <= i < stack0.len() - 1 implies #[trigger] stack_linked(chosen@, stack0, i) by {
                    assert(stack_linked(chosen@, stack1, i));
                    assert(stack1[i] == stack0[i] && stack1[i + 1] == stack0[i + 1]);
                }
                assert forall|i: int| 0 <= i < out.len() implies (#[trigger] out[i]) < status@.len() && status@[out[i] as int] == Some(Status::Done) by {
                    if i < ord.len() {
                        assert(out[i] == ord[i]);
                    }
                }
                assert forall|c: usize|
                    c < status@.len() && #[trigger] status@[c as int] == Some(Status::Done) implies out.contains(c) by {
                    if c == class_id {
                        assert(out[ord.len() as int] == c);
                    } else {
                        assert(status2[c as int] == Some(Status::Done));
                        let i = choose|i: int| 0 <= i < ord.len() && ord[i] == c;
                        assert(out[i] == c);
                    }
                }
                assert forall|c: usize|
                    c < status@.len() && (#[trigger] status@[c as int]) is Some implies needed(chosen@, roots, c)
                        && chosen@[c as int] is Some by {
                    if c != class_id {
                        assert(status2[c as int] is Some);
                    }
                }
                if cycles@.len() == 0 {
                    assert forall|i: int, b: usize|
                        0 <= i < out.len() && #[trigger] chosen_edge(chosen@, out[i], b) implies exists|k: int|
                            0 <= k < i && #[trigger] out[k] == b by {
                        if i < ord.len() {
                            assert(out[i] == ord[i]);
                            let k = choose|k: int| 0 <= k < i && #[trigger] ord[k] == b;
                            assert(out[k] == b);
                        } else {
                            assert(out[i] == class_id);
                            let j2 = choose|j2: int| 0 <= j2 < kids@.len() && kids@[j2] == b;
                            assert(ord.contains(kids@[j2]));
                            let k = choose|k: int| 0 <= k < ord.len() && ord[k] == b;
                            assert(out[k] == b);
                        }
                    }
                }
                lemma_count_unvisited(status0, status@, -1);
            }
            (true, Ghost(out))
        },
    }
}

/// The cycles of chosen e-nodes that the search from each of `roots` in
/// turn finds (see `cycle_dfs`): `chosen[c]` lists the child classes of the
/// e-node chosen for class `c`, where one is. `None` where the search enters
/// a class with no chosen e-node. Every cycle returned is a cycle of chosen
/// e-nodes, and none is returned exactly when the solution for the roots has
/// every class it needs chosen and no cycle.
pub fn find_cycles_in_result(chosen: &Vec<Option<Vec<usize>>>, roots: &[usize]) -> (r: Option<Vec<Vec<usize>>>)
    requires
        choices_in_range(chosen@),
        forall|i: int| 0 <= i < roots@.len() ==> #[trigger] roots@[i] < chosen@.len(),
    ensures
        r is None ==> !needed_all_chosen(chosen@, roots@),
        needed_all_chosen(chosen@, roots@) ==> r is Some,
        r matches Some(cs) ==> forall|k: int| 0 <= k < cs@.len() ==> is_choice_cycle(chosen@, (#[trigger] cs@[k])@),
        r matches Some(cs) ==> (cs@.len() == 0 <==> needed_all_chosen(chosen@, roots@) && choice_acyclic(
            chosen@,
            roots@,
        )),
{
    let n = chosen.len();
    let mut status: Vec<Option<Status>> = Vec::new();
    while status.len() < n
        invariant
            status@.len() <= n,
            forall|i: int| 0 <= i < status@.len() ==> status@[i] is None,
        decreases n - status@.len(),
    {
        status.push(None);
    }
    let mut cycles: Vec<Vec<usize>> = Vec::new();
    let ghost mut order: Seq<usize> = Seq::empty();
    proof {
        assert(search_inv(chosen@, roots@, status@, cycles@, Seq::empty(), order)) by {
            assert forall|c: usize| c < status@.len() && #[trigger] status@[c as int] == Some(Status::Doing) implies Seq::<
                usize,
            >::empty().contains(c) by {
                assert(status@[c as int] is None);
            }
            assert forall|c: usize| c < status@.len() && #[trigger] status@[c as int] == Some(Status::Done) implies order.contains(c) by {
                assert(status@[c as int] is None);
            }
            assert forall|c: usize|
                c < status@.len() && (#[trigger] status@[c as int]) is Some implies needed(chosen@, roots@, c)
                    && chosen@[c as int] is Some by {
                assert(status@[c as int] is None);
            }
        }
    }
    let mut i: usize = 0;
    while i < roots.len()
        invariant
            choices_in_range(chosen@),
            forall|k: int| 0 <= k < roots@.len() ==> #[trigger] roots@[k] < chosen@.len(),
            i <= roots@.len(),
            search_inv(chosen@, roots@, status@, cycles@, Seq::empty(), order),
            cycles@.len() == 0 ==> forall|k: int| 0 <= k < i ==> (#[trigger] status@[roots@[k] as int]) is Some,
        decreases roots@.len() - i,
    {
        proof {
            let root = roots@[i as int];
            assert forall|s: Set<usize>|
                closed_under_choice(chosen@, s) && (forall|k: int| 0 <= k < roots@.len() ==> s.contains(#[trigger] roots@[k]))
                    implies s.contains(root) by {
                assert(s.contains(roots@[i as int]));
            }
        }
        let mut stack: Vec<usize> = Vec::new();
        let ghost before = status@;
        let (ok, out) = cycle_dfs(chosen, roots[i], &mut status, &mut cycles, &mut stack, Ghost(roots@), Ghost(order));
        if !ok {
            return None;
        }
        proof {
            order = out@;
            assert(stack@ =~= Seq::<usize>::empty());
            if cycles@.len() == 0 {
                assert forall|k: int| 0 <= k < i + 1 implies (#[trigger] status@[roots@[k] as int]) is Some by {
                    if k < i {
                        assert(before[roots@[k] as int] is Some);
                    }
                }
            }
        }
        i = i + 1;
    }
    proof {
        if cycles@.len() == 0 {
            let vis = Set::new(|c: usize| c < status@.len() && status@[c as int] is Some);
            assert(closed_under_choice(chosen@, vis)) by {
                assert forall|a: usize, b: usize|
                    #![trigger vis.contains(a), chosen_edge(chosen@, a, b)]
                    vis.contains(a) && chosen_edge(chosen@, a, b) implies vis.contains(b) by {
                    if status@[a as int] == Some(Status::Doing) {
                        assert(Seq::<usize>::empty().contains(a));
                    }
                    assert(status@[a as int] == Some(Status::Done));
                    assert(order.contains(a));
                    let ia = choose|ia: int| 0 <= ia < order.len() && order[ia] == a;
                    assert(chosen_edge(chosen@, order[ia], b));
                    let kb = choose|kb: int| 0 <= kb < ia && #[trigger] order[kb] == b;
                    assert(status@[order[kb] as int] == Some(Status::Done));
                }
            }
            assert forall|k: int| 0 <= k < roots@.len() implies vis.contains(#[trigger] roots@[k]) by {
                assert(status@[roots@[k] as int] is Some);
            }
            assert forall|c: usize| #[trigger] needed(chosen@, roots@, c) implies c < chosen@.len() && chosen@[c as int] is Some by {
                assert(vis.contains(c));
            }
            let rank = |c: usize| (choose|p: int| 0 <= p < order.len() && order[p] == c) as nat;
            assert(ranked(chosen@, roots@, rank)) by {
                assert forall|a: usize, b: usize| #[trigger]
                    chosen_edge(chosen@, a, b) && needed(chosen@, roots@, a) implies rank(b) < rank(a) by {
                    assert(vis.contains(a));
                    if status@[a as int] == Some(Status::Doing) {
                        assert(Seq::<usize>::empty().contains(a));
                    }
                    assert(status@[a as int] == Some(Status::Done));
                    assert(order.contains(a));
                    let ia = choose|p: int| 0 <= p < order.len() && order[p] == a;
                    assert(chosen_edge(chosen@, order[ia], b));
                    let kb = choose|kb: int| 0 <= kb < ia && #[trigger] order[kb] == b;
                    let pb = choose|p: int| 0 <= p < order.len() && order[p] == b;
                    assert(pb == kb);
                    assert(rank(a) == ia);
                    assert(rank(b) == pb);
                }
            }
        }
    }
    Some(cycles)
}


/// The list of looping positions for the first `k` e-nodes of class `a`
/// holds exactly the positions below `k` whose e-node has a child in class
/// `a` itself, or in the only root, and lists them in ascending order.
proof fn lemma_looping_list_members(children: Seq<Vec<Vec<usize>>>, roots: Seq<usize>, a: int, k: int)
    requires
        0 <= k <= usize::MAX,
    ensures
        forall|x: usize| #[trigger] looping_list(children, roots, a, k).contains(x) <==> (x < k && exists|j: int|
            0 <= j < children[a]@[x as int]@.len() && (children[a]@[x as int]@[j] == a || (roots.len() == 1
                && roots[0] == children[a]@[x as int]@[j]))),
        forall|p: int, q: int|
            0 <= p < q < looping_list(children, roots, a, k).len() ==> looping_list(children, roots, a, k)[p]
                < looping_list(children, roots, a, k)[q],
        forall|p: int| 0 <= p < looping_list(children, roots, a, k).len() ==> looping_list(children, roots, a, k)[p] < k,
    decreases k,
{
    if k > 0 {
        lemma_looping_list_members(children, roots, a, k - 1);
        let front = looping_list(children, roots, a, k - 1);
        let l = looping_list(children, roots, a, k);
        let x0 = (k - 1) as usize;
        if loops_back(children, roots, a, k - 1) {
            assert(l == front.push(x0));
        } else {
            assert(l == front);
        }
        assert forall|x: usize| #[trigger] l.contains(x) <==> (x < k && exists|j: int|
            0 <= j < children[a]@[x as int]@.len() && (children[a]@[x as int]@[j] == a || (roots.len() == 1
                && roots[0] == children[a]@[x as int]@[j]))) by {
            if l.contains(x) && x != x0 {
                let i = choose|i: int| 0 <= i < l.len() && l[i] == x;
                assert(front[i] == x);
                assert(front.contains(x));
            }
            if front.contains(x) {
                let i = choose|i: int| 0 <= i < front.len() && front[i] == x;
                assert(l[i] == x);
            }
            if x == x0 && loops_back(children, roots, a, k - 1) {
                assert(l[l.len() - 1] == x);
            }
            if x == x0 && l.contains(x) && !loops_back(children, roots, a, k - 1) {
                let i = choose|i: int| 0 <= i < front.len() && front[i] == x;
                assert(front[i] < k - 1);
            }
            if x == x0 && (exists|j: int|
                0 <= j < children[a]@[x as int]@.len() && (children[a]@[x as int]@[j] == a || (roots.len() == 1
                    && roots[0] == children[a]@[x as int]@[j]))) {
                let j = choose|j: int|
                    0 <= j < children[a]@[x as int]@.len() && (children[a]@[x as int]@[j] == a || (roots.len() == 1
                        && roots[0] == children[a]@[x as int]@[j]));
                assert(loops_back(children, roots, a, k - 1));
            }
            if x < k - 1 && (exists|j: int|
                0 <= j < children[a]@[x as int]@.len() && (children[a]@[x as int]@[j] == a || (roots.len() == 1
                    && roots[0] == children[a]@[x as int]@[j]))) {
                assert(front.contains(x));
            }
        }
    }
}

/// `looping_members` lists, for each class `a`, exactly the positions `k`
/// of its e-nodes with a child (at any position) in class `a` itself or in
/// the only root, each once and in ascending order.
pub proof fn law_looping_members_are_the_nodes_that_loop(children: Seq<Vec<Vec<usize>>>, roots: Seq<usize>, a: int)
    requires
        0 <= a < children.len(),
    ensures
        forall|k: usize| #[trigger] looping_list(children, roots, a, children[a]@.len() as int).contains(k) <==> (k
            < children[a]@.len() && exists|j: int|
            0 <= j < children[a]@[k as int]@.len() && (children[a]@[k as int]@[j] == a || (roots.len() == 1
                && roots[0] == children[a]@[k as int]@[j]))),
        forall|p: int, q: int|
            0 <= p < q < looping_list(children, roots, a, children[a]@.len() as int).len() ==> looping_list(
                children,
                roots,
                a,
                children[a]@.len() as int,
            )[p] < looping_list(children, roots, a, children[a]@.len() as int)[q],
{
    assert(children[a]@.len() == children[a].len());
    lemma_looping_list_members(children, roots, a, children[a]@.len() as int);
}

} // verus!
