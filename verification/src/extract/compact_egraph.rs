//! A compact layout of an e-graph for fast extraction: the e-nodes in class
//! order, each with its child classes sorted and without repeats, and each
//! class with the e-nodes that have it as a child class. Indices must fit in
//! an integer type whose largest value the caller gives.
use vstd::prelude::*;
use crate::extract::indexed_egraph::IndexedEGraph;
use crate::extract::maxsat::problem::{class_offset, lemma_offset_grows, total_nodes};

verus! {

/// The number of children of the e-nodes before `n`.
pub open spec fn children_total(g: &IndexedEGraph, n: int) -> nat
    decreases n,
{
    if n <= 0 {
        0
    } else {
        children_total(g, n - 1) + g.node_children@[n - 1]@.len()
    }
}

/// Segment `p` of `items`, as `starts` marks them.
pub open spec fn segment(items: Seq<usize>, starts: Seq<usize>, p: int) -> Seq<usize> {
    items.subrange(starts[p] as int, starts[p + 1] as int)
}

/// `s` is strictly increasing.
pub open spec fn increasing(s: Seq<usize>) -> bool {
    forall|i: int, j: int| 0 <= i < j < s.len() ==> s[i] < s[j]
}

/// The e-graph laid out compactly. E-node position `p` stands for e-node
/// `node_ids[p]`; class `c` holds positions `nodes_start[c]..nodes_start[c + 1]`;
/// position `p` has child classes `children[children_start[p]..children_start[p + 1]]`;
/// class `c` is a child class of the positions
/// `parents[parents_start[c]..parents_start[c + 1]]`.
pub struct CompactEGraph {
    pub node_ids: Vec<usize>,
    pub nodes_start: Vec<usize>,
    pub children_start: Vec<usize>,
    pub children: Vec<usize>,
    pub parents_start: Vec<usize>,
    pub parents: Vec<usize>,
}

impl CompactEGraph {
    /// The child classes of position `p`.
    pub open spec fn kids(&self, p: int) -> Seq<usize> {
        segment(self.children@, self.children_start@, p)
    }

    /// The positions that have class `c` as a child class.
    pub open spec fn parents_of(&self, c: int) -> Seq<usize> {
        segment(self.parents@, self.parents_start@, c)
    }

    /// The layout of `g`.
    pub open spec fn lays_out(&self, g: &IndexedEGraph) -> bool {
        &&& self.node_ids@.len() == total_nodes(g)
        &&& self.nodes_start@.len() == g.class_nodes@.len() + 1
        &&& forall|c: int| 0 <= c <= g.class_nodes@.len() ==> #[trigger] self.nodes_start@[c] == class_offset(g, c)
        &&& forall|c: int, k: int|
            0 <= c < g.class_nodes@.len() && 0 <= k < g.class_nodes@[c]@.len() ==> self.node_ids@[class_offset(g, c) + k]
                == #[trigger] g.class_nodes@[c]@[k]
        &&& self.children_start@.len() == self.node_ids@.len() + 1
        &&& forall|p: int, q: int|
            0 <= p <= q <= self.node_ids@.len() ==> #[trigger] self.children_start@[p] <= #[trigger] self.children_start@[q]
                <= self.children@.len()
        &&& forall|p: int| 0 <= p < self.node_ids@.len() ==> increasing(#[trigger] self.kids(p))
        &&& forall|p: int, c: usize|
            0 <= p < self.node_ids@.len() ==> (#[trigger] self.kids(p).contains(c) <==> g.node_points_to(
                self.node_ids@[p],
                c,
            ))
        &&& self.parents_start@.len() == g.class_nodes@.len() + 1
        &&& forall|c: int, d: int|
            0 <= c <= d <= g.class_nodes@.len() ==> #[trigger] self.parents_start@[c] <= #[trigger] self.parents_start@[d]
                <= self.parents@.len()
        &&& forall|c: int| 0 <= c < g.class_nodes@.len() ==> increasing(#[trigger] self.parents_of(c))
        &&& forall|c: int, p: usize|
            0 <= c < g.class_nodes@.len() ==> (#[trigger] self.parents_of(c).contains(p) <==> p < self.node_ids@.len()
                && self.kids(p as int).contains(c as usize))
    }
}

/// Inserts `x` into the increasing list `v`, unless it is there.
fn insert_sorted(v: &mut Vec<usize>, x: usize)
    requires
        increasing(old(v)@),
    ensures
        increasing(final(v)@),
        forall|y: usize| #[trigger] final(v)@.contains(y) <==> old(v)@.contains(y) || y == x,
{
    let mut i: usize = 0;
    while i < v.len() && v[i] < x
        invariant
            i <= v@.len(),
            forall|j: int| 0 <= j < i ==> v@[j] < x,
        decreases v@.len() - i,
    {
        i = i + 1;
    }
    if i < v.len() && v[i] == x {
        return;
    }
    let ghost old_v = v@;
    v.insert(i, x);
    proof {
        assert(v@ =~= old_v.insert(i as int, x));
        assert forall|a: int, b: int| 0 <= a < b < v@.len() implies v@[a] < v@[b] by {
            if b < i {
            } else if a < i && b == i {
            } else if a < i && b > i {
                assert(v@[b] == old_v[b - 1]);
                assert(old_v[a] < old_v[b - 1] || a == b - 1);
            } else if a == i {
                assert(v@[b] == old_v[b - 1]);
                assert(old_v[i as int] >= x);
                if b - 1 > i {
                    assert(old_v[i as int] < old_v[b - 1]);
                }
            } else {
                assert(v@[a] == old_v[a - 1] && v@[b] == old_v[b - 1]);
            }
        }
        assert forall|y: usize| #[trigger] v@.contains(y) <==> old_v.contains(y) || y == x by {
            if v@.contains(y) {
                let q = v@.index_of(y);
                if q < i {
                    assert(old_v[q] == y);
                } else if q > i {
                    assert(old_v[q - 1] == y);
                }
            }
            if old_v.contains(y) {
                let q = old_v.index_of(y);
                if q < i {
                    assert(v@[q] == y);
                } else {
                    assert(v@[q + 1] == y);
                }
            }
            if y == x {
                assert(v@[i as int] == x);
            }
        }
    }
}

/// `children_total` grows with the number of e-nodes counted.
proof fn lemma_children_total_grows(g: &IndexedEGraph, a: int, b: int)
    requires
        0 <= a <= b <= g.node_children@.len(),
    ensures
        children_total(g, a) <= children_total(g, b),
    decreases b - a,
{
    if a < b {
        lemma_children_total_grows(g, a, b - 1);
    }
}

/// The child classes of e-node `n`, increasing and each once.
fn child_classes(g: &IndexedEGraph, n: usize) -> (r: Vec<usize>)
    requires
        g.wf(),
        n < g.node_class@.len(),
    ensures
        increasing(r@),
        forall|c: usize| #[trigger] r@.contains(c) <==> g.node_points_to(n, c),
{
    let kids = &g.node_children[n];
    let mut r: Vec<usize> = Vec::new();
    let mut j: usize = 0;
    while j < kids.len()
        invariant
            g.wf(),
            n < g.node_class@.len(),
            kids@ == g.node_children@[n as int]@,
            j <= kids@.len(),
            increasing(r@),
            forall|c: usize| #[trigger] r@.contains(c) <==> exists|k: int| 0 <= k < j && g.child_class(n, k) == c,
        decreases kids@.len() - j,
    {
        let child = kids[j];
        assert(child < g.node_class@.len()) by {
            assert(g.node_children@[n as int]@[j as int] == child);
        }
        let c = g.node_class[child];
        assert(c == g.child_class(n, j as int));
        insert_sorted(&mut r, c);
        proof {
            assert forall|d: usize| #[trigger] r@.contains(d) <==> exists|k: int| 0 <= k < j + 1 && g.child_class(n, k) == d by {
                if exists|k: int| 0 <= k < j + 1 && g.child_class(n, k) == d {
                    let k = choose|k: int| 0 <= k < j + 1 && g.child_class(n, k) == d;
                    if k < j {
                        assert(exists|k2: int| 0 <= k2 < j && g.child_class(n, k2) == d);
                    }
                }
            }
        }
        j = j + 1;
    }
    proof {
        assert forall|c: usize| #[trigger] r@.contains(c) <==> g.node_points_to(n, c) by {
            if g.node_points_to(n, c) {
                let k = choose|k: int| 0 <= k < g.node_children@[n as int]@.len() && #[trigger] g.child_class(n, k) == c;
                assert(exists|k2: int| 0 <= k2 < j && g.child_class(n, k2) == c);
            }
        }
    }
    r
}

/// Appends `v` to `items`.
fn append_all(items: &mut Vec<usize>, v: &Vec<usize>)
    ensures
        final(items)@ == old(items)@ + v@,
{
    let mut j: usize = 0;
    let ghost start = items@;
    while j < v.len()
        invariant
            j <= v@.len(),
            items@ == start + v@.subrange(0, j as int),
        decreases v@.len() - j,
    {
        items.push(v[j]);
        j = j + 1;
    }
    assert(v@.subrange(0, j as int) =~= v@);
}

/// Appending keeps the earlier segments.
proof fn lemma_segments_kept(items: Seq<usize>, more: Seq<usize>, starts: Seq<usize>, p: int)
    requires
        0 <= p,
        p + 1 < starts.len(),
        starts[p] <= starts[p + 1] <= items.len(),
    ensures
        segment(items + more, starts, p) == segment(items, starts, p),
{
    assert(segment(items + more, starts, p) =~= segment(items, starts, p));
}

/// The compact layout of `g`, or `None` when the numbers of classes, of
/// e-nodes or of child references, each plus ten, exceed `max_index`.
pub fn compact_egraph(g: &IndexedEGraph, max_index: usize) -> (r: Option<CompactEGraph>)
    requires
        g.wf(),
    ensures
        r is None <==> (g.class_nodes@.len() + 10 > max_index || g.node_class@.len() + 10 > max_index
            || children_total(g, g.node_class@.len() as int) + 10 > max_index),
        r matches Some(e) ==> e.lays_out(g),
{
    let classes = g.class_nodes.len();
    let nodes = g.node_class.len();
    if max_index < 10 || classes > max_index - 10 || nodes > max_index - 10 {
        return None;
    }
    let mut total: usize = 0;
    let mut n: usize = 0;
    while n < nodes
        invariant
            g.wf(),
            nodes == g.node_class@.len(),
            max_index >= 10,
            n <= nodes,
            total == children_total(g, n as int),
            total + 10 <= max_index,
        decreases nodes - n,
    {
        let d = g.node_children[n].len();
        if d > max_index - 10 - total {
            proof {
                lemma_children_total_grows(g, n + 1, nodes as int);
            }
            return None;
        }
        total = total + d;
        n = n + 1;
    }
    // The e-nodes in class order.
    let mut node_ids: Vec<usize> = Vec::new();
    let mut nodes_start: Vec<usize> = Vec::new();
    let mut c: usize = 0;
    while c < classes
        invariant
            g.wf(),
            classes == g.class_nodes@.len(),
            c <= classes,
            node_ids@.len() == class_offset(g, c as int),
            forall|q: int| 0 <= q < node_ids@.len() ==> #[trigger] node_ids@[q] < g.node_class@.len(),
            nodes_start@.len() == c,
            forall|d: int| 0 <= d < c ==> #[trigger] nodes_start@[d] == class_offset(g, d),
            forall|d: int, k: int|
                0 <= d < c && 0 <= k < g.class_nodes@[d]@.len() ==> node_ids@[class_offset(g, d) + k]
                    == #[trigger] g.class_nodes@[d]@[k],
        decreases classes - c,
    {
        nodes_start.push(node_ids.len());
        let members = &g.class_nodes[c];
        let ghost before = node_ids@;
        let mut k: usize = 0;
        while k < members.len()
            invariant
                c < classes,
                classes == g.class_nodes@.len(),
                members@ == g.class_nodes@[c as int]@,
                k <= members@.len(),
                node_ids@.len() == class_offset(g, c as int) + k,
                g.wf(),
                forall|q: int| 0 <= q < node_ids@.len() ==> #[trigger] node_ids@[q] < g.node_class@.len(),
                before.len() == class_offset(g, c as int),
                forall|q: int| 0 <= q < before.len() ==> node_ids@[q] == before[q],
                forall|q: int| 0 <= q < k ==> node_ids@[class_offset(g, c as int) + q] == members@[q],
            decreases members@.len() - k,
        {
            assert(members@[k as int] < g.node_class@.len()) by {
                assert(g.class_nodes@[c as int]@[k as int] == members@[k as int]);
            }
            node_ids.push(members[k]);
            k = k + 1;
        }
        proof {
            assert forall|d: int, q: int|
                0 <= d < c + 1 && 0 <= q < g.class_nodes@[d]@.len() implies node_ids@[class_offset(g, d) + q]
                    == #[trigger] g.class_nodes@[d]@[q] by {
                if d < c {
                    lemma_offset_grows(g, d + 1, c as int);
                    assert(node_ids@[class_offset(g, d) + q] == before[class_offset(g, d) + q]);
                }
            }
        }
        c = c + 1;
    }
    nodes_start.push(node_ids.len());
    let positions = node_ids.len();
    proof {
        assert(positions == total_nodes(g));
    }
    // The child classes of each position.
    let mut children: Vec<usize> = Vec::new();
    let mut children_start: Vec<usize> = Vec::new();
    children_start.push(0);
    let mut p: usize = 0;
    while p < positions
        invariant
            g.wf(),
            positions == node_ids@.len(),
            p <= positions,
            forall|q: int| 0 <= q < positions ==> #[trigger] node_ids@[q] < g.node_class@.len(),
            children_start@.len() == p + 1,
            children_start@[0] == 0,
            forall|a: int, b: int| 0 <= a <= b <= p ==> #[trigger] children_start@[a] <= #[trigger] children_start@[b] <= children@.len(),
            children_start@[p as int] == children@.len(),
            forall|q: int| 0 <= q < p ==> increasing(#[trigger] segment(children@, children_start@, q)),
            forall|q: int, d: usize|
                0 <= q < p ==> (#[trigger] segment(children@, children_start@, q).contains(d) <==> g.node_points_to(
                    node_ids@[q],
                    d,
                )),
        decreases positions - p,
    {
        let kids = child_classes(g, node_ids[p]);
        let ghost old_items = children@;
        let ghost old_starts = children_start@;
        append_all(&mut children, &kids);
        children_start.push(children.len());
        proof {
            assert forall|q: int| 0 <= q < p + 1 implies segment(children@, children_start@, q) == if q < p {
                segment(old_items, old_starts, q)
            } else {
                kids@
            } by {
                if q < p {
                    assert(children_start@[q] == old_starts[q] && children_start@[q + 1] == old_starts[q + 1]);
                    lemma_segments_kept(old_items, kids@, old_starts, q);
                } else {
                    assert(segment(children@, children_start@, q) =~= kids@);
                }
            }
            assert forall|a: int, b: int| 0 <= a <= b <= p + 1 implies #[trigger] children_start@[a] <= #[trigger] children_start@[b] <= children@.len() by {
                if b <= p {
                    assert(children_start@[a] == old_starts[a] && children_start@[b] == old_starts[b]);
                }
                if a <= p {
                    assert(children_start@[a] == old_starts[a]);
                }
            }
        }
        p = p + 1;
    }
    // The parents of each class.
    let mut pm: Vec<Vec<usize>> = Vec::new();
    while pm.len() < classes
        invariant
            pm@.len() <= classes,
            forall|d: int| 0 <= d < pm@.len() ==> (#[trigger] pm@[d])@.len() == 0,
        decreases classes - pm@.len(),
    {
        pm.push(Vec::new());
    }
    let mut p: usize = 0;
    while p < positions
        invariant
            g.wf(),
            classes == g.class_nodes@.len(),
            positions == node_ids@.len(),
            p <= positions,
            children_start@.len() == positions + 1,
            forall|a: int, b: int| 0 <= a <= b <= positions ==> #[trigger] children_start@[a] <= #[trigger] children_start@[b] <= children@.len(),
            forall|q: int| 0 <= q < positions ==> increasing(#[trigger] segment(children@, children_start@, q)),
            forall|q: int, d: usize|
                0 <= q < positions ==> (#[trigger] segment(children@, children_start@, q).contains(d) <==> g.node_points_to(
                    node_ids@[q],
                    d,
                )),
            forall|q: int| 0 <= q < positions ==> #[trigger] node_ids@[q] < g.node_class@.len(),
            pm@.len() == classes,
            forall|d: int| 0 <= d < classes ==> increasing((#[trigger] pm@[d])@),
            forall|d: int, x: usize|
                0 <= d < classes ==> (#[trigger] pm@[d]@.contains(x) <==> x < p && segment(children@, children_start@, x as int).contains(d as usize)),
        decreases positions - p,
    {
        let lo = children_start[p];
        let hi = children_start[p + 1];
        let ghost seg = segment(children@, children_start@, p as int);
        let ghost pm0 = pm@;
        let mut j: usize = lo;
        while j < hi
            invariant
                g.wf(),
                classes == g.class_nodes@.len(),
                p < positions,
                lo <= j <= hi <= children@.len(),
                lo == children_start@[p as int],
                hi == children_start@[p + 1],
                seg == children@.subrange(lo as int, hi as int),
                increasing(seg),
                forall|d: usize| #[trigger] seg.contains(d) ==> g.node_points_to(node_ids@[p as int], d),
                node_ids@[p as int] < g.node_class@.len(),
                pm@.len() == classes,
                pm0.len() == classes,
                forall|d: int| 0 <= d < classes ==> increasing((#[trigger] pm0[d])@),
                forall|d: int, x: usize| 0 <= d < classes && #[trigger] pm0[d]@.contains(x) ==> x < p,
                forall|d: int| 0 <= d < classes ==> increasing((#[trigger] pm@[d])@),
                forall|d: int, x: usize|
                    0 <= d < classes ==> (#[trigger] pm@[d]@.contains(x) <==> pm0[d]@.contains(x) || (x == p
                        && seg.subrange(0, j - lo).contains(d as usize))),
                forall|d: int| 0 <= d < classes ==> (#[trigger] pm@[d])@.len() >= pm0[d]@.len(),
                forall|d: int, x: usize| 0 <= d < classes && #[trigger] pm@[d]@.contains(x) ==> x <= p,
            decreases hi - j,
        {
            let d = children[j];
            assert(seg[j - lo] == d);
            assert(seg.contains(d));
            assert(d < classes) by {
                let n = node_ids@[p as int];
                let k = choose|k: int| 0 <= k < g.node_children@[n as int]@.len() && #[trigger] g.child_class(n, k) == d;
                assert(g.node_children@[n as int]@[k] < g.node_class@.len());
            }
            proof {
                assert(!pm@[d as int]@.contains(p)) by {
                    if pm@[d as int]@.contains(p) {
                        if !pm0[d as int]@.contains(p) {
                            let t = seg.subrange(0, j - lo).index_of(d);
                            assert(seg[t] == d);
                            assert(t < j - lo);
                            assert(seg[t] < seg[j - lo]);
                        }
                    }
                }
            }
            let ghost before = pm@;
            let mut list = pm.remove(d);
            let ghost lst = list@;
            list.push(p);
            pm.insert(d, list);
            proof {
                assert(pm@ =~= before.update(d as int, pm@[d as int]));
                assert(pm@[d as int]@ == lst.push(p));
                assert(lst == before[d as int]@);
                assert(increasing(pm@[d as int]@)) by {
                    assert forall|a: int, b: int| 0 <= a < b < pm@[d as int]@.len() implies pm@[d as int]@[a] < pm@[d as int]@[b] by {
                        if b == lst.len() {
                            assert(lst.contains(lst[a]));
                            assert(lst[a] <= p);
                            assert(lst[a] != p);
                        } else {
                            assert(lst[a] < lst[b]);
                        }
                    }
                }
                assert forall|e: int, x: usize|
                    0 <= e < classes implies (#[trigger] pm@[e]@.contains(x) <==> pm0[e]@.contains(x) || (x == p
                        && seg.subrange(0, j + 1 - lo).contains(e as usize))) by {
                    assert(seg.subrange(0, j + 1 - lo) =~= seg.subrange(0, j - lo).push(d));
                    assert(seg.subrange(0, j + 1 - lo)[j - lo] == d);
                    if e == d as int {
                        if lst.push(p).contains(x) && x != p {
                            let q = lst.push(p).index_of(x);
                            assert(lst[q] == x);
                        }
                        if lst.contains(x) {
                            let q = lst.index_of(x);
                            assert(lst.push(p)[q] == x);
                        }
                        if x == p {
                            assert(lst.push(p)[lst.len() as int] == p);
                        }
                    } else {
                        assert(pm@[e] == before[e]);
                        if seg.subrange(0, j + 1 - lo).contains(e as usize) && !seg.subrange(0, j - lo).contains(e as usize) {
                            let q = seg.subrange(0, j + 1 - lo).index_of(e as usize);
                            if q < j - lo {
                                assert(seg.subrange(0, j - lo)[q] == e as usize);
                            }
                        }
                        if seg.subrange(0, j - lo).contains(e as usize) {
                            let q = seg.subrange(0, j - lo).index_of(e as usize);
                            assert(seg.subrange(0, j + 1 - lo)[q] == e as usize);
                        }
                    }
                }
                assert forall|e: int, x: usize| 0 <= e < classes && #[trigger] pm@[e]@.contains(x) implies x <= p by {
                    if e == d as int && x != p {
                        let q = lst.push(p).index_of(x);
                        assert(lst[q] == x);
                        assert(before[e]@.contains(x));
                    } else if e != d as int {
                        assert(pm@[e] == before[e]);
                    }
                }
                assert forall|e: int| 0 <= e < classes implies (#[trigger] pm@[e])@.len() >= pm0[e]@.len() by {
                    if e != d as int {
                        assert(pm@[e] == before[e]);
                    }
                }
                assert forall|e: int| 0 <= e < classes implies increasing((#[trigger] pm@[e])@) by {
                    if e != d as int {
                        assert(pm@[e] == before[e]);
                    }
                }
            }
            j = j + 1;
        }
        proof {
            assert(seg.subrange(0, hi - lo) =~= seg);
            assert forall|d: int, x: usize|
                0 <= d < classes implies (#[trigger] pm@[d]@.contains(x) <==> x < p + 1 && segment(children@, children_start@, x as int).contains(d as usize)) by {
                if pm0[d]@.contains(x) {
                    assert(x < p);
                }
            }
        }
        p = p + 1;
    }
    // Laid end to end.
    let mut parents: Vec<usize> = Vec::new();
    let mut parents_start: Vec<usize> = Vec::new();
    parents_start.push(0);
    let mut c: usize = 0;
    while c < classes
        invariant
            classes == g.class_nodes@.len(),
            pm@.len() == classes,
            c <= classes,
            parents_start@.len() == c + 1,
            parents_start@[0] == 0,
            parents_start@[c as int] == parents@.len(),
            forall|a: int, b: int| 0 <= a <= b <= c ==> #[trigger] parents_start@[a] <= #[trigger] parents_start@[b] <= parents@.len(),
            forall|d: int| 0 <= d < c ==> #[trigger] segment(parents@, parents_start@, d) == pm@[d]@,
        decreases classes - c,
    {
        let ghost old_items = parents@;
        let ghost old_starts = parents_start@;
        append_all(&mut parents, &pm[c]);
        parents_start.push(parents.len());
        proof {
            assert forall|d: int| 0 <= d < c + 1 implies #[trigger] segment(parents@, parents_start@, d) == pm@[d]@ by {
                if d < c {
                    assert(parents_start@[d] == old_starts[d] && parents_start@[d + 1] == old_starts[d + 1]);
                    lemma_segments_kept(old_items, pm@[c as int]@, old_starts, d);
                    assert(segment(old_items, parents_start@, d) == segment(old_items, old_starts, d));
                } else {
                    assert(segment(parents@, parents_start@, d) =~= pm@[d]@);
                }
            }
            assert forall|a: int, b: int| 0 <= a <= b <= c + 1 implies #[trigger] parents_start@[a] <= #[trigger] parents_start@[b] <= parents@.len() by {
                if b <= c {
                    assert(parents_start@[a] == old_starts[a] && parents_start@[b] == old_starts[b]);
                }
                if a <= c {
                    assert(parents_start@[a] == old_starts[a]);
                }
            }
        }
        c = c + 1;
    }
    let e = CompactEGraph { node_ids, nodes_start, children_start, children, parents_start, parents };
    proof {
        assert forall|c: int| 0 <= c <= g.class_nodes@.len() implies #[trigger] e.nodes_start@[c] == class_offset(g, c) by {
            if c == g.class_nodes@.len() {
                assert(e.nodes_start@[c] == e.node_ids@.len());
            }
        }
        assert forall|p: int| 0 <= p < e.node_ids@.len() implies increasing(#[trigger] e.kids(p)) by {
            assert(e.kids(p) == segment(e.children@, e.children_start@, p));
        }
        assert forall|p: int, d: usize|
            0 <= p < e.node_ids@.len() implies (#[trigger] e.kids(p).contains(d) <==> g.node_points_to(e.node_ids@[p], d)) by {
            assert(e.kids(p) == segment(e.children@, e.children_start@, p));
        }
        assert forall|c: int| 0 <= c < g.class_nodes@.len() implies increasing(#[trigger] e.parents_of(c)) by {
            assert(e.parents_of(c) == pm@[c]@);
        }
        assert forall|c: int, x: usize|
            0 <= c < g.class_nodes@.len() implies (#[trigger] e.parents_of(c).contains(x) <==> x < e.node_ids@.len()
                && e.kids(x as int).contains(c as usize)) by {
            assert(e.parents_of(c) == pm@[c]@);
        }
    }
    Some(e)
}

} // verus!
