//! Strongly connected components of a class graph, by Tarjan's algorithm.
use vstd::prelude::*;
use std::collections::{HashMap, HashSet};
use super::HyperGraph;

verus! {

broadcast use vstd::std_specs::hash::group_hash_axioms;

/// The components laid end to end.
pub open spec fn flat(comps: Seq<Vec<usize>>) -> Seq<usize>
    decreases comps.len(),
{
    if comps.len() == 0 {
        Seq::empty()
    } else {
        flat(comps.drop_last()) + comps.last()@
    }
}

/// Appending a component appends its members.
proof fn lemma_flat_push(comps: Seq<Vec<usize>>, c: Vec<usize>)
    ensures
        flat(comps.push(c)) == flat(comps) + c@,
{
    assert(comps.push(c).drop_last() =~= comps);
}

/// Two sequences of the same length with the same elements, one of them
/// without repetition: neither repeats an element.
proof fn lemma_same_set_no_dup(x: Seq<usize>, y: Seq<usize>)
    requires
        x.no_duplicates(),
        x.to_set() == y.to_set(),
        x.len() == y.len(),
    ensures
        y.no_duplicates(),
{
    x.unique_seq_to_set();
    y.lemma_no_dup_set_cardinality();
}

/// Every edge out of a class of `s` leads into `s`.
pub open spec fn edge_closed(graph: &HyperGraph, s: Set<usize>) -> bool {
    forall|x: usize, y: usize|
        #![trigger s.contains(x), graph.linked(x, y)]
        s.contains(x) && graph.linked(x, y) ==> s.contains(y)
}

/// Class `b` can be reached from class `a` along edges: it lies in every set
/// that holds `a` and that every edge out of it leads back into.
pub open spec fn reaches(graph: &HyperGraph, a: usize, b: usize) -> bool {
    forall|s: Set<usize>|
        #![trigger edge_closed(graph, s), s.contains(b)]
        edge_closed(graph, s) && s.contains(a) ==> s.contains(b)
}

/// Every class reaches itself.
pub(crate) proof fn lemma_reaches_refl(graph: &HyperGraph, a: usize)
    ensures
        reaches(graph, a, a),
{
}

/// An edge is a path.
pub(crate) proof fn lemma_reaches_edge(graph: &HyperGraph, a: usize, b: usize)
    requires
        graph.linked(a, b),
    ensures
        reaches(graph, a, b),
{
}

/// Paths compose.
pub(crate) proof fn lemma_reaches_trans(graph: &HyperGraph, a: usize, b: usize, c: usize)
    requires
        reaches(graph, a, b),
        reaches(graph, b, c),
    ensures
        reaches(graph, a, c),
{
    assert forall|s: Set<usize>| edge_closed(graph, s) && s.contains(a) implies s.contains(c) by {
        assert(s.contains(b));
    }
}

/// A set that no edge leaves holds everything its classes reach.
proof fn lemma_reaches_stays(graph: &HyperGraph, s: Set<usize>, a: usize, b: usize)
    requires
        edge_closed(graph, s),
        s.contains(a),
        reaches(graph, a, b),
    ensures
        s.contains(b),
{
}

/// Some entry at or below position `p` of the stack has the number that is
/// the low-link of the entry at `p`, and can be reached from it.
pub open spec fn low_witnessed(
    graph: &HyperGraph,
    num: Map<usize, usize>,
    low: Map<usize, usize>,
    stack: Seq<usize>,
    p: int,
) -> bool {
    exists|q: int|
        0 <= q <= p && #[trigger] num[stack[q]] == low[stack[p]] && reaches(graph, stack[p], stack[q])
}

/// The state that Tarjan's search keeps between steps: every visited class
/// has a number below `idx` and a low-link at most its number; the stack holds
/// distinct visited classes in the order of their numbers, each with a
/// low-link that is the number of an entry at or below it that it reaches;
/// the finished components and the stack together hold each visited class
/// once; each finished component is strongly connected; and no edge leaves
/// the classes of the first `k` finished components, for every `k`.
pub open spec fn tarjan_inv(
    graph: &HyperGraph,
    num: Map<usize, usize>,
    low: Map<usize, usize>,
    stack: Seq<usize>,
    visited: Set<usize>,
    onstack: Set<usize>,
    idx: usize,
    comps: Seq<Vec<usize>>,
) -> bool {
    &&& visited.subset_of(graph.live_classes())
    &&& visited.finite()
    &&& idx == visited.len()
    &&& num.dom() == visited
    &&& low.dom() == visited
    &&& forall|x: usize| #[trigger] visited.contains(x) ==> num[x] < idx && low[x] <= num[x]
    &&& stack.no_duplicates()
    &&& forall|i: int| 0 <= i < stack.len() ==> visited.contains(#[trigger] stack[i])
    &&& onstack == stack.to_set()
    &&& forall|i: int, j: int|
        0 <= i < j < stack.len() ==> num[#[trigger] stack[i]] < num[#[trigger] stack[j]]
    &&& forall|p: int| 0 <= p < stack.len() ==> #[trigger] low_witnessed(graph, num, low, stack, p)
    &&& (flat(comps) + stack).no_duplicates()
    &&& (flat(comps) + stack).to_set() == visited
    &&& forall|k: int| 0 <= k < comps.len() ==> (#[trigger] comps[k])@.len() > 0
    &&& forall|k: int, x: usize, y: usize|
        #![trigger comps[k]@.contains(x), comps[k]@.contains(y)]
        0 <= k < comps.len() && comps[k]@.contains(x) && comps[k]@.contains(y) ==> reaches(
            graph,
            x,
            y,
        )
    &&& forall|k: int|
        0 <= k <= comps.len() ==> edge_closed(graph, #[trigger] flat(comps.subrange(0, k)).to_set())
}

/// The components up to `m + 1` laid end to end are those up to `m`, then
/// component `m`.
proof fn lemma_flat_step(c: Seq<Vec<usize>>, m: int)
    requires
        0 <= m < c.len(),
    ensures
        flat(c.subrange(0, m + 1)) == flat(c.subrange(0, m)) + c[m]@,
{
    assert(c.subrange(0, m + 1).drop_last() =~= c.subrange(0, m));
}

/// Laying end to end the components up to `m` gives a prefix of laying end
/// to end those up to `n`, for `m <= n`.
proof fn lemma_flat_prefix(c: Seq<Vec<usize>>, m: int, n: int)
    requires
        0 <= m <= n <= c.len(),
    ensures
        flat(c.subrange(0, m)).len() <= flat(c.subrange(0, n)).len(),
        forall|i: int|
            0 <= i < flat(c.subrange(0, m)).len() ==> #[trigger] flat(c.subrange(0, n))[i] == flat(
                c.subrange(0, m),
            )[i],
    decreases n - m,
{
    if m < n {
        lemma_flat_prefix(c, m, n - 1);
        lemma_flat_step(c, n - 1);
        assert forall|i: int|
            0 <= i < flat(c.subrange(0, m)).len() implies #[trigger] flat(c.subrange(0, n))[i] == flat(
                c.subrange(0, m),
            )[i] by {
            assert(flat(c.subrange(0, n - 1))[i] == flat(c.subrange(0, m))[i]);
        }
    }
}

/// In a list of components whose classes appear once and whose every
/// prefix no edge leaves, a class of a component reaches no class of a later
/// one.
proof fn lemma_maximal(graph: &HyperGraph, c: Seq<Vec<usize>>, i: int, j: int, x: usize, y: usize)
    requires
        flat(c).no_duplicates(),
        forall|k: int| 0 <= k <= c.len() ==> edge_closed(graph, #[trigger] flat(c.subrange(0, k)).to_set()),
        0 <= i < j < c.len(),
        c[i]@.contains(x),
        c[j]@.contains(y),
    ensures
        !reaches(graph, x, y),
{
    if reaches(graph, x, y) {
        let pi = flat(c.subrange(0, i + 1));
        lemma_flat_step(c, i);
        let tx = choose|t: int| 0 <= t < c[i]@.len() && c[i]@[t] == x;
        assert(pi[flat(c.subrange(0, i)).len() + tx] == x);
        assert(pi.to_set().contains(x));
        assert(edge_closed(graph, flat(c.subrange(0, i + 1)).to_set()));
        lemma_reaches_stays(graph, pi.to_set(), x, y);
        assert(pi.contains(y));
        let a = choose|a: int| 0 <= a < pi.len() && pi[a] == y;
        assert(c.subrange(0, c.len() as int) =~= c);
        lemma_flat_prefix(c, i + 1, c.len() as int);
        assert(flat(c)[a] == y);
        lemma_flat_step(c, j);
        let ty = choose|t: int| 0 <= t < c[j]@.len() && c[j]@[t] == y;
        let pj = flat(c.subrange(0, j));
        let pj1 = flat(c.subrange(0, j + 1));
        assert(pj1[pj.len() + ty] == y);
        lemma_flat_prefix(c, j + 1, c.len() as int);
        assert(flat(c)[pj.len() + ty] == y);
        lemma_flat_prefix(c, i + 1, j);
        assert(a < pj.len() + ty);
    }
}

/// Swaps two entries of a list.
fn swap_entries(v: &mut Vec<usize>, i: usize, j: usize)
    requires
        i < old(v)@.len(),
        j < old(v)@.len(),
    ensures
        final(v)@ == old(v)@.update(i as int, old(v)@[j as int]).update(j as int, old(v)@[i as int]),
{
    let a = v[i];
    let b = v[j];
    v.set(i, b);
    v.set(j, a);
}

/// Sorts a list of class ids in ascending order.
fn sort_ascending(v: &mut Vec<usize>)
    ensures
        final(v)@.len() == old(v)@.len(),
        final(v)@.to_set() == old(v)@.to_set(),
        forall|i: int, j: int| 0 <= i <= j < final(v)@.len() ==> final(v)@[i] <= final(v)@[j],
{
    let ghost orig = v@;
    let n = v.len();
    let mut i: usize = 0;
    while i < n
        invariant
            n == v@.len(),
            orig.len() == n,
            i <= n,
            forall|x: usize| v@.contains(x) <==> orig.contains(x),
            forall|a: int, b: int| 0 <= a <= b < i ==> v@[a] <= v@[b],
            forall|a: int, b: int| 0 <= a < i <= b < n ==> v@[a] <= v@[b],
        decreases n - i,
    {
        let mut m: usize = i;
        let mut j: usize = i + 1;
        while j < n
            invariant
                n == v@.len(),
                i < n,
                i <= m < n,
                i < j <= n,
                forall|b: int| i <= b < j ==> v@[m as int] <= v@[b],
            decreases n - j,
        {
            if v[j] < v[m] {
                m = j;
            }
            j = j + 1;
        }
        let ghost before = v@;
        swap_entries(v, i, m);
        proof {
            assert forall|x: usize| v@.contains(x) <==> before.contains(x) by {
                if v@.contains(x) {
                    let k = choose|k: int| 0 <= k < v@.len() && v@[k] == x;
                    if k == i {
                        assert(before[m as int] == x);
                    } else if k == m {
                        assert(before[i as int] == x);
                    } else {
                        assert(before[k] == x);
                    }
                }
                if before.contains(x) {
                    let k = choose|k: int| 0 <= k < before.len() && before[k] == x;
                    if k == i {
                        assert(v@[m as int] == x);
                    } else if k == m {
                        assert(v@[i as int] == x);
                    } else {
                        assert(v@[k] == x);
                    }
                }
            }
        }
        i = i + 1;
    }
    proof {
        assert(v@.to_set() =~= orig.to_set());
    }
}

/// Lowering the low-link of a stack entry to the number of an entry at or
/// below it that it reaches keeps the search's invariant.
proof fn lemma_lower_low(
    graph: &HyperGraph,
    num: Map<usize, usize>,
    low: Map<usize, usize>,
    stack: Seq<usize>,
    visited: Set<usize>,
    onstack: Set<usize>,
    idx: usize,
    comps: Seq<Vec<usize>>,
    pv: int,
    q: int,
)
    requires
        tarjan_inv(graph, num, low, stack, visited, onstack, idx, comps),
        0 <= q <= pv < stack.len(),
        num[stack[q]] < low[stack[pv]],
        reaches(graph, stack[pv], stack[q]),
    ensures
        tarjan_inv(graph, num, low.insert(stack[pv], num[stack[q]]), stack, visited, onstack, idx, comps),
{
    let low2 = low.insert(stack[pv], num[stack[q]]);
    assert(visited.contains(stack[pv]));
    assert(low2.dom() =~= visited);
    assert forall|p: int| 0 <= p < stack.len() implies #[trigger] low_witnessed(graph, num, low2, stack, p) by {
        if p == pv {
            assert(num[stack[q]] == low2[stack[p]]);
        } else {
            assert(stack[p] != stack[pv]);
            assert(low_witnessed(graph, num, low, stack, p));
            let qq = choose|qq: int|
                0 <= qq <= p && #[trigger] num[stack[qq]] == low[stack[p]] && reaches(graph, stack[p], stack[qq]);
            assert(num[stack[qq]] == low2[stack[p]]);
        }
    }
    assert forall|x: usize| #[trigger] visited.contains(x) implies num[x] < idx && low2[x] <= num[x] by {
        if x == stack[pv] {
            assert(visited.contains(stack[q]));
        }
    }
}

/// Every entry of a component about to be closed reaches its root: each
/// entry above the root reaches, through its low-link, an entry below it,
/// which cannot lie below the root since no edge leaves the finished
/// components and the entries from the root up.
proof fn lemma_reach_root(
    graph: &HyperGraph,
    num: Map<usize, usize>,
    low: Map<usize, usize>,
    full: Seq<usize>,
    comps: Seq<Vec<usize>>,
    z: Set<usize>,
    l: int,
    px: int,
)
    requires
        0 <= l <= px < full.len(),
        full.no_duplicates(),
        (flat(comps) + full).no_duplicates(),
        forall|p: int| 0 <= p < full.len() ==> #[trigger] low_witnessed(graph, num, low, full, p),
        forall|p: int| l < p < full.len() ==> low[#[trigger] full[p]] < num[full[p]],
        forall|x: usize| #[trigger] z.contains(x) <==> flat(comps).contains(x) || exists|p: int| l <= p < full.len() && full[p] == x,
        edge_closed(graph, z),
    ensures
        reaches(graph, full[px], full[l]),
    decreases px - l,
{
    if px == l {
        lemma_reaches_refl(graph, full[l]);
    } else {
        assert(low_witnessed(graph, num, low, full, px));
        let q = choose|q: int|
            0 <= q <= px && #[trigger] num[full[q]] == low[full[px]] && reaches(graph, full[px], full[q]);
        assert(q != px);
        if q < l {
            assert(z.contains(full[px]));
            lemma_reaches_stays(graph, z, full[px], full[q]);
            let fc = flat(comps);
            if fc.contains(full[q]) {
                let a = choose|a: int| 0 <= a < fc.len() && fc[a] == full[q];
                assert((fc + full)[a] == (fc + full)[fc.len() + q]);
            } else {
                let p = choose|p: int| l <= p < full.len() && full[p] == full[q];
                assert(p != q);
            }
        } else {
            lemma_reach_root(graph, num, low, full, comps, z, l, q);
            lemma_reaches_trans(graph, full[px], full[q], full[l]);
        }
    }
}

/// Closing the component of the entries from position `l` up, whose root
/// at `l` has a low-link equal to its number, keeps the search's invariant.
proof fn lemma_pop(
    graph: &HyperGraph,
    num: Map<usize, usize>,
    low: Map<usize, usize>,
    full: Seq<usize>,
    visited: Set<usize>,
    idx: usize,
    comps: Seq<Vec<usize>>,
    found: Vec<usize>,
    l: int,
)
    requires
        tarjan_inv(graph, num, low, full, visited, full.to_set(), idx, comps),
        0 <= l < full.len(),
        low[full[l]] == num[full[l]],
        forall|p: int| l <= p < full.len() ==> reaches(graph, full[l], #[trigger] full[p]),
        forall|p: int| l < p < full.len() ==> low[#[trigger] full[p]] < num[full[p]],
        forall|p: int, q: int|
            l <= p < full.len() && 0 <= q < l && graph.linked(#[trigger] full[p], #[trigger] full[q])
                ==> low[full[l]] <= num[full[q]],
        forall|p: int, y: usize|
            l <= p < full.len() && #[trigger] graph.linked(full[p], y) ==> visited.contains(y),
        found@.len() == full.len() - l,
        forall|j: int| 0 <= j < found@.len() ==> #[trigger] found@[j] == full[full.len() - 1 - j],
    ensures
        tarjan_inv(
            graph,
            num,
            low,
            full.subrange(0, l),
            visited,
            full.subrange(0, l).to_set(),
            idx,
            comps.push(found),
        ),
{
    let s0 = full.subrange(0, l);
    let nc = comps.push(found);
    lemma_flat_push(comps, found);
    let fc = flat(comps);
    let old_all = fc + full;
    let new_all = flat(nc) + s0;
    assert(new_all =~= fc + found@ + s0);
    assert(old_all.len() == new_all.len());
    assert(old_all.to_set() =~= new_all.to_set()) by {
        assert forall|x: usize| old_all.contains(x) <==> new_all.contains(x) by {
            if old_all.contains(x) {
                let j = choose|j: int| 0 <= j < old_all.len() && old_all[j] == x;
                if j < fc.len() {
                    assert(new_all[j] == x);
                } else if j - fc.len() < l {
                    assert(full[j - fc.len()] == x);
                    assert(s0[j - fc.len()] == x);
                    assert(new_all[fc.len() + found@.len() + (j - fc.len())] == x);
                } else {
                    let t = j - fc.len();
                    let jj = full.len() - 1 - t;
                    assert(found@[jj] == full[t]);
                    assert(new_all[fc.len() + jj] == x);
                }
            }
            if new_all.contains(x) {
                let j = choose|j: int| 0 <= j < new_all.len() && new_all[j] == x;
                if j < fc.len() {
                    assert(old_all[j] == x);
                } else if j < fc.len() + found@.len() {
                    let jj = j - fc.len();
                    let t = full.len() - 1 - jj;
                    assert(found@[jj] == full[t]);
                    assert(old_all[fc.len() + t] == x);
                } else {
                    let t = j - fc.len() - found@.len();
                    assert(s0[t] == x);
                    assert(full[t] == x);
                    assert(old_all[fc.len() + t] == x);
                }
            }
        }
    }
    lemma_same_set_no_dup(old_all, new_all);
    assert forall|kk: int| 0 <= kk < nc.len() implies (#[trigger] nc[kk])@.len() > 0 by {
        if kk < comps.len() {
            assert(nc[kk] == comps[kk]);
        }
    }
    assert forall|p: int| 0 <= p < s0.len() implies #[trigger] low_witnessed(graph, num, low, s0, p) by {
        assert(low_witnessed(graph, num, low, full, p));
        let q = choose|q: int|
            0 <= q <= p && #[trigger] num[full[q]] == low[full[p]] && reaches(graph, full[p], full[q]);
        assert(s0[q] == full[q] && s0[p] == full[p]);
    }
    assert forall|i: int, j: int| 0 <= i < j < s0.len() implies num[#[trigger] s0[i]] < num[#[trigger] s0[j]] by {
        assert(s0[i] == full[i] && s0[j] == full[j]);
    }
    assert forall|i: int| 0 <= i < s0.len() implies visited.contains(#[trigger] s0[i]) by {
        assert(s0[i] == full[i]);
    }
    assert forall|i: int, j: int| 0 <= i < s0.len() && 0 <= j < s0.len() && i != j implies s0[i] != s0[j] by {
        assert(s0[i] == full[i] && s0[j] == full[j]);
    }
    // The new finished classes: no edge leaves them.
    let z = new_all.to_set().difference(s0.to_set());
    let zf = (fc + found@).to_set();
    assert forall|x: usize| #[trigger] zf.contains(x) <==> fc.contains(x) || exists|p: int| l <= p < full.len() && full[p] == x by {
        if (fc + found@).contains(x) {
            let j = choose|j: int| 0 <= j < (fc + found@).len() && (fc + found@)[j] == x;
            if j >= fc.len() {
                let jj = j - fc.len();
                assert(found@[jj] == full[full.len() - 1 - jj]);
            } else {
                assert(fc[j] == x);
            }
        }
        if fc.contains(x) {
            let j = choose|j: int| 0 <= j < fc.len() && fc[j] == x;
            assert((fc + found@)[j] == x);
        }
        if exists|p: int| l <= p < full.len() && full[p] == x {
            let p = choose|p: int| l <= p < full.len() && full[p] == x;
            let jj = full.len() - 1 - p;
            assert(found@[jj] == x);
            assert((fc + found@)[fc.len() + jj] == x);
        }
    }
    assert(comps.subrange(0, comps.len() as int) =~= comps);
    assert(edge_closed(graph, fc.to_set()));
    assert(edge_closed(graph, zf)) by {
        assert forall|x: usize, y: usize|
            #![trigger zf.contains(x), graph.linked(x, y)]
            zf.contains(x) && graph.linked(x, y) implies zf.contains(y) by {
            if fc.contains(x) {
                assert(fc.to_set().contains(x));
                assert(fc.to_set().contains(y));
            } else {
                let p = choose|p: int| l <= p < full.len() && full[p] == x;
                assert(visited.contains(y));
                assert(old_all.to_set().contains(y));
                let j = choose|j: int| 0 <= j < old_all.len() && old_all[j] == y;
                if j < fc.len() {
                    assert(fc[j] == y);
                } else {
                    let q = j - fc.len();
                    assert(full[q] == y);
                    if q < l {
                        assert(graph.linked(full[p], full[q]));
                        assert(num[full[q]] < num[full[l]]);
                        assert(false);
                    }
                }
            }
        }
    }
    assert forall|kk: int| 0 <= kk <= nc.len() implies edge_closed(graph, #[trigger] flat(nc.subrange(0, kk)).to_set()) by {
        if kk <= comps.len() {
            assert(nc.subrange(0, kk) =~= comps.subrange(0, kk));
        } else {
            assert(nc.subrange(0, kk) =~= nc);
            assert(flat(nc) == fc + found@);
        }
    }
    assert forall|kk: int, x: usize, y: usize|
        #![trigger nc[kk]@.contains(x), nc[kk]@.contains(y)]
        0 <= kk < nc.len() && nc[kk]@.contains(x) && nc[kk]@.contains(y) implies reaches(graph, x, y) by {
        if kk < comps.len() {
            assert(nc[kk] == comps[kk]);
        } else {
            let jx = choose|j: int| 0 <= j < found@.len() && found@[j] == x;
            let jy = choose|j: int| 0 <= j < found@.len() && found@[j] == y;
            let px = full.len() - 1 - jx;
            let py = full.len() - 1 - jy;
            lemma_reach_root(graph, num, low, full, comps, zf, l, px);
            assert(reaches(graph, full[l], full[py]));
            lemma_reaches_trans(graph, full[px], full[l], full[py]);
        }
    }
}

/// Tarjan's search from class `v`, which has not been visited: numbers `v`
/// and every class reachable from it that has not been visited, and moves
/// each component whose root it finishes from the stack to `scc`. What it
/// leaves on the stack, `v` first, is reached from `v`, has low-links below
/// its numbers, and has edges only to visited classes and, among the entries
/// below `v`, only to those whose numbers are at least `v`'s low-link.
#[verifier::spinoff_prover]
#[verifier::rlimit(40)]
fn scc_impl(
    v: usize,
    graph: &HyperGraph,
    num: &mut HashMap<usize, usize>,
    low: &mut HashMap<usize, usize>,
    stack: &mut Vec<usize>,
    visited: &mut HashSet<usize>,
    onstack: &mut HashSet<usize>,
    idx: &mut usize,
    scc: &mut Vec<Vec<usize>>,
)
    requires
        graph.wf(),
        graph.class_is_live(v),
        !old(visited)@.contains(v),
        tarjan_inv(
            graph,
            old(num)@,
            old(low)@,
            old(stack)@,
            old(visited)@,
            old(onstack)@,
            *old(idx),
            old(scc)@,
        ),
    ensures
        tarjan_inv(
            graph,
            final(num)@,
            final(low)@,
            final(stack)@,
            final(visited)@,
            final(onstack)@,
            *final(idx),
            final(scc)@,
        ),
        final(visited)@.contains(v),
        old(visited)@.subset_of(final(visited)@),
        final(num)@[v] == *old(idx),
        forall|x: usize| #[trigger]
            old(visited)@.contains(x) ==> final(num)@[x] == old(num)@[x] && final(low)@[x] == old(
                low,
            )@[x],
        forall|x: usize| #[trigger]
            final(visited)@.contains(x) && !old(visited)@.contains(x) ==> final(num)@[x]
                >= *old(idx),
        old(stack)@.len() <= final(stack)@.len(),
        final(stack)@.subrange(0, old(stack)@.len() as int) == old(stack)@,
        final(stack)@.len() == old(stack)@.len() ==> final(low)@[v] == final(num)@[v],
        final(stack)@.len() > old(stack)@.len() ==> final(stack)@[old(stack)@.len() as int] == v
            && final(low)@[v] != final(num)@[v],
        forall|p: int|
            old(stack)@.len() <= p < final(stack)@.len() ==> reaches(graph, v, #[trigger] final(stack)@[p]),
        forall|p: int|
            old(stack)@.len() <= p < final(stack)@.len() ==> final(low)@[#[trigger] final(stack)@[p]]
                < final(num)@[final(stack)@[p]],
        forall|p: int, q: int|
            old(stack)@.len() <= p < final(stack)@.len() && 0 <= q < old(stack)@.len() && graph.linked(
                #[trigger] final(stack)@[p],
                #[trigger] final(stack)@[q],
            ) ==> final(low)@[v] <= final(num)@[final(stack)@[q]],
        forall|p: int, y: usize|
            old(stack)@.len() <= p < final(stack)@.len() && #[trigger] graph.linked(final(stack)@[p], y)
                ==> final(visited)@.contains(y),
    decreases graph.live_classes().len() - old(visited)@.len(),
{
    let ghost s0 = stack@;
    let ghost i0 = *idx;
    let ghost comps0 = scc@;
    let ghost vis0 = visited@;
    let ghost num0 = num@;
    let ghost low0 = low@;
    let ghost l = s0.len() as int;
    proof {
        graph.lemma_facts();
        vstd::set_lib::lemma_len_subset(visited@.insert(v), graph.live_classes());
        assert(visited@.insert(v).len() == visited@.len() + 1);
    }
    let id = *idx;
    num.insert(v, id);
    low.insert(v, id);
    *idx = id + 1;
    visited.insert(v);
    stack.push(v);
    onstack.insert(v);
    proof {
        assert(stack@ == s0.push(v));
        assert(flat(scc@) + stack@ == (flat(scc@) + s0).push(v));
        assert(!(flat(scc@) + s0).contains(v)) by {
            if (flat(scc@) + s0).contains(v) {
                assert((flat(scc@) + s0).to_set().contains(v));
            }
        }
        assert((flat(scc@) + stack@).to_set() =~= (flat(scc@) + s0).to_set().insert(v)) by {
            assert forall|x: usize| (flat(scc@) + stack@).contains(x) <==> (flat(scc@) + s0).contains(x) || x == v by {
                let fs = flat(scc@) + s0;
                if fs.contains(x) {
                    let j = choose|j: int| 0 <= j < fs.len() && fs[j] == x;
                    assert((flat(scc@) + stack@)[j] == x);
                }
                if x == v {
                    assert((flat(scc@) + stack@)[fs.len() as int] == x);
                }
                if (flat(scc@) + stack@).contains(x) {
                    let j = choose|j: int| 0 <= j < (flat(scc@) + stack@).len() && (flat(scc@) + stack@)[j] == x;
                    if j < fs.len() {
                        assert(fs[j] == x);
                    }
                }
            }
        }
        assert(stack@.to_set() =~= s0.to_set().insert(v)) by {
            assert forall|x: usize| stack@.contains(x) <==> s0.contains(x) || x == v by {
                if s0.contains(x) {
                    let j = choose|j: int| 0 <= j < s0.len() && s0[j] == x;
                    assert(stack@[j] == x);
                }
                if x == v {
                    assert(stack@[s0.len() as int] == x);
                }
                if stack@.contains(x) {
                    let j = choose|j: int| 0 <= j < stack@.len() && stack@[j] == x;
                    if j < s0.len() {
                        assert(s0[j] == x);
                    }
                }
            }
        }
        assert(!s0.contains(v)) by {
            if s0.contains(v) {
                let j = choose|j: int| 0 <= j < s0.len() && s0[j] == v;
                assert(vis0.contains(s0[j]));
            }
        }
        assert forall|i: int, j: int|
            0 <= i < j < stack@.len() implies num@[#[trigger] stack@[i]] < num@[#[trigger] stack@[j]] by {
            assert(vis0.contains(stack@[i]));
            if j < s0.len() {
                assert(vis0.contains(stack@[j]));
            }
        }
        assert forall|p: int| 0 <= p < stack@.len() implies #[trigger] low_witnessed(graph, num@, low@, stack@, p) by {
            if p < s0.len() {
                assert(low_witnessed(graph, num0, low0, s0, p));
                let q = choose|q: int|
                    0 <= q <= p && #[trigger] num0[s0[q]] == low0[s0[p]] && reaches(graph, s0[p], s0[q]);
                assert(vis0.contains(s0[q]));
                assert(vis0.contains(s0[p]));
                assert(num@[stack@[q]] == low@[stack@[p]]);
            } else {
                lemma_reaches_refl(graph, v);
                assert(num@[stack@[p]] == low@[stack@[p]]);
            }
        }
        assert(visited@.subset_of(graph.live_classes()));
        lemma_reaches_refl(graph, v);
    }
    let ns = graph.neighbors(v);
    let mut k: usize = 0;
    while k < ns.len()
        invariant
            graph.wf(),
            graph.class_is_live(v),
            forall|c: usize| ns@.contains(c) <==> graph.linked(v, c),
            k <= ns@.len(),
            tarjan_inv(graph, num@, low@, stack@, visited@, onstack@, *idx, scc@),
            visited@.contains(v),
            vis0.subset_of(visited@),
            !vis0.contains(v),
            num@[v] == i0,
            *idx > i0,
            forall|x: usize| #[trigger]
                vis0.contains(x) ==> num@[x] == num0[x] && low@[x] == low0[x],
            forall|x: usize| #[trigger]
                visited@.contains(x) && !vis0.contains(x) ==> num@[x] >= i0,
            l == s0.len(),
            stack@.len() > l,
            stack@.subrange(0, l) == s0,
            stack@[l] == v,
            vis0 == old(visited)@,
            graph.live_classes().finite(),
            graph.live_classes().len() - visited@.len() < graph.live_classes().len() - vis0.len(),
            forall|p: int| l <= p < stack@.len() ==> reaches(graph, v, #[trigger] stack@[p]),
            forall|p: int| l < p < stack@.len() ==> low@[#[trigger] stack@[p]] < num@[stack@[p]],
            forall|p: int, q: int|
                l < p < stack@.len() && 0 <= q < l && graph.linked(#[trigger] stack@[p], #[trigger] stack@[q])
                    ==> low@[v] <= num@[stack@[q]],
            forall|kk: int, q: int|
                0 <= kk < k && 0 <= q < l && #[trigger] ns@[kk] == #[trigger] stack@[q] ==> low@[v]
                    <= num@[stack@[q]],
            forall|p: int, y: usize|
                l < p < stack@.len() && #[trigger] graph.linked(stack@[p], y) ==> visited@.contains(y),
            forall|kk: int| 0 <= kk < k ==> visited@.contains(#[trigger] ns@[kk]),
        decreases ns@.len() - k,
    {
        let u = ns[k];
        proof {
            assert(ns@.contains(u));
            graph.lemma_facts();
            lemma_reaches_edge(graph, v, u);
        }
        let ghost st_before = stack@;
        let ghost low_before = low@;
        let ghost vis_before = visited@;
        if !visited.contains(&u) {
            let ghost sc = stack@;
            let ghost ic = *idx;
            let ghost visc = visited@;
            proof {
                vstd::set_lib::lemma_len_subset(visited@, graph.live_classes());
                assert(graph.live_classes().len() - visited@.len() >= 0);
                assert(graph.live_classes().len() - visited@.len() < graph.live_classes().len() - vis0.len());
            }
            scc_impl(u, graph, num, low, stack, visited, onstack, idx, scc);
            let lu = *low.get(&u).unwrap();
            let lv = *low.get(&v).unwrap();
            proof {
                assert(visc.contains(v));
                assert forall|j: int| 0 <= j < sc.len() implies #[trigger] stack@[j] == sc[j] by {
                    assert(stack@.subrange(0, sc.len() as int)[j] == sc[j]);
                }
                assert(stack@.subrange(0, l) =~= s0) by {
                    assert forall|j: int| 0 <= j < l implies stack@[j] == s0[j] by {
                        assert(stack@[j] == sc[j]);
                        assert(sc.subrange(0, l)[j] == s0[j]);
                    }
                }
                assert(stack@[l] == v) by {
                    assert(stack@[l] == sc[l]);
                }
            }
            if lv > lu {
                proof {
                    assert(stack@.len() > sc.len()) by {
                        if stack@.len() == sc.len() {
                            assert(num@[u] >= ic);
                            assert(num@[v] == i0);
                            assert(low@[v] <= num@[v]);
                        }
                    }
                    let lc = sc.len() as int;
                    assert(stack@[lc] == u);
                    assert(low_witnessed(graph, num@, low@, stack@, lc));
                    let q = choose|q: int|
                        0 <= q <= lc && #[trigger] num@[stack@[q]] == low@[stack@[lc]] && reaches(graph, stack@[lc], stack@[q]);
                    if q > l {
                        assert(num@[stack@[l]] < num@[stack@[q]]);
                        assert(visited@.contains(v));
                        assert(false);
                    }
                    lemma_reaches_trans(graph, v, u, stack@[q]);
                    lemma_lower_low(graph, num@, low@, stack@, visited@, onstack@, *idx, scc@, l, q);
                }
                low.insert(v, lu);
            }
            proof {
                let lc = sc.len() as int;
                assert forall|p: int| l <= p < stack@.len() implies reaches(graph, v, #[trigger] stack@[p]) by {
                    if p < lc {
                        assert(stack@[p] == st_before[p]);
                    } else {
                        assert(reaches(graph, u, stack@[p]));
                        lemma_reaches_trans(graph, v, u, stack@[p]);
                    }
                }
                assert forall|p: int| l < p < stack@.len() implies low@[#[trigger] stack@[p]] < num@[stack@[p]] by {
                    if p < lc {
                        assert(stack@[p] == st_before[p]);
                        assert(stack@[p] != v) by {
                            assert(stack@[l] == v);
                        }
                    } else {
                        assert(stack@[p] != v) by {
                            assert(stack@[l] == v);
                        }
                    }
                }
                assert forall|p: int, q: int|
                    l < p < stack@.len() && 0 <= q < l && graph.linked(#[trigger] stack@[p], #[trigger] stack@[q])
                        implies low@[v] <= num@[stack@[q]] by {
                    assert(stack@[q] == st_before[q]);
                    assert(vis0.contains(stack@[q])) by {
                        assert(s0[q] == stack@[q]);
                    }
                    if p < lc {
                        assert(stack@[p] == st_before[p]);
                    } else {
                        assert(q < lc);
                    }
                }
                assert forall|kk: int, q: int|
                    0 <= kk < k + 1 && 0 <= q < l && #[trigger] ns@[kk] == #[trigger] stack@[q] implies low@[v]
                        <= num@[stack@[q]] by {
                    assert(stack@[q] == st_before[q]);
                    if kk == k {
                        assert(vis0.contains(stack@[q])) by {
                            assert(s0[q] == stack@[q]);
                        }
                        assert(false);
                    }
                }
                assert forall|p: int, y: usize|
                    l < p < stack@.len() && #[trigger] graph.linked(stack@[p], y) implies visited@.contains(y) by {
                    if p < lc {
                        assert(stack@[p] == st_before[p]);
                    }
                }
            }
        } else if onstack.contains(&u) {
            let nu = *num.get(&u).unwrap();
            let lv = *low.get(&v).unwrap();
            if lv > nu {
                proof {
                    assert(stack@.to_set().contains(u));
                    let j = choose|j: int| 0 <= j < stack@.len() && stack@[j] == u;
                    if j > l {
                        assert(num@[stack@[l]] < num@[stack@[j]]);
                        assert(false);
                    }
                    lemma_lower_low(graph, num@, low@, stack@, visited@, onstack@, *idx, scc@, l, j);
                }
                low.insert(v, nu);
            }
            proof {
                assert forall|kk: int, q: int|
                    0 <= kk < k + 1 && 0 <= q < l && #[trigger] ns@[kk] == #[trigger] stack@[q] implies low@[v]
                        <= num@[stack@[q]] by {
                    if kk < k {
                        assert(low@[v] <= low_before[v]);
                    }
                }
                assert forall|p: int| l < p < stack@.len() implies low@[#[trigger] stack@[p]] < num@[stack@[p]] by {
                    assert(stack@[p] != v) by {
                        assert(stack@[l] == v);
                    }
                }
            }
        } else {
            proof {
                assert forall|kk: int, q: int|
                    0 <= kk < k + 1 && 0 <= q < l && #[trigger] ns@[kk] == #[trigger] stack@[q] implies low@[v]
                        <= num@[stack@[q]] by {
                    if kk == k {
                        assert(stack@.to_set().contains(stack@[q]));
                    }
                }
            }
        }
        k = k + 1;
    }
    proof {
        assert forall|p: int, q: int|
            l <= p < stack@.len() && 0 <= q < l && graph.linked(#[trigger] stack@[p], #[trigger] stack@[q])
                implies low@[v] <= num@[stack@[q]] by {
            if p == l {
                assert(ns@.contains(stack@[q]));
                let kk = choose|kk: int| 0 <= kk < ns@.len() && ns@[kk] == stack@[q];
            }
        }
        assert forall|p: int, y: usize|
            l <= p < stack@.len() && #[trigger] graph.linked(stack@[p], y) implies visited@.contains(y) by {
            if p == l {
                assert(ns@.contains(y));
                let kk = choose|kk: int| 0 <= kk < ns@.len() && ns@[kk] == y;
            }
        }
    }
    let lv = *low.get(&v).unwrap();
    let nv = *num.get(&v).unwrap();
    if lv == nv {
        let ghost full = stack@;
        let ghost comps = scc@;
        let mut found: Vec<usize> = Vec::new();
        loop
            invariant_except_break
                l < stack@.len(),
            invariant
                l == s0.len(),
                full.len() > l,
                full.subrange(0, l) == s0,
                full[l] == v,
                full.no_duplicates(),
                l <= stack@.len() <= full.len(),
                stack@ == full.subrange(0, stack@.len() as int),
                onstack@ == stack@.to_set(),
                found@.len() == full.len() - stack@.len(),
                forall|j: int| 0 <= j < found@.len() ==> #[trigger] found@[j] == full[full.len() - 1 - j],
            ensures
                stack@ == s0,
                onstack@ == s0.to_set(),
                found@.len() == full.len() - l,
                forall|j: int| 0 <= j < found@.len() ==> #[trigger] found@[j] == full[full.len() - 1 - j],
            decreases stack@.len(),
        {
            let ghost before = stack@;
            let w = stack.pop().unwrap();
            onstack.remove(&w);
            found.push(w);
            proof {
                assert(w == full[before.len() - 1]);
                assert(stack@ =~= full.subrange(0, stack@.len() as int));
                assert(stack@.to_set() =~= before.to_set().remove(w)) by {
                    assert forall|x: usize| stack@.contains(x) <==> before.contains(x) && x != w by {
                        if stack@.contains(x) {
                            let j = choose|j: int| 0 <= j < stack@.len() && stack@[j] == x;
                            assert(before[j] == x);
                            assert(full[j] == x && full[before.len() - 1] == w);
                        }
                        if before.contains(x) && x != w {
                            let j = choose|j: int| 0 <= j < before.len() && before[j] == x;
                            assert(j != before.len() - 1);
                            assert(stack@[j] == x);
                        }
                    }
                }
            }
            if w == v {
                proof {
                    assert(full[l] == v);
                    assert(before.len() - 1 == l);
                    assert(stack@ =~= s0);
                }
                break;
            }
            proof {
                assert(before.len() - 1 != l);
            }
        }
        scc.push(found);
        proof {
            assert(full.subrange(0, l) == s0);
            lemma_pop(graph, num@, low@, full, visited@, *idx, comps, found, l);
        }
    } else {
        proof {
            assert forall|p: int| l <= p < stack@.len() implies low@[#[trigger] stack@[p]] < num@[stack@[p]] by {
                if p == l {
                    assert(visited@.contains(v));
                }
            }
        }
    }
}

/// The strongly connected components of the graph's live classes, found by
/// Tarjan's algorithm with the classes tried as roots in ascending order.
/// Every live class is in exactly one component, no component is empty,
/// every class of a component reaches every other, classes of different
/// components do not reach each other both ways, and the components come in
/// reverse topological order: what a class reaches lies in its component or
/// an earlier one.
#[verifier::spinoff_prover]
pub fn scc(graph: &HyperGraph) -> (r: Vec<Vec<usize>>)
    requires
        graph.wf(),
    ensures
        flat(r@).no_duplicates(),
        flat(r@).to_set() == graph.live_classes(),
        forall|k: int| 0 <= k < r@.len() ==> (#[trigger] r@[k])@.len() > 0,
        forall|k: int, x: usize, y: usize|
            #![trigger r@[k]@.contains(x), r@[k]@.contains(y)]
            0 <= k < r@.len() && r@[k]@.contains(x) && r@[k]@.contains(y) ==> reaches(graph, x, y),
        forall|i: int, j: int, x: usize, y: usize|
            #![trigger r@[i]@.contains(x), r@[j]@.contains(y)]
            0 <= i < r@.len() && 0 <= j < r@.len() && r@[i]@.contains(x) && r@[j]@.contains(y)
                && reaches(graph, x, y) && reaches(graph, y, x) ==> i == j,
        forall|i: int, j: int, x: usize, y: usize|
            #![trigger r@[i]@.contains(x), r@[j]@.contains(y)]
            0 <= i < r@.len() && 0 <= j < r@.len() && r@[i]@.contains(x) && r@[j]@.contains(y)
                && reaches(graph, x, y) ==> j <= i,
{
    let mut num: HashMap<usize, usize> = HashMap::new();
    let mut low: HashMap<usize, usize> = HashMap::new();
    let mut visited: HashSet<usize> = HashSet::new();
    let mut processed: HashSet<usize> = HashSet::new();
    let mut stack: Vec<usize> = Vec::new();
    let mut idx: usize = 0;
    let mut scc: Vec<Vec<usize>> = Vec::new();
    let mut order = graph.class_list();
    sort_ascending(&mut order);
    proof {
        graph.lemma_facts();
        assert(num@ =~= Map::<usize, usize>::empty());
        assert(low@ =~= Map::<usize, usize>::empty());
        assert(flat(scc@) + stack@ =~= Seq::<usize>::empty());
        assert(Seq::<usize>::empty().to_set() =~= Set::<usize>::empty());
        assert(stack@.to_set() =~= Set::<usize>::empty());
        assert forall|kk: int| 0 <= kk <= scc@.len() implies edge_closed(graph, #[trigger] flat(scc@.subrange(0, kk)).to_set()) by {
            assert(scc@.subrange(0, kk) =~= Seq::<Vec<usize>>::empty());
            assert(flat(scc@.subrange(0, kk)).to_set() =~= Set::<usize>::empty());
        }
    }
    let mut i: usize = 0;
    while i < order.len()
        invariant
            graph.wf(),
            order@.to_set() == graph.live_classes(),
            i <= order@.len(),
            forall|j: int| 0 <= j < i ==> visited@.contains(#[trigger] order@[j]),
            tarjan_inv(graph, num@, low@, stack@, visited@, processed@, idx, scc@),
            stack@.len() == 0,
        decreases order@.len() - i,
    {
        let v = order[i];
        proof {
            assert(order@.to_set().contains(v));
        }
        if !visited.contains(&v) {
            scc_impl(
                v,
                graph,
                &mut num,
                &mut low,
                &mut stack,
                &mut visited,
                &mut processed,
                &mut idx,
                &mut scc,
            );
            proof {
                if stack@.len() > 0 {
                    assert(low_witnessed(graph, num@, low@, stack@, 0));
                    assert(stack@[0] == v);
                }
            }
        }
        i = i + 1;
    }
    proof {
        assert(flat(scc@) + stack@ =~= flat(scc@));
        assert forall|c: usize| graph.live_classes().contains(c) implies visited@.contains(c) by {
            assert(order@.to_set().contains(c));
            let j = choose|j: int| 0 <= j < order@.len() && order@[j] == c;
        }
        assert(visited@ =~= graph.live_classes());
        assert forall|a: int, b: int, x: usize, y: usize|
            #![trigger scc@[a]@.contains(x), scc@[b]@.contains(y)]
            0 <= a < scc@.len() && 0 <= b < scc@.len() && scc@[a]@.contains(x) && scc@[b]@.contains(y)
                && reaches(graph, x, y) && reaches(graph, y, x) implies a == b by {
            if a < b {
                lemma_maximal(graph, scc@, a, b, x, y);
            } else if b < a {
                lemma_maximal(graph, scc@, b, a, y, x);
            }
        }
        assert forall|a: int, b: int, x: usize, y: usize|
            #![trigger scc@[a]@.contains(x), scc@[b]@.contains(y)]
            0 <= a < scc@.len() && 0 <= b < scc@.len() && scc@[a]@.contains(x) && scc@[b]@.contains(y)
                && reaches(graph, x, y) implies b <= a by {
            if a < b {
                lemma_maximal(graph, scc@, a, b, x, y);
            }
        }
    }
    scc
}

} // verus!
