//! Elementary cycles of a class graph, by a search in the style of Johnson's
//! algorithm over each strongly connected component.
use vstd::prelude::*;
use std::collections::{HashMap, HashSet};
use super::{copy_vec, vec_contains, HyperGraph};
use super::scc::{flat, lemma_reaches_edge, lemma_reaches_refl, lemma_reaches_trans, reaches, scc};

verus! {

broadcast use vstd::std_specs::hash::group_hash_axioms;

/// There is an edge from the `i`-th class of `p` to the next.
pub open spec fn link_at(g: &HyperGraph, p: Seq<usize>, i: int) -> bool {
    g.linked(p[i], p[i + 1])
}

/// `p` is a nonempty path of distinct classes of `g`.
pub open spec fn is_path(g: &HyperGraph, p: Seq<usize>) -> bool {
    &&& p.len() > 0
    &&& p.no_duplicates()
    &&& forall|i: int| 0 <= i < p.len() - 1 ==> #[trigger] link_at(g, p, i)
}

/// `c` is an elementary cycle of `g`: a path of distinct classes whose last
/// class has an edge back to the first.
pub open spec fn is_cycle(g: &HyperGraph, c: Seq<usize>) -> bool {
    &&& is_path(g, c)
    &&& g.linked(c.last(), c[0])
}

/// `q` is an elementary cycle of `g` that begins with the path `p`.
pub open spec fn closes_from(g: &HyperGraph, p: Seq<usize>, q: Seq<usize>) -> bool {
    &&& is_cycle(g, q)
    &&& p.len() <= q.len()
    &&& q.subrange(0, p.len() as int) == p
}

/// The class of `q` that comes after its prefix `p`: the next one, or the
/// first when `q` ends with `p`.
pub open spec fn next_after(p: Seq<usize>, q: Seq<usize>) -> usize {
    if p.len() < q.len() {
        q[p.len() as int]
    } else {
        q[0]
    }
}

/// Some entry of `cycles` at position `lo` or later holds the classes `q`.
pub open spec fn recorded(cycles: Seq<Vec<usize>>, lo: int, q: Seq<usize>) -> bool {
    exists|k: int| lo <= k < cycles.len() && (#[trigger] cycles[k])@ == q
}

/// What was recorded stays recorded when entries are only appended.
proof fn lemma_recorded_grows(c1: Seq<Vec<usize>>, c2: Seq<Vec<usize>>, lo: int, lo2: int, q: Seq<usize>)
    requires
        recorded(c1, lo, q),
        0 <= lo2 <= lo,
        c1.len() <= c2.len(),
        forall|k: int| 0 <= k < c1.len() ==> #[trigger] c2[k] == c1[k],
    ensures
        recorded(c2, lo2, q),
{
    let k = choose|k: int| lo <= k < c1.len() && (#[trigger] c1[k])@ == q;
    assert(c2[k] == c1[k]);
}

/// The class after a path on a cycle that begins with it: it follows the
/// path's last class; it is the cycle's first class exactly when the cycle
/// is the path itself; otherwise it is off the path, and the cycle begins
/// with the path extended by it.
proof fn lemma_next_after(g: &HyperGraph, p: Seq<usize>, q: Seq<usize>)
    requires
        closes_from(g, p, q),
        p.len() > 0,
    ensures
        g.linked(p.last(), next_after(p, q)),
        q[0] == p[0],
        next_after(p, q) == q[0] <==> q.len() == p.len(),
        q.len() == p.len() ==> q == p,
        q.len() > p.len() ==> !p.contains(next_after(p, q)) && closes_from(g, p.push(next_after(p, q)), q),
{
    let n = p.len() as int;
    assert(q.subrange(0, n)[0] == q[0]);
    assert(q.subrange(0, n)[n - 1] == q[n - 1]);
    if q.len() == p.len() {
        assert(q =~= q.subrange(0, n));
    } else {
        assert(link_at(g, q, n - 1));
        assert(q[n] != q[0]);
        assert(!p.contains(q[n])) by {
            if p.contains(q[n]) {
                let j = choose|j: int| 0 <= j < n && p[j] == q[n];
                assert(q.subrange(0, n)[j] == q[j]);
            }
        }
        assert(q.subrange(0, n + 1) =~= p.push(q[n])) by {
            assert forall|j: int| 0 <= j < n implies q.subrange(0, n + 1)[j] == p[j] by {
                assert(q.subrange(0, n)[j] == q[j]);
            }
        }
    }
}

/// `q` begins with the classes of `p`.
pub open spec fn begins_with(q: Seq<usize>, p: Seq<usize>) -> bool {
    p.len() <= q.len() && q.subrange(0, p.len() as int) == p
}

/// A sequence that begins with `p` extended by `w` begins with `p` and has
/// `w` right after it.
proof fn lemma_begins_with_push(q: Seq<usize>, p: Seq<usize>, w: usize)
    requires
        begins_with(q, p.push(w)),
    ensures
        begins_with(q, p),
        q.len() > p.len(),
        q[p.len() as int] == w,
{
    let n = p.len() as int;
    assert(q.subrange(0, n) =~= q.subrange(0, n + 1).subrange(0, n));
    assert(p.push(w).subrange(0, n) =~= p);
    assert(q.subrange(0, n + 1)[n] == q[n]);
}

/// Every edge of `g1` is an edge of `g2`.
pub open spec fn edges_within(g1: &HyperGraph, g2: &HyperGraph) -> bool {
    forall|a: usize, b: usize| #[trigger] g1.linked(a, b) ==> g2.linked(a, b)
}

/// A cycle keeps being one in a graph with more edges.
proof fn lemma_cycle_within(g1: &HyperGraph, g2: &HyperGraph, c: Seq<usize>)
    requires
        edges_within(g1, g2),
        is_cycle(g1, c),
    ensures
        is_cycle(g2, c),
{
    assert forall|i: int| 0 <= i < c.len() - 1 implies #[trigger] link_at(g2, c, i) by {
        assert(link_at(g1, c, i));
    }
}

/// The classes of a path in a graph are live and there are no more of them
/// than live classes.
proof fn lemma_path_bound(g: &HyperGraph, p: Seq<usize>)
    requires
        g.wf(),
        is_path(g, p),
        g.class_is_live(p[0]),
    ensures
        p.len() <= g.live_classes().len(),
        forall|i: int| 0 <= i < p.len() ==> g.class_is_live(#[trigger] p[i]),
{
    g.lemma_facts();
    assert forall|i: int| 0 <= i < p.len() implies g.class_is_live(#[trigger] p[i]) by {
        if i > 0 {
            assert(link_at(g, p, i - 1));
        }
    }
    p.unique_seq_to_set();
    assert forall|c: usize| p.to_set().contains(c) implies g.live_classes().contains(c) by {
        let i = choose|i: int| 0 <= i < p.len() && p[i] == c;
        assert(g.class_is_live(p[i]));
    }
    vstd::set_lib::lemma_len_subset(p.to_set(), g.live_classes());
}

/// Clears the mark on `v`, and, through the classes that `v` was holding
/// back, on every marked class that was waiting for it.
fn unblock(v: usize, blocked: &mut HashSet<usize>, blocked_map: &mut HashMap<usize, Vec<usize>>)
    requires
        old(blocked)@.contains(v),
        old(blocked)@.finite(),
    ensures
        final(blocked)@.subset_of(old(blocked)@.remove(v)),
        final(blocked)@.finite(),
        final(blocked_map)@.dom().subset_of(old(blocked_map)@.dom()),
        !old(blocked_map)@.contains_key(v) ==> final(blocked)@ == old(blocked)@.remove(v)
            && final(blocked_map)@ == old(blocked_map)@,
    decreases old(blocked)@.len(),
{
    blocked.remove(&v);
    proof {
        assert(blocked@.subset_of(old(blocked)@.remove(v)));
        vstd::set_lib::lemma_len_subset(blocked@, old(blocked)@.remove(v));
    }
    if blocked_map.contains_key(&v) {
        let worklist = blocked_map.remove(&v).unwrap();
        let mut i: usize = 0;
        while i < worklist.len()
            invariant
                blocked@.subset_of(old(blocked)@.remove(v)),
                blocked@.finite(),
                old(blocked)@.finite(),
                old(blocked)@.contains(v),
                blocked_map@.dom().subset_of(old(blocked_map)@.dom()),
                i <= worklist@.len(),
            decreases worklist@.len() - i,
        {
            let w = worklist[i];
            if blocked.contains(&w) {
                proof {
                    vstd::set_lib::lemma_len_subset(blocked@, old(blocked)@.remove(v));
                }
                unblock(w, blocked, blocked_map);
            }
            i = i + 1;
        }
    }
}

/// The search from class `v` for cycles back to `s` along the path on the
/// stack: each cycle found is recorded, and the stack, the marks and the
/// waiting lists are left as they were found.
#[verifier::spinoff_prover]
fn johnson_alg_impl(
    s: usize,
    v: usize,
    graph: &HyperGraph,
    blocked: &mut HashSet<usize>,
    stack: &mut Vec<usize>,
    block_map: &mut HashMap<usize, Vec<usize>>,
    cycles: &mut Vec<Vec<usize>>,
) -> (r: bool)
    requires
        graph.wf(),
        graph.class_is_live(s),
        is_path(graph, old(stack)@.push(v)),
        old(stack)@.push(v)[0] == s,
        old(blocked)@ == old(stack)@.to_set(),
        old(block_map)@ == Map::<usize, Vec<usize>>::empty(),
    ensures
        r,
        final(stack)@ == old(stack)@,
        final(blocked)@ == old(blocked)@,
        final(block_map)@ == Map::<usize, Vec<usize>>::empty(),
        old(cycles)@.len() <= final(cycles)@.len(),
        forall|k: int| 0 <= k < old(cycles)@.len() ==> #[trigger] final(cycles)@[k] == old(cycles)@[k],
        forall|k: int|
            old(cycles)@.len() <= k < final(cycles)@.len() ==> is_cycle(graph, (#[trigger] final(cycles)@[k])@)
                && final(cycles)@[k]@[0] == s,
        forall|k: int|
            old(cycles)@.len() <= k < final(cycles)@.len() ==> begins_with(
                (#[trigger] final(cycles)@[k])@,
                old(stack)@.push(v),
            ),
        forall|k1: int, k2: int|
            old(cycles)@.len() <= k1 < k2 < final(cycles)@.len() ==> (#[trigger] final(cycles)@[k1])@
                != (#[trigger] final(cycles)@[k2])@,
        forall|q: Seq<usize>|
            #[trigger] closes_from(graph, old(stack)@.push(v), q) ==> recorded(
                final(cycles)@,
                old(cycles)@.len() as int,
                q,
            ),
    decreases graph.live_classes().len() - old(stack)@.len(),
{
    let ghost p = stack@.push(v);
    let ghost st0 = stack@;
    proof {
        lemma_path_bound(graph, p);
        assert(graph.class_is_live(p[p.len() - 1]));
        assert(!st0.contains(v)) by {
            if st0.contains(v) {
                let j = choose|j: int| 0 <= j < st0.len() && st0[j] == v;
                assert(p[j] == p[p.len() - 1]);
            }
        }
    }
    let mut f = true;
    blocked.insert(v);
    stack.push(v);
    proof {
        assert(stack@ == p);
        assert(blocked@ =~= p.to_set()) by {
            assert forall|x: usize| blocked@.contains(x) <==> p.contains(x) by {
                if st0.contains(x) {
                    let j = choose|j: int| 0 <= j < st0.len() && st0[j] == x;
                    assert(p[j] == x);
                }
                if x == v {
                    assert(p[st0.len() as int] == x);
                }
                if p.contains(x) {
                    let j = choose|j: int| 0 <= j < p.len() && p[j] == x;
                    if j < st0.len() {
                        assert(st0[j] == x);
                    }
                }
            }
        }
    }
    let ns = graph.neighbors(v);
    let ghost cycles0 = cycles@;
    let mut k: usize = 0;
    while k < ns.len()
        invariant
            graph.wf(),
            graph.class_is_live(s),
            forall|c: usize| ns@.contains(c) <==> graph.linked(v, c),
            k <= ns@.len(),
            f,
            stack@ == p,
            p == st0.push(v),
            p[0] == s,
            is_path(graph, p),
            p.len() <= graph.live_classes().len(),
            blocked@ == p.to_set(),
            block_map@ == Map::<usize, Vec<usize>>::empty(),
            cycles0 == old(cycles)@,
            st0 == old(stack)@,
            cycles0.len() <= cycles@.len(),
            forall|kk: int| 0 <= kk < cycles0.len() ==> #[trigger] cycles@[kk] == cycles0[kk],
            forall|kk: int|
                cycles0.len() <= kk < cycles@.len() ==> is_cycle(graph, (#[trigger] cycles@[kk])@)
                    && cycles@[kk]@[0] == s,
            ns@.no_duplicates(),
            forall|kk: int|
                cycles0.len() <= kk < cycles@.len() ==> begins_with((#[trigger] cycles@[kk])@, p)
                    && (cycles@[kk]@ == p ==> ns@.subrange(0, k as int).contains(s))
                    && (cycles@[kk]@.len() > p.len() ==> ns@.subrange(0, k as int).contains(cycles@[kk]@[p.len() as int])),
            forall|k1: int, k2: int|
                cycles0.len() <= k1 < k2 < cycles@.len() ==> (#[trigger] cycles@[k1])@ != (#[trigger] cycles@[k2])@,
            graph.live_classes().len() - p.len() < graph.live_classes().len() - st0.len(),
            forall|q: Seq<usize>|
                #[trigger] closes_from(graph, p, q) && ns@.subrange(0, k as int).contains(next_after(p, q))
                    ==> recorded(cycles@, cycles0.len() as int, q),
        decreases ns@.len() - k,
    {
        let w = ns[k];
        let ghost c_start = cycles@;
        proof {
            assert(ns@.contains(w));
            assert(p.len() > 0);
        }
        if w == s {
            f = true;
            let c = copy_vec(stack);
            let ghost before = cycles@;
            cycles.push(c);
            proof {
                assert(p.last() == v);
                assert(cycles@[before.len() as int] == c);
                assert forall|kk: int| 0 <= kk < cycles0.len() implies #[trigger] cycles@[kk] == cycles0[kk] by {
                    assert(cycles@[kk] == before[kk]);
                }
                assert forall|kk: int|
                    cycles0.len() <= kk < cycles@.len() implies is_cycle(graph, (#[trigger] cycles@[kk])@)
                        && cycles@[kk]@[0] == s by {
                    if kk < before.len() {
                        assert(cycles@[kk] == before[kk]);
                    }
                }
                assert forall|q: Seq<usize>| #[trigger] closes_from(graph, p, q) && next_after(p, q) == w implies recorded(
                    cycles@,
                    c_start.len() as int,
                    q,
                ) by {
                    lemma_next_after(graph, p, q);
                    assert(cycles@[c_start.len() as int]@ == q);
                }
                assert(c@ == p);
                assert(p.subrange(0, p.len() as int) =~= p);
                assert(!ns@.subrange(0, k as int).contains(s)) by {
                    if ns@.subrange(0, k as int).contains(s) {
                        let j = choose|j: int| 0 <= j < k && #[trigger] ns@.subrange(0, k as int)[j] == s;
                        assert(ns@[j] == ns@[k as int]);
                    }
                }
                assert(ns@.subrange(0, k + 1)[k as int] == s);
                assert forall|kk: int|
                    cycles0.len() <= kk < cycles@.len() implies begins_with((#[trigger] cycles@[kk])@, p)
                        && (cycles@[kk]@ == p ==> ns@.subrange(0, k + 1).contains(s))
                        && (cycles@[kk]@.len() > p.len() ==> ns@.subrange(0, k + 1).contains(cycles@[kk]@[p.len() as int])) by {
                    if kk < before.len() {
                        assert(cycles@[kk] == before[kk]);
                        if cycles@[kk]@.len() > p.len() {
                            let x = cycles@[kk]@[p.len() as int];
                            let j = choose|j: int| 0 <= j < k && #[trigger] ns@.subrange(0, k as int)[j] == x;
                            assert(ns@.subrange(0, k + 1)[j] == x);
                        }
                    }
                }
                assert forall|k1: int, k2: int|
                    cycles0.len() <= k1 < k2 < cycles@.len() implies (#[trigger] cycles@[k1])@ != (#[trigger] cycles@[k2])@ by {
                    if k2 == before.len() {
                        assert(cycles@[k1] == before[k1]);
                    } else {
                        assert(cycles@[k1] == before[k1]);
                        assert(cycles@[k2] == before[k2]);
                    }
                }
            }
        } else if !blocked.contains(&w) {
            proof {
                let q = p.push(w);
                assert(!p.contains(w)) by {
                    if p.contains(w) {
                        assert(p.to_set().contains(w));
                    }
                }
                assert forall|i: int| 0 <= i < q.len() - 1 implies #[trigger] link_at(graph, q, i) by {
                    if i < p.len() - 1 {
                        assert(link_at(graph, p, i));
                    } else {
                        assert(q[i] == v && q[i + 1] == w);
                    }
                }
                assert forall|i: int, j: int| 0 <= i < q.len() && 0 <= j < q.len() && i != j implies q[i] != q[j] by {
                    if i < p.len() && j < p.len() {
                    } else if i < p.len() {
                        assert(p.contains(q[i]));
                    } else if j < p.len() {
                        assert(p.contains(q[j]));
                    }
                }
                assert(q[0] == s);
                assert(is_path(graph, q));
                lemma_path_bound(graph, q);
                assert(blocked@ == p.to_set());
            }
            let ghost before = cycles@;
            let found = johnson_alg_impl(s, w, graph, blocked, stack, block_map, cycles);
            f = found || f;
            proof {
                assert forall|q: Seq<usize>| #[trigger] closes_from(graph, p, q) && next_after(p, q) == w implies recorded(
                    cycles@,
                    c_start.len() as int,
                    q,
                ) by {
                    lemma_next_after(graph, p, q);
                    assert(closes_from(graph, st0.push(v).push(w), q));
                }
                assert forall|kk: int| 0 <= kk < cycles0.len() implies #[trigger] cycles@[kk] == cycles0[kk] by {
                    assert(cycles@[kk] == before[kk]);
                }
                assert forall|kk: int|
                    cycles0.len() <= kk < cycles@.len() implies is_cycle(graph, (#[trigger] cycles@[kk])@)
                        && cycles@[kk]@[0] == s by {
                    if kk < before.len() {
                        assert(cycles@[kk] == before[kk]);
                    }
                }
                assert(ns@.subrange(0, k + 1)[k as int] == w);
                assert(!ns@.subrange(0, k as int).contains(w)) by {
                    if ns@.subrange(0, k as int).contains(w) {
                        let j = choose|j: int| 0 <= j < k && #[trigger] ns@.subrange(0, k as int)[j] == w;
                        assert(ns@[j] == ns@[k as int]);
                    }
                }
                assert forall|kk: int|
                    cycles0.len() <= kk < cycles@.len() implies begins_with((#[trigger] cycles@[kk])@, p)
                        && (cycles@[kk]@ == p ==> ns@.subrange(0, k + 1).contains(s))
                        && (cycles@[kk]@.len() > p.len() ==> ns@.subrange(0, k + 1).contains(cycles@[kk]@[p.len() as int])) by {
                    if kk < before.len() {
                        assert(cycles@[kk] == before[kk]);
                        if cycles@[kk]@ == p {
                            let j = choose|j: int| 0 <= j < k && #[trigger] ns@.subrange(0, k as int)[j] == s;
                            assert(ns@.subrange(0, k + 1)[j] == s);
                        }
                        if cycles@[kk]@.len() > p.len() {
                            let x = cycles@[kk]@[p.len() as int];
                            let j = choose|j: int| 0 <= j < k && #[trigger] ns@.subrange(0, k as int)[j] == x;
                            assert(ns@.subrange(0, k + 1)[j] == x);
                        }
                    } else {
                        lemma_begins_with_push(cycles@[kk]@, p, w);
                    }
                }
                assert forall|k1: int, k2: int|
                    cycles0.len() <= k1 < k2 < cycles@.len() implies (#[trigger] cycles@[k1])@ != (#[trigger] cycles@[k2])@ by {
                    if k2 < before.len() {
                        assert(cycles@[k1] == before[k1]);
                        assert(cycles@[k2] == before[k2]);
                    } else if k1 < before.len() {
                        assert(cycles@[k1] == before[k1]);
                        lemma_begins_with_push(cycles@[k2]@, p, w);
                        if cycles@[k1]@ == cycles@[k2]@ {
                            assert(cycles@[k1]@.len() > p.len());
                            assert(cycles@[k1]@[p.len() as int] == w);
                        }
                    }
                }
            }
        } else {
            proof {
                assert forall|q: Seq<usize>| #[trigger] closes_from(graph, p, q) && next_after(p, q) == w implies recorded(
                    cycles@,
                    c_start.len() as int,
                    q,
                ) by {
                    lemma_next_after(graph, p, q);
                    assert(p.to_set().contains(w));
                }
            }
        }
        proof {
            assert forall|q: Seq<usize>|
                #[trigger] closes_from(graph, p, q) && ns@.subrange(0, k + 1).contains(next_after(p, q)) implies recorded(
                    cycles@,
                    cycles0.len() as int,
                    q,
                ) by {
                let x = next_after(p, q);
                let j = choose|j: int| 0 <= j < k + 1 && #[trigger] ns@.subrange(0, k + 1)[j] == x;
                if j < k {
                    assert(ns@.subrange(0, k as int)[j] == x);
                    lemma_recorded_grows(c_start, cycles@, cycles0.len() as int, cycles0.len() as int, q);
                } else {
                    assert(x == w);
                    lemma_recorded_grows(cycles@, cycles@, c_start.len() as int, cycles0.len() as int, q);
                }
            }
        }
        k = k + 1;
    }
    proof {
        assert forall|q: Seq<usize>| #[trigger] closes_from(graph, p, q) implies recorded(cycles@, cycles0.len() as int, q) by {
            lemma_next_after(graph, p, q);
            let x = next_after(p, q);
            assert(ns@.contains(x));
            assert(ns@.subrange(0, k as int) =~= ns@);
        }
    }
    if f {
        proof {
            assert(p.to_set().contains(v)) by {
                assert(p[p.len() - 1] == v);
            }
            assert(p.to_set().finite()) by {
                vstd::seq_lib::seq_to_set_is_finite(p);
            }
        }
        unblock(v, blocked, block_map);
    } else {
        let ns2 = graph.neighbors(v);
        let mut j: usize = 0;
        while j < ns2.len()
            invariant
                j <= ns2@.len(),
            decreases ns2@.len() - j,
        {
            let w = ns2[j];
            let mut waiting = match block_map.remove(&w) {
                Some(x) => x,
                None => Vec::new(),
            };
            if !vec_contains(&waiting, v) {
                waiting.push(v);
            }
            block_map.insert(w, waiting);
            j = j + 1;
        }
    }
    stack.pop();
    proof {
        assert(stack@ =~= st0);
        assert(blocked@ =~= st0.to_set()) by {
            assert forall|x: usize| blocked@.contains(x) <==> st0.contains(x) by {
                if st0.contains(x) {
                    let j = choose|j: int| 0 <= j < st0.len() && st0[j] == x;
                    assert(p[j] == x);
                }
                if p.contains(x) && x != v {
                    let j = choose|j: int| 0 <= j < p.len() && p[j] == x;
                    assert(st0[j] == x);
                }
            }
        }
    }
    f
}

/// Each component of a list laid end to end without repetition has no
/// repetition, and its members are among the list's.
proof fn lemma_flat_parts(comps: Seq<Vec<usize>>, k: int)
    requires
        0 <= k < comps.len(),
        flat(comps).no_duplicates(),
    ensures
        comps[k]@.no_duplicates(),
        forall|j: int| 0 <= j < comps[k]@.len() ==> flat(comps).contains(#[trigger] comps[k]@[j]),
    decreases comps.len(),
{
    let d = comps.drop_last();
    let f = flat(d);
    let c = comps.last()@;
    assert(flat(comps) == f + c);
    if k == comps.len() - 1 {
        assert forall|i: int, j: int| 0 <= i < c.len() && 0 <= j < c.len() && i != j implies c[i] != c[j] by {
            assert((f + c)[f.len() + i] == c[i]);
            assert((f + c)[f.len() + j] == c[j]);
        }
        assert forall|j: int| 0 <= j < c.len() implies flat(comps).contains(#[trigger] comps[k]@[j]) by {
            assert((f + c)[f.len() + j] == c[j]);
        }
    } else {
        assert forall|i: int, j: int| 0 <= i < f.len() && 0 <= j < f.len() && i != j implies f[i] != f[j] by {
            assert((f + c)[i] == f[i]);
            assert((f + c)[j] == f[j]);
        }
        lemma_flat_parts(d, k);
        assert(d[k] == comps[k]);
        assert forall|j: int| 0 <= j < comps[k]@.len() implies flat(comps).contains(#[trigger] comps[k]@[j]) by {
            assert(f.contains(d[k]@[j]));
            let i = choose|i: int| 0 <= i < f.len() && f[i] == d[k]@[j];
            assert((f + c)[i] == f[i]);
        }
    }
}

/// Two components of a list laid end to end without repetition share no
/// class.
proof fn lemma_flat_disjoint(comps: Seq<Vec<usize>>, a: int, b: int, x: usize)
    requires
        0 <= a < b < comps.len(),
        flat(comps).no_duplicates(),
        comps[a]@.contains(x),
    ensures
        !comps[b]@.contains(x),
    decreases comps.len(),
{
    let d = comps.drop_last();
    let f = flat(d);
    let c = comps.last()@;
    assert(flat(comps) == f + c);
    assert forall|i: int, j: int| 0 <= i < f.len() && 0 <= j < f.len() && i != j implies f[i] != f[j] by {
        assert((f + c)[i] == f[i]);
        assert((f + c)[j] == f[j]);
    }
    assert(d[a] == comps[a]);
    if b == comps.len() - 1 {
        lemma_flat_parts(d, a);
        let ja = choose|ja: int| 0 <= ja < comps[a]@.len() && comps[a]@[ja] == x;
        assert(f.contains(d[a]@[ja]));
        let i = choose|i: int| 0 <= i < f.len() && f[i] == x;
        if c.contains(x) {
            let j = choose|j: int| 0 <= j < c.len() && c[j] == x;
            assert((f + c)[i] == x);
            assert((f + c)[f.len() + j] == x);
        }
    } else {
        assert(d[b] == comps[b]);
        lemma_flat_disjoint(d, a, b, x);
    }
}

/// Every class of `c` is in `s`.
pub open spec fn lies_in(c: Seq<usize>, s: Seq<usize>) -> bool {
    forall|j: int| 0 <= j < c.len() ==> s.contains(#[trigger] c[j])
}

/// `c` read from position `t` round to the position before it.
pub open spec fn rotation(c: Seq<usize>, t: int) -> Seq<usize> {
    c.subrange(t, c.len() as int) + c.subrange(0, t)
}

/// The list holds the classes of `c` in their cyclic order, starting at one
/// of them.
pub open spec fn has_rotation_of(cycles: Seq<Vec<usize>>, c: Seq<usize>) -> bool {
    exists|t: int| 0 <= t < c.len() && recorded(cycles, 0, #[trigger] rotation(c, t))
}

/// `d` holds the classes of `c` in their cyclic order, starting at one of
/// them.
pub open spec fn is_rotation_of(d: Seq<usize>, c: Seq<usize>) -> bool {
    exists|t: int| 0 <= t < c.len() && rotation(c, t) == d
}

/// Where each class of `c` lands in a rotation of it.
proof fn lemma_rotation_at(c: Seq<usize>, t: int)
    requires
        0 <= t < c.len(),
    ensures
        rotation(c, t).len() == c.len(),
        forall|m: int|
            0 <= m < c.len() ==> #[trigger] rotation(c, t)[m] == c[if m < c.len() - t {
                m + t
            } else {
                m + t - c.len()
            }],
{
}

/// A rotation of a sequence without repetition that keeps its first element
/// is the sequence itself.
proof fn lemma_rotation_same_start(c: Seq<usize>, t: int)
    requires
        0 <= t < c.len(),
        c.no_duplicates(),
        rotation(c, t)[0] == c[0],
    ensures
        rotation(c, t) == c,
{
    lemma_rotation_at(c, t);
    assert(rotation(c, t)[0] == c[t]);
    assert(t == 0);
    assert(rotation(c, t) =~= c);
}

/// `x` is in one of the components still to be searched.
pub open spec fn pending(sccs: Seq<Vec<usize>>, x: usize) -> bool {
    exists|k: int| 0 <= k < sccs.len() && (#[trigger] sccs[k])@.contains(x)
}

/// A rotation that was in the list stays there when entries are only
/// appended.
proof fn lemma_has_rotation_grows(c1: Seq<Vec<usize>>, c2: Seq<Vec<usize>>, c: Seq<usize>)
    requires
        has_rotation_of(c1, c),
        c1.len() <= c2.len(),
        forall|k: int| 0 <= k < c1.len() ==> #[trigger] c2[k] == c1[k],
    ensures
        has_rotation_of(c2, c),
{
    let t = choose|t: int| 0 <= t < c.len() && recorded(c1, 0, #[trigger] rotation(c, t));
    lemma_recorded_grows(c1, c2, 0, 0, rotation(c, t));
}

/// The classes of a path reach one another forwards along it.
proof fn lemma_path_reaches(g: &HyperGraph, p: Seq<usize>, i: int, j: int)
    requires
        is_path(g, p),
        0 <= i <= j < p.len(),
    ensures
        reaches(g, p[i], p[j]),
    decreases j - i,
{
    if i == j {
        lemma_reaches_refl(g, p[i]);
    } else {
        lemma_path_reaches(g, p, i + 1, j);
        assert(link_at(g, p, i));
        lemma_reaches_edge(g, p[i], p[i + 1]);
        lemma_reaches_trans(g, p[i], p[i + 1], p[j]);
    }
}

/// Any two classes of a cycle reach each other.
proof fn lemma_cycle_reaches(g: &HyperGraph, c: Seq<usize>, i: int, j: int)
    requires
        is_cycle(g, c),
        0 <= i < c.len(),
        0 <= j < c.len(),
    ensures
        reaches(g, c[i], c[j]),
{
    if i <= j {
        lemma_path_reaches(g, c, i, j);
    } else {
        let n = c.len() - 1;
        lemma_path_reaches(g, c, i, n);
        lemma_reaches_edge(g, c[n], c[0]);
        lemma_path_reaches(g, c, 0, j);
        lemma_reaches_trans(g, c[i], c[n], c[0]);
        lemma_reaches_trans(g, c[i], c[0], c[j]);
    }
}

/// A rotation of a cycle is a cycle on the same classes that begins with the
/// class at the position it was rotated by.
proof fn lemma_rotation(g: &HyperGraph, c: Seq<usize>, t: int)
    requires
        is_cycle(g, c),
        0 <= t < c.len(),
    ensures
        is_cycle(g, rotation(c, t)),
        rotation(c, t).len() == c.len(),
        rotation(c, t)[0] == c[t],
        forall|m: int|
            0 <= m < c.len() ==> #[trigger] rotation(c, t)[m] == c[if m < c.len() - t {
                m + t
            } else {
                m + t - c.len()
            }],
{
    let n = c.len() as int;
    let r = rotation(c, t);
    assert forall|m: int| 0 <= m < n implies #[trigger] r[m] == c[if m < n - t {
        m + t
    } else {
        m + t - n
    }] by {
        if m < n - t {
            assert(r[m] == c.subrange(t, n)[m]);
        } else {
            assert(r[m] == c.subrange(0, t)[m - (n - t)]);
        }
    }
    assert forall|a: int, b: int| 0 <= a < n && 0 <= b < n && a != b implies r[a] != r[b] by {
        let xa = if a < n - t { a + t } else { a + t - n };
        let xb = if b < n - t { b + t } else { b + t - n };
        assert(r[a] == c[xa]);
        assert(r[b] == c[xb]);
    }
    assert forall|m: int| 0 <= m < n - 1 implies #[trigger] link_at(g, r, m) by {
        let x = if m < n - t { m + t } else { m + t - n };
        assert(r[m] == c[x]);
        let y = if m + 1 < n - t { m + 1 + t } else { m + 1 + t - n };
        assert(r[m + 1] == c[y]);
        if x < n - 1 {
            assert(link_at(g, c, x));
        }
    }
    if t == 0 {
        assert(r[n - 1] == c[n - 1]);
    } else {
        assert(r[n - 1] == c[t - 1]);
        assert(link_at(g, c, t - 1));
    }
    assert(r[0] == c[t]);
}

/// A member of the components laid end to end is a member of one of them.
proof fn lemma_flat_member(comps: Seq<Vec<usize>>, x: usize) -> (m: int)
    requires
        flat(comps).contains(x),
    ensures
        0 <= m < comps.len(),
        comps[m]@.contains(x),
    decreases comps.len(),
{
    if comps.len() == 0 {
        assert(flat(comps) =~= Seq::<usize>::empty());
        0
    } else {
        let d = comps.drop_last();
        let c = comps.last()@;
        assert(flat(comps) == flat(d) + c);
        let i = choose|i: int| 0 <= i < flat(comps).len() && flat(comps)[i] == x;
        if i < flat(d).len() {
            assert(flat(d)[i] == x);
            let m = lemma_flat_member(d, x);
            assert(d[m] == comps[m]);
            m
        } else {
            assert(c[i - flat(d).len()] == x);
            comps.len() - 1
        }
    }
}

/// A cycle that meets a strongly connected component lies inside it.
proof fn lemma_cycle_in_component(g: &HyperGraph, comps: Seq<Vec<usize>>, m: int, c: Seq<usize>)
    requires
        g.wf(),
        flat(comps).to_set() == g.live_classes(),
        forall|i: int, j: int, x: usize, y: usize|
            #![trigger comps[i]@.contains(x), comps[j]@.contains(y)]
            0 <= i < comps.len() && 0 <= j < comps.len() && comps[i]@.contains(x) && comps[j]@.contains(y)
                && reaches(g, x, y) && reaches(g, y, x) ==> i == j,
        0 <= m < comps.len(),
        is_cycle(g, c),
        comps[m]@.contains(c[0]),
    ensures
        lies_in(c, comps[m]@),
{
    g.lemma_facts();
    assert(g.linked(c.last(), c[0]));
    lemma_path_bound(g, c);
    assert forall|j: int| 0 <= j < c.len() implies comps[m]@.contains(#[trigger] c[j]) by {
        assert(g.class_is_live(c[j]));
        assert(g.live_classes().contains(c[j]));
        assert(flat(comps).to_set().contains(c[j]));
        let m2 = lemma_flat_member(comps, c[j]);
        lemma_cycle_reaches(g, c, 0, j);
        lemma_cycle_reaches(g, c, j, 0);
        assert(comps[m]@.contains(c[0]) && comps[m2]@.contains(c[j]));
    }
}

/// The components of more than one class, in their order.
fn nontrivial_components(comps: &Vec<Vec<usize>>) -> (r: Vec<Vec<usize>>)
    requires
        flat(comps@).no_duplicates(),
    ensures
        forall|m: int|
            0 <= m < comps@.len() && (#[trigger] comps@[m])@.len() > 1 ==> recorded(r@, 0, comps@[m]@),
        forall|k: int| 0 <= k < r@.len() ==> recorded(comps@, 0, (#[trigger] r@[k])@),
        forall|k1: int, k2: int, x: usize|
            #![trigger r@[k1]@.contains(x), r@[k2]@.contains(x)]
            0 <= k1 < k2 < r@.len() && r@[k1]@.contains(x) ==> !r@[k2]@.contains(x),
{
    let mut r: Vec<Vec<usize>> = Vec::new();
    let mut i: usize = 0;
    while i < comps.len()
        invariant
            i <= comps@.len(),
            forall|m: int| 0 <= m < i && (#[trigger] comps@[m])@.len() > 1 ==> recorded(r@, 0, comps@[m]@),
            forall|k: int| 0 <= k < r@.len() ==> recorded(comps@, 0, (#[trigger] r@[k])@),
            flat(comps@).no_duplicates(),
            forall|k: int| 0 <= k < r@.len() ==> exists|m: int| 0 <= m < i && #[trigger] comps@[m]@ == (#[trigger] r@[k])@,
            forall|k1: int, k2: int, x: usize|
                #![trigger r@[k1]@.contains(x), r@[k2]@.contains(x)]
                0 <= k1 < k2 < r@.len() && r@[k1]@.contains(x) ==> !r@[k2]@.contains(x),
        decreases comps@.len() - i,
    {
        if comps[i].len() > 1 {
            let c = copy_vec(&comps[i]);
            let ghost before = r@;
            r.push(c);
            proof {
                assert forall|m: int| 0 <= m < i + 1 && (#[trigger] comps@[m])@.len() > 1 implies recorded(
                    r@,
                    0,
                    comps@[m]@,
                ) by {
                    if m < i {
                        lemma_recorded_grows(before, r@, 0, 0, comps@[m]@);
                    } else {
                        assert(r@[before.len() as int]@ == comps@[m]@);
                    }
                }
                assert forall|k: int| 0 <= k < r@.len() implies recorded(comps@, 0, (#[trigger] r@[k])@) by {
                    if k < before.len() {
                        assert(r@[k] == before[k]);
                    } else {
                        assert(comps@[i as int]@ == r@[k]@);
                    }
                }
                assert forall|k: int| 0 <= k < r@.len() implies exists|m: int| 0 <= m < i + 1 && #[trigger] comps@[m]@
                    == (#[trigger] r@[k])@ by {
                    if k < before.len() {
                        assert(r@[k] == before[k]);
                        let m = choose|m: int| 0 <= m < i && #[trigger] comps@[m]@ == before[k]@;
                        assert(comps@[m]@ == r@[k]@);
                    } else {
                        assert(comps@[i as int]@ == r@[k]@);
                    }
                }
                assert forall|k1: int, k2: int, x: usize|
                    #![trigger r@[k1]@.contains(x), r@[k2]@.contains(x)]
                    0 <= k1 < k2 < r@.len() && r@[k1]@.contains(x) implies !r@[k2]@.contains(x) by {
                    assert(r@[k1] == before[k1]);
                    if k2 < before.len() {
                        assert(r@[k2] == before[k2]);
                    } else {
                        let m = choose|m: int| 0 <= m < i && #[trigger] comps@[m]@ == before[k1]@;
                        assert(comps@[m]@.contains(x));
                        lemma_flat_disjoint(comps@, m, i as int, x);
                        assert(r@[k2]@ == comps@[i as int]@);
                    }
                }
            }
        }
        i = i + 1;
    }
    r
}

/// Each live class with an edge to itself, as a cycle of one class, in the
/// order of the classes' numbers.
fn self_loops(hgraph: &HyperGraph) -> (r: Vec<Vec<usize>>)
    requires
        hgraph.wf(),
    ensures
        forall|k: int| 0 <= k < r@.len() ==> is_cycle(hgraph, (#[trigger] r@[k])@) && r@[k]@.len() == 1,
        forall|c: Seq<usize>| #[trigger] is_cycle(hgraph, c) && c.len() == 1 ==> has_rotation_of(r@, c),
{
    let mut cycles: Vec<Vec<usize>> = Vec::new();
    let all = hgraph.class_list();
    proof {
        hgraph.lemma_facts();
    }
    let mut i: usize = 0;
    while i < all.len()
        invariant
            hgraph.wf(),
            all@.to_set() == hgraph.live_classes(),
            i <= all@.len(),
            forall|k: int| 0 <= k < cycles@.len() ==> is_cycle(hgraph, (#[trigger] cycles@[k])@) && cycles@[k]@.len() == 1,
            forall|c: Seq<usize>|
                #[trigger] is_cycle(hgraph, c) && c.len() == 1 && all@.subrange(0, i as int).contains(c[0])
                    ==> has_rotation_of(cycles@, c),
        decreases all@.len() - i,
    {
        let n = all[i];
        proof {
            assert(all@.to_set().contains(n));
        }
        let ns = hgraph.neighbors(n);
        let ghost before = cycles@;
        let has_loop = vec_contains(&ns, n);
        if has_loop {
            let mut c: Vec<usize> = Vec::new();
            c.push(n);
            cycles.push(c);
            proof {
                assert forall|k: int| 0 <= k < cycles@.len() implies is_cycle(hgraph, (#[trigger] cycles@[k])@)
                    && cycles@[k]@.len() == 1 by {
                    if k < before.len() {
                        assert(cycles@[k] == before[k]);
                    } else {
                        assert(cycles@[k]@ == seq![n]);
                        assert(cycles@[k]@[0] == n);
                    }
                }
            }
        }
        proof {
            assert forall|c: Seq<usize>|
                #[trigger] is_cycle(hgraph, c) && c.len() == 1 && all@.subrange(0, i + 1).contains(c[0])
                    implies has_rotation_of(cycles@, c) by {
                if c[0] == n {
                    assert(hgraph.linked(c.last(), c[0]));
                    assert(ns@.contains(n));
                    assert(rotation(c, 0) =~= c);
                    assert(c =~= seq![n]);
                    assert(cycles@[before.len() as int]@ == rotation(c, 0));
                } else {
                    let j = choose|j: int| 0 <= j < i + 1 && #[trigger] all@.subrange(0, i + 1)[j] == c[0];
                    assert(all@.subrange(0, i as int)[j] == c[0]);
                    lemma_has_rotation_grows(before, cycles@, c);
                }
            }
        }
        i = i + 1;
    }
    proof {
        assert forall|c: Seq<usize>| #[trigger] is_cycle(hgraph, c) && c.len() == 1 implies has_rotation_of(cycles@, c) by {
            assert(all@.subrange(0, all@.len() as int) =~= all@);
            assert(hgraph.linked(c.last(), c[0]));
            assert(hgraph.live_classes().contains(c[0]));
            assert(all@.to_set().contains(c[0]));
        }
    }
    cycles
}

/// Every class of a cycle of `hgraph` that lies in `cur` has a number in the
/// graph of `cur`.
proof fn lemma_cycle_numbered(hgraph: &HyperGraph, sub: &HyperGraph, cur: Seq<usize>, c: Seq<usize>, j: int)
    requires
        sub.wf(),
        is_cycle(hgraph, c),
        lies_in(c, cur),
        0 <= j < c.len(),
        forall|a: usize, b: usize| #[trigger]
            sub.class_edge(a, b) == if cur.contains(a) && cur.contains(b) {
                hgraph.class_edge(a, b)
            } else {
                None
            },
    ensures
        sub.has_class(c[j]),
        sub.index()[c[j]] < sub.ids().len(),
        sub.ids()[sub.index()[c[j]] as int] == c[j],
{
    sub.lemma_facts();
    let nxt = if j + 1 < c.len() { c[j + 1] } else { c[0] };
    if j + 1 < c.len() {
        assert(link_at(hgraph, c, j));
        assert(cur.contains(c[j + 1]));
    } else {
        assert(cur.contains(c[0]));
    }
    assert(hgraph.linked(c[j], nxt));
    assert(cur.contains(c[j]));
    assert(sub.class_edge(c[j], nxt) is Some);
}

/// A cycle of `hgraph` inside `cur` whose classes all have numbers from `i`
/// on is a cycle of the graph of `cur` once the numbers below `i` are gone.
proof fn lemma_cycle_in_remaining(hgraph: &HyperGraph, sub: &HyperGraph, cur: Seq<usize>, i: int, c: Seq<usize>)
    requires
        is_cycle(hgraph, c),
        lies_in(c, cur),
        forall|j: int| 0 <= j < c.len() ==> sub.index()[#[trigger] c[j]] >= i,
        forall|a: usize, b: usize|
            #[trigger] hgraph.linked(a, b) && cur.contains(a) && cur.contains(b) && sub.index()[a] >= i
                && sub.index()[b] >= i ==> sub.linked(a, b),
    ensures
        is_cycle(sub, c),
{
    assert forall|m: int| 0 <= m < c.len() - 1 implies #[trigger] link_at(sub, c, m) by {
        assert(link_at(hgraph, c, m));
        assert(cur.contains(c[m]) && cur.contains(c[m + 1]));
        assert(sub.index()[c[m]] >= i && sub.index()[c[m + 1]] >= i);
    }
    let n = c.len() - 1;
    assert(cur.contains(c[n]) && cur.contains(c[0]));
    assert(sub.index()[c[n]] >= i && sub.index()[c[0]] >= i);
}

/// The search of one component: from each of its classes in turn, in the
/// order of their numbers in the component's own graph, for the cycles
/// through that class, which is then set aside. Every cycle appended is a
/// cycle of `hgraph`, and afterwards every cycle of more than one class that
/// lies inside the component is in the list, in some rotation.
#[verifier::spinoff_prover]
#[verifier::rlimit(30)]
fn search_component(
    hgraph: &HyperGraph,
    cur: &Vec<usize>,
    blocked: &mut HashSet<usize>,
    stack: &mut Vec<usize>,
    block_map: &mut HashMap<usize, Vec<usize>>,
    cycles: &mut Vec<Vec<usize>>,
)
    requires
        hgraph.wf(),
        forall|j: int| 0 <= j < cur@.len() ==> hgraph.class_is_live(#[trigger] cur@[j]),
        cur@.len() < usize::MAX - 1,
        old(stack)@.len() == 0,
    ensures
        final(stack)@.len() == 0,
        old(cycles)@.len() <= final(cycles)@.len(),
        forall|k: int| 0 <= k < old(cycles)@.len() ==> #[trigger] final(cycles)@[k] == old(cycles)@[k],
        forall|k: int|
            old(cycles)@.len() <= k < final(cycles)@.len() ==> is_cycle(hgraph, (#[trigger] final(cycles)@[k])@),
        forall|c: Seq<usize>|
            #[trigger] is_cycle(hgraph, c) && c.len() > 1 && lies_in(c, cur@) ==> has_rotation_of(final(cycles)@, c),
        forall|k: int|
            old(cycles)@.len() <= k < final(cycles)@.len() ==> lies_in((#[trigger] final(cycles)@[k])@, cur@),
        forall|k1: int, k2: int|
            old(cycles)@.len() <= k1 < final(cycles)@.len() && old(cycles)@.len() <= k2 < final(cycles)@.len() && k1
                != k2 ==> !is_rotation_of((#[trigger] final(cycles)@[k2])@, (#[trigger] final(cycles)@[k1])@),
{
    let ghost cycles0 = cycles@;
    let mut sub = hgraph.subgraph(cur.as_slice());
    let ghost sub0 = sub;
    proof {
        assert forall|a: usize, b: usize| #[trigger] sub.linked(a, b) implies hgraph.linked(a, b) by {
            assert(sub.class_edge(a, b) is Some);
        }
    }
    let mut i: usize = 0;
    while i < cur.len()
        invariant
            hgraph.wf(),
            sub.wf(),
            sub0.wf(),
            edges_within(&sub, hgraph),
            forall|m: usize| #[trigger] sub.live().contains(m) <==> i <= m < sub.ids().len(),
            sub.ids() == sub0.ids(),
            sub.index() == sub0.index(),
            sub0.ids().len() <= cur@.len(),
            forall|a: usize, b: usize| #[trigger]
                sub0.class_edge(a, b) == if cur@.contains(a) && cur@.contains(b) {
                    hgraph.class_edge(a, b)
                } else {
                    None
                },
            forall|a: usize, b: usize|
                #[trigger] hgraph.linked(a, b) && cur@.contains(a) && cur@.contains(b) && sub.index()[a] >= i
                    && sub.index()[b] >= i ==> sub.linked(a, b),
            stack@.len() == 0,
            i <= cur@.len(),
            cycles0 == old(cycles)@,
            cycles0.len() <= cycles@.len(),
            forall|k: int| 0 <= k < cycles0.len() ==> #[trigger] cycles@[k] == cycles0[k],
            forall|k: int| cycles0.len() <= k < cycles@.len() ==> is_cycle(hgraph, (#[trigger] cycles@[k])@),
            forall|c: Seq<usize>|
                #[trigger] is_cycle(hgraph, c) && c.len() > 1 && lies_in(c, cur@) && (exists|j: int|
                    0 <= j < c.len() && sub.index()[#[trigger] c[j]] < i) ==> has_rotation_of(cycles@, c),
            forall|c: usize| #[trigger] sub0.has_class(c) ==> cur@.contains(c),
            forall|k: int|
                cycles0.len() <= k < cycles@.len() ==> lies_in((#[trigger] cycles@[k])@, cur@)
                    && cycles@[k]@.len() > 0 && sub0.index()[cycles@[k]@[0]] < i,
            forall|k1: int, k2: int|
                cycles0.len() <= k1 < cycles@.len() && cycles0.len() <= k2 < cycles@.len() && k1 != k2
                    ==> !is_rotation_of((#[trigger] cycles@[k2])@, (#[trigger] cycles@[k1])@),
        decreases cur@.len() - i,
    {
        blocked.clear();
        block_map.clear();
        if i < sub.node_count() {
            let v = sub.get_id_by_node(i);
            proof {
                sub.lemma_facts();
                assert(sub.has_class(v));
                assert(sub.index()[v] == i);
                assert(sub.live().contains(i));
                let q = stack@.push(v);
                assert(q =~= seq![v]);
                assert(is_path(&sub, q));
                assert(stack@.to_set() =~= Set::<usize>::empty());
                assert(blocked@ =~= stack@.to_set());
            }
            let ghost before = cycles@;
            let ghost stack0 = stack@;
            johnson_alg_impl(v, v, &sub, blocked, stack, block_map, cycles);
            proof {
                assert forall|k: int| cycles0.len() <= k < cycles@.len() implies is_cycle(hgraph, (#[trigger] cycles@[k])@) by {
                    if k < before.len() {
                        assert(cycles@[k] == before[k]);
                    } else {
                        lemma_cycle_within(&sub, hgraph, cycles@[k]@);
                    }
                }
                assert forall|k: int| 0 <= k < cycles0.len() implies #[trigger] cycles@[k] == cycles0[k] by {
                    assert(cycles@[k] == before[k]);
                }
                sub.lemma_facts();
                assert forall|kk: int, j: int| before.len() <= kk < cycles@.len() && 0 <= j < cycles@[kk]@.len()
                    implies cur@.contains(#[trigger] cycles@[kk]@[j]) && sub0.index()[cycles@[kk]@[j]] >= i by {
                    lemma_path_bound(&sub, cycles@[kk]@);
                    assert(sub.class_is_live(cycles@[kk]@[j]));
                    assert(sub0.has_class(cycles@[kk]@[j]));
                }
                assert forall|kk: int|
                    cycles0.len() <= kk < cycles@.len() implies lies_in((#[trigger] cycles@[kk])@, cur@)
                        && cycles@[kk]@.len() > 0 && sub0.index()[cycles@[kk]@[0]] < i + 1 by {
                    if kk < before.len() {
                        assert(cycles@[kk] == before[kk]);
                    } else {
                        assert(cycles@[kk]@[0] == v);
                    }
                }
                assert forall|k1: int, k2: int|
                    cycles0.len() <= k1 < cycles@.len() && cycles0.len() <= k2 < cycles@.len() && k1 != k2
                        implies !is_rotation_of((#[trigger] cycles@[k2])@, (#[trigger] cycles@[k1])@) by {
                    let e1 = cycles@[k1]@;
                    let e2 = cycles@[k2]@;
                    if is_rotation_of(e2, e1) {
                        let t = choose|t: int| 0 <= t < e1.len() && rotation(e1, t) == e2;
                        lemma_rotation_at(e1, t);
                        if k1 < before.len() && k2 < before.len() {
                            assert(cycles@[k1] == before[k1]);
                            assert(cycles@[k2] == before[k2]);
                        } else if k1 < before.len() {
                            assert(cycles@[k1] == before[k1]);
                            let m = if t == 0 { 0 } else { e1.len() - t };
                            assert(e2[m] == e1[0]);
                        } else if k2 < before.len() {
                            assert(cycles@[k2] == before[k2]);
                            assert(e2[0] == e1[t]);
                        } else {
                            assert(e1[0] == v && e2[0] == v);
                            lemma_rotation_same_start(e1, t);
                            if k1 < k2 {
                                assert(e1 != e2);
                            } else {
                                assert(e2 != e1);
                            }
                        }
                    }
                }
                assert forall|c: Seq<usize>|
                    #[trigger] is_cycle(hgraph, c) && c.len() > 1 && lies_in(c, cur@) && (exists|j: int|
                        0 <= j < c.len() && sub.index()[#[trigger] c[j]] < i + 1) implies has_rotation_of(cycles@, c) by {
                    if exists|j: int| 0 <= j < c.len() && sub.index()[#[trigger] c[j]] < i {
                        lemma_has_rotation_grows(before, cycles@, c);
                    } else {
                        let t = choose|j: int| 0 <= j < c.len() && sub.index()[#[trigger] c[j]] < i + 1;
                        lemma_cycle_numbered(hgraph, &sub0, cur@, c, t);
                        assert(c[t] == v);
                        lemma_rotation(hgraph, c, t);
                        let r = rotation(c, t);
                        let n = c.len() as int;
                        assert forall|m: int| 0 <= m < r.len() implies cur@.contains(#[trigger] r[m]) && sub.index()[r[m]] >= i by {
                            let x = if m < n - t { m + t } else { m + t - n };
                            assert(r[m] == c[x]);
                        }
                        lemma_cycle_in_remaining(hgraph, &sub, cur@, i as int, r);
                        assert(r.subrange(0, 1) =~= stack0.push(v));
                        assert(closes_from(&sub, stack0.push(v), r));
                        lemma_recorded_grows(cycles@, cycles@, before.len() as int, 0, r);
                    }
                }
            }
            let ghost sub1 = sub;
            sub.remove_node_raw(i);
            proof {
                assert forall|a: usize, b: usize| #[trigger] sub.linked(a, b) implies hgraph.linked(a, b) by {
                    let ia = sub.index()[a];
                    let ib = sub.index()[b];
                    assert(sub.edge(ia, ib) is Some);
                    assert(sub1.edge(ia, ib) is Some);
                    assert(sub1.linked(a, b));
                }
                assert forall|m: usize| #[trigger] sub.live().contains(m) <==> i + 1 <= m < sub.ids().len() by {
                    assert(sub.live().contains(m) <==> sub1.live().contains(m) && m != i);
                }
                assert forall|a: usize, b: usize|
                    #[trigger] hgraph.linked(a, b) && cur@.contains(a) && cur@.contains(b) && sub.index()[a] >= i + 1
                        && sub.index()[b] >= i + 1 implies sub.linked(a, b) by {
                    assert(sub1.linked(a, b));
                    let ia = sub.index()[a];
                    let ib = sub.index()[b];
                    assert(sub.edge(ia, ib) == sub1.edge(ia, ib));
                }
            }
        } else {
            proof {
                sub.lemma_facts();
                assert forall|c: Seq<usize>|
                    #[trigger] is_cycle(hgraph, c) && c.len() > 1 && lies_in(c, cur@) && (exists|j: int|
                        0 <= j < c.len() && sub.index()[#[trigger] c[j]] < i + 1) implies has_rotation_of(cycles@, c) by {
                    let t = choose|j: int| 0 <= j < c.len() && sub.index()[#[trigger] c[j]] < i + 1;
                    lemma_cycle_numbered(hgraph, &sub0, cur@, c, t);
                }
                assert forall|m: usize| #[trigger] sub.live().contains(m) <==> i + 1 <= m < sub.ids().len() by {
                }
                assert forall|a: usize, b: usize|
                    #[trigger] hgraph.linked(a, b) && cur@.contains(a) && cur@.contains(b) && sub.index()[a] >= i + 1
                        && sub.index()[b] >= i + 1 implies sub.linked(a, b) by {
                }
            }
        }
        i = i + 1;
    }
    proof {
        assert forall|c: Seq<usize>| #[trigger] is_cycle(hgraph, c) && c.len() > 1 && lies_in(c, cur@) implies has_rotation_of(
            cycles@,
            c,
        ) by {
            lemma_cycle_numbered(hgraph, &sub0, cur@, c, 0);
            assert(sub.index()[c[0]] < i);
        }
    }
}

/// The elementary cycles of the graph: every class with an edge to itself,
/// then the cycles that the search finds in each strongly connected
/// component of more than one class, starting from each class of the
/// component in turn and then setting it aside. Each cycle returned is an
/// elementary cycle of the graph, every elementary cycle of the graph is
/// returned in some rotation, and a cycle of more than one class is returned
/// once: no other entry is a rotation of it. (A class with an edge to itself
/// inside a larger component is listed by both passes.)
#[verifier::spinoff_prover]
pub fn find_cycles(hgraph: &HyperGraph) -> (r: Vec<Vec<usize>>)
    requires
        hgraph.wf(),
        hgraph.ids().len() < usize::MAX - 1,
    ensures
        forall|k: int| 0 <= k < r@.len() ==> is_cycle(hgraph, (#[trigger] r@[k])@),
        forall|c: Seq<usize>| #[trigger] is_cycle(hgraph, c) ==> has_rotation_of(r@, c),
        forall|k1: int, k2: int|
            0 <= k1 < r@.len() && 0 <= k2 < r@.len() && k1 != k2 && (#[trigger] r@[k1])@.len() > 1
                ==> !is_rotation_of((#[trigger] r@[k2])@, r@[k1]@),
{
    let comps = scc(hgraph);
    proof {
        hgraph.lemma_facts();
    }
    let mut sccs = nontrivial_components(&comps);
    let mut cycles = self_loops(hgraph);
    proof {
        assert forall|c: Seq<usize>| #[trigger] is_cycle(hgraph, c) implies has_rotation_of(cycles@, c) || (c.len() > 1
            && pending(sccs@, c[0])) by {
            if c.len() > 1 {
                assert(hgraph.linked(c.last(), c[0]));
                assert(hgraph.live_classes().contains(c[0]));
                assert(flat(comps@).to_set().contains(c[0]));
                let m = lemma_flat_member(comps@, c[0]);
                lemma_cycle_in_component(hgraph, comps@, m, c);
                let comp = comps@[m]@;
                assert(comp.contains(c[1]));
                assert(comp.len() > 1) by {
                    if comp.len() <= 1 {
                        let a = choose|a: int| 0 <= a < comp.len() && comp[a] == c[0];
                        let b = choose|b: int| 0 <= b < comp.len() && comp[b] == c[1];
                        assert(a == b);
                    }
                }
                assert(recorded(sccs@, 0, comps@[m]@));
                let k = choose|k: int| 0 <= k < sccs@.len() && (#[trigger] sccs@[k])@ == comps@[m]@;
                assert(sccs@[k]@.contains(c[0]));
            }
        }
    }
    let mut blocked: HashSet<usize> = HashSet::new();
    let mut block_map: HashMap<usize, Vec<usize>> = HashMap::new();
    let mut stack: Vec<usize> = Vec::new();
    while !sccs.is_empty()
        invariant
            hgraph.wf(),
            hgraph.ids().len() < usize::MAX - 1,
            hgraph.live_classes().len() <= hgraph.ids().len(),
            hgraph.live_classes().finite(),
            flat(comps@).no_duplicates(),
            flat(comps@).to_set() == hgraph.live_classes(),
            forall|i: int, j: int, x: usize, y: usize|
                #![trigger comps@[i]@.contains(x), comps@[j]@.contains(y)]
                0 <= i < comps@.len() && 0 <= j < comps@.len() && comps@[i]@.contains(x) && comps@[j]@.contains(y)
                    && reaches(hgraph, x, y) && reaches(hgraph, y, x) ==> i == j,
            forall|k: int| 0 <= k < sccs@.len() ==> recorded(comps@, 0, (#[trigger] sccs@[k])@),
            forall|k: int| 0 <= k < cycles@.len() ==> is_cycle(hgraph, (#[trigger] cycles@[k])@),
            forall|c: Seq<usize>| #[trigger]
                is_cycle(hgraph, c) ==> has_rotation_of(cycles@, c) || (c.len() > 1 && pending(sccs@, c[0])),
            stack@.len() == 0,
            forall|k1: int, k2: int, x: usize|
                #![trigger sccs@[k1]@.contains(x), sccs@[k2]@.contains(x)]
                0 <= k1 < k2 < sccs@.len() && sccs@[k1]@.contains(x) ==> !sccs@[k2]@.contains(x),
            forall|k: int, j: int|
                0 <= k < cycles@.len() && cycles@[k]@.len() > 1 && 0 <= j < cycles@[k]@.len()
                    ==> !pending(sccs@, #[trigger] cycles@[k]@[j]),
            forall|k1: int, k2: int|
                0 <= k1 < cycles@.len() && 0 <= k2 < cycles@.len() && k1 != k2 && (#[trigger] cycles@[k1])@.len() > 1
                    ==> !is_rotation_of((#[trigger] cycles@[k2])@, cycles@[k1]@),
        decreases sccs@.len(),
    {
        let ghost pre = sccs@;
        let cur = sccs.pop().unwrap();
        let ghost m = choose|m: int| 0 <= m < comps@.len() && (#[trigger] comps@[m])@ == cur@;
        proof {
            assert(cur == pre[pre.len() - 1]);
            assert(recorded(comps@, 0, pre[pre.len() - 1]@));
            assert(0 <= m < comps@.len() && comps@[m]@ == cur@);
            lemma_flat_parts(comps@, m);
            assert forall|j: int| 0 <= j < cur@.len() implies hgraph.class_is_live(#[trigger] cur@[j]) by {
                assert(flat(comps@).contains(comps@[m]@[j]));
                assert(flat(comps@).to_set().contains(cur@[j]));
            }
            assert forall|k: int| 0 <= k < sccs@.len() implies recorded(comps@, 0, (#[trigger] sccs@[k])@) by {
                assert(sccs@[k] == pre[k]);
            }
            cur@.unique_seq_to_set();
            assert forall|c: usize| cur@.to_set().contains(c) implies hgraph.live_classes().contains(c) by {
                let j = choose|j: int| 0 <= j < cur@.len() && cur@[j] == c;
                assert(hgraph.class_is_live(cur@[j]));
            }
            vstd::set_lib::lemma_len_subset(cur@.to_set(), hgraph.live_classes());
        }
        let ghost before = cycles@;
        search_component(hgraph, &cur, &mut blocked, &mut stack, &mut block_map, &mut cycles);
        proof {
            assert forall|k: int| 0 <= k < cycles@.len() implies is_cycle(hgraph, (#[trigger] cycles@[k])@) by {
                if k < before.len() {
                    assert(cycles@[k] == before[k]);
                }
            }
            assert forall|c: Seq<usize>| #[trigger] is_cycle(hgraph, c) implies has_rotation_of(cycles@, c) || (c.len()
                > 1 && pending(sccs@, c[0])) by {
                if has_rotation_of(before, c) {
                    lemma_has_rotation_grows(before, cycles@, c);
                } else {
                    let k = choose|k: int| 0 <= k < pre.len() && (#[trigger] pre[k])@.contains(c[0]);
                    if k < pre.len() - 1 {
                        assert(sccs@[k] == pre[k]);
                    } else {
                        lemma_cycle_in_component(hgraph, comps@, m, c);
                    }
                }
            }
            let last = pre.len() - 1;
            assert(pre[last] == cur);
            assert forall|k1: int, k2: int, x: usize|
                #![trigger sccs@[k1]@.contains(x), sccs@[k2]@.contains(x)]
                0 <= k1 < k2 < sccs@.len() && sccs@[k1]@.contains(x) implies !sccs@[k2]@.contains(x) by {
                assert(sccs@[k1] == pre[k1] && sccs@[k2] == pre[k2]);
                assert(pre[k1]@.contains(x));
            }
            assert forall|k: int, j: int|
                0 <= k < cycles@.len() && cycles@[k]@.len() > 1 && 0 <= j < cycles@[k]@.len()
                    implies !pending(sccs@, #[trigger] cycles@[k]@[j]) by {
                let x = cycles@[k]@[j];
                if pending(sccs@, x) {
                    let kk = choose|kk: int| 0 <= kk < sccs@.len() && (#[trigger] sccs@[kk])@.contains(x);
                    assert(sccs@[kk] == pre[kk]);
                    assert(pre[kk]@.contains(x));
                    if k < before.len() {
                        assert(cycles@[k] == before[k]);
                        assert(pending(pre, x));
                    } else {
                        assert(cur@.contains(x));
                        assert(pre[last]@.contains(x));
                    }
                }
            }
            assert forall|k1: int, k2: int|
                0 <= k1 < cycles@.len() && 0 <= k2 < cycles@.len() && k1 != k2 && (#[trigger] cycles@[k1])@.len() > 1
                    implies !is_rotation_of((#[trigger] cycles@[k2])@, cycles@[k1]@) by {
                let e1 = cycles@[k1]@;
                let e2 = cycles@[k2]@;
                if is_rotation_of(e2, e1) {
                    let t = choose|t: int| 0 <= t < e1.len() && rotation(e1, t) == e2;
                    lemma_rotation_at(e1, t);
                    if k1 < before.len() && k2 < before.len() {
                        assert(cycles@[k1] == before[k1]);
                        assert(cycles@[k2] == before[k2]);
                    } else if k1 < before.len() {
                        assert(cycles@[k1] == before[k1]);
                        let mm = if t == 0 { 0 } else { e1.len() - t };
                        assert(e2[mm] == e1[0]);
                        assert(cur@.contains(e1[0]));
                        assert(pre[last]@.contains(e1[0]));
                        assert(pending(pre, before[k1]@[0]));
                    } else if k2 < before.len() {
                        assert(cycles@[k2] == before[k2]);
                        assert(e2[0] == e1[t]);
                        assert(cur@.contains(e1[t]));
                        assert(pre[last]@.contains(e2[0]));
                        assert(pending(pre, before[k2]@[0]));
                    }
                }
            }
        }
    }
    cycles
}

} // verus!
