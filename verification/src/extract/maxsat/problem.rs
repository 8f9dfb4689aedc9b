//! The MaxSAT problem of an extraction: a variable for each e-node, hard
//! clauses that make a choice for each root and for a child class of each
//! chosen e-node, hard clauses that rule out the cycles of the class graph,
//! and soft clauses that weigh each chosen e-node.
use vstd::prelude::*;
use crate::extract::faster_ilp_cbc::{
    choice_acyclic, chosen_edge, choices_in_range, closed_set, closed_under_choice, find_cycles_in_result, has_child,
    needed, needed_all_chosen, ranked, reachable, reaches_class,
};
use crate::extract::indexed_egraph::IndexedEGraph;
use crate::extract::ExtractionResult;
use super::cycles::johnson::{find_cycles, has_rotation_of, is_cycle};
use super::cycles::{copy_vec, enode_vars, induced_edge, lemma_range_finite, merge_edge, to_hypergraph, HyperGraph};
use super::{
    append_decimal, append_text, clause_line, count_long, decimal, join_decimals, join_numbers, lemma_counts_grow, signed_decimal,
    tseytin_clause_count, tseytin_defs, tseytin_encoding, tseytin_items, ProblemWriter,
};

verus! {

/// The number of e-nodes listed in the classes before class `c`.
pub open spec fn class_offset(g: &IndexedEGraph, c: int) -> nat
    decreases c,
{
    if c <= 0 {
        0
    } else {
        class_offset(g, c - 1) + g.class_nodes@[c - 1]@.len()
    }
}

/// The number of e-nodes listed in all the classes.
pub open spec fn total_nodes(g: &IndexedEGraph) -> nat {
    class_offset(g, g.class_nodes@.len() as int)
}

/// Every e-node is listed once, in its own class.
pub open spec fn lists_each_node_once(g: &IndexedEGraph) -> bool {
    &&& forall|c: int| 0 <= c < g.class_nodes@.len() ==> (#[trigger] g.class_nodes@[c])@.no_duplicates()
    &&& forall|n: int|
        0 <= n < g.node_class@.len() ==> #[trigger] g.class_nodes@[g.node_class@[n] as int]@.contains(
            n as usize,
        )
}

/// Whether every e-node is listed once, in its own class.
pub fn lists_nodes_once(g: &IndexedEGraph) -> (b: bool)
    requires
        g.wf(),
    ensures
        b == lists_each_node_once(g),
{
    let nodes = g.node_class.len();
    let mut seen: Vec<bool> = Vec::new();
    while seen.len() < nodes
        invariant
            seen@.len() <= nodes,
            forall|m: int| 0 <= m < seen@.len() ==> !seen@[m],
        decreases nodes - seen@.len(),
    {
        seen.push(false);
    }
    let mut c: usize = 0;
    while c < g.class_nodes.len()
        invariant
            g.wf(),
            nodes == g.node_class@.len(),
            seen@.len() == nodes,
            c <= g.class_nodes@.len(),
            forall|d: int| 0 <= d < c ==> (#[trigger] g.class_nodes@[d])@.no_duplicates(),
            forall|m: int|
                0 <= m < nodes ==> (#[trigger] seen@[m] <==> g.node_class@[m] < c && g.class_nodes@[g.node_class@[m] as int]@.contains(
                    m as usize,
                )),
        decreases g.class_nodes@.len() - c,
    {
        let members = &g.class_nodes[c];
        let mut k: usize = 0;
        while k < members.len()
            invariant
                g.wf(),
                nodes == g.node_class@.len(),
                seen@.len() == nodes,
                c < g.class_nodes@.len(),
                members@ == g.class_nodes@[c as int]@,
                k <= members@.len(),
                members@.take(k as int).no_duplicates(),
                forall|m: int|
                    0 <= m < nodes ==> (#[trigger] seen@[m] <==> (g.node_class@[m] < c && g.class_nodes@[g.node_class@[m] as int]@.contains(
                        m as usize,
                    )) || (g.node_class@[m] == c && members@.take(k as int).contains(m as usize))),
            decreases members@.len() - k,
        {
            let n = members[k];
            assert(n < nodes && g.node_class@[n as int] == c) by {
                assert(g.class_nodes@[c as int]@[k as int] == n);
            }
            if seen[n] {
                proof {
                    assert(members@.take(k as int).contains(n));
                    let q = members@.take(k as int).index_of(n);
                    assert(members@[q] == n && members@[k as int] == n && q != k);
                    assert(!g.class_nodes@[c as int]@.no_duplicates());
                }
                return false;
            }
            let ghost before = seen@;
            seen.set(n, true);
            proof {
                let t = members@.take(k as int);
                let t1 = members@.take(k + 1);
                assert(t1 =~= t.push(n));
                assert forall|a: int, b2: int| 0 <= a < t1.len() && 0 <= b2 < t1.len() && a != b2 implies t1[a] != t1[b2] by {
                    if a == k as int {
                        assert(!t.contains(t1[b2]) || t1[b2] != n);
                        if t1[b2] == n {
                            assert(t.contains(n));
                            assert(before[n as int]);
                        }
                    } else if b2 == k as int {
                        if t1[a] == n {
                            assert(t.contains(n));
                            assert(before[n as int]);
                        }
                    } else {
                        assert(t[a] != t[b2]);
                    }
                }
                assert forall|m: int|
                    0 <= m < nodes implies (#[trigger] seen@[m] <==> (g.node_class@[m] < c && g.class_nodes@[g.node_class@[m] as int]@.contains(
                        m as usize,
                    )) || (g.node_class@[m] == c && t1.contains(m as usize))) by {
                    if t.contains(m as usize) {
                        let q = t.index_of(m as usize);
                        assert(t1[q] == m as usize);
                    }
                    if t1.contains(m as usize) && m != n as int {
                        let q = t1.index_of(m as usize);
                        assert(q != k as int);
                        assert(t[q] == m as usize);
                    }
                    if m == n as int {
                        assert(t1[k as int] == n);
                    }
                }
            }
            k = k + 1;
        }
        proof {
            assert(members@.take(members@.len() as int) =~= members@);
        }
        c = c + 1;
    }
    let mut m: usize = 0;
    while m < nodes
        invariant
            g.wf(),
            nodes == g.node_class@.len(),
            seen@.len() == nodes,
            m <= nodes,
            forall|d: int| 0 <= d < g.class_nodes@.len() ==> (#[trigger] g.class_nodes@[d])@.no_duplicates(),
            forall|q: int|
                0 <= q < nodes ==> (#[trigger] seen@[q] <==> g.class_nodes@[g.node_class@[q] as int]@.contains(q as usize)),
            forall|q: int| 0 <= q < m ==> #[trigger] seen@[q],
        decreases nodes - m,
    {
        if !seen[m] {
            return false;
        }
        m = m + 1;
    }
    proof {
        assert forall|q: int| 0 <= q < g.node_class@.len() implies #[trigger] g.class_nodes@[g.node_class@[q] as int]@.contains(
            q as usize,
        ) by {
            assert(seen@[q]);
        }
    }
    true
}


/// Whether the counts of a problem for `g` written after what `writer`
/// holds stay within the room that `create_problem` asks for.
pub fn fits_in_room(g: &IndexedEGraph, writer: &ProblemWriter) -> (b: bool)
    requires
        g.wf(),
    ensures
        b == (g.num_classes() + 2 <= usize::MAX && writer.num_vars() + total_nodes(g) <= cycle_room()
            && writer.num_clauses() <= cycle_room() && g.roots@.len() + child_count(
            g,
            g.class_nodes@.len() as int,
        ) + total_nodes(g) <= cycle_room()),
{
    let room: usize = usize::MAX / 2;
    let classes = g.class_nodes.len();
    if classes > usize::MAX - 2 || writer.clause_count() > room {
        return false;
    }
    let mut total: usize = 0;
    let mut kids: usize = 0;
    let mut c: usize = 0;
    while c < classes
        invariant
            g.wf(),
            classes == g.class_nodes@.len(),
            c <= classes,
            room == cycle_room(),
            total == class_offset(g, c as int),
            kids == child_count(g, c as int),
            total <= room,
            kids <= room,
        decreases classes - c,
    {
        let members = &g.class_nodes[c];
        if members.len() > room - total {
            proof {
                lemma_offset_grows(g, c + 1, classes as int);
            }
            return false;
        }
        let mut k: usize = 0;
        let mut here: usize = 0;
        while k < members.len()
            invariant
                g.wf(),
                c < classes,
                classes == g.class_nodes@.len(),
                members@ == g.class_nodes@[c as int]@,
                k <= members@.len(),
                room == cycle_room(),
                kids == child_count(g, c as int),
                kids <= room,
                here == class_child_count(g, c, k as int),
                kids + here <= room,
            decreases members@.len() - k,
        {
            let n = members[k];
            assert(n < g.node_children@.len()) by {
                assert(g.class_nodes@[c as int]@[k as int] == n);
            }
            assert(g.member(c, k as int) == n);
            let more = g.node_children[n].len();
            if more > room - kids - here {
                proof {
                    lemma_class_child_count_grows(g, c, k + 1, members@.len() as int);
                    lemma_child_count_grows(g, c + 1, classes as int);
                }
                return false;
            }
            here = here + more;
            k = k + 1;
        }
        total = total + members.len();
        kids = kids + here;
        c = c + 1;
    }
    let roots = g.roots.len();
    roots <= room && kids <= room - roots && total <= room - roots - kids && writer.var_count() <= room
        && total <= room - writer.var_count()
}

/// `vars` numbers the e-nodes class by class, in the order in which the
/// classes list them, from `base + 1`.
pub open spec fn numbered_vars(g: &IndexedEGraph, base: nat, vars: Seq<usize>) -> bool {
    &&& vars.len() == g.node_class@.len()
    &&& forall|c: int, k: int|
        0 <= c < g.class_nodes@.len() && 0 <= k < g.class_nodes@[c]@.len() ==> vars[#[trigger] g.class_nodes@[c]@[k] as int]
            == base + class_offset(g, c) + k + 1
}

/// The offsets grow with the classes.
pub(crate) proof fn lemma_offset_grows(g: &IndexedEGraph, c: int, d: int)
    requires
        0 <= c <= d <= g.class_nodes@.len(),
    ensures
        class_offset(g, c) <= class_offset(g, d),
        c < d ==> class_offset(g, c) + g.class_nodes@[c]@.len() <= class_offset(g, d),
    decreases d - c,
{
    if c < d {
        lemma_offset_grows(g, c, d - 1);
    }
}

/// Hands out a variable for each e-node, class by class.
fn number_vars(egraph: &IndexedEGraph, writer: &mut ProblemWriter) -> (vars: Vec<usize>)
    requires
        egraph.wf(),
        lists_each_node_once(egraph),
        old(writer).num_vars() + total_nodes(egraph) <= usize::MAX,
    ensures
        numbered_vars(egraph, old(writer).num_vars(), vars@),
        final(writer).num_vars() == old(writer).num_vars() + total_nodes(egraph),
        final(writer).num_clauses() == old(writer).num_clauses(),
        final(writer).problem_text() == old(writer).problem_text(),
        final(writer).parameters_text() == old(writer).parameters_text(),
        final(writer).path_text() == old(writer).path_text(),
{
    let ghost base = writer.num_vars();
    let n_nodes = egraph.node_class.len();
    let mut vars: Vec<usize> = Vec::new();
    while vars.len() < n_nodes
        invariant
            vars@.len() <= n_nodes,
        decreases n_nodes - vars@.len(),
    {
        vars.push(0);
    }
    let n_classes = egraph.class_nodes.len();
    let mut c: usize = 0;
    while c < n_classes
        invariant
            egraph.wf(),
            lists_each_node_once(egraph),
            n_classes == egraph.class_nodes@.len(),
            n_nodes == egraph.node_class@.len(),
            c <= n_classes,
            vars@.len() == n_nodes,
            base + total_nodes(egraph) <= usize::MAX,
            writer.num_vars() == base + class_offset(egraph, c as int),
            writer.num_clauses() == old(writer).num_clauses(),
            writer.problem_text() == old(writer).problem_text(),
            writer.parameters_text() == old(writer).parameters_text(),
            writer.path_text() == old(writer).path_text(),
            forall|c2: int, k2: int|
                0 <= c2 < c && 0 <= k2 < egraph.class_nodes@[c2]@.len() ==> vars@[#[trigger] egraph.class_nodes@[c2]@[k2] as int]
                    == base + class_offset(egraph, c2) + k2 + 1,
        decreases n_classes - c,
    {
        let members = &egraph.class_nodes[c];
        let mut k: usize = 0;
        proof {
            lemma_offset_grows(egraph, c as int, n_classes as int);
        }
        while k < members.len()
            invariant
                egraph.wf(),
                lists_each_node_once(egraph),
                n_classes == egraph.class_nodes@.len(),
                n_nodes == egraph.node_class@.len(),
                c < n_classes,
                members == egraph.class_nodes@[c as int],
                k <= members@.len(),
                vars@.len() == n_nodes,
                base + class_offset(egraph, c as int) + members@.len() <= usize::MAX,
                writer.num_vars() == base + class_offset(egraph, c as int) + k,
                writer.num_clauses() == old(writer).num_clauses(),
                writer.problem_text() == old(writer).problem_text(),
                writer.parameters_text() == old(writer).parameters_text(),
                writer.path_text() == old(writer).path_text(),
                forall|c2: int, k2: int|
                    0 <= c2 < c && 0 <= k2 < egraph.class_nodes@[c2]@.len() ==> vars@[#[trigger] egraph.class_nodes@[c2]@[k2] as int]
                        == base + class_offset(egraph, c2) + k2 + 1,
                forall|k2: int| 0 <= k2 < k ==> vars@[#[trigger] members@[k2] as int] == base + class_offset(egraph, c as int) + k2 + 1,
            decreases members@.len() - k,
        {
            let n = members[k];
            proof {
                assert(egraph.node_class@[n as int] == c);
            }
            let v = writer.new_var();
            let ghost before = vars@;
            vars.set(n, v);
            proof {
                assert forall|c2: int, k2: int|
                    0 <= c2 < c && 0 <= k2 < egraph.class_nodes@[c2]@.len() implies vars@[#[trigger] egraph.class_nodes@[c2]@[k2] as int]
                        == base + class_offset(egraph, c2) + k2 + 1 by {
                    let m = egraph.class_nodes@[c2]@[k2];
                    assert(egraph.node_class@[m as int] == c2);
                    assert(m != n);
                }
                assert forall|k2: int| 0 <= k2 < k + 1 implies vars@[#[trigger] members@[k2] as int] == base + class_offset(egraph, c as int) + k2 + 1 by {
                    if k2 < k {
                        assert(egraph.class_nodes@[c as int]@.no_duplicates());
                        assert(members@[k2] != members@[k as int]);
                    }
                }
            }
            k = k + 1;
        }
        c = c + 1;
    }
    vars
}

/// The variables of the e-nodes of class `c`, in the order the class lists
/// them.
pub open spec fn class_vars(g: &IndexedEGraph, vars: Seq<usize>, c: int) -> Seq<usize> {
    g.class_nodes@[c]@.map_values(|n: usize| vars[n as int])
}

/// A space and the numeral of each variable of `vs`.
pub open spec fn spaced_decimals(vs: Seq<usize>) -> Seq<char>
    decreases vs.len(),
{
    if vs.len() == 0 {
        Seq::empty()
    } else {
        spaced_decimals(vs.drop_last()) + seq![' '] + decimal(vs.last() as nat)
    }
}

/// The clause that a chosen e-node `n` needs a chosen e-node in the class of
/// its `j`-th child: the negated variable of `n`, then the variables of
/// that class.
pub open spec fn child_clause(g: &IndexedEGraph, vars: Seq<usize>, n: usize, j: int) -> Seq<char> {
    seq!['-'] + decimal(vars[n as int] as nat) + spaced_decimals(class_vars(g, vars, g.child_class(n, j) as int))
}

/// The number of children of e-node `n`.
pub open spec fn num_children(g: &IndexedEGraph, n: usize) -> nat {
    g.node_children@[n as int]@.len()
}

/// The hard clause lines for the first `j` children of e-node `n`.
pub open spec fn node_child_lines(g: &IndexedEGraph, vars: Seq<usize>, top: int, n: usize, j: int) -> Seq<char>
    decreases j,
{
    if j <= 0 {
        Seq::empty()
    } else {
        node_child_lines(g, vars, top, n, j - 1) + clause_line(top, child_clause(g, vars, n, j - 1))
    }
}

/// The hard clause lines for the children of the first `k` e-nodes of
/// class `c`.
pub open spec fn class_child_lines(g: &IndexedEGraph, vars: Seq<usize>, top: int, c: usize, k: int) -> Seq<char>
    decreases k,
{
    if k <= 0 {
        Seq::empty()
    } else {
        let n = g.member(c, k - 1);
        class_child_lines(g, vars, top, c, k - 1) + node_child_lines(g, vars, top, n, num_children(g, n) as int)
    }
}

/// The number of children of the first `k` e-nodes of class `c`.
pub open spec fn class_child_count(g: &IndexedEGraph, c: usize, k: int) -> nat
    decreases k,
{
    if k <= 0 {
        0
    } else {
        class_child_count(g, c, k - 1) + num_children(g, g.member(c, k - 1))
    }
}

/// The hard clause lines for the children of every e-node of the first `c`
/// classes.
pub open spec fn child_lines(g: &IndexedEGraph, vars: Seq<usize>, top: int, c: int) -> Seq<char>
    decreases c,
{
    if c <= 0 {
        Seq::empty()
    } else {
        child_lines(g, vars, top, c - 1) + class_child_lines(
            g,
            vars,
            top,
            (c - 1) as usize,
            g.class_nodes@[c - 1]@.len() as int,
        )
    }
}

/// The number of children of every e-node of the first `c` classes.
pub open spec fn child_count(g: &IndexedEGraph, c: int) -> nat
    decreases c,
{
    if c <= 0 {
        0
    } else {
        child_count(g, c - 1) + class_child_count(g, (c - 1) as usize, g.class_nodes@[c - 1]@.len() as int)
    }
}

/// The hard clause lines that ask for a chosen e-node in each of the first
/// `i` roots.
pub open spec fn root_lines(g: &IndexedEGraph, vars: Seq<usize>, top: int, i: int) -> Seq<char>
    decreases i,
{
    if i <= 0 {
        Seq::empty()
    } else {
        root_lines(g, vars, top, i - 1) + clause_line(top, join_decimals(class_vars(g, vars, g.roots@[i - 1] as int)))
    }
}

/// The counts of children grow with the classes.
proof fn lemma_child_count_grows(g: &IndexedEGraph, c: int, d: int)
    requires
        0 <= c <= d <= g.class_nodes@.len(),
    ensures
        child_count(g, c) <= child_count(g, d),
    decreases d - c,
{
    if c < d {
        lemma_child_count_grows(g, c, d - 1);
    }
}

/// The counts of children within a class grow with its e-nodes.
proof fn lemma_class_child_count_grows(g: &IndexedEGraph, c: usize, k: int, l: int)
    requires
        0 <= k <= l,
    ensures
        class_child_count(g, c, k) <= class_child_count(g, c, l),
    decreases l - k,
{
    if k < l {
        lemma_class_child_count_grows(g, c, k, l - 1);
    }
}

/// The variables of the e-nodes of class `c`.
fn vars_of_class(egraph: &IndexedEGraph, vars: &Vec<usize>, c: usize) -> (r: Vec<usize>)
    requires
        egraph.wf(),
        vars@.len() == egraph.node_class@.len(),
        c < egraph.class_nodes@.len(),
    ensures
        r@ == class_vars(egraph, vars@, c as int),
{
    let members = &egraph.class_nodes[c];
    let mut r: Vec<usize> = Vec::new();
    let mut k: usize = 0;
    while k < members.len()
        invariant
            egraph.wf(),
            vars@.len() == egraph.node_class@.len(),
            c < egraph.class_nodes@.len(),
            members == egraph.class_nodes@[c as int],
            k <= members@.len(),
            r@ == members@.subrange(0, k as int).map_values(|n: usize| vars@[n as int]),
        decreases members@.len() - k,
    {
        let n = members[k];
        proof {
            assert(n < egraph.node_class@.len());
        }
        r.push(vars[n]);
        proof {
            assert(members@.subrange(0, k + 1).map_values(|n: usize| vars@[n as int]) =~= members@.subrange(
                0,
                k as int,
            ).map_values(|n: usize| vars@[n as int]).push(vars@[n as int]));
        }
        k = k + 1;
    }
    proof {
        assert(members@.subrange(0, k as int) =~= members@);
    }
    r
}

/// The text of `child_clause`.
fn child_clause_text(egraph: &IndexedEGraph, vars: &Vec<usize>, n: usize, j: usize) -> (r: String)
    requires
        egraph.wf(),
        vars@.len() == egraph.node_class@.len(),
        n < egraph.node_class@.len(),
        j < egraph.node_children@[n as int]@.len(),
    ensures
        r@ == child_clause(egraph, vars@, n, j as int),
{
    proof {
        reveal_strlit("-");
        reveal_strlit(" ");
    }
    let ch = egraph.node_children[n][j];
    let cls = egraph.node_class[ch];
    let cv = vars_of_class(egraph, vars, cls);
    let mut r = String::new();
    append_text(&mut r, "-");
    append_decimal(&mut r, vars[n] as u64);
    let ghost head = r@;
    let mut k: usize = 0;
    while k < cv.len()
        invariant
            k <= cv@.len(),
            r@ == head + spaced_decimals(cv@.subrange(0, k as int)),
        decreases cv@.len() - k,
    {
        let ghost r0 = r@;
        append_text(&mut r, " ");
        append_decimal(&mut r, cv[k] as u64);
        proof {
            let s = cv@.subrange(0, k + 1);
            assert(s.drop_last() =~= cv@.subrange(0, k as int));
            assert(s.last() == cv@[k as int]);
            reveal_strlit(" ");
            assert(spaced_decimals(s) == spaced_decimals(s.drop_last()) + seq![' '] + decimal(s.last() as nat));
            assert(r@ =~= head + spaced_decimals(s));
        }
        k = k + 1;
    }
    proof {
        assert(cv@.subrange(0, k as int) =~= cv@);
    }
    r
}

/// Writes the hard clauses that ask for a chosen e-node in each root, then
/// those that ask, for each child of each e-node, class by class, for a
/// chosen e-node in the child's class once the e-node is chosen.
fn write_hard_clauses(egraph: &IndexedEGraph, vars: &Vec<usize>, writer: &mut ProblemWriter, top: i64)
    requires
        egraph.wf(),
        vars@.len() == egraph.node_class@.len(),
        old(writer).num_clauses() + egraph.roots@.len() + child_count(egraph, egraph.class_nodes@.len() as int)
            <= usize::MAX,
    ensures
        final(writer).problem_text() == old(writer).problem_text() + root_lines(
            egraph,
            vars@,
            top as int,
            egraph.roots@.len() as int,
        ) + child_lines(egraph, vars@, top as int, egraph.class_nodes@.len() as int),
        final(writer).num_clauses() == old(writer).num_clauses() + egraph.roots@.len() + child_count(
            egraph,
            egraph.class_nodes@.len() as int,
        ),
        final(writer).num_vars() == old(writer).num_vars(),
        final(writer).parameters_text() == old(writer).parameters_text(),
        final(writer).path_text() == old(writer).path_text(),
{
    let ghost text0 = writer.problem_text();
    let ghost count0 = writer.num_clauses();
    let ghost total = child_count(egraph, egraph.class_nodes@.len() as int);
    let mut i: usize = 0;
    while i < egraph.roots.len()
        invariant
            egraph.wf(),
            vars@.len() == egraph.node_class@.len(),
            i <= egraph.roots@.len(),
            count0 + egraph.roots@.len() + total <= usize::MAX,
            total == child_count(egraph, egraph.class_nodes@.len() as int),
            writer.problem_text() == text0 + root_lines(egraph, vars@, top as int, i as int),
            writer.num_clauses() == count0 + i,
            writer.num_vars() == old(writer).num_vars(),
            writer.parameters_text() == old(writer).parameters_text(),
            writer.path_text() == old(writer).path_text(),
        decreases egraph.roots@.len() - i,
    {
        let cv = vars_of_class(egraph, vars, egraph.roots[i]);
        let clause = join_numbers(&cv);
        writer.hard_clause(clause.as_str(), top);
        i = i + 1;
    }
    let ghost text1 = writer.problem_text();
    let ghost count1 = writer.num_clauses();
    let n_classes = egraph.class_nodes.len();
    let mut c: usize = 0;
    while c < n_classes
        invariant
            egraph.wf(),
            vars@.len() == egraph.node_class@.len(),
            n_classes == egraph.class_nodes@.len(),
            c <= n_classes,
            count1 + total <= usize::MAX,
            total == child_count(egraph, n_classes as int),
            writer.problem_text() == text1 + child_lines(egraph, vars@, top as int, c as int),
            writer.num_clauses() == count1 + child_count(egraph, c as int),
            writer.num_vars() == old(writer).num_vars(),
            writer.parameters_text() == old(writer).parameters_text(),
            writer.path_text() == old(writer).path_text(),
        decreases n_classes - c,
    {
        let ghost text_c = writer.problem_text();
        let ghost count_c = writer.num_clauses();
        let members = &egraph.class_nodes[c];
        proof {
            lemma_child_count_grows(egraph, c as int + 1, n_classes as int);
        }
        let mut k: usize = 0;
        while k < members.len()
            invariant
                egraph.wf(),
                vars@.len() == egraph.node_class@.len(),
                n_classes == egraph.class_nodes@.len(),
                c < n_classes,
                members == egraph.class_nodes@[c as int],
                k <= members@.len(),
                count_c + class_child_count(egraph, c, members@.len() as int) <= usize::MAX,
                writer.problem_text() == text_c + class_child_lines(egraph, vars@, top as int, c, k as int),
                writer.num_clauses() == count_c + class_child_count(egraph, c, k as int),
                writer.num_vars() == old(writer).num_vars(),
                writer.parameters_text() == old(writer).parameters_text(),
                writer.path_text() == old(writer).path_text(),
            decreases members@.len() - k,
        {
            let n = members[k];
            let ghost text_k = writer.problem_text();
            let ghost count_k = writer.num_clauses();
            proof {
                assert(n < egraph.node_class@.len());
                lemma_class_child_count_grows(egraph, c, k as int + 1, members@.len() as int);
            }
            let kids = &egraph.node_children[n];
            let mut j: usize = 0;
            while j < kids.len()
                invariant
                    egraph.wf(),
                    vars@.len() == egraph.node_class@.len(),
                    n < egraph.node_class@.len(),
                    kids == egraph.node_children@[n as int],
                    j <= kids@.len(),
                    count_k + kids@.len() <= usize::MAX,
                    writer.problem_text() == text_k + node_child_lines(egraph, vars@, top as int, n, j as int),
                    writer.num_clauses() == count_k + j,
                    writer.num_vars() == old(writer).num_vars(),
                    writer.parameters_text() == old(writer).parameters_text(),
                    writer.path_text() == old(writer).path_text(),
                decreases kids@.len() - j,
            {
                let clause = child_clause_text(egraph, vars, n, j);
                writer.hard_clause(clause.as_str(), top);
                j = j + 1;
            }
            k = k + 1;
        }
        c = c + 1;
    }
}

/// The clause text `-v` for e-node `n`.
pub open spec fn negated_var(vars: Seq<usize>, n: usize) -> Seq<char> {
    seq!['-'] + decimal(vars[n as int] as nat)
}

/// The soft clause lines for the first `k` e-nodes of class `c`: the
/// negated variable of each, weighed by its weight.
pub open spec fn class_soft_lines(g: &IndexedEGraph, vars: Seq<usize>, weights: Seq<i64>, c: usize, k: int) -> Seq<char>
    decreases k,
{
    if k <= 0 {
        Seq::empty()
    } else {
        let n = g.member(c, k - 1);
        class_soft_lines(g, vars, weights, c, k - 1) + clause_line(weights[n as int] as int, negated_var(vars, n))
    }
}

/// The soft clause lines for the e-nodes of the first `c` classes.
pub open spec fn soft_lines(g: &IndexedEGraph, vars: Seq<usize>, weights: Seq<i64>, c: int) -> Seq<char>
    decreases c,
{
    if c <= 0 {
        Seq::empty()
    } else {
        soft_lines(g, vars, weights, c - 1) + class_soft_lines(
            g,
            vars,
            weights,
            (c - 1) as usize,
            g.class_nodes@[c - 1]@.len() as int,
        )
    }
}

/// The text of `negated_var`.
fn negated_var_text(vars: &Vec<usize>, n: usize) -> (r: String)
    requires
        n < vars@.len(),
    ensures
        r@ == negated_var(vars@, n),
{
    proof {
        reveal_strlit("-");
    }
    let mut r = String::new();
    append_text(&mut r, "-");
    append_decimal(&mut r, vars[n] as u64);
    r
}

/// Writes a soft clause for each e-node, class by class: its negated
/// variable, weighed by its weight.
fn write_soft_clauses(egraph: &IndexedEGraph, vars: &Vec<usize>, weights: &Vec<i64>, writer: &mut ProblemWriter)
    requires
        egraph.wf(),
        vars@.len() == egraph.node_class@.len(),
        weights@.len() == egraph.node_class@.len(),
        old(writer).num_clauses() + total_nodes(egraph) <= usize::MAX,
    ensures
        final(writer).problem_text() == old(writer).problem_text() + soft_lines(
            egraph,
            vars@,
            weights@,
            egraph.class_nodes@.len() as int,
        ),
        final(writer).num_clauses() == old(writer).num_clauses() + total_nodes(egraph),
        final(writer).num_vars() == old(writer).num_vars(),
        final(writer).parameters_text() == old(writer).parameters_text(),
        final(writer).path_text() == old(writer).path_text(),
{
    let ghost text0 = writer.problem_text();
    let ghost count0 = writer.num_clauses();
    let n_classes = egraph.class_nodes.len();
    let mut c: usize = 0;
    while c < n_classes
        invariant
            egraph.wf(),
            vars@.len() == egraph.node_class@.len(),
            weights@.len() == egraph.node_class@.len(),
            n_classes == egraph.class_nodes@.len(),
            c <= n_classes,
            count0 + total_nodes(egraph) <= usize::MAX,
            writer.problem_text() == text0 + soft_lines(egraph, vars@, weights@, c as int),
            writer.num_clauses() == count0 + class_offset(egraph, c as int),
            writer.num_vars() == old(writer).num_vars(),
            writer.parameters_text() == old(writer).parameters_text(),
            writer.path_text() == old(writer).path_text(),
        decreases n_classes - c,
    {
        let ghost text_c = writer.problem_text();
        let members = &egraph.class_nodes[c];
        proof {
            lemma_offset_grows(egraph, c as int, n_classes as int);
        }
        let mut k: usize = 0;
        while k < members.len()
            invariant
                egraph.wf(),
                vars@.len() == egraph.node_class@.len(),
                weights@.len() == egraph.node_class@.len(),
                n_classes == egraph.class_nodes@.len(),
                c < n_classes,
                members == egraph.class_nodes@[c as int],
                k <= members@.len(),
                count0 + class_offset(egraph, c as int) + members@.len() <= usize::MAX,
                writer.problem_text() == text_c + class_soft_lines(egraph, vars@, weights@, c, k as int),
                writer.num_clauses() == count0 + class_offset(egraph, c as int) + k,
                writer.num_vars() == old(writer).num_vars(),
                writer.parameters_text() == old(writer).parameters_text(),
                writer.path_text() == old(writer).path_text(),
            decreases members@.len() - k,
        {
            let n = members[k];
            proof {
                assert(n < egraph.node_class@.len());
            }
            let clause = negated_var_text(vars, n);
            writer.soft_clause(clause.as_str(), weights[n]);
            k = k + 1;
        }
        c = c + 1;
    }
}

/// Whether e-node `n` has a child in class `c`.
fn points_to(egraph: &IndexedEGraph, n: usize, c: usize) -> (r: bool)
    requires
        egraph.wf(),
        n < egraph.node_class@.len(),
    ensures
        r == egraph.node_points_to(n, c),
{
    let kids = &egraph.node_children[n];
    let mut j: usize = 0;
    while j < kids.len()
        invariant
            egraph.wf(),
            n < egraph.node_class@.len(),
            kids == egraph.node_children@[n as int],
            j <= kids@.len(),
            forall|j2: int| 0 <= j2 < j ==> #[trigger] egraph.child_class(n, j2) != c,
        decreases kids@.len() - j,
    {
        if egraph.node_class[kids[j]] == c {
            proof {
                assert(egraph.child_class(n, j as int) == c);
            }
            return true;
        }
        j = j + 1;
    }
    false
}

/// The hard clause lines that rule out a loop on class `c`: the negated
/// variable of each of its first `k` e-nodes that has a child in `c`.
pub open spec fn self_loop_lines(g: &IndexedEGraph, vars: Seq<usize>, top: int, c: usize, k: int) -> Seq<char>
    decreases k,
{
    if k <= 0 {
        Seq::empty()
    } else {
        let n = g.member(c, k - 1);
        self_loop_lines(g, vars, top, c, k - 1) + if g.node_points_to(n, c) {
            clause_line(top, negated_var(vars, n))
        } else {
            Seq::empty()
        }
    }
}

/// The number of the first `k` e-nodes of class `c` with a child in `c`.
pub open spec fn self_loop_count(g: &IndexedEGraph, c: usize, k: int) -> nat
    decreases k,
{
    if k <= 0 {
        0
    } else {
        self_loop_count(g, c, k - 1) + if g.node_points_to(g.member(c, k - 1), c) {
            1nat
        } else {
            0nat
        }
    }
}

/// There are no more loops than e-nodes.
proof fn lemma_self_loop_count_bound(g: &IndexedEGraph, c: usize, k: int)
    requires
        0 <= k,
    ensures
        self_loop_count(g, c, k) <= k,
    decreases k,
{
    if k > 0 {
        lemma_self_loop_count_bound(g, c, k - 1);
    }
}

/// Writes the hard clauses that rule out a loop on class `c`.
fn write_self_loop(egraph: &IndexedEGraph, vars: &Vec<usize>, c: usize, writer: &mut ProblemWriter, top: i64)
    requires
        egraph.wf(),
        vars@.len() == egraph.node_class@.len(),
        c < egraph.class_nodes@.len(),
        old(writer).num_clauses() + egraph.class_nodes@[c as int]@.len() <= usize::MAX,
    ensures
        final(writer).problem_text() == old(writer).problem_text() + self_loop_lines(
            egraph,
            vars@,
            top as int,
            c,
            egraph.class_nodes@[c as int]@.len() as int,
        ),
        final(writer).num_clauses() == old(writer).num_clauses() + self_loop_count(
            egraph,
            c,
            egraph.class_nodes@[c as int]@.len() as int,
        ),
        final(writer).num_vars() == old(writer).num_vars(),
        final(writer).parameters_text() == old(writer).parameters_text(),
        final(writer).path_text() == old(writer).path_text(),
{
    let ghost text0 = writer.problem_text();
    let ghost count0 = writer.num_clauses();
    let members = &egraph.class_nodes[c];
    let mut k: usize = 0;
    while k < members.len()
        invariant
            egraph.wf(),
            vars@.len() == egraph.node_class@.len(),
            c < egraph.class_nodes@.len(),
            members == egraph.class_nodes@[c as int],
            k <= members@.len(),
            count0 + members@.len() <= usize::MAX,
            writer.problem_text() == text0 + self_loop_lines(egraph, vars@, top as int, c, k as int),
            writer.num_clauses() == count0 + self_loop_count(egraph, c, k as int),
            writer.num_vars() == old(writer).num_vars(),
            writer.parameters_text() == old(writer).parameters_text(),
            writer.path_text() == old(writer).path_text(),
        decreases members@.len() - k,
    {
        let n = members[k];
        proof {
            assert(n < egraph.node_class@.len());
            lemma_self_loop_count_bound(egraph, c, k as int);
        }
        if points_to(egraph, n, c) {
            let clause = negated_var_text(vars, n);
            writer.hard_clause(clause.as_str(), top);
        }
        proof {
            assert(self_loop_lines(egraph, vars@, top as int, c, k + 1) == self_loop_lines(egraph, vars@, top as int, c, k as int)
                + if egraph.node_points_to(n, c) {
                clause_line(top as int, negated_var(vars@, n))
            } else {
                Seq::empty()
            });
            assert(writer.problem_text() =~= text0 + self_loop_lines(egraph, vars@, top as int, c, k + 1));
        }
        k = k + 1;
    }
}

/// The edge from class `a` to class `b` in the class graph of the classes
/// that the roots reach: the variables of the e-nodes of `a` with a child
/// in `b`, where there are any.
pub open spec fn root_edge(g: &IndexedEGraph, vars: Seq<usize>, a: usize, b: usize) -> Option<Set<usize>> {
    if exists|i: int| 0 <= i < g.roots@.len() && #[trigger] g.reachable(g.roots@[i], a) {
        induced_edge(g, vars, a, b)
    } else {
        None
    }
}

/// `h` is the class graph of the classes that the roots reach, with each
/// edge carrying the variables of the e-nodes that induce it.
pub open spec fn is_root_graph(g: &IndexedEGraph, vars: Seq<usize>, h: &HyperGraph) -> bool {
    &&& h.wf()
    &&& forall|c: usize| #[trigger] h.has_class(c) ==> c < g.num_classes()
    &&& forall|n: usize| #[trigger] h.live().contains(n) <==> n < h.ids().len()
    &&& forall|a: usize, b: usize| #[trigger] h.class_edge(a, b) == root_edge(g, vars, a, b)
}

/// A graph on classes below `n` has at most `n` node numbers.
proof fn lemma_ids_bounded(h: &HyperGraph, n: nat)
    requires
        h.wf(),
        forall|c: usize| #[trigger] h.has_class(c) ==> c < n,
    ensures
        h.ids().len() <= n,
{
    h.lemma_facts();
    let ids = h.ids();
    assert(ids.no_duplicates()) by {
        assert forall|i: int, j: int| 0 <= i < ids.len() && 0 <= j < ids.len() && i != j implies ids[i] != ids[j] by {
            assert(h.index().contains_key(h.ids()[i]));
            assert(h.index().contains_key(h.ids()[j]));
        }
    }
    ids.unique_seq_to_set();
    let range = Set::new(|i: usize| i < n);
    lemma_range_finite(n);
    assert forall|c: usize| ids.to_set().contains(c) implies range.contains(c) by {
        let i = choose|i: int| 0 <= i < ids.len() && ids[i] == c;
        assert(h.has_class(ids[i]));
    }
    vstd::set_lib::lemma_len_subset(ids.to_set(), range);
}

/// The class graph of the classes that the roots reach.
fn root_graph(egraph: &IndexedEGraph, vars: &Vec<usize>) -> (h: HyperGraph)
    requires
        egraph.wf(),
        vars@.len() == egraph.node_class@.len(),
        egraph.num_classes() + 2 <= usize::MAX,
    ensures
        is_root_graph(egraph, vars@, &h),
        h.ids().len() <= egraph.num_classes(),
{
    let mut h = HyperGraph::new();
    proof {
        h.lemma_facts();
    }
    let mut i: usize = 0;
    while i < egraph.roots.len()
        invariant
            egraph.wf(),
            vars@.len() == egraph.node_class@.len(),
            egraph.num_classes() + 2 <= usize::MAX,
            i <= egraph.roots@.len(),
            h.wf(),
            forall|c: usize| #[trigger] h.has_class(c) ==> c < egraph.num_classes(),
            forall|n: usize| #[trigger] h.live().contains(n) <==> n < h.ids().len(),
            forall|a: usize, b: usize| #[trigger]
                h.class_edge(a, b) == if exists|i2: int| 0 <= i2 < i && #[trigger] egraph.reachable(egraph.roots@[i2], a) {
                    induced_edge(egraph, vars@, a, b)
                } else {
                    None
                },
        decreases egraph.roots@.len() - i,
    {
        let ghost h0 = h;
        to_hypergraph(egraph.roots[i], egraph, vars, &mut h);
        proof {
            assert forall|a: usize, b: usize| #[trigger]
                h.class_edge(a, b) == if exists|i2: int| 0 <= i2 < i + 1 && #[trigger] egraph.reachable(egraph.roots@[i2], a) {
                    induced_edge(egraph, vars@, a, b)
                } else {
                    None
                } by {
                let before = exists|i2: int| 0 <= i2 < i && #[trigger] egraph.reachable(egraph.roots@[i2], a);
                if egraph.reachable(egraph.roots@[i as int], a) {
                    if before {
                        match induced_edge(egraph, vars@, a, b) {
                            Some(t) => {
                                assert(t.union(t) =~= t);
                            },
                            None => {},
                        }
                    }
                } else {
                    if exists|i2: int| 0 <= i2 < i + 1 && #[trigger] egraph.reachable(egraph.roots@[i2], a) {
                        let i2 = choose|i2: int| 0 <= i2 < i + 1 && #[trigger] egraph.reachable(egraph.roots@[i2], a);
                        assert(i2 < i);
                    }
                }
            }
        }
        i = i + 1;
    }
    proof {
        lemma_ids_bounded(&h, egraph.num_classes());
    }
    h
}

/// The class after position `i` of the cycle `cyc`, going round.
pub open spec fn next_class(cyc: Seq<usize>, i: int) -> usize {
    if i + 1 < cyc.len() {
        cyc[i + 1]
    } else {
        cyc[0]
    }
}

/// `cl` lists, for each class of the cycle `cyc`, the variables on its edge
/// to the next class of the cycle.
pub open spec fn lists_edge_vars(h: &HyperGraph, cyc: Seq<usize>, cl: Seq<Vec<usize>>) -> bool {
    &&& cl.len() == cyc.len()
    &&& forall|i: int| 0 <= i < cyc.len() ==> h.class_edge(cyc[i], next_class(cyc, i)) == Some((#[trigger] cl[i])@.to_set())
}

/// The hard clause lines that rule out the cycle `cyc`: for a loop on one
/// class, its e-nodes that point to it are ruled out; for a longer cycle,
/// given the variables `cl` on its edges, the Tseytin encoding that not all
/// its edges are taken, with the new variables handed out after `base`.
pub open spec fn cycle_lines(g: &IndexedEGraph, vars: Seq<usize>, top: int, cyc: Seq<usize>, cl: Seq<Vec<usize>>, base: nat) -> Seq<
    char,
> {
    if cyc.len() == 1 {
        self_loop_lines(g, vars, top, cyc[0], g.class_nodes@[cyc[0] as int]@.len() as int)
    } else {
        tseytin_defs(cl, base, top, cl.len() as int) + clause_line(top, tseytin_items(cl, base, cl.len() as int))
    }
}

/// The number of variables that ruling out the cycle `cyc` hands out.
pub open spec fn cycle_vars(cyc: Seq<usize>, cl: Seq<Vec<usize>>) -> nat {
    if cyc.len() == 1 {
        0
    } else {
        count_long(cl, cl.len() as int)
    }
}

/// The number of clauses that rule out the cycle `cyc`.
pub open spec fn cycle_clauses(g: &IndexedEGraph, cyc: Seq<usize>, cl: Seq<Vec<usize>>) -> nat {
    if cyc.len() == 1 {
        self_loop_count(g, cyc[0], g.class_nodes@[cyc[0] as int]@.len() as int)
    } else {
        tseytin_clause_count(cl, cl.len() as int) + 1
    }
}

/// The bound that the numbers of variables and clauses are kept within
/// while cycles are ruled out, which leaves room for the other clauses.
pub open spec fn cycle_room() -> nat {
    (usize::MAX / 2) as nat
}

/// Ruling out the cycle `cyc` keeps the counts within `cycle_room`, as
/// checked before it is written: for a loop, one clause per e-node of its
/// class; for a longer cycle, one variable per edge and the clauses of its
/// encoding.
pub open spec fn cycle_fits(g: &IndexedEGraph, cyc: Seq<usize>, cl: Seq<Vec<usize>>, num_vars: nat, num_clauses: nat) -> bool {
    if cyc.len() == 1 {
        num_clauses + g.class_nodes@[cyc[0] as int]@.len() <= cycle_room()
    } else {
        &&& num_vars + cl.len() <= cycle_room()
        &&& num_clauses + tseytin_clause_count(cl, cl.len() as int) + 1 <= cycle_room()
    }
}

/// The number of variables that ruling out the first `q` cycles hands out.
pub open spec fn cycles_vars(cs: Seq<Vec<usize>>, cls: Seq<Seq<Vec<usize>>>, q: int) -> nat
    decreases q,
{
    if q <= 0 {
        0
    } else {
        cycles_vars(cs, cls, q - 1) + cycle_vars(cs[q - 1]@, cls[q - 1])
    }
}

/// The number of clauses that rule out the first `q` cycles.
pub open spec fn cycles_clauses(g: &IndexedEGraph, cs: Seq<Vec<usize>>, cls: Seq<Seq<Vec<usize>>>, q: int) -> nat
    decreases q,
{
    if q <= 0 {
        0
    } else {
        cycles_clauses(g, cs, cls, q - 1) + cycle_clauses(g, cs[q - 1]@, cls[q - 1])
    }
}

/// The hard clause lines that rule out the first `q` cycles, with the new
/// variables handed out after `base`.
pub open spec fn cycles_lines(
    g: &IndexedEGraph,
    vars: Seq<usize>,
    top: int,
    cs: Seq<Vec<usize>>,
    cls: Seq<Seq<Vec<usize>>>,
    base: nat,
    q: int,
) -> Seq<char>
    decreases q,
{
    if q <= 0 {
        Seq::empty()
    } else {
        cycles_lines(g, vars, top, cs, cls, base, q - 1) + cycle_lines(
            g,
            vars,
            top,
            cs[q - 1]@,
            cls[q - 1],
            base + cycles_vars(cs, cls, q - 1),
        )
    }
}

/// The variables on the edge from class `a` to class `b`.
fn edge_vars(h: &HyperGraph, a: usize, b: usize) -> (r: Vec<usize>)
    requires
        h.wf(),
        h.linked(a, b),
    ensures
        h.class_edge(a, b) == Some(r@.to_set()),
{
    proof {
        h.lemma_facts();
    }
    let es = h.edges(a).unwrap();
    let mut k: usize = 0;
    while k < es.len()
        invariant
            k <= es@.len(),
            forall|k2: int| 0 <= k2 < k ==> (#[trigger] es@[k2]).0 != b,
            forall|k2: int| 0 <= k2 < es@.len() ==> h.class_edge(a, (#[trigger] es@[k2]).0) == Some(es@[k2].1@.to_set()),
            exists|k2: int| 0 <= k2 < es@.len() && #[trigger] es@[k2].0 == b,
        decreases es@.len() - k,
    {
        if es[k].0 == b {
            return copy_vec(&es[k].1);
        }
        k = k + 1;
    }
    Vec::new()
}

/// The variables on the edges of the cycle `cyc`, each class's edge to the
/// next.
fn cycle_edge_vars(egraph: &IndexedEGraph, vars: &Vec<usize>, h: &HyperGraph, cyc: &Vec<usize>) -> (cl: Vec<Vec<usize>>)
    requires
        egraph.wf(),
        vars@.len() == egraph.node_class@.len(),
        is_root_graph(egraph, vars@, h),
        is_cycle(h, cyc@),
    ensures
        lists_edge_vars(h, cyc@, cl@),
        forall|i: int| 0 <= i < cl@.len() ==> (#[trigger] cl@[i])@.len() > 0,
{
    let mut cl: Vec<Vec<usize>> = Vec::new();
    let mut i: usize = 0;
    while i < cyc.len()
        invariant
            egraph.wf(),
            vars@.len() == egraph.node_class@.len(),
            is_root_graph(egraph, vars@, h),
            is_cycle(h, cyc@),
            i <= cyc@.len(),
            cl@.len() == i,
            forall|i2: int| 0 <= i2 < i ==> h.class_edge(cyc@[i2], next_class(cyc@, i2)) == Some((#[trigger] cl@[i2])@.to_set()),
            forall|i2: int| 0 <= i2 < i ==> (#[trigger] cl@[i2])@.len() > 0,
        decreases cyc@.len() - i,
    {
        let a = cyc[i];
        let b = if i + 1 < cyc.len() { cyc[i + 1] } else { cyc[0] };
        proof {
            if i + 1 < cyc@.len() {
                assert(super::cycles::johnson::link_at(h, cyc@, i as int));
            }
            assert(h.linked(a, b));
        }
        let e = edge_vars(h, a, b);
        proof {
            let s = induced_edge(egraph, vars@, a, b);
            assert(h.class_edge(a, b) == root_edge(egraph, vars@, a, b));
            assert(egraph.class_points_to(a, b));
            let k = choose|k: int| 0 <= k < egraph.class_nodes@[a as int]@.len() && #[trigger] egraph.node_points_to(
                egraph.member(a, k),
                b,
            );
            let n = egraph.member(a, k);
            assert(enode_vars(egraph, vars@, a, b).contains(vars@[n as int]));
            assert(e@.to_set().contains(vars@[n as int]));
            assert(e@.len() > 0);
        }
        let ghost before = cl@;
        cl.push(e);
        proof {
            assert forall|i2: int| 0 <= i2 < i + 1 implies h.class_edge(cyc@[i2], next_class(cyc@, i2)) == Some(
                (#[trigger] cl@[i2])@.to_set(),
            ) by {
                if i2 < i {
                    assert(cl@[i2] == before[i2]);
                }
            }
            assert forall|i2: int| 0 <= i2 < i + 1 implies (#[trigger] cl@[i2])@.len() > 0 by {
                if i2 < i {
                    assert(cl@[i2] == before[i2]);
                }
            }
        }
        i = i + 1;
    }
    cl
}

/// Whether the clauses of the encoding of `cl` and its final clause fit in
/// `room`.
fn encoding_fits(cl: &Vec<Vec<usize>>, room: usize) -> (r: bool)
    ensures
        r == (tseytin_clause_count(cl@, cl@.len() as int) + 1 <= room),
{
    if room == 0 {
        return false;
    }
    let mut used: usize = 1;
    let mut i: usize = 0;
    while i < cl.len()
        invariant
            1 <= room,
            i <= cl@.len(),
            used == tseytin_clause_count(cl@, i as int) + 1,
            used <= room,
        decreases cl@.len() - i,
    {
        let len = cl[i].len();
        if len > 1 {
            if len >= room - used {
                proof {
                    lemma_counts_grow(cl@, i + 1, cl@.len() as int);
                }
                return false;
            }
            used = used + len + 1;
        }
        i = i + 1;
    }
    true
}

/// The lines and counts of the first `q` cycles depend only on the first
/// `q` lists of edge variables.
proof fn lemma_cycles_prefix(
    g: &IndexedEGraph,
    vars: Seq<usize>,
    top: int,
    cs: Seq<Vec<usize>>,
    c1: Seq<Seq<Vec<usize>>>,
    c2: Seq<Seq<Vec<usize>>>,
    base: nat,
    q: int,
)
    requires
        0 <= q <= c1.len(),
        q <= c2.len(),
        forall|i: int| 0 <= i < q ==> c1[i] == c2[i],
    ensures
        cycles_lines(g, vars, top, cs, c1, base, q) == cycles_lines(g, vars, top, cs, c2, base, q),
        cycles_vars(cs, c1, q) == cycles_vars(cs, c2, q),
        cycles_clauses(g, cs, c1, q) == cycles_clauses(g, cs, c2, q),
    decreases q,
{
    if q > 0 {
        lemma_cycles_prefix(g, vars, top, cs, c1, c2, base, q - 1);
    }
}

/// Writes the clauses that rule out the cycle `cyc`, if they fit in
/// `cycle_room`; returns whether they did, and the variables on the cycle's
/// edges.
fn write_cycle(
    egraph: &IndexedEGraph,
    vars: &Vec<usize>,
    h: &HyperGraph,
    cyc: &Vec<usize>,
    writer: &mut ProblemWriter,
    top: i64,
) -> (r: (bool, Ghost<Seq<Vec<usize>>>))
    requires
        egraph.wf(),
        vars@.len() == egraph.node_class@.len(),
        is_root_graph(egraph, vars@, h),
        is_cycle(h, cyc@),
        old(writer).num_vars() <= cycle_room(),
        old(writer).num_clauses() <= cycle_room(),
    ensures
        cyc@.len() > 1 ==> lists_edge_vars(h, cyc@, r.1@),
        r.0 == cycle_fits(egraph, cyc@, r.1@, old(writer).num_vars(), old(writer).num_clauses()),
        r.0 ==> final(writer).problem_text() == old(writer).problem_text() + cycle_lines(
            egraph,
            vars@,
            top as int,
            cyc@,
            r.1@,
            old(writer).num_vars(),
        ) && final(writer).num_vars() == old(writer).num_vars() + cycle_vars(cyc@, r.1@)
            && final(writer).num_clauses() == old(writer).num_clauses() + cycle_clauses(egraph, cyc@, r.1@),
        !r.0 ==> final(writer).problem_text() == old(writer).problem_text() && final(writer).num_vars() == old(
            writer,
        ).num_vars() && final(writer).num_clauses() == old(writer).num_clauses(),
        final(writer).num_vars() <= cycle_room(),
        final(writer).num_clauses() <= cycle_room(),
        final(writer).parameters_text() == old(writer).parameters_text(),
        final(writer).path_text() == old(writer).path_text(),
{
    let room: usize = usize::MAX / 2;
    proof {
        assert(h.linked(cyc@.last(), cyc@[0]));
        assert(h.class_edge(cyc@.last(), cyc@[0]) is Some);
        assert(h.has_class(cyc@[0]));
    }
    if cyc.len() == 1 {
        let c = cyc[0];
        let size = egraph.class_nodes[c].len();
        if size <= room - writer.clause_count() {
            proof {
                lemma_self_loop_count_bound(egraph, c, size as int);
            }
            write_self_loop(egraph, vars, c, writer, top);
            (true, Ghost(Seq::empty()))
        } else {
            (false, Ghost(Seq::empty()))
        }
    } else {
        let cl = cycle_edge_vars(egraph, vars, h, cyc);
        let ghost clv = cl@;
        if cl.len() <= room - writer.var_count() && encoding_fits(&cl, room - writer.clause_count()) {
            proof {
                lemma_counts_grow(clv, clv.len() as int, clv.len() as int);
            }
            tseytin_encoding(cl, writer, top);
            (true, Ghost(clv))
        } else {
            (false, Ghost(clv))
        }
    }
}

/// Writes the clauses that rule out each cycle in turn, as long as they fit
/// in `cycle_room`; returns how many cycles were ruled out, all of them
/// unless the next one did not fit, and the variables on the edges of the
/// cycles that were looked at.
#[verifier::spinoff_prover]
fn write_cycle_clauses(
    egraph: &IndexedEGraph,
    vars: &Vec<usize>,
    h: &HyperGraph,
    cycles: &Vec<Vec<usize>>,
    writer: &mut ProblemWriter,
    top: i64,
) -> (r: (usize, Ghost<Seq<Seq<Vec<usize>>>>))
    requires
        egraph.wf(),
        vars@.len() == egraph.node_class@.len(),
        is_root_graph(egraph, vars@, h),
        forall|k: int| 0 <= k < cycles@.len() ==> is_cycle(h, (#[trigger] cycles@[k])@),
        old(writer).num_vars() <= cycle_room(),
        old(writer).num_clauses() <= cycle_room(),
    ensures
        r.0 <= cycles@.len(),
        r.1@.len() >= r.0,
        forall|q: int|
            0 <= q < r.1@.len() && (#[trigger] cycles@[q])@.len() > 1 ==> lists_edge_vars(h, cycles@[q]@, r.1@[q]),
        final(writer).problem_text() == old(writer).problem_text() + cycles_lines(
            egraph,
            vars@,
            top as int,
            cycles@,
            r.1@,
            old(writer).num_vars(),
            r.0 as int,
        ),
        final(writer).num_vars() == old(writer).num_vars() + cycles_vars(cycles@, r.1@, r.0 as int),
        final(writer).num_clauses() == old(writer).num_clauses() + cycles_clauses(egraph, cycles@, r.1@, r.0 as int),
        r.0 < cycles@.len() ==> r.1@.len() > r.0 && !cycle_fits(
            egraph,
            cycles@[r.0 as int]@,
            r.1@[r.0 as int],
            final(writer).num_vars(),
            final(writer).num_clauses(),
        ),
        final(writer).num_vars() <= cycle_room(),
        final(writer).num_clauses() <= cycle_room(),
        final(writer).parameters_text() == old(writer).parameters_text(),
        final(writer).path_text() == old(writer).path_text(),
{
    let ghost text0 = writer.problem_text();
    let ghost base = writer.num_vars();
    let ghost count0 = writer.num_clauses();
    let ghost mut cls: Seq<Seq<Vec<usize>>> = Seq::empty();
    let mut q: usize = 0;
    let mut stopped = false;
    while !stopped && q < cycles.len()
        invariant
            egraph.wf(),
            vars@.len() == egraph.node_class@.len(),
            is_root_graph(egraph, vars@, h),
            forall|k: int| 0 <= k < cycles@.len() ==> is_cycle(h, (#[trigger] cycles@[k])@),
            q <= cycles@.len(),
            stopped ==> q < cycles@.len() && cls.len() == q + 1 && !cycle_fits(
                egraph,
                cycles@[q as int]@,
                cls[q as int],
                writer.num_vars(),
                writer.num_clauses(),
            ),
            !stopped ==> cls.len() == q,
            forall|qq: int|
                0 <= qq < cls.len() && (#[trigger] cycles@[qq])@.len() > 1 ==> lists_edge_vars(h, cycles@[qq]@, cls[qq]),
            writer.problem_text() == text0 + cycles_lines(egraph, vars@, top as int, cycles@, cls, base, q as int),
            writer.num_vars() == base + cycles_vars(cycles@, cls, q as int),
            writer.num_clauses() == count0 + cycles_clauses(egraph, cycles@, cls, q as int),
            writer.num_vars() <= cycle_room(),
            writer.num_clauses() <= cycle_room(),
            writer.parameters_text() == old(writer).parameters_text(),
            writer.path_text() == old(writer).path_text(),
        decreases cycles@.len() - q + if stopped {
            0int
        } else {
            1int
        },
    {
        let cyc = &cycles[q];
        let ghost qi = q as int;
        let ghost text_q = writer.problem_text();
        let (fits, cl) = write_cycle(egraph, vars, h, cyc, writer, top);
        proof {
            let old_cls = cls;
            cls = cls.push(cl@);
            lemma_cycles_prefix(egraph, vars@, top as int, cycles@, old_cls, cls, base, qi);
            assert(cls[qi] == cl@);
            assert(cycles@[qi]@ == cyc@);
            assert forall|qq: int|
                0 <= qq < cls.len() && (#[trigger] cycles@[qq])@.len() > 1 implies lists_edge_vars(h, cycles@[qq]@, cls[qq]) by {
                if qq < qi {
                    assert(cls[qq] == old_cls[qq]);
                }
            }
        }
        if fits {
            proof {
                let b = base + cycles_vars(cycles@, cls, qi);
                assert(cycles_lines(egraph, vars@, top as int, cycles@, cls, base, qi + 1) == cycles_lines(
                    egraph,
                    vars@,
                    top as int,
                    cycles@,
                    cls,
                    base,
                    qi,
                ) + cycle_lines(egraph, vars@, top as int, cycles@[qi]@, cls[qi], b));
                assert(cycles_vars(cycles@, cls, qi + 1) == cycles_vars(cycles@, cls, qi) + cycle_vars(
                    cycles@[qi]@,
                    cls[qi],
                ));
                assert(cycles_clauses(egraph, cycles@, cls, qi + 1) == cycles_clauses(egraph, cycles@, cls, qi)
                    + cycle_clauses(egraph, cycles@[qi]@, cls[qi]));
                assert(writer.problem_text() =~= text0 + cycles_lines(egraph, vars@, top as int, cycles@, cls, base, qi + 1));
            }
            q = q + 1;
        } else {
            stopped = true;
        }
    }
    (q, Ghost(cls))
}

/// A comment line with the text `t`.
pub open spec fn comment_line(t: Seq<char>) -> Seq<char> {
    seq!['c', ' '] + t + seq!['\n']
}

/// The problem line: the numbers of variables and clauses, and the weight
/// of a hard clause.
pub open spec fn parameters_line(num_vars: nat, num_clauses: nat, top: int) -> Seq<char> {
    seq!['p', ' ', 'w', 'c', 'n', 'f', ' '] + decimal(num_vars) + seq![' '] + decimal(num_clauses) + seq![' ']
        + signed_decimal(top) + seq!['\n']
}

/// `cs` holds cycles of `h` only, and every cycle of `h` in some rotation.
pub open spec fn lists_all_cycles(h: &HyperGraph, cs: Seq<Vec<usize>>) -> bool {
    &&& forall|k: int| 0 <= k < cs.len() ==> is_cycle(h, (#[trigger] cs[k])@)
    &&& forall|c: Seq<usize>| #[trigger] is_cycle(h, c) ==> has_rotation_of(cs, c)
}

/// The lines after the title of the problem of `g`, with the e-node
/// variables `vars`: the lines that rule out the first `done` of the cycles
/// `cs`, the hard clauses for the roots and the children, and the soft
/// clauses.
pub open spec fn problem_body(
    g: &IndexedEGraph,
    vars: Seq<usize>,
    weights: Seq<i64>,
    top: int,
    cs: Seq<Vec<usize>>,
    cls: Seq<Seq<Vec<usize>>>,
    base: nat,
    done: int,
) -> Seq<char> {
    cycles_lines(g, vars, top, cs, cls, base, done) + comment_line("Hard clauses:"@) + root_lines(
        g,
        vars,
        top,
        g.roots@.len() as int,
    ) + child_lines(g, vars, top, g.class_nodes@.len() as int) + comment_line("Soft clauses:"@) + soft_lines(
        g,
        vars,
        weights,
        g.class_nodes@.len() as int,
    )
}

/// What the part of the problem that rules out cycles consists of, given
/// the variables handed out (`base`) and the clauses written (`count0`)
/// before it: without `no_cycle`, nothing; with it, `h` is the class graph
/// of the classes the roots reach, `cs` lists its cycles, `cls` the
/// variables on their edges, and the first `done` of them are ruled out,
/// all of them unless the next did not fit in `cycle_room`.
#[verifier::opaque]
pub open spec fn rules_out_cycles(
    g: &IndexedEGraph,
    vars: Seq<usize>,
    no_cycle: bool,
    h: HyperGraph,
    cs: Seq<Vec<usize>>,
    cls: Seq<Seq<Vec<usize>>>,
    done: int,
    base: nat,
    count0: nat,
) -> bool {
    &&& no_cycle ==> is_root_graph(g, vars, &h) && lists_all_cycles(&h, cs)
    &&& !no_cycle ==> done == 0
    &&& 0 <= done <= cs.len()
    &&& done <= cls.len()
    &&& forall|q: int| 0 <= q < cls.len() && (#[trigger] cs[q])@.len() > 1 ==> lists_edge_vars(&h, cs[q]@, cls[q])
    &&& done < cs.len() ==> done < cls.len() && !cycle_fits(
        g,
        cs[done]@,
        cls[done],
        base + cycles_vars(cs, cls, done),
        count0 + cycles_clauses(g, cs, cls, done),
    )
}

/// With `no_cycle`, writes the clauses that rule out the cycles of the class
/// graph of the classes the roots reach; returns what `rules_out_cycles`
/// speaks of.
fn write_cycles_part(egraph: &IndexedEGraph, vars: &Vec<usize>, writer: &mut ProblemWriter, top: i64, no_cycle: bool) -> (r: Ghost<
    (HyperGraph, Seq<Vec<usize>>, Seq<Seq<Vec<usize>>>, int),
>)
    requires
        egraph.wf(),
        vars@.len() == egraph.node_class@.len(),
        egraph.num_classes() + 2 <= usize::MAX,
        old(writer).num_vars() <= cycle_room(),
        old(writer).num_clauses() <= cycle_room(),
    ensures
        rules_out_cycles(
            egraph,
            vars@,
            no_cycle,
            r@.0,
            r@.1,
            r@.2,
            r@.3,
            old(writer).num_vars(),
            old(writer).num_clauses(),
        ),
        final(writer).problem_text() == old(writer).problem_text() + cycles_lines(
            egraph,
            vars@,
            top as int,
            r@.1,
            r@.2,
            old(writer).num_vars(),
            r@.3,
        ),
        final(writer).num_vars() == old(writer).num_vars() + cycles_vars(r@.1, r@.2, r@.3),
        final(writer).num_clauses() == old(writer).num_clauses() + cycles_clauses(egraph, r@.1, r@.2, r@.3),
        final(writer).num_vars() <= cycle_room(),
        final(writer).num_clauses() <= cycle_room(),
        final(writer).parameters_text() == old(writer).parameters_text(),
        final(writer).path_text() == old(writer).path_text(),
{
    if no_cycle {
        let h = root_graph(egraph, vars);
        let cycles = find_cycles(&h);
        let (done, cls) = write_cycle_clauses(egraph, vars, &h, &cycles, writer, top);
        proof {
            reveal(rules_out_cycles);
        }
        Ghost((h, cycles@, cls@, done as int))
    } else {
        proof {
            reveal(rules_out_cycles);
        }
        Ghost((arbitrary(), Seq::empty(), Seq::empty(), 0))
    }
}

/// Writes the weighted partial MaxSAT problem of extracting the roots of
/// `egraph` and sets its problem line; returns the variable of each e-node.
///
/// After a comment with the problem's name, each e-node gets a variable,
/// class by class. With `no_cycle`, the cycles of the class graph of the
/// classes the roots reach are ruled out, each by hard clauses (see
/// `cycle_lines`) as long as the counts stay within `cycle_room`. Then come
/// the hard clauses of weight `top` that ask for a chosen e-node in each
/// root and, for each child of a chosen e-node, in the child's class, and
/// a soft clause for each e-node, weighed by its weight in `weights`, that
/// it is not chosen.
#[verifier::spinoff_prover]
pub fn create_problem(
    egraph: &IndexedEGraph,
    writer: &mut ProblemWriter,
    name: &str,
    no_cycle: bool,
    top: i64,
    weights: &Vec<i64>,
) -> (node_vars: Vec<usize>)
    requires
        egraph.wf(),
        lists_each_node_once(egraph),
        weights@.len() == egraph.node_class@.len(),
        egraph.num_classes() + 2 <= usize::MAX,
        old(writer).num_vars() + total_nodes(egraph) <= cycle_room(),
        old(writer).num_clauses() <= cycle_room(),
        egraph.roots@.len() + child_count(egraph, egraph.class_nodes@.len() as int) + total_nodes(egraph) <= cycle_room(),
    ensures
        numbered_vars(egraph, old(writer).num_vars(), node_vars@),
        exists|h: HyperGraph, cs: Seq<Vec<usize>>, cls: Seq<Seq<Vec<usize>>>, done: int|
            {
                &&& #[trigger] rules_out_cycles(
                    egraph,
                    node_vars@,
                    no_cycle,
                    h,
                    cs,
                    cls,
                    done,
                    old(writer).num_vars() + total_nodes(egraph),
                    old(writer).num_clauses(),
                )
                &&& final(writer).problem_text() == old(writer).problem_text() + comment_line("Problem: "@ + name@)
                    + problem_body(
                    egraph,
                    node_vars@,
                    weights@,
                    top as int,
                    cs,
                    cls,
                    old(writer).num_vars() + total_nodes(egraph),
                    done,
                )
                &&& final(writer).num_vars() == old(writer).num_vars() + total_nodes(egraph) + cycles_vars(cs, cls, done)
                &&& final(writer).num_clauses() == old(writer).num_clauses() + cycles_clauses(egraph, cs, cls, done)
                    + egraph.roots@.len() + child_count(egraph, egraph.class_nodes@.len() as int) + total_nodes(
                    egraph,
                )
                &&& final(writer).parameters_text() == parameters_line(
                    final(writer).num_vars(),
                    final(writer).num_clauses(),
                    top as int,
                )
            },
        final(writer).path_text() == old(writer).path_text(),
{
    proof {
        reveal_strlit("Problem: ");
        reveal_strlit("Hard clauses:");
        reveal_strlit("Soft clauses:");
    }
    let mut title = String::new();
    append_text(&mut title, "Problem: ");
    append_text(&mut title, name);
    writer.comment(title.as_str());
    let node_vars = number_vars(egraph, writer);
    let ghost base = writer.num_vars();
    let w = write_cycles_part(egraph, &node_vars, writer, top, no_cycle);
    writer.comment("Hard clauses:");
    write_hard_clauses(egraph, &node_vars, writer, top);
    writer.comment("Soft clauses:");
    write_soft_clauses(egraph, &node_vars, weights, writer);
    writer.parameters(top);
    proof {
        let (h, cs, cls, done) = w@;
        assert(writer.problem_text() =~= old(writer).problem_text() + comment_line("Problem: "@ + name@) + problem_body(
            egraph,
            node_vars@,
            weights@,
            top as int,
            cs,
            cls,
            base,
            done,
        ));
        assert(rules_out_cycles(egraph, node_vars@, no_cycle, h, cs, cls, done, base, old(writer).num_clauses()));
    }
    node_vars
}

/// The first of the first `k` e-nodes of class `c`, in the order the class
/// lists them, that is set in `active`, where there is one.
pub open spec fn first_active_upto(g: &IndexedEGraph, active: Seq<bool>, c: usize, k: int) -> Option<usize>
    decreases k,
{
    if k <= 0 {
        None
    } else {
        match first_active_upto(g, active, c, k - 1) {
            Some(n) => Some(n),
            None => if active[g.member(c, k - 1) as int] {
                Some(g.member(c, k - 1))
            } else {
                None
            },
        }
    }
}

/// The first e-node of class `c` that is set in `active`, where there is
/// one.
pub open spec fn first_active(g: &IndexedEGraph, active: Seq<bool>, c: usize) -> Option<usize> {
    first_active_upto(g, active, c, g.class_nodes@[c as int]@.len() as int)
}

/// The first active e-node of class `a` has a child in class `b`.
pub open spec fn active_edge(g: &IndexedEGraph, active: Seq<bool>, a: usize, b: usize) -> bool {
    &&& a < g.num_classes()
    &&& first_active(g, active, a) is Some
    &&& g.node_points_to(first_active(g, active, a)->0, b)
}

/// The first e-node of class `c` that is set in `active`, where there is
/// one.
fn first_active_node(egraph: &IndexedEGraph, active: &Vec<bool>, c: usize) -> (r: Option<usize>)
    requires
        egraph.wf(),
        active@.len() == egraph.node_class@.len(),
        c < egraph.class_nodes@.len(),
    ensures
        r == first_active(egraph, active@, c),
        r matches Some(n) ==> n < egraph.node_class@.len() && egraph.node_class@[n as int] == c,
{
    let members = &egraph.class_nodes[c];
    let mut found: Option<usize> = None;
    let mut k: usize = 0;
    while k < members.len()
        invariant
            egraph.wf(),
            active@.len() == egraph.node_class@.len(),
            c < egraph.class_nodes@.len(),
            members == egraph.class_nodes@[c as int],
            k <= members@.len(),
            found == first_active_upto(egraph, active@, c, k as int),
            found matches Some(n) ==> n < egraph.node_class@.len() && egraph.node_class@[n as int] == c,
        decreases members@.len() - k,
    {
        if found.is_none() {
            let n = members[k];
            proof {
                assert(n < egraph.node_class@.len());
            }
            if active[n] {
                found = Some(n);
            }
        }
        k = k + 1;
    }
    found
}

/// The child classes of the first active e-node of each class.
fn active_children(egraph: &IndexedEGraph, active: &Vec<bool>) -> (r: Vec<Option<Vec<usize>>>)
    requires
        egraph.wf(),
        active@.len() == egraph.node_class@.len(),
    ensures
        r@.len() == egraph.num_classes(),
        choices_in_range(r@),
        forall|c: int| 0 <= c < r@.len() ==> (r@[c] is Some <==> first_active(egraph, active@, c as usize) is Some),
        forall|a: usize, b: usize| #[trigger] chosen_edge(r@, a, b) <==> active_edge(egraph, active@, a, b),
{
    let mut r: Vec<Option<Vec<usize>>> = Vec::new();
    let mut c: usize = 0;
    while c < egraph.class_nodes.len()
        invariant
            egraph.wf(),
            active@.len() == egraph.node_class@.len(),
            c <= egraph.class_nodes@.len(),
            r@.len() == c,
            forall|c2: int, j: int|
                0 <= c2 < c && r@[c2] is Some && 0 <= j < r@[c2]->0@.len() ==> #[trigger] r@[c2]->0@[j] < egraph.num_classes(),
            forall|c2: int| 0 <= c2 < c ==> (#[trigger] r@[c2] is Some <==> first_active(egraph, active@, c2 as usize) is Some),
            forall|c2: int, b: usize|
                0 <= c2 < c ==> (r@[c2] is Some && #[trigger] r@[c2]->0@.contains(b) <==> active_edge(egraph, active@, c2 as usize, b)),
        decreases egraph.class_nodes@.len() - c,
    {
        let found = first_active_node(egraph, active, c);
        let entry = match found {
            Some(n) => {
                let kids = &egraph.node_children[n];
                let mut v: Vec<usize> = Vec::new();
                let mut j: usize = 0;
                while j < kids.len()
                    invariant
                        egraph.wf(),
                        n < egraph.node_class@.len(),
                        kids == egraph.node_children@[n as int],
                        j <= kids@.len(),
                        v@.len() == j,
                        forall|j2: int| 0 <= j2 < j ==> #[trigger] v@[j2] == egraph.child_class(n, j2),
                    decreases kids@.len() - j,
                {
                    proof {
                        assert(kids@[j as int] < egraph.node_class@.len());
                    }
                    v.push(egraph.node_class[kids[j]]);
                    j = j + 1;
                }
                proof {
                    assert forall|b: usize| v@.contains(b) <==> egraph.node_points_to(n, b) by {
                        if v@.contains(b) {
                            let j2 = choose|j2: int| 0 <= j2 < v@.len() && v@[j2] == b;
                            assert(egraph.child_class(n, j2) == b);
                        }
                        if egraph.node_points_to(n, b) {
                            let j2 = choose|j2: int| 0 <= j2 < egraph.node_children@[n as int]@.len() && #[trigger] egraph.child_class(n, j2) == b;
                            assert(v@[j2] == b);
                        }
                    }
                }
                Some(v)
            },
            None => None,
        };
        let ghost before = r@;
        r.push(entry);
        proof {
            assert forall|c2: int, j: int|
                0 <= c2 < c + 1 && r@[c2] is Some && 0 <= j < r@[c2]->0@.len() implies #[trigger] r@[c2]->0@[j] < egraph.num_classes() by {
                if c2 < c {
                    assert(r@[c2] == before[c2]);
                } else {
                    let n = found->0;
                    assert(r@[c2]->0@[j] == egraph.child_class(n, j));
                    assert(egraph.node_children@[n as int]@[j] < egraph.node_class@.len());
                }
            }
            assert forall|c2: int| 0 <= c2 < c + 1 implies (#[trigger] r@[c2] is Some <==> first_active(egraph, active@, c2 as usize) is Some) by {
                if c2 < c {
                    assert(r@[c2] == before[c2]);
                }
            }
            assert forall|c2: int, b: usize|
                0 <= c2 < c + 1 implies (r@[c2] is Some && #[trigger] r@[c2]->0@.contains(b) <==> active_edge(egraph, active@, c2 as usize, b)) by {
                if c2 < c {
                    assert(r@[c2] == before[c2]);
                }
            }
        }
        c = c + 1;
    }
    proof {
        assert forall|a: usize, b: usize| #[trigger] chosen_edge(r@, a, b) <==> active_edge(egraph, active@, a, b) by {
            if a < r@.len() {
                assert(r@[a as int] is Some && r@[a as int]->0@.contains(b) <==> active_edge(egraph, active@, a, b));
            }
        }
    }
    r
}

/// Every class that the first active e-node of a class in `s` has a child
/// in is in `s`.
pub open spec fn active_closed(g: &IndexedEGraph, active: Seq<bool>, s: Set<usize>) -> bool {
    forall|a: usize, b: usize|
        #![trigger s.contains(a), active_edge(g, active, a, b)]
        s.contains(a) && active_edge(g, active, a, b) ==> s.contains(b)
}

/// The solution needs class `c`: it lies in every set that holds the roots
/// and is closed under the first active e-nodes' children.
pub open spec fn active_needs(g: &IndexedEGraph, active: Seq<bool>, c: usize) -> bool {
    forall|s: Set<usize>|
        #![trigger active_closed(g, active, s), s.contains(c)]
        active_closed(g, active, s) && (forall|i: int| 0 <= i < g.roots@.len() ==> s.contains(#[trigger] g.roots@[i]))
            ==> s.contains(c)
}

/// Every class the solution needs has an active e-node.
pub open spec fn active_needs_met(g: &IndexedEGraph, active: Seq<bool>) -> bool {
    forall|c: usize| #[trigger] active_needs(g, active, c) ==> c < g.num_classes() && first_active(g, active, c) is Some
}

/// `rank` goes down along each edge of the first active e-nodes of the
/// classes the solution needs.
pub open spec fn active_ranked(g: &IndexedEGraph, active: Seq<bool>, rank: spec_fn(usize) -> nat) -> bool {
    forall|a: usize, b: usize| #[trigger] active_edge(g, active, a, b) && active_needs(g, active, a) ==> rank(b) < rank(a)
}

/// The first active e-nodes of the classes the solution needs form no
/// cycle.
pub open spec fn active_acyclic(g: &IndexedEGraph, active: Seq<bool>) -> bool {
    exists|rank: spec_fn(usize) -> nat| active_ranked(g, active, rank)
}

/// With the same edges, the chosen e-nodes and the first active e-nodes
/// need the same classes, meet the same needs and have the same rankings.
proof fn lemma_same_edges(g: &IndexedEGraph, active: Seq<bool>, chosen: Seq<Option<Vec<usize>>>)
    requires
        chosen.len() == g.num_classes(),
        forall|c: int| 0 <= c < chosen.len() ==> (chosen[c] is Some <==> first_active(g, active, c as usize) is Some),
        forall|a: usize, b: usize| #[trigger] chosen_edge(chosen, a, b) <==> active_edge(g, active, a, b),
    ensures
        forall|c: usize| #[trigger] needed(chosen, g.roots@, c) <==> active_needs(g, active, c),
        needed_all_chosen(chosen, g.roots@) <==> active_needs_met(g, active),
        choice_acyclic(chosen, g.roots@) <==> active_acyclic(g, active),
{
    assert forall|s: Set<usize>| closed_under_choice(chosen, s) <==> active_closed(g, active, s) by {
        if closed_under_choice(chosen, s) {
            assert forall|a: usize, b: usize| s.contains(a) && active_edge(g, active, a, b) implies s.contains(b) by {
                assert(chosen_edge(chosen, a, b));
            }
        }
        if active_closed(g, active, s) {
            assert forall|a: usize, b: usize| s.contains(a) && chosen_edge(chosen, a, b) implies s.contains(b) by {
                assert(active_edge(g, active, a, b));
            }
        }
    }
    assert forall|c: usize| #[trigger] needed(chosen, g.roots@, c) <==> active_needs(g, active, c) by {
        if needed(chosen, g.roots@, c) {
            assert forall|s: Set<usize>|
                active_closed(g, active, s) && (forall|i: int| 0 <= i < g.roots@.len() ==> s.contains(#[trigger] g.roots@[i]))
                    implies s.contains(c) by {
                assert(closed_under_choice(chosen, s));
            }
        }
        if active_needs(g, active, c) {
            assert forall|s: Set<usize>|
                closed_under_choice(chosen, s) && (forall|i: int| 0 <= i < g.roots@.len() ==> s.contains(#[trigger] g.roots@[i]))
                    implies s.contains(c) by {
                assert(active_closed(g, active, s));
            }
        }
    }
    if needed_all_chosen(chosen, g.roots@) {
        assert forall|c: usize| #[trigger] active_needs(g, active, c) implies c < g.num_classes() && first_active(g, active, c) is Some by {
            assert(needed(chosen, g.roots@, c));
        }
    }
    if active_needs_met(g, active) {
        assert forall|c: usize| #[trigger] needed(chosen, g.roots@, c) implies c < chosen.len() && chosen[c as int] is Some by {
            assert(active_needs(g, active, c));
        }
    }
    if choice_acyclic(chosen, g.roots@) {
        let rank = choose|rank: spec_fn(usize) -> nat| ranked(chosen, g.roots@, rank);
        assert(active_ranked(g, active, rank)) by {
            assert forall|a: usize, b: usize| #[trigger] active_edge(g, active, a, b) && active_needs(g, active, a) implies rank(b) < rank(a) by {
                assert(chosen_edge(chosen, a, b));
                assert(needed(chosen, g.roots@, a));
            }
        }
    }
    if active_acyclic(g, active) {
        let rank = choose|rank: spec_fn(usize) -> nat| active_ranked(g, active, rank);
        assert(ranked(chosen, g.roots@, rank)) by {
            assert forall|a: usize, b: usize| #[trigger] chosen_edge(chosen, a, b) && needed(chosen, g.roots@, a) implies rank(b) < rank(a) by {
                assert(active_edge(g, active, a, b));
                assert(active_needs(g, active, a));
            }
        }
    }
}

/// The chosen e-nodes' child classes, one row per chosen e-node.
fn as_children(chosen: &Vec<Option<Vec<usize>>>) -> (r: Vec<Vec<Vec<usize>>>)
    ensures
        r@.len() == chosen@.len(),
        forall|a: int| 0 <= a < chosen@.len() ==> (#[trigger] r@[a])@.len() == if chosen@[a] is Some {
            1int
        } else {
            0int
        },
        forall|a: int| 0 <= a < chosen@.len() && chosen@[a] is Some ==> (#[trigger] r@[a])@[0]@ == chosen@[a]->0@,
{
    let mut r: Vec<Vec<Vec<usize>>> = Vec::new();
    let mut a: usize = 0;
    while a < chosen.len()
        invariant
            a <= chosen@.len(),
            r@.len() == a,
            forall|a2: int| 0 <= a2 < a ==> (#[trigger] r@[a2])@.len() == if chosen@[a2] is Some {
                1int
            } else {
                0int
            },
            forall|a2: int| 0 <= a2 < a && chosen@[a2] is Some ==> (#[trigger] r@[a2])@[0]@ == chosen@[a2]->0@,
        decreases chosen@.len() - a,
    {
        let mut row: Vec<Vec<usize>> = Vec::new();
        match &chosen[a] {
            Some(v) => {
                row.push(copy_vec(v));
            },
            None => {},
        }
        let ghost before = r@;
        r.push(row);
        proof {
            assert forall|a2: int| 0 <= a2 < a + 1 implies (#[trigger] r@[a2])@.len() == if chosen@[a2] is Some {
                1int
            } else {
                0int
            } by {
                if a2 < a {
                    assert(r@[a2] == before[a2]);
                }
            }
            assert forall|a2: int| 0 <= a2 < a + 1 && chosen@[a2] is Some implies (#[trigger] r@[a2])@[0]@ == chosen@[a2]->0@ by {
                if a2 < a {
                    assert(r@[a2] == before[a2]);
                }
            }
        }
        a = a + 1;
    }
    r
}

/// The e-nodes that a solution of the problem chooses, `active[n]` telling
/// whether e-node `n`'s variable is set: for each class that the roots need
/// along the first active e-node of each class, that e-node. `None` when a
/// class the roots need has no active e-node or the first active e-nodes
/// they need form a cycle.
#[verifier::spinoff_prover]
pub fn solution_choices(egraph: &IndexedEGraph, active: &Vec<bool>) -> (r: Option<ExtractionResult>)
    requires
        egraph.wf(),
        active@.len() == egraph.node_class@.len(),
    ensures
        r is Some <==> active_needs_met(egraph, active@) && active_acyclic(egraph, active@),
        r matches Some(res) ==> forall|c: usize| #[trigger]
            res.chosen(c) == if active_needs(egraph, active@, c) {
                first_active(egraph, active@, c)
            } else {
                None
            },
{
    let chosen = active_children(egraph, active);
    proof {
        lemma_same_edges(egraph, active@, chosen@);
    }
    let found = find_cycles_in_result(&chosen, egraph.roots.as_slice());
    let cycles = match found {
        None => {
            return None;
        },
        Some(cs) => cs,
    };
    if cycles.len() > 0 {
        return None;
    }
    let children = as_children(&chosen);
    proof {
        assert forall|a: int, k: int, j: int|
            0 <= a < children@.len() && 0 <= k < children@[a]@.len() && 0 <= j < children@[a]@[k]@.len() implies #[trigger] children@[a]@[k]@[j]
                < children@.len() by {
            assert(k == 0);
            assert(chosen@[a]->0@[j] < chosen@.len());
        }
        assert forall|a: usize, c: usize| a < children@.len() implies (has_child(children@, a as int, c) <==> chosen_edge(chosen@, a, c)) by {
            if chosen@[a as int] is Some {
                if chosen_edge(chosen@, a, c) {
                    assert(crate::extract::faster_ilp_cbc::child_of(children@, a as int, 0, c));
                }
            }
        }
        assert forall|s: Set<usize>| closed_set(children@, s) <==> closed_under_choice(chosen@, s) by {
            if closed_set(children@, s) {
                assert forall|a: usize, b: usize| s.contains(a) && chosen_edge(chosen@, a, b) implies s.contains(b) by {
                    assert(has_child(children@, a as int, b));
                }
            }
            if closed_under_choice(chosen@, s) {
                assert forall|a: usize, b: usize| s.contains(a) && a < children@.len() && has_child(children@, a as int, b) implies s.contains(b) by {
                    assert(chosen_edge(chosen@, a, b));
                }
            }
        }
        assert forall|c: usize| #[trigger] reaches_class(children@, egraph.roots@, c) <==> needed(chosen@, egraph.roots@, c) by {
            if reaches_class(children@, egraph.roots@, c) {
                assert forall|s: Set<usize>|
                    closed_under_choice(chosen@, s) && (forall|i: int| 0 <= i < egraph.roots@.len() ==> s.contains(#[trigger] egraph.roots@[i]))
                        implies s.contains(c) by {
                    assert(closed_set(children@, s));
                }
            }
            if needed(chosen@, egraph.roots@, c) {
                assert forall|s: Set<usize>|
                    closed_set(children@, s) && (forall|i: int| 0 <= i < egraph.roots@.len() ==> s.contains(#[trigger] egraph.roots@[i]))
                        implies s.contains(c) by {
                    assert(closed_under_choice(chosen@, s));
                }
            }
        }
    }
    let reach = reachable(&children, egraph.roots.as_slice());
    let mut result = ExtractionResult::new();
    let n = egraph.class_nodes.len();
    let mut c: usize = 0;
    while c < n
        invariant
            egraph.wf(),
            active@.len() == egraph.node_class@.len(),
            n == egraph.num_classes(),
            reach@.len() == n,
            c <= n,
            needed_all_chosen(chosen@, egraph.roots@),
            chosen@.len() == n,
            forall|c2: int| 0 <= c2 < n ==> (chosen@[c2] is Some <==> first_active(egraph, active@, c2 as usize) is Some),
            forall|c2: int| 0 <= c2 < n ==> (reach@[c2] <==> reaches_class(children@, egraph.roots@, c2 as usize)),
            forall|c2: usize| #[trigger] reaches_class(children@, egraph.roots@, c2) <==> needed(chosen@, egraph.roots@, c2),
            forall|c2: usize| #[trigger] needed(chosen@, egraph.roots@, c2) <==> active_needs(egraph, active@, c2),
            forall|c2: usize|
                c2 < c ==> #[trigger] result.chosen(c2) == if active_needs(egraph, active@, c2) {
                    first_active(egraph, active@, c2)
                } else {
                    None
                },
            forall|c2: usize| c <= c2 ==> #[trigger] result.chosen(c2) is None,
        decreases n - c,
    {
        if reach[c] {
            let node = first_active_node(egraph, active, c);
            proof {
                assert(needed(chosen@, egraph.roots@, c));
                assert(chosen@[c as int] is Some);
            }
            result.choose_node(c, node.unwrap());
        }
        proof {
            assert(reach@[c as int] <==> active_needs(egraph, active@, c)) by {
                assert(reach@[c as int] <==> reaches_class(children@, egraph.roots@, c));
            }
        }
        c = c + 1;
    }
    proof {
        assert forall|c2: usize| #[trigger] result.chosen(c2) == if active_needs(egraph, active@, c2) {
            first_active(egraph, active@, c2)
        } else {
            None
        } by {
            if c2 >= n {
                if active_needs(egraph, active@, c2) {
                    assert(needed(chosen@, egraph.roots@, c2));
                }
            }
        }
    }
    Some(result)
}


/// The hard clause lines, of weight `top`, that rule out each e-node of `ns`
/// in turn.
pub open spec fn ruling_out_lines(vars: Seq<usize>, top: int, ns: Seq<usize>) -> Seq<char>
    decreases ns.len(),
{
    if ns.len() == 0 {
        Seq::empty()
    } else {
        ruling_out_lines(vars, top, ns.drop_last()) + clause_line(top, negated_var(vars, ns.last()))
    }
}

/// The first `k` e-nodes of class `c` give, for the loop on `c`, one hard
/// clause per e-node with a child in `c`, and no other.
proof fn lemma_self_loop_lines_rule_out(g: &IndexedEGraph, vars: Seq<usize>, top: int, c: usize, k: int) -> (ns: Seq<usize>)
    requires
        0 <= k <= g.class_nodes@[c as int]@.len(),
    ensures
        self_loop_lines(g, vars, top, c, k) == ruling_out_lines(vars, top, ns),
        forall|n: usize| #[trigger] ns.contains(n) <==> (exists|i: int| 0 <= i < k && g.member(c, i) == n) && g.node_points_to(n, c),
    decreases k,
{
    if k == 0 {
        Seq::empty()
    } else {
        let front = lemma_self_loop_lines_rule_out(g, vars, top, c, k - 1);
        let n = g.member(c, k - 1);
        if g.node_points_to(n, c) {
            let ns = front.push(n);
            assert(ns.drop_last() =~= front);
            assert forall|x: usize| #[trigger] ns.contains(x) <==> (exists|i: int| 0 <= i < k && g.member(c, i) == x)
                && g.node_points_to(x, c) by {
                if ns.contains(x) && x != n {
                    let j = choose|j: int| 0 <= j < ns.len() && ns[j] == x;
                    assert(front[j] == x);
                    assert(front.contains(x));
                }
                if front.contains(x) {
                    let j = choose|j: int| 0 <= j < front.len() && front[j] == x;
                    assert(ns[j] == x);
                }
                if x == n {
                    assert(ns[ns.len() - 1] == x);
                }
                if (exists|i: int| 0 <= i < k && g.member(c, i) == x) && g.node_points_to(x, c) && x != n {
                    let i = choose|i: int| 0 <= i < k && g.member(c, i) == x;
                    assert(i != k - 1);
                    assert(front.contains(x));
                }
            }
            ns
        } else {
            assert forall|x: usize| #[trigger] front.contains(x) <==> (exists|i: int| 0 <= i < k && g.member(c, i) == x)
                && g.node_points_to(x, c) by {
                if (exists|i: int| 0 <= i < k && g.member(c, i) == x) && g.node_points_to(x, c) {
                    let i = choose|i: int| 0 <= i < k && g.member(c, i) == x;
                    if i == k - 1 {
                        assert(x == n);
                    }
                }
            }
            front
        }
    }
}

/// A cycle of one class `c` is ruled out by one hard clause `-v(n)` for each
/// e-node `n` of `c` that has a child, at any position, in `c` itself, and by
/// no other line.
pub proof fn law_loop_on_a_class_rules_out_its_looping_nodes(
    g: &IndexedEGraph,
    vars: Seq<usize>,
    top: int,
    c: usize,
    cl: Seq<Vec<usize>>,
    base: nat,
)
    requires
        c < g.class_nodes@.len(),
    ensures
        exists|ns: Seq<usize>|
            {
                &&& cycle_lines(g, vars, top, seq![c], cl, base) == ruling_out_lines(vars, top, ns)
                &&& forall|n: usize| #[trigger] ns.contains(n) <==> g.class_nodes@[c as int]@.contains(n)
                    && exists|j: int|
                    0 <= j < g.node_children@[n as int]@.len() && g.node_class@[g.node_children@[n as int]@[j] as int] == c
            },
{
    let len = g.class_nodes@[c as int]@.len() as int;
    let ns = lemma_self_loop_lines_rule_out(g, vars, top, c, len);
    assert(seq![c][0] == c);
    assert forall|n: usize| #[trigger] ns.contains(n) <==> g.class_nodes@[c as int]@.contains(n)
        && exists|j: int|
        0 <= j < g.node_children@[n as int]@.len() && g.node_class@[g.node_children@[n as int]@[j] as int] == c by {
        if g.class_nodes@[c as int]@.contains(n) {
            let i = choose|i: int| 0 <= i < len && g.class_nodes@[c as int]@[i] == n;
            assert(g.member(c, i) == n);
        }
        if exists|i: int| 0 <= i < len && g.member(c, i) == n {
            let i = choose|i: int| 0 <= i < len && g.member(c, i) == n;
            assert(g.class_nodes@[c as int]@[i] == n);
        }
        if exists|j: int| 0 <= j < g.node_children@[n as int]@.len() && g.node_class@[g.node_children@[n as int]@[j] as int] == c {
            let j = choose|j: int| 0 <= j < g.node_children@[n as int]@.len() && g.node_class@[g.node_children@[n as int]@[j] as int] == c;
            assert(g.child_class(n, j) == c);
        }
    }
}


/// The lines that rule out the first `done` cycles begin with those that
/// rule out the first `q` of them followed by the lines of cycle `q`: each
/// ruled-out cycle's own lines stand, whole and in order, in the text.
pub proof fn law_each_ruled_out_cycle_has_its_lines(
    g: &IndexedEGraph,
    vars: Seq<usize>,
    top: int,
    cs: Seq<Vec<usize>>,
    cls: Seq<Seq<Vec<usize>>>,
    base: nat,
    done: int,
    q: int,
)
    requires
        0 <= q < done,
    ensures
        (cycles_lines(g, vars, top, cs, cls, base, q) + cycle_lines(
            g,
            vars,
            top,
            cs[q]@,
            cls[q],
            base + cycles_vars(cs, cls, q),
        )).len() <= cycles_lines(g, vars, top, cs, cls, base, done).len(),
        cycles_lines(g, vars, top, cs, cls, base, done).subrange(
            0,
            (cycles_lines(g, vars, top, cs, cls, base, q) + cycle_lines(
                g,
                vars,
                top,
                cs[q]@,
                cls[q],
                base + cycles_vars(cs, cls, q),
            )).len() as int,
        ) == cycles_lines(g, vars, top, cs, cls, base, q) + cycle_lines(
            g,
            vars,
            top,
            cs[q]@,
            cls[q],
            base + cycles_vars(cs, cls, q),
        ),
    decreases done,
{
    let front = cycles_lines(g, vars, top, cs, cls, base, q) + cycle_lines(
        g,
        vars,
        top,
        cs[q]@,
        cls[q],
        base + cycles_vars(cs, cls, q),
    );
    let whole = cycles_lines(g, vars, top, cs, cls, base, done);
    if q == done - 1 {
        assert(whole == front);
        assert(whole.subrange(0, front.len() as int) =~= front);
    } else {
        law_each_ruled_out_cycle_has_its_lines(g, vars, top, cs, cls, base, done - 1, q);
        let prev = cycles_lines(g, vars, top, cs, cls, base, done - 1);
        let last = cycle_lines(g, vars, top, cs[done - 1]@, cls[done - 1], base + cycles_vars(cs, cls, done - 1));
        assert(whole == prev + last);
        assert(whole.subrange(0, front.len() as int) =~= prev.subrange(0, front.len() as int));
    }
}

} // verus!
