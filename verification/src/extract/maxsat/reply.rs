//! Reading the MaxSAT solver's answer: its output lines start with an
//! indicator (`c` comment, `o` cost, `s` status, `v` assignment) and a space.
use vstd::prelude::*;

verus! {

/// The index of the first space in `line` at or after `i`, or its length.
pub open spec fn space_from(line: Seq<char>, i: int) -> int
    decreases line.len() - i,
{
    if i >= line.len() {
        line.len() as int
    } else if line[i] == ' ' {
        i
    } else {
        space_from(line, i + 1)
    }
}

/// What a line says before its first space: its indicator.
pub open spec fn indicator(line: Seq<char>) -> Seq<char> {
    line.take(space_from(line, 0))
}

/// What a line says after its first space; nothing if it has none.
pub open spec fn remainder(line: Seq<char>) -> Seq<char> {
    let k = space_from(line, 0);
    if k < line.len() {
        line.skip(k + 1)
    } else {
        Seq::empty()
    }
}

/// The remainder of the first of `lines[i..]` whose indicator is `c`.
pub open spec fn first_with_from(lines: Seq<Seq<char>>, c: char, i: int) -> Option<Seq<char>>
    decreases lines.len() - i,
{
    if i < 0 || i >= lines.len() {
        None
    } else if indicator(lines[i]) == seq![c] {
        Some(remainder(lines[i]))
    } else {
        first_with_from(lines, c, i + 1)
    }
}

/// The remainder of the first line whose indicator is `c`.
pub open spec fn first_with(lines: Seq<Seq<char>>, c: char) -> Option<Seq<char>> {
    first_with_from(lines, c, 0)
}

/// `word` occurs in `text`.
pub open spec fn occurs_in(word: Seq<char>, text: Seq<char>) -> bool {
    exists|k: int| 0 <= k && k + word.len() <= text.len() && #[trigger] text.subrange(k, k + word.len()) == word
}

/// The word a solver's status line holds when no assignment satisfies the
/// hard clauses.
pub open spec fn unsat_word() -> Seq<char> {
    seq!['U', 'N', 'S', 'A', 'T', 'I', 'S', 'F', 'I', 'A', 'B', 'L', 'E']
}

/// What a MaxSAT solver's output says.
pub enum SolverReply {
    /// No line has the indicator `s`.
    NoStatus,
    /// The first `s` line reports that the problem is unsatisfiable.
    Unsatisfiable,
    /// No line has the indicator `v`.
    NoAssignment,
    /// The first `v` line's text, one character per variable (`1` for
    /// true), and the first `o` line's text, if any.
    Solved { assignment: Vec<char>, cost: Option<Vec<char>> },
}

/// The index of the first space in `line`, or its length.
fn find_space(line: &Vec<char>) -> (k: usize)
    ensures
        k == space_from(line@, 0),
        k <= line@.len(),
{
    let mut k: usize = 0;
    while k < line.len()
        invariant
            k <= line@.len(),
            space_from(line@, 0) == space_from(line@, k as int),
        decreases line@.len() - k,
    {
        if line[k] == ' ' {
            return k;
        }
        k = k + 1;
    }
    k
}

/// The characters of `line` from `start` on.
fn tail_of(line: &Vec<char>, start: usize) -> (r: Vec<char>)
    requires
        start <= line@.len(),
    ensures
        r@ == line@.skip(start as int),
{
    let mut r: Vec<char> = Vec::new();
    let mut j: usize = start;
    while j < line.len()
        invariant
            start <= j <= line@.len(),
            r@ == line@.subrange(start as int, j as int),
        decreases line@.len() - j,
    {
        r.push(line[j]);
        j = j + 1;
    }
    r
}

/// The remainder of the first of `lines` whose indicator is `c`.
fn find_line(lines: &Vec<Vec<char>>, c: char) -> (r: Option<Vec<char>>)
    ensures
        match r {
            Some(t) => first_with(lines.deep_view(), c) == Some(t@),
            None => first_with(lines.deep_view(), c) is None,
        },
{
    let ghost ls = lines.deep_view();
    let mut i: usize = 0;
    while i < lines.len()
        invariant
            i <= lines@.len(),
            ls == lines.deep_view(),
            first_with(ls, c) == first_with_from(ls, c, i as int),
        decreases lines@.len() - i,
    {
        let line = &lines[i];
        assert(ls[i as int] == line@);
        let k = find_space(line);
        if k == 1 && line[0] == c {
            assert(indicator(line@) =~= seq![c]);
            if k < line.len() {
                return Some(tail_of(line, k + 1));
            } else {
                return Some(Vec::new());
            }
        }
        assert(indicator(line@) != seq![c]) by {
            if indicator(line@) =~= seq![c] {
                assert(indicator(line@).len() == 1);
                assert(indicator(line@)[0] == line@[0]);
            }
        }
        i = i + 1;
    }
    None
}

/// Whether `word` occurs in `text`.
fn occurs(word: &Vec<char>, text: &Vec<char>) -> (b: bool)
    ensures
        b == occurs_in(word@, text@),
{
    if word.len() > text.len() {
        return false;
    }
    let last = text.len() - word.len();
    assert(text@.len() <= usize::MAX);
    let mut k: usize = 0;
    while k <= last
        invariant
            last == text@.len() - word@.len(),
            text@.len() <= usize::MAX,
            k <= last + 1,
            forall|m: int| 0 <= m < k ==> #[trigger] text@.subrange(m, m + word@.len()) != word@,
        decreases last + 1 - k,
    {
        let mut j: usize = 0;
        let mut same = true;
        while j < word.len()
            invariant
                k <= last,
                last == text@.len() - word@.len(),
                k + word@.len() <= text@.len(),
                text@.len() <= usize::MAX,
                j <= word@.len(),
                same == forall|m: int| 0 <= m < j ==> text@[k + m] == word@[m],
            decreases word@.len() - j,
        {
            if text[k + j] != word[j] {
                same = false;
            }
            j = j + 1;
        }
        if same {
            assert(text@.subrange(k as int, k + word@.len()) =~= word@);
            return true;
        }
        assert(text@.subrange(k as int, k + word@.len()) != word@) by {
            let m = choose|m: int| 0 <= m < word@.len() && text@[k + m] != word@[m];
            assert(text@.subrange(k as int, k + word@.len())[m] == text@[k + m]);
        }
        if k == last {
            return false;
        }
        k = k + 1;
    }
    false
}

/// Reads a MaxSAT solver's output, one line per element: which of the
/// answers it gives, as the first `s`, `v` and `o` lines say.
pub fn read_solver_output(lines: &Vec<Vec<char>>) -> (r: SolverReply)
    ensures
        match r {
            SolverReply::NoStatus => first_with(lines.deep_view(), 's') is None,
            SolverReply::Unsatisfiable => first_with(lines.deep_view(), 's') matches Some(s) && occurs_in(
                unsat_word(),
                s,
            ),
            SolverReply::NoAssignment => first_with(lines.deep_view(), 's') matches Some(s) && !occurs_in(
                unsat_word(),
                s,
            ) && first_with(lines.deep_view(), 'v') is None,
            SolverReply::Solved { assignment, cost } => {
                &&& first_with(lines.deep_view(), 's') matches Some(s) && !occurs_in(unsat_word(), s)
                &&& first_with(lines.deep_view(), 'v') == Some(assignment@)
                &&& match cost {
                    Some(c) => first_with(lines.deep_view(), 'o') == Some(c@),
                    None => first_with(lines.deep_view(), 'o') is None,
                }
            },
        },
{
    let status = match find_line(lines, 's') {
        Some(s) => s,
        None => return SolverReply::NoStatus,
    };
    let word = vec!['U', 'N', 'S', 'A', 'T', 'I', 'S', 'F', 'I', 'A', 'B', 'L', 'E'];
    assert(word@ =~= unsat_word());
    if occurs(&word, &status) {
        return SolverReply::Unsatisfiable;
    }
    let assignment = match find_line(lines, 'v') {
        Some(v) => v,
        None => return SolverReply::NoAssignment,
    };
    let cost = find_line(lines, 'o');
    SolverReply::Solved { assignment, cost }
}

/// Variable `v` (numbered from 1) is true in `assignment`.
pub open spec fn var_true(assignment: Seq<char>, v: int) -> bool {
    1 <= v <= assignment.len() && assignment[v - 1] == '1'
}

/// For each e-node, whether its variable `node_vars[n]` is true in the
/// solver's assignment.
pub fn active_nodes(assignment: &Vec<char>, node_vars: &Vec<usize>) -> (r: Vec<bool>)
    ensures
        r@.len() == node_vars@.len(),
        forall|n: int| 0 <= n < node_vars@.len() ==> r@[n] == var_true(assignment@, node_vars@[n] as int),
{
    let mut r: Vec<bool> = Vec::new();
    let mut n: usize = 0;
    while n < node_vars.len()
        invariant
            n <= node_vars@.len(),
            r@.len() == n,
            forall|m: int| 0 <= m < n ==> r@[m] == var_true(assignment@, node_vars@[m] as int),
        decreases node_vars@.len() - n,
    {
        let v = node_vars[n];
        let on = v >= 1 && v <= assignment.len() && assignment[v - 1] == '1';
        r.push(on);
        n = n + 1;
    }
    r
}

} // verus!
