//! The weighted partial MaxSAT problem that the MaxSAT extractor hands to a
//! solver, written in the WCNF text format, and the cycle constraints that
//! it adds through a Tseytin encoding.
use vstd::prelude::*;
use std::collections::HashMap;

pub mod cycles;
pub mod problem;
pub mod reply;

verus! {

broadcast use vstd::std_specs::hash::group_hash_axioms;

/// The character of a decimal digit.
pub open spec fn digit_char(d: nat) -> char {
    if d == 0 {
        '0'
    } else if d == 1 {
        '1'
    } else if d == 2 {
        '2'
    } else if d == 3 {
        '3'
    } else if d == 4 {
        '4'
    } else if d == 5 {
        '5'
    } else if d == 6 {
        '6'
    } else if d == 7 {
        '7'
    } else if d == 8 {
        '8'
    } else {
        '9'
    }
}

/// The decimal numeral of `n`, without leading zeros.
pub open spec fn decimal(n: nat) -> Seq<char>
    decreases n,
{
    if n < 10 {
        seq![digit_char(n)]
    } else {
        decimal(n / 10).push(digit_char(n % 10))
    }
}

/// The decimal numeral of `n`, with a minus sign where it is negative.
pub open spec fn signed_decimal(n: int) -> Seq<char> {
    if n < 0 {
        seq!['-'] + decimal((-n) as nat)
    } else {
        decimal(n as nat)
    }
}

/// A WCNF clause line: the weight, the literals and the terminating zero.
pub open spec fn clause_line(weight: int, clause: Seq<char>) -> Seq<char> {
    signed_decimal(weight) + seq![' '] + clause + seq![' ', '0', '\n']
}

/// Appends the character of digit `d`.
fn append_digit(s: &mut String, d: u64)
    requires
        d < 10,
    ensures
        final(s)@ == old(s)@.push(digit_char(d as nat)),
{
    if d == 0 {
        proof {
            reveal_strlit("0");
        }
        s.append("0");
    } else if d == 1 {
        proof {
            reveal_strlit("1");
        }
        s.append("1");
    } else if d == 2 {
        proof {
            reveal_strlit("2");
        }
        s.append("2");
    } else if d == 3 {
        proof {
            reveal_strlit("3");
        }
        s.append("3");
    } else if d == 4 {
        proof {
            reveal_strlit("4");
        }
        s.append("4");
    } else if d == 5 {
        proof {
            reveal_strlit("5");
        }
        s.append("5");
    } else if d == 6 {
        proof {
            reveal_strlit("6");
        }
        s.append("6");
    } else if d == 7 {
        proof {
            reveal_strlit("7");
        }
        s.append("7");
    } else if d == 8 {
        proof {
            reveal_strlit("8");
        }
        s.append("8");
    } else {
        proof {
            reveal_strlit("9");
        }
        s.append("9");
    }
}

/// Appends the decimal numeral of `n`.
fn append_decimal(s: &mut String, n: u64)
    ensures
        final(s)@ == old(s)@ + decimal(n as nat),
    decreases n,
{
    if n >= 10 {
        append_decimal(s, n / 10);
    }
    append_digit(s, n % 10);
    proof {
        if n < 10 {
            assert(old(s)@.push(digit_char(n as nat)) =~= old(s)@ + seq![digit_char(n as nat)]);
        } else {
            assert(old(s)@ + decimal((n / 10) as nat) + seq![digit_char((n % 10) as nat)] =~= old(s)@ + decimal(n as nat));
        }
    }
}

/// Appends the decimal numeral of `n`, with its sign.
fn append_signed(s: &mut String, n: i64)
    ensures
        final(s)@ == old(s)@ + signed_decimal(n as int),
{
    if n < 0 {
        proof {
            reveal_strlit("-");
        }
        s.append("-");
        let m: u64 = ((-(n + 1)) as u64) + 1;
        append_decimal(s, m);
        proof {
            assert(m == -n);
            assert(old(s)@ + seq!['-'] + decimal(m as nat) =~= old(s)@ + signed_decimal(n as int));
        }
    } else {
        append_decimal(s, n as u64);
    }
}

/// Appends a literal string, its characters known.
fn append_text(s: &mut String, t: &str)
    ensures
        final(s)@ == old(s)@ + t@,
{
    s.append(t);
}

/// A weighted partial MaxSAT problem in WCNF, written clause by clause: the
/// problem line with the counts, and the clauses and comments after it.
pub struct ProblemWriter {
    pub path: String,
    problem: String,
    parameters: String,
    clause_counter: usize,
    var_counter: usize,
}

impl ProblemWriter {
    /// The path the problem is to be written to.
    pub closed spec fn path_text(&self) -> Seq<char> {
        self.path@
    }

    /// The comment and clause lines written so far.
    pub closed spec fn problem_text(&self) -> Seq<char> {
        self.problem@
    }

    /// The problem line, once it has been written.
    pub closed spec fn parameters_text(&self) -> Seq<char> {
        self.parameters@
    }

    /// The number of clauses written so far.
    pub closed spec fn num_clauses(&self) -> nat {
        self.clause_counter as nat
    }

    /// The number of variables handed out so far; they are numbered from 1.
    pub closed spec fn num_vars(&self) -> nat {
        self.var_counter as nat
    }

    /// An empty problem to be written to `path`.
    pub fn new(path: String) -> (w: Self)
        ensures
            w.path_text() == path@,
            w.problem_text() == Seq::<char>::empty(),
            w.parameters_text() == Seq::<char>::empty(),
            w.num_clauses() == 0,
            w.num_vars() == 0,
    {
        Self {
            path,
            problem: String::new(),
            parameters: String::new(),
            clause_counter: 0,
            var_counter: 0,
        }
    }

    /// The number of clauses written so far.
    pub fn clause_count(&self) -> (r: usize)
        ensures
            r == self.num_clauses(),
    {
        self.clause_counter
    }

    /// The number of variables handed out so far.
    pub fn var_count(&self) -> (r: usize)
        ensures
            r == self.num_vars(),
    {
        self.var_counter
    }

    /// Hands out the next variable.
    pub fn new_var(&mut self) -> (v: usize)
        requires
            old(self).num_vars() < usize::MAX,
        ensures
            v == old(self).num_vars() + 1,
            final(self).num_vars() == v,
            final(self).num_clauses() == old(self).num_clauses(),
            final(self).problem_text() == old(self).problem_text(),
            final(self).parameters_text() == old(self).parameters_text(),
            final(self).path_text() == old(self).path_text(),
    {
        self.var_counter = self.var_counter + 1;
        self.var_counter
    }

    /// Writes a comment line.
    pub fn comment(&mut self, comment: &str)
        ensures
            final(self).problem_text() == old(self).problem_text() + seq!['c', ' '] + comment@ + seq![
                '\n',
            ],
            final(self).num_vars() == old(self).num_vars(),
            final(self).num_clauses() == old(self).num_clauses(),
            final(self).parameters_text() == old(self).parameters_text(),
            final(self).path_text() == old(self).path_text(),
    {
        proof {
            reveal_strlit("c ");
            reveal_strlit("\n");
        }
        append_text(&mut self.problem, "c ");
        append_text(&mut self.problem, comment);
        append_text(&mut self.problem, "\n");
    }

    /// Writes the problem line: the numbers of variables and clauses, and
    /// the weight of a hard clause.
    pub fn parameters(&mut self, top: i64)
        ensures
            final(self).parameters_text() == seq!['p', ' ', 'w', 'c', 'n', 'f', ' '] + decimal(
                old(self).num_vars(),
            ) + seq![' '] + decimal(old(self).num_clauses()) + seq![' '] + signed_decimal(
                top as int,
            ) + seq!['\n'],
            final(self).problem_text() == old(self).problem_text(),
            final(self).num_vars() == old(self).num_vars(),
            final(self).num_clauses() == old(self).num_clauses(),
            final(self).path_text() == old(self).path_text(),
    {
        proof {
            reveal_strlit("p wcnf ");
            reveal_strlit(" ");
            reveal_strlit("\n");
        }
        let mut p = String::new();
        append_text(&mut p, "p wcnf ");
        append_decimal(&mut p, self.var_counter as u64);
        append_text(&mut p, " ");
        append_decimal(&mut p, self.clause_counter as u64);
        append_text(&mut p, " ");
        append_signed(&mut p, top);
        append_text(&mut p, "\n");
        self.parameters = p;
    }

    /// Writes a clause with weight `weight`.
    fn weighted_clause(&mut self, clause: &str, weight: i64)
        requires
            old(self).num_clauses() < usize::MAX,
        ensures
            final(self).problem_text() == old(self).problem_text() + clause_line(
                weight as int,
                clause@,
            ),
            final(self).num_clauses() == old(self).num_clauses() + 1,
            final(self).num_vars() == old(self).num_vars(),
            final(self).parameters_text() == old(self).parameters_text(),
            final(self).path_text() == old(self).path_text(),
    {
        proof {
            reveal_strlit(" ");
            reveal_strlit(" 0\n");
        }
        self.clause_counter = self.clause_counter + 1;
        append_signed(&mut self.problem, weight);
        append_text(&mut self.problem, " ");
        append_text(&mut self.problem, clause);
        append_text(&mut self.problem, " 0\n");
        proof {
            assert(self.problem@ =~= old(self).problem@ + clause_line(weight as int, clause@));
        }
    }

    /// Writes a hard clause: one whose weight `top` exceeds the sum of the
    /// weights of all soft clauses.
    pub fn hard_clause(&mut self, clause: &str, top: i64)
        requires
            old(self).num_clauses() < usize::MAX,
        ensures
            final(self).problem_text() == old(self).problem_text() + clause_line(top as int, clause@),
            final(self).num_clauses() == old(self).num_clauses() + 1,
            final(self).num_vars() == old(self).num_vars(),
            final(self).parameters_text() == old(self).parameters_text(),
            final(self).path_text() == old(self).path_text(),
    {
        self.weighted_clause(clause, top)
    }

    /// Writes a soft clause of weight `weight`.
    pub fn soft_clause(&mut self, clause: &str, weight: i64)
        requires
            old(self).num_clauses() < usize::MAX,
        ensures
            final(self).problem_text() == old(self).problem_text() + clause_line(
                weight as int,
                clause@,
            ),
            final(self).num_clauses() == old(self).num_clauses() + 1,
            final(self).num_vars() == old(self).num_vars(),
            final(self).parameters_text() == old(self).parameters_text(),
            final(self).path_text() == old(self).path_text(),
    {
        self.weighted_clause(clause, weight)
    }

    /// The text of the problem file: the problem line, then the rest.
    pub fn contents(&self) -> (r: String)
        ensures
            r@ == self.parameters_text() + self.problem_text(),
    {
        let mut r = self.parameters.clone();
        append_text(&mut r, self.problem.as_str());
        r
    }
}

impl Clone for ProblemWriter {
    fn clone(&self) -> (r: Self)
        ensures
            r.path_text() == self.path_text(),
            r.problem_text() == self.problem_text(),
            r.parameters_text() == self.parameters_text(),
            r.num_clauses() == self.num_clauses(),
            r.num_vars() == self.num_vars(),
    {
        ProblemWriter {
            path: self.path.clone(),
            problem: self.problem.clone(),
            parameters: self.parameters.clone(),
            clause_counter: self.clause_counter,
            var_counter: self.var_counter,
        }
    }
}

/// The numerals of `c`, separated by single spaces.
pub open spec fn join_decimals(c: Seq<usize>) -> Seq<char>
    decreases c.len(),
{
    if c.len() == 0 {
        Seq::empty()
    } else if c.len() == 1 {
        decimal(c[0] as nat)
    } else {
        join_decimals(c.drop_last()) + seq![' '] + decimal(c.last() as nat)
    }
}

/// How many of the first `k` clauses have more than one literal.
pub open spec fn count_long(clauses: Seq<Vec<usize>>, k: int) -> nat
    decreases k,
{
    if k <= 0 {
        0
    } else {
        count_long(clauses, k - 1) + if clauses[k - 1]@.len() > 1 {
            1nat
        } else {
            0nat
        }
    }
}

/// The variable that stands for clause `i`, when it has more than one
/// literal: the variables are handed out in the order of the clauses, after
/// the `base` already in use.
pub open spec fn clause_var(clauses: Seq<Vec<usize>>, base: nat, i: int) -> nat {
    base + count_long(clauses, i) + 1
}

/// The hard clauses `-v -x` for the first `k` literals `x` of `c`.
pub open spec fn implication_lines(c: Seq<usize>, v: nat, top: int, k: int) -> Seq<char>
    decreases k,
{
    if k <= 0 {
        Seq::empty()
    } else {
        implication_lines(c, v, top, k - 1) + clause_line(
            top,
            seq!['-'] + decimal(v) + seq![' ', '-'] + decimal(c[k - 1] as nat),
        )
    }
}

/// The hard clauses that make variable `v` equivalent to the conjunction of
/// the negations of the literals of `c`: `-v -x` for each `x`, then
/// `x1 x2 ... v`.
pub open spec fn definition_lines(c: Seq<usize>, v: nat, top: int) -> Seq<char> {
    implication_lines(c, v, top, c.len() as int) + clause_line(
        top,
        join_decimals(c) + seq![' '] + decimal(v),
    )
}

/// The definitions of the variables of the first `k` clauses.
pub open spec fn tseytin_defs(clauses: Seq<Vec<usize>>, base: nat, top: int, k: int) -> Seq<char>
    decreases k,
{
    if k <= 0 {
        Seq::empty()
    } else {
        tseytin_defs(clauses, base, top, k - 1) + if clauses[k - 1]@.len() > 1 {
            definition_lines(clauses[k - 1]@, clause_var(clauses, base, k - 1), top)
        } else {
            Seq::empty()
        }
    }
}

/// The literal for clause `i` in the final clause: its variable, or the
/// negation of its one literal.
pub open spec fn tseytin_item(clauses: Seq<Vec<usize>>, base: nat, i: int) -> Seq<char> {
    if clauses[i]@.len() > 1 {
        decimal(clause_var(clauses, base, i))
    } else {
        seq!['-'] + decimal(clauses[i]@[0] as nat)
    }
}

/// The literals of the first `k` clauses in the final clause, separated by
/// single spaces.
pub open spec fn tseytin_items(clauses: Seq<Vec<usize>>, base: nat, k: int) -> Seq<char>
    decreases k,
{
    if k <= 0 {
        Seq::empty()
    } else if k == 1 {
        tseytin_item(clauses, base, 0)
    } else {
        tseytin_items(clauses, base, k - 1) + seq![' '] + tseytin_item(clauses, base, k - 1)
    }
}

/// How many clauses the definitions of the first `k` clauses take.
pub open spec fn tseytin_clause_count(clauses: Seq<Vec<usize>>, k: int) -> nat
    decreases k,
{
    if k <= 0 {
        0
    } else {
        tseytin_clause_count(clauses, k - 1) + if clauses[k - 1]@.len() > 1 {
            clauses[k - 1]@.len() + 1
        } else {
            0nat
        }
    }
}

/// Counts grow with the prefix.
proof fn lemma_counts_grow(clauses: Seq<Vec<usize>>, j: int, k: int)
    requires
        0 <= j <= k,
    ensures
        count_long(clauses, j) <= count_long(clauses, k),
        count_long(clauses, k) <= k,
        tseytin_clause_count(clauses, j) <= tseytin_clause_count(clauses, k),
    decreases k,
{
    if k > 0 {
        if j < k {
            lemma_counts_grow(clauses, j, k - 1);
        } else {
            lemma_counts_grow(clauses, j - 1, k - 1);
        }
    }
}

/// The numerals of a list, separated by single spaces.
fn join_numbers(c: &Vec<usize>) -> (r: String)
    ensures
        r@ == join_decimals(c@),
{
    proof {
        reveal_strlit(" ");
    }
    let mut r = String::new();
    let mut j: usize = 0;
    while j < c.len()
        invariant
            j <= c@.len(),
            r@ == join_decimals(c@.subrange(0, j as int)),
        decreases c@.len() - j,
    {
        let ghost before = r@;
        proof {
            reveal_strlit(" ");
        }
        if j > 0 {
            append_text(&mut r, " ");
        }
        append_decimal(&mut r, c[j] as u64);
        proof {
            let t = c@.subrange(0, j + 1);
            assert(t.drop_last() =~= c@.subrange(0, j as int));
            if j == 0 {
                assert(r@ =~= join_decimals(t));
            } else {
                assert(r@ =~= join_decimals(t));
            }
        }
        j = j + 1;
    }
    proof {
        assert(c@.subrange(0, c@.len() as int) =~= c@);
    }
    r
}

/// Adds to the problem the hard clauses saying that at least one of
/// `clauses` fails, where a clause lists variables that must not all be set:
/// each clause of more than one variable gets a fresh variable `v` defined as
/// its conjunction (`-v -x` for each of its variables `x`, and `x1 ... v`),
/// and the final clause is the disjunction of those variables and of the
/// negations of the single-variable clauses.
pub fn tseytin_encoding(clauses: Vec<Vec<usize>>, problem_writer: &mut ProblemWriter, top: i64)
    requires
        forall|i: int| 0 <= i < clauses@.len() ==> (#[trigger] clauses@[i])@.len() > 0,
        old(problem_writer).num_vars() + clauses@.len() <= usize::MAX,
        old(problem_writer).num_clauses() + tseytin_clause_count(clauses@, clauses@.len() as int) + 1
            <= usize::MAX,
    ensures
        final(problem_writer).problem_text() == old(problem_writer).problem_text() + tseytin_defs(
            clauses@,
            old(problem_writer).num_vars(),
            top as int,
            clauses@.len() as int,
        ) + clause_line(
            top as int,
            tseytin_items(clauses@, old(problem_writer).num_vars(), clauses@.len() as int),
        ),
        final(problem_writer).num_vars() == old(problem_writer).num_vars() + count_long(
            clauses@,
            clauses@.len() as int,
        ),
        final(problem_writer).num_clauses() == old(problem_writer).num_clauses()
            + tseytin_clause_count(clauses@, clauses@.len() as int) + 1,
        final(problem_writer).parameters_text() == old(problem_writer).parameters_text(),
        final(problem_writer).path_text() == old(problem_writer).path_text(),
{
    proof {
        reveal_strlit("-");
        reveal_strlit(" -");
        reveal_strlit(" ");
    }
    let ghost base = problem_writer.num_vars();
    let ghost text0 = problem_writer.problem_text();
    let ghost clauses0 = problem_writer.num_clauses();
    let n = clauses.len();
    let mut var_map: HashMap<usize, usize> = HashMap::new();
    let mut i: usize = 0;
    while i < n
        invariant
            n == clauses@.len(),
            i <= n,
            forall|ii: int| 0 <= ii < clauses@.len() ==> (#[trigger] clauses@[ii])@.len() > 0,
            base + clauses@.len() <= usize::MAX,
            clauses0 + tseytin_clause_count(clauses@, n as int) + 1 <= usize::MAX,
            problem_writer.num_vars() == base + count_long(clauses@, i as int),
            problem_writer.num_clauses() == clauses0 + tseytin_clause_count(clauses@, i as int),
            problem_writer.problem_text() == text0 + tseytin_defs(clauses@, base, top as int, i as int),
            problem_writer.parameters_text() == old(problem_writer).parameters_text(),
            problem_writer.path_text() == old(problem_writer).path_text(),
            forall|j: usize|
                #![trigger var_map@.contains_key(j)]
                var_map@.contains_key(j) <==> j < i && clauses@[j as int]@.len() > 1,
            forall|j: usize|
                #![trigger var_map@[j]]
                j < i && clauses@[j as int]@.len() > 1 ==> var_map@[j] == clause_var(
                    clauses@,
                    base,
                    j as int,
                ),
        decreases n - i,
    {
        proof {
            lemma_counts_grow(clauses@, i as int, n as int);
            lemma_counts_grow(clauses@, i + 1, n as int);
        }
        let c = &clauses[i];
        if c.len() > 1 {
            let v = problem_writer.new_var();
            var_map.insert(i, v);
            let ghost text1 = problem_writer.problem_text();
            let ghost cl1 = problem_writer.num_clauses();
            let mut j: usize = 0;
            while j < c.len()
                invariant
                    c@ == clauses@[i as int]@,
                    c@.len() > 1,
                    j <= c@.len(),
                    v == clause_var(clauses@, base, i as int),
                    clauses0 + tseytin_clause_count(clauses@, i + 1) <= usize::MAX,
                    cl1 == clauses0 + tseytin_clause_count(clauses@, i as int),
                    tseytin_clause_count(clauses@, i + 1) == tseytin_clause_count(clauses@, i as int) + c@.len() + 1,
                    problem_writer.num_clauses() == cl1 + j,
                    problem_writer.num_vars() == base + count_long(clauses@, i as int) + 1,
                    problem_writer.problem_text() == text1 + implication_lines(c@, v as nat, top as int, j as int),
                    problem_writer.parameters_text() == old(problem_writer).parameters_text(),
                    problem_writer.path_text() == old(problem_writer).path_text(),
                decreases c@.len() - j,
            {
                proof {
                    reveal_strlit("-");
                    reveal_strlit(" -");
                }
                let mut line = String::new();
                append_text(&mut line, "-");
                append_decimal(&mut line, v as u64);
                append_text(&mut line, " -");
                append_decimal(&mut line, c[j] as u64);
                let ghost before = problem_writer.problem_text();
                problem_writer.hard_clause(line.as_str(), top);
                proof {
                    assert(line@ =~= seq!['-'] + decimal(v as nat) + seq![' ', '-'] + decimal(c@[j as int] as nat));
                    assert(problem_writer.problem_text() =~= text1 + implication_lines(c@, v as nat, top as int, j + 1));
                }
                j = j + 1;
            }
            proof {
                reveal_strlit(" ");
            }
            let mut line = join_numbers(c);
            append_text(&mut line, " ");
            append_decimal(&mut line, v as u64);
            problem_writer.hard_clause(line.as_str(), top);
            proof {
                assert(line@ =~= join_decimals(c@) + seq![' '] + decimal(v as nat));
                assert(problem_writer.problem_text() =~= text0 + tseytin_defs(clauses@, base, top as int, i + 1));
            }
        } else {
            proof {
                assert(tseytin_defs(clauses@, base, top as int, i + 1) =~= tseytin_defs(clauses@, base, top as int, i as int));
            }
        }
        i = i + 1;
    }
    let mut fin = String::new();
    let mut i: usize = 0;
    while i < n
        invariant
            n == clauses@.len(),
            i <= n,
            forall|ii: int| 0 <= ii < clauses@.len() ==> (#[trigger] clauses@[ii])@.len() > 0,
            forall|j: usize|
                #![trigger var_map@.contains_key(j)]
                var_map@.contains_key(j) <==> j < n && clauses@[j as int]@.len() > 1,
            forall|j: usize|
                #![trigger var_map@[j]]
                j < n && clauses@[j as int]@.len() > 1 ==> var_map@[j] == clause_var(
                    clauses@,
                    base,
                    j as int,
                ),
            fin@ == tseytin_items(clauses@, base, i as int),
        decreases n - i,
    {
        proof {
            reveal_strlit("-");
            reveal_strlit(" ");
        }
        let ghost start = fin@;
        if i > 0 {
            append_text(&mut fin, " ");
        }
        let ghost before = fin@;
        if clauses[i].len() > 1 {
            let v = *var_map.get(&i).unwrap();
            append_decimal(&mut fin, v as u64);
        } else {
            append_text(&mut fin, "-");
            append_decimal(&mut fin, clauses[i][0] as u64);
        }
        proof {
            assert(fin@ =~= tseytin_items(clauses@, base, i + 1));
        }
        i = i + 1;
    }
    problem_writer.hard_clause(fin.as_str(), top);
    proof {
        assert(problem_writer.problem_text() =~= text0 + tseytin_defs(clauses@, base, top as int, n as int) + clause_line(top as int, tseytin_items(clauses@, base, n as int)));
    }
}

/// The value of a decimal digit character.
pub open spec fn digit_value(c: char) -> nat {
    if c == '1' {
        1
    } else if c == '2' {
        2
    } else if c == '3' {
        3
    } else if c == '4' {
        4
    } else if c == '5' {
        5
    } else if c == '6' {
        6
    } else if c == '7' {
        7
    } else if c == '8' {
        8
    } else if c == '9' {
        9
    } else {
        0
    }
}

/// The number that a string of decimal digits denotes.
pub open spec fn numeral_value(s: Seq<char>) -> nat
    decreases s.len(),
{
    if s.len() == 0 {
        0
    } else {
        numeral_value(s.drop_last()) * 10 + digit_value(s.last())
    }
}

/// The numeral written for a number reads back as that number, and starts
/// with a zero only when it is zero.
pub proof fn law_decimal_reads_back(n: nat)
    ensures
        numeral_value(decimal(n)) == n,
        decimal(n).len() > 0,
        decimal(n)[0] == '0' ==> n == 0,
    decreases n,
{
    if n >= 10 {
        law_decimal_reads_back(n / 10);
        let d = decimal(n);
        assert(d.drop_last() == decimal(n / 10));
        assert(digit_value(digit_char(n % 10)) == n % 10);
        assert(n == (n / 10) * 10 + n % 10) by (nonlinear_arith);
        assert(d[0] == decimal(n / 10)[0]);
        assert(d.last() == digit_char(n % 10));
        assert(numeral_value(d) == numeral_value(d.drop_last()) * 10 + digit_value(d.last()));
    } else {
        let d = decimal(n);
        assert(d.drop_last() =~= Seq::<char>::empty());
        assert(digit_value(digit_char(n)) == n);
        assert(numeral_value(d) == numeral_value(d.drop_last()) * 10 + digit_value(d.last()));
    }
}

} // verus!
