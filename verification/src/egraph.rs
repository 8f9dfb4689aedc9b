//! E-graphs in the simple text format: one e-node per line, as
//! `class, cost, op, child classes...` (fields trimmed of white space);
//! lines that start with `#` are comments, and a comment `## root: a, b`
//! (or `## roots:`) names roots.
//! Classes are numbered in the order they are first named; costs are kept as
//! the text that the line gives.
use vstd::prelude::*;

verus! {

/// A character that `str::trim` removes: Unicode white space.
pub open spec fn is_space(c: char) -> bool {
    ||| c == ' '
    ||| c == '\t'
    ||| c == '\n'
    ||| c == '\u{0B}'
    ||| c == '\u{0C}'
    ||| c == '\r'
    ||| c == '\u{85}'
    ||| c == '\u{A0}'
    ||| c == '\u{1680}'
    ||| ('\u{2000}' <= c && c <= '\u{200A}')
    ||| c == '\u{2028}'
    ||| c == '\u{2029}'
    ||| c == '\u{202F}'
    ||| c == '\u{205F}'
    ||| c == '\u{3000}'
}

/// The first index at or after `i` that holds no white space, or the length.
pub open spec fn text_start_from(s: Seq<char>, i: int) -> int
    decreases s.len() - i,
{
    if i >= s.len() {
        s.len() as int
    } else if is_space(s[i]) {
        text_start_from(s, i + 1)
    } else {
        i
    }
}

/// The end of `s[..j]` once white space at its end is dropped.
pub open spec fn text_end_from(s: Seq<char>, j: int) -> int
    decreases j,
{
    if j <= 0 {
        0
    } else if is_space(s[j - 1]) {
        text_end_from(s, j - 1)
    } else {
        j
    }
}

/// `s` without white space at either end.
pub open spec fn trim(s: Seq<char>) -> Seq<char> {
    let a = text_start_from(s, 0);
    if a >= s.len() {
        Seq::empty()
    } else {
        s.subrange(a, text_end_from(s, s.len() as int))
    }
}

/// The first comma in `s` at or after `i`, or the length.
pub open spec fn comma_from(s: Seq<char>, i: int) -> int
    decreases s.len() - i,
{
    if i >= s.len() {
        s.len() as int
    } else if s[i] == ',' {
        i
    } else {
        comma_from(s, i + 1)
    }
}

/// `comma_from` lies between `i` and the length.
pub proof fn lemma_comma_from(s: Seq<char>, i: int)
    requires
        0 <= i <= s.len(),
    ensures
        i <= comma_from(s, i) <= s.len(),
        comma_from(s, i) < s.len() ==> s[comma_from(s, i)] == ',',
        forall|k: int| i <= k < comma_from(s, i) ==> s[k] != ',',
    decreases s.len() - i,
{
    if i < s.len() && s[i] != ',' {
        lemma_comma_from(s, i + 1);
    }
}

/// The pieces of `s[i..]` between commas, as `str::split(',')` gives them.
pub open spec fn split_from(s: Seq<char>, i: int) -> Seq<Seq<char>>
    decreases s.len() - i,
{
    if i < 0 || i > s.len() {
        Seq::empty()
    } else {
        let k = comma_from(s, i);
        proof {
            lemma_comma_from(s, i);
        }
        if k >= s.len() {
            seq![s.subrange(i, s.len() as int)]
        } else {
            seq![s.subrange(i, k)] + split_from(s, k + 1)
        }
    }
}

/// The pieces of `s` between commas.
pub open spec fn split_commas(s: Seq<char>) -> Seq<Seq<char>> {
    split_from(s, 0)
}

/// The comma-separated fields of an e-node line, each without white space
/// at either end.
pub open spec fn fields(t: Seq<char>) -> Seq<Seq<char>> {
    split_commas(t).map_values(|p: Seq<char>| trim(p))
}

/// `s` starts with `p`.
pub open spec fn starts_with(s: Seq<char>, p: Seq<char>) -> bool {
    p.len() <= s.len() && s.take(p.len() as int) == p
}

/// The comment that names one root.
pub open spec fn root_tag() -> Seq<char> {
    seq!['#', '#', ' ', 'r', 'o', 'o', 't', ':']
}

/// The comment that names several roots.
pub open spec fn roots_tag() -> Seq<char> {
    seq!['#', '#', ' ', 'r', 'o', 'o', 't', 's', ':']
}

/// The number of class `name` once it is named: its place among `names`,
/// or the next number.
pub open spec fn number_of(names: Seq<Seq<char>>, name: Seq<char>) -> nat {
    if names.contains(name) {
        names.index_of(name) as nat
    } else {
        names.len()
    }
}

/// The names once `name` has been named.
pub open spec fn named(names: Seq<Seq<char>>, name: Seq<char>) -> Seq<Seq<char>> {
    if names.contains(name) {
        names
    } else {
        names.push(name)
    }
}

/// The names once the first `k` of `ns` have been named, in turn.
pub open spec fn named_all(names: Seq<Seq<char>>, ns: Seq<Seq<char>>, k: int) -> Seq<Seq<char>>
    decreases k,
{
    if k <= 0 {
        names
    } else {
        named(named_all(names, ns, k - 1), ns[k - 1])
    }
}

/// The numbers of the first `k` of `ns`, named in turn.
pub open spec fn numbers_all(names: Seq<Seq<char>>, ns: Seq<Seq<char>>, k: int) -> Seq<usize>
    decreases k,
{
    if k <= 0 {
        Seq::empty()
    } else {
        numbers_all(names, ns, k - 1).push(number_of(named_all(names, ns, k - 1), ns[k - 1]) as usize)
    }
}

/// An e-node as the text gives it: its op, its cost text, its child classes
/// and its line (counting from 1).
pub struct NodeText {
    pub op: Seq<char>,
    pub cost: Seq<char>,
    pub children: Seq<usize>,
    pub line: nat,
}

/// What the lines read so far give: the class names, the e-nodes of each
/// class, the roots as named, and each e-node line's number and cost text.
pub struct ReadState {
    pub names: Seq<Seq<char>>,
    pub classes: Seq<Seq<NodeText>>,
    pub roots: Seq<usize>,
    pub costs: Seq<(nat, Seq<char>)>,
}

/// Why the text is not an e-graph.
pub enum ReadError {
    /// The line (counting from 1) has no comma: it gives no cost.
    MissingCost(nat),
    /// The line has one comma: it gives no op.
    MissingOp(nat),
    /// The class of this name has no e-node line.
    EmptyClass(Seq<char>),
}

/// The classes with empty e-node lists added for names past them.
pub open spec fn pad_classes(classes: Seq<Seq<NodeText>>, n: nat) -> Seq<Seq<NodeText>> {
    Seq::new(n, |c: int| if c < classes.len() { classes[c] } else { Seq::empty() })
}

/// Padding twice is padding once.
pub proof fn lemma_pad_pad(classes: Seq<Seq<NodeText>>, a: nat, b: nat)
    requires
        classes.len() <= a <= b,
    ensures
        pad_classes(pad_classes(classes, a), b) == pad_classes(classes, b),
{
    assert(pad_classes(pad_classes(classes, a), b) =~= pad_classes(classes, b));
}

/// Padding a list to its own length leaves it as it is.
pub proof fn lemma_pad_same(classes: Seq<Seq<NodeText>>)
    ensures
        pad_classes(classes, classes.len()) == classes,
{
    assert(pad_classes(classes, classes.len()) =~= classes);
}

/// The state after the comment `t` (trimmed) was read.
pub open spec fn read_comment(st: ReadState, t: Seq<char>) -> ReadState {
    let rest = if starts_with(t, root_tag()) {
        Some(t.skip(8))
    } else if starts_with(t, roots_tag()) {
        Some(t.skip(9))
    } else {
        None::<Seq<char>>
    };
    match rest {
        None => st,
        Some(r) => {
            let ns = split_commas(r).map_values(|p: Seq<char>| trim(p));
            let names = named_all(st.names, ns, ns.len() as int);
            ReadState {
                names,
                classes: pad_classes(st.classes, names.len()),
                roots: st.roots + numbers_all(st.names, ns, ns.len() as int),
                costs: st.costs,
            }
        },
    }
}

/// The state after the e-node line `t` (trimmed), line number `line`, was
/// read, or why it cannot be read.
pub open spec fn read_node(st: ReadState, t: Seq<char>, line: nat) -> Result<ReadState, (ReadError, Seq<(nat, Seq<char>)>)> {
    let parts = fields(t);
    if parts.len() < 2 {
        Err((ReadError::MissingCost(line), st.costs))
    } else if parts.len() < 3 {
        Err((ReadError::MissingOp(line), st.costs.push((line, parts[1]))))
    } else {
        let class = number_of(st.names, parts[0]);
        let names1 = named(st.names, parts[0]);
        let kids = parts.skip(3);
        let names = named_all(names1, kids, kids.len() as int);
        let node = NodeText { op: parts[2], cost: parts[1], children: numbers_all(names1, kids, kids.len() as int), line };
        let classes = pad_classes(st.classes, names.len());
        Ok(ReadState {
            names,
            classes: classes.update(class as int, classes[class as int].push(node)),
            roots: st.roots,
            costs: st.costs.push((line, parts[1])),
        })
    }
}

/// The state after the first `n` lines were read, or why they cannot be.
pub open spec fn read_lines(lines: Seq<Seq<char>>, n: int) -> Result<ReadState, (ReadError, Seq<(nat, Seq<char>)>)>
    decreases n,
{
    if n <= 0 {
        Ok(ReadState { names: Seq::empty(), classes: Seq::empty(), roots: Seq::empty(), costs: Seq::empty() })
    } else {
        match read_lines(lines, n - 1) {
            Err(e) => Err(e),
            Ok(st) => {
                let t = trim(lines[n - 1]);
                if t.len() == 0 || t[0] == '#' {
                    Ok(read_comment(st, t))
                } else {
                    read_node(st, t, n as nat)
                }
            },
        }
    }
}

/// Once the lines cannot be read, more lines do not change why.
pub proof fn lemma_read_error_stays(lines: Seq<Seq<char>>, n: int, m: int)
    requires
        0 <= n <= m,
        read_lines(lines, n) is Err,
    ensures
        read_lines(lines, m) == read_lines(lines, n),
    decreases m - n,
{
    if m > n {
        lemma_read_error_stays(lines, n, m - 1);
    }
}

/// The first class with no e-node, if any.
pub open spec fn first_empty(classes: Seq<Seq<NodeText>>) -> Option<int> {
    if exists|c: int| 0 <= c < classes.len() && classes[c].len() == 0 {
        Some(choose|c: int| 0 <= c < classes.len() && classes[c].len() == 0 && forall|d: int| 0 <= d < c ==> classes[d].len() > 0)
    } else {
        None
    }
}

/// `roots` with each number kept only where it first occurs.
pub open spec fn first_occurrences(roots: Seq<usize>) -> Seq<usize>
    decreases roots.len(),
{
    if roots.len() == 0 {
        Seq::empty()
    } else {
        let front = first_occurrences(roots.drop_last());
        if front.contains(roots.last()) {
            front
        } else {
            front.push(roots.last())
        }
    }
}

/// One e-node line of an e-graph text.
pub struct SimpleNode {
    pub op: Vec<char>,
    /// The cost as the line writes it.
    pub cost: Vec<char>,
    /// The classes of the children, by number.
    pub children: Vec<usize>,
    /// The line, counting from 1.
    pub line: usize,
}

/// An e-graph read from text: class `c` is named `names[c]` and has the
/// e-nodes `classes[c]`.
pub struct SimpleEGraph {
    pub roots: Vec<usize>,
    pub names: Vec<Vec<char>>,
    pub classes: Vec<Vec<SimpleNode>>,
}

/// Why a text is not an e-graph, with the cost text of each e-node line read
/// before the reading stopped (and of the line itself, where it gives one).
pub enum SimpleEGraphError {
    MissingCost(usize, Vec<(usize, Vec<char>)>),
    MissingOp(usize, Vec<(usize, Vec<char>)>),
    EmptyClass(Vec<char>, Vec<(usize, Vec<char>)>),
}

/// An e-node line as the spec reads it.
pub open spec fn node_text(n: SimpleNode) -> NodeText {
    NodeText { op: n.op@, cost: n.cost@, children: n.children@, line: n.line as nat }
}

/// The e-nodes of each class as the spec reads them.
pub open spec fn classes_text(classes: Seq<Vec<SimpleNode>>) -> Seq<Seq<NodeText>> {
    classes.map_values(|v: Vec<SimpleNode>| v@.map_values(|n: SimpleNode| node_text(n)))
}

/// Cost texts with their lines as the spec reads them.
pub open spec fn costs_text(costs: Seq<(usize, Vec<char>)>) -> Seq<(nat, Seq<char>)> {
    costs.map_values(|p: (usize, Vec<char>)| (p.0 as nat, p.1@))
}

impl SimpleEGraph {
    /// The e-graph as the spec reads it (before the empty-class check and
    /// the deduplication of roots).
    pub open spec fn text(&self) -> (Seq<Seq<char>>, Seq<Seq<NodeText>>, Seq<usize>) {
        (texts(self.names@), classes_text(self.classes@), self.roots@)
    }
}

/// The state that the lists built so far stand for.
pub open spec fn state_of(
    names: Seq<Vec<char>>,
    classes: Seq<Vec<SimpleNode>>,
    roots: Seq<usize>,
    costs: Seq<(usize, Vec<char>)>,
) -> ReadState {
    ReadState {
        names: texts(names),
        classes: classes_text(classes),
        roots,
        costs: costs_text(costs),
    }
}

fn is_space_char(c: char) -> (b: bool)
    ensures
        b == is_space(c),
{
    c == ' ' || c == '\t' || c == '\n' || c == '\u{0B}' || c == '\u{0C}' || c == '\r' || c == '\u{85}'
        || c == '\u{A0}' || c == '\u{1680}' || ('\u{2000}' <= c && c <= '\u{200A}') || c == '\u{2028}'
        || c == '\u{2029}' || c == '\u{202F}' || c == '\u{205F}' || c == '\u{3000}'
}

/// The characters `s[a..b]`.
fn slice_of(s: &Vec<char>, a: usize, b: usize) -> (r: Vec<char>)
    requires
        a <= b <= s@.len(),
    ensures
        r@ == s@.subrange(a as int, b as int),
{
    let mut r: Vec<char> = Vec::new();
    let mut j: usize = a;
    while j < b
        invariant
            a <= j <= b <= s@.len(),
            r@ == s@.subrange(a as int, j as int),
        decreases b - j,
    {
        r.push(s[j]);
        j = j + 1;
    }
    r
}

/// `s` without white space at either end.
fn trim_text(s: &Vec<char>) -> (r: Vec<char>)
    ensures
        r@ == trim(s@),
{
    let mut a: usize = 0;
    while a < s.len() && is_space_char(s[a])
        invariant
            a <= s@.len(),
            text_start_from(s@, 0) == text_start_from(s@, a as int),
        decreases s@.len() - a,
    {
        a = a + 1;
    }
    if a >= s.len() {
        return Vec::new();
    }
    let mut b: usize = s.len();
    while b > 0 && is_space_char(s[b - 1])
        invariant
            b <= s@.len(),
            a < s@.len(),
            !is_space(s@[a as int]),
            a < b,
            text_end_from(s@, s@.len() as int) == text_end_from(s@, b as int),
        decreases b,
    {
        b = b - 1;
    }
    slice_of(s, a, b)
}

/// Whether `a` and `b` are the same text.
fn same_text(a: &Vec<char>, b: &Vec<char>) -> (r: bool)
    ensures
        r == (a@ == b@),
{
    if a.len() != b.len() {
        return false;
    }
    let mut i: usize = 0;
    while i < a.len()
        invariant
            i <= a@.len(),
            a@.len() == b@.len(),
            forall|k: int| 0 <= k < i ==> a@[k] == b@[k],
        decreases a@.len() - i,
    {
        if a[i] != b[i] {
            return false;
        }
        i = i + 1;
    }
    assert(a@ =~= b@);
    true
}

/// Whether `s` starts with `p`.
fn starts_with_text(s: &Vec<char>, p: &Vec<char>) -> (r: bool)
    ensures
        r == starts_with(s@, p@),
{
    if p.len() > s.len() {
        return false;
    }
    let mut i: usize = 0;
    while i < p.len()
        invariant
            i <= p@.len() <= s@.len(),
            forall|k: int| 0 <= k < i ==> s@[k] == p@[k],
        decreases p@.len() - i,
    {
        if s[i] != p[i] {
            assert(s@.take(p@.len() as int)[i as int] == s@[i as int]);
            return false;
        }
        i = i + 1;
    }
    assert(s@.take(p@.len() as int) =~= p@);
    true
}

/// The first comma in `s` at or after `i`, or the length.
fn find_comma(s: &Vec<char>, i: usize) -> (k: usize)
    requires
        i <= s@.len(),
    ensures
        k == comma_from(s@, i as int),
{
    let mut k: usize = i;
    while k < s.len() && s[k] != ','
        invariant
            i <= k <= s@.len(),
            comma_from(s@, i as int) == comma_from(s@, k as int),
        decreases s@.len() - k,
    {
        k = k + 1;
    }
    k
}

/// The pieces of `s` between commas.
fn split_text(s: &Vec<char>) -> (r: Vec<Vec<char>>)
    ensures
        r@.map_values(|v: Vec<char>| v@) == split_commas(s@),
{
    let mut r: Vec<Vec<char>> = Vec::new();
    let mut i: usize = 0;
    loop
        invariant
            i <= s@.len(),
            r@.map_values(|v: Vec<char>| v@) + split_from(s@, i as int) == split_commas(s@),
        decreases s@.len() - i,
    {
        let k = find_comma(s, i);
        proof {
            lemma_comma_from(s@, i as int);
        }
        let piece = slice_of(s, i, k);
        let ghost before = r@.map_values(|v: Vec<char>| v@);
        r.push(piece);
        proof {
            assert(r@.map_values(|v: Vec<char>| v@) =~= before.push(piece@));
        }
        if k >= s.len() {
            proof {
                assert(split_from(s@, i as int) =~= seq![piece@]);
                assert(r@.map_values(|v: Vec<char>| v@) =~= before + split_from(s@, i as int));
            }
            return r;
        }
        proof {
            assert(split_from(s@, i as int) =~= seq![piece@] + split_from(s@, k + 1));
            assert(before.push(piece@) + split_from(s@, k + 1) =~= before + split_from(s@, i as int));
        }
        i = k + 1;
    }
}

/// The texts of a list of texts.
pub open spec fn texts(v: Seq<Vec<char>>) -> Seq<Seq<char>> {
    v.map_values(|t: Vec<char>| t@)
}

/// A copy of a text.
fn copy_text(s: &Vec<char>) -> (r: Vec<char>)
    ensures
        r@ == s@,
{
    slice_of(s, 0, s.len())
}

/// Each text without white space at either end.
fn trim_all(parts: &Vec<Vec<char>>) -> (r: Vec<Vec<char>>)
    ensures
        r@.len() == parts@.len(),
        forall|i: int| 0 <= i < parts@.len() ==> #[trigger] r@[i]@ == trim(parts@[i]@),
{
    let mut r: Vec<Vec<char>> = Vec::new();
    let mut i: usize = 0;
    while i < parts.len()
        invariant
            i <= parts@.len(),
            r@.len() == i,
            forall|j: int| 0 <= j < i ==> #[trigger] r@[j]@ == trim(parts@[j]@),
        decreases parts@.len() - i,
    {
        r.push(trim_text(&parts[i]));
        i = i + 1;
    }
    r
}

/// The number of class `name`, naming it, with no e-nodes yet, if it is
/// new.
fn name_class(names: &mut Vec<Vec<char>>, classes: &mut Vec<Vec<SimpleNode>>, name: &Vec<char>) -> (k: usize)
    requires
        texts(old(names)@).no_duplicates(),
        old(classes)@.len() == old(names)@.len(),
    ensures
        k == number_of(texts(old(names)@), name@),
        k < final(names)@.len(),
        old(names)@.len() <= final(names)@.len(),
        texts(final(names)@) == named(texts(old(names)@), name@),
        texts(final(names)@).no_duplicates(),
        final(classes)@.len() == final(names)@.len(),
        classes_text(final(classes)@) == pad_classes(classes_text(old(classes)@), final(names)@.len()),
{
    let ghost ns = texts(names@);
    let mut j: usize = 0;
    while j < names.len()
        invariant
            j <= names@.len(),
            ns == texts(names@),
            ns.no_duplicates(),
            classes@.len() == names@.len(),
            forall|i: int| 0 <= i < j ==> ns[i] != name@,
        decreases names@.len() - j,
    {
        if same_text(&names[j], name) {
            proof {
                assert(ns[j as int] == name@);
                assert(ns.contains(name@));
                let i = ns.index_of(name@);
                assert(ns[i] == name@);
                if i != j {
                    assert(ns[i] != ns[j as int]);
                }
                assert(i == j);
                assert(classes_text(classes@) =~= pad_classes(classes_text(classes@), names@.len()));
            }
            return j;
        }
        j = j + 1;
    }
    proof {
        assert(!ns.contains(name@)) by {
            if ns.contains(name@) {
                let i = ns.index_of(name@);
                assert(ns[i] == name@);
            }
        }
    }
    let ghost oc = classes@;
    let ghost old_classes = classes_text(classes@);
    names.push(copy_text(name));
    classes.push(Vec::new());
    proof {
        assert forall|c: int| 0 <= c < names@.len() implies #[trigger] classes_text(classes@)[c] == pad_classes(old_classes, names@.len())[c] by {
            if c < oc.len() {
                assert(classes@[c] == oc[c]);
            } else {
                assert(classes@[c]@ =~= Seq::<SimpleNode>::empty());
                assert(classes_text(classes@)[c] =~= Seq::<NodeText>::empty());
            }
        }
    }
    proof {
        assert(texts(names@) =~= ns.push(name@));
        assert forall|a: int, b: int| 0 <= a < b < texts(names@).len() implies texts(names@)[a] != texts(names@)[b] by {
            if b == ns.len() {
                assert(ns[a] != name@);
            } else {
                assert(ns[a] != ns[b]);
            }
        }
        assert(classes_text(classes@) =~= pad_classes(old_classes, names@.len()));
    }
    j
}

/// Reads an e-graph from the lines of a text (`str::lines`, each line's
/// characters): `Ok` with the classes numbered by first mention, each
/// class's e-nodes in line order and the roots each once, in the order first
/// named; or why the text is not an e-graph.
pub fn parse_simple_egraph(lines: &Vec<Vec<char>>) -> (r: Result<SimpleEGraph, SimpleEGraphError>)
    ensures
        match r {
            Ok(g) => read_lines(texts(lines@), lines@.len() as int) matches Ok(st) && first_empty(st.classes) is None
                && texts(g.names@) == st.names && classes_text(g.classes@) == st.classes && g.roots@
                == first_occurrences(st.roots),
            Err(SimpleEGraphError::MissingCost(line, costs)) => read_lines(texts(lines@), lines@.len() as int)
                == Err::<ReadState, (ReadError, Seq<(nat, Seq<char>)>)>((ReadError::MissingCost(line as nat), costs_text(costs@))),
            Err(SimpleEGraphError::MissingOp(line, costs)) => read_lines(texts(lines@), lines@.len() as int)
                == Err::<ReadState, (ReadError, Seq<(nat, Seq<char>)>)>((ReadError::MissingOp(line as nat), costs_text(costs@))),
            Err(SimpleEGraphError::EmptyClass(name, costs)) => read_lines(texts(lines@), lines@.len() as int) matches Ok(st)
                && first_empty(st.classes) matches Some(c) && st.names[c] == name@ && st.costs == costs_text(costs@),
        },
{
    let ghost ls = texts(lines@);
    let mut names: Vec<Vec<char>> = Vec::new();
    let mut classes: Vec<Vec<SimpleNode>> = Vec::new();
    let mut roots: Vec<usize> = Vec::new();
    let mut costs: Vec<(usize, Vec<char>)> = Vec::new();
    let root_word = vec!['#', '#', ' ', 'r', 'o', 'o', 't', ':'];
    let roots_word = vec!['#', '#', ' ', 'r', 'o', 'o', 't', 's', ':'];
    proof {
        assert(root_word@ =~= root_tag());
        assert(roots_word@ =~= roots_tag());
        assert(state_of(names@, classes@, roots@, costs@) == ReadState {
            names: Seq::empty(),
            classes: Seq::empty(),
            roots: Seq::empty(),
            costs: Seq::empty(),
        }) by {
            assert(texts(names@) =~= Seq::empty());
            assert(classes_text(classes@) =~= Seq::empty());
            assert(costs_text(costs@) =~= Seq::empty());
        }
    }
    let mut i: usize = 0;
    while i < lines.len()
        invariant
            i <= lines@.len(),
            ls == texts(lines@),
            root_word@ == root_tag(),
            roots_word@ == roots_tag(),
            texts(names@).no_duplicates(),
            classes@.len() == names@.len(),
            read_lines(ls, i as int) == Ok::<ReadState, (ReadError, Seq<(nat, Seq<char>)>)>(state_of(names@, classes@, roots@, costs@)),
        decreases lines@.len() - i,
    {
        let ghost st = state_of(names@, classes@, roots@, costs@);
        let t = trim_text(&lines[i]);
        assert(ls[i as int] == lines@[i as int]@);
        if t.len() == 0 || t[0] == '#' {
            let rest = if starts_with_text(&t, &root_word) {
                Some(slice_of(&t, 8, t.len()))
            } else if starts_with_text(&t, &roots_word) {
                Some(slice_of(&t, 9, t.len()))
            } else {
                None
            };
            match rest {
                None => {
                    proof {
                        assert(read_comment(st, t@) == st);
                    }
                },
                Some(rest) => {
                    let pieces = split_text(&rest);
                    let ghost ns = split_commas(rest@).map_values(|p: Seq<char>| trim(p));
                    let ghost names0 = texts(names@);
                    let ghost classes0 = classes_text(classes@);
                    let ghost roots0 = roots@;
                    assert(rest@ =~= t@.skip(if starts_with(t@, root_tag()) { 8 } else { 9 }));
                    let mut k: usize = 0;
                    while k < pieces.len()
                        invariant
                            k <= pieces@.len(),
                            ns.len() == pieces@.len(),
                            forall|m: int| 0 <= m < pieces@.len() ==> #[trigger] ns[m] == trim(pieces@[m]@),
                            texts(names@).no_duplicates(),
                            classes@.len() == names@.len(),
                            classes0.len() == names0.len(),
                            names0.len() <= names@.len(),
                            texts(names@) == named_all(names0, ns, k as int),
                            roots@ == roots0 + numbers_all(names0, ns, k as int),
                            classes_text(classes@) == pad_classes(classes0, names@.len()),
                        decreases pieces@.len() - k,
                    {
                        let piece = trim_text(&pieces[k]);
                        assert(piece@ == ns[k as int]);
                        let ghost before_names = texts(names@);
                        let ghost before_classes = classes_text(classes@);
                        let c = name_class(&mut names, &mut classes, &piece);
                        roots.push(c);
                        proof {
                            assert(named_all(names0, ns, k + 1) == named(named_all(names0, ns, k as int), ns[k as int]));
                            assert(numbers_all(names0, ns, k + 1) == numbers_all(names0, ns, k as int).push(
                                number_of(named_all(names0, ns, k as int), ns[k as int]) as usize));
                            assert(roots@ =~= roots0 + numbers_all(names0, ns, k + 1));
                            lemma_pad_pad(classes0, before_names.len(), names@.len());
                        }
                        k = k + 1;
                    }
                    proof {
                        let st2 = read_comment(st, t@);
                        assert(texts(names@) == st2.names);
                        assert(roots@ == st2.roots);
                        assert(classes_text(classes@) == st2.classes);
                        assert(state_of(names@, classes@, roots@, costs@) == st2);
                    }
                },
            }
            proof {
                assert(read_lines(ls, i + 1) == Ok::<ReadState, (ReadError, Seq<(nat, Seq<char>)>)>(read_comment(st, t@)));
            }
        } else {
            let pieces = split_text(&t);
            let parts = trim_all(&pieces);
            let ghost ps = fields(t@);
            assert(ps.len() == parts@.len());
            assert forall|m: int| 0 <= m < parts@.len() implies #[trigger] parts@[m]@ == ps[m] by {
                assert(pieces@[m]@ == split_commas(t@)[m]);
            }
            if parts.len() < 2 {
                proof {
                    assert(read_lines(ls, i + 1) == read_node(st, t@, (i + 1) as nat));
                    lemma_read_error_stays(ls, i + 1, lines@.len() as int);
                }
                return Err(SimpleEGraphError::MissingCost(i + 1, costs));
            }
            let cost = copy_text(&parts[1]);
            assert(cost@ == ps[1]);
            if parts.len() < 3 {
                let ghost c0 = costs_text(costs@);
                costs.push((i + 1, cost));
                proof {
                    assert(costs_text(costs@) =~= c0.push(((i + 1) as nat, ps[1])));
                    assert(read_lines(ls, i + 1) == read_node(st, t@, (i + 1) as nat));
                    lemma_read_error_stays(ls, i + 1, lines@.len() as int);
                }
                return Err(SimpleEGraphError::MissingOp(i + 1, costs));
            }
            let ghost names_in = texts(names@);
            let ghost classes_in = classes_text(classes@);
            let class = name_class(&mut names, &mut classes, &parts[0]);
            assert(parts@[0]@ == ps[0]);
            let ghost names1 = texts(names@);
            let ghost classes1 = classes_text(classes@);
            let ghost kids = ps.skip(3);
            let mut children: Vec<usize> = Vec::new();
            let mut k: usize = 3;
            while k < parts.len()
                invariant
                    3 <= k <= parts@.len(),
                    ps.len() == parts@.len(),
                    kids == ps.skip(3),
                    forall|m: int| 0 <= m < parts@.len() ==> #[trigger] parts@[m]@ == ps[m],
                    class < names@.len(),
                    texts(names@).no_duplicates(),
                    classes@.len() == names@.len(),
                    classes_in.len() == names_in.len(),
                    names_in.len() <= names@.len(),
                    texts(names@) == named_all(names1, kids, k - 3),
                    children@ == numbers_all(names1, kids, k - 3),
                    classes_text(classes@) == pad_classes(classes_in, names@.len()),
                decreases parts@.len() - k,
            {
                let ghost before_len = names@.len();
                let c = name_class(&mut names, &mut classes, &parts[k]);
                children.push(c);
                proof {
                    assert(kids[k - 3] == ps[k as int]);
                    assert(named_all(names1, kids, k - 3 + 1) == named(named_all(names1, kids, k - 3), kids[k - 3]));
                    assert(children@ =~= numbers_all(names1, kids, k - 3 + 1));
                    lemma_pad_pad(classes_in, before_len as nat, names@.len());
                }
                k = k + 1;
            }
            let op = copy_text(&parts[2]);
            let node = SimpleNode { op, cost: copy_text(&parts[1]), children, line: i + 1 };
            let ghost nt = node_text(node);
            let ghost padded = classes_text(classes@);
            let mut list = classes.remove(class);
            list.push(node);
            let ghost new_list = list@;
            classes.insert(class, list);
            let ghost c0 = costs_text(costs@);
            costs.push((i + 1, cost));
            proof {
                assert(kids.len() == parts@.len() - 3);
                assert(nt == NodeText { op: ps[2], cost: ps[1], children: numbers_all(names1, kids, kids.len() as int), line: (i + 1) as nat });
                assert(classes_text(classes@) =~= padded.update(class as int, padded[class as int].push(nt))) by {
                    assert(new_list.map_values(|n: SimpleNode| node_text(n)) =~= padded[class as int].push(nt));
                }
                assert(costs_text(costs@) =~= c0.push(((i + 1) as nat, ps[1])));
                assert(read_lines(ls, i + 1) == read_node(st, t@, (i + 1) as nat));
                assert(read_node(st, t@, (i + 1) as nat) == Ok::<ReadState, (ReadError, Seq<(nat, Seq<char>)>)>(state_of(names@, classes@, roots@, costs@)));
            }
        }
        i = i + 1;
    }
    let ghost st = state_of(names@, classes@, roots@, costs@);
    let mut c: usize = 0;
    while c < classes.len()
        invariant
            c <= classes@.len(),
            classes@.len() == names@.len(),
            st == state_of(names@, classes@, roots@, costs@),
            ls == texts(lines@),
            read_lines(ls, lines@.len() as int) == Ok::<ReadState, (ReadError, Seq<(nat, Seq<char>)>)>(st),
            st.classes == classes_text(classes@),
            forall|d: int| 0 <= d < c ==> st.classes[d].len() > 0,
        decreases classes@.len() - c,
    {
        if classes[c].len() == 0 {
            proof {
                assert(st.classes[c as int].len() == 0);
                let e = first_empty(st.classes);
                assert(e is Some);
                let w = e->0;
                assert(w == c) by {
                    if w < c {
                        assert(st.classes[w].len() > 0);
                    }
                    if w > c {
                        assert(st.classes[c as int].len() > 0);
                    }
                }
            }
            let name = copy_text(&names[c]);
            assert(st.names[c as int] == name@);
            return Err(SimpleEGraphError::EmptyClass(name, costs));
        }
        c = c + 1;
    }
    let mut unique: Vec<usize> = Vec::new();
    let mut k: usize = 0;
    while k < roots.len()
        invariant
            k <= roots@.len(),
            unique@ == first_occurrences(roots@.take(k as int)),
        decreases roots@.len() - k,
    {
        let x = roots[k];
        let mut seen = false;
        let mut m: usize = 0;
        while m < unique.len()
            invariant
                m <= unique@.len(),
                seen == exists|q: int| 0 <= q < m && unique@[q] == x,
            decreases unique@.len() - m,
        {
            if unique[m] == x {
                seen = true;
            }
            m = m + 1;
        }
        proof {
            let front = roots@.take(k as int);
            assert(roots@.take(k + 1).drop_last() =~= front);
            assert(roots@.take(k + 1).last() == x);
            if seen {
                let q = choose|q: int| 0 <= q < unique@.len() && unique@[q] == x;
                assert(unique@.contains(x));
            } else {
                assert(!unique@.contains(x));
            }
        }
        if !seen {
            unique.push(x);
        }
        k = k + 1;
    }
    proof {
        assert(roots@.take(roots@.len() as int) =~= roots@);
    }
    Ok(SimpleEGraph { roots: unique, names, classes })
}


/// `b` keeps the names of `a` at their places and may add more after them.
pub open spec fn names_extend(a: Seq<Seq<char>>, b: Seq<Seq<char>>) -> bool {
    a.len() <= b.len() && forall|i: int| 0 <= i < a.len() ==> #[trigger] b[i] == a[i]
}

/// The e-node `nd` of class `c` is what its line says, given the class names
/// `names`: the line's first field names class `c`, the second is the cost,
/// the third the op, and each field after the op, in order, names the class
/// of one child, so the e-node has as many children as those fields.
pub open spec fn node_follows_line(lines: Seq<Seq<char>>, names: Seq<Seq<char>>, c: int, nd: NodeText) -> bool {
    let p = fields(trim(lines[nd.line - 1]));
    &&& 1 <= nd.line <= lines.len()
    &&& p.len() >= 3
    &&& 0 <= c < names.len()
    &&& names[c] == p[0]
    &&& nd.cost == p[1]
    &&& nd.op == p[2]
    &&& nd.children.len() == p.len() - 3
    &&& forall|j: int| 0 <= j < nd.children.len() ==> #[trigger] nd.children[j] < names.len() && names[nd.children[j] as int] == p[3 + j]
}

/// Every e-node of every class of `st` is what its line says.
pub open spec fn nodes_follow_lines(lines: Seq<Seq<char>>, st: ReadState) -> bool {
    forall|c: int, i: int| 0 <= c < st.classes.len() && 0 <= i < st.classes[c].len() ==> node_follows_line(lines, st.names, c, #[trigger] st.classes[c][i])
}

/// Naming a name keeps the names before it and gives it its number.
proof fn lemma_named_number(names: Seq<Seq<char>>, x: Seq<char>)
    ensures
        names_extend(names, named(names, x)),
        number_of(names, x) < named(names, x).len(),
        named(names, x)[number_of(names, x) as int] == x,
        named(names, x).len() <= names.len() + 1,
{
}

/// Naming names in turn keeps the names before them, and the number of each
/// names it.
proof fn lemma_named_all_numbers(names: Seq<Seq<char>>, ns: Seq<Seq<char>>, k: int)
    requires
        0 <= k <= ns.len(),
        named_all(names, ns, k).len() <= usize::MAX,
    ensures
        names_extend(names, named_all(names, ns, k)),
        numbers_all(names, ns, k).len() == k,
        forall|j: int|
            0 <= j < k ==> #[trigger] numbers_all(names, ns, k)[j] < named_all(names, ns, k).len() && named_all(
                names,
                ns,
                k,
            )[numbers_all(names, ns, k)[j] as int] == ns[j],
    decreases k,
{
    if k > 0 {
        let prev = named_all(names, ns, k - 1);
        lemma_named_number(prev, ns[k - 1]);
        lemma_named_all_numbers(names, ns, k - 1);
        let cur = named_all(names, ns, k);
        assert forall|j: int|
            0 <= j < k implies #[trigger] numbers_all(names, ns, k)[j] < cur.len() && cur[numbers_all(names, ns, k)[j] as int] == ns[j] by {
            if j < k - 1 {
                assert(numbers_all(names, ns, k)[j] == numbers_all(names, ns, k - 1)[j]);
            }
        }
    }
}

/// What an e-node follows stays so when names are only added.
proof fn lemma_follows_extend(lines: Seq<Seq<char>>, a: Seq<Seq<char>>, b: Seq<Seq<char>>, c: int, nd: NodeText)
    requires
        node_follows_line(lines, a, c, nd),
        names_extend(a, b),
    ensures
        node_follows_line(lines, b, c, nd),
{
    assert forall|j: int| 0 <= j < nd.children.len() implies #[trigger] nd.children[j] < b.len() && b[nd.children[j] as int]
        == fields(trim(lines[nd.line - 1]))[3 + j] by {
        assert(a[nd.children[j] as int] == fields(trim(lines[nd.line - 1]))[3 + j]);
    }
}

/// The lines read so far give as many classes as names, and every e-node is
/// what its line says.
proof fn lemma_read_lines_follow(lines: Seq<Seq<char>>, n: int)
    requires
        0 <= n <= lines.len(),
        read_lines(lines, n) matches Ok(st) && st.names.len() <= usize::MAX,
    ensures
        read_lines(lines, n) matches Ok(st) && st.classes.len() == st.names.len() && nodes_follow_lines(lines, st),
    decreases n,
{
    if n > 0 {
        let st = read_lines(lines, n - 1)->Ok_0;
        let t = trim(lines[n - 1]);
        let st2 = read_lines(lines, n)->Ok_0;
        if t.len() == 0 || t[0] == '#' {
            let rest = if starts_with(t, root_tag()) {
                Some(t.skip(8))
            } else if starts_with(t, roots_tag()) {
                Some(t.skip(9))
            } else {
                None::<Seq<char>>
            };
            if let Some(r) = rest {
                let ns = split_commas(r).map_values(|p: Seq<char>| trim(p));
                lemma_named_all_numbers(st.names, ns, ns.len() as int);
            }
            lemma_read_lines_follow(lines, n - 1);
            assert forall|c: int, i: int| 0 <= c < st2.classes.len() && 0 <= i < st2.classes[c].len() implies node_follows_line(
                lines,
                st2.names,
                c,
                #[trigger] st2.classes[c][i],
            ) by {
                assert(c < st.classes.len());
                assert(st2.classes[c] == st.classes[c]);
                lemma_follows_extend(lines, st.names, st2.names, c, st.classes[c][i]);
            }
        } else {
            let parts = fields(t);
            let class = number_of(st.names, parts[0]);
            let names1 = named(st.names, parts[0]);
            let kids = parts.skip(3);
            lemma_named_number(st.names, parts[0]);
            lemma_named_all_numbers(names1, kids, kids.len() as int);
            lemma_read_lines_follow(lines, n - 1);
            let names2 = st2.names;
            assert(names_extend(st.names, names2));
            let node = NodeText {
                op: parts[2],
                cost: parts[1],
                children: numbers_all(names1, kids, kids.len() as int),
                line: n as nat,
            };
            let padded = pad_classes(st.classes, names2.len());
            assert(st2.classes == padded.update(class as int, padded[class as int].push(node)));
            assert(node_follows_line(lines, names2, class as int, node)) by {
                assert(names2[class as int] == names1[class as int]);
                assert forall|j: int| 0 <= j < node.children.len() implies #[trigger] node.children[j] < names2.len()
                    && names2[node.children[j] as int] == parts[3 + j] by {
                    assert(kids[j] == parts[3 + j]);
                }
            }
            assert forall|c: int, i: int| 0 <= c < st2.classes.len() && 0 <= i < st2.classes[c].len() implies node_follows_line(
                lines,
                names2,
                c,
                #[trigger] st2.classes[c][i],
            ) by {
                if c == class && i == st2.classes[c].len() - 1 {
                } else {
                    assert(c < st.classes.len());
                    assert(st2.classes[c][i] == st.classes[c][i]);
                    lemma_follows_extend(lines, st.names, names2, c, st.classes[c][i]);
                }
            }
        }
    }
}

/// Every e-node that the reading of the lines gives is what its line says:
/// the first field of its line names its class, the second is its cost, the
/// third its op, and each later field, in order, names the class of one of
/// its children, so it has exactly one child per such field, repeats
/// included. (The bound on the number of names holds of any reading that
/// `parse_simple_egraph` returns.)
pub proof fn law_parsed_nodes_follow_their_lines(lines: Seq<Seq<char>>)
    requires
        read_lines(lines, lines.len() as int) matches Ok(st) && st.names.len() <= usize::MAX,
    ensures
        read_lines(lines, lines.len() as int) matches Ok(st) && st.classes.len() == st.names.len() && nodes_follow_lines(lines, st),
{
    lemma_read_lines_follow(lines, lines.len() as int);
}

} // verus!
