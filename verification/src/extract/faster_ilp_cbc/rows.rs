//! The rows of the integer program that the CBC extractor solves: which
//! class activity implies which, and which e-node activity implies which
//! class activity. The objective, over floating-point costs, and the calls
//! to the solver are left to the caller.
use vstd::prelude::*;
use super::classes_in_range;

verus! {

/// Class `b` is a child class of every member of class `a`, which has one.
pub open spec fn common_child(children: Seq<Vec<Vec<usize>>>, a: int, b: usize) -> bool {
    &&& children[a]@.len() > 0
    &&& forall|k: int| 0 <= k < children[a]@.len() ==> #[trigger] children[a]@[k]@.contains(b)
}

/// Class `b` is in the intersection that the program uses for class `a`:
/// empty unless intersections are taken.
pub open spec fn in_intersection(children: Seq<Vec<Vec<usize>>>, a: int, b: usize, intersect: bool) -> bool {
    intersect && common_child(children, a, b)
}

/// The implications that the rows state: class `.0` active implies class
/// `.1` active; member `.1` of class `.0` active implies class `.2` active.
pub struct IlpRows {
    pub class_rows: Vec<(usize, usize)>,
    pub node_rows: Vec<(usize, usize, usize)>,
}

/// The rows are exactly those the program needs for `children`.
pub open spec fn rows_for(
    children: Seq<Vec<Vec<usize>>>,
    intersect: bool,
    class_rows: Seq<(usize, usize)>,
    node_rows: Seq<(usize, usize, usize)>,
) -> bool {
    &&& forall|a: usize, b: usize|
        #[trigger] class_rows.contains((a, b)) <==> a < children.len() && in_intersection(children, a as int, b, intersect)
    &&& forall|a: usize, k: usize, b: usize|
        #[trigger] node_rows.contains((a, k, b)) <==> a < children.len() && k < children[a as int]@.len()
            && children[a as int]@[k as int]@.contains(b) && !in_intersection(children, a as int, b, intersect)
}

/// Some root class has no member left.
pub open spec fn root_without_members(children: Seq<Vec<Vec<usize>>>, roots: Seq<usize>) -> bool {
    exists|i: int| 0 <= i < roots.len() && children[roots[i] as int]@.len() == 0
}

/// Whether `x` is in `v`.
fn has_class(v: &Vec<usize>, x: usize) -> (r: bool)
    ensures
        r == v@.contains(x),
{
    let mut i: usize = 0;
    while i < v.len()
        invariant
            i <= v@.len(),
            forall|j: int| 0 <= j < i ==> v@[j] != x,
        decreases v@.len() - i,
    {
        if v[i] == x {
            return true;
        }
        i = i + 1;
    }
    false
}

/// Whether `b` is a child class of every member of class `a` from the second
/// on.
fn in_all_members(members: &Vec<Vec<usize>>, b: usize) -> (r: bool)
    ensures
        r == forall|k: int| 1 <= k < members@.len() ==> #[trigger] members@[k]@.contains(b),
{
    let mut k: usize = 1;
    while k < members.len()
        invariant
            1 <= k,
            forall|j: int| 1 <= j < k && j < members@.len() ==> #[trigger] members@[j]@.contains(b),
        decreases members@.len() - k,
    {
        if !has_class(&members[k], b) {
            return false;
        }
        k = k + 1;
    }
    true
}

/// The rows of the integer program for the classes `children` (the child
/// classes of each remaining member of each class) and `roots`; `None` when
/// some root has no member left, and the program cannot be met. With
/// `intersect`, a class's activity implies that of the classes every member
/// needs, and each member's row leaves those out.
pub fn ilp_rows(children: &Vec<Vec<Vec<usize>>>, roots: &[usize], intersect: bool) -> (r: Option<IlpRows>)
    requires
        classes_in_range(children@, roots@),
    ensures
        r is None <==> root_without_members(children@, roots@),
        r matches Some(rows) ==> rows_for(children@, intersect, rows.class_rows@, rows.node_rows@),
{
    let mut i: usize = 0;
    while i < roots.len()
        invariant
            i <= roots@.len(),
            classes_in_range(children@, roots@),
            forall|j: int| 0 <= j < i ==> children@[#[trigger] roots@[j] as int]@.len() > 0,
        decreases roots@.len() - i,
    {
        if children[roots[i]].len() == 0 {
            return None;
        }
        i = i + 1;
    }
    let mut class_rows: Vec<(usize, usize)> = Vec::new();
    let mut node_rows: Vec<(usize, usize, usize)> = Vec::new();
    let mut a: usize = 0;
    while a < children.len()
        invariant
            a <= children@.len(),
            forall|x: usize, y: usize|
                #[trigger] class_rows@.contains((x, y)) <==> x < a && in_intersection(children@, x as int, y, intersect),
            forall|x: usize, k: usize, y: usize|
                #[trigger] node_rows@.contains((x, k, y)) <==> x < a && k < children@[x as int]@.len()
                    && children@[x as int]@[k as int]@.contains(y) && !in_intersection(children@, x as int, y, intersect),
        decreases children@.len() - a,
    {
        let members = &children[a];
        let m = members.len();
        let mut inter: Vec<usize> = Vec::new();
        if intersect && m > 0 {
            let first = &members[0];
            let mut j: usize = 0;
            while j < first.len()
                invariant
                    j <= first@.len(),
                    m == members@.len(),
                    m > 0,
                    intersect,
                    first@ == members@[0]@,
                    forall|y: usize| #[trigger] inter@.contains(y) <==> (exists|t: int| 0 <= t < j && first@[t] == y)
                        && forall|k: int| 1 <= k < members@.len() ==> #[trigger] members@[k]@.contains(y),
                decreases first@.len() - j,
            {
                let y = first[j];
                let ghost before = inter@;
                if in_all_members(members, y) {
                    inter.push(y);
                }
                proof {
                    assert forall|z: usize| #[trigger] inter@.contains(z) <==> (exists|t: int| 0 <= t < j + 1 && first@[t] == z)
                        && forall|k: int| 1 <= k < members@.len() ==> #[trigger] members@[k]@.contains(z) by {
                        if inter@.contains(z) && z != y {
                            assert(before.contains(z)) by {
                                let q = inter@.index_of(z);
                                if q < before.len() {
                                    assert(before[q] == z);
                                }
                            }
                        }
                        if before.contains(z) {
                            let q = before.index_of(z);
                            assert(inter@[q] == z);
                        }
                        if z == y && (forall|k: int| 1 <= k < members@.len() ==> #[trigger] members@[k]@.contains(z)) {
                            assert(inter@.last() == z);
                        }
                        if (exists|t: int| 0 <= t < j + 1 && first@[t] == z) {
                            let t = choose|t: int| 0 <= t < j + 1 && first@[t] == z;
                            if t < j {
                                assert(exists|t2: int| 0 <= t2 < j && first@[t2] == z);
                            }
                        }
                    }
                }
                j = j + 1;
            }
        }
        proof {
            assert forall|y: usize| #[trigger] inter@.contains(y) <==> in_intersection(children@, a as int, y, intersect) by {
                if intersect && m > 0 {
                    if inter@.contains(y) {
                        let t = choose|t: int| 0 <= t < members@[0]@.len() && members@[0]@[t] == y;
                        assert(members@[0]@.contains(y));
                        assert forall|k: int| 0 <= k < children@[a as int]@.len() implies #[trigger] children@[a as int]@[k]@.contains(y) by {
                            if k == 0 {
                                assert(members@[0]@.contains(y));
                            }
                        }
                    }
                    if in_intersection(children@, a as int, y, intersect) {
                        assert(children@[a as int]@[0]@.contains(y));
                        let t = members@[0]@.index_of(y);
                        assert(members@[0]@[t] == y);
                    }
                }
            }
        }
        let ghost cr0 = class_rows@;
        let mut j: usize = 0;
        while j < inter.len()
            invariant
                j <= inter@.len(),
                a < children@.len(),
                forall|y: usize| #[trigger] inter@.contains(y) <==> in_intersection(children@, a as int, y, intersect),
                forall|x: usize, y: usize|
                    #[trigger] class_rows@.contains((x, y)) <==> cr0.contains((x, y)) || (x == a && exists|t: int| 0 <= t < j && inter@[t] == y),
                forall|x: usize, y: usize|
                    #[trigger] cr0.contains((x, y)) <==> x < a && in_intersection(children@, x as int, y, intersect),
            decreases inter@.len() - j,
        {
            let ghost before = class_rows@;
            class_rows.push((a, inter[j]));
            proof {
                assert forall|x: usize, y: usize|
                    #[trigger] class_rows@.contains((x, y)) <==> cr0.contains((x, y)) || (x == a && exists|t: int| 0 <= t < j + 1 && inter@[t] == y) by {
                    if class_rows@.contains((x, y)) && (x, y) != (a, inter@[j as int]) {
                        let q = class_rows@.index_of((x, y));
                        if q < before.len() {
                            assert(before[q] == (x, y));
                        }
                        assert(before.contains((x, y)));
                    }
                    if before.contains((x, y)) {
                        let q = before.index_of((x, y));
                        assert(class_rows@[q] == (x, y));
                    }
                    if x == a && y == inter@[j as int] {
                        assert(class_rows@.last() == (x, y));
                    }
                    if x == a && exists|t: int| 0 <= t < j + 1 && inter@[t] == y {
                        let t = choose|t: int| 0 <= t < j + 1 && inter@[t] == y;
                        if t < j {
                            assert(exists|t2: int| 0 <= t2 < j && inter@[t2] == y);
                        }
                    }
                }
            }
            j = j + 1;
        }
        proof {
            assert forall|x: usize, y: usize|
                #[trigger] class_rows@.contains((x, y)) <==> x < a + 1 && in_intersection(children@, x as int, y, intersect) by {
                if x == a {
                    if in_intersection(children@, a as int, y, intersect) {
                        assert(inter@.contains(y));
                        let t = inter@.index_of(y);
                        assert(inter@[t] == y);
                    }
                    if exists|t: int| 0 <= t < inter@.len() && inter@[t] == y {
                        let t = choose|t: int| 0 <= t < inter@.len() && inter@[t] == y;
                        assert(inter@.contains(y));
                    }
                }
            }
        }
        let ghost nr0 = node_rows@;
        let mut k: usize = 0;
        while k < m
            invariant
                k <= m,
                m == members@.len(),
                members@ == children@[a as int]@,
                a < children@.len(),
                forall|y: usize| #[trigger] inter@.contains(y) <==> in_intersection(children@, a as int, y, intersect),
                forall|x: usize, kk: usize, y: usize|
                    #[trigger] nr0.contains((x, kk, y)) <==> x < a && kk < children@[x as int]@.len()
                        && children@[x as int]@[kk as int]@.contains(y) && !in_intersection(children@, x as int, y, intersect),
                forall|x: usize, kk: usize, y: usize|
                    #[trigger] node_rows@.contains((x, kk, y)) <==> nr0.contains((x, kk, y)) || (x == a && kk < k
                        && members@[kk as int]@.contains(y) && !in_intersection(children@, a as int, y, intersect)),
            decreases m - k,
        {
            let kids = &members[k];
            let ghost nr1 = node_rows@;
            let mut t: usize = 0;
            while t < kids.len()
                invariant
                    t <= kids@.len(),
                    kids@ == members@[k as int]@,
                    k < m,
                    m == members@.len(),
                    forall|y: usize| #[trigger] inter@.contains(y) <==> in_intersection(children@, a as int, y, intersect),
                    forall|x: usize, kk: usize, y: usize|
                        #[trigger] node_rows@.contains((x, kk, y)) <==> nr1.contains((x, kk, y)) || (x == a && kk == k
                            && (exists|q: int| 0 <= q < t && kids@[q] == y) && !in_intersection(children@, a as int, y, intersect)),
                decreases kids@.len() - t,
            {
                let y = kids[t];
                let ghost before = node_rows@;
                if !has_class(&inter, y) {
                    node_rows.push((a, k, y));
                }
                proof {
                    assert forall|x: usize, kk: usize, z: usize|
                        #[trigger] node_rows@.contains((x, kk, z)) <==> nr1.contains((x, kk, z)) || (x == a && kk == k
                            && (exists|q: int| 0 <= q < t + 1 && kids@[q] == z) && !in_intersection(children@, a as int, z, intersect)) by {
                        if node_rows@.contains((x, kk, z)) && (x, kk, z) != (a, k, y) {
                            let q = node_rows@.index_of((x, kk, z));
                            if q < before.len() {
                                assert(before[q] == (x, kk, z));
                            }
                            assert(before.contains((x, kk, z)));
                        }
                        if before.contains((x, kk, z)) {
                            let q = before.index_of((x, kk, z));
                            assert(node_rows@[q] == (x, kk, z));
                        }
                        if (x, kk, z) == (a, k, y) && !in_intersection(children@, a as int, z, intersect) {
                            assert(node_rows@.last() == (x, kk, z));
                        }
                        if x == a && kk == k && exists|q: int| 0 <= q < t + 1 && kids@[q] == z {
                            let q = choose|q: int| 0 <= q < t + 1 && kids@[q] == z;
                            if q < t {
                                assert(exists|q2: int| 0 <= q2 < t && kids@[q2] == z);
                            }
                        }
                    }
                }
                t = t + 1;
            }
            proof {
                assert forall|x: usize, kk: usize, y: usize|
                    #[trigger] node_rows@.contains((x, kk, y)) <==> nr0.contains((x, kk, y)) || (x == a && kk < k + 1
                        && members@[kk as int]@.contains(y) && !in_intersection(children@, a as int, y, intersect)) by {
                    if x == a && kk == k && members@[kk as int]@.contains(y) {
                        let q = kids@.index_of(y);
                        assert(kids@[q] == y);
                    }
                    if x == a && kk == k && exists|q: int| 0 <= q < kids@.len() && kids@[q] == y {
                        let q = choose|q: int| 0 <= q < kids@.len() && kids@[q] == y;
                        assert(kids@.contains(y));
                    }
                }
            }
            k = k + 1;
        }
        a = a + 1;
    }
    proof {
        if root_without_members(children@, roots@) {
            let q = choose|q: int| 0 <= q < roots@.len() && children@[roots@[q] as int]@.len() == 0;
            assert(children@[roots@[q] as int]@.len() > 0);
        }
    }
    Some(IlpRows { class_rows, node_rows })
}

/// How many entries of `s` are true.
pub open spec fn count_true(s: Seq<bool>) -> nat
    decreases s.len(),
{
    if s.len() == 0 {
        0
    } else {
        count_true(s.drop_last()) + if s.last() { 1nat } else { 0nat }
    }
}

/// A true entry is counted.
proof fn lemma_count_true(s: Seq<bool>)
    ensures
        count_true(s) > 0 <==> exists|k: int| 0 <= k < s.len() && s[k],
    decreases s.len(),
{
    if s.len() > 0 {
        lemma_count_true(s.drop_last());
        if exists|k: int| 0 <= k < s.len() && s[k] {
            let k = choose|k: int| 0 <= k < s.len() && s[k];
            if k < s.len() - 1 {
                assert(s.drop_last()[k]);
            }
        }
        if exists|k: int| 0 <= k < s.len() - 1 && s.drop_last()[k] {
            let k = choose|k: int| 0 <= k < s.len() - 1 && s.drop_last()[k];
            assert(s[k]);
        }
    }
}

/// A 0/1 assignment to the class and member variables meets the program:
/// the roots are active, each class has as many active members as it is
/// active (one or none; none for a class without members), and every row's
/// implication holds.
pub open spec fn meets_rows(
    children: Seq<Vec<Vec<usize>>>,
    roots: Seq<usize>,
    class_rows: Seq<(usize, usize)>,
    node_rows: Seq<(usize, usize, usize)>,
    active: Seq<bool>,
    node: Seq<Seq<bool>>,
) -> bool {
    &&& forall|i: int| 0 <= i < roots.len() ==> active[#[trigger] roots[i] as int]
    &&& forall|a: int| 0 <= a < children.len() ==> #[trigger] count_true(node[a]) == if active[a] { 1nat } else { 0nat }
    &&& forall|x: usize, y: usize| #[trigger] class_rows.contains((x, y)) && active[x as int] ==> active[y as int]
    &&& forall|x: usize, k: usize, y: usize|
        #[trigger] node_rows.contains((x, k, y)) && node[x as int][k as int] ==> active[y as int]
}

/// The active members form a choice closed under children: the roots are
/// active, each active class has exactly one active member and each other
/// class none, and every child class of an active member is active.
pub open spec fn closed_activity(
    children: Seq<Vec<Vec<usize>>>,
    roots: Seq<usize>,
    active: Seq<bool>,
    node: Seq<Seq<bool>>,
) -> bool {
    &&& forall|i: int| 0 <= i < roots.len() ==> active[#[trigger] roots[i] as int]
    &&& forall|a: int| 0 <= a < children.len() ==> #[trigger] count_true(node[a]) == if active[a] { 1nat } else { 0nat }
    &&& forall|a: int, k: int, y: usize|
        0 <= a < children.len() && 0 <= k < children[a]@.len() && #[trigger] node[a][k]
            && #[trigger] children[a]@[k]@.contains(y) ==> active[y as int]
}

/// An assignment meets the rows `ilp_rows` gives exactly when its active
/// members form a choice closed under children that includes the roots.
pub proof fn law_rows_mean_closed_activity(
    children: Seq<Vec<Vec<usize>>>,
    roots: Seq<usize>,
    intersect: bool,
    class_rows: Seq<(usize, usize)>,
    node_rows: Seq<(usize, usize, usize)>,
    active: Seq<bool>,
    node: Seq<Seq<bool>>,
)
    requires
        classes_in_range(children, roots),
        children.len() <= usize::MAX,
        forall|a: int| 0 <= a < children.len() ==> (#[trigger] children[a])@.len() <= usize::MAX,
        rows_for(children, intersect, class_rows, node_rows),
        active.len() == children.len(),
        node.len() == children.len(),
        forall|a: int| 0 <= a < children.len() ==> (#[trigger] node[a]).len() == children[a]@.len(),
    ensures
        meets_rows(children, roots, class_rows, node_rows, active, node) <==> closed_activity(children, roots, active, node),
{
    if meets_rows(children, roots, class_rows, node_rows, active, node) {
        assert forall|a: int, k: int, y: usize|
            0 <= a < children.len() && 0 <= k < children[a]@.len() && #[trigger] node[a][k]
                && #[trigger] children[a]@[k]@.contains(y) implies active[y as int] by {
            lemma_count_true(node[a]);
            assert(count_true(node[a]) > 0);
            assert(active[a]);
            let au = a as usize;
            let ku = k as usize;
            assert(au as int == a);
            assert(children[a]@.len() <= usize::MAX);
            assert(ku as int == k);
            if in_intersection(children, a, y, intersect) {
                assert(class_rows.contains((au, y)));
            } else {
                assert(node_rows.contains((au, ku, y)));
            }
        }
    }
    if closed_activity(children, roots, active, node) {
        assert forall|x: usize, y: usize| #[trigger] class_rows.contains((x, y)) && active[x as int] implies active[y as int] by {
            assert(in_intersection(children, x as int, y, intersect));
            assert(count_true(node[x as int]) == 1);
            lemma_count_true(node[x as int]);
            let k = choose|k: int| 0 <= k < node[x as int].len() && node[x as int][k];
            assert(children[x as int]@[k]@.contains(y));
        }
        assert forall|x: usize, k: usize, y: usize|
            #[trigger] node_rows.contains((x, k, y)) && node[x as int][k as int] implies active[y as int] by {
            assert(children[x as int]@[k as int]@.contains(y));
        }
    }
}

/// The active member of each active class of a solution: the first whose
/// variable is set (the program lets only one be).
pub fn chosen_members(active: &Vec<bool>, node: &Vec<Vec<bool>>) -> (r: Vec<Option<usize>>)
    requires
        active@.len() == node@.len(),
        forall|a: int| 0 <= a < active@.len() && #[trigger] active@[a] ==> count_true(node@[a]@) == 1,
    ensures
        r@.len() == active@.len(),
        forall|a: int| 0 <= a < active@.len() ==> (#[trigger] r@[a] is Some <==> active@[a]),
        forall|a: int|
            0 <= a < active@.len() ==> ((#[trigger] r@[a]) matches Some(k) ==> k < node@[a]@.len()
                && node@[a]@[k as int] && forall|j: int| 0 <= j < k ==> !node@[a]@[j]),
{
    let mut r: Vec<Option<usize>> = Vec::new();
    let mut a: usize = 0;
    while a < active.len()
        invariant
            a <= active@.len(),
            active@.len() == node@.len(),
            forall|b: int| 0 <= b < active@.len() && #[trigger] active@[b] ==> count_true(node@[b]@) == 1,
            r@.len() == a,
            forall|b: int| 0 <= b < a ==> (#[trigger] r@[b] is Some <==> active@[b]),
            forall|b: int|
                0 <= b < a ==> ((#[trigger] r@[b]) matches Some(k) ==> k < node@[b]@.len()
                    && node@[b]@[k as int] && forall|j: int| 0 <= j < k ==> !node@[b]@[j]),
        decreases active@.len() - a,
    {
        if active[a] {
            let vars = &node[a];
            proof {
                lemma_count_true(vars@);
            }
            let mut k: usize = 0;
            while k < vars.len() && !vars[k]
                invariant
                    k <= vars@.len(),
                    exists|q: int| 0 <= q < vars@.len() && vars@[q],
                    forall|j: int| 0 <= j < k ==> !vars@[j],
                decreases vars@.len() - k,
            {
                k = k + 1;
            }
            proof {
                if k == vars@.len() {
                    let q = choose|q: int| 0 <= q < vars@.len() && vars@[q];
                    assert(!vars@[q]);
                }
            }
            r.push(Some(k));
        } else {
            r.push(None);
        }
        a = a + 1;
    }
    r
}

} // verus!
