//! Underlying node representation for the persistent hash sets: a hash array
//! mapped trie with 32-way branching, collision buckets, and a group-valued
//! aggregate kept at every node.
use vstd::prelude::*;
use std::rc::Rc;
use super::group::{cancels, clones_exactly, Group};
use super::hash_key::HashKey;

verus! {

/// Number of hash bits consumed at each level of the trie.
pub const BITS: u32 = 5;

/// Branching factor of the trie.
pub const ARITY: usize = 32;

/// The deepest level a chunk can sit at (its bits offset is `5 * MAX_LEVEL`).
pub open spec fn max_level() -> nat {
    6
}

/// The child index that hash `h` selects at bit offset `bits`.
pub open spec fn digit_at(h: u32, bits: u32) -> u32 {
    (h >> bits) % 32
}

/// `h` selects the child indices `prefix[0], prefix[1], ...` at levels
/// `0, 1, ...`.
pub open spec fn has_prefix(h: u32, prefix: Seq<u32>) -> bool {
    forall|k: int| 0 <= k < prefix.len() ==> digit_at(h, (5 * k) as u32) == #[trigger] prefix[k]
}

/// `h` belongs in child `i` of a chunk reached along `prefix`.
pub open spec fn in_slot(h: u32, prefix: Seq<u32>, i: u32) -> bool {
    &&& has_prefix(h, prefix)
    &&& digit_at(h, (5 * prefix.len()) as u32) == i
}

/// A bucket of elements that share one full 32-bit hash code.
pub struct CollisionNode<T, G> {
    pub hash: u32,
    pub agg: G,
    pub data: Vec<T>,
}

/// One of the 32 slots of a chunk.
pub enum Child<T, G> {
    Null,
    Leaf(T),
    Collision(Rc<CollisionNode<T, G>>),
    Inner(Rc<Chunk<T, G>>),
}

/// An interior node of the trie. `hash` is the exclusive or of the summaries
/// of its children (`chunk_wf` keeps it so); `agg` is the aggregate that the
/// updates keep, adding and subtracting the group values their callers give;
/// `len` counts the elements below it.
pub struct Chunk<T, G> {
    pub hash: u32,
    pub len: usize,
    pub children: Vec<Child<T, G>>,
    pub agg: G,
}

pub open spec fn child_has<T, G>(c: Child<T, G>, x: T) -> bool
    decreases c, 0nat,
{
    match c {
        Child::Null => false,
        Child::Leaf(t) => t == x,
        Child::Collision(cn) => cn.data@.contains(x),
        Child::Inner(rc) => chunk_has_upto(*rc, x, rc.children@.len()),
    }
}

/// `x` is below one of the first `n` children of `c`.
pub open spec fn chunk_has_upto<T, G>(c: Chunk<T, G>, x: T, n: nat) -> bool
    decreases c, n,
{
    if n == 0 || n > c.children@.len() {
        false
    } else {
        proof {
            assert(decreases_to!(c => c.children));
            assert(decreases_to!(c.children => c.children@));
            assert(decreases_to!(c.children@ => c.children@[n - 1]));
        }
        chunk_has_upto(c, x, (n - 1) as nat) || child_has(c.children@[n - 1], x)
    }
}

pub open spec fn chunk_has<T, G>(c: Chunk<T, G>, x: T) -> bool {
    chunk_has_upto(c, x, c.children@.len())
}

/// `chunk_has_upto` is an existential over the first `n` slots.
pub proof fn lemma_has_upto<T, G>(c: Chunk<T, G>, x: T, n: nat)
    requires
        n <= c.children@.len(),
    ensures
        chunk_has_upto(c, x, n) <==> exists|i: int| 0 <= i < n && #[trigger] child_has(c.children@[i], x),
    decreases n,
{
    if n > 0 {
        lemma_has_upto(c, x, (n - 1) as nat);
        if child_has(c.children@[n - 1], x) {
            assert(child_has(c.children@[n - 1], x));
        }
        if exists|i: int| 0 <= i < n && #[trigger] child_has(c.children@[i], x) {
            let i = choose|i: int| 0 <= i < n && #[trigger] child_has(c.children@[i], x);
            if i < n - 1 {
                assert(child_has(c.children@[i], x));
            }
        }
    }
}

/// `chunk_has` is an existential over all slots.
pub proof fn lemma_has<T, G>(c: Chunk<T, G>, x: T)
    ensures
        chunk_has(c, x) <==> exists|i: int| 0 <= i < c.children@.len() && #[trigger] child_has(c.children@[i], x),
{
    lemma_has_upto(c, x, c.children@.len());
}

/// Appending a new element keeps a sequence free of duplicates.
pub proof fn lemma_push_no_dup<A>(s: Seq<A>, x: A)
    requires
        s.no_duplicates(),
        !s.contains(x),
    ensures
        s.push(x).no_duplicates(),
{
    let t = s.push(x);
    assert forall|a: int, b: int| 0 <= a < t.len() && 0 <= b < t.len() && a != b implies t[a] != t[b] by {
        if a < s.len() && b < s.len() {
            assert(t[a] == s[a] && t[b] == s[b]);
        } else if a < s.len() {
            assert(t[a] == s[a]);
        } else if b < s.len() {
            assert(t[b] == s[b]);
        }
    }
}

/// What inserting `elt` into child `old_c` must produce.
pub open spec fn insert_post<T, G>(new_c: Child<T, G>, old_c: Child<T, G>, elt: T) -> bool {
    &&& forall|x: T| #[trigger] child_has(new_c, x) <==> (child_has(old_c, x) || x == elt)
    &&& child_count(new_c) == child_count(old_c) + (if child_has(old_c, elt) { 0int } else { 1int })
}

/// What removing `key` from child `old_c` must produce.
pub open spec fn remove_post<T, G>(new_c: Child<T, G>, old_c: Child<T, G>, key: T) -> bool {
    &&& forall|x: T| #[trigger] child_has(new_c, x) <==> (child_has(old_c, x) && x != key)
    &&& child_count(new_c) == child_count(old_c) - (if child_has(old_c, key) { 1int } else { 0int })
}

/// Slot `j` is the only non-empty slot of `c`.
pub open spec fn one_child_at<T, G>(c: Chunk<T, G>, j: int) -> bool {
    &&& !(c.children@[j] is Null)
    &&& forall|k: int| 0 <= k < c.children@.len() && k != j ==> c.children@[k] is Null
}

/// A chunk whose only non-empty slot is `j` counts what that slot holds.
pub proof fn lemma_only_child<T, G>(c: Chunk<T, G>, j: int, n: nat)
    requires
        0 <= j < c.children@.len(),
        n <= c.children@.len(),
        one_child_at(c, j),
    ensures
        count_upto(c.children@, n) == if j < n { child_count(c.children@[j]) } else { 0 },
    decreases n,
{
    if n > 0 {
        lemma_only_child(c, j, (n - 1) as nat);
        if n - 1 != j {
            assert(c.children@[n - 1] is Null);
        }
    }
}

/// A leaf or bucket in slot `j` of the chunk in slot `i` may take that
/// chunk's place in slot `i`.
pub proof fn lemma_promote_wf<T: HashKey, G>(c: Child<T, G>, prefix: Seq<u32>, i: u32, j: u32)
    requires
        prefix.len() < max_level(),
        child_wf(c, prefix.push(i), j),
        !(c is Inner),
    ensures
        child_wf(c, prefix, i),
{
    match c {
        Child::Leaf(t) => {
            lemma_in_slot_push(t.spec_hash(), prefix, i);
        },
        Child::Collision(cn) => {
            lemma_in_slot_push(cn.hash, prefix, i);
        },
        _ => {},
    }
}

/// Well-formedness and contents depend only on a chunk's slots and count.
pub proof fn lemma_same_shape<T: HashKey, G>(a: Chunk<T, G>, b: Chunk<T, G>, prefix: Seq<u32>)
    requires
        a.children@ == b.children@,
        a.len == b.len,
        a.hash == b.hash,
    ensures
        chunk_wf(a, prefix) == chunk_wf(b, prefix),
        chunk_view(a) == chunk_view(b),
{
    lemma_chunk_wf(a, prefix);
    lemma_chunk_wf(b, prefix);
    assert forall|x: T| chunk_has(a, x) == chunk_has(b, x) by {
        lemma_has(a, x);
        lemma_has(b, x);
    }
    assert(chunk_view(a) =~= chunk_view(b));
}

/// The chunk an inner child points to.
pub open spec fn inner_of<T, G>(c: Child<T, G>) -> Chunk<T, G>
    recommends
        c is Inner,
{
    match c {
        Child::Inner(rc) => *rc,
        _ => arbitrary(),
    }
}

/// The elements stored below a chunk.
pub open spec fn chunk_view<T, G>(c: Chunk<T, G>) -> Set<T> {
    Set::new(|x: T| chunk_has(c, x))
}

/// The elements stored below a child.
pub open spec fn child_view<T, G>(c: Child<T, G>) -> Set<T> {
    Set::new(|x: T| child_has(c, x))
}

/// How many elements a child holds, by its own bookkeeping.
pub open spec fn child_count<T, G>(c: Child<T, G>) -> nat {
    match c {
        Child::Null => 0,
        Child::Leaf(_) => 1,
        Child::Collision(cn) => cn.data@.len(),
        Child::Inner(rc) => rc.len as nat,
    }
}

pub open spec fn count_upto<T, G>(s: Seq<Child<T, G>>, n: nat) -> nat
    decreases n,
{
    if n == 0 {
        0
    } else {
        count_upto(s, (n - 1) as nat) + child_count(s[n - 1])
    }
}

pub open spec fn collision_wf<T: HashKey, G>(cn: CollisionNode<T, G>, prefix: Seq<u32>, i: u32) -> bool {
    &&& cn.data@.len() >= 2
    &&& cn.data@.no_duplicates()
    &&& forall|j: int| 0 <= j < cn.data@.len() ==> (#[trigger] cn.data@[j]).spec_hash() == cn.hash
    &&& in_slot(cn.hash, prefix, i)
}

/// Child `i` of a chunk reached along `prefix` is well formed.
pub open spec fn child_wf<T: HashKey, G>(c: Child<T, G>, prefix: Seq<u32>, i: u32) -> bool
    decreases c, 0nat,
{
    match c {
        Child::Null => true,
        Child::Leaf(t) => in_slot(t.spec_hash(), prefix, i),
        Child::Collision(cn) => collision_wf(*cn, prefix, i),
        Child::Inner(rc) => prefix.len() < max_level() && rc.children@.len() == 32
            && children_wf_upto(*rc, prefix.push(i), 32) && rc.len as nat == count_upto(
            rc.children@,
            32,
        ) && rc.hash == digest_upto(rc.children@, 32) && spread(chunk_view(*rc)),
    }
}

/// The first `n` children of `c` are well formed.
pub open spec fn children_wf_upto<T: HashKey, G>(c: Chunk<T, G>, prefix: Seq<u32>, n: nat) -> bool
    decreases c, n,
{
    if n == 0 || n > c.children@.len() {
        n == 0
    } else {
        proof {
            assert(decreases_to!(c => c.children));
            assert(decreases_to!(c.children => c.children@));
            assert(decreases_to!(c.children@ => c.children@[n - 1]));
        }
        children_wf_upto(c, prefix, (n - 1) as nat) && child_wf(
            c.children@[n - 1],
            prefix,
            (n - 1) as u32,
        )
    }
}

/// A chunk reached along `prefix` is well formed: 32 slots, each element in the
/// slot its hash selects, a correct element count and a correct digest.
pub open spec fn chunk_wf<T: HashKey, G>(c: Chunk<T, G>, prefix: Seq<u32>) -> bool {
    &&& c.children@.len() == 32
    &&& prefix.len() <= max_level()
    &&& children_wf_upto(c, prefix, 32)
    &&& c.len as nat == count_upto(c.children@, 32)
    &&& c.hash == digest_upto(c.children@, 32)
}

/// What a child adds to its chunk's digest: an element's hash, a bucket's
/// hash, or a chunk's digest.
pub open spec fn child_digest<T: HashKey, G>(c: Child<T, G>) -> u32 {
    match c {
        Child::Null => 0,
        Child::Leaf(t) => t.spec_hash(),
        Child::Collision(cn) => cn.hash,
        Child::Inner(rc) => rc.hash,
    }
}

/// The exclusive or of what the first `n` children add to the digest.
pub open spec fn digest_upto<T: HashKey, G>(s: Seq<Child<T, G>>, n: nat) -> u32
    decreases n,
{
    if n == 0 {
        0
    } else {
        digest_upto(s, (n - 1) as nat) ^ child_digest(s[n - 1])
    }
}

/// Not all the elements share one hash: only then do they need a chunk of
/// their own one level down.
pub open spec fn spread<T: HashKey>(s: Set<T>) -> bool {
    exists|x: T, y: T| #[trigger] s.contains(x) && #[trigger] s.contains(y) && x.spec_hash() != y.spec_hash()
}

/// Adding the leaf `x` to an aggregate `before` that may or may not hold it
/// gives `after`: unchanged if `held`, else with a value that `as_group`
/// gives for `x` combined in.
pub open spec fn adds_leaf<T, G: Group, F: Fn(&T) -> G>(as_group: F, x: T, held: bool, before: G, after: G) -> bool {
    exists|g: G|
        #![trigger call_ensures(as_group, (&x,), g)]
        call_ensures(as_group, (&x,), g) && after == (if held { before } else { before.combine(g) })
}

/// Where `other` holds just a leaf `x`, unioning it into `c` leaves the
/// aggregate `after`: that of `c` with `x` added as `adds_leaf` says.
pub open spec fn lone_leaf_added<T, G: Group, F: Fn(&T) -> G>(as_group: F, other: Chunk<T, G>, c: Chunk<T, G>, after: G) -> bool {
    forall|s: int, x: T| #[trigger] lone_leaf_at(other, s, x) ==> adds_leaf(as_group, x, chunk_has(c, x), c.agg, after)
}

/// Slot `s` of `c` holds the leaf `x`, and every other slot is empty.
pub open spec fn lone_leaf_at<T, G>(c: Chunk<T, G>, s: int, x: T) -> bool {
    &&& 0 <= s < c.children@.len()
    &&& c.children@[s] == Child::<T, G>::Leaf(x)
    &&& forall|j: int| 0 <= j < c.children@.len() && j != s ==> #[trigger] c.children@[j] is Null
}

/// A well formed chunk that holds just `x` holds it as a leaf in its slot,
/// with every other slot empty.
pub proof fn lemma_lone_leaf<T: HashKey, G>(c: Chunk<T, G>, prefix: Seq<u32>, x: T) -> (s: int)
    requires
        chunk_wf(c, prefix),
        chunk_view(c) == Set::<T>::empty().insert(x),
    ensures
        lone_leaf_at(c, s, x),
{
    lemma_chunk_wf(c, prefix);
    assert(chunk_view(c).contains(x));
    lemma_has_iff_slot(c, prefix, x);
    let s = digit_at(x.spec_hash(), (5 * prefix.len()) as u32) as int;
    assert(0 <= s < 32);
    let ch = c.children@[s];
    assert(child_wf(ch, prefix, s as u32));
    assert(child_has(ch, x));
    match ch {
        Child::Collision(cn) => {
            let y = if cn.data@[0] == x { cn.data@[1] } else { cn.data@[0] };
            assert(cn.data@[0] != cn.data@[1]);
            assert(child_has(ch, y));
            lemma_has(c, y);
            assert(chunk_view(c).contains(y));
        },
        Child::Inner(rc) => {
            let (a, b) = choose|a: T, b: T| #[trigger] chunk_view(*rc).contains(a) && #[trigger] chunk_view(*rc).contains(b)
                && a.spec_hash() != b.spec_hash();
            assert(child_has(ch, a) && child_has(ch, b));
            lemma_has(c, a);
            lemma_has(c, b);
            assert(chunk_view(c).contains(a) && chunk_view(c).contains(b));
        },
        _ => {},
    }
    assert forall|j: int| 0 <= j < c.children@.len() && j != s implies #[trigger] c.children@[j] is Null by {
        let cj = c.children@[j];
        assert(child_wf(cj, prefix, j as u32));
        if !(cj is Null) {
            lemma_child_nonempty(cj, prefix, j as u32);
            let y = choose|y: T| #[trigger] child_has(cj, y);
            lemma_has(c, y);
            assert(chunk_view(c).contains(y));
            assert(y == x);
            lemma_child_members(cj, prefix, j as u32, y);
        }
    }
    s
}

/// A child that holds two elements with different hashes is an interior
/// chunk.
pub proof fn lemma_spread_child_is_inner<T: HashKey, G>(c: Child<T, G>, prefix: Seq<u32>, i: u32, x: T, y: T)
    requires
        child_wf(c, prefix, i),
        child_has(c, x),
        child_has(c, y),
        x.spec_hash() != y.spec_hash(),
    ensures
        c is Inner,
{
    match c {
        Child::Collision(cn) => {
            let kx = choose|k: int| 0 <= k < cn.data@.len() && cn.data@[k] == x;
            let ky = choose|k: int| 0 <= k < cn.data@.len() && cn.data@[k] == y;
            assert(cn.data@[kx].spec_hash() == cn.hash);
            assert(cn.data@[ky].spec_hash() == cn.hash);
        },
        _ => {},
    }
}

/// A set that holds all of a spread set is spread.
pub proof fn lemma_spread_grows<T: HashKey>(a: Set<T>, b: Set<T>)
    requires
        spread(a),
        a.subset_of(b),
    ensures
        spread(b),
{
    let (x, y) = choose|x: T, y: T| #[trigger] a.contains(x) && #[trigger] a.contains(y) && x.spec_hash() != y.spec_hash();
    assert(b.contains(x) && b.contains(y));
}

/// A chunk that holds an element and has no single non-empty slot holds
/// elements in two slots, so elements of two hashes.
pub proof fn lemma_no_single_slot_spread<T: HashKey, G>(c: Chunk<T, G>, prefix: Seq<u32>, z: T)
    requires
        chunk_wf(c, prefix),
        chunk_has(c, z),
        forall|j: int| 0 <= j < 32 ==> !one_child_at(c, j),
    ensures
        spread(chunk_view(c)),
{
    lemma_chunk_wf(c, prefix);
    lemma_has(c, z);
    let j1 = choose|j: int| 0 <= j < c.children@.len() && #[trigger] child_has(c.children@[j], z);
    assert(!one_child_at(c, j1));
    let j2 = choose|k: int| 0 <= k < c.children@.len() && k != j1 && !(c.children@[k] is Null);
    assert(child_wf(c.children@[j2], prefix, j2 as u32));
    lemma_child_nonempty(c.children@[j2], prefix, j2 as u32);
    let w = choose|x: T| #[trigger] child_has(c.children@[j2], x);
    assert(child_wf(c.children@[j1], prefix, j1 as u32));
    lemma_child_members(c.children@[j1], prefix, j1 as u32, z);
    lemma_child_members(c.children@[j2], prefix, j2 as u32, w);
    lemma_has(c, w);
    assert(chunk_view(c).contains(z) && chunk_view(c).contains(w));
}

/// Exclusive or facts the digest bookkeeping rests on.
pub proof fn lemma_xor_facts(a: u32, b: u32, c: u32, d: u32)
    by (bit_vector)
    ensures
        a ^ 0 == a,
        0 ^ a == a,
        a ^ b ^ b == a,
        a ^ b ^ b ^ c == a ^ c,
        a ^ b ^ c ^ d == a ^ d ^ b ^ c,
{
}

/// Replacing one child changes the digest by the two children's digests.
pub proof fn lemma_digest_update<T: HashKey, G>(s: Seq<Child<T, G>>, idx: int, nc: Child<T, G>, n: nat)
    requires
        0 <= idx < s.len(),
        n <= s.len(),
    ensures
        digest_upto(s.update(idx, nc), n) == if idx < n {
            digest_upto(s, n) ^ child_digest(s[idx]) ^ child_digest(nc)
        } else {
            digest_upto(s, n)
        },
    decreases n,
{
    if n > 0 {
        lemma_digest_update(s, idx, nc, (n - 1) as nat);
        let a = digest_upto(s, (n - 1) as nat);
        let o = child_digest(s[idx]);
        let m = child_digest(nc);
        let z = child_digest(s[n - 1]);
        lemma_xor_facts(a, o, m, z);
        if idx == n - 1 {
            assert(s.update(idx, nc)[n - 1] == nc);
        } else {
            assert(s.update(idx, nc)[n - 1] == s[n - 1]);
        }
    }
}

/// A chunk whose only non-empty slot is `j` has that slot's digest.
pub proof fn lemma_only_child_digest<T: HashKey, G>(c: Chunk<T, G>, j: int, n: nat)
    requires
        0 <= j < c.children@.len(),
        n <= c.children@.len(),
        one_child_at(c, j),
    ensures
        digest_upto(c.children@, n) == if j < n { child_digest(c.children@[j]) } else { 0 },
    decreases n,
{
    if n > 0 {
        lemma_only_child_digest(c, j, (n - 1) as nat);
        lemma_xor_facts(digest_upto(c.children@, (n - 1) as nat), 0, 0, 0);
        lemma_xor_facts(child_digest(c.children@[n - 1]), 0, 0, 0);
        if n - 1 != j {
            assert(c.children@[n - 1] is Null);
        }
    }
}

/// A well-formed child other than `Null` holds an element.
pub proof fn lemma_child_nonempty<T: HashKey, G>(c: Child<T, G>, prefix: Seq<u32>, i: u32)
    requires
        child_wf(c, prefix, i),
        !(c is Null),
    ensures
        exists|x: T| #[trigger] child_has(c, x),
{
    match c {
        Child::Leaf(t) => {
            assert(child_has(c, t));
        },
        Child::Collision(cn) => {
            assert(cn.data@.contains(cn.data@[0]));
            assert(child_has(c, cn.data@[0]));
        },
        Child::Inner(rc) => {
            let (x, y) = choose|x: T, y: T| #[trigger] chunk_view(*rc).contains(x) && #[trigger] chunk_view(*rc).contains(y) && x.spec_hash() != y.spec_hash();
            assert(child_has(c, x));
        },
        _ => {},
    }
}

/// `children_wf_upto` is a universal over the first `n` slots.
pub proof fn lemma_children_wf_upto<T: HashKey, G>(c: Chunk<T, G>, prefix: Seq<u32>, n: nat)
    requires
        n <= c.children@.len(),
    ensures
        children_wf_upto(c, prefix, n) <==> forall|i: int| 0 <= i < n ==> #[trigger] child_wf(
            c.children@[i],
            prefix,
            i as u32,
        ),
    decreases n,
{
    if n > 0 {
        lemma_children_wf_upto(c, prefix, (n - 1) as nat);
        if forall|i: int| 0 <= i < n ==> #[trigger] child_wf(c.children@[i], prefix, i as u32) {
            assert(child_wf(c.children@[n - 1], prefix, (n - 1) as u32));
        }
        if children_wf_upto(c, prefix, n) {
            assert forall|i: int| 0 <= i < n implies #[trigger] child_wf(
                c.children@[i],
                prefix,
                i as u32,
            ) by {
                if i < n - 1 {
                    assert(child_wf(c.children@[i], prefix, i as u32));
                }
            }
        }
    }
}

/// `chunk_wf` spelled out with a universal over the slots.
pub proof fn lemma_chunk_wf<T: HashKey, G>(c: Chunk<T, G>, prefix: Seq<u32>)
    ensures
        chunk_wf(c, prefix) <==> {
            &&& c.children@.len() == 32
            &&& prefix.len() <= max_level()
            &&& forall|i: int| 0 <= i < 32 ==> #[trigger] child_wf(c.children@[i], prefix, i as u32)
            &&& c.len as nat == count_upto(c.children@, 32)
            &&& c.hash == digest_upto(c.children@, 32)
        },
{
    if c.children@.len() == 32 {
        lemma_children_wf_upto(c, prefix, 32);
    }
}

/// Two hashes that select the same child at every level are equal.
pub proof fn lemma_digits_determine_hash(h1: u32, h2: u32)
    by (bit_vector)
    requires
        (h1 >> 0u32) % 32 == (h2 >> 0u32) % 32,
        (h1 >> 5u32) % 32 == (h2 >> 5u32) % 32,
        (h1 >> 10u32) % 32 == (h2 >> 10u32) % 32,
        (h1 >> 15u32) % 32 == (h2 >> 15u32) % 32,
        (h1 >> 20u32) % 32 == (h2 >> 20u32) % 32,
        (h1 >> 25u32) % 32 == (h2 >> 25u32) % 32,
        (h1 >> 30u32) % 32 == (h2 >> 30u32) % 32,
    ensures
        h1 == h2,
{
}

/// Two hashes in the same slot of a chunk at the deepest level are equal.
pub proof fn lemma_deepest_slot_unique(h1: u32, h2: u32, prefix: Seq<u32>, i: u32)
    requires
        prefix.len() == max_level(),
        in_slot(h1, prefix, i),
        in_slot(h2, prefix, i),
    ensures
        h1 == h2,
{
    assert(digit_at(h1, 0) == prefix[0] && digit_at(h2, 0) == prefix[0]);
    assert(digit_at(h1, 5) == prefix[1] && digit_at(h2, 5) == prefix[1]);
    assert(digit_at(h1, 10) == prefix[2] && digit_at(h2, 10) == prefix[2]);
    assert(digit_at(h1, 15) == prefix[3] && digit_at(h2, 15) == prefix[3]);
    assert(digit_at(h1, 20) == prefix[4] && digit_at(h2, 20) == prefix[4]);
    assert(digit_at(h1, 25) == prefix[5] && digit_at(h2, 25) == prefix[5]);
    lemma_digits_determine_hash(h1, h2);
}

/// Being in slot `i` is having the prefix extended by `i`.
pub proof fn lemma_in_slot_push(h: u32, prefix: Seq<u32>, i: u32)
    ensures
        in_slot(h, prefix, i) <==> has_prefix(h, prefix.push(i)),
{
    let p2 = prefix.push(i);
    if in_slot(h, prefix, i) {
        assert forall|k: int| 0 <= k < p2.len() implies digit_at(h, (5 * k) as u32) == #[trigger] p2[k] by {
            if k < prefix.len() {
                assert(p2[k] == prefix[k]);
            }
        }
    }
    if has_prefix(h, p2) {
        assert forall|k: int| 0 <= k < prefix.len() implies digit_at(h, (5 * k) as u32) == #[trigger] prefix[k] by {
            assert(p2[k] == prefix[k]);
        }
        assert(p2[prefix.len() as int] == i);
    }
}

/// Every element below a well-formed child is in that child's slot.
pub proof fn lemma_child_members<T: HashKey, G>(c: Child<T, G>, prefix: Seq<u32>, i: u32, x: T)
    requires
        child_wf(c, prefix, i),
        child_has(c, x),
    ensures
        in_slot(x.spec_hash(), prefix, i),
    decreases c, 0nat,
{
    match c {
        Child::Null => {},
        Child::Leaf(t) => {},
        Child::Collision(cn) => {
            let j = cn.data@.index_of(x);
            assert(cn.data@[j] == x);
        },
        Child::Inner(rc) => {
            lemma_chunk_members(&*rc, prefix.push(i), x);
            lemma_in_slot_push(x.spec_hash(), prefix, i);
        },
    }
}

/// Every element below a well-formed chunk carries the chunk's prefix.
pub proof fn lemma_chunk_members<T: HashKey, G>(c: &Chunk<T, G>, prefix: Seq<u32>, x: T)
    requires
        chunk_wf(*c, prefix),
        chunk_has(*c, x),
    ensures
        has_prefix(x.spec_hash(), prefix),
    decreases c, 1nat,
{
    lemma_has(*c, x);
    lemma_chunk_wf(*c, prefix);
    let i = choose|i: int| 0 <= i < c.children@.len() && #[trigger] child_has(c.children@[i], x);
    assert(child_wf(c.children@[i], prefix, i as u32));
    assert(decreases_to!(*c => c.children));
    assert(decreases_to!(c.children => c.children@));
    assert(decreases_to!(c.children@ => c.children@[i]));
    lemma_child_members(c.children@[i], prefix, i as u32, x);
}

/// In a well-formed chunk an element can only be in the slot its hash selects.
pub proof fn lemma_has_iff_slot<T: HashKey, G>(c: Chunk<T, G>, prefix: Seq<u32>, x: T)
    requires
        chunk_wf(c, prefix),
    ensures
        chunk_has(c, x) <==> child_has(
            c.children@[digit_at(x.spec_hash(), (5 * prefix.len()) as u32) as int],
            x,
        ),
{
    let s = digit_at(x.spec_hash(), (5 * prefix.len()) as u32) as int;
    assert(0 <= s < 32);
    lemma_has(c, x);
    lemma_chunk_wf(c, prefix);
    if chunk_has(c, x) {
        let i = choose|i: int| 0 <= i < c.children@.len() && #[trigger] child_has(c.children@[i], x);
        assert(child_wf(c.children@[i], prefix, i as u32));
        lemma_child_members(c.children@[i], prefix, i as u32, x);
    }
    if child_has(c.children@[s], x) {
        assert(chunk_has(c, x));
    }
}


/// The elements below the first `n` children of a chunk.
pub open spec fn upto_view<T, G>(c: Chunk<T, G>, n: nat) -> Set<T> {
    Set::new(|x: T| chunk_has_upto(c, x, n))
}

/// The elements below a well-formed child are finitely many and the child
/// counts them correctly.
pub proof fn lemma_child_card<T: HashKey, G>(ch: &Child<T, G>, prefix: Seq<u32>, i: u32)
    requires
        child_wf(*ch, prefix, i),
    ensures
        child_view(*ch).finite(),
        child_view(*ch).len() == child_count(*ch),
    decreases *ch, 0nat,
{
    match ch {
        Child::Null => {
            assert(child_view(*ch) =~= Set::<T>::empty());
        },
        Child::Leaf(t) => {
            assert(child_view(*ch) =~= set![*t]);
        },
        Child::Collision(cn) => {
            broadcast use vstd::seq_lib::seq_to_set_is_finite;

            assert(child_view(*ch) =~= cn.data@.to_set());
            cn.data@.unique_seq_to_set();
        },
        Child::Inner(rc) => {
            lemma_chunk_card(&**rc, prefix.push(i));
            assert(child_view(*ch) =~= chunk_view(**rc));
        },
    }
}

/// The elements below a well-formed chunk are finitely many and the chunk
/// counts them correctly.
pub proof fn lemma_chunk_card<T: HashKey, G>(c: &Chunk<T, G>, prefix: Seq<u32>)
    requires
        chunk_wf(*c, prefix),
    ensures
        chunk_view(*c).finite(),
        chunk_view(*c).len() == c.len,
    decreases *c, 40nat,
{
    lemma_upto_card(c, prefix, 32);
    assert(chunk_view(*c) =~= upto_view(*c, 32));
}

pub proof fn lemma_upto_card<T: HashKey, G>(c: &Chunk<T, G>, prefix: Seq<u32>, n: nat)
    requires
        chunk_wf(*c, prefix),
        n <= 32,
    ensures
        upto_view(*c, n).finite(),
        upto_view(*c, n).len() == count_upto(c.children@, n),
    decreases *c, n,
{
    if n == 0 {
        assert(upto_view(*c, n) =~= Set::<T>::empty());
    } else {
        lemma_upto_card(c, prefix, (n - 1) as nat);
        lemma_chunk_wf(*c, prefix);
        let ch = c.children@[n - 1];
        assert(child_wf(ch, prefix, (n - 1) as u32));
        assert(decreases_to!(*c => c.children));
        assert(decreases_to!(c.children => c.children@));
        assert(decreases_to!(c.children@ => c.children@[n - 1]));
        lemma_child_card(&ch, prefix, (n - 1) as u32);
        let a = upto_view(*c, (n - 1) as nat);
        let b = child_view(ch);
        assert(upto_view(*c, n) =~= a + b);
        assert forall|x: T| a.contains(x) implies !b.contains(x) by {
            lemma_has_upto(*c, x, (n - 1) as nat);
            let j = choose|j: int| 0 <= j < n - 1 && #[trigger] child_has(c.children@[j], x);
            assert(child_wf(c.children@[j], prefix, j as u32));
            lemma_child_members(c.children@[j], prefix, j as u32, x);
            if b.contains(x) {
                lemma_child_members(ch, prefix, (n - 1) as u32, x);
            }
        }
        assert(a.disjoint(b));
        vstd::set_lib::lemma_set_disjoint_lens(a, b);
    }
}


/// Replacing one child changes the count by the difference of the two
/// children's counts.
pub proof fn lemma_count_update<T, G>(s: Seq<Child<T, G>>, idx: int, nc: Child<T, G>, n: nat)
    requires
        0 <= idx < s.len(),
        n <= s.len(),
    ensures
        count_upto(s.update(idx, nc), n) == count_upto(s, n) + (if idx < n {
            child_count(nc) - child_count(s[idx])
        } else {
            0
        }),
    decreases n,
{
    if n > 0 {
        lemma_count_update(s, idx, nc, (n - 1) as nat);
    }
}

/// A child's count is part of its chunk's count.
pub proof fn lemma_count_ge<T, G>(s: Seq<Child<T, G>>, n: nat, idx: int)
    requires
        0 <= idx < n <= s.len(),
    ensures
        count_upto(s, n) >= child_count(s[idx]),
    decreases n,
{
    if idx < n - 1 {
        lemma_count_ge(s, (n - 1) as nat, idx);
    }
}

/// Counting more slots never counts less.
pub proof fn lemma_count_mono<T, G>(s: Seq<Child<T, G>>, m: nat, n: nat)
    requires
        m <= n <= s.len(),
    ensures
        count_upto(s, m) <= count_upto(s, n),
    decreases n,
{
    if m < n {
        lemma_count_mono(s, m, (n - 1) as nat);
    }
}

/// A chunk whose slots are all empty holds nothing.
pub proof fn lemma_all_null<T: HashKey, G>(c: Chunk<T, G>, prefix: Seq<u32>, n: nat)
    requires
        n <= c.children@.len(),
        forall|i: int| 0 <= i < c.children@.len() ==> c.children@[i] is Null,
    ensures
        count_upto(c.children@, n) == 0,
        digest_upto(c.children@, n) == 0,
        forall|x: T| !chunk_has_upto(c, x, n),
        children_wf_upto(c, prefix, n),
    decreases n,
{
    if n > 0 {
        lemma_all_null(c, prefix, (n - 1) as nat);
        assert(c.children@[n - 1] is Null);
        lemma_xor_facts(0, 0, 0, 0);
        assert forall|x: T| !chunk_has_upto(c, x, n) by {
            assert(!child_has(c.children@[n - 1], x));
            assert(!chunk_has_upto(c, x, (n - 1) as nat));
            assert(n <= c.children@.len());
        }
        assert(child_wf(c.children@[n - 1], prefix, (n - 1) as u32));
    }
}

/// Putting a well-formed child into one slot of a well-formed chunk keeps the
/// chunk well formed; its elements in that slot become the child's.
pub proof fn lemma_replace_slot<T: HashKey, G>(
    old_c: Chunk<T, G>,
    new_c: Chunk<T, G>,
    prefix: Seq<u32>,
    idx: int,
)
    requires
        chunk_wf(old_c, prefix),
        0 <= idx < 32,
        new_c.children@ == old_c.children@.update(idx, new_c.children@[idx]),
        child_wf(new_c.children@[idx], prefix, idx as u32),
        new_c.len as int == old_c.len as int - child_count(old_c.children@[idx]) + child_count(
            new_c.children@[idx],
        ),
        new_c.hash == old_c.hash ^ child_digest(old_c.children@[idx]) ^ child_digest(new_c.children@[idx]),
    ensures
        chunk_wf(new_c, prefix),
        forall|x: T|
            #![trigger chunk_has(new_c, x)]
            chunk_has(new_c, x) <==> if digit_at(x.spec_hash(), (5 * prefix.len()) as u32) == idx {
                child_has(new_c.children@[idx], x)
            } else {
                chunk_has(old_c, x)
            },
{
    lemma_chunk_wf(old_c, prefix);
    lemma_count_update(old_c.children@, idx, new_c.children@[idx], 32);
    lemma_digest_update(old_c.children@, idx, new_c.children@[idx], 32);
    assert forall|i: int| 0 <= i < 32 implies #[trigger] child_wf(
        new_c.children@[i],
        prefix,
        i as u32,
    ) by {
        if i != idx {
            assert(child_wf(old_c.children@[i], prefix, i as u32));
        }
    }
    lemma_chunk_wf(new_c, prefix);
    assert forall|x: T|
        #![trigger chunk_has(new_c, x)]
        chunk_has(new_c, x) <==> if digit_at(x.spec_hash(), (5 * prefix.len()) as u32) == idx {
            child_has(new_c.children@[idx], x)
        } else {
            chunk_has(old_c, x)
        } by {
        lemma_has_iff_slot(new_c, prefix, x);
        lemma_has_iff_slot(old_c, prefix, x);
    }
}

/// The child index that `hash` selects at bit offset `bits`.
#[inline(always)]
pub fn mask(hash: u32, bits: u32) -> (r: usize)
    requires
        bits < 32,
    ensures
        r == digit_at(hash, bits),
        r < 32,
{
    ((hash >> bits) % 32) as usize
}

/// The number of elements a child holds, by its own bookkeeping.
fn child_len<T, G>(c: &Child<T, G>) -> (r: usize)
    requires
        child_count(*c) <= usize::MAX,
    ensures
        r == child_count(*c),
{
    match c {
        Child::Null => 0,
        Child::Leaf(_) => 1,
        Child::Collision(cn) => cn.data.len(),
        Child::Inner(rc) => rc.len,
    }
}

/// A copy of a child that shares its subtrees.
fn clone_child<T: Copy, G>(c: &Child<T, G>) -> (r: Child<T, G>)
    ensures
        r == *c,
{
    match c {
        Child::Null => Child::Null,
        Child::Leaf(t) => Child::Leaf(*t),
        Child::Collision(rc) => Child::Collision(rc.clone()),
        Child::Inner(rc) => Child::Inner(rc.clone()),
    }
}

impl<T: HashKey, G: Group + Clone> CollisionNode<T, G> {
    /// A copy of the bucket with the same hash and elements.
    pub fn clone_node(&self) -> (r: Self)
        ensures
            r.hash == self.hash,
            r.data@ == self.data@,
    {
        let mut data: Vec<T> = Vec::with_capacity(self.data.len());
        let mut j: usize = 0;
        while j < self.data.len()
            invariant
                j <= self.data@.len(),
                data@ == self.data@.subrange(0, j as int),
            decreases self.data@.len() - j,
        {
            data.push(self.data[j]);
            j = j + 1;
        }
        assert(data@ =~= self.data@);
        CollisionNode { hash: self.hash, agg: self.agg.clone(), data }
    }

    /// Add an element and its group value to the bucket.
    fn push(&mut self, elt: T, agg: &G)
        ensures
            final(self).hash == old(self).hash,
            final(self).data@ == old(self).data@.push(elt),
            final(self).agg == old(self).agg.combine(*agg),
    {
        self.data.push(elt);
        self.agg.add(agg);
    }

    /// Remove the element at `index` (the last element takes its place) and
    /// subtract its group value.
    fn remove(&mut self, index: usize, agg: &G) -> (r: T)
        requires
            index < old(self).data@.len(),
        ensures
            r == old(self).data@[index as int],
            final(self).hash == old(self).hash,
            final(self).data@ == old(self).data@.update(
                index as int,
                old(self).data@.last(),
            ).drop_last(),
            final(self).agg == old(self).agg.combine(agg.negate()),
    {
        let res = self.data.swap_remove(index);
        self.agg.sub(agg);
        res
    }
}

/// The node itself when nothing else shares it, a copy otherwise.
fn unwrap_or_clone_collision<T: HashKey, G: Group + Clone>(rc: Rc<CollisionNode<T, G>>) -> (r:
    CollisionNode<T, G>)
    ensures
        r.hash == rc.hash,
        r.data@ == rc.data@,
{
    match Rc::try_unwrap(rc) {
        Ok(node) => node,
        Err(shared) => shared.clone_node(),
    }
}

/// The chunk itself when nothing else shares it, a copy otherwise.
pub fn unwrap_or_clone<T: HashKey, G: Group + Clone>(rc: Rc<Chunk<T, G>>) -> (r: Chunk<T, G>)
    ensures
        r.children@ == rc.children@,
        r.len == rc.len,
        r.hash == rc.hash,
        cloned::<G>(rc.agg, r.agg),
{
    match Rc::try_unwrap(rc) {
        Ok(chunk) => chunk,
        Err(shared) => shared.clone_chunk(),
    }
}

impl<T: HashKey, G: Group + Clone> Chunk<T, G> {
    /// An empty chunk.
    pub fn empty() -> (c: Self)
        ensures
            forall|prefix: Seq<u32>| prefix.len() <= max_level() ==> chunk_wf(c, prefix),
            chunk_view(c) == Set::<T>::empty(),
            c.len == 0,
            c.children@.len() == 32,
            forall|i: int| 0 <= i < c.children@.len() ==> c.children@[i] is Null,
            call_ensures(G::default, (), c.agg),
    {
        let mut children: Vec<Child<T, G>> = Vec::with_capacity(ARITY);
        let mut i: usize = 0;
        while i < ARITY
            invariant
                i <= ARITY,
                children@.len() == i,
                forall|k: int| 0 <= k < i ==> children@[k] is Null,
            decreases ARITY - i,
        {
            children.push(Child::Null);
            i = i + 1;
        }
        let c = Chunk { hash: 0, len: 0, children, agg: G::default() };
        proof {
            assert forall|prefix: Seq<u32>| prefix.len() <= max_level() implies chunk_wf(c, prefix) by {
                lemma_all_null(c, prefix, 32);
            }
            lemma_all_null(c, seq![], 32);
            assert(chunk_view(c) =~= Set::<T>::empty());
        }
        c
    }

    /// A copy of the chunk that shares its subtrees.
    pub fn clone_chunk(&self) -> (r: Self)
        ensures
            r.children@ == self.children@,
            r.len == self.len,
            r.hash == self.hash,
            cloned::<G>(self.agg, r.agg),
    {
        let mut children: Vec<Child<T, G>> = Vec::with_capacity(self.children.len());
        let mut j: usize = 0;
        while j < self.children.len()
            invariant
                j <= self.children@.len(),
                children@ == self.children@.subrange(0, j as int),
            decreases self.children@.len() - j,
        {
            children.push(clone_child(&self.children[j]));
            j = j + 1;
        }
        assert(children@ =~= self.children@);
        let agg = self.agg.clone();
        Chunk { hash: self.hash, len: self.len, children, agg }
    }

    /// The aggregate kept at this chunk: updates add and subtract what the
    /// callers' mappings into the group give for the elements.
    pub fn agg(&self) -> (r: &G)
        ensures
            *r == self.agg,
    {
        &self.agg
    }

    /// The number of elements below this chunk.
    pub fn len(&self) -> (r: usize)
        ensures
            r == self.len,
    {
        self.len
    }

    /// Remove the given hashcode from the node's digest.
    fn remove_summary(&mut self, hc: u32, g: &G)
        ensures
            final(self).children == old(self).children,
            final(self).len == old(self).len,
            final(self).hash == old(self).hash ^ hc,
            final(self).agg == old(self).agg.combine(g.negate()),
    {
        self.hash = self.hash ^ hc;
        self.agg.sub(g);
    }

    /// Add the given hashcode to the node's digest.
    fn add_summary(&mut self, hc: u32, g: &G)
        ensures
            final(self).children == old(self).children,
            final(self).len == old(self).len,
            final(self).hash == old(self).hash ^ hc,
            final(self).agg == old(self).agg.combine(*g),
    {
        self.hash = self.hash ^ hc;
        self.agg.add(g);
    }

    /// Add or remove the given hashcode in the node's digest, leaving the
    /// aggregate alone.
    fn xor_hash(&mut self, hc: u32)
        ensures
            final(self).children == old(self).children,
            final(self).len == old(self).len,
            final(self).hash == old(self).hash ^ hc,
            final(self).agg == old(self).agg,
    {
        self.hash = self.hash ^ hc;
    }

    /// The element with the given key, if it is below this chunk.
    pub fn get(&self, key: &T, hash: u32, bits: u32, Ghost(prefix): Ghost<Seq<u32>>) -> (r: Option<&T>)
        requires
            chunk_wf(*self, prefix),
            bits == 5 * prefix.len(),
            hash == key.spec_hash(),
            has_prefix(hash, prefix),
        ensures
            r is Some <==> chunk_has(*self, *key),
            r matches Some(t) ==> *t == *key,
        decreases max_level() - prefix.len(),
    {
        let child = mask(hash, bits);
        proof {
            lemma_chunk_wf(*self, prefix);
            lemma_has_iff_slot(*self, prefix, *key);
            assert(child_wf(self.children@[child as int], prefix, child as u32));
        }
        match &self.children[child] {
            Child::Null => None,
            Child::Leaf(candidate) => {
                if candidate.key_eq(key) {
                    Some(candidate)
                } else {
                    None
                }
            },
            Child::Collision(collision) => {
                if collision.hash != hash {
                    proof {
                        if collision.data@.contains(*key) {
                            let j = collision.data@.index_of(*key);
                            assert(collision.data@[j].spec_hash() == collision.hash);
                        }
                    }
                    None
                } else {
                    let mut j: usize = 0;
                    #[verifier::loop_isolation(false)]
                    while j < collision.data.len()
                        invariant
                            j <= collision.data@.len(),
                            forall|k: int| 0 <= k < j ==> collision.data@[k] != *key,
                        decreases collision.data@.len() - j,
                    {
                        if collision.data[j].key_eq(key) {
                            proof {
                                assert(collision.data@[j as int] == *key);
                                assert(collision.data@.contains(*key));
                                assert(child_has(self.children@[child as int], *key));
                            }
                            return Some(&collision.data[j]);
                        }
                        j = j + 1;
                    }
                    None
                }
            },
            Child::Inner(inner) => {
                proof {
                    lemma_in_slot_push(hash, prefix, child as u32);
                }
                inner.get(key, hash, bits + BITS, Ghost(prefix.push(child as u32)))
            },
        }
    }

    /// Insert `elt` into the child taken out of slot `i`, keeping this chunk's
    /// digest up to date. Returns the new child and the element that an equal
    /// key replaced, if any.
    fn insert_in_slot<F: Fn(&T) -> G>(
        &mut self,
        slot: Child<T, G>,
        elt: T,
        hash: u32,
        bits: u32,
        as_group: &F,
        g: &G,
        Ghost(prefix): Ghost<Seq<u32>>,
        Ghost(i): Ghost<u32>,
    ) -> (res: (Child<T, G>, Option<T>))
        requires
            child_wf(slot, prefix, i),
            prefix.len() <= max_level(),
            bits == 5 * prefix.len(),
            hash == elt.spec_hash(),
            in_slot(hash, prefix, i),
            child_count(slot) < usize::MAX,
            forall|t: &T| #[trigger] as_group.requires((t,)),
        ensures
            final(self).children == old(self).children,
            final(self).len == old(self).len,
            final(self).agg == old(self).agg,
            child_wf(res.0, prefix, i),
            final(self).hash == old(self).hash ^ child_digest(slot) ^ child_digest(res.0),
            insert_post(res.0, slot, elt),
            res.1 == (if child_has(slot, elt) { Some(elt) } else { None::<T> }),
        decreases max_level() - prefix.len(), 1nat,
    {
        let ghost g_slot = slot;
        proof {
            lemma_xor_facts(self.hash, child_digest(slot), 0, 0);
        }
        match slot {
            Child::Null => {
                self.xor_hash(hash);
                let r = (Child::Leaf(elt), None);
                proof { assert(insert_post(r.0, g_slot, elt)); }
                r
            },
            Child::Leaf(candidate) => {
                if elt.key_eq(&candidate) {
                    let r = (Child::Leaf(elt), Some(candidate));
                    proof { assert(insert_post(r.0, g_slot, elt)); }
                    r
                } else {
                    let other_hash = candidate.hash_bits();
                    if other_hash == hash {
                        // A hash collision: both go into one bucket.
                        let mut agg = as_group(&candidate);
                        agg.add(g);
                        let collision = CollisionNode { hash, agg, data: vec![candidate, elt] };
                        self.xor_hash(hash);
                        self.xor_hash(collision.hash);
                        proof {
                            assert(collision.data@ =~= seq![candidate, elt]);
                            assert(collision.data@[0] == candidate);
                            assert(collision.data@[1] == elt);
                            assert(collision.data@.no_duplicates());
                            assert(collision_wf(collision, prefix, i));
                            assert forall|x: T| #[trigger]
                                collision.data@.contains(x) <==> (x == candidate || x == elt) by {
                                if x == elt {
                                    assert(collision.data@[1] == x);
                                }
                                if x == candidate {
                                    assert(collision.data@[0] == x);
                                }
                            }
                        }
                        let r = (Child::Collision(Rc::new(collision)), None);
                        proof { assert(insert_post(r.0, g_slot, elt)); }
                        r
                    } else {
                        // The hashes differ: split the leaf into a chunk one
                        // level down.
                        proof {
                            if prefix.len() == max_level() {
                                lemma_deepest_slot_unique(other_hash, hash, prefix, i);
                            }
                            lemma_in_slot_push(other_hash, prefix, i);
                            lemma_in_slot_push(hash, prefix, i);
                        }
                        let candidate_agg = as_group(&candidate);
                        let mut res = Chunk::empty();
                        let next_bits = bits + BITS;
                        let ghost next = prefix.push(i);
                        let ghost r0 = res;
                        proof {
                            assert(chunk_wf(r0, next));
                            assert(!chunk_view(r0).contains(candidate));
                        }
                        res.insert(candidate, other_hash, next_bits, as_group, &candidate_agg, Ghost(next));
                        let ghost r1 = res;
                        proof {
                            assert(!chunk_view(r1).contains(elt));
                        }
                        res.insert(elt, hash, next_bits, as_group, g, Ghost(next));
                        self.xor_hash(other_hash);
                        self.xor_hash(res.hash);
                        proof {
                            assert forall|x: T| chunk_has(res, x) <==> (x == candidate || x == elt) by {
                                assert(chunk_view(res).contains(x) == chunk_has(res, x));
                            }
                        }
                        proof {
                            assert(chunk_view(res).contains(candidate) && chunk_view(res).contains(elt));
                            assert(spread(chunk_view(res)));
                        }
                        let r = (Child::Inner(Rc::new(res)), None);
                        proof {
                            assert(child_count(r.0) == 2);
                            assert(forall|x: T| #[trigger] child_has(r.0, x) <==> chunk_has(res, x));
                            assert(insert_post(r.0, g_slot, elt));
                        }
                        r
                    }
                }
            },
            Child::Collision(rc) => {
                if rc.hash == hash {
                    let mut collision = unwrap_or_clone_collision(rc);
                    self.xor_hash(collision.hash);
                    let mut j: usize = 0;
                    let mut found = false;
                    while j < collision.data.len()
                        invariant_except_break
                            !found,
                        invariant
                            j <= collision.data@.len(),
                            forall|k: int| 0 <= k < j ==> collision.data@[k] != elt,
                        ensures
                            j <= collision.data@.len(),
                            forall|k: int| 0 <= k < j ==> collision.data@[k] != elt,
                            found ==> j < collision.data@.len() && collision.data@[j as int]
                                == elt,
                            !found ==> j == collision.data@.len(),
                        decreases collision.data@.len() - j,
                    {
                        if collision.data[j].key_eq(&elt) {
                            found = true;
                            break;
                        }
                        j = j + 1;
                    }
                    let res = if found {
                        let prev = collision.data[j];
                        collision.data.set(j, elt);
                        proof {
                            assert(collision.data@ =~= rc.data@);
                            assert(rc.data@[j as int] == elt);
                            assert(rc.data@.contains(elt));
                        }
                        Some(prev)
                    } else {
                        collision.push(elt, g);
                        proof {
                            assert(!rc.data@.contains(elt));
                            assert(collision.data@.last() == elt);
                            lemma_push_no_dup(rc.data@, elt);
                            assert forall|k: int| 0 <= k < collision.data@.len() implies
                                (#[trigger] collision.data@[k]).spec_hash() == collision.hash by {
                                if k < rc.data@.len() {
                                    assert(collision.data@[k] == rc.data@[k]);
                                }
                            }
                            assert forall|x: T| #[trigger]
                                collision.data@.contains(x) <==> (rc.data@.contains(x) || x == elt) by {
                                if rc.data@.contains(x) {
                                    let k = rc.data@.index_of(x);
                                    assert(collision.data@[k] == x);
                                }
                                if collision.data@.contains(x) && x != elt {
                                    let k = collision.data@.index_of(x);
                                    assert(rc.data@[k] == x);
                                }
                            }
                        }
                        None
                    };
                    self.xor_hash(collision.hash);
                    let r = (Child::Collision(Rc::new(collision)), res);
                    proof { assert(insert_post(r.0, g_slot, elt)); }
                    r
                } else {
                    // Split this bucket and reinsert.
                    proof {
                        if rc.data@.contains(elt) {
                            let k = rc.data@.index_of(elt);
                            assert(rc.data@[k].spec_hash() == rc.hash);
                        }
                        if prefix.len() == max_level() {
                            lemma_deepest_slot_unique(rc.hash, hash, prefix, i);
                        }
                        lemma_in_slot_push(rc.hash, prefix, i);
                        lemma_in_slot_push(hash, prefix, i);
                    }
                    let collision_hash = rc.hash;
                    self.xor_hash(collision_hash);
                    let next_bits = bits + BITS;
                    let ghost next = prefix.push(i);
                    let next_child = mask(collision_hash, next_bits);
                    let mut res = Chunk::empty();
                    proof {
                        assert(chunk_wf(res, next));
                    }
                    let ghost empty = res;
                    res.len = rc.data.len();
                    res.add_summary(collision_hash, &rc.agg);
                    let moved = Child::Collision(rc);
                    res.children.set(next_child, moved);
                    proof {
                        lemma_all_null(empty, next, 32);
                        lemma_xor_facts(empty.hash, 0, 0, 0);
                        lemma_replace_slot(empty, res, next, next_child as int);
                        assert forall|x: T| chunk_has(res, x) <==> child_has(moved, x) by {
                            if child_has(moved, x) {
                                lemma_child_members(moved, next, next_child as u32, x);
                            }
                        }
                        lemma_count_ge(res.children@, 32, next_child as int);
                        lemma_chunk_wf(res, next);
                    }
                    let ghost before = res;
                    res.insert(elt, hash, next_bits, as_group, g, Ghost(next));
                    self.xor_hash(res.hash);
                    proof {
                        assert forall|x: T| chunk_has(res, x) <==> (child_has(moved, x) || x == elt) by {
                            assert(chunk_view(res).contains(x) == chunk_has(res, x));
                            assert(chunk_view(before).contains(x) == chunk_has(before, x));
                        }
                    }
                    proof {
                        let x0 = rc.data@[0];
                        assert(child_has(moved, x0));
                        assert(chunk_view(res).contains(x0) && chunk_view(res).contains(elt));
                        assert(spread(chunk_view(res)));
                    }
                    let r = (Child::Inner(Rc::new(res)), None);
                    proof { assert(insert_post(r.0, g_slot, elt)); }
                    r
                }
            },
            Child::Inner(rc) => {
                let ghost shared = inner_of(g_slot);
                let mut inner = unwrap_or_clone(rc);
                let prev_hash = inner.hash;
                let ghost next = prefix.push(i);
                let ghost before = inner;
                proof {
                    lemma_in_slot_push(hash, prefix, i);
                    lemma_chunk_wf(shared, next);
                    lemma_chunk_wf(inner, next);
                    assert forall|x: T| chunk_has(inner, x) == chunk_has(shared, x) by {
                        lemma_has(inner, x);
                        lemma_has(shared, x);
                    }
                }
                let res = inner.insert(elt, hash, bits + BITS, as_group, g, Ghost(next));
                self.xor_hash(prev_hash);
                self.xor_hash(inner.hash);
                proof {
                    assert forall|x: T| chunk_has(inner, x) <==> (chunk_has(shared, x) || x == elt) by {
                        assert(chunk_view(inner).contains(x) == chunk_has(inner, x));
                        assert(chunk_view(before).contains(x) == chunk_has(before, x));
                    }
                    lemma_spread_grows(chunk_view(shared), chunk_view(inner));
                }
                let r = (Child::Inner(Rc::new(inner)), res);
                proof {
                    assert(forall|x: T| #[trigger] child_has(r.0, x) <==> chunk_has(inner, x));
                    assert(forall|x: T| #[trigger] child_has(g_slot, x) <==> chunk_has(shared, x));
                    assert(child_count(r.0) == inner.len);
                    assert(child_count(g_slot) == shared.len);
                    assert(insert_post(r.0, g_slot, elt));
                }
                r
            },
        }
    }

    /// Insert `elt`, whose hash is `hash`, into this chunk at bit offset
    /// `bits`. Returns the element that an equal key replaced, if any.
    pub fn insert<F: Fn(&T) -> G>(
        &mut self,
        elt: T,
        hash: u32,
        bits: u32,
        as_group: &F,
        g: &G,
        Ghost(prefix): Ghost<Seq<u32>>,
    ) -> (res: Option<T>)
        requires
            chunk_wf(*old(self), prefix),
            bits == 5 * prefix.len(),
            hash == elt.spec_hash(),
            has_prefix(hash, prefix),
            old(self).len < usize::MAX,
            forall|t: &T| #[trigger] as_group.requires((t,)),
        ensures
            chunk_wf(*final(self), prefix),
            chunk_view(*final(self)) == chunk_view(*old(self)).insert(elt),
            res == (if chunk_has(*old(self), elt) { Some(elt) } else { None::<T> }),
            final(self).len == old(self).len + (if chunk_has(*old(self), elt) { 0int } else { 1int }),
            final(self).agg == (if chunk_has(*old(self), elt) { old(self).agg } else { old(self).agg.combine(*g) }),
        decreases max_level() - prefix.len(), 2nat,
    {
        let child = mask(hash, bits);
        let ghost old_self = *self;
        proof {
            lemma_chunk_wf(*self, prefix);
            lemma_has_iff_slot(*self, prefix, elt);
            lemma_count_ge(self.children@, 32, child as int);
            assert(child_wf(self.children@[child as int], prefix, child as u32));
        }
        let mut slot = Child::Null;
        std::mem::swap(&mut slot, &mut self.children[child]);
        let ghost old_slot = slot;
        assert(self.children@ == old_self.children@.update(child as int, Child::Null));
        assert(old_slot == old_self.children@[child as int]);
        let (new_slot, res) = self.insert_in_slot(
            slot,
            elt,
            hash,
            bits,
            as_group,
            g,
            Ghost(prefix),
            Ghost(child as u32),
        );
        self.children.set(child, new_slot);
        assert(self.children@ =~= old_self.children@.update(child as int, new_slot));
        if res.is_none() {
            self.len = self.len + 1;
            self.agg.add(g);
        }
        proof {
            lemma_replace_slot(old_self, *self, prefix, child as int);
            assert forall|x: T| chunk_has(*self, x) <==> (chunk_has(old_self, x) || x == elt) by {
                lemma_has_iff_slot(old_self, prefix, x);
            }
            assert(chunk_view(*self) =~= chunk_view(old_self).insert(elt));
        }
        res
    }

    /// The index of the only non-empty slot, if exactly one slot is non-empty.
    fn only_child(&self) -> (r: Option<usize>)
        requires
            self.children@.len() == 32,
        ensures
            r matches Some(j) ==> j < 32 && one_child_at(*self, j as int),
            r is None ==> forall|j: int| 0 <= j < 32 ==> !one_child_at(*self, j),
    {
        let mut first: usize = 0;
        while first < ARITY
            invariant
                first <= ARITY,
                self.children@.len() == 32,
                forall|k: int| 0 <= k < first ==> self.children@[k] is Null,
            ensures
                first <= ARITY,
                forall|k: int| 0 <= k < first ==> self.children@[k] is Null,
                first < ARITY ==> !(self.children@[first as int] is Null),
            decreases ARITY - first,
        {
            if !matches!(self.children[first], Child::Null) {
                break;
            }
            first = first + 1;
        }
        if first == ARITY {
            proof {
                assert forall|j: int| 0 <= j < 32 implies !one_child_at(*self, j) by {
                    assert(self.children@[j] is Null);
                }
            }
            return None;
        }
        let mut k: usize = first + 1;
        while k < ARITY
            invariant
                first < k <= ARITY,
                self.children@.len() == 32,
                !(self.children@[first as int] is Null),
                forall|m: int| 0 <= m < first ==> self.children@[m] is Null,
                forall|m: int| first < m < k ==> self.children@[m] is Null,
            decreases ARITY - k,
        {
            if !matches!(self.children[k], Child::Null) {
                proof {
                    assert forall|j: int| 0 <= j < 32 implies !one_child_at(*self, j) by {
                        if j == first {
                            assert(!(self.children@[k as int] is Null));
                        } else {
                            assert(!(self.children@[first as int] is Null));
                        }
                    }
                }
                return None;
            }
            k = k + 1;
        }
        Some(first)
    }

    /// Whether exactly one slot of this chunk is non-empty.
    fn has_one_child(&self) -> (r: bool)
        requires
            self.children@.len() == 32,
        ensures
            r <==> exists|j: int| 0 <= j < 32 && one_child_at(*self, j),
    {
        self.only_child().is_some()
    }

    /// Remove the element with key `key` from the child taken out of slot
    /// `i`, keeping this chunk's digest up to date. Returns the new child and
    /// the removed element, if any.
    fn remove_in_slot<F: Fn(&T) -> G>(
        &mut self,
        slot: Child<T, G>,
        key: &T,
        hash: u32,
        bits: u32,
        as_group: &F,
        g: &G,
        Ghost(prefix): Ghost<Seq<u32>>,
        Ghost(i): Ghost<u32>,
    ) -> (res: (Child<T, G>, Option<T>))
        requires
            child_wf(slot, prefix, i),
            prefix.len() <= max_level(),
            bits == 5 * prefix.len(),
            hash == key.spec_hash(),
            in_slot(hash, prefix, i),
            forall|t: &T| #[trigger] as_group.requires((t,)),
        ensures
            final(self).children == old(self).children,
            final(self).len == old(self).len,
            final(self).agg == old(self).agg,
            child_wf(res.0, prefix, i),
            final(self).hash == old(self).hash ^ child_digest(slot) ^ child_digest(res.0),
            remove_post(res.0, slot, *key),
            res.1 == (if child_has(slot, *key) { Some(*key) } else { None::<T> }),
        decreases max_level() - prefix.len(), 1nat,
    {
        let ghost g_slot = slot;
        proof {
            lemma_xor_facts(self.hash, child_digest(slot), 0, 0);
            lemma_xor_facts(self.hash ^ child_digest(slot), 0, 0, 0);
        }
        match slot {
            Child::Null => (Child::Null, None),
            Child::Leaf(leaf) => {
                if leaf.key_eq(key) {
                    self.xor_hash(hash);
                    let r = (Child::Null, Some(leaf));
                    proof {
                        assert(remove_post(r.0, g_slot, *key));
                    }
                    r
                } else {
                    let r = (Child::Leaf(leaf), None);
                    proof {
                        assert(remove_post(r.0, g_slot, *key));
                    }
                    r
                }
            },
            Child::Collision(rc) => {
                if rc.hash != hash {
                    proof {
                        if rc.data@.contains(*key) {
                            let k = rc.data@.index_of(*key);
                            assert(rc.data@[k].spec_hash() == rc.hash);
                        }
                    }
                    let r = (Child::Collision(rc), None);
                    proof {
                        assert(remove_post(r.0, g_slot, *key));
                    }
                    return r;
                }
                let mut ix: usize = 0;
                let mut found = false;
                while ix < rc.data.len()
                    invariant_except_break
                        !found,
                    invariant
                        ix <= rc.data@.len(),
                        forall|k: int| 0 <= k < ix ==> rc.data@[k] != *key,
                    ensures
                        ix <= rc.data@.len(),
                        forall|k: int| 0 <= k < ix ==> rc.data@[k] != *key,
                        found ==> ix < rc.data@.len() && rc.data@[ix as int] == *key,
                        !found ==> ix == rc.data@.len(),
                    decreases rc.data@.len() - ix,
                {
                    if rc.data[ix].key_eq(key) {
                        found = true;
                        break;
                    }
                    ix = ix + 1;
                }
                if !found {
                    let r = (Child::Collision(rc), None);
                    proof {
                        assert(!rc.data@.contains(*key));
                        assert(remove_post(r.0, g_slot, *key));
                    }
                    return r;
                }
                let to_remove_agg = as_group(&rc.data[ix]);
                let ghost old_data = rc.data@;
                proof {
                    assert(old_data[ix as int] == *key);
                    assert(old_data.contains(*key));
                }
                if rc.data.len() == 2 {
                    // Replace the bucket with a leaf.
                    let mut collision = unwrap_or_clone_collision(rc);
                    self.xor_hash(collision.hash);
                    let removed = collision.remove(ix, &to_remove_agg);
                    let leaf = collision.data[0];
                    self.xor_hash(collision.hash);
                    let r = (Child::Leaf(leaf), Some(removed));
                    proof {
                        let other = if ix == 0 { 1int } else { 0int };
                        assert(leaf == old_data[other]);
                        assert(old_data[other].spec_hash() == collision.hash);
                        assert forall|x: T| #[trigger] child_has(r.0, x) <==> (child_has(g_slot, x) && x != *key) by {
                            if old_data.contains(x) {
                                let k = old_data.index_of(x);
                                assert(k == 0 || k == 1);
                            }
                            assert(old_data[0] != old_data[1]);
                        }
                        assert(remove_post(r.0, g_slot, *key));
                    }
                    r
                } else {
                    // Remove the element from the bucket.
                    let mut collision = unwrap_or_clone_collision(rc);
                    self.xor_hash(collision.hash);
                    let removed = collision.remove(ix, &to_remove_agg);
                    self.xor_hash(collision.hash);
                    let ghost new_data = collision.data@;
                    proof {
                        let last = old_data.len() - 1;
                        assert forall|x: T| #[trigger] new_data.contains(x) <==> (old_data.contains(x) && x != *key) by {
                            if new_data.contains(x) {
                                let k = new_data.index_of(x);
                                if k == ix {
                                    assert(new_data[k] == old_data[last]);
                                    assert(last != ix);
                                } else {
                                    assert(new_data[k] == old_data[k]);
                                }
                            }
                            if old_data.contains(x) && x != *key {
                                let k = old_data.index_of(x);
                                if k == last {
                                    assert(new_data[ix as int] == x);
                                } else {
                                    assert(k != ix);
                                    assert(new_data[k] == x);
                                }
                            }
                        }
                        assert forall|a: int, b: int| 0 <= a < new_data.len() && 0 <= b < new_data.len() && a != b
                            implies new_data[a] != new_data[b] by {
                            let oa = if a == ix { last } else { a };
                            let ob = if b == ix { last } else { b };
                            assert(new_data[a] == old_data[oa]);
                            assert(new_data[b] == old_data[ob]);
                        }
                        assert forall|k: int| 0 <= k < new_data.len() implies
                            (#[trigger] new_data[k]).spec_hash() == collision.hash by {
                            let ok = if k == ix { last } else { k };
                            assert(new_data[k] == old_data[ok]);
                        }
                        assert(collision_wf(collision, prefix, i));
                    }
                    let r = (Child::Collision(Rc::new(collision)), Some(removed));
                    proof {
                        assert(remove_post(r.0, g_slot, *key));
                    }
                    r
                }
            },
            Child::Inner(rc) => {
                let ghost shared = inner_of(g_slot);
                let mut inner = unwrap_or_clone(rc);
                let prev_hash = inner.hash;
                let ghost next = prefix.push(i);
                let ghost before = inner;
                proof {
                    lemma_in_slot_push(hash, prefix, i);
                    lemma_chunk_wf(shared, next);
                    lemma_chunk_wf(inner, next);
                    assert forall|x: T| chunk_has(inner, x) == chunk_has(shared, x) by {
                        lemma_has(inner, x);
                        lemma_has(shared, x);
                    }
                }
                let res = inner.remove(key, hash, bits + BITS, as_group, g, Ghost(next));
                let only = inner.only_child();
                self.xor_hash(prev_hash);
                self.xor_hash(inner.hash);
                proof {
                    assert forall|x: T| chunk_has(inner, x) <==> (chunk_has(shared, x) && x != *key) by {
                        assert(chunk_view(inner).contains(x) == chunk_has(inner, x));
                        assert(chunk_view(before).contains(x) == chunk_has(before, x));
                    }
                    assert(forall|x: T| #[trigger] child_has(g_slot, x) <==> chunk_has(shared, x));
                    assert(child_count(g_slot) == shared.len);
                    let (x, y) = choose|x: T, y: T| #[trigger] chunk_view(shared).contains(x) && #[trigger] chunk_view(shared).contains(y) && x.spec_hash() != y.spec_hash();
                    let z = if x == *key { y } else { x };
                    assert(chunk_has(inner, z));
                }
                match only {
                    Some(j) => {
                        if matches!(inner.children[j], Child::Inner(_)) {
                            // Interior paths are not collapsed.
                            proof {
                                lemma_chunk_wf(inner, next);
                                let gc = inner.children@[j as int];
                                assert(child_wf(gc, next, j as u32));
                                let g = inner_of(gc);
                                assert forall|x: T| chunk_view(g).contains(x) implies chunk_view(inner).contains(x) by {
                                    assert(child_has(gc, x));
                                    lemma_has(inner, x);
                                }
                                lemma_spread_grows(chunk_view(g), chunk_view(inner));
                            }
                            let r = (Child::Inner(Rc::new(inner)), res);
                            proof {
                                assert(forall|x: T| #[trigger] child_has(r.0, x) <==> chunk_has(inner, x));
                                assert(child_count(r.0) == inner.len);
                                assert(remove_post(r.0, g_slot, *key));
                            }
                            r
                        } else {
                            // Promote the only grandchild into this slot.
                            let ghost promoted_chunk = inner;
                            let mut grandchild = Child::Null;
                            std::mem::swap(&mut grandchild, &mut inner.children[j]);
                            proof {
                                lemma_chunk_wf(promoted_chunk, next);
                                assert(child_wf(promoted_chunk.children@[j as int], next, j as u32));
                                lemma_only_child(promoted_chunk, j as int, 32);
                                assert forall|x: T| #[trigger] child_has(grandchild, x) <==> (chunk_has(shared, x) && x != *key) by {
                                    lemma_has(promoted_chunk, x);
                                    if chunk_has(promoted_chunk, x) {
                                        let k = choose|k: int| 0 <= k < 32 && #[trigger] child_has(promoted_chunk.children@[k], x);
                                        assert(k == j);
                                    }
                                }
                                lemma_promote_wf(grandchild, prefix, i, j as u32);
                                lemma_only_child_digest(promoted_chunk, j as int, 32);
                            }
                            let r = (grandchild, res);
                            proof {
                                assert(remove_post(r.0, g_slot, *key));
                            }
                            r
                        }
                    },
                    None => {
                        proof {
                            let (x, y) = choose|x: T, y: T| #[trigger] chunk_view(shared).contains(x) && #[trigger] chunk_view(shared).contains(y) && x.spec_hash() != y.spec_hash();
                            let z = if x == *key { y } else { x };
                            lemma_no_single_slot_spread(inner, next, z);
                        }
                        let r = (Child::Inner(Rc::new(inner)), res);
                        proof {
                            assert(forall|x: T| #[trigger] child_has(r.0, x) <==> chunk_has(inner, x));
                            assert(child_count(r.0) == inner.len);
                            assert(remove_post(r.0, g_slot, *key));
                        }
                        r
                    },
                }
            },
        }
    }

    /// Remove the element with key `key`, whose hash is `hash`, from this
    /// chunk at bit offset `bits`. Returns the removed element, if any.
    pub fn remove<F: Fn(&T) -> G>(
        &mut self,
        key: &T,
        hash: u32,
        bits: u32,
        as_group: &F,
        g: &G,
        Ghost(prefix): Ghost<Seq<u32>>,
    ) -> (res: Option<T>)
        requires
            chunk_wf(*old(self), prefix),
            bits == 5 * prefix.len(),
            hash == key.spec_hash(),
            has_prefix(hash, prefix),
            forall|t: &T| #[trigger] as_group.requires((t,)),
        ensures
            chunk_wf(*final(self), prefix),
            chunk_view(*final(self)) == chunk_view(*old(self)).remove(*key),
            res == (if chunk_has(*old(self), *key) { Some(*key) } else { None::<T> }),
            final(self).len == old(self).len - (if chunk_has(*old(self), *key) { 1int } else { 0int }),
            final(self).agg == (if chunk_has(*old(self), *key) { old(self).agg.combine(g.negate()) } else { old(self).agg }),
        decreases max_level() - prefix.len(), 2nat,
    {
        let child = mask(hash, bits);
        let ghost old_self = *self;
        proof {
            lemma_chunk_wf(*self, prefix);
            lemma_has_iff_slot(*self, prefix, *key);
            lemma_count_ge(self.children@, 32, child as int);
            assert(child_wf(self.children@[child as int], prefix, child as u32));
        }
        let mut slot = Child::Null;
        std::mem::swap(&mut slot, &mut self.children[child]);
        let ghost old_slot = slot;
        assert(old_slot == old_self.children@[child as int]);
        let (new_slot, res) = self.remove_in_slot(
            slot,
            key,
            hash,
            bits,
            as_group,
            g,
            Ghost(prefix),
            Ghost(child as u32),
        );
        self.children.set(child, new_slot);
        assert(self.children@ =~= old_self.children@.update(child as int, new_slot));
        if res.is_some() {
            self.len = self.len - 1;
            self.agg.sub(g);
        }
        proof {
            lemma_replace_slot(old_self, *self, prefix, child as int);
            assert forall|x: T| chunk_has(*self, x) <==> (chunk_has(old_self, x) && x != *key) by {
                lemma_has_iff_slot(old_self, prefix, x);
            }
            assert(chunk_view(*self) =~= chunk_view(old_self).remove(*key));
        }
        res
    }

    /// Insert every element of `elts`, all with hash `hash`, into the child
    /// taken out of slot `i`.
    fn insert_all_in_slot<F: Fn(&T) -> G>(
        &mut self,
        slot: Child<T, G>,
        elts: &Vec<T>,
        hash: u32,
        bits: u32,
        as_group: &F,
        Ghost(prefix): Ghost<Seq<u32>>,
        Ghost(i): Ghost<u32>,
    ) -> (res: Child<T, G>)
        requires
            child_wf(slot, prefix, i),
            prefix.len() <= max_level(),
            bits == 5 * prefix.len(),
            in_slot(hash, prefix, i),
            forall|k: int| 0 <= k < elts@.len() ==> (#[trigger] elts@[k]).spec_hash() == hash,
            child_count(slot) + elts@.len() < usize::MAX,
            forall|t: &T| #[trigger] as_group.requires((t,)),
        ensures
            final(self).children == old(self).children,
            final(self).len == old(self).len,
            child_wf(res, prefix, i),
            final(self).hash == old(self).hash ^ child_digest(slot) ^ child_digest(res),
            forall|x: T| #[trigger] child_has(res, x) <==> (child_has(slot, x) || elts@.contains(x)),
            child_count(res) <= child_count(slot) + elts@.len(),
            (forall|k: int| 0 <= k < elts@.len() ==> child_has(slot, #[trigger] elts@[k])) ==> final(self).agg == old(self).agg,
        decreases max_level() - prefix.len(), 0nat,
    {
        let mut cur = slot;
        let mut j: usize = 0;
        proof {
            lemma_xor_facts(self.hash, child_digest(slot), 0, 0);
        }
        while j < elts.len()
            invariant
                j <= elts@.len(),
                self.children == old(self).children,
                self.len == old(self).len,
                self.hash == old(self).hash ^ child_digest(slot) ^ child_digest(cur),
                child_wf(cur, prefix, i),
                prefix.len() <= max_level(),
                bits == 5 * prefix.len(),
                in_slot(hash, prefix, i),
                forall|k: int| 0 <= k < elts@.len() ==> (#[trigger] elts@[k]).spec_hash() == hash,
                child_count(slot) + elts@.len() < usize::MAX,
                forall|t: &T| #[trigger] as_group.requires((t,)),
                forall|x: T| #[trigger]
                    child_has(cur, x) <==> (child_has(slot, x) || elts@.subrange(0, j as int).contains(x)),
                child_count(cur) <= child_count(slot) + j,
                (forall|k: int| 0 <= k < elts@.len() ==> child_has(slot, #[trigger] elts@[k])) ==> self.agg == old(self).agg,
            decreases elts@.len() - j,
        {
            let elt = elts[j];
            let ghost before = cur;
            let ghost h0 = self.hash;
            proof {
                if forall|k: int| 0 <= k < elts@.len() ==> child_has(slot, #[trigger] elts@[k]) {
                    assert(child_has(slot, elts@[j as int]));
                    assert(child_has(before, elt));
                }
            }
            let g = as_group(&elt);
            let (next, replaced) = self.insert_in_slot(cur, elt, hash, bits, as_group, &g, Ghost(prefix), Ghost(i));
            if replaced.is_none() {
                self.agg.add(&g);
            }
            cur = next;
            proof {
                lemma_xor_facts(old(self).hash ^ child_digest(slot), child_digest(before), child_digest(next), 0);
                assert forall|x: T| #[trigger] child_has(cur, x) <==> (child_has(slot, x)
                    || elts@.subrange(0, j + 1).contains(x)) by {
                    if elts@.subrange(0, j + 1).contains(x) {
                        let k = elts@.subrange(0, j + 1).index_of(x);
                        if k < j {
                            assert(elts@.subrange(0, j as int)[k] == x);
                        }
                    }
                    if elts@.subrange(0, j as int).contains(x) {
                        let k = elts@.subrange(0, j as int).index_of(x);
                        assert(elts@.subrange(0, j + 1)[k] == x);
                    }
                    assert(elts@.subrange(0, j + 1)[j as int] == elt);
                }
            }
            j = j + 1;
        }
        proof {
            assert(elts@.subrange(0, j as int) =~= elts@);
        }
        cur
    }

    /// Union the child `other` (slot `i` of another chunk at the same level)
    /// into the child taken out of slot `i`, keeping this chunk's digest up to
    /// date.
    fn union_in_slot<F: Fn(&T) -> G>(
        &mut self,
        slot: Child<T, G>,
        other: &Child<T, G>,
        bits: u32,
        as_group: &F,
        Ghost(prefix): Ghost<Seq<u32>>,
        Ghost(i): Ghost<u32>,
    ) -> (res: Child<T, G>)
        requires
            child_wf(slot, prefix, i),
            child_wf(*other, prefix, i),
            prefix.len() <= max_level(),
            bits == 5 * prefix.len(),
            child_count(slot) + child_count(*other) < usize::MAX,
            forall|t: &T| #[trigger] as_group.requires((t,)),
        ensures
            final(self).children == old(self).children,
            final(self).len == old(self).len,
            child_wf(res, prefix, i),
            final(self).hash == old(self).hash ^ child_digest(slot) ^ child_digest(res),
            forall|x: T| #[trigger] child_has(res, x) <==> (child_has(slot, x) || child_has(*other, x)),
            child_count(res) <= child_count(slot) + child_count(*other),
            cancels::<G>() && clones_exactly::<G>() && (forall|x: T| #[trigger] child_has(*other, x) ==> child_has(slot, x))
                ==> final(self).agg == old(self).agg,
            *other is Null ==> final(self).agg == old(self).agg,
            *other is Leaf ==> adds_leaf(*as_group, other->Leaf_0, child_has(slot, other->Leaf_0), old(self).agg, final(self).agg),
        decreases max_level() - prefix.len(), 1nat,
    {
        let ghost g_slot = slot;
        proof {
            lemma_xor_facts(self.hash, child_digest(slot), 0, 0);
            lemma_xor_facts(self.hash ^ child_digest(slot), 0, 0, 0);
        }
        match other {
            Child::Null => slot,
            Child::Leaf(leaf) => {
                let hash = leaf.hash_bits();
                let g = as_group(leaf);
                proof {
                    assert(child_has(*other, *leaf));
                }
                let ghost agg0 = self.agg;
                let (r, replaced) = self.insert_in_slot(slot, *leaf, hash, bits, as_group, &g, Ghost(prefix), Ghost(i));
                if replaced.is_none() {
                    self.agg.add(&g);
                }
                proof {
                    assert(call_ensures(*as_group, (leaf,), g));
                    assert(*other == Child::<T, G>::Leaf(*leaf));
                    assert(other->Leaf_0 == *leaf);
                    assert(call_ensures(*as_group, (&other->Leaf_0,), g) && self.agg == (if child_has(g_slot, other->Leaf_0) {
                        agg0
                    } else {
                        agg0.combine(g)
                    }));
                }
                r
            },
            Child::Collision(others) => {
                if matches!(slot, Child::Null) {
                    proof {
                        assert(child_has(*other, others.data@[0]));
                    }
                    self.add_summary(others.hash, &others.agg);
                    Child::Collision(others.clone())
                } else {
                    proof {
                        assert forall|x: T| others.data@.contains(x) <==> child_has(*other, x) by {}
                        if forall|x: T| #[trigger] child_has(*other, x) ==> child_has(slot, x) {
                            assert forall|k: int| 0 <= k < others.data@.len() implies child_has(slot, #[trigger] others.data@[k]) by {
                                assert(others.data@.contains(others.data@[k]));
                                assert(child_has(*other, others.data@[k]));
                            }
                        }
                    }
                    self.insert_all_in_slot(slot, &others.data, others.hash, bits, as_group, Ghost(prefix), Ghost(i))
                }
            },
            Child::Inner(other_inner) => {
                let ghost next = prefix.push(i);
                let ghost oi = inner_of(*other);
                proof {
                    lemma_chunk_wf(oi, next);
                    assert(forall|x: T| #[trigger] child_has(*other, x) <==> chunk_has(oi, x));
                    assert(child_count(*other) == oi.len);
                    if forall|x: T| #[trigger] child_has(*other, x) ==> child_has(slot, x) {
                        let (x, y) = choose|x: T, y: T| #[trigger] chunk_view(oi).contains(x) && #[trigger] chunk_view(oi).contains(y)
                            && x.spec_hash() != y.spec_hash();
                        assert(child_has(*other, x) && child_has(*other, y));
                        lemma_spread_child_is_inner(slot, prefix, i, x, y);
                    }
                }
                match slot {
                    Child::Null => {
                        self.add_summary(other_inner.hash, &other_inner.agg);
                        Child::Inner(other_inner.clone())
                    },
                    Child::Leaf(leaf) => {
                        let summary = as_group(&leaf);
                        let mut inner = other_inner.clone_chunk();
                        let hash = leaf.hash_bits();
                        proof {
                            lemma_chunk_wf(inner, next);
                            lemma_in_slot_push(hash, prefix, i);
                            assert forall|x: T| chunk_has(inner, x) == chunk_has(oi, x) by {
                                lemma_has(inner, x);
                                lemma_has(oi, x);
                            }
                        }
                        let ghost before = inner;
                        inner.insert(leaf, hash, bits + BITS, as_group, &summary, Ghost(next));
                        self.remove_summary(hash, &summary);
                        self.add_summary(inner.hash, &inner.agg);
                        let r = Child::Inner(Rc::new(inner));
                        proof {
                            assert forall|x: T| #[trigger] child_has(r, x) <==> (child_has(g_slot, x) || child_has(*other, x)) by {
                                assert(chunk_view(inner).contains(x) == chunk_has(inner, x));
                                assert(chunk_view(before).contains(x) == chunk_has(before, x));
                            }
                            assert(child_wf(*other, prefix, i));
                            assert forall|x: T| chunk_view(oi).contains(x) implies chunk_view(inner).contains(x) by {
                                assert(child_has(*other, x));
                                assert(child_has(r, x));
                            }
                            lemma_spread_grows(chunk_view(oi), chunk_view(inner));
                        }
                        r
                    },
                    Child::Collision(collision) => {
                        let mut others = other_inner.clone_chunk();
                        let ghost before = others;
                        proof {
                            lemma_chunk_wf(others, next);
                            lemma_in_slot_push(collision.hash, prefix, i);
                            assert forall|x: T| chunk_has(others, x) == chunk_has(oi, x) by {
                                lemma_has(others, x);
                                lemma_has(oi, x);
                            }
                        }
                        let mut k: usize = 0;
                        while k < collision.data.len()
                            invariant
                                k <= collision.data@.len(),
                                chunk_wf(others, next),
                                next == prefix.push(i),
                                bits == 5 * prefix.len(),
                                prefix.len() < max_level(),
                                has_prefix(collision.hash, next),
                                forall|m: int| 0 <= m < collision.data@.len() ==> (#[trigger] collision.data@[m]).spec_hash() == collision.hash,
                                others.len <= before.len + k,
                                before.len + collision.data@.len() < usize::MAX,
                                forall|t: &T| #[trigger] as_group.requires((t,)),
                                forall|x: T| chunk_has(others, x) <==> (chunk_has(before, x)
                                    || collision.data@.subrange(0, k as int).contains(x)),
                            decreases collision.data@.len() - k,
                        {
                            let elt = collision.data[k];
                            let ghost prev = others;
                            let g = as_group(&elt);
                            others.insert(elt, collision.hash, bits + BITS, as_group, &g, Ghost(next));
                            proof {
                                assert forall|x: T| chunk_has(others, x) <==> (chunk_has(before, x)
                                    || collision.data@.subrange(0, k + 1).contains(x)) by {
                                    assert(chunk_view(others).contains(x) == chunk_has(others, x));
                                    assert(chunk_view(prev).contains(x) == chunk_has(prev, x));
                                    if collision.data@.subrange(0, k + 1).contains(x) {
                                        let m = collision.data@.subrange(0, k + 1).index_of(x);
                                        if m < k {
                                            assert(collision.data@.subrange(0, k as int)[m] == x);
                                        }
                                    }
                                    if collision.data@.subrange(0, k as int).contains(x) {
                                        let m = collision.data@.subrange(0, k as int).index_of(x);
                                        assert(collision.data@.subrange(0, k + 1)[m] == x);
                                    }
                                    assert(collision.data@.subrange(0, k + 1)[k as int] == elt);
                                }
                            }
                            k = k + 1;
                        }
                        proof {
                            assert(collision.data@.subrange(0, k as int) =~= collision.data@);
                        }
                        self.remove_summary(collision.hash, &collision.agg);
                        self.add_summary(others.hash, &others.agg);
                        let r = Child::Inner(Rc::new(others));
                        proof {
                            assert(forall|x: T| #[trigger] child_has(r, x) <==> chunk_has(others, x));
                            assert(child_wf(*other, prefix, i));
                            assert forall|x: T| chunk_view(oi).contains(x) implies chunk_view(others).contains(x) by {
                                assert(chunk_has(before, x));
                            }
                            lemma_spread_grows(chunk_view(oi), chunk_view(others));
                        }
                        r
                    },
                    Child::Inner(rc) => {
                        let ghost shared = inner_of(g_slot);
                        let mut inner = unwrap_or_clone(rc);
                        let prev_hash = inner.hash;
                        let prev_agg = inner.agg.clone();
                        let ghost before = inner;
                        proof {
                            lemma_chunk_wf(shared, next);
                            lemma_chunk_wf(inner, next);
                            assert forall|x: T| chunk_has(inner, x) == chunk_has(shared, x) by {
                                lemma_has(inner, x);
                                lemma_has(shared, x);
                            }
                        }
                        let ghost agg0 = self.agg;
                        inner.union(&**other_inner, bits + BITS, as_group, Ghost(next));
                        self.remove_summary(prev_hash, &prev_agg);
                        self.add_summary(inner.hash, &inner.agg);
                        proof {
                            if cancels::<G>() && clones_exactly::<G>() && (forall|x: T| #[trigger] child_has(*other, x) ==> child_has(g_slot, x)) {
                                assert forall|x: T| chunk_view(oi).contains(x) implies chunk_view(before).contains(x) by {
                                    assert(child_has(*other, x));
                                    assert(child_has(g_slot, x));
                                    assert(chunk_has(shared, x));
                                }
                                assert(chunk_view(oi).subset_of(chunk_view(before)));
                                assert(cloned(before.agg, prev_agg));
                                assert(inner.agg == prev_agg);
                                assert(self.agg == agg0.combine(prev_agg.negate()).combine(prev_agg));
                            }
                        }
                        let r = Child::Inner(Rc::new(inner));
                        proof {
                            assert forall|x: T| #[trigger] child_has(r, x) <==> (child_has(g_slot, x) || child_has(*other, x)) by {
                                assert(chunk_view(inner).contains(x) == chunk_has(inner, x));
                                assert(chunk_view(before).contains(x) == chunk_has(before, x));
                                assert(chunk_view(oi).contains(x) == chunk_has(oi, x));
                            }
                            assert forall|x: T| chunk_view(oi).contains(x) implies chunk_view(inner).contains(x) by {
                                assert(child_has(*other, x));
                                assert(child_has(r, x));
                            }
                            assert(child_wf(*other, prefix, i));
                            lemma_spread_grows(chunk_view(oi), chunk_view(inner));
                        }
                        r
                    },
                }
            },
        }
    }

    /// Add all elements of `other`, a chunk at the same bit offset `bits`, to
    /// this chunk.
    pub fn union<F: Fn(&T) -> G>(
        &mut self,
        other: &Chunk<T, G>,
        bits: u32,
        as_group: &F,
        Ghost(prefix): Ghost<Seq<u32>>,
    )
        requires
            chunk_wf(*old(self), prefix),
            chunk_wf(*other, prefix),
            bits == 5 * prefix.len(),
            old(self).len + other.len < usize::MAX,
            forall|t: &T| #[trigger] as_group.requires((t,)),
        ensures
            chunk_wf(*final(self), prefix),
            chunk_view(*final(self)) == chunk_view(*old(self)).union(chunk_view(*other)),
            final(self).len <= old(self).len + other.len,
            cancels::<G>() && clones_exactly::<G>() && chunk_view(*other).subset_of(chunk_view(*old(self)))
                ==> final(self).agg == old(self).agg,
            lone_leaf_added(*as_group, *other, *old(self), final(self).agg),
        decreases max_level() - prefix.len(), 2nat,
    {
        let ghost old_self = *self;
        proof {
            lemma_chunk_wf(*other, prefix);
        }
        let mut i: usize = 0;
        while i < ARITY
            invariant
                i <= ARITY,
                chunk_wf(*self, prefix),
                chunk_wf(*other, prefix),
                chunk_wf(old_self, prefix),
                bits == 5 * prefix.len(),
                old_self.len + other.len < usize::MAX,
                self.len <= old_self.len + count_upto(other.children@, i as nat),
                forall|t: &T| #[trigger] as_group.requires((t,)),
                forall|x: T| chunk_has(*self, x) <==> (chunk_has(old_self, x) || chunk_has_upto(*other, x, i as nat)),
                forall|j: int| i <= j < 32 ==> #[trigger] self.children@[j] == old_self.children@[j],
                self.children@.len() == 32,
                cancels::<G>() && clones_exactly::<G>() && chunk_view(*other).subset_of(chunk_view(old_self))
                    ==> self.agg == old_self.agg,
                forall|s: int, x: T| #[trigger] lone_leaf_at(*other, s, x) ==> if i <= s {
                    self.agg == old_self.agg
                } else {
                    adds_leaf(*as_group, x, chunk_has(old_self, x), old_self.agg, self.agg)
                },
            decreases ARITY - i,
        {
            let ghost prev = *self;
            proof {
                lemma_chunk_wf(*self, prefix);
                lemma_chunk_wf(*other, prefix);
                lemma_count_ge(self.children@, 32, i as int);
                lemma_count_mono(other.children@, (i + 1) as nat, 32);
                assert(child_wf(self.children@[i as int], prefix, i as u32));
                assert(child_wf(other.children@[i as int], prefix, i as u32));
            }
            let mut slot = Child::Null;
            std::mem::swap(&mut slot, &mut self.children[i]);
            let ghost old_slot = slot;
            assert(old_slot == prev.children@[i as int]);
            let old_count = child_len(&slot);
            proof {
                if cancels::<G>() && clones_exactly::<G>() && chunk_view(*other).subset_of(chunk_view(old_self)) {
                    assert forall|x: T| #[trigger] child_has(other.children@[i as int], x) implies child_has(old_slot, x) by {
                        lemma_child_members(other.children@[i as int], prefix, i as u32, x);
                        lemma_has(*other, x);
                        assert(chunk_has_upto(*other, x, 32)) by {
                            assert(child_has(other.children@[i as int], x));
                        }
                        assert(chunk_view(*other).contains(x));
                        assert(chunk_view(old_self).contains(x));
                        lemma_has_iff_slot(old_self, prefix, x);
                    }
                }
            }
            let ghost agg_before = self.agg;
            let new_slot = self.union_in_slot(slot, &other.children[i], bits, as_group, Ghost(prefix), Ghost(i as u32));
            proof {
                assert forall|s: int, x: T| #[trigger] lone_leaf_at(*other, s, x) implies if i + 1 <= s {
                    self.agg == old_self.agg
                } else {
                    adds_leaf(*as_group, x, chunk_has(old_self, x), old_self.agg, self.agg)
                } by {
                    if i < s {
                        assert(other.children@[i as int] is Null);
                    } else if i == s {
                        assert(agg_before == old_self.agg);
                        let oc = other.children@[i as int];
                        assert(oc == Child::<T, G>::Leaf(x));
                        assert(child_wf(oc, prefix, i as u32));
                        assert(child_has(oc, x));
                        lemma_child_members(oc, prefix, i as u32, x);
                        lemma_has_iff_slot(old_self, prefix, x);
                        assert(old_slot == old_self.children@[i as int]);
                        assert(child_has(old_slot, x) == chunk_has(old_self, x));
                        assert(adds_leaf(*as_group, x, child_has(old_slot, x), agg_before, self.agg));
                    } else {
                        assert(other.children@[i as int] is Null);
                    }
                }
            }
            let new_count = child_len(&new_slot);
            self.children.set(i, new_slot);
            assert(self.children@ =~= prev.children@.update(i as int, new_slot));
            self.len = self.len - old_count + new_count;
            proof {
                lemma_replace_slot(prev, *self, prefix, i as int);
                assert forall|x: T| chunk_has(*self, x) <==> (chunk_has(old_self, x) || chunk_has_upto(*other, x, (i + 1) as nat)) by {
                    lemma_has_iff_slot(prev, prefix, x);
                    assert(chunk_has(prev, x) <==> (chunk_has(old_self, x) || chunk_has_upto(*other, x, i as nat)));
                    assert(chunk_has(*self, x) <==> if digit_at(x.spec_hash(), (5 * prefix.len()) as u32) == i {
                        child_has(new_slot, x)
                    } else {
                        chunk_has(prev, x)
                    });
                    lemma_has_upto(*other, x, i as nat);
                    assert(chunk_has_upto(*other, x, (i + 1) as nat) == (chunk_has_upto(*other, x, i as nat)
                        || child_has(other.children@[i as int], x)));
                    assert(child_has(new_slot, x) <==> (child_has(old_slot, x) || child_has(other.children@[i as int], x)));
                    if child_has(other.children@[i as int], x) {
                        lemma_child_members(other.children@[i as int], prefix, i as u32, x);
                    }
                    if chunk_has_upto(*other, x, i as nat) {
                        let k = choose|k: int| 0 <= k < i && #[trigger] child_has(other.children@[k], x);
                        assert(child_wf(other.children@[k], prefix, k as u32));
                        lemma_child_members(other.children@[k], prefix, k as u32, x);
                    }
                }
            }
            i = i + 1;
        }
        proof {
            assert forall|x: T| chunk_has(*self, x) <==> (chunk_has(old_self, x) || chunk_has(*other, x)) by {}
            assert(chunk_view(*self) =~= chunk_view(old_self).union(chunk_view(*other)));
        }
    }

    /// Apply `f` to each element below this chunk.
    pub fn for_each<F: FnMut(&T)>(&self, f: &mut F, Ghost(prefix): Ghost<Seq<u32>>)
        requires
            chunk_wf(*self, prefix),
            forall|g: F, x: &T| #[trigger] call_requires(g, (x,)),
        ensures
            forall|x: T| #![trigger chunk_has(*self, x)] chunk_has(*self, x) ==> exists|g: F| #[trigger] call_ensures(g, (&x,), ()),
        decreases max_level() - prefix.len(),
    {
        proof {
            lemma_chunk_wf(*self, prefix);
        }
        let mut child: usize = 0;
        while child < ARITY
            invariant
                chunk_wf(*self, prefix),
                self.children@.len() == 32,
                child <= 32,
                forall|i: int| 0 <= i < 32 ==> #[trigger] child_wf(self.children@[i], prefix, i as u32),
                forall|g: F, x: &T| #[trigger] call_requires(g, (x,)),
                forall|i: int, x: T|
                    0 <= i < child && #[trigger] child_has(self.children@[i], x) ==> exists|g: F| #[trigger] call_ensures(g, (&x,), ()),
            decreases ARITY - child,
        {
            match &self.children[child] {
                Child::Null => {},
                Child::Leaf(leaf) => {
                    let ghost g0 = *f;
                    f(leaf);
                    proof {
                        assert(call_ensures(g0, (leaf,), ()));
                    }
                },
                Child::Collision(collision) => {
                    let ghost data = collision.data@;
                    let ghost mut states: Seq<F> = Seq::empty();
                    let mut j: usize = 0;
                    while j < collision.data.len()
                        invariant
                            j <= collision.data@.len(),
                            data == collision.data@,
                            states.len() == j,
                            forall|g: F, x: &T| #[trigger] call_requires(g, (x,)),
                            forall|k: int| 0 <= k < j ==> #[trigger] call_ensures(states[k], (&data[k],), ()),
                        decreases collision.data@.len() - j,
                    {
                        let ghost g0 = *f;
                        f(&collision.data[j]);
                        proof {
                            states = states.push(g0);
                            assert(call_ensures(states[j as int], (&data[j as int],), ()));
                        }
                        j = j + 1;
                    }
                    proof {
                        assert forall|x: T| data.contains(x) implies exists|g: F| #[trigger] call_ensures(g, (&x,), ()) by {
                            let k = data.index_of(x);
                            assert(call_ensures(states[k], (&data[k],), ()));
                        }
                    }
                },
                Child::Inner(inner) => {
                    proof {
                        assert(child_wf(self.children@[child as int], prefix, child as u32));
                    }
                    inner.for_each(f, Ghost(prefix.push(child as u32)));
                },
            }
            proof {
                assert forall|i: int, x: T|
                    0 <= i < child + 1 && #[trigger] child_has(self.children@[i], x) implies exists|g: F| #[trigger] call_ensures(g, (&x,), ()) by {
                    if i == child {
                        match self.children@[i] {
                            Child::Inner(rc) => {
                                assert(chunk_has(*rc, x));
                            },
                            Child::Collision(cn) => {
                                assert(cn.data@.contains(x));
                            },
                            _ => {},
                        }
                    }
                }
            }
            child = child + 1;
        }
        proof {
            assert forall|x: T| #![trigger chunk_has(*self, x)] chunk_has(*self, x) implies exists|g: F| #[trigger] call_ensures(g, (&x,), ()) by {
                lemma_has(*self, x);
                let i = choose|i: int| 0 <= i < self.children@.len() && #[trigger] child_has(self.children@[i], x);
                assert(child_has(self.children@[i], x));
            }
        }
    }
}

/// Appending a list with none of a list's elements keeps it free of
/// duplicates.
pub proof fn lemma_concat_no_dup<A>(a: Seq<A>, b: Seq<A>)
    requires
        a.no_duplicates(),
        b.no_duplicates(),
        forall|x: A| a.contains(x) ==> !b.contains(x),
    ensures
        (a + b).no_duplicates(),
        forall|x: A| #[trigger] (a + b).contains(x) <==> a.contains(x) || b.contains(x),
{
    let c = a + b;
    assert forall|i: int, j: int| 0 <= i < c.len() && 0 <= j < c.len() && i != j implies c[i] != c[j] by {
        if i < a.len() && j >= a.len() {
            assert(a.contains(c[i]));
            assert(b[j - a.len()] == c[j]);
            assert(b.contains(c[j]));
        } else if j < a.len() && i >= a.len() {
            assert(a.contains(c[j]));
            assert(b[i - a.len()] == c[i]);
            assert(b.contains(c[i]));
        } else if i >= a.len() && j >= a.len() {
            assert(c[i] == b[i - a.len()] && c[j] == b[j - a.len()]);
        }
    }
    assert forall|x: A| #[trigger] c.contains(x) <==> a.contains(x) || b.contains(x) by {
        if c.contains(x) {
            let k = c.index_of(x);
            if k >= a.len() {
                assert(b[k - a.len()] == x);
            } else {
                assert(a[k] == x);
            }
        }
        if a.contains(x) {
            let k = a.index_of(x);
            assert(c[k] == x);
        }
        if b.contains(x) {
            let k = b.index_of(x);
            assert(c[k + a.len()] == x);
        }
    }
}

impl<T: HashKey, G: Group + Clone> Chunk<T, G> {
    /// The elements below this chunk, each once, in slot order.
    pub fn elements(&self, Ghost(prefix): Ghost<Seq<u32>>) -> (r: Vec<T>)
        requires
            chunk_wf(*self, prefix),
        ensures
            r@.no_duplicates(),
            forall|x: T| #[trigger] r@.contains(x) <==> chunk_has(*self, x),
        decreases max_level() - prefix.len(),
    {
        proof {
            lemma_chunk_wf(*self, prefix);
        }
        let mut r: Vec<T> = Vec::new();
        let mut child: usize = 0;
        while child < ARITY
            invariant
                chunk_wf(*self, prefix),
                self.children@.len() == 32,
                child <= 32,
                forall|i: int| 0 <= i < 32 ==> #[trigger] child_wf(self.children@[i], prefix, i as u32),
                r@.no_duplicates(),
                forall|x: T| #[trigger] r@.contains(x) ==> in_slot_before(x.spec_hash(), prefix, child as int),
                forall|x: T| #[trigger] r@.contains(x) <==> exists|i: int| 0 <= i < child && #[trigger] child_has(self.children@[i], x),
            decreases ARITY - child,
        {
            let mut part: Vec<T> = match &self.children[child] {
                Child::Null => Vec::new(),
                Child::Leaf(leaf) => {
                    let v = vec![*leaf];
                    proof {
                        assert(v@ =~= seq![*leaf]);
                        assert forall|x: T| v@.contains(x) <==> x == *leaf by {
                            if v@.contains(x) {
                                assert(v@[v@.index_of(x)] == x);
                            }
                            if x == *leaf {
                                assert(v@[0] == x);
                            }
                        }
                    }
                    v
                },
                Child::Collision(collision) => {
                    let copy = collision.clone_node();
                    copy.data
                },
                Child::Inner(inner) => {
                    proof {
                        assert(child_wf(self.children@[child as int], prefix, child as u32));
                    }
                    inner.elements(Ghost(prefix.push(child as u32)))
                },
            };
            let ghost slot = self.children@[child as int];
            proof {
                assert(child_wf(slot, prefix, child as u32));
                assert(part@.no_duplicates());
                assert forall|x: T| part@.contains(x) <==> child_has(slot, x) by {
                    match slot {
                        Child::Inner(rc) => {
                            assert(child_has(slot, x) == chunk_has(*rc, x));
                        },
                        _ => {},
                    }
                }
                assert forall|x: T| r@.contains(x) implies !part@.contains(x) by {
                    if part@.contains(x) {
                        lemma_child_members(slot, prefix, child as u32, x);
                    }
                }
                lemma_concat_no_dup(r@, part@);
            }
            let ghost before = r@;
            let ghost added = part@;
            r.append(&mut part);
            proof {
                assert(r@ == before + added);
                assert forall|x: T| #[trigger] r@.contains(x) implies in_slot_before(x.spec_hash(), prefix, child + 1) by {
                    if added.contains(x) {
                        lemma_child_members(slot, prefix, child as u32, x);
                    }
                }
                assert forall|x: T| #[trigger] r@.contains(x) <==> exists|i: int| 0 <= i < child + 1 && #[trigger] child_has(self.children@[i], x) by {
                    if exists|i: int| 0 <= i < child + 1 && #[trigger] child_has(self.children@[i], x) {
                        let i = choose|i: int| 0 <= i < child + 1 && #[trigger] child_has(self.children@[i], x);
                        if i < child {
                            assert(before.contains(x));
                        } else {
                            assert(added.contains(x));
                        }
                    }
                    if r@.contains(x) {
                        if before.contains(x) {
                            let i = choose|i: int| 0 <= i < child && #[trigger] child_has(self.children@[i], x);
                            assert(child_has(self.children@[i], x));
                        } else {
                            assert(added.contains(x));
                            assert(child_has(self.children@[child as int], x));
                        }
                    }
                }
            }
            child = child + 1;
        }
        proof {
            assert forall|x: T| #[trigger] r@.contains(x) <==> chunk_has(*self, x) by {
                lemma_has(*self, x);
            }
        }
        r
    }
}

/// `h` selects, at the level after `prefix`, a slot before `n`.
pub open spec fn in_slot_before(h: u32, prefix: Seq<u32>, n: int) -> bool {
    has_prefix(h, prefix) && digit_at(h, (5 * prefix.len()) as u32) < n
}

/// The value an `Rc` points to.
pub open spec fn pointee<A>(r: Rc<A>) -> A {
    *r
}

/// Two buckets hold the same hash and the same elements, each once.
pub open spec fn collision_alike<T, G>(a: CollisionNode<T, G>, b: CollisionNode<T, G>) -> bool {
    &&& a.hash == b.hash
    &&& a.data@.len() == b.data@.len()
    &&& a.data@.no_duplicates()
    &&& b.data@.no_duplicates()
    &&& forall|j: int| 0 <= j < a.data@.len() ==> b.data@.contains(#[trigger] a.data@[j])
}

/// Two slots hold the same kind of child with the same contents: nothing,
/// equal elements, alike buckets, or alike chunks.
pub open spec fn child_alike<T, G>(a: Child<T, G>, b: Child<T, G>) -> bool
    decreases a, 0nat,
{
    match a {
        Child::Null => b is Null,
        Child::Leaf(x) => b matches Child::Leaf(y) && x == y,
        Child::Collision(p) => b matches Child::Collision(q) && collision_alike(*p, *q),
        Child::Inner(p) => b matches Child::Inner(q) && p.hash == q.hash && p.len == q.len && p.children@.len()
            == q.children@.len() && chunk_alike_upto(*p, *q, p.children@.len()),
    }
}

/// The first `n` slots of two chunks are alike.
pub open spec fn chunk_alike_upto<T, G>(a: Chunk<T, G>, b: Chunk<T, G>, n: nat) -> bool
    decreases a, n,
{
    if n == 0 || n > a.children@.len() {
        n == 0
    } else {
        proof {
            assert(decreases_to!(a => a.children));
            assert(decreases_to!(a.children => a.children@));
            assert(decreases_to!(a.children@ => a.children@[n - 1]));
        }
        chunk_alike_upto(a, b, (n - 1) as nat) && n <= b.children@.len() && child_alike(
            a.children@[n - 1],
            b.children@[n - 1],
        )
    }
}

/// Two chunks have the same digest, count and slots, slot by slot alike.
pub open spec fn chunk_alike<T, G>(a: Chunk<T, G>, b: Chunk<T, G>) -> bool {
    &&& a.hash == b.hash
    &&& a.len == b.len
    &&& a.children@.len() == b.children@.len()
    &&& chunk_alike_upto(a, b, a.children@.len())
}

/// `chunk_alike_upto` is a universal over the first `n` slots.
pub proof fn lemma_alike_upto<T, G>(a: Chunk<T, G>, b: Chunk<T, G>, n: nat)
    requires
        n <= a.children@.len(),
        n <= b.children@.len(),
    ensures
        chunk_alike_upto(a, b, n) <==> forall|i: int| 0 <= i < n ==> #[trigger] child_alike(a.children@[i], b.children@[i]),
    decreases n,
{
    if n > 0 {
        lemma_alike_upto(a, b, (n - 1) as nat);
        if forall|i: int| 0 <= i < n ==> #[trigger] child_alike(a.children@[i], b.children@[i]) {
            assert(child_alike(a.children@[n - 1], b.children@[n - 1]));
        }
        if chunk_alike_upto(a, b, n) {
            assert forall|i: int| 0 <= i < n implies #[trigger] child_alike(a.children@[i], b.children@[i]) by {
                if i < n - 1 {
                    assert(child_alike(a.children@[i], b.children@[i]));
                }
            }
        }
    }
}

/// Every well-formed child is alike to itself.
pub proof fn lemma_child_alike_refl<T: HashKey, G>(c: Child<T, G>, prefix: Seq<u32>, i: u32)
    requires
        child_wf(c, prefix, i),
    ensures
        child_alike(c, c),
    decreases c, 0nat,
{
    match c {
        Child::Inner(p) => {
            assert forall|k: int| 0 <= k < 32 implies #[trigger] child_alike(p.children@[k], p.children@[k]) by {
                lemma_children_wf_upto(*p, prefix.push(i), 32);
                assert(child_wf(p.children@[k], prefix.push(i), k as u32));
                assert(decreases_to!(c => p));
                lemma_child_alike_refl(p.children@[k], prefix.push(i), k as u32);
            }
            lemma_alike_upto(pointee(p), pointee(p), 32);
        },
        Child::Collision(p) => {
            assert forall|j: int| 0 <= j < p.data@.len() implies p.data@.contains(#[trigger] p.data@[j]) by {
            }
        },
        _ => {},
    }
}

/// Every well-formed chunk is alike to itself.
pub proof fn lemma_chunk_alike_refl<T: HashKey, G>(c: Chunk<T, G>, prefix: Seq<u32>)
    requires
        chunk_wf(c, prefix),
    ensures
        chunk_alike(c, c),
{
    lemma_chunk_wf(c, prefix);
    assert forall|k: int| 0 <= k < 32 implies #[trigger] child_alike(c.children@[k], c.children@[k]) by {
        lemma_child_alike_refl(c.children@[k], prefix, k as u32);
    }
    lemma_alike_upto(c, c, 32);
}

/// A bucket whose elements, each once, are all in another bucket of as many
/// elements, each once, holds the same elements.
proof fn lemma_collision_same_elements<T, G>(a: CollisionNode<T, G>, b: CollisionNode<T, G>)
    requires
        collision_alike(a, b),
    ensures
        a.data@.to_set() == b.data@.to_set(),
{
    let sa = a.data@.to_set();
    let sb = b.data@.to_set();
    a.data@.unique_seq_to_set();
    b.data@.unique_seq_to_set();
    assert(sa.subset_of(sb)) by {
        assert forall|x: T| sa.contains(x) implies sb.contains(x) by {
            let j = choose|j: int| 0 <= j < a.data@.len() && a.data@[j] == x;
            assert(b.data@.contains(a.data@[j]));
        }
    }
    if !sb.subset_of(sa) {
        let y = choose|y: T| sb.contains(y) && !sa.contains(y);
        vstd::set_lib::lemma_len_subset(sa, sb.remove(y));
    }
    assert(sa =~= sb);
}

/// Alike children hold the same elements.
pub proof fn lemma_child_alike_view<T, G>(a: Child<T, G>, b: Child<T, G>, x: T)
    requires
        child_alike(a, b),
    ensures
        child_has(a, x) <==> child_has(b, x),
    decreases a, 0nat,
{
    match a {
        Child::Collision(p) => {
            let q = b->Collision_0;
            lemma_collision_same_elements(pointee(p), pointee(q));
            assert(p.data@.contains(x) <==> p.data@.to_set().contains(x));
            assert(q.data@.contains(x) <==> q.data@.to_set().contains(x));
        },
        Child::Inner(p) => {
            let q = b->Inner_0;
            assert(decreases_to!(a => p));
            lemma_chunk_alike_view_upto(pointee(p), pointee(q), x, p.children@.len());
        },
        _ => {},
    }
}

/// Chunks alike in their first `n` slots hold the same elements there.
pub proof fn lemma_chunk_alike_view_upto<T, G>(a: Chunk<T, G>, b: Chunk<T, G>, x: T, n: nat)
    requires
        chunk_alike_upto(a, b, n),
        n <= b.children@.len(),
    ensures
        chunk_has_upto(a, x, n) <==> chunk_has_upto(b, x, n),
    decreases a, n,
{
    if n > 0 && n <= a.children@.len() {
        assert(decreases_to!(a => a.children));
        assert(decreases_to!(a.children => a.children@));
        assert(decreases_to!(a.children@ => a.children@[n - 1]));
        lemma_chunk_alike_view_upto(a, b, x, (n - 1) as nat);
        lemma_child_alike_view(a.children@[n - 1], b.children@[n - 1], x);
    }
}

/// Alike chunks hold the same elements.
pub proof fn lemma_chunk_alike_view<T, G>(a: Chunk<T, G>, b: Chunk<T, G>)
    requires
        chunk_alike(a, b),
    ensures
        chunk_view(a) == chunk_view(b),
{
    assert forall|x: T| chunk_view(a).contains(x) <==> chunk_view(b).contains(x) by {
        lemma_chunk_alike_view_upto(a, b, x, a.children@.len());
    }
    assert(chunk_view(a) =~= chunk_view(b));
}

/// Two well-formed children of the same slot that hold the same elements
/// are alike and add the same to their chunks' digests: what a slot holds
/// determines its shape.
pub proof fn lemma_child_canonical<T: HashKey, G>(a: Child<T, G>, b: Child<T, G>, prefix: Seq<u32>, i: u32)
    requires
        child_wf(a, prefix, i),
        child_wf(b, prefix, i),
        forall|x: T| child_has(a, x) == child_has(b, x),
    ensures
        child_alike(a, b),
        child_digest(a) == child_digest(b),
    decreases a, 0nat,
{
    if !(a is Null) {
        lemma_child_nonempty(a, prefix, i);
    }
    if !(b is Null) {
        lemma_child_nonempty(b, prefix, i);
    }
    match a {
        Child::Null => {
            if !(b is Null) {
                let w = choose|x: T| #[trigger] child_has(b, x);
                assert(child_has(a, w));
            }
        },
        Child::Leaf(t) => {
            assert(child_has(a, t));
            match b {
                Child::Leaf(u) => {},
                Child::Collision(q) => {
                    assert(child_has(b, q.data@[0]) && child_has(b, q.data@[1]));
                    assert(q.data@.contains(q.data@[0]) && q.data@.contains(q.data@[1]));
                },
                Child::Inner(q) => {
                    let (x, y) = choose|x: T, y: T| #[trigger] chunk_view(*q).contains(x) && #[trigger] chunk_view(*q).contains(y) && x.spec_hash() != y.spec_hash();
                    assert(child_has(b, x) && child_has(b, y));
                },
                _ => {},
            }
        },
        Child::Collision(p) => {
            assert(p.data@.contains(p.data@[0]) && p.data@.contains(p.data@[1]));
            assert(child_has(a, p.data@[0]) && child_has(a, p.data@[1]));
            match b {
                Child::Leaf(u) => {},
                Child::Collision(q) => {
                    assert(q.data@.contains(q.data@[0]));
                    assert(child_has(b, q.data@[0]));
                    let k = p.data@.index_of(q.data@[0]);
                    assert(p.data@[k].spec_hash() == p.hash);
                    assert(q.data@.to_set() =~= p.data@.to_set()) by {
                        assert forall|x: T| q.data@.contains(x) == p.data@.contains(x) by {
                            assert(child_has(a, x) == p.data@.contains(x));
                            assert(child_has(b, x) == q.data@.contains(x));
                        }
                    }
                    p.data@.unique_seq_to_set();
                    q.data@.unique_seq_to_set();
                    assert forall|j: int| 0 <= j < p.data@.len() implies q.data@.contains(#[trigger] p.data@[j]) by {
                        assert(p.data@.contains(p.data@[j]));
                        assert(child_has(a, p.data@[j]));
                    }
                },
                Child::Inner(q) => {
                    let (x, y) = choose|x: T, y: T| #[trigger] chunk_view(*q).contains(x) && #[trigger] chunk_view(*q).contains(y) && x.spec_hash() != y.spec_hash();
                    assert(child_has(b, x) && child_has(b, y));
                    let kx = p.data@.index_of(x);
                    let ky = p.data@.index_of(y);
                    assert(p.data@[kx].spec_hash() == p.hash);
                    assert(p.data@[ky].spec_hash() == p.hash);
                },
                _ => {},
            }
        },
        Child::Inner(p) => {
            let (x, y) = choose|x: T, y: T| #[trigger] chunk_view(*p).contains(x) && #[trigger] chunk_view(*p).contains(y) && x.spec_hash() != y.spec_hash();
            assert(child_has(a, x) && child_has(a, y));
            match b {
                Child::Leaf(u) => {},
                Child::Collision(q) => {
                    let kx = q.data@.index_of(x);
                    let ky = q.data@.index_of(y);
                    assert(q.data@[kx].spec_hash() == q.hash);
                    assert(q.data@[ky].spec_hash() == q.hash);
                },
                Child::Inner(q) => {
                    let next = prefix.push(i);
                    assert forall|z: T| chunk_has(*p, z) == chunk_has(*q, z) by {
                        assert(child_has(a, z) == chunk_has(*p, z));
                        assert(child_has(b, z) == chunk_has(*q, z));
                    }
                    assert(chunk_wf(*p, next));
                    assert(chunk_wf(*q, next));
                    lemma_upto_canonical(pointee(p), pointee(q), next, 32);
                    lemma_chunk_card(&*p, next);
                    lemma_chunk_card(&*q, next);
                    assert(chunk_view(*p) =~= chunk_view(*q));
                },
                _ => {},
            }
        },
    }
}

/// The first `n` slots of two well-formed chunks at the same place that
/// hold the same elements are alike, and add up to the same digest.
pub proof fn lemma_upto_canonical<T: HashKey, G>(a: Chunk<T, G>, b: Chunk<T, G>, prefix: Seq<u32>, n: nat)
    requires
        chunk_wf(a, prefix),
        chunk_wf(b, prefix),
        forall|x: T| chunk_has(a, x) == chunk_has(b, x),
        n <= 32,
    ensures
        chunk_alike_upto(a, b, n),
        digest_upto(a.children@, n) == digest_upto(b.children@, n),
    decreases a, n,
{
    if n > 0 {
        lemma_upto_canonical(a, b, prefix, (n - 1) as nat);
        lemma_chunk_wf(a, prefix);
        lemma_chunk_wf(b, prefix);
        let k = n - 1;
        let ca = a.children@[k];
        let cb = b.children@[k];
        assert(child_wf(ca, prefix, k as u32));
        assert(child_wf(cb, prefix, k as u32));
        assert forall|x: T| child_has(ca, x) == child_has(cb, x) by {
            if child_has(ca, x) {
                lemma_child_members(ca, prefix, k as u32, x);
                lemma_has(a, x);
                lemma_has_iff_slot(b, prefix, x);
            }
            if child_has(cb, x) {
                lemma_child_members(cb, prefix, k as u32, x);
                lemma_has(b, x);
                lemma_has_iff_slot(a, prefix, x);
            }
        }
        assert(decreases_to!(a => a.children));
        assert(decreases_to!(a.children => a.children@));
        assert(decreases_to!(a.children@ => a.children@[k]));
        lemma_child_canonical(ca, cb, prefix, k as u32);
    }
}

/// Two well-formed chunks at the same place that hold the same elements are
/// alike.
pub proof fn lemma_chunk_canonical<T: HashKey, G>(a: Chunk<T, G>, b: Chunk<T, G>, prefix: Seq<u32>)
    requires
        chunk_wf(a, prefix),
        chunk_wf(b, prefix),
        chunk_view(a) == chunk_view(b),
    ensures
        chunk_alike(a, b),
{
    assert forall|x: T| chunk_has(a, x) == chunk_has(b, x) by {
        assert(chunk_view(a).contains(x) == chunk_has(a, x));
        assert(chunk_view(b).contains(x) == chunk_has(b, x));
    }
    lemma_upto_canonical(a, b, prefix, 32);
    lemma_chunk_card(&a, prefix);
    lemma_chunk_card(&b, prefix);
}

/// `std::rc::Rc::ptr_eq`: whether two `Rc`s point to the same allocation.
/// Claimed: if they do, the values they point to are equal.
#[verifier::external_body]
pub(crate) fn rc_ptr_eq<A>(a: &Rc<A>, b: &Rc<A>) -> (r: bool)
    ensures
        r ==> **a == **b,
{
    Rc::ptr_eq(a, b)
}

impl<T: HashKey, G> CollisionNode<T, G> {
    /// Whether the two buckets have the same hash and the same elements:
    /// as many, and each of this one's in the other.
    fn same_elements(&self, other: &Self) -> (r: bool)
        requires
            self.data@.no_duplicates(),
            other.data@.no_duplicates(),
        ensures
            r == collision_alike(*self, *other),
    {
        if self.hash != other.hash || self.data.len() != other.data.len() {
            return false;
        }
        let mut j: usize = 0;
        while j < self.data.len()
            invariant
                j <= self.data@.len(),
                forall|k: int| 0 <= k < j ==> other.data@.contains(#[trigger] self.data@[k]),
            decreases self.data@.len() - j,
        {
            let x = &self.data[j];
            let mut found = false;
            let mut k: usize = 0;
            while k < other.data.len()
                invariant
                    k <= other.data@.len(),
                    found <==> exists|m: int| 0 <= m < k && other.data@[m] == *x,
                decreases other.data@.len() - k,
            {
                if !found && other.data[k].key_eq(x) {
                    found = true;
                }
                k = k + 1;
            }
            if !found {
                return false;
            }
            j = j + 1;
        }
        true
    }
}

impl<T: HashKey, G: Group + Clone> Chunk<T, G> {
    /// Whether the two chunks are alike: the same digest, count and kind of
    /// child in each slot, with equal elements, buckets with the same
    /// elements, and alike chunks below. Children shared by both are alike
    /// without looking further.
    pub fn alike(&self, other: &Self, Ghost(prefix): Ghost<Seq<u32>>) -> (r: bool)
        requires
            chunk_wf(*self, prefix),
            chunk_wf(*other, prefix),
        ensures
            r == chunk_alike(*self, *other),
        decreases max_level() - prefix.len(),
    {
        proof {
            lemma_chunk_wf(*self, prefix);
            lemma_chunk_wf(*other, prefix);
        }
        if self.hash != other.hash || self.len != other.len {
            return false;
        }
        let mut i: usize = 0;
        while i < 32
            invariant
                i <= 32,
                chunk_wf(*self, prefix),
                chunk_wf(*other, prefix),
                self.children@.len() == 32,
                other.children@.len() == 32,
                prefix.len() <= max_level(),
                forall|k: int| 0 <= k < 32 ==> #[trigger] child_wf(self.children@[k], prefix, k as u32),
                forall|k: int| 0 <= k < 32 ==> #[trigger] child_wf(other.children@[k], prefix, k as u32),
                forall|k: int| 0 <= k < i ==> #[trigger] child_alike(self.children@[k], other.children@[k]),
            decreases 32 - i,
        {
            let ghost a = self.children@[i as int];
            let ghost b = other.children@[i as int];
            proof {
                assert(child_wf(a, prefix, i as u32));
                assert(child_wf(b, prefix, i as u32));
            }
            let same = match &self.children[i] {
                Child::Null => match &other.children[i] {
                    Child::Null => true,
                    _ => false,
                },
                Child::Leaf(x) => match &other.children[i] {
                    Child::Leaf(y) => x.key_eq(y),
                    _ => false,
                },
                Child::Collision(p) => match &other.children[i] {
                    Child::Collision(q) => {
                        if rc_ptr_eq(p, q) {
                            proof {
                                assert(collision_alike(pointee(*p), pointee(*p))) by {
                                    assert forall|j: int| 0 <= j < p.data@.len() implies p.data@.contains(#[trigger] p.data@[j]) by {
                                    }
                                }
                            }
                            true
                        } else {
                            p.same_elements(q)
                        }
                    },
                    _ => false,
                },
                Child::Inner(p) => match &other.children[i] {
                    Child::Inner(q) => {
                        proof {
                            assert(chunk_wf(pointee(*p), prefix.push(i as u32)));
                            assert(chunk_wf(pointee(*q), prefix.push(i as u32)));
                        }
                        if rc_ptr_eq(p, q) {
                            proof {
                                lemma_chunk_alike_refl(pointee(*p), prefix.push(i as u32));
                            }
                            true
                        } else {
                            p.alike(q, Ghost(prefix.push(i as u32)))
                        }
                    },
                    _ => false,
                },
            };
            proof {
                assert(same == child_alike(a, b));
            }
            if !same {
                proof {
                    lemma_alike_upto(*self, *other, 32);
                }
                return false;
            }
            i = i + 1;
        }
        proof {
            lemma_alike_upto(*self, *other, 32);
        }
        true
    }
}

} // verus!
