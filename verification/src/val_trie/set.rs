//! Persistent hash sets of keys, each carrying the group sum of its elements.
use vstd::prelude::*;
use std::rc::Rc;
use super::group::{cancels, clones_exactly, Group, XorU32};
use super::hash_key::HashKey;
use super::node::{
    Chunk, adds_leaf, chunk_alike, lemma_lone_leaf, chunk_has, chunk_view, chunk_wf, lemma_chunk_alike_refl, lemma_chunk_alike_view, lemma_chunk_canonical, lemma_chunk_card,
    lemma_same_shape, pointee, rc_ptr_eq, unwrap_or_clone,
};
use vstd::std_specs::cmp::PartialEqSpecImpl;

verus! {

/// A persistent set data-structure.
pub struct HashSet<T: HashKey, G: Group + Clone = ()> {
    len: usize,
    node: Rc<Chunk<T, G>>,
}

/// Where `other` holds just `x`, the aggregate `after` of the union is a
/// clone `kept` of the aggregate `before`, kept as it is if `x` was held
/// already, and with a value that `as_group` gives for `x` combined in if not.
pub open spec fn one_element_added<T, G: Group + Clone, F: Fn(&T) -> G>(
    as_group: F,
    other: Set<T>,
    held: Set<T>,
    before: G,
    after: G,
) -> bool {
    forall|x: T| #[trigger] held.contains(x) || other == Set::<T>::empty().insert(x) ==> (other == Set::<T>::empty().insert(x)
        ==> (held.contains(x) ==> cloned::<G>(before, after)) && (!held.contains(x) ==> exists|kept: G|
        #![trigger cloned::<G>(before, kept)]
        cloned::<G>(before, kept) && adds_leaf(as_group, x, false, kept, after)))
}

impl<T: HashKey, G: Group + Clone> View for HashSet<T, G> {
    type V = Set<T>;

    closed spec fn view(&self) -> Set<T> {
        chunk_view(*self.node)
    }
}

impl<T: HashKey, G: Group + Clone> HashSet<T, G> {
    /// The set's trie is well formed and its count is right; every set the
    /// library hands out is (a type invariant).
    #[verifier::type_invariant]
    pub closed spec fn well_formed(self) -> bool {
        &&& chunk_wf(*self.node, seq![])
        &&& self.len == self.node.len
    }

    /// An empty set, whose aggregate is `G::default()`, the identity of
    /// the group.
    pub fn new() -> (s: Self)
        ensures
            s@ == Set::<T>::empty(),
            call_ensures(G::default, (), s.aggregate()),
    {
        let chunk = Chunk::empty();
        proof {
            assert(chunk_wf(chunk, seq![]));
        }
        HashSet { len: 0, node: Rc::new(chunk) }
    }

    /// Get the group element associated with the sum of the elements of the set.
    pub fn agg(&self) -> (r: &G)
        ensures
            *r == self.aggregate(),
    {
        self.node.agg()
    }

    /// The aggregate the set keeps for its elements.
    pub closed spec fn aggregate(&self) -> G {
        self.node.agg
    }

    /// Apply `f` to each of the elements in the set. The order is unspecified.
    pub fn for_each<F: FnMut(&T)>(&self, f: F)
        requires
            forall|g: F, x: &T| #[trigger] call_requires(g, (x,)),
        ensures
            forall|x: T| #![trigger self@.contains(x)] self@.contains(x) ==> exists|g: F| #[trigger] call_ensures(g, (&x,), ()),
    {
        proof {
            use_type_invariant(self);
        }
        let mut f = f;
        self.node.for_each(&mut f, Ghost(Seq::empty()));
        proof {
            assert forall|x: T| #![trigger self@.contains(x)] self@.contains(x) implies exists|g: F| #[trigger] call_ensures(g, (&x,), ()) by {
                assert(chunk_has(*self.node, x));
            }
        }
    }

    /// The elements of the set, each once, in an unspecified order.
    pub fn elements(&self) -> (r: Vec<T>)
        ensures
            r@.no_duplicates(),
            r@.to_set() == self@,
            r@.len() == self@.len(),
    {
        proof {
            use_type_invariant(self);
            lemma_chunk_card(&*self.node, seq![]);
        }
        let r = self.node.elements(Ghost(Seq::empty()));
        proof {
            assert(r@.to_set() =~= self@);
            r@.unique_seq_to_set();
        }
        r
    }

    /// The number of elements in the set.
    pub fn len(&self) -> (r: usize)
        ensures
            self@.finite(),
            r == self@.len(),
    {
        proof {
            use_type_invariant(self);
            lemma_chunk_card(&*self.node, seq![]);
        }
        self.len
    }

    /// Whether or not the set is empty.
    pub fn is_empty(&self) -> (r: bool)
        ensures
            r <==> self@ == Set::<T>::empty(),
    {
        proof {
            use_type_invariant(self);
            lemma_chunk_card(&*self.node, seq![]);
            if self@.len() == 0 {
                Set::lemma_len0_is_empty(self@);
            }
        }
        self.len() == 0
    }

    /// Whether or not the set contains `t`.
    pub fn contains(&self, t: &T) -> (r: bool)
        ensures
            r == self@.contains(*t),
    {
        proof {
            use_type_invariant(self);
        }
        let hash = t.hash_bits();
        self.node.get(t, hash, 0, Ghost(Seq::empty())).is_some()
    }

    /// Take the set out of `self`, leaving an empty one behind.
    fn take(&mut self) -> (r: Self)
        ensures
            r == *old(self),
            final(self)@ == Set::<T>::empty(),
    {
        let mut tmp = HashSet::new();
        std::mem::swap(self, &mut tmp);
        tmp
    }

    /// Add all elements from `other` to the current set, using `as_group` to
    /// map any existing values into the group `G` for updates to the aggregate.
    ///
    /// Where a subtree of `other` is taken over whole, the aggregate that
    /// `other` stored for it is added. In a group where subtracting a value
    /// and adding it back gives the start, and clones are exact (as for
    /// `XorU32`, see `law_xor_cancels_and_clones_exactly`), unioning in a set
    /// whose elements are all held already leaves the aggregate as it was:
    /// an element already present adds nothing.
    pub fn union_agg<F: Fn(&T) -> G>(&mut self, other: &HashSet<T, G>, as_group: F)
        requires
            old(self)@.len() + other@.len() < usize::MAX,
            forall|x: &T| #[trigger] as_group.requires((x,)),
        ensures
            final(self)@ == old(self)@.union(other@),
            cancels::<G>() && clones_exactly::<G>() && other@.subset_of(old(self)@)
                ==> final(self).aggregate() == old(self).aggregate(),
            old(self)@.len() > 0 ==> one_element_added(as_group, other@, old(self)@, old(self).aggregate(), final(self).aggregate()),
            cancels::<G>() && clones_exactly::<G>() && old(self)@.len() == 0 && other@.len() > 0 ==> final(self).aggregate()
                == other.aggregate(),
        decreases (if old(self)@.len() < other@.len() { 1int } else { 0int }),
    {
        proof {
            use_type_invariant(&*self);
            use_type_invariant(other);
            lemma_chunk_card(&*self.node, Seq::empty());
            lemma_chunk_card(&*other.node, Seq::empty());
        }
        if rc_ptr_eq(&self.node, &other.node) {
            proof {
                assert(self@.union(other@) =~= self@);
                assert(*self.node == *other.node);
                assert(self@ == other@);
                assert(cloned::<G>(old(self).aggregate(), self.aggregate()));
            }
            return;
        }
        proof {
            if other@.subset_of(self@) {
                vstd::set_lib::lemma_len_subset(other@, self@);
            }
            if exists|x: T| other@ == Set::<T>::empty().insert(x) {
                let x = choose|x: T| other@ == Set::<T>::empty().insert(x);
                assert(other@.len() == 1);
            }
        }
        if self.len() < other.len() {
            let mut other = other.clone();
            std::mem::swap(self, &mut other);
            proof {
                assert(other@.union(self@) =~= self@.union(other@));
            }
            return self.union_agg(&other, as_group);
        }
        let taken = self.take();
        proof {
            use_type_invariant(&taken);
            lemma_chunk_card(&*taken.node, Seq::empty());
        }
        let HashSet { len: _, node } = taken;
        let ghost before = pointee(node);
        let mut new_node = unwrap_or_clone(node);
        proof {
            lemma_same_shape(before, new_node, Seq::empty());
        }
        let ghost start = new_node;
        new_node.union(&other.node, 0, &as_group, Ghost(Seq::empty()));
        let len = new_node.len;
        *self = HashSet { len, node: Rc::new(new_node) };
        proof {
            assert forall|x: T| #[trigger] old(self)@.contains(x) || other@ == Set::<T>::empty().insert(x) implies (other@
                == Set::<T>::empty().insert(x) ==> (old(self)@.contains(x) ==> cloned::<G>(old(self).aggregate(), self.aggregate()))
                && (!old(self)@.contains(x) ==> exists|kept: G|
                #![trigger cloned::<G>(old(self).aggregate(), kept)]
                cloned::<G>(old(self).aggregate(), kept) && adds_leaf(as_group, x, false, kept, self.aggregate()))) by {
                if other@ == Set::<T>::empty().insert(x) {
                    lemma_lone_leaf(pointee(other.node), Seq::empty(), x);
                    assert(adds_leaf(as_group, x, chunk_has(start, x), start.agg, new_node.agg));
                    assert(chunk_has(start, x) == chunk_view(start).contains(x));
                    assert(cloned::<G>(old(self).aggregate(), start.agg));
                    if old(self)@.contains(x) {
                        let g = choose|g: G| #![trigger call_ensures(as_group, (&x,), g)] call_ensures(as_group, (&x,), g)
                            && new_node.agg == (if chunk_has(start, x) { start.agg } else { start.agg.combine(g) });
                        assert(new_node.agg == start.agg);
                    }
                }
            }
            assert(one_element_added(as_group, other@, old(self)@, old(self).aggregate(), self.aggregate()));
        }
    }

    /// Add `t` to the current set, using `as_group` to map it into the group
    /// `G` for updates to the aggregate. Returns whether `t` was new.
    ///
    /// When `t` is new, the aggregate gains `as_group(&t)`; otherwise it is
    /// kept. It is kept as a clone where the set shared its root with another
    /// set (`cloned` also admits the value itself).
    pub fn insert_agg<F: Fn(&T) -> G>(&mut self, t: T, as_group: F) -> (r: bool)
        requires
            old(self)@.len() < usize::MAX,
            forall|x: &T| #[trigger] as_group.requires((x,)),
        ensures
            final(self)@ == old(self)@.insert(t),
            r == !old(self)@.contains(t),
            exists|kept: G, g: G|
                #![trigger cloned::<G>(old(self).aggregate(), kept), call_ensures(as_group, (&t,), g)]
                cloned::<G>(old(self).aggregate(), kept) && call_ensures(as_group, (&t,), g)
                    && final(self).aggregate() == (if old(self)@.contains(t) { kept } else { kept.combine(g) }),
    {
        proof {
            use_type_invariant(&*self);
            lemma_chunk_card(&*self.node, Seq::empty());
        }
        let hash = t.hash_bits();
        let g = as_group(&t);
        let ghost elt = t;
        let taken = self.take();
        proof {
            use_type_invariant(&taken);
            lemma_chunk_card(&*taken.node, Seq::empty());
        }
        let HashSet { len, node } = taken;
        let ghost before = pointee(node);
        let mut chunk = unwrap_or_clone(node);
        let ghost kept = chunk.agg;
        proof {
            lemma_same_shape(before, chunk, Seq::empty());
        }
        let res = chunk.insert(t, hash, 0, &as_group, &g, Ghost(Seq::empty())).is_none();
        let new_len = if res { len + 1 } else { len };
        *self = HashSet { len: new_len, node: Rc::new(chunk) };
        proof {
            assert(cloned::<G>(old(self).aggregate(), kept) && call_ensures(as_group, (&elt,), g));
        }
        res
    }

    /// Remove `t` from the current set, using `as_group` to map it into the
    /// group `G` for updates to the aggregate. Returns whether `t` was present.
    ///
    /// When `t` was present, the aggregate loses `as_group(t)` (its inverse
    /// is added); otherwise it is kept. It is kept as a clone where the set
    /// shared its root with another set.
    pub fn remove_agg<F: Fn(&T) -> G>(&mut self, t: &T, as_group: F) -> (r: bool)
        requires
            forall|x: &T| #[trigger] as_group.requires((x,)),
        ensures
            final(self)@ == old(self)@.remove(*t),
            r == old(self)@.contains(*t),
            exists|kept: G, g: G|
                #![trigger cloned::<G>(old(self).aggregate(), kept), call_ensures(as_group, (t,), g)]
                cloned::<G>(old(self).aggregate(), kept) && call_ensures(as_group, (t,), g)
                    && final(self).aggregate() == (if old(self)@.contains(*t) { kept.combine(g.negate()) } else { kept }),
    {
        proof {
            use_type_invariant(&*self);
        }
        let hash = t.hash_bits();
        let g = as_group(t);
        let taken = self.take();
        proof {
            use_type_invariant(&taken);
            lemma_chunk_card(&*taken.node, Seq::empty());
        }
        let HashSet { len, node } = taken;
        let ghost before = pointee(node);
        let mut chunk = unwrap_or_clone(node);
        let ghost kept = chunk.agg;
        proof {
            lemma_same_shape(before, chunk, Seq::empty());
        }
        let res = chunk.remove(t, hash, 0, &as_group, &g, Ghost(Seq::empty())).is_some();
        let new_len = if res { len - 1 } else { len };
        *self = HashSet { len: new_len, node: Rc::new(chunk) };
        proof {
            assert(cloned::<G>(old(self).aggregate(), kept) && call_ensures(as_group, (t,), g));
        }
        res
    }
}

impl<T: HashKey> HashSet<T> {
    /// Add all elements of `other` to the current set.
    pub fn union(&mut self, other: &HashSet<T>)
        requires
            old(self)@.len() + other@.len() < usize::MAX,
        ensures
            final(self)@ == old(self)@.union(other@),
    {
        self.union_agg(other, |_x: &T| ())
    }

    /// Insert `t` into the set. Returns whether or not a new element was inserted.
    pub fn insert(&mut self, t: T) -> (r: bool)
        requires
            old(self)@.len() < usize::MAX,
        ensures
            final(self)@ == old(self)@.insert(t),
            r == !old(self)@.contains(t),
    {
        self.insert_agg(t, |_x: &T| ())
    }

    /// Remove `t` from the set, if it is there. Returns whether or not `t` was
    /// present.
    pub fn remove(&mut self, t: &T) -> (r: bool)
        ensures
            final(self)@ == old(self)@.remove(*t),
            r == old(self)@.contains(*t),
    {
        self.remove_agg(t, |_x: &T| ())
    }
}

impl<T: HashKey, G: Group + Clone> Clone for HashSet<T, G> {
    /// A copy that shares all of its structure with `self`.
    fn clone(&self) -> (r: Self)
        ensures
            r@ == self@,
            r.aggregate() == self.aggregate(),
    {
        proof {
            use_type_invariant(self);
        }
        HashSet { len: self.len, node: self.node.clone() }
    }
}

impl<T: HashKey, G: Group + Clone> HashSet<T, G> {
    /// The two sets have as many elements, in tries of the same shape with
    /// the same elements in each place (see `chunk_alike`).
    pub closed spec fn same_structure(&self, other: &Self) -> bool {
        self.len == other.len && chunk_alike(*self.node, *other.node)
    }
}

impl<T: HashKey, G: Group + Clone> PartialEq for HashSet<T, G> {
    fn eq(&self, other: &Self) -> (r: bool) {
        proof {
            use_type_invariant(self);
            use_type_invariant(other);
        }
        if self.len != other.len {
            return false;
        }
        if rc_ptr_eq(&self.node, &other.node) {
            proof {
                lemma_chunk_alike_refl(pointee(self.node), seq![]);
            }
            return true;
        }
        self.node.alike(&other.node, Ghost(Seq::empty()))
    }
}

impl<T: HashKey, G: Group + Clone> PartialEqSpecImpl for HashSet<T, G> {
    open spec fn obeys_eq_spec() -> bool {
        true
    }

    open spec fn eq_spec(&self, other: &Self) -> bool {
        self.same_structure(other)
    }
}

/// Two sets compare equal exactly when they hold the same elements: the
/// shape of a set's trie is determined by its elements.
pub proof fn law_equal_exactly_when_same_elements<T: HashKey, G: Group + Clone>(a: HashSet<T, G>, b: HashSet<T, G>)
    requires
        a.well_formed(),
        b.well_formed(),
    ensures
        a.same_structure(&b) <==> a@ == b@,
{
    if a.same_structure(&b) {
        lemma_chunk_alike_view(pointee(a.node), pointee(b.node));
    }
    if a@ == b@ {
        lemma_chunk_canonical(pointee(a.node), pointee(b.node), seq![]);
        lemma_chunk_card(&*a.node, seq![]);
        lemma_chunk_card(&*b.node, seq![]);
    }
}

/// Inserting a key that a set does not hold and removing it again gives a
/// set that compares equal to the one before.
pub proof fn law_insert_then_remove_compares_equal<T: HashKey, G: Group + Clone>(
    s: HashSet<T, G>,
    after: HashSet<T, G>,
    t: T,
)
    requires
        s.well_formed(),
        after.well_formed(),
        !s@.contains(t),
        after@ == s@.insert(t).remove(t),
    ensures
        after.same_structure(&s),
{
    assert(s@.insert(t).remove(t) =~= s@);
    law_equal_exactly_when_same_elements(after, s);
}

impl<T: HashKey, G: Group + Clone> Default for HashSet<T, G> {
    fn default() -> (r: Self)
        ensures
            r@ == Set::<T>::empty(),
    {
        HashSet::new()
    }
}

/// Inserting a key that a set does not hold and then removing it gives back
/// what the set held: the view `insert` and then `remove` leave.
pub proof fn law_insert_then_remove<T: HashKey, G: Group + Clone>(s: HashSet<T, G>, t: T)
    requires
        !s@.contains(t),
    ensures
        s@.insert(t).remove(t) == s@,
{
    assert(s@.insert(t).remove(t) =~= s@);
}

/// Removing a key that a set holds and inserting it again gives back what
/// the set held.
pub proof fn law_remove_then_insert<T: HashKey, G: Group + Clone>(s: HashSet<T, G>, t: T)
    requires
        s@.contains(t),
    ensures
        s@.remove(t).insert(t) == s@,
{
    assert(s@.remove(t).insert(t) =~= s@);
}

/// `a.union(&b)` and `b.union(&a)` leave sets that hold the same elements.
pub proof fn law_union_commutes<T: HashKey, G: Group + Clone>(a: HashSet<T, G>, b: HashSet<T, G>)
    ensures
        a@.union(b@) == b@.union(a@),
{
    assert(a@.union(b@) =~= b@.union(a@));
}

/// Unioning a set with one that holds the same elements, itself or a clone
/// of it, leaves what it holds unchanged.
pub proof fn law_union_with_same_contents<T: HashKey, G: Group + Clone>(a: HashSet<T, G>, b: HashSet<T, G>)
    requires
        a@ == b@,
    ensures
        a@.union(b@) == a@,
{
    assert(a@.union(b@) =~= a@);
}

/// Unioning in a set whose elements are already held leaves what the set
/// holds unchanged.
pub proof fn law_union_of_subset<T: HashKey, G: Group + Clone>(a: HashSet<T, G>, b: HashSet<T, G>)
    requires
        b@.subset_of(a@),
    ensures
        a@.union(b@) == a@,
{
    assert(a@.union(b@) =~= a@);
}


/// The exclusive or of the words `f(x)` over the elements `x` of `s`.
pub open spec fn xor_over<T>(s: Set<T>, f: spec_fn(T) -> u32) -> u32 {
    s.fold(0u32, |acc: u32, x: T| acc ^ f(x))
}

/// Exclusive or of a word into an accumulator gives the same result in
/// either order.
proof fn lemma_xor_fold_commutes<T>(f: spec_fn(T) -> u32)
    ensures
        vstd::set::fold::is_fun_commutative(|acc: u32, x: T| acc ^ f(x)),
{
    let op = |acc: u32, x: T| acc ^ f(x);
    assert forall|a1: T, a2: T, b: u32| #[trigger] op(op(b, a2), a1) == op(op(b, a1), a2) by {
        let (x, y) = (f(a1), f(a2));
        assert((b ^ y) ^ x == (b ^ x) ^ y) by (bit_vector);
    }
}

/// The exclusive or over a set grows by an element's word when the element
/// is added, and shrinks by it when the element is taken out.
proof fn lemma_xor_over_step<T>(s: Set<T>, t: T, f: spec_fn(T) -> u32)
    requires
        s.finite(),
    ensures
        xor_over(Set::<T>::empty(), f) == 0,
        !s.contains(t) ==> xor_over(s.insert(t), f) == xor_over(s, f) ^ f(t),
        s.contains(t) ==> xor_over(s.remove(t), f) == xor_over(s, f) ^ f(t),
{
    let op = |acc: u32, x: T| acc ^ f(x);
    lemma_xor_fold_commutes(f);
    vstd::set::fold::lemma_fold_empty(0u32, op);
    if !s.contains(t) {
        vstd::set::fold::lemma_fold_insert(s, 0u32, op, t);
    } else {
        let r = s.remove(t);
        assert(r.insert(t) =~= s);
        vstd::set::fold::lemma_fold_insert(r, 0u32, op, t);
        let (a, b) = (xor_over(r, f), f(t));
        assert(a == (a ^ b) ^ b) by (bit_vector);
    }
}

/// A new set of words has as its aggregate, zero, the exclusive or over its
/// elements, of which there are none.
pub proof fn law_xor_aggregate_of_new_set<T: HashKey>(s: HashSet<T, XorU32>, f: spec_fn(T) -> u32)
    requires
        s@ == Set::<T>::empty(),
        call_ensures(XorU32::default, (), s.aggregate()),
    ensures
        s.aggregate() == XorU32(xor_over(s@, f)),
{
    lemma_xor_over_step(Set::<T>::empty(), arbitrary(), f);
}

/// In a set of words whose aggregate is the exclusive or of `f` over its
/// elements, inserting `t` with `as_group` giving `f(t)` keeps it so: the
/// aggregate that `insert_agg` leaves is the exclusive or over the new
/// elements. `kept` and `g` are the values its contract names.
pub proof fn law_xor_aggregate_after_insert<T: HashKey>(
    before: HashSet<T, XorU32>,
    after: HashSet<T, XorU32>,
    t: T,
    kept: XorU32,
    g: XorU32,
    f: spec_fn(T) -> u32,
)
    requires
        before.well_formed(),
        before.aggregate() == XorU32(xor_over(before@, f)),
        cloned(before.aggregate(), kept),
        g == XorU32(f(t)),
        after@ == before@.insert(t),
        after.aggregate() == (if before@.contains(t) { kept } else { kept.combine(g) }),
    ensures
        after.aggregate() == XorU32(xor_over(after@, f)),
{
    lemma_chunk_card(&*before.node, seq![]);
    lemma_xor_over_step(before@, t, f);
    if before@.contains(t) {
        assert(before@.insert(t) =~= before@);
    }
}

/// In a set of words whose aggregate is the exclusive or of `f` over its
/// elements, removing `t` with `as_group` giving `f(t)` keeps it so.
pub proof fn law_xor_aggregate_after_remove<T: HashKey>(
    before: HashSet<T, XorU32>,
    after: HashSet<T, XorU32>,
    t: T,
    kept: XorU32,
    g: XorU32,
    f: spec_fn(T) -> u32,
)
    requires
        before.well_formed(),
        before.aggregate() == XorU32(xor_over(before@, f)),
        cloned(before.aggregate(), kept),
        g == XorU32(f(t)),
        after@ == before@.remove(t),
        after.aggregate() == (if before@.contains(t) { kept.combine(g.negate()) } else { kept }),
    ensures
        after.aggregate() == XorU32(xor_over(after@, f)),
{
    lemma_chunk_card(&*before.node, seq![]);
    lemma_xor_over_step(before@, t, f);
    if !before@.contains(t) {
        assert(before@.remove(t) =~= before@);
    }
}

} // verus!
