use extraction_gym::val_trie::group::{Group, XorU32};
use extraction_gym::val_trie::hash_key::HashKey;
use extraction_gym::val_trie::set::HashSet;
use std::hash::{Hash, Hasher};

#[derive(Default, Clone, Debug)]
struct AddSum(usize);

impl Group for AddSum {
    fn combine(self, other: Self) -> Self {
        AddSum(self.0.wrapping_add(other.0))
    }

    fn negate(self) -> Self {
        AddSum(0usize.wrapping_sub(self.0))
    }

    fn add(&mut self, other: &Self) {
        self.0 = self.0.wrapping_add(other.0);
    }

    fn sub(&mut self, other: &Self) {
        self.0 = self.0.wrapping_sub(other.0);
    }

    fn inverse(&self) -> Self {
        AddSum(0usize.wrapping_sub(self.0))
    }
}

/// A key whose hash keeps only a few bits, so that many keys collide.
#[derive(Clone, Copy, PartialEq, Eq, Debug, Hash)]
struct Colliding(u64);

impl HashKey for Colliding {
    fn spec_hash(self) -> u32 {
        (self.0 % 7) as u32
    }

    fn hash_bits(&self) -> u32 {
        (self.0 % 7) as u32
    }

    fn key_eq(&self, other: &Self) -> bool {
        self.0 == other.0
    }
}

/// One step of a workload.
enum Op {
    Insert(u64),
    Remove(u64),
    Union(Vec<u64>),
}

fn insert_remove_dense() -> Vec<Op> {
    let mut ops = Vec::new();
    for i in 0..2000u64 {
        ops.push(Op::Insert(i));
    }
    for i in (0..2000u64).step_by(3) {
        ops.push(Op::Remove(i));
    }
    for i in 0..500u64 {
        ops.push(Op::Insert(i));
        ops.push(Op::Remove(i + 1000));
    }
    ops
}

fn insert_remove_sparse() -> Vec<Op> {
    let mut ops = Vec::new();
    let mut x: u64 = 0x9e37_79b9_7f4a_7c15;
    for i in 0..2000u64 {
        x = x.wrapping_mul(6364136223846793005).wrapping_add(1442695040888963407);
        ops.push(Op::Insert(x));
        if i % 4 == 0 {
            ops.push(Op::Remove(x));
        }
        if i % 7 == 0 {
            ops.push(Op::Remove(x.rotate_left(13)));
        }
    }
    ops
}

fn union_no_overlap() -> Vec<Op> {
    let mut ops = Vec::new();
    for i in 0..1000u64 {
        ops.push(Op::Insert(2 * i));
    }
    ops.push(Op::Union((0..1000u64).map(|i| 2 * i + 1).collect()));
    ops.push(Op::Union((5000..5100u64).collect()));
    ops
}

fn union_all_overlap() -> Vec<Op> {
    let mut ops = Vec::new();
    for i in 0..1000u64 {
        ops.push(Op::Insert(i * 31));
    }
    ops.push(Op::Union((0..1000u64).map(|i| i * 31).collect()));
    ops.push(Op::Union((0..500u64).map(|i| i * 31).collect()));
    ops
}

fn union_partial_overlap() -> Vec<Op> {
    let mut ops = Vec::new();
    for i in 0..1000u64 {
        ops.push(Op::Insert(i));
    }
    ops.push(Op::Union((500..1500u64).collect()));
    ops.push(Op::Remove(700));
    ops.push(Op::Union((1400..1600u64).collect()));
    ops
}

/// Runs a workload on the persistent set and on std's set side by side.
fn run_workload<K: HashKey + std::hash::Hash + Eq + std::fmt::Debug>(ops: Vec<Op>, key: fn(u64) -> K) {
    let mut set: HashSet<K> = HashSet::new();
    let mut reference: std::collections::HashSet<K> = std::collections::HashSet::new();
    let mut snapshots: Vec<(HashSet<K>, std::collections::HashSet<K>)> = Vec::new();
    for (step, op) in ops.into_iter().enumerate() {
        match op {
            Op::Insert(k) => {
                assert_eq!(set.insert(key(k)), reference.insert(key(k)));
            }
            Op::Remove(k) => {
                assert_eq!(set.remove(&key(k)), reference.remove(&key(k)));
            }
            Op::Union(ks) => {
                let mut other: HashSet<K> = HashSet::new();
                for k in ks {
                    other.insert(key(k));
                    reference.insert(key(k));
                }
                set.union(&other);
            }
        }
        assert_eq!(set.len(), reference.len());
        if step % 97 == 0 {
            snapshots.push((set.clone(), reference.clone()));
        }
    }
    for k in reference.iter() {
        assert!(set.contains(k));
    }
    let mut seen = 0;
    set.for_each(|k| {
        assert!(reference.contains(k));
        seen += 1;
    });
    assert_eq!(seen, reference.len());
    for (snap, snap_ref) in snapshots {
        assert_eq!(snap.len(), snap_ref.len());
        for k in snap_ref.iter() {
            assert!(snap.contains(k));
        }
    }
}

fn test_hash_set(ops: Vec<Op>) {
    run_workload(ops, |k| k)
}

fn test_hash_set_collision(ops: Vec<Op>) {
    run_workload(ops, Colliding)
}

#[test]
fn inc_sum() {
    const N: usize = 1000;
    let mut set = HashSet::<usize, AddSum>::default();
    let mut to_union = HashSet::<usize, AddSum>::default();

    let mut expected = 0;

    for i in 0..N {
        set.insert_agg(i, |x| AddSum(*x));
        expected += i;
    }
    assert_eq!(expected, set.agg().0);

    for i in (N / 2)..(N * 2) {
        if i >= N {
            expected += i;
        }
        to_union.insert_agg(i, |x| AddSum(*x));
    }
    set.union_agg(&to_union, |x| AddSum(*x));
    assert_eq!(expected, set.agg().0);

    for i in 0..(N * 2) {
        set.remove_agg(&i, |x| AddSum(*x));
    }

    assert_eq!(0, set.agg().0);
}

#[test]
fn tests_insert_remove_hash_dense() {
    test_hash_set(insert_remove_dense())
}

#[test]
fn tests_insert_remove_hash_sparse() {
    test_hash_set(insert_remove_sparse())
}

#[test]
fn tests_insert_remove_hash_dense_collisions() {
    test_hash_set_collision(insert_remove_dense())
}

#[test]
fn tests_insert_remove_hash_sparse_collisions() {
    test_hash_set_collision(insert_remove_sparse())
}

#[test]
fn tests_union_no_overlap() {
    test_hash_set(union_no_overlap())
}

#[test]
fn tests_union_no_overlap_collisions() {
    test_hash_set_collision(union_no_overlap())
}

#[test]
fn tests_union_all_overlap() {
    test_hash_set(union_all_overlap())
}

#[test]
fn tests_union_all_overlap_collisions() {
    test_hash_set_collision(union_all_overlap())
}

#[test]
fn tests_union_partial_overlap() {
    test_hash_set(union_partial_overlap())
}

#[test]
fn tests_union_partial_collisions() {
    test_hash_set_collision(union_partial_overlap())
}

#[test]
fn insert_then_remove_restores_membership() {
    let mut set: HashSet<u64> = HashSet::new();
    assert!(set.is_empty());
    assert!(set.insert(42));
    assert!(!set.insert(42));
    assert!(set.contains(&42));
    assert_eq!(set.len(), 1);
    assert!(set.remove(&42));
    assert!(!set.remove(&42));
    assert!(!set.contains(&42));
    assert!(set.is_empty());
}

#[test]
fn clone_is_unaffected_by_later_changes() {
    let mut set: HashSet<u64> = HashSet::new();
    for i in 0..100 {
        set.insert(i);
    }
    let snapshot = set.clone();
    for i in 0..50 {
        set.remove(&i);
    }
    assert_eq!(snapshot.len(), 100);
    assert_eq!(set.len(), 50);
    assert!(snapshot.contains(&10));
    assert!(!set.contains(&10));
}

#[test]
fn union_with_itself_changes_nothing() {
    let mut set: HashSet<u64> = HashSet::new();
    for i in 0..300 {
        set.insert(i * 7);
    }
    let copy = set.clone();
    set.union(&copy);
    assert_eq!(set.len(), 300);
}

#[test]
fn union_is_commutative_on_contents() {
    let mut a: HashSet<u64> = HashSet::new();
    let mut b: HashSet<u64> = HashSet::new();
    for i in 0..200 {
        a.insert(i);
        b.insert(i + 150);
    }
    let mut ab = a.clone();
    ab.union(&b);
    let mut ba = b.clone();
    ba.union(&a);
    assert_eq!(ab.len(), 350);
    assert_eq!(ba.len(), 350);
    for i in 0..350 {
        assert!(ab.contains(&i));
        assert!(ba.contains(&i));
    }
}

#[test]
fn xor_aggregate_tracks_contents() {
    let mut set: HashSet<u64, XorU32> = HashSet::new();
    set.insert_agg(3, |x| XorU32(*x as u32));
    set.insert_agg(5, |x| XorU32(*x as u32));
    assert_eq!(set.agg().0, 3 ^ 5);
    set.insert_agg(5, |x| XorU32(*x as u32));
    assert_eq!(set.agg().0, 3 ^ 5);
    set.remove_agg(&3, |x| XorU32(*x as u32));
    assert_eq!(set.agg().0, 5);
}

#[test]
fn aggregate_of_a_shared_set_changes_only_in_the_copy() {
    let mut set: HashSet<u64, XorU32> = HashSet::new();
    assert_eq!(set.agg().0, 0);
    for k in 1..40u64 {
        set.insert_agg(k, |x| XorU32(*x as u32));
    }
    let before = set.agg().0;
    let mut copy = set.clone();
    assert!(copy.insert_agg(1000, |x| XorU32(*x as u32)));
    assert_eq!(copy.agg().0, before ^ 1000);
    assert_eq!(set.agg().0, before);
    assert!(!copy.remove_agg(&2000, |x| XorU32(*x as u32)));
    assert_eq!(copy.agg().0, before ^ 1000);
    assert!(copy.remove_agg(&7, |x| XorU32(*x as u32)));
    assert_eq!(copy.agg().0, before ^ 1000 ^ 7);
    assert_eq!(set.agg().0, before);
}

#[test]
fn key_hashes_follow_the_multiply_and_rotate_formula() {
    if usize::BITS == 64 {
        assert_eq!(0u64.hash_bits(), 0);
        assert_eq!(1u64.hash_bits(), 398775787);
        assert_eq!(12345u64.hash_bits(), 1995428123);
        assert_eq!(u64::MAX.hash_bits(), 3963300372);
        assert_eq!(987654321987u64.hash_bits(), 1037045000);
        assert_eq!(12345usize.hash_bits(), 1995428123);
    }
}

#[test]
fn key_hashes_are_the_low_half_of_fxhash() {
    for k in [0u64, 1, 12345, u64::MAX] {
        let mut hasher = rustc_hash::FxHasher::default();
        k.hash(&mut hasher);
        assert_eq!(k.hash_bits(), hasher.finish() as u32);
        let n = k as usize;
        let mut hasher = rustc_hash::FxHasher::default();
        n.hash(&mut hasher);
        assert_eq!(n.hash_bits(), hasher.finish() as u32);
    }
    assert_ne!(12345u64.hash_bits(), 12345u32);
}

#[test]
fn sets_with_the_same_elements_compare_equal() {
    let mut a = HashSet::<u64>::default();
    let mut b = HashSet::<u64>::default();
    for i in 0..200u64 {
        a.insert(i * 7);
    }
    for i in (0..200u64).rev() {
        b.insert(i * 7);
    }
    assert!(a == b);
    let c = a.clone();
    assert!(a == c);
    b.remove(&7);
    assert!(a != b);
    b.insert(8);
    assert!(a != b);
}

#[test]
fn colliding_sets_compare_by_elements() {
    let mut a = HashSet::<Colliding>::default();
    let mut b = HashSet::<Colliding>::default();
    for i in 0..10u64 {
        a.insert(Colliding(i));
        b.insert(Colliding(9 - i));
    }
    assert!(a == b);
    b.remove(&Colliding(3));
    assert!(a != b);
}

#[test]
fn removing_what_was_added_gives_an_equal_set() {
    let mut a = HashSet::<u64>::default();
    for i in 0..50u64 {
        a.insert(i);
    }
    let mut b = a.clone();
    for i in 1000..3000u64 {
        b.insert(i);
    }
    assert!(a != b);
    for i in 1000..3000u64 {
        b.remove(&i);
    }
    assert!(a == b);
    let mut c = HashSet::<Colliding>::default();
    let mut d = HashSet::<Colliding>::default();
    c.insert(Colliding(1));
    d.insert(Colliding(1));
    d.insert(Colliding(8));
    d.insert(Colliding(15));
    d.remove(&Colliding(8));
    d.remove(&Colliding(15));
    assert!(c == d);
}

#[test]
fn elements_lists_each_element_once() {
    let mut s = HashSet::<u64>::default();
    for i in 0..500u64 {
        s.insert(i * 3);
    }
    let mut all = s.elements();
    assert_eq!(all.len(), 500);
    all.sort();
    let expected: Vec<u64> = (0..500u64).map(|i| i * 3).collect();
    assert_eq!(all, expected);
    let mut c = HashSet::<Colliding>::default();
    for i in 0..20u64 {
        c.insert(Colliding(i));
    }
    let mut keys: Vec<u64> = c.elements().iter().map(|k| k.0).collect();
    keys.sort();
    assert_eq!(keys, (0..20u64).collect::<Vec<_>>());
}

#[test]
fn for_each_visits_every_element() {
    let mut s = HashSet::<u64>::default();
    for i in 0..300u64 {
        s.insert(i);
    }
    let mut seen = Vec::new();
    s.for_each(|x| seen.push(*x));
    seen.sort();
    assert_eq!(seen, (0..300u64).collect::<Vec<_>>());
}

#[test]
fn a_clone_is_unchanged_by_later_changes_to_the_original() {
    let mut s = HashSet::<u64>::default();
    for i in 0..40u64 {
        s.insert(i);
    }
    let snapshot = s.clone();
    s.insert(1000);
    s.remove(&3);
    assert_eq!(snapshot.len(), 40);
    assert!(snapshot.contains(&3));
    assert!(!snapshot.contains(&1000));
    let mut again = snapshot.clone();
    assert!(again.insert(77777));
    assert!(again.remove(&77777));
    assert!(again == snapshot);
}

#[test]
fn xor_group_sub_undoes_add() {
    let mut a = XorU32(0b1011);
    a.add(&XorU32(0b0110));
    a.sub(&XorU32(0b0110));
    assert_eq!(a, XorU32(0b1011));
}
