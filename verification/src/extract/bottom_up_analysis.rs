//! A first-in first-out work list that holds each class at most once.
use vstd::prelude::*;
use std::collections::{HashSet, VecDeque};

verus! {

broadcast use vstd::std_specs::hash::group_hash_axioms;

/// The waiting classes after each of the first `k` of `items` is inserted
/// in turn into a queue with the waiting classes `q`.
pub open spec fn after_inserts(q: Seq<usize>, items: Seq<usize>, k: int) -> Seq<usize>
    decreases k,
{
    if k <= 0 {
        q
    } else {
        let p = after_inserts(q, items, k - 1);
        if p.contains(items[k - 1]) {
            p
        } else {
            p.push(items[k - 1])
        }
    }
}

/// A queue of classes in which a class waits at most once: inserting a class
/// that is already waiting does nothing.
pub struct UniqueQueue {
    set: HashSet<usize>,
    queue: VecDeque<usize>,
}

impl View for UniqueQueue {
    type V = Seq<usize>;

    /// The waiting classes, front first.
    closed spec fn view(&self) -> Seq<usize> {
        self.queue@
    }
}

impl UniqueQueue {
    /// The set holds exactly the waiting classes, and none waits twice.
    #[verifier::type_invariant]
    spec fn inv(self) -> bool {
        &&& self.queue@.no_duplicates()
        &&& self.set@ == self.queue@.to_set()
    }

    /// An empty queue.
    pub fn new() -> (q: Self)
        ensures
            q@ == Seq::<usize>::empty(),
    {
        let set: HashSet<usize> = HashSet::new();
        let queue: VecDeque<usize> = VecDeque::new();
        proof {
            assert(queue@.to_set() =~= Set::<usize>::empty());
        }
        UniqueQueue { set, queue }
    }

    /// Moves the contents out, leaving the queue empty.
    fn take(&mut self) -> (r: Self)
        ensures
            r@ == old(self)@,
            final(self)@ == Seq::<usize>::empty(),
    {
        let mut r = UniqueQueue::new();
        std::mem::swap(self, &mut r);
        r
    }

    /// Puts `t` at the back, unless it is already waiting.
    pub fn insert(&mut self, t: usize)
        ensures
            final(self)@ == if old(self)@.contains(t) {
                old(self)@
            } else {
                old(self)@.push(t)
            },
    {
        proof {
            use_type_invariant(&*self);
        }
        let ghost q0 = self.queue@;
        if !self.set.contains(&t) {
            let taken = self.take();
            proof {
                use_type_invariant(&taken);
            }
            let UniqueQueue { mut set, mut queue } = taken;
            set.insert(t);
            queue.push_back(t);
            proof {
                assert(!q0.contains(t)) by {
                    if q0.contains(t) {
                        assert(q0.to_set().contains(t));
                    }
                }
                assert(queue@ == q0.push(t));
                assert forall|i: int, j: int| 0 <= i < queue@.len() && 0 <= j < queue@.len() && i != j implies queue@[i] != queue@[j] by {
                    if i == q0.len() {
                        assert(q0.contains(queue@[j]));
                    } else if j == q0.len() {
                        assert(q0.contains(queue@[i]));
                    }
                }
                assert forall|x: usize| set@.contains(x) <==> queue@.contains(x) by {
                    if q0.contains(x) {
                        let k = choose|k: int| 0 <= k < q0.len() && q0[k] == x;
                        assert(queue@[k] == x);
                    }
                    if x == t {
                        assert(queue@[q0.len() as int] == x);
                    }
                    if queue@.contains(x) {
                        let k = choose|k: int| 0 <= k < queue@.len() && queue@[k] == x;
                        if k < q0.len() {
                            assert(q0[k] == x);
                            assert(q0.to_set().contains(x));
                        }
                    }
                }
                assert(set@ =~= queue@.to_set());
            }
            *self = UniqueQueue { set, queue };
        } else {
            proof {
                assert(q0.to_set().contains(t));
            }
        }
    }

    /// Inserts each of `items` in turn.
    pub fn extend(&mut self, items: Vec<usize>)
        ensures
            final(self)@ == after_inserts(old(self)@, items@, items@.len() as int),
            final(self)@.len() >= old(self)@.len(),
            final(self)@.subrange(0, old(self)@.len() as int) == old(self)@,
            forall|x: usize| final(self)@.contains(x) <==> old(self)@.contains(x) || items@.contains(x),
    {
        let ghost q0 = self@;
        let mut i: usize = 0;
        while i < items.len()
            invariant
                i <= items@.len(),
                self@.len() >= q0.len(),
                self@.subrange(0, q0.len() as int) == q0,
                forall|x: usize| self@.contains(x) <==> q0.contains(x) || items@.subrange(0, i as int).contains(x),
                self@ == after_inserts(q0, items@, i as int),
            decreases items@.len() - i,
        {
            let ghost before = self@;
            assert(forall|x: usize| before.contains(x) <==> q0.contains(x) || items@.subrange(0, i as int).contains(x));
            self.insert(items[i]);
            proof {
                assert(self@.subrange(0, q0.len() as int) =~= q0) by {
                    assert forall|k: int| 0 <= k < q0.len() implies self@[k] == q0[k] by {
                        assert(before.subrange(0, q0.len() as int)[k] == q0[k]);
                    }
                }
                let pre = items@.subrange(0, i as int);
                let pre1 = items@.subrange(0, i + 1);
                assert forall|x: usize| self@.contains(x) <==> before.contains(x) || x == items@[i as int] by {
                    if before.contains(items@[i as int]) {
                        assert(self@ == before);
                    } else {
                        assert(self@ == before.push(items@[i as int]));
                        if before.contains(x) {
                            let k = choose|k: int| 0 <= k < before.len() && before[k] == x;
                            assert(self@[k] == x);
                        }
                        if x == items@[i as int] {
                            assert(self@[before.len() as int] == x);
                        }
                        if self@.contains(x) {
                            let k = choose|k: int| 0 <= k < self@.len() && self@[k] == x;
                            if k < before.len() {
                                assert(before[k] == x);
                            }
                        }
                    }
                }
                assert forall|x: usize| #[trigger] pre1.contains(x) <==> pre.contains(x) || x == items@[i as int] by {
                    if pre.contains(x) {
                        let k = choose|k: int| 0 <= k < pre.len() && pre[k] == x;
                        assert(pre1[k] == x);
                    }
                    if x == items@[i as int] {
                        assert(pre1[i as int] == x);
                    }
                    if pre1.contains(x) {
                        let k = choose|k: int| 0 <= k < pre1.len() && pre1[k] == x;
                        if k < i {
                            assert(pre[k] == x);
                        }
                    }
                }
            }
            let ghost next: int = i + 1;
            proof {
                let pre = items@.subrange(0, i as int);
                let pre1 = items@.subrange(0, next);
                assert forall|x: usize| self@.contains(x) <==> q0.contains(x) || pre1.contains(x) by {
                    assert(self@.contains(x) <==> before.contains(x) || x == items@[i as int]);
                    assert(before.contains(x) <==> q0.contains(x) || pre.contains(x));
                    assert(pre1.contains(x) <==> pre.contains(x) || x == items@[i as int]);
                }
            }
            i = i + 1;
            assert(i as int == next);
        }
        proof {
            let full = items@.subrange(0, items@.len() as int);
            assert(full =~= items@);
            assert forall|x: usize| self@.contains(x) <==> q0.contains(x) || items@.contains(x) by {
                assert(self@.contains(x) <==> q0.contains(x) || full.contains(x));
            }
        }
    }

    /// Takes the class at the front, if any.
    pub fn pop(&mut self) -> (r: Option<usize>)
        ensures
            r is None <==> old(self)@.len() == 0,
            r matches Some(t) ==> t == old(self)@[0] && final(self)@ == old(self)@.drop_first(),
            r is None ==> final(self)@ == old(self)@,
    {
        proof {
            use_type_invariant(&*self);
        }
        let ghost q0 = self.queue@;
        let taken = self.take();
        proof {
            use_type_invariant(&taken);
        }
        let UniqueQueue { mut set, mut queue } = taken;
        let res = queue.pop_front();
        match res {
            Some(t) => {
                set.remove(&t);
                proof {
                    assert(queue@ == q0.drop_first());
                    assert(q0[0] == t);
                    assert forall|x: usize| set@.contains(x) <==> queue@.contains(x) by {
                        if queue@.contains(x) {
                            let k = choose|k: int| 0 <= k < queue@.len() && queue@[k] == x;
                            assert(q0[k + 1] == x);
                            assert(q0.to_set().contains(x));
                        }
                        if q0.contains(x) && x != t {
                            let k = choose|k: int| 0 <= k < q0.len() && q0[k] == x;
                            assert(k != 0);
                            assert(queue@[k - 1] == x);
                        }
                    }
                    assert(set@ =~= queue@.to_set());
                }
            },
            None => {
                proof {
                    assert(queue@ == q0);
                }
            },
        }
        proof {
            assert forall|i: int, j: int| 0 <= i < queue@.len() && 0 <= j < queue@.len() && i != j implies queue@[i] != queue@[j] by {
                if res is Some {
                    assert(queue@[i] == q0[i + 1] && queue@[j] == q0[j + 1]);
                }
            }
        }
        *self = UniqueQueue { set, queue };
        res
    }

    /// Whether no class is waiting.
    pub fn is_empty(&self) -> (r: bool)
        ensures
            r == (self@.len() == 0),
    {
        self.queue.len() == 0
    }
}

impl Default for UniqueQueue {
    fn default() -> (q: Self)
        ensures
            q@ == Seq::<usize>::empty(),
    {
        UniqueQueue::new()
    }
}

} // verus!
