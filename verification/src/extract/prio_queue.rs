//! A priority queue that hands out its entries cheapest first.
use vstd::prelude::*;
use vstd::multiset::Multiset;

verus! {

broadcast use {vstd::seq_lib::group_to_multiset_ensures, vstd::multiset::group_multiset_axioms};

/// A min-priority queue: entries are pairs of an item and an integer cost,
/// and `pop` hands out an entry of least cost.
pub struct PrioQueue<T> {
    items: Vec<(T, u64)>,
}

impl<T> View for PrioQueue<T> {
    type V = Multiset<(T, u64)>;

    closed spec fn view(&self) -> Multiset<(T, u64)> {
        self.items@.to_multiset()
    }
}

impl<T> PrioQueue<T> {
    /// An empty queue.
    pub fn new() -> (q: Self)
        ensures
            q@ == Multiset::<(T, u64)>::empty(),
    {
        let q = PrioQueue { items: Vec::new() };
        proof {
            assert(q.items@ =~= Seq::<(T, u64)>::empty());
            assert(q.items@.to_multiset() =~= Multiset::<(T, u64)>::empty());
        }
        q
    }

    /// Removes and returns an entry of least cost; `None` when the queue is
    /// empty.
    pub fn pop(&mut self) -> (r: Option<(T, u64)>)
        ensures
            r is None <==> old(self)@.len() == 0,
            r matches Some(e) ==> {
                &&& old(self)@.contains(e)
                &&& final(self)@ == old(self)@.remove(e)
                &&& forall|x: (T, u64)| #[trigger] old(self)@.contains(x) ==> e.1 <= x.1
            },
            r is None ==> final(self)@ == old(self)@,
    {
        if self.items.len() == 0 {
            proof {
                assert(self.items@ =~= Seq::<(T, u64)>::empty());
                assert(self.items@.to_multiset() =~= Multiset::<(T, u64)>::empty());
            }
            return None;
        }
        let mut m: usize = 0;
        let mut j: usize = 1;
        while j < self.items.len()
            invariant
                self.items@.len() > 0,
                m < self.items@.len(),
                1 <= j <= self.items@.len(),
                forall|k: int| 0 <= k < j ==> self.items@[m as int].1 <= #[trigger] self.items@[k].1,
            decreases self.items@.len() - j,
        {
            if self.items[j].1 < self.items[m].1 {
                m = j;
            }
            j = j + 1;
        }
        let ghost before = self.items@;
        let e = self.items.remove(m);
        proof {
            assert(self.items@ == before.remove(m as int));
            assert(before.to_multiset().count(e) > 0) by {
                assert(before.contains(e)) by {
                    assert(before[m as int] == e);
                }
            }
            assert forall|x: (T, u64)| #[trigger] before.to_multiset().contains(x) implies e.1 <= x.1 by {
                assert(before.to_multiset().count(x) > 0);
                assert(before.contains(x));
                let k = choose|k: int| 0 <= k < before.len() && before[k] == x;
                assert(before[m as int].1 <= before[k].1);
            }
            assert(before.len() > 0);
            assert(before.to_multiset().len() > 0);
        }
        Some(e)
    }

    /// Adds item `t` with cost `c`.
    pub fn insert(&mut self, t: T, c: u64)
        ensures
            final(self)@ == old(self)@.insert((t, c)),
    {
        self.items.push((t, c));
    }
}

} // verus!
