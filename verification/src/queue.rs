//! The queue of candidates, served best first: a binary heap in a vector.

use crate::entry::SmallestCostHolder;
use vstd::multiset::Multiset;
use vstd::prelude::*;

verus! {

/// The position above position `i` in the heap.
spec fn above(i: int) -> int {
    (i - 1) / 2
}

/// The candidate at position `i` is not served before the one above it.
spec fn in_order(s: Seq<SmallestCostHolder>, i: int) -> bool {
    !s[i].outranks(s[above(i)])
}

/// No candidate is served before the one above it.
spec fn heap_ordered(s: Seq<SmallestCostHolder>) -> bool {
    forall|i: int| 1 <= i < s.len() ==> #[trigger] in_order(s, i)
}

/// The heap is in order but perhaps around position `hole`: every
/// candidate but the one at `hole` is in order with the one above it, and
/// those below `hole` are in order with the one above `hole`.
spec fn ordered_but_up(s: Seq<SmallestCostHolder>, hole: int) -> bool {
    &&& forall|i: int| 1 <= i < s.len() && i != hole ==> #[trigger] in_order(s, i)
    &&& forall|i: int|
        1 <= i < s.len() && above(i) == hole && hole > 0 ==> !(#[trigger] s[i]).outranks(
            s[above(hole)],
        )
}

/// The heap is in order but perhaps below position `hole`: every candidate
/// that does not stand right below `hole` is in order with the one above
/// it, and those right below `hole` are in order with the one above `hole`.
spec fn ordered_but_down(s: Seq<SmallestCostHolder>, hole: int) -> bool {
    &&& forall|i: int| 1 <= i < s.len() && above(i) != hole ==> #[trigger] in_order(s, i)
    &&& forall|i: int|
        1 <= i < s.len() && above(i) == hole && hole > 0 ==> !(#[trigger] s[i]).outranks(
            s[above(hole)],
        )
}

/// In an ordered heap nothing is served before the candidate at the top.
proof fn lemma_top_is_best(s: Seq<SmallestCostHolder>, i: int)
    requires
        heap_ordered(s),
        0 <= i < s.len(),
    ensures
        !s[i].outranks(s[0]),
    decreases i,
{
    if i > 0 {
        assert(in_order(s, i));
        lemma_top_is_best(s, above(i));
    }
}

/// Overwriting one position of a sequence takes the old value out of its bag
/// and puts the new one in.
proof fn lemma_update_to_multiset(s: Seq<SmallestCostHolder>, i: int, v: SmallestCostHolder)
    requires
        0 <= i < s.len(),
    ensures
        s.update(i, v).to_multiset() =~= s.to_multiset().remove(s[i]).insert(v),
{
    s.to_multiset_ensures();
    let t = s.remove(i);
    t.to_multiset_ensures();
    vstd::seq_lib::to_multiset_insert(t, i, v);
    assert(t.insert(i, v) =~= s.update(i, v));
}

/// Exchanging two positions of a sequence leaves its bag as it is.
proof fn lemma_swap_to_multiset(s: Seq<SmallestCostHolder>, i: int, j: int)
    requires
        0 <= i < s.len(),
        0 <= j < s.len(),
    ensures
        s.update(i, s[j]).update(j, s[i]).to_multiset() =~= s.to_multiset(),
{
    s.to_multiset_ensures();
    let s1 = s.update(i, s[j]);
    lemma_update_to_multiset(s, i, s[j]);
    lemma_update_to_multiset(s1, j, s[i]);
    assert(s.contains(s[i]));
    assert(s.contains(s[j]));
}

/// A bag of candidates. The same candidate may be held several times, and
/// nothing is ever changed in place: a better candidate for a node is simply
/// pushed beside the older ones.
pub struct CostQueue {
    items: Vec<SmallestCostHolder>,
}

impl View for CostQueue {
    type V = Multiset<SmallestCostHolder>;

    closed spec fn view(&self) -> Multiset<SmallestCostHolder> {
        self.items@.to_multiset()
    }
}

impl CostQueue {
    /// The candidates stand in heap order.
    pub closed spec fn wf(&self) -> bool {
        heap_ordered(self.items@)
    }

    /// An empty queue.
    pub fn new() -> (q: Self)
        ensures
            q.wf(),
            q@ == Multiset::<SmallestCostHolder>::empty(),
    {
        let q = CostQueue { items: Vec::new() };
        proof {
            q.items@.to_multiset_ensures();
            assert(q@.len() == 0);
            assert(q@ =~= Multiset::<SmallestCostHolder>::empty());
        }
        q
    }

    /// The number of candidates held, repetitions counted.
    pub fn len(&self) -> (n: usize)
        ensures
            n == self@.len(),
    {
        proof {
            self.items@.to_multiset_ensures();
        }
        self.items.len()
    }

    /// Whether no candidate is held.
    pub fn is_empty(&self) -> (b: bool)
        ensures
            b <==> self@.len() == 0,
    {
        self.len() == 0
    }

    /// Exchanges the candidates at two positions.
    fn exchange(&mut self, i: usize, j: usize)
        requires
            i < old(self).items@.len(),
            j < old(self).items@.len(),
        ensures
            final(self).items@ == old(self).items@.update(i as int, old(self).items@[j as int]).update(
                j as int,
                old(self).items@[i as int],
            ),
            final(self)@ == old(self)@,
    {
        proof {
            lemma_swap_to_multiset(self.items@, i as int, j as int);
        }
        let a = self.items[i];
        let b = self.items[j];
        self.items.set(i, b);
        self.items.set(j, a);
    }

    /// Lets the candidate at `start` rise until the one above it is served
    /// no later.
    fn sift_up(&mut self, start: usize)
        requires
            start < old(self).items@.len(),
            ordered_but_up(old(self).items@, start as int),
        ensures
            final(self).wf(),
            final(self)@ == old(self)@,
    {
        let mut pos = start;
        while pos > 0
            invariant
                pos < self.items@.len(),
                ordered_but_up(self.items@, pos as int),
                self@ == old(self)@,
            ensures
                heap_ordered(self.items@),
                self@ == old(self)@,
            decreases pos,
        {
            let up = (pos - 1) / 2;
            if self.items[pos].precedes(&self.items[up]) {
                let ghost s = self.items@;
                self.exchange(pos, up);
                proof {
                    let t = self.items@;
                    assert forall|i: int| 1 <= i < t.len() && i != up implies #[trigger] in_order(
                        t,
                        i,
                    ) by {
                        if i != pos {
                            assert(in_order(s, i));
                            if above(i) == pos {
                                assert(!s[i].outranks(s[above(pos as int)]));
                            }
                        }
                    }
                    assert forall|i: int|
                        1 <= i < t.len() && above(i) == up && up > 0 implies !(#[trigger] t[i]).outranks(
                        t[above(up as int)],
                    ) by {
                        assert(in_order(s, up as int));
                        if i != pos {
                            assert(in_order(s, i));
                        }
                    }
                }
                pos = up;
            } else {
                proof {
                    assert forall|i: int| 1 <= i < self.items@.len() implies #[trigger] in_order(
                        self.items@,
                        i,
                    ) by {}
                }
                break ;
            }
        }
    }

    /// Lets the candidate at the top sink until none below it is served
    /// before it.
    fn sift_down(&mut self)
        requires
            old(self).items@.len() > 0,
            ordered_but_down(old(self).items@, 0),
        ensures
            final(self).wf(),
            final(self)@ == old(self)@,
    {
        let n = self.items.len();
        let mut pos: usize = 0;
        while pos < n / 2
            invariant
                n == self.items@.len(),
                pos < n,
                ordered_but_down(self.items@, pos as int),
                self@ == old(self)@,
            ensures
                heap_ordered(self.items@),
                self@ == old(self)@,
            decreases n - pos,
        {
            let mut child = 2 * pos + 1;
            if child + 1 < n && self.items[child + 1].precedes(&self.items[child]) {
                child = child + 1;
            }
            if self.items[child].precedes(&self.items[pos]) {
                let ghost s = self.items@;
                self.exchange(pos, child);
                proof {
                    let t = self.items@;
                    assert forall|i: int|
                        1 <= i < t.len() && above(i) != child implies #[trigger] in_order(t, i) by {
                        if above(i) == pos {
                        } else if i == pos {
                            assert(!s[child as int].outranks(s[above(pos as int)]));
                        } else {
                            assert(in_order(s, i));
                        }
                    }
                    assert forall|i: int|
                        1 <= i < t.len() && above(i) == child && child > 0 implies !(
                    #[trigger] t[i]).outranks(t[above(child as int)]) by {
                        assert(in_order(s, i));
                    }
                }
                pos = child;
            } else {
                proof {
                    let s = self.items@;
                    assert forall|i: int| 1 <= i < s.len() implies #[trigger] in_order(s, i) by {}
                }
                break ;
            }
        }
        proof {
            let s = self.items@;
            assert forall|i: int| 1 <= i < s.len() implies #[trigger] in_order(s, i) by {}
        }
    }

    /// Adds one candidate.
    pub fn push(&mut self, entry: SmallestCostHolder)
        requires
            old(self).wf(),
        ensures
            final(self).wf(),
            final(self)@ == old(self)@.insert(entry),
    {
        proof {
            self.items@.to_multiset_ensures();
        }
        let ghost s = self.items@;
        self.items.push(entry);
        proof {
            let t = self.items@;
            assert forall|i: int| 1 <= i < t.len() && i != s.len() implies #[trigger] in_order(
                t,
                i,
            ) by {
                assert(in_order(s, i));
            }
        }
        self.sift_up(self.items.len() - 1);
    }

    /// Takes out a candidate that no other candidate in the queue is served
    /// before, or `None` from an empty queue.
    pub fn pop_best(&mut self) -> (r: Option<SmallestCostHolder>)
        requires
            old(self).wf(),
        ensures
            final(self).wf(),
            match r {
                None => old(self)@.len() == 0 && final(self)@ == old(self)@,
                Some(e) => {
                    &&& old(self)@.count(e) > 0
                    &&& final(self)@ == old(self)@.remove(e)
                    &&& forall|x: SmallestCostHolder| old(self)@.count(x) > 0 ==> !x.outranks(e)
                },
            },
    {
        let ghost s = self.items@;
        proof {
            s.to_multiset_ensures();
        }
        let last = match self.items.pop() {
            Some(last) => last,
            None => { return None; },
        };
        proof {
            assert forall|x: SmallestCostHolder| s.to_multiset().count(x) > 0 implies !x.outranks(
                s[0],
            ) by {
                assert(s.contains(x));
                let k = choose|k: int| 0 <= k < s.len() && s[k] == x;
                lemma_top_is_best(s, k);
            }
            assert(s.contains(s[0]));
            assert(self.items@ =~= s.remove(s.len() - 1));
        }
        if self.items.len() == 0 {
            return Some(last);
        }
        let best = self.items[0];
        let ghost t = self.items@;
        self.items.set(0, last);
        proof {
            let u = self.items@;
            lemma_update_to_multiset(t, 0, last);
            t.to_multiset_ensures();
            assert(t.to_multiset() =~= s.to_multiset().remove(last));
            assert(t.contains(best));
            assert(s.contains(last)) by {
                assert(s[s.len() - 1] == last);
            }
            assert(u.to_multiset() =~= s.to_multiset().remove(best));
            assert forall|i: int| 1 <= i < u.len() && above(i) != 0 implies #[trigger] in_order(
                u,
                i,
            ) by {
                assert(in_order(s, i));
            }
        }
        self.sift_down();
        Some(best)
    }
}

} // verus!
