//! Hands out results of parallel work in the order of their inputs: a
//! result that arrives early waits until all results before it are out.
use vstd::prelude::*;

verus! {

/// Results that arrived, keyed by the index of their input, and the index
/// of the next result to hand out.
pub struct OrderedDelivery<T> {
    pending: Vec<(u64, T)>,
    next: u64,
}

/// No index is pending twice, and none is below `next`.
pub open spec fn pending_wf<T>(pending: Seq<(u64, T)>, next: u64) -> bool {
    &&& forall|a: int, b: int| 0 <= a < b < pending.len() ==> #[trigger] pending[a].0 != #[trigger] pending[b].0
    &&& forall|a: int| 0 <= a < pending.len() ==> #[trigger] pending[a].0 >= next
}

impl<T> OrderedDelivery<T> {
    pub closed spec fn wf(&self) -> bool {
        pending_wf(self.pending@, self.next)
    }

    /// The results waiting, with the indexes of their inputs.
    pub closed spec fn pending(&self) -> Seq<(u64, T)> {
        self.pending@
    }

    /// The index of the next result to hand out.
    pub closed spec fn next_spec(&self) -> u64 {
        self.next
    }

    /// Nothing pending; the first result to hand out is that of input `0`.
    pub fn new() -> (r: Self)
        ensures
            r.wf(),
            r.pending() == Seq::<(u64, T)>::empty(),
            r.next_spec() == 0,
    {
        OrderedDelivery { pending: Vec::new(), next: 0 }
    }

    /// The index of the next result to hand out.
    pub fn next(&self) -> (r: u64)
        ensures
            r == self.next_spec(),
    {
        self.next
    }

    /// Whether the result of input `i` is pending.
    pub fn is_pending(&self, i: u64) -> (r: bool)
        ensures
            r == exists|a: int| 0 <= a < self.pending().len() && #[trigger] self.pending()[a].0 == i,
    {
        let n = self.pending.len();
        let mut a: usize = 0;
        while a < n
            invariant
                n == self.pending@.len(),
                0 <= a <= n,
                forall|b: int| 0 <= b < a ==> #[trigger] self.pending@[b].0 != i,
            decreases n - a,
        {
            if self.pending[a].0 == i {
                assert(self.pending()[a as int].0 == i);
                return true;
            }
            a = a + 1;
        }
        false
    }

    /// Records the result of input `i`, which has not been handed out nor
    /// recorded before.
    pub fn push(&mut self, i: u64, data: T)
        requires
            old(self).wf(),
            i >= old(self).next_spec(),
            forall|a: int| 0 <= a < old(self).pending().len() ==> #[trigger] old(self).pending()[a].0 != i,
        ensures
            final(self).wf(),
            final(self).pending() == old(self).pending().push((i, data)),
            final(self).next_spec() == old(self).next_spec(),
    {
        self.pending.push((i, data));
        proof {
            let p = self.pending@;
            assert forall|a: int, b: int| 0 <= a < b < p.len() implies #[trigger] p[a].0 != #[trigger] p[b].0 by {
                if b == p.len() - 1 {
                    assert(old(self).pending@[a] == p[a]);
                    assert(old(self).pending()[a].0 != i);
                } else {
                    assert(old(self).pending@[a] == p[a] && old(self).pending@[b] == p[b]);
                    assert(old(self).pending@[a].0 != old(self).pending@[b].0);
                }
            }
            assert forall|a: int| 0 <= a < p.len() implies #[trigger] p[a].0 >= self.next by {
                if a < p.len() - 1 {
                    assert(old(self).pending@[a] == p[a]);
                }
            }
        }
    }

    /// Hands out the result of input `next` where it has arrived, and moves
    /// on to the following input; else hands out nothing.
    pub fn pop(&mut self) -> (r: Option<T>)
        requires
            old(self).wf(),
            old(self).next_spec() < u64::MAX,
        ensures
            final(self).wf(),
            match r {
                Some(d) => exists|a: int| {
                    &&& 0 <= a < old(self).pending().len()
                    &&& #[trigger] old(self).pending()[a] == (old(self).next_spec(), d)
                    &&& final(self).pending() == old(self).pending().remove(a)
                    &&& final(self).next_spec() == old(self).next_spec() + 1
                },
                None => {
                    &&& forall|a: int| 0 <= a < old(self).pending().len() ==> #[trigger] old(self).pending()[a].0 != old(self).next_spec()
                    &&& final(self).pending() == old(self).pending()
                    &&& final(self).next_spec() == old(self).next_spec()
                },
            },
    {
        let n = self.pending.len();
        let cur = self.next;
        let mut a: usize = 0;
        while a < n
            invariant
                n == self.pending@.len(),
                0 <= a <= n,
                *self == *old(self),
                pending_wf(self.pending@, self.next),
                cur == self.next,
                cur < u64::MAX,
                forall|b: int| 0 <= b < a ==> #[trigger] self.pending@[b].0 != self.next,
            decreases n - a,
        {
            if self.pending[a].0 == self.next {
                let ghost before = self.pending@;
                assert(pending_wf(before, cur));
                let (_, d) = self.pending.remove(a);
                self.next = cur + 1;
                proof {
                    let p = self.pending@;
                    assert(p == before.remove(a as int));
                    assert forall|x: int, y: int| 0 <= x < y < p.len() implies #[trigger] p[x].0 != #[trigger] p[y].0 by {
                        let x0 = if x < a { x } else { x + 1 };
                        let y0 = if y < a { y } else { y + 1 };
                        assert(p[x] == before[x0] && p[y] == before[y0]);
                        assert(x0 < y0);
                        assert(before[x0].0 != before[y0].0);
                    }
                    assert forall|x: int| 0 <= x < p.len() implies #[trigger] p[x].0 >= self.next by {
                        let x0 = if x < a { x } else { x + 1 };
                        assert(p[x] == before[x0]);
                        assert(x0 != a);
                        if x0 < a {
                            assert(before[x0].0 != before[a as int].0);
                        } else {
                            assert(before[a as int].0 != before[x0].0);
                        }
                        assert(before[x0].0 >= cur);
                    }
                    assert(before[a as int] == (old(self).next, d));
                    assert(old(self).pending()[a as int] == (old(self).next_spec(), d));
                    assert(self.pending() == old(self).pending().remove(a as int));
                }
                return Some(d);
            }
            a = a + 1;
        }
        None
    }
}

} // verus!
