//! A first-in first-out cache bounded by a byte budget, as the font probe
//! keeps its rasterized glyphs: the oldest entries leave while the total is
//! over budget.

use std::collections::VecDeque;
use vstd::prelude::*;

verus! {

/// Sum of the sizes of `s`.
pub open spec fn total_size<T>(s: Seq<(usize, T)>) -> int
    decreases s.len(),
{
    if s.len() == 0 {
        0
    } else {
        total_size(s.drop_last()) + s.last().0
    }
}

/// The queue after pushing `e` and dropping from the front while the total
/// is over `budget`.
pub open spec fn fifo_settle<T>(s: Seq<(usize, T)>, budget: nat) -> Seq<(usize, T)>
    decreases s.len(),
{
    if s.len() > 0 && total_size(s) > budget {
        fifo_settle(s.drop_first(), budget)
    } else {
        s
    }
}

proof fn lemma_total_size_drop_first<T>(s: Seq<(usize, T)>)
    requires
        s.len() > 0,
    ensures
        total_size(s) == s[0].0 + total_size(s.drop_first()),
    decreases s.len(),
{
    if s.len() > 1 {
        lemma_total_size_drop_first(s.drop_last());
        assert(s.drop_last().drop_first() =~= s.drop_first().drop_last());
    } else {
        assert(s.drop_first() =~= Seq::<(usize, T)>::empty());
        assert(s.drop_last() =~= Seq::<(usize, T)>::empty());
    }
}

proof fn lemma_total_size_nonneg<T>(s: Seq<(usize, T)>)
    ensures
        total_size(s) >= 0,
    decreases s.len(),
{
    if s.len() > 0 {
        lemma_total_size_nonneg(s.drop_last());
    }
}

/// A byte-budgeted FIFO of entries with sizes.
pub struct BudgetFifo<T> {
    items: VecDeque<(usize, T)>,
    bytes: usize,
    budget: usize,
}

impl<T> BudgetFifo<T> {
    /// The byte count is the total of the entries.
    pub closed spec fn wf(&self) -> bool {
        self.bytes == total_size(self.items@)
    }

    /// The entries, oldest first.
    pub closed spec fn entries(&self) -> Seq<(usize, T)> {
        self.items@
    }

    /// The byte budget.
    pub closed spec fn budget_of(&self) -> nat {
        self.budget as nat
    }

    /// An empty queue with a byte budget.
    pub fn new(budget: usize) -> (r: BudgetFifo<T>)
        ensures
            r.wf(),
            r.entries() == Seq::<(usize, T)>::empty(),
            r.budget_of() == budget,
    {
        BudgetFifo { items: VecDeque::new(), bytes: 0, budget }
    }

    /// Bytes held.
    pub fn bytes(&self) -> (r: usize)
        requires
            self.wf(),
        ensures
            r == total_size(self.entries()),
    {
        self.bytes
    }

    /// Entries held.
    pub fn len(&self) -> (r: usize)
        ensures
            r == self.entries().len(),
    {
        self.items.len()
    }

    /// Append an entry of `size` bytes, then drop the oldest entries while
    /// the total is over budget. Returns how many were dropped.
    pub fn push(&mut self, size: usize, item: T) -> (r: usize)
        requires
            old(self).wf(),
            total_size(old(self).entries()) + size <= usize::MAX,
        ensures
            final(self).wf(),
            final(self).budget_of() == old(self).budget_of(),
            final(self).entries() == fifo_settle(
                old(self).entries().push((size, item)),
                old(self).budget_of(),
            ),
            total_size(final(self).entries()) <= final(self).budget_of() || final(self).entries().len() == 0,
            r == old(self).entries().len() + 1 - final(self).entries().len(),
    {
        let ghost pushed = self.items@.push((size, item));
        self.items.push_back((size, item));
        self.bytes = self.bytes + size;
        proof {
            assert(pushed.drop_last() =~= old(self).items@);
            assert(self.items@ =~= pushed);
        }
        let start_len: usize = self.items.len();
        while self.bytes > self.budget && self.items.len() > 0
            invariant
                self.bytes == total_size(self.items@),
                fifo_settle(pushed, self.budget as nat) == fifo_settle(self.items@, self.budget as nat),
                self.budget == old(self).budget,
                self.items@.len() <= start_len,
                start_len == old(self).items@.len() + 1,
            decreases self.items@.len(),
        {
            let ghost before = self.items@;
            proof {
                lemma_total_size_drop_first(before);
                lemma_total_size_nonneg(before.drop_first());
            }
            let first_size = match self.items.pop_front() {
                Some((n, _first)) => n,
                None => 0,
            };
            proof {
                assert(self.items@ =~= before.drop_first());
            }
            self.bytes = self.bytes - first_size;
        }
        let dropped: usize = start_len - self.items.len();
        proof {
            if !(self.bytes > self.budget && self.items@.len() > 0) {
                assert(fifo_settle(self.items@, self.budget as nat) == self.items@);
            }
        }
        dropped
    }
}

} // verus!
