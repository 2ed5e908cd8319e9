//! Forward sources of known length.
//!
//! A source hands out its items one by one, front to back, and can say at any
//! moment how many are still to come. It can also discard a run of items
//! without handing them out.

use vstd::prelude::*;

verus! {

/// The first item of `items`, if there is one.
pub open spec fn head<T>(items: Seq<T>) -> Option<T> {
    if items.len() > 0 {
        Some(items[0])
    } else {
        None
    }
}

/// What is left of `items` once the first `count` of them are gone; nothing
/// is left when there are no more than `count`.
pub open spec fn discard<T>(items: Seq<T>, count: nat) -> Seq<T> {
    if count >= items.len() {
        Seq::empty()
    } else {
        items.skip(count as int)
    }
}

/// Discarding in two runs is discarding once by their sum.
pub proof fn lemma_discard_twice<T>(items: Seq<T>, first: nat, second: nat)
    ensures
        discard(discard(items, first), second) == discard(items, first + second),
{
    assert(discard(discard(items, first), second) =~= discard(items, first + second));
}

/// A forward source that knows how many items it still holds.
pub trait SizedSource: Sized {
    /// What the source hands out.
    type Item;

    /// The source's own invariant.
    spec fn valid(&self) -> bool;

    /// The items still to come, in the order in which they will be handed out.
    spec fn pending(&self) -> Seq<Self::Item>;

    /// The number of items still to come.
    fn remaining(&self) -> (count: usize)
        requires
            self.valid(),
        ensures
            count == self.pending().len(),
    ;

    /// Hands out the next item, or `None` when none is left.
    fn pull(&mut self) -> (item: Option<Self::Item>)
        requires
            old(self).valid(),
        ensures
            final(self).valid(),
            item == head(old(self).pending()),
            final(self).pending() == discard(old(self).pending(), 1),
    ;

    /// Discards the next `count` items, or all that are left if they are
    /// fewer.
    fn advance_by(&mut self, count: usize)
        requires
            old(self).valid(),
        ensures
            final(self).valid(),
            final(self).pending() == discard(old(self).pending(), count as nat),
    ;
}

/// A source that owns its items and hands them out by value.
#[derive(Clone, Debug)]
pub struct VecSource<T> {
    /// The items still to come, last first.
    stack: Vec<T>,
}

impl<T> VecSource<T> {
    /// A source that hands out `items` from the first to the last.
    pub fn new(items: Vec<T>) -> (source: VecSource<T>)
        ensures
            source.valid(),
            source.pending() == items@,
    {
        let ghost all = items@;
        let mut items = items;
        let mut stack: Vec<T> = Vec::new();
        while items.len() > 0
            invariant
                items@.len() + stack@.len() == all.len(),
                forall|i: int| 0 <= i < items@.len() ==> items@[i] == all[i],
                forall|i: int| 0 <= i < stack@.len() ==> stack@[i] == all[all.len() - 1 - i],
            decreases items@.len(),
        {
            match items.pop() {
                Some(item) => stack.push(item),
                None => {},
            }
        }
        let source = VecSource { stack };
        assert(source.pending() =~= all);
        source
    }
}

impl<T> SizedSource for VecSource<T> {
    type Item = T;

    open spec fn valid(&self) -> bool {
        true
    }

    closed spec fn pending(&self) -> Seq<T> {
        Seq::new(self.stack@.len(), |i: int| self.stack@[self.stack@.len() - 1 - i])
    }

    fn remaining(&self) -> (count: usize) {
        self.stack.len()
    }

    fn pull(&mut self) -> (item: Option<T>) {
        let item = self.stack.pop();
        assert(self.pending() =~= discard(old(self).pending(), 1));
        item
    }

    fn advance_by(&mut self, count: usize) {
        let held: usize = self.stack.len();
        if count >= held {
            self.stack.clear();
        } else {
            self.stack.truncate(held - count);
        }
        assert(self.pending() =~= discard(old(self).pending(), count as nat));
    }
}

/// The numbers from `start` up to, not including, `end`; none when `end` is
/// not above `start`.
pub open spec fn range_items(start: usize, end: usize) -> Seq<usize> {
    Seq::new(
        if start <= end {
            (end - start) as nat
        } else {
            0
        },
        |i: int| (start + i) as usize,
    )
}

/// A source of consecutive numbers. It discards a run of them in one step.
#[derive(Clone, Debug)]
pub struct RangeSource {
    next: usize,
    end: usize,
}

impl RangeSource {
    /// A source of the numbers from `start` up to, not including, `end`.
    pub fn new(start: usize, end: usize) -> (source: RangeSource)
        ensures
            source.valid(),
            source.pending() == range_items(start, end),
    {
        if start <= end {
            RangeSource { next: start, end }
        } else {
            let source = RangeSource { next: end, end };
            assert(source.pending() =~= range_items(start, end));
            source
        }
    }
}

impl SizedSource for RangeSource {
    type Item = usize;

    closed spec fn valid(&self) -> bool {
        self.next <= self.end
    }

    closed spec fn pending(&self) -> Seq<usize> {
        range_items(self.next, self.end)
    }

    fn remaining(&self) -> (count: usize) {
        self.end - self.next
    }

    fn pull(&mut self) -> (item: Option<usize>) {
        if self.next < self.end {
            let item: usize = self.next;
            self.next = self.next + 1;
            assert(self.pending() =~= discard(old(self).pending(), 1));
            Some(item)
        } else {
            assert(self.pending() =~= discard(old(self).pending(), 1));
            None
        }
    }

    fn advance_by(&mut self, count: usize) {
        if count >= self.end - self.next {
            self.next = self.end;
        } else {
            self.next = self.next + count;
        }
        assert(self.pending() =~= discard(old(self).pending(), count as nat));
    }
}

} // verus!
