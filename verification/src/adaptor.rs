//! The squashed zip over two sources.

use crate::pace::Pacer;
use crate::pairing::Pairing;
use crate::source::{discard, head, lemma_discard_twice, SizedSource};
use vstd::prelude::*;

verus! {

/// Pairs the items of two sources, walking the longer one in strides so that
/// both are used up together.
///
/// Made by [`zip_squash`].
#[derive(Clone, Debug)]
#[must_use]
pub struct ZipSquash<I: SizedSource, J: SizedSource> {
    a: I,
    b: J,
    a_pacer: Pacer,
    b_pacer: Pacer,
}

impl<I: SizedSource, J: SizedSource> View for ZipSquash<I, J> {
    type V = Pairing<I::Item, J::Item>;

    closed spec fn view(&self) -> Pairing<I::Item, J::Item> {
        Pairing {
            a: self.a.pending(),
            b: self.b.pending(),
            a_pace: self.a_pacer@,
            b_pace: self.b_pacer@,
        }
    }
}

/// Hands out the next item of `source` and moves the source on by `stride`
/// items in all. A stride below one still uses up the item handed out.
pub fn pull_stride<S: SizedSource>(source: &mut S, stride: usize) -> (item: Option<S::Item>)
    requires
        old(source).valid(),
    ensures
        final(source).valid(),
        item == head(old(source).pending()),
        final(source).pending() == discard(
            old(source).pending(),
            if stride >= 1 {
                stride as nat
            } else {
                1
            },
        ),
{
    let item = source.pull();
    if stride >= 2 {
        source.advance_by(stride - 1);
        proof {
            lemma_discard_twice(old(source).pending(), 1, (stride - 1) as nat);
        }
    }
    item
}

/// Makes a pair of what the two sides handed out: the pair of the two items,
/// or nothing when both sides had nothing.
pub fn pair_up<A, B>(a: Option<A>, b: Option<B>) -> (pair: Option<(A, B)>)
    requires
        a.is_some() == b.is_some(),
    ensures
        pair == (if a.is_some() {
            Some((a.unwrap(), b.unwrap()))
        } else {
            None
        }),
{
    match (a, b) {
        (Some(x), Some(y)) => Some((x, y)),
        _ => None,
    }
}

/// Zips two sources, skipping items of the longer one so that both are used
/// up together.
///
/// The side with fewer items is walked item by item. The other side is
/// walked at the ratio of the two lengths. Where one side is empty and the
/// other is not, there is no such ratio: the zip then yields no pairs and
/// leaves both sources as they are.
pub fn zip_squash<I: SizedSource, J: SizedSource>(i: I, j: J) -> (zipper: ZipSquash<I, J>)
    requires
        i.valid(),
        j.valid(),
    ensures
        zipper.wf(),
        zipper@ == Pairing::start(i.pending(), j.pending()),
{
    let a_len: usize = i.remaining();
    let b_len: usize = j.remaining();
    proof {
        Pairing::lemma_start_wf(i.pending(), j.pending());
    }
    if a_len == b_len {
        ZipSquash { a: i, b: j, a_pacer: Pacer::unit(), b_pacer: Pacer::unit() }
    } else if a_len < b_len {
        ZipSquash { a: i, b: j, a_pacer: Pacer::unit(), b_pacer: Pacer::ratio(b_len, a_len) }
    } else {
        ZipSquash { a: i, b: j, a_pacer: Pacer::ratio(a_len, b_len), b_pacer: Pacer::unit() }
    }
}

impl<I: SizedSource, J: SizedSource> ZipSquash<I, J> {
    /// Both sources are valid and the pairing is well formed.
    pub closed spec fn wf(&self) -> bool {
        &&& self.a.valid()
        &&& self.b.valid()
        &&& self@.wf()
    }

    /// Whether the next pull can be answered: both sides have an item, or
    /// neither has.
    pub fn in_step(&self) -> (in_step: bool)
        requires
            self.wf(),
        ensures
            in_step == self@.in_step(),
    {
        if !self.a_pacer.is_defined() || !self.b_pacer.is_defined() {
            true
        } else {
            (self.a.remaining() == 0) == (self.b.remaining() == 0)
        }
    }

    /// Whether a run from here stays in step to its end, found by walking
    /// the two counts through the run without touching the sources.
    pub fn is_paced(&self) -> (paced: bool)
        requires
            self.wf(),
        ensures
            paced == self@.paced(),
    {
        if !self.a_pacer.is_defined() || !self.b_pacer.is_defined() {
            return true;
        }
        let mut a_left: usize = self.a.remaining();
        let mut b_left: usize = self.b.remaining();
        let mut a_pacer: Pacer = self.a_pacer;
        let mut b_pacer: Pacer = self.b_pacer;
        let ghost mut run = self@;
        while a_left > 0 && b_left > 0
            invariant
                run.wf(),
                !run.degenerate(),
                run.a.len() == a_left,
                run.b.len() == b_left,
                run.a_pace == a_pacer@,
                run.b_pace == b_pacer@,
                run.paced() == self@.paced(),
            decreases run.a.len(),
        {
            proof {
                run.lemma_stepped_wf();
                run.a_pace.lemma_stride_least();
                run.b_pace.lemma_stride_least();
                run = run.stepped();
            }
            let a_stride: usize = a_pacer.advance();
            let b_stride: usize = b_pacer.advance();
            a_left = if a_stride >= a_left {
                0
            } else {
                a_left - a_stride
            };
            b_left = if b_stride >= b_left {
                0
            } else {
                b_left - b_stride
            };
        }
        a_left == 0 && b_left == 0
    }

    /// Hands out the next pair and moves each side on by its stride, or
    /// returns `None` when no pair is left.
    ///
    /// The two sides must be in step: a pull that finds an item on one side
    /// only has no answer. A zip over an empty and a non-empty side answers
    /// `None` and touches neither source.
    pub fn next(&mut self) -> (pair: Option<(I::Item, J::Item)>)
        requires
            old(self).wf(),
            old(self)@.in_step(),
        ensures
            final(self).wf(),
            pair == old(self)@.head(),
            final(self)@ == old(self)@.stepped(),
            final(self)@.remaining() <= old(self)@.remaining(),
            pair is Some ==> final(self)@.remaining() < old(self)@.remaining(),
            pair is None <==> old(self)@.remaining() == 0,
    {
        proof {
            old(self)@.lemma_stepped_wf();
        }
        if !self.a_pacer.is_defined() || !self.b_pacer.is_defined() {
            return None;
        }
        let a_stride: usize = self.a_pacer.advance();
        let b_stride: usize = self.b_pacer.advance();
        proof {
            old(self)@.a_pace.lemma_stride_least();
            old(self)@.b_pace.lemma_stride_least();
        }
        let a = pull_stride(&mut self.a, a_stride);
        let b = pull_stride(&mut self.b, b_stride);
        pair_up(a, b)
    }

    /// The bounds on the number of pairs still to come: exactly the smaller
    /// of the two sides' counts, as lower and as upper bound.
    pub fn size_hint(&self) -> (hint: (usize, Option<usize>))
        requires
            self.wf(),
        ensures
            hint.0 == self@.remaining(),
            hint.1 == Some(hint.0),
    {
        let a_len: usize = self.a.remaining();
        let b_len: usize = self.b.remaining();
        if a_len <= b_len {
            (a_len, Some(a_len))
        } else {
            (b_len, Some(b_len))
        }
    }
}

/// A squashed zip whose run stays in step is itself a source, of pairs.
impl<I: SizedSource, J: SizedSource> SizedSource for ZipSquash<I, J> {
    type Item = (I::Item, J::Item);

    open spec fn valid(&self) -> bool {
        self.wf() && self@.paced()
    }

    open spec fn pending(&self) -> Seq<(I::Item, J::Item)> {
        self@.output()
    }

    fn remaining(&self) -> (count: usize) {
        proof {
            self@.lemma_output_len();
        }
        self.size_hint().0
    }

    fn pull(&mut self) -> (item: Option<(I::Item, J::Item)>) {
        proof {
            self@.lemma_paced_steps();
            self@.lemma_output_unfolds();
        }
        self.next()
    }

    fn advance_by(&mut self, count: usize) {
        let mut left: usize = count;
        while left > 0 && self.remaining() > 0
            invariant
                self.valid(),
                left <= count,
                self.pending() == discard(old(self).pending(), (count - left) as nat),
            decreases left,
        {
            self.pull();
            proof {
                lemma_discard_twice(old(self).pending(), (count - left) as nat, 1);
            }
            left = left - 1;
        }
        assert(self.pending() =~= discard(old(self).pending(), count as nat));
    }
}

} // verus!
