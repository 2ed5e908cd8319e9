//! The mathematical model of a squashed zip.
//!
//! A pairing is what a run still has to work with: the items left on either
//! side and the pace of either side. Everything a run does is a function of
//! it: the pair handed out next, the pairing after that pull, and the whole
//! sequence of pairs up to the end.

use crate::pace::Pace;
use crate::source::{discard, head};
use vstd::prelude::*;

verus! {

/// The state of a squashed zip: the items still to come on either side, and
/// either side's pace.
pub struct Pairing<A, B> {
    pub a: Seq<A>,
    pub b: Seq<B>,
    pub a_pace: Pace,
    pub b_pace: Pace,
}

impl<A, B> Pairing<A, B> {
    /// The pairing at the start of a run over `a` and `b`. The side with
    /// fewer items goes at rate one, the other at the ratio of the two
    /// lengths; sides of equal length both go at rate one.
    ///
    /// Where one side is empty and the other is not, that ratio does not
    /// exist and the pairing is degenerate.
    pub open spec fn start(a: Seq<A>, b: Seq<B>) -> Self {
        if a.len() == b.len() {
            Pairing { a, b, a_pace: Pace::unit(), b_pace: Pace::unit() }
        } else if a.len() < b.len() {
            Pairing { a, b, a_pace: Pace::unit(), b_pace: Pace::ratio(b.len(), a.len()) }
        } else {
            Pairing { a, b, a_pace: Pace::ratio(a.len(), b.len()), b_pace: Pace::unit() }
        }
    }

    /// Whether a side has no rate. A degenerate pairing yields no pairs and
    /// never changes.
    pub open spec fn degenerate(self) -> bool {
        !self.a_pace.defined() || !self.b_pace.defined()
    }

    /// Both paces are well formed, at least one side goes at rate one, and
    /// a degenerate pairing has an empty side.
    pub open spec fn wf(self) -> bool {
        &&& self.a_pace.wf()
        &&& self.b_pace.wf()
        &&& (self.a_pace == Pace::unit() || self.b_pace == Pace::unit())
        &&& (self.degenerate() ==> self.a.len() == 0 || self.b.len() == 0)
    }

    /// The number of pairs that can still come: the smaller of the two
    /// sides' counts.
    pub open spec fn remaining(self) -> nat {
        if self.a.len() <= self.b.len() {
            self.a.len()
        } else {
            self.b.len()
        }
    }

    /// Whether a pull can be answered: both sides have an item, or neither
    /// has. A degenerate pairing is answered without looking at the sides.
    pub open spec fn in_step(self) -> bool {
        self.degenerate() || (self.a.len() == 0) == (self.b.len() == 0)
    }

    /// The pair that the next pull hands out.
    pub open spec fn head(self) -> Option<(A, B)> {
        if self.degenerate() || self.a.len() == 0 || self.b.len() == 0 {
            None
        } else {
            Some((self.a[0], self.b[0]))
        }
    }

    /// The pairing after one pull: each side loses as many items as its
    /// stride says, the first of them being the one handed out, and each
    /// pace takes its step.
    pub open spec fn stepped(self) -> Self {
        if self.degenerate() {
            self
        } else {
            Pairing {
                a: discard(self.a, self.a_pace.stride()),
                b: discard(self.b, self.b_pace.stride()),
                a_pace: self.a_pace.stepped(),
                b_pace: self.b_pace.stepped(),
            }
        }
    }

    /// The pairing after `pulls` pulls.
    pub open spec fn after(self, pulls: nat) -> Self
        decreases pulls,
    {
        if pulls == 0 {
            self
        } else {
            self.stepped().after((pulls - 1) as nat)
        }
    }

    /// Whether a run from here stays in step to its end: the pairing is well
    /// formed, and at no pull does one side have an item while the other has
    /// none.
    pub open spec fn paced(self) -> bool
        decreases self.a.len() + self.b.len(),
    {
        if !self.wf() {
            false
        } else if self.degenerate() {
            true
        } else if self.a.len() == 0 || self.b.len() == 0 {
            self.a.len() == 0 && self.b.len() == 0
        } else {
            proof {
                self.a_pace.lemma_stride_least();
                self.b_pace.lemma_stride_least();
            }
            self.stepped().paced()
        }
    }

    /// The pairs that a run from here hands out, up to the first pull that
    /// finds a side empty.
    pub open spec fn output(self) -> Seq<(A, B)>
        decreases self.a.len() + self.b.len(),
    {
        if !self.wf() || self.degenerate() || self.a.len() == 0 || self.b.len() == 0 {
            Seq::empty()
        } else {
            proof {
                self.a_pace.lemma_stride_least();
                self.b_pace.lemma_stride_least();
            }
            seq![(self.a[0], self.b[0])] + self.stepped().output()
        }
    }

    /// A run starts from a well-formed pairing.
    pub proof fn lemma_start_wf(a: Seq<A>, b: Seq<B>)
        ensures
            Self::start(a, b).wf(),
            Self::start(a, b).degenerate() <==> (a.len() == 0) != (b.len() == 0),
    {
    }

    /// A pull keeps a pairing well formed, and takes at least one item from
    /// each side that has one.
    pub proof fn lemma_stepped_wf(self)
        requires
            self.wf(),
        ensures
            self.stepped().wf(),
            self.stepped().degenerate() == self.degenerate(),
            self.stepped().a.len() <= self.a.len(),
            self.stepped().b.len() <= self.b.len(),
            !self.degenerate() && self.a.len() > 0 ==> self.stepped().a.len() < self.a.len(),
            !self.degenerate() && self.b.len() > 0 ==> self.stepped().b.len() < self.b.len(),
            self.a_pace == Pace::unit() ==> self.stepped().a_pace == Pace::unit(),
            self.b_pace == Pace::unit() ==> self.stepped().b_pace == Pace::unit(),
    {
        if !self.degenerate() {
            self.a_pace.lemma_stride_least();
            self.b_pace.lemma_stride_least();
            self.a_pace.lemma_stepped_wf();
            self.b_pace.lemma_stepped_wf();
            Pace::lemma_unit_steps_by_one();
        }
    }

    /// A run that stays in step does so at this pull and from the next
    /// pairing on.
    pub proof fn lemma_paced_steps(self)
        requires
            self.paced(),
        ensures
            self.wf(),
            self.in_step(),
            self.stepped().paced(),
    {
        self.lemma_stepped_wf();
    }

    /// In a run that stays in step, a side that goes at rate one never has
    /// more items left than the other side.
    pub proof fn lemma_unit_side_is_shorter(self)
        requires
            self.paced(),
            !self.degenerate(),
        ensures
            self.a_pace == Pace::unit() ==> self.a.len() <= self.b.len(),
            self.b_pace == Pace::unit() ==> self.b.len() <= self.a.len(),
        decreases self.a.len() + self.b.len(),
    {
        if self.a.len() > 0 && self.b.len() > 0 {
            self.lemma_stepped_wf();
            Pace::lemma_unit_steps_by_one();
            self.stepped().lemma_unit_side_is_shorter();
        }
    }

    /// A pull that hands out a pair lowers the count of pairs still to come
    /// by exactly one, in a run that stays in step.
    pub proof fn lemma_pull_counts_one(self)
        requires
            self.paced(),
            self.remaining() > 0,
        ensures
            self.head() is Some,
            self.stepped().remaining() == self.remaining() - 1,
    {
        self.lemma_stepped_wf();
        Pace::lemma_unit_steps_by_one();
        self.lemma_unit_side_is_shorter();
        self.stepped().lemma_unit_side_is_shorter();
    }

    /// A run that stays in step hands out exactly as many pairs as the side
    /// with fewer items has items.
    pub proof fn lemma_output_len(self)
        requires
            self.paced(),
        ensures
            self.output().len() == self.remaining(),
        decreases self.a.len() + self.b.len(),
    {
        if self.remaining() > 0 {
            self.lemma_stepped_wf();
            self.lemma_pull_counts_one();
            self.stepped().lemma_output_len();
        }
    }

    /// The pairs of a run are the heads of the pairings it passes through.
    pub proof fn lemma_output_index(self, pulls: nat)
        requires
            self.paced(),
            pulls < self.remaining(),
        ensures
            self.after(pulls).paced(),
            pulls < self.output().len(),
            self.after(pulls).head() == Some(self.output()[pulls as int]),
        decreases pulls,
    {
        self.lemma_output_len();
        self.lemma_pull_counts_one();
        if pulls > 0 {
            self.stepped().lemma_output_index((pulls - 1) as nat);
        }
    }

    /// Sides of equal length are paired item by item: the run stays in step,
    /// skips nothing, and its pairs are those of a plain zip.
    pub proof fn lemma_equal_lengths_zip_plainly(a: Seq<A>, b: Seq<B>)
        requires
            a.len() == b.len(),
        ensures
            Self::start(a, b).paced(),
            Self::start(a, b).output() == Seq::new(a.len(), |i: int| (a[i], b[i])),
        decreases a.len(),
    {
        let run = Self::start(a, b);
        let plain = Seq::new(a.len(), |i: int| (a[i], b[i]));
        Pace::lemma_unit_steps_by_one();
        if a.len() > 0 {
            let a_rest = discard(a, 1);
            let b_rest = discard(b, 1);
            Self::lemma_equal_lengths_zip_plainly(a_rest, b_rest);
            assert(run.stepped() == Self::start(a_rest, b_rest));
            assert(run.output() =~= plain);
        } else {
            assert(run.output() =~= plain);
        }
    }

    /// A run that stays in step ends after exactly as many pulls as the side
    /// with fewer items has items: every pull before that hands out a pair,
    /// the pull after them hands out none, and unless the pairing is
    /// degenerate both sides are empty by then.
    pub proof fn lemma_run_ends_together(self)
        requires
            self.paced(),
        ensures
            forall|pulls: nat| pulls < self.remaining() ==> (#[trigger] self.after(pulls)).head() is Some,
            self.after(self.remaining()).head() is None,
            !self.degenerate() ==> self.after(self.remaining()).a.len() == 0 && self.after(
                self.remaining(),
            ).b.len() == 0,
        decreases self.remaining(),
    {
        if self.remaining() > 0 {
            let rest = self.stepped();
            self.lemma_stepped_wf();
            self.lemma_pull_counts_one();
            rest.lemma_run_ends_together();
            assert(self.after(self.remaining()) == rest.after(rest.remaining()));
            assert forall|pulls: nat| pulls < self.remaining() implies (#[trigger] self.after(
                pulls,
            )).head() is Some by {
                if pulls > 0 {
                    assert(self.after(pulls) == rest.after((pulls - 1) as nat));
                }
            }
        }
    }

    /// The count of pairs still to come never grows from one pull to the
    /// next, and it is zero exactly where a pull hands out nothing.
    pub proof fn lemma_remaining_counts_down(self, pulls: nat)
        requires
            self.wf(),
        ensures
            self.after(pulls).wf(),
            self.after(pulls + 1).remaining() <= self.after(pulls).remaining(),
            self.after(pulls).head() is None <==> self.after(pulls).remaining() == 0,
        decreases pulls,
    {
        self.lemma_stepped_wf();
        if pulls > 0 {
            self.stepped().lemma_remaining_counts_down((pulls - 1) as nat);
            assert(self.after(pulls + 1) == self.stepped().after(pulls));
        } else {
            assert(self.after(1) == self.stepped().after(0));
        }
    }

    /// A run is determined by its inputs: the same two sequences give the
    /// same pairing at the start, after any number of pulls, and the same
    /// pairs.
    pub proof fn lemma_same_inputs_same_run(a: Seq<A>, b: Seq<B>, c: Seq<A>, d: Seq<B>, pulls: nat)
        requires
            a =~= c,
            b =~= d,
        ensures
            Self::start(a, b) == Self::start(c, d),
            Self::start(a, b).after(pulls) == Self::start(c, d).after(pulls),
            Self::start(a, b).output() == Self::start(c, d).output(),
    {
    }

    /// The pairs of a run that stays in step are the pair of the next pull,
    /// then the pairs of the run from the next pairing on.
    pub proof fn lemma_output_unfolds(self)
        requires
            self.paced(),
        ensures
            head(self.output()) == self.head(),
            discard(self.output(), 1) == self.stepped().output(),
    {
        self.lemma_stepped_wf();
        assert(discard(self.output(), 1) =~= self.stepped().output());
    }

    /// Which items a run pairs: the pair of each pull holds, from either
    /// side, the item that the side's strides so far reach.
    pub proof fn lemma_output_places(self, pulls: nat)
        requires
            self.paced(),
            pulls < self.remaining(),
        ensures
            pulls < self.output().len(),
            self.a_pace.reach(pulls) < self.a.len(),
            self.b_pace.reach(pulls) < self.b.len(),
            self.output()[pulls as int] == (
                self.a[self.a_pace.reach(pulls) as int],
                self.b[self.b_pace.reach(pulls) as int],
            ),
        decreases pulls,
    {
        self.lemma_output_len();
        self.lemma_pull_counts_one();
        if pulls > 0 {
            self.stepped().lemma_output_places((pulls - 1) as nat);
        }
    }

    /// Where one side holds a whole multiple of the other side's count, the
    /// run stays in step.
    pub proof fn lemma_whole_ratio_is_paced(self, rate: nat)
        requires
            self.wf(),
            (self.a_pace.whole(rate) && self.b_pace == Pace::unit() && self.a.len() == rate
                * self.b.len()) || (self.b_pace.whole(rate) && self.a_pace == Pace::unit()
                && self.b.len() == rate * self.a.len()),
        ensures
            self.paced(),
        decreases self.a.len() + self.b.len(),
    {
        Pace::lemma_unit_steps_by_one();
        if self.a_pace.whole(rate) && self.b_pace == Pace::unit() && self.a.len() == rate
            * self.b.len() {
            self.a_pace.lemma_whole_rate_strides_evenly(rate, 0);
            assert(rate * (self.b.len() - 1) == rate * self.b.len() - rate) by (nonlinear_arith);
            assert(self.b.len() == 0 ==> rate * self.b.len() == 0) by (nonlinear_arith);
            assert(self.b.len() > 0 ==> rate * self.b.len() >= rate) by (nonlinear_arith)
                requires
                    rate >= 1,
            ;
        } else {
            self.b_pace.lemma_whole_rate_strides_evenly(rate, 0);
            assert(rate * (self.a.len() - 1) == rate * self.a.len() - rate) by (nonlinear_arith);
            assert(self.a.len() == 0 ==> rate * self.a.len() == 0) by (nonlinear_arith);
            assert(self.a.len() > 0 ==> rate * self.a.len() >= rate) by (nonlinear_arith)
                requires
                    rate >= 1,
            ;
        }
        if self.a.len() > 0 && self.b.len() > 0 {
            self.lemma_stepped_wf();
            self.stepped().lemma_whole_ratio_is_paced(rate);
        }
    }

    /// A run whose first side holds `rate` times as many items as its second
    /// stays in step and pairs each item of the second side with every
    /// `rate`-th item of the first.
    pub proof fn lemma_whole_ratio_run_first_longer(a: Seq<A>, b: Seq<B>, rate: nat, pulls: nat)
        requires
            rate >= 1,
            a.len() == rate * b.len(),
            pulls < b.len(),
        ensures
            Self::start(a, b).paced(),
            Self::start(a, b).output().len() == b.len(),
            pulls * rate < a.len(),
            Self::start(a, b).output()[pulls as int] == (a[(pulls * rate) as int], b[pulls as int]),
    {
        let run = Self::start(a, b);
        Self::lemma_start_wf(a, b);
        assert(a.len() >= b.len() && (a.len() == b.len() ==> rate == 1)) by (nonlinear_arith)
            requires
                a.len() == rate * b.len(),
                rate >= 1,
                b.len() > 0,
        ;
        assert(run.a_pace.whole(rate));
        run.lemma_whole_ratio_is_paced(rate);
        run.lemma_output_len();
        run.lemma_output_places(pulls);
        run.a_pace.lemma_whole_rate_strides_evenly(rate, pulls);
        Pace::unit().lemma_whole_rate_strides_evenly(1, pulls);
    }

    /// A run whose second side holds `rate` times as many items as its first
    /// stays in step and pairs each item of the first side with every
    /// `rate`-th item of the second.
    pub proof fn lemma_whole_ratio_run_second_longer(a: Seq<A>, b: Seq<B>, rate: nat, pulls: nat)
        requires
            rate >= 1,
            b.len() == rate * a.len(),
            pulls < a.len(),
        ensures
            Self::start(a, b).paced(),
            Self::start(a, b).output().len() == a.len(),
            pulls * rate < b.len(),
            Self::start(a, b).output()[pulls as int] == (a[pulls as int], b[(pulls * rate) as int]),
    {
        let run = Self::start(a, b);
        Self::lemma_start_wf(a, b);
        assert(b.len() >= a.len() && (a.len() == b.len() ==> rate == 1)) by (nonlinear_arith)
            requires
                b.len() == rate * a.len(),
                rate >= 1,
                a.len() > 0,
        ;
        assert(run.b_pace.whole(rate));
        run.lemma_whole_ratio_is_paced(rate);
        run.lemma_output_len();
        run.lemma_output_places(pulls);
        run.b_pace.lemma_whole_rate_strides_evenly(rate, pulls);
        Pace::unit().lemma_whole_rate_strides_evenly(1, pulls);
    }
}

} // verus!
