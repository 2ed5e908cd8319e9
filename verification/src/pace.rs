//! Stride arithmetic.
//!
//! A pace is a rate of at least one, held as an exact fraction, together with
//! the fractional part of the position reached so far. Each step takes the
//! smallest whole stride that carries the position past the next multiple of
//! the rate, so that no rounding error builds up over a run.

use vstd::prelude::*;

verus! {

/// The quotient `x / y` rounded up.
pub open spec fn ceil_div(x: nat, y: nat) -> nat
    recommends
        y > 0,
{
    ((x + y - 1) / (y as int)) as nat
}

/// The mathematical state of one side's pacing: the rate `num / den` and the
/// fractional part `phase / den` of the position.
///
/// A pace with `den == 0` has no rate; it arises when a non-empty side is
/// paired with an empty one.
pub struct Pace {
    pub num: nat,
    pub den: nat,
    pub phase: nat,
}

impl Pace {
    /// The pace of rate one.
    pub open spec fn unit() -> Pace {
        Pace { num: 1, den: 1, phase: 0 }
    }

    /// The pace of rate `longer / shorter`, at position zero.
    pub open spec fn ratio(longer: nat, shorter: nat) -> Pace {
        Pace { num: longer, den: shorter, phase: 0 }
    }

    /// Whether the pace has a rate.
    pub open spec fn defined(self) -> bool {
        self.den > 0
    }

    /// A defined pace has a rate of at least one and a fractional position
    /// below one.
    pub open spec fn wf(self) -> bool {
        if self.den == 0 {
            self.phase == 0
        } else {
            self.den <= self.num && self.phase < self.den
        }
    }

    /// The stride of the next step: the rate divided by what is left of the
    /// current unit of position, rounded up.
    pub open spec fn stride(self) -> nat
        recommends
            self.wf(),
            self.defined(),
    {
        ceil_div(self.num, (self.den - self.phase) as nat)
    }

    /// The pace after one step: the position moves on by the stride times the
    /// rate, and only its fractional part is kept.
    pub open spec fn stepped(self) -> Pace
        recommends
            self.wf(),
            self.defined(),
    {
        Pace {
            num: self.num,
            den: self.den,
            phase: (self.phase + self.stride() * self.num) % self.den,
        }
    }

    /// How far the first `steps` steps reach: the sum of their strides.
    pub open spec fn reach(self, steps: nat) -> nat
        decreases steps,
    {
        if steps == 0 {
            0
        } else {
            self.stride() + self.stepped().reach((steps - 1) as nat)
        }
    }

    /// Whether the pace stands at a whole position with the whole rate
    /// `rate`.
    pub open spec fn whole(self, rate: nat) -> bool {
        &&& self.den > 0
        &&& self.phase == 0
        &&& rate >= 1
        &&& self.num == rate * self.den
    }

    /// The stride is the least whole number of steps of width
    /// `1 - phase / den` that cover the rate; it is at least one and at most
    /// the rate's numerator.
    pub proof fn lemma_stride_least(self)
        requires
            self.wf(),
            self.defined(),
        ensures
            1 <= self.stride() <= self.num,
            self.stride() * (self.den - self.phase) >= self.num,
            (self.stride() - 1) * (self.den - self.phase) < self.num,
            self.stride() == (self.num - 1) / (self.den - self.phase) + 1,
    {
        let gap: int = self.den - self.phase;
        let top: int = self.num - 1;
        vstd::arithmetic::div_mod::lemma_div_plus_one(top, gap);
        vstd::arithmetic::div_mod::lemma_fundamental_div_mod(top, gap);
        vstd::arithmetic::div_mod::lemma_mod_bound(top, gap);
        vstd::arithmetic::div_mod::lemma_div_pos_is_pos(top, gap);
        let q: int = top / gap;
        assert(top + gap == self.num + gap - 1);
        assert(self.stride() == q + 1);
        assert((q + 1) * gap == gap * q + gap) by (nonlinear_arith);
        assert(q * gap == gap * q) by (nonlinear_arith);
        assert(q <= top) by (nonlinear_arith)
            requires
                top == gap * q + top % gap,
                0 <= top % gap,
                gap >= 1,
                q >= 0,
        ;
    }

    /// A step keeps a pace well formed and leaves its rate as it was.
    pub proof fn lemma_stepped_wf(self)
        requires
            self.wf(),
            self.defined(),
        ensures
            self.stepped().wf(),
            self.stepped().defined(),
            self.stepped().num == self.num,
            self.stepped().den == self.den,
    {
        let total: int = (self.phase + self.stride() * self.num) as int;
        assert(self.stride() * self.num >= 0) by (nonlinear_arith)
            requires
                self.stride() >= 0,
                self.num >= 0,
        ;
        vstd::arithmetic::div_mod::lemma_mod_bound(total, self.den as int);
    }

    /// At a whole rate every stride is the rate, and the position stays
    /// whole.
    pub proof fn lemma_whole_rate_strides_evenly(self, rate: nat, steps: nat)
        requires
            self.whole(rate),
        ensures
            self.wf(),
            self.stride() == rate,
            self.stepped() == self,
            self.reach(steps) == steps * rate,
        decreases steps,
    {
        let den: int = self.den as int;
        assert(self.num >= self.den) by (nonlinear_arith)
            requires
                self.num == rate * self.den,
                rate >= 1,
        ;
        self.lemma_stride_least();
        let stride: int = self.stride() as int;
        assert(stride == rate) by (nonlinear_arith)
            requires
                stride * den >= rate * den,
                (stride - 1) * den < rate * den,
                den > 0,
        ;
        assert(stride * self.num == (rate * rate) * den) by (nonlinear_arith)
            requires
                stride == rate,
                self.num == rate * den,
        ;
        vstd::arithmetic::div_mod::lemma_mod_multiples_basic((rate * rate) as int, den);
        assert(self.stepped() == self);
        if steps > 0 {
            self.lemma_whole_rate_strides_evenly(rate, (steps - 1) as nat);
            assert(rate + (steps - 1) * rate == steps * rate) by (nonlinear_arith);
        } else {
            assert(steps * rate == 0) by (nonlinear_arith)
                requires
                    steps == 0,
            ;
        }
    }

    /// The pace of rate one strides by one and stays as it is.
    pub proof fn lemma_unit_steps_by_one()
        ensures
            Pace::unit().wf(),
            Pace::unit().defined(),
            Pace::unit().stride() == 1,
            Pace::unit().stepped() == Pace::unit(),
    {
        Pace::unit().lemma_stride_least();
        Pace::unit().lemma_stepped_wf();
    }
}

/// One side's pacing state.
#[derive(Clone, Copy, Debug)]
pub struct Pacer {
    num: usize,
    den: usize,
    phase: usize,
}

impl View for Pacer {
    type V = Pace;

    closed spec fn view(&self) -> Pace {
        Pace { num: self.num as nat, den: self.den as nat, phase: self.phase as nat }
    }
}

impl Pacer {
    /// A pacer of rate one.
    pub fn unit() -> (pacer: Pacer)
        ensures
            pacer@ == Pace::unit(),
    {
        Pacer { num: 1, den: 1, phase: 0 }
    }

    /// A pacer of rate `longer / shorter`, at position zero. With `shorter`
    /// zero the pacer has no rate.
    pub fn ratio(longer: usize, shorter: usize) -> (pacer: Pacer)
        ensures
            pacer@ == Pace::ratio(longer as nat, shorter as nat),
    {
        Pacer { num: longer, den: shorter, phase: 0 }
    }

    /// Whether the pacer has a rate.
    pub fn is_defined(&self) -> (defined: bool)
        ensures
            defined == self@.defined(),
    {
        self.den > 0
    }

    /// Takes one step and returns its stride.
    pub fn advance(&mut self) -> (stride: usize)
        requires
            old(self)@.wf(),
            old(self)@.defined(),
        ensures
            stride == old(self)@.stride(),
            final(self)@ == old(self)@.stepped(),
    {
        let gap: usize = self.den - self.phase;
        let stride: usize = (self.num - 1) / gap + 1;
        proof {
            self@.lemma_stride_least();
            assert(stride * self.num <= usize::MAX * usize::MAX) by (nonlinear_arith)
                requires
                    0 <= stride <= usize::MAX,
                    0 <= self.num <= usize::MAX,
            ;
            assert(usize::MAX * usize::MAX + usize::MAX <= u128::MAX) by (nonlinear_arith)
                requires
                    usize::MAX <= 0xffff_ffff_ffff_ffff,
                    u128::MAX == 0xffff_ffff_ffff_ffff_ffff_ffff_ffff_ffff,
            ;
        }
        let moved: u128 = (stride as u128) * (self.num as u128);
        let total: u128 = self.phase as u128 + moved;
        let phase: u128 = total % (self.den as u128);
        self.phase = phase as usize;
        stride
    }
}

} // verus!
