//! Sampling one interval at cell midpoints.
//!
//! `BoundIter` partitions `[low, high]` into `count` equal-width cells and
//! yields one `Sample` per cell, in increasing cell order: the cell's
//! midpoint and the (constant) cell width `(high - low) / count`.  The width
//! is negative when `high < low`, which represents a reversed integration
//! direction.  `sample_interval` collects the whole sequence at once.

use crate::quad::QuadError;
use crate::rat::{q_add, q_eq, q_in_range, q_int, q_lt, q_mul, q_sub, q_wf, Rat};
use vstd::prelude::*;

verus! {

/// One cell of an equal-width partition: its midpoint and its width.
#[derive(Clone, Copy, Debug, PartialEq, Eq, Structural)]
pub struct Sample {
    /// The midpoint of the cell.
    pub midpoint: Rat,
    /// The signed width of the cell.
    pub width: Rat,
}

/// The exact cell width of the partition: `(high - low) / count`.
pub open spec fn q_width(lo: (int, int), hi: (int, int), n: nat) -> (int, int) {
    (q_sub(hi, lo).0, q_sub(hi, lo).1 * n)
}

/// The step from the lower bound to the midpoint of cell `i`:
/// `(2 * i + 1) / 2` times the cell width.
pub open spec fn q_half_step(w: (int, int), i: nat) -> (int, int) {
    q_mul((2 * (i as int) + 1, 2int), w)
}

/// The exact midpoint of cell `i`: `low + (i + 1/2) * width`.
pub open spec fn q_mid(lo: (int, int), hi: (int, int), n: nat, i: nat) -> (int, int) {
    q_add(lo, q_half_step(q_width(lo, hi, n), i))
}

/// The midpoint of cell `i` fits the `i64` components of `Rat`.
pub open spec fn mid_in_range(lo: (int, int), hi: (int, int), n: nat, i: nat) -> bool {
    &&& 2 * i + 1 <= i64::MAX
    &&& q_in_range(q_half_step(q_width(lo, hi, n), i))
    &&& q_in_range(q_mid(lo, hi, n, i))
}

/// The width and every midpoint of the partition fit the `i64` components
/// of `Rat`, so sampling the whole interval succeeds.
pub open spec fn samples_in_range(lo: (int, int), hi: (int, int), n: nat) -> bool {
    &&& q_in_range(q_sub(hi, lo))
    &&& q_sub(hi, lo).1 * n <= i64::MAX
    &&& forall|i: nat| i < n ==> #[trigger] mid_in_range(lo, hi, n, i)
}

/// Yields the midpoint/width pairs of an equal-width partition of one
/// interval, one cell at a time, in increasing cell order.
#[derive(Clone, Copy, Debug)]
pub struct BoundIter {
    /// The lower bound of the interval.
    pub lo: Rat,
    /// The signed width of one cell.
    pub dx: Rat,
    /// How many cells the partition has.
    pub n: usize,
    /// The index of the next cell to yield.
    pub i: usize,
}

impl BoundIter {
    /// The iterator's invariant: its rationals are well formed and the
    /// cursor has not run past the cell count.
    pub open spec fn wf(self) -> bool {
        self.lo.wf() && self.dx.wf() && self.i <= self.n
    }

    /// Builds the sampler for `[lo, hi]` with `n` cells.  Rejects `n == 0`;
    /// fails with `Overflow` exactly when the cell width does not fit `Rat`.
    pub fn new(lo: Rat, hi: Rat, n: usize) -> (r: Result<BoundIter, QuadError>)
        requires
            lo.wf(),
            hi.wf(),
        ensures
            (r == Err::<BoundIter, QuadError>(QuadError::InvalidResolution)) <==> n == 0,
            (r is Ok) <==> (n >= 1 && q_in_range(q_sub(hi@, lo@)) && q_sub(hi@, lo@).1 * n
                <= i64::MAX),
            r matches Ok(it) ==> it.wf() && it.lo == lo && it.n == n && it.i == 0 && it.dx@
                == q_width(lo@, hi@, n as nat),
            r is Err ==> r == Err::<BoundIter, QuadError>(QuadError::InvalidResolution) || r
                == Err::<BoundIter, QuadError>(QuadError::Overflow),
    {
        if n == 0 {
            return Err(QuadError::InvalidResolution);
        }
        let s = match hi.checked_sub(lo) {
            Some(s) => s,
            None => {
                return Err(QuadError::Overflow);
            },
        };
        proof {
            crate::rat::lemma_i128_den_scale(s.den as int, n as int);
        }
        let d: i128 = (s.den as i128) * (n as i128);
        if d <= i64::MAX as i128 {
            Ok(BoundIter { lo, dx: Rat { num: s.num, den: d as i64 }, n, i: 0 })
        } else {
            Err(QuadError::Overflow)
        }
    }

    /// Yields the next cell, or `Ok(None)` once all `n` cells are spent.
    /// Fails with `Overflow` exactly when the next midpoint does not fit
    /// `Rat`; the cursor then stays where it was.
    pub fn next(&mut self) -> (r: Result<Option<Sample>, QuadError>)
        requires
            old(self).wf(),
        ensures
            final(self).lo == old(self).lo && final(self).dx == old(self).dx && final(self).n
                == old(self).n,
            final(self).wf(),
            old(self).i >= old(self).n ==> r == Ok::<Option<Sample>, QuadError>(None)
                && final(self).i == old(self).i,
            old(self).i < old(self).n ==> {
                &&& (r is Ok) <==> (2 * old(self).i + 1 <= i64::MAX && q_in_range(
                    q_half_step(old(self).dx@, old(self).i as nat),
                ) && q_in_range(q_add(old(self).lo@, q_half_step(old(self).dx@, old(self).i as nat))))
                &&& (r matches Ok(s) ==> s matches Some(smp) && final(self).i == old(self).i + 1
                    && smp.width == old(self).dx && smp.midpoint.wf() && smp.midpoint@ == q_add(
                    old(self).lo@,
                    q_half_step(old(self).dx@, old(self).i as nat),
                ))
                &&& (r is Err ==> r == Err::<Option<Sample>, QuadError>(QuadError::Overflow)
                    && final(self).i == old(self).i)
            },
    {
        if self.i >= self.n {
            return Ok(None);
        }
        let t: i128 = 2 * (self.i as i128) + 1;
        if t > i64::MAX as i128 {
            return Err(QuadError::Overflow);
        }
        proof {
            crate::rat::lemma_i64_prod_bound_gen(t as int, self.dx.num as int);
        }
        let tn: i128 = t * (self.dx.num as i128);
        let td: i128 = 2 * (self.dx.den as i128);
        if tn < i64::MIN as i128 || tn > i64::MAX as i128 || td > i64::MAX as i128 {
            return Err(QuadError::Overflow);
        }
        let step = Rat { num: tn as i64, den: td as i64 };
        let mid = match self.lo.checked_add(step) {
            Some(m) => m,
            None => {
                return Err(QuadError::Overflow);
            },
        };
        let smp = Sample { midpoint: mid, width: self.dx };
        self.i = self.i + 1;
        Ok(Some(smp))
    }
}

/// The midpoint/width pairs of the equal-width partition of `[low, high]`
/// with `count` cells, in increasing cell order.  Yields exactly `count`
/// samples; every sample has the same width, `(high - low) / count`.
pub fn sample_interval(low: Rat, high: Rat, count: usize) -> (r: Result<Vec<Sample>, QuadError>)
    requires
        low.wf(),
        high.wf(),
    ensures
        (r == Err::<Vec<Sample>, QuadError>(QuadError::InvalidResolution)) <==> count == 0,
        count >= 1 && r is Ok ==> samples_in_range(low@, high@, count as nat),
        count >= 1 && samples_in_range(low@, high@, count as nat) ==> r is Ok,
        r matches Ok(v) ==> {
            &&& v@.len() == count
            &&& forall|j: int|
                0 <= j < count ==> (#[trigger] v@[j]).width@ == q_width(
                    low@,
                    high@,
                    count as nat,
                ) && v@[j].width.wf() && v@[j].midpoint.wf() && v@[j].midpoint@ == q_mid(
                    low@,
                    high@,
                    count as nat,
                    j as nat,
                )
        },
        r is Err ==> r == Err::<Vec<Sample>, QuadError>(QuadError::InvalidResolution) || r
            == Err::<Vec<Sample>, QuadError>(QuadError::Overflow),
{
    let mut it = match BoundIter::new(low, high, count) {
        Ok(it) => it,
        Err(e) => {
            return Err(e);
        },
    };
    let mut out: Vec<Sample> = Vec::new();
    loop
        invariant
            it.wf(),
            it.lo == low,
            it.n == count,
            count >= 1,
            it.dx@ == q_width(low@, high@, count as nat),
            it.i == out@.len(),
            it.i <= count,
            q_in_range(q_sub(high@, low@)),
            q_sub(high@, low@).1 * count <= i64::MAX,
            forall|j: nat| j < it.i ==> #[trigger] mid_in_range(low@, high@, count as nat, j),
            forall|j: int|
                0 <= j < out@.len() ==> (#[trigger] out@[j]).width@ == q_width(
                    low@,
                    high@,
                    count as nat,
                ) && out@[j].width.wf() && out@[j].midpoint.wf() && out@[j].midpoint@ == q_mid(
                    low@,
                    high@,
                    count as nat,
                    j as nat,
                ),
        decreases count - it.i,
    {
        let i_before: usize = it.i;
        match it.next() {
            Ok(Some(s)) => {
                proof {
                    assert(mid_in_range(low@, high@, count as nat, i_before as nat));
                }
                out.push(s);
            },
            Ok(None) => {
                proof {
                    assert(samples_in_range(low@, high@, count as nat));
                }
                return Ok(out);
            },
            Err(e) => {
                proof {
                    assert(!mid_in_range(low@, high@, count as nat, i_before as nat));
                    assert(!samples_in_range(low@, high@, count as nat));
                }
                return Err(e);
            },
        }
    }
}

/// The widths of the partition sum to the whole interval: `count` copies of
/// the cell width are exactly `high - low`.
pub proof fn lemma_width_sum(lo: (int, int), hi: (int, int), n: nat)
    requires
        q_wf(lo),
        q_wf(hi),
        n >= 1,
    ensures
        q_eq(q_mul(q_int(n as int), q_width(lo, hi, n)), q_sub(hi, lo)),
{
    let s = q_sub(hi, lo);
    assert((n * s.0) * s.1 == s.0 * (1 * (s.1 * n))) by (nonlinear_arith);
}

/// Every midpoint lies strictly inside the interval when `low < high`.
pub proof fn lemma_midpoint_interior(lo: (int, int), hi: (int, int), n: nat, i: nat)
    requires
        q_wf(lo),
        q_wf(hi),
        n >= 1,
        i < n,
        q_lt(lo, hi),
    ensures
        q_lt(lo, q_mid(lo, hi, n, i)),
        q_lt(q_mid(lo, hi, n, i), hi),
{
    let l0 = lo.0;
    let l1 = lo.1;
    let h0 = hi.0;
    let h1 = hi.1;
    let dd = h0 * l1 - l0 * h1;
    let w1 = l1 * h1 * n;
    let m = q_mid(lo, hi, n, i);
    assert(m.0 == l0 * (2 * w1) + ((2 * i + 1) * dd) * l1 && m.1 == l1 * (2 * w1)) by {
        assert(q_width(lo, hi, n) == (dd, (l1 * h1) * (n as int)));
        assert((l1 * h1) * (n as int) == w1);
    }
    assert(l0 * (l1 * (2 * w1)) < (l0 * (2 * w1) + ((2 * i + 1) * dd) * l1) * l1) by (nonlinear_arith)
        requires
            dd > 0,
            l1 > 0,
            i >= 0,
    ;
    assert((l0 * (2 * w1) + ((2 * i + 1) * dd) * l1) * h1 < h0 * (l1 * (2 * w1)))
        by (nonlinear_arith)
        requires
            dd > 0,
            l1 > 0,
            h1 > 0,
            n >= 1,
            i < n,
            w1 == l1 * h1 * n,
            dd == h0 * l1 - l0 * h1,
    ;
}

} // verus!
