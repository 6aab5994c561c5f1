//! The move gate: a repeating interval timer that lets one step through for
//! each full interval of time, however often it is asked.

use vstd::arithmetic::div_mod::{lemma_fundamental_div_mod, lemma_fundamental_div_mod_converse};
use vstd::prelude::*;

verus! {

/// Whether a gate that has gathered `elapsed` lets a step through once
/// `delta` more has passed.
pub open spec fn gate_admits(elapsed: int, interval: int, delta: int) -> bool {
    elapsed + delta >= interval
}

/// What a gate that has gathered `elapsed` holds once `delta` more has
/// passed: the sum, less every full interval in it.
pub open spec fn gate_carry(elapsed: int, interval: int, delta: int) -> int {
    if elapsed + delta < interval {
        elapsed + delta
    } else if interval > 0 {
        (elapsed + delta) % interval
    } else {
        0
    }
}

/// A repeating interval timer. Time is counted in whole units of the
/// caller's choice, the same for the interval and for every tick.
#[derive(Clone, Copy, Debug, PartialEq, Eq, Structural)]
pub struct MoveGate {
    interval: u64,
    elapsed: u64,
}

impl MoveGate {
    /// The length of the interval.
    pub closed spec fn spec_interval(&self) -> int {
        self.interval as int
    }

    /// The time gathered since the last step was let through.
    pub closed spec fn spec_elapsed(&self) -> int {
        self.elapsed as int
    }

    /// The gathered time is less than one interval.
    pub open spec fn wf(&self) -> bool {
        0 <= self.spec_elapsed() && (self.spec_elapsed() < self.spec_interval() || (
        self.spec_interval() == 0 && self.spec_elapsed() == 0))
    }

    /// A gate with the given interval that has gathered no time yet.
    pub fn new(interval: u64) -> (gate: MoveGate)
        ensures
            gate.wf(),
            gate.spec_interval() == interval,
            gate.spec_elapsed() == 0,
    {
        MoveGate { interval, elapsed: 0 }
    }

    /// The length of the interval.
    pub fn interval(&self) -> (t: u64)
        ensures
            t == self.spec_interval(),
    {
        self.interval
    }

    /// The time gathered since the last step was let through.
    pub fn elapsed(&self) -> (t: u64)
        ensures
            t == self.spec_elapsed(),
    {
        self.elapsed
    }

    /// Adds `delta` to the gathered time. Where that reaches the interval, the
    /// gate lets one step through, whatever the number of intervals reached,
    /// and keeps what is left beyond the last full interval.
    pub fn tick(&mut self, delta: u64) -> (admitted: bool)
        requires
            old(self).wf(),
        ensures
            final(self).wf(),
            final(self).spec_interval() == old(self).spec_interval(),
            admitted == gate_admits(old(self).spec_elapsed(), old(self).spec_interval(), delta as int),
            final(self).spec_elapsed() == gate_carry(
                old(self).spec_elapsed(),
                old(self).spec_interval(),
                delta as int,
            ),
    {
        let sum: u128 = self.elapsed as u128 + delta as u128;
        let interval: u128 = self.interval as u128;
        if sum < interval {
            self.elapsed = sum as u64;
            false
        } else if interval > 0 {
            let rest: u128 = sum % interval;
            self.elapsed = rest as u64;
            true
        } else {
            self.elapsed = 0;
            true
        }
    }
}

/// The sum of the first `k` of `deltas`.
pub open spec fn total(deltas: Seq<int>, k: int) -> int
    decreases k,
{
    if k <= 0 {
        0
    } else {
        total(deltas, k - 1) + deltas[k - 1]
    }
}

/// What a gate that starts empty holds after the first `k` ticks of `deltas`.
pub open spec fn carry_after(interval: int, deltas: Seq<int>, k: int) -> int
    decreases k,
{
    if k <= 0 {
        0
    } else {
        gate_carry(carry_after(interval, deltas, k - 1), interval, deltas[k - 1])
    }
}

/// Whether a gate that starts empty lets a step through at tick `k` of `deltas`.
pub open spec fn admits_at(interval: int, deltas: Seq<int>, k: int) -> bool {
    gate_admits(carry_after(interval, deltas, k), interval, deltas[k])
}

/// Rate limiting. A gate starts empty and is ticked by amounts that are each
/// shorter than its interval. Then it holds the time passed so far less the
/// full intervals in it, and it lets a step through at exactly the ticks at
/// which the time passed completes one more interval. So every tick is
/// refused until the time passed reaches the interval, and the tick that
/// reaches it is let through and leaves the time passed less one interval.
pub proof fn lemma_rate_limit(interval: int, deltas: Seq<int>, k: int)
    requires
        0 < interval,
        forall|i: int| 0 <= i < deltas.len() ==> 0 <= #[trigger] deltas[i] < interval,
        0 <= k < deltas.len(),
    ensures
        0 <= total(deltas, k) <= total(deltas, k + 1),
        carry_after(interval, deltas, k) == total(deltas, k) % interval,
        carry_after(interval, deltas, k + 1) == total(deltas, k + 1) % interval,
        admits_at(interval, deltas, k) <==> total(deltas, k + 1) / interval == total(deltas, k)
            / interval + 1,
        !admits_at(interval, deltas, k) <==> total(deltas, k + 1) / interval == total(deltas, k)
            / interval,
        total(deltas, k + 1) < interval ==> !admits_at(interval, deltas, k) && carry_after(
            interval,
            deltas,
            k + 1,
        ) == total(deltas, k + 1),
        total(deltas, k) < interval <= total(deltas, k + 1) ==> admits_at(interval, deltas, k)
            && carry_after(interval, deltas, k + 1) == total(deltas, k + 1) - interval,
    decreases k,
{
    if k > 0 {
        lemma_rate_limit(interval, deltas, k - 1);
    } else {
        lemma_fundamental_div_mod_converse(0, interval, 0, 0);
    }
    let before = total(deltas, k);
    let after = total(deltas, k + 1);
    let d = deltas[k];
    let q = before / interval;
    let r = before % interval;
    assert(after == before + d);
    assert(carry_after(interval, deltas, k) == r);
    lemma_fundamental_div_mod(before, interval);
    assert(before == q * interval + r) by (nonlinear_arith)
        requires
            before == interval * q + r,
    ;
    assert(0 <= r < interval);
    assert(0 <= q) by (nonlinear_arith)
        requires
            before == q * interval + r,
            0 <= before,
            r < interval,
            0 < interval,
    ;
    if r + d < interval {
        lemma_fundamental_div_mod_converse(after, interval, q, r + d);
    } else {
        assert(after == (q + 1) * interval + (r + d - interval)) by (nonlinear_arith)
            requires
                after == q * interval + r + d,
        ;
        lemma_fundamental_div_mod_converse(after, interval, q + 1, r + d - interval);
        lemma_fundamental_div_mod_converse(r + d, interval, 1, r + d - interval);
    }
    if before < interval {
        lemma_fundamental_div_mod_converse(before, interval, 0, before);
    }
    if after < interval {
        lemma_fundamental_div_mod_converse(after, interval, 0, after);
    } else if before < interval {
        lemma_fundamental_div_mod_converse(after, interval, 1, after - interval);
    }
}

} // verus!
