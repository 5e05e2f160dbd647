//! The tick schedule of a run.
//!
//! A run performs ticks `1..=total`. Every tick but the last advances the
//! stochastic model, pulling each price toward its close over the
//! remaining steps; the last tick forces every price onto its close
//! exactly. The engine spreads a tick's instruments over a fixed worker
//! pool with a balanced partition, and idles out the rest of the cadence
//! budget when a tick finishes early.

use vstd::prelude::*;

verus! {

/// What one tick does to the price table.
#[derive(Clone, Copy, Debug, PartialEq, Eq, Structural)]
pub enum TickAction {
    /// An ordinary model step; `remaining` is the number of ticks still to
    /// come, the divisor of the homing correction.
    Advance { remaining: usize },
    /// The final tick: every price is forced to its close exactly.
    Converge,
}

/// The action of tick `tick` in a run of `total_samples` price samples.
/// Sample 0 is the open snapshot; the ticks are `1..total_samples - 1`,
/// and the last of them converges. Every earlier tick advances the model
/// with `total_samples - tick` remaining steps as the correction divisor,
/// which is always at least two.
pub fn tick_action(tick: usize, total_samples: usize) -> (a: TickAction)
    requires
        2 <= total_samples,
        1 <= tick <= total_samples - 1,
    ensures
        a == (if tick < total_samples - 1 {
            (TickAction::Advance { remaining: (total_samples - tick) as usize })
        } else {
            TickAction::Converge
        }),
        (a matches TickAction::Advance { remaining } ==> remaining >= 2),
{
    if tick < total_samples - 1 {
        TickAction::Advance { remaining: total_samples - tick }
    } else {
        TickAction::Converge
    }
}

/// The whole schedule of a run, in tick order: entry `t` is the action of
/// tick `t + 1`. No tick is skipped and none repeats: the model ticks come
/// first, each with one step fewer remaining than the one before, and the
/// single converging tick ends the run.
pub fn run_schedule(total_samples: usize) -> (schedule: Vec<TickAction>)
    requires
        2 <= total_samples,
    ensures
        schedule@.len() == total_samples - 1,
        forall|t: int|
            0 <= t < schedule@.len() - 1 ==> schedule@[t] == (TickAction::Advance {
                remaining: (total_samples - 1 - t) as usize,
            }),
        schedule@[schedule@.len() - 1] == TickAction::Converge,
{
    let mut schedule: Vec<TickAction> = Vec::new();
    let mut tick: usize = 1;
    while tick < total_samples
        invariant
            2 <= total_samples,
            1 <= tick <= total_samples,
            schedule@.len() == tick - 1,
            forall|t: int|
                0 <= t < schedule@.len() ==> schedule@[t] == (if t < total_samples - 2 {
                    (TickAction::Advance { remaining: (total_samples - 1 - t) as usize })
                } else {
                    TickAction::Converge
                }),
        decreases total_samples - tick,
    {
        schedule.push(tick_action(tick, total_samples));
        tick += 1;
    }
    schedule
}

/// How long the engine idles before the next tick: the unspent part of the
/// cadence budget, or nothing when the tick overran it. Idling never
/// stretches the tick beyond the budget.
pub fn idle_budget(elapsed_ms: u64, budget_ms: u64) -> (idle: u64)
    ensures
        idle == (if elapsed_ms < budget_ms {
            (budget_ms - elapsed_ms) as u64
        } else {
            0u64
        }),
        elapsed_ms + idle >= budget_ms || idle == 0,
{
    if elapsed_ms < budget_ms {
        budget_ms - elapsed_ms
    } else {
        0
    }
}

/// A balanced partition of the instrument slots `0..n` over `workers`
/// workers: consecutive disjoint ranges `r[k].0 .. r[k].1` that cover
/// `0..n` in order, sized within one of each other. Every slot belongs to
/// exactly one worker, so no two workers ever touch the same slot in a
/// tick.
pub fn partition_ranges(n: usize, workers: usize) -> (r: Vec<(usize, usize)>)
    requires
        workers >= 1,
    ensures
        r@.len() == workers,
        (r@[0]).0 == 0,
        (r@[workers as int - 1]).1 == n,
        forall|k: int| 0 <= k < workers ==> (#[trigger] r@[k]).0 <= r@[k].1 <= n,
        forall|k: int| 0 <= k < workers as int - 1 ==> (#[trigger] r@[k]).1 == r@[k + 1].0,
        forall|k: int|
            0 <= k < workers ==> (#[trigger] r@[k]).1 - r@[k].0 == n as int / workers as int + (
            if k < n as int % workers as int {
                1int
            } else {
                0int
            }),
{
    let base = n / workers;
    let rem = n % workers;
    let mut r: Vec<(usize, usize)> = Vec::new();
    let mut start: usize = 0;
    let mut k: usize = 0;
    proof {
        vstd::arithmetic::div_mod::lemma_fundamental_div_mod(n as int, workers as int);
        assert((workers as int) * (base as int) == (base as int) * (workers as int))
            by (nonlinear_arith);
        assert((0int) * (base as int) == 0) by (nonlinear_arith);
    }
    while k < workers
        invariant
            workers >= 1,
            base == n as int / workers as int,
            rem == n as int % workers as int,
            rem < workers,
            n as int == (workers as int) * (base as int) + rem,
            k <= workers,
            r@.len() == k,
            start as int == (k as int) * (base as int) + (if k <= rem {
                k as int
            } else {
                rem as int
            }),
            start <= n,
            k > 0 ==> (r@[0]).0 == 0,
            forall|j: int| 0 <= j < k ==> (#[trigger] r@[j]).0 <= r@[j].1 <= n,
            forall|j: int| 0 <= j < k as int - 1 ==> (#[trigger] r@[j]).1 == r@[j + 1].0,
            k > 0 ==> (r@[k as int - 1]).1 == start,
            forall|j: int|
                0 <= j < k ==> (#[trigger] r@[j]).1 - r@[j].0 == base as int + (if j < rem {
                    1int
                } else {
                    0int
                }),
        decreases workers - k,
    {
        let size = if k < rem {
            proof {
                assert(workers >= 2);
                assert(base as int + 1 <= usize::MAX) by (nonlinear_arith)
                    requires
                        base == n as int / workers as int,
                        workers as int >= 2,
                        0 <= n as int <= usize::MAX,
                ;
            }
            base + 1
        } else {
            base
        };
        proof {
            assert(((k + 1) as int) * (base as int) == (k as int) * (base as int) + (base as int))
                by (nonlinear_arith);
            assert(((k + 1) as int) * (base as int) + (if k + 1 <= rem {
                (k + 1) as int
            } else {
                rem as int
            }) <= (workers as int) * (base as int) + rem) by (nonlinear_arith)
                requires
                    (k as int) + 1 <= workers as int,
                    base >= 0,
                    rem >= 0,
                    (if (k as int) + 1 <= rem {
                        (k as int) + 1
                    } else {
                        rem as int
                    }) <= rem,
            ;
            assert(start as int + size as int <= n);
        }
        let end = start + size;
        r.push((start, end));
        start = end;
        k += 1;
    }
    proof {
        assert(start as int == (workers as int) * (base as int) + rem);
        assert(start == n);
    }
    r
}

} // verus!
