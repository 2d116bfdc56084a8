//! Pure arithmetic for the actual Go Group.Balance caller. This does not change
//! the staged scheduler's documented clamps, invoke clocks, or issue operations.
use vstd::prelude::*;

use crate::go_time;
use crate::go_time::GoTime;
use crate::shadow::native;
use crate::shadow::native::BalanceRate;

verus! {

/// The balance tick.
pub const TICK_NANOS: i64 = 10_000_000;

/// The zero-rate check precedes both the Group clock and keyspace reads.
#[derive(Clone, Copy, Debug, PartialEq, Eq, Structural)]
pub enum Start {
    /// Either IEEE signed zero returns before consulting a clock or pair.
    NoRate,
    /// The caller must consume its one balance clock and keyspace reads next.
    ReadClock(Rate),
}

/// A nonzero independently computed factor rate, as the interval of its
/// reciprocal. Its constructor does not accept a Go output as proof of rate.
#[derive(Clone, Copy, Debug, PartialEq, Eq, Structural)]
pub struct Rate {
    /// Architecture-specific signed duration, in nanoseconds.
    pub interval: i64,
}

/// Caller outcome after its actual balance clock and keyspace comparison.
#[derive(Clone, Copy, Debug, PartialEq, Eq, Structural)]
pub enum AfterClock {
    /// The whole pair is refused before interval conversion or any list scan.
    CrossKeyspace,
    /// Go reaches integer division by zero. It must not publish a normal caller
    /// envelope; producer unwinding invalidates and releases its owned capture.
    DivideByZero,
    /// A slow interval has not elapsed. Go returns before examining the list.
    Wait {
        /// Architecture-specific signed duration, in nanoseconds.
        interval: i64,
    },
    /// Go evaluates its linked-list/context/quota loop condition. The signed
    /// quota is deliberately not clamped to zero or to physical population.
    Scan {
        /// Architecture-specific signed duration, in nanoseconds.
        interval: i64,
        /// Raw Go int quota on the two supported 64-bit architectures.
        quota: i64,
    },
}

/// Go's quota of redirects in one tick: the last nanosecond of the tick divided
/// by the interval, truncated toward zero, plus one.
pub open spec fn tick_quota(interval: int) -> int {
    if interval > 0 {
        (TICK_NANOS - 1) / interval + 1
    } else {
        1 - (TICK_NANOS - 1) / -interval
    }
}

/// Classify the independently recomputed rate before consuming any caller read.
/// The installed comparator must compare the captured rate separately and may
/// never substitute the captured Go rate to repair a scheduling difference.
pub fn start(rate: BalanceRate) -> (r: Start)
    ensures
        r == (if native::zero_bits(rate.bits) {
            Start::NoRate
        } else {
            Start::ReadClock(Rate { interval: rate.interval })
        }),
{
    if native::is_zero_bits(rate.bits) {
        Start::NoRate
    } else {
        Start::ReadClock(Rate { interval: rate.interval })
    }
}

impl Rate {
    /// What the caller does after its clock and keyspace reads.
    pub open spec fn outcome(self, same_keyspace: bool, now: GoTime, last: GoTime) -> AfterClock {
        let interval = self.interval;
        if !same_keyspace {
            AfterClock::CrossKeyspace
        } else if interval == 0 {
            AfterClock::DivideByZero
        } else if interval < TICK_NANOS * 2 {
            AfterClock::Scan { interval, quota: tick_quota(interval as int) as i64 }
        } else if go_time::saturated(now.difference(last)) >= interval {
            AfterClock::Scan { interval, quota: 1 }
        } else {
            AfterClock::Wait { interval }
        }
    }

    /// Calculate Go's exact next branch from already consumed inputs and the
    /// independently retained last accepted redirect time. This performs no
    /// clock, keyspace, context or production callback read itself.
    pub fn after_clock(self, same_keyspace: bool, now: GoTime, last: GoTime) -> (r: AfterClock)
        ensures
            r == self.outcome(same_keyspace, now, last),
    {
        let interval = self.interval;
        if !same_keyspace {
            return AfterClock::CrossKeyspace;
        }
        if interval == 0 {
            return AfterClock::DivideByZero;
        }
        if interval < TICK_NANOS * 2 {
            AfterClock::Scan { interval, quota: Self::quota(interval) }
        } else if now.sub_nanoseconds(last) >= interval {
            AfterClock::Scan { interval, quota: 1 }
        } else {
            AfterClock::Wait { interval }
        }
    }

    fn quota(interval: i64) -> (r: i64)
        requires
            interval != 0,
        ensures
            r == tick_quota(interval as int),
    {
        proof {
            law_quota_covers_tick(interval as int);
        }
        let last: u64 = 9_999_999;
        if interval > 0 {
            let whole: u64 = last / interval as u64;
            whole as i64 + 1
        } else {
            let length: u64 = if interval == i64::MIN {
                0x8000_0000_0000_0000
            } else {
                (-interval) as u64
            };
            let whole: u64 = last / length;
            1 - whole as i64
        }
    }
}

/// The quota of a positive interval is how many intervals begin within a tick;
/// a negative interval never allows a second redirect, and no quota exceeds the
/// tick's nanoseconds.
pub proof fn law_quota_covers_tick(interval: int)
    requires
        interval != 0,
    ensures
        interval > 0 ==> (tick_quota(interval) - 1) * interval < TICK_NANOS <= tick_quota(interval)
            * interval,
        interval < 0 ==> tick_quota(interval) <= 1,
        -TICK_NANOS < tick_quota(interval) <= TICK_NANOS,
{
    if interval > 0 {
        let whole = (TICK_NANOS - 1) / interval;
        vstd::arithmetic::div_mod::lemma_fundamental_div_mod(TICK_NANOS - 1, interval);
        assert((whole + 1) * interval == interval * whole + interval) by (nonlinear_arith);
        assert(whole * interval == interval * whole) by (nonlinear_arith);
        assert(0 <= whole <= TICK_NANOS - 1) by (nonlinear_arith)
            requires
                whole == (TICK_NANOS - 1) / interval,
                interval > 0,
                TICK_NANOS == 10_000_000,
        ;
    } else {
        let length = -interval;
        let whole = (TICK_NANOS - 1) / length;
        assert(0 <= whole <= TICK_NANOS - 1) by (nonlinear_arith)
            requires
                whole == (TICK_NANOS - 1) / length,
                length > 0,
                TICK_NANOS == 10_000_000,
        ;
    }
}

/// A pair of one keyspace with a nonzero interval is scanned exactly where two ticks
/// are longer than the interval or the interval has passed since the last accepted
/// redirect, and never waits for longer than the interval. A slow interval admits one
/// redirect, a fast one as many as begin within a tick.
pub proof fn law_interval_decides_the_scan(rate: Rate, same_keyspace: bool, now: GoTime, last: GoTime)
    ensures
        ({
            let elapsed = match (now.monotonic, last.monotonic) {
                (Some(a), Some(b)) => a - b,
                _ => (now.seconds - last.seconds) * 1_000_000_000 + now.nanos - last.nanos,
            };
            match rate.outcome(same_keyspace, now, last) {
                AfterClock::CrossKeyspace => !same_keyspace,
                AfterClock::DivideByZero => same_keyspace && rate.interval == 0,
                AfterClock::Wait { interval } => same_keyspace && interval == rate.interval
                    && interval >= 20_000_000 && elapsed < interval,
                AfterClock::Scan { interval, quota } => {
                    &&& same_keyspace
                    &&& interval == rate.interval && interval != 0
                    &&& interval < 20_000_000 || elapsed >= interval
                    &&& interval >= 20_000_000 ==> quota == 1
                    &&& 0 < interval < 20_000_000 ==> (quota - 1) * interval < 10_000_000 <= quota
                        * interval
                    &&& interval < 0 ==> quota <= 1
                },
            }
        }),
{
    if rate.interval != 0 {
        law_quota_covers_tick(rate.interval as int);
    }
}

/// The quota of a negative interval loses one for each of its lengths that ends within
/// a tick.
pub proof fn law_negative_quota(length: int)
    requires
        length > 0,
    ensures
        (1 - tick_quota(-length)) * length < 10_000_000 <= (2 - tick_quota(-length)) * length,
{
    let whole = (TICK_NANOS - 1) / length;
    vstd::arithmetic::div_mod::lemma_fundamental_div_mod(TICK_NANOS - 1, length);
    assert((whole + 1) * length == length * whole + length) by (nonlinear_arith);
    assert(whole * length == length * whole) by (nonlinear_arith);
}

/// A balance ends before its clock exactly where the computed rate is a zero of
/// either sign; otherwise it reads the clock with the computed interval.
pub proof fn law_zero_rates_read_no_clock(rate: BalanceRate, r: Start)
    requires
        call_ensures(start, (rate,), r),
    ensures
        r is NoRate <==> rate.bits == 0 || rate.bits == 0x8000_0000_0000_0000,
        r matches Start::ReadClock(next) ==> next.interval == rate.interval,
{
}

} // verus!
