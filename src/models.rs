use crate::arith::{floor_div, lemma_lerp_between};
use crate::time::Instant;
use vstd::prelude::*;

verus! {

/// Largest magnitude of a temperature reading, in hundredths of a degree.
pub const MAX_READING: i64 = 1099511627776;

pub open spec fn reading_ok(v: int) -> bool {
    -MAX_READING <= v <= MAX_READING
}

/// A temperature sample: readings on the machine side and on the coke side,
/// in hundredths of a degree.
#[derive(Clone, Copy, Debug, PartialEq, Eq, Structural)]
pub struct TempRecord {
    pub time: Instant,
    pub machine_side: i64,
    pub coke_side: i64,
}

impl TempRecord {
    pub open spec fn wf(self) -> bool {
        self.time.wf() && reading_ok(self.machine_side as int) && reading_ok(self.coke_side as int)
    }
}

/// A point of the series that is integrated: an instant and both readings.
#[derive(Clone, Copy, Debug, PartialEq, Eq, Structural)]
pub struct TimeTempPoint {
    pub time: Instant,
    pub machine: i64,
    pub coke: i64,
}

impl TimeTempPoint {
    pub open spec fn wf(self) -> bool {
        self.time.wf() && reading_ok(self.machine as int) && reading_ok(self.coke as int)
    }
}

/// `prev` lies at or before `target`, and `next` at or after it.
pub open spec fn brackets(prev: Option<TempRecord>, next: Option<TempRecord>, target: Instant) -> bool {
    &&& prev matches Some(p) ==> p.wf() && p.time.secs <= target.secs
    &&& next matches Some(n) ==> n.wf() && target.secs <= n.time.secs
}

/// `a + (b - a) * e / t`, rounded down.
pub open spec fn lerp(a: int, b: int, e: int, t: int) -> int {
    a + (b - a) * e / t
}

/// The reading estimated at `target` from the samples on either side of it:
/// linear in the elapsed time between two samples at distinct instants, the
/// earlier sample where both share an instant, and the one sample held flat
/// where only one side is present.
pub open spec fn interpolation(prev: Option<TempRecord>, next: Option<TempRecord>, target: Instant) -> Option<(i64, i64)> {
    match (prev, next) {
        (Some(p), Some(n)) => if n.time.secs == p.time.secs {
            Some((p.machine_side, p.coke_side))
        } else {
            let e = target.secs - p.time.secs;
            let t = n.time.secs - p.time.secs;
            Some(
                (
                    lerp(p.machine_side as int, n.machine_side as int, e, t) as i64,
                    lerp(p.coke_side as int, n.coke_side as int, e, t) as i64,
                ),
            )
        },
        (Some(p), None) => Some((p.machine_side, p.coke_side)),
        (None, Some(n)) => Some((n.machine_side, n.coke_side)),
        (None, None) => None,
    }
}

fn lerp_exec(a: i64, b: i64, e: i64, t: i64) -> (r: i64)
    requires
        reading_ok(a as int),
        reading_ok(b as int),
        0 <= e <= t,
        0 < t <= 2 * crate::time::MAX_SECS,
    ensures
        r == lerp(a as int, b as int, e as int, t as int),
        reading_ok(r as int),
{
    proof {
        lemma_lerp_between(a as int, b as int, e as int, t as int);
        let d = b - a;
        assert(-0x100_0000_0000_0000_0000_0000 <= d * e <= 0x100_0000_0000_0000_0000_0000)
            by (nonlinear_arith)
            requires
                -0x200_0000_0000 <= d <= 0x200_0000_0000,
                0 <= e <= 0x200_0000_0000,
        ;
    }
    let num: i128 = ((b as i128) - (a as i128)) * (e as i128);
    let q = floor_div(num, t as i128);
    (a as i128 + q) as i64
}

/// Estimates the readings at `target` from the nearest sample at or before it
/// and the nearest sample after it.
pub fn interpolate_temp(prev: &Option<TempRecord>, next: &Option<TempRecord>, target: Instant) -> (r:
    Option<(i64, i64)>)
    requires
        target.wf(),
        brackets(*prev, *next, target),
    ensures
        r == interpolation(*prev, *next, target),
        r matches Some((m, c)) ==> reading_ok(m as int) && reading_ok(c as int),
{
    match (prev, next) {
        (Some(p), Some(n)) => {
            let total = n.time.secs - p.time.secs;
            if total == 0 {
                return Some((p.machine_side, p.coke_side));
            }
            let elapsed = target.secs - p.time.secs;
            let machine = lerp_exec(p.machine_side, n.machine_side, elapsed, total);
            let coke = lerp_exec(p.coke_side, n.coke_side, elapsed, total);
            Some((machine, coke))
        },
        (Some(p), None) => Some((p.machine_side, p.coke_side)),
        (None, Some(n)) => Some((n.machine_side, n.coke_side)),
        (None, None) => None,
    }
}

/// At the instant of a supplied sample the estimate is that sample's readings,
/// whichever neighbour is supplied beside it.
pub proof fn lemma_interpolate_at_sample(s: TempRecord, prev: Option<TempRecord>, next: Option<TempRecord>)
    requires
        s.time.wf(),
        brackets(prev, next, s.time),
        prev == Some(s) || (next == Some(s) && (prev is None || prev.unwrap().time != s.time)),
    ensures
        interpolation(prev, next, s.time) == Some((s.machine_side, s.coke_side)),
{
    if let (Some(p), Some(n)) = (prev, next) {
        if n.time.secs != p.time.secs {
            let e = s.time.secs - p.time.secs;
            let t = n.time.secs - p.time.secs;
            lemma_lerp_between(p.machine_side as int, n.machine_side as int, e as int, t as int);
            lemma_lerp_between(p.coke_side as int, n.coke_side as int, e as int, t as int);
        }
    }
}

/// With a sample on one side only, the estimate is that sample's readings;
/// with none, there is no estimate.
pub proof fn lemma_interpolate_one_side(s: TempRecord, target: Instant)
    ensures
        interpolation(Some(s), None, target) == Some((s.machine_side, s.coke_side)),
        interpolation(None, Some(s), target) == Some((s.machine_side, s.coke_side)),
        interpolation(None, None, target) is None,
{
}

} // verus!
