use crate::models::{reading_ok, TimeTempPoint, MAX_READING};
use crate::arith::MAX_NUMERATOR;
use crate::time::MAX_SECS;
use vstd::arithmetic::div_mod::{lemma_div_is_ordered, lemma_div_multiples_vanish};
use vstd::prelude::*;

verus! {

/// Each point lies at or after the one before it, and all are well formed.
pub open spec fn valid_series(pts: Seq<TimeTempPoint>) -> bool {
    &&& forall|i: int| 0 <= i < pts.len() ==> (#[trigger] pts[i]).wf()
    &&& forall|i: int| 0 < i < pts.len() ==> pts[i - 1].time.secs <= (#[trigger] pts[i]).time.secs
}

/// Twice the trapezoidal area under the machine-side readings, in
/// hundredths of a degree times seconds.
pub open spec fn machine_area(pts: Seq<TimeTempPoint>) -> int
    decreases pts.len(),
{
    if pts.len() < 2 {
        0
    } else {
        let n = pts.len() as int;
        machine_area(pts.drop_last()) + (pts[n - 2].machine + pts[n - 1].machine) * (
        pts[n - 1].time.secs - pts[n - 2].time.secs)
    }
}

/// Twice the trapezoidal area under the coke-side readings.
pub open spec fn coke_area(pts: Seq<TimeTempPoint>) -> int
    decreases pts.len(),
{
    if pts.len() < 2 {
        0
    } else {
        let n = pts.len() as int;
        coke_area(pts.drop_last()) + (pts[n - 2].coke + pts[n - 1].coke) * (pts[n - 1].time.secs
            - pts[n - 2].time.secs)
    }
}

/// The summed durations, in seconds, of the adjacent pairs.
pub open spec fn span(pts: Seq<TimeTempPoint>) -> int
    decreases pts.len(),
{
    if pts.len() < 2 {
        0
    } else {
        let n = pts.len() as int;
        span(pts.drop_last()) + (pts[n - 1].time.secs - pts[n - 2].time.secs)
    }
}

/// The time-weighted average of each channel, rounded down; the first
/// point's readings where the series covers no time.
pub open spec fn average(pts: Seq<TimeTempPoint>) -> (int, int) {
    let t = span(pts);
    if t == 0 {
        (pts[0].machine as int, pts[0].coke as int)
    } else {
        (machine_area(pts) / (2 * t), coke_area(pts) / (2 * t))
    }
}

/// Largest magnitude of twice the area under readings over `t` seconds:
/// `2 * MAX_READING * t`.
pub open spec fn area_bound(t: int) -> int {
    2199023255552 * t
}

pub proof fn lemma_span_telescopes(pts: Seq<TimeTempPoint>)
    requires
        pts.len() >= 1,
    ensures
        span(pts) == pts[pts.len() - 1].time.secs - pts[0].time.secs,
    decreases pts.len(),
{
    if pts.len() >= 2 {
        lemma_span_telescopes(pts.drop_last());
    }
}

proof fn lemma_integral_step(pts: Seq<TimeTempPoint>, i: int)
    requires
        0 <= i,
        i + 1 < pts.len(),
    ensures
        ({
            let (pre, post) = (pts.take(i + 1), pts.take(i + 2));
            let d = pts[i + 1].time.secs - pts[i].time.secs;
            &&& machine_area(post) == machine_area(pre) + (pts[i].machine + pts[i + 1].machine) * d
            &&& coke_area(post) == coke_area(pre) + (pts[i].coke + pts[i + 1].coke) * d
            &&& span(post) == span(pre) + d
            &&& d == 0 ==> machine_area(post) == machine_area(pre) && coke_area(post) == coke_area(pre)
        }),
{
    assert(pts.take(i + 2).drop_last() =~= pts.take(i + 1));
    let d = pts[i + 1].time.secs - pts[i].time.secs;
    if d == 0 {
        assert((pts[i].machine + pts[i + 1].machine) * d == 0);
        assert((pts[i].coke + pts[i + 1].coke) * d == 0);
    }
}

proof fn lemma_term_bounded(v1: int, v2: int, d: int, total: int, acc: int)
    requires
        reading_ok(v1),
        reading_ok(v2),
        0 <= d,
        0 <= total,
        total + d <= 2 * MAX_SECS,
        -area_bound(total) <= acc <= area_bound(total),
    ensures
        -area_bound(total + d) <= acc + (v1 + v2) * d <= area_bound(total + d),
        -0x10_0000_0000_0000_0000_0000 <= acc + (v1 + v2) * d <= 0x10_0000_0000_0000_0000_0000,
        -0x10_0000_0000_0000_0000_0000 <= (v1 + v2) * d <= 0x10_0000_0000_0000_0000_0000,
{
    let r = MAX_READING as int;
    let v = v1 + v2;
    assert(-2199023255552 * d <= v * d <= 2199023255552 * d) by (nonlinear_arith)
        requires
            -2199023255552 <= v <= 2199023255552,
            0 <= d,
    ;
    assert(-0x10_0000_0000_0000_0000_0000 <= v * d <= 0x10_0000_0000_0000_0000_0000)
        by (nonlinear_arith)
        requires
            r == 1099511627776,
            -2 * r <= v <= 2 * r,
            0 <= d <= 2199023255552,
    ;
}

/// Sums, over adjacent pairs at distinct instants, twice the trapezoidal area
/// of each channel and the duration in seconds.
#[verifier::rlimit(40)]
pub fn calculate_integral(points: &[TimeTempPoint]) -> (r: (i128, i128, i64))
    requires
        points@.len() >= 1,
        valid_series(points@),
    ensures
        r.0 == machine_area(points@),
        r.1 == coke_area(points@),
        r.2 == span(points@),
        -area_bound(r.2 as int) <= r.0 <= area_bound(r.2 as int),
        -area_bound(r.2 as int) <= r.1 <= area_bound(r.2 as int),
        0 <= r.2 <= 2 * MAX_SECS,
{
    let ghost pts = points@;
    let mut total_machine: i128 = 0;
    let mut total_coke: i128 = 0;
    let mut total_duration: i64 = 0;
    let n = points.len();
    let mut i: usize = 0;
    assert(pts[0].wf());
    assert(pts.take(1).len() == 1);
    while i + 1 < n
        invariant
            n == pts.len(),
            pts == points@,
            n >= 1,
            0 <= i < n,
            valid_series(pts),
            total_machine == machine_area(pts.take(i + 1)),
            total_coke == coke_area(pts.take(i + 1)),
            total_duration == span(pts.take(i + 1)),
            total_duration == pts[i as int].time.secs - pts[0].time.secs,
            -area_bound(total_duration as int) <= total_machine <= area_bound(total_duration as int),
            -area_bound(total_duration as int) <= total_coke <= area_bound(total_duration as int),
        decreases n - i,
    {
        let p1 = points[i];
        let p2 = points[i + 1];
        proof {
            lemma_integral_step(pts, i as int);
            assert(pts[i as int].wf() && pts[i + 1].wf());
            assert(pts[i as int].time.secs <= pts[i + 1].time.secs);
        }
        if p1.time.secs != p2.time.secs {
            let duration: i64 = p2.time.secs - p1.time.secs;
            proof {
                lemma_term_bounded(p1.machine as int, p2.machine as int, duration as int,
                    total_duration as int, total_machine as int);
                lemma_term_bounded(p1.coke as int, p2.coke as int, duration as int,
                    total_duration as int, total_coke as int);
            }
            let dm: i128 = ((p1.machine as i128) + (p2.machine as i128)) * (duration as i128);
            let dc: i128 = ((p1.coke as i128) + (p2.coke as i128)) * (duration as i128);
            assert(dm == (p1.machine + p2.machine) * duration);
            assert(dc == (p1.coke + p2.coke) * duration);
            total_machine = total_machine + dm;
            total_coke = total_coke + dc;
            total_duration = total_duration + duration;
        }
        i = i + 1;
    }
    assert(i == n - 1);
    assert(pts.take(n as int) =~= pts);
    assert(pts[i as int].wf());
    (total_machine, total_coke, total_duration)
}

proof fn lemma_average_bounded(area: int, t: int)
    requires
        t > 0,
        -area_bound(t) <= area <= area_bound(t),
    ensures
        reading_ok(area / (2 * t)),
{
    let r = MAX_READING as int;
    assert(-area_bound(t) == (2 * t) * (-r)) by (nonlinear_arith)
        requires
            r == 1099511627776,
    ;
    assert(area_bound(t) == (2 * t) * r) by (nonlinear_arith)
        requires
            r == 1099511627776,
    ;
    lemma_div_is_ordered(-area_bound(t), area, 2 * t);
    lemma_div_is_ordered(area, area_bound(t), 2 * t);
    lemma_div_multiples_vanish(-r, 2 * t);
    lemma_div_multiples_vanish(r, 2 * t);
}

/// The time-weighted average of each channel over the whole series, by the
/// trapezoidal rule; where the series covers no time, the first point's readings.
pub fn time_weighted_average(points: &[TimeTempPoint]) -> (r: (i64, i64))
    requires
        points@.len() >= 1,
        valid_series(points@),
    ensures
        r.0 == average(points@).0,
        r.1 == average(points@).1,
        reading_ok(r.0 as int),
        reading_ok(r.1 as int),
{
    let (machine_area, coke_area, total_duration) = calculate_integral(points);
    assert(points@[0].wf());
    if total_duration == 0 {
        (points[0].machine, points[0].coke)
    } else {
        proof {
            lemma_average_bounded(machine_area as int, total_duration as int);
            lemma_average_bounded(coke_area as int, total_duration as int);
        }
        proof {
            assert(-MAX_NUMERATOR <= machine_area <= MAX_NUMERATOR && -MAX_NUMERATOR <= coke_area
                <= MAX_NUMERATOR) by (nonlinear_arith)
                requires
                    0 < total_duration <= 2 * MAX_SECS,
                    -area_bound(total_duration as int) <= machine_area <= area_bound(total_duration as int),
                    -area_bound(total_duration as int) <= coke_area <= area_bound(total_duration as int),
            ;
        }
        let den: u128 = 2 * (total_duration as u128);
        let m = crate::arith::floor_div(machine_area, den as i128);
        let c = crate::arith::floor_div(coke_area, den as i128);
        (m as i64, c as i64)
    }
}

/// A series whose points all share one instant averages to its first point's readings.
pub proof fn lemma_average_single_instant(pts: Seq<TimeTempPoint>)
    requires
        pts.len() >= 1,
        forall|i: int| 0 <= i < pts.len() ==> (#[trigger] pts[i]).time == pts[0].time,
    ensures
        average(pts) == (pts[0].machine as int, pts[0].coke as int),
{
    lemma_span_telescopes(pts);
}

/// A point that lies exactly on the line between its neighbours leaves the
/// average of the two neighbours unchanged.
pub proof fn lemma_average_collinear_point(a: TimeTempPoint, m: TimeTempPoint, b: TimeTempPoint)
    requires
        a.time.secs < m.time.secs < b.time.secs,
        (m.machine - a.machine) * (b.time.secs - a.time.secs) == (b.machine - a.machine) * (
        m.time.secs - a.time.secs),
        (m.coke - a.coke) * (b.time.secs - a.time.secs) == (b.coke - a.coke) * (m.time.secs
            - a.time.secs),
    ensures
        average(seq![a, m, b]) == average(seq![a, b]),
{
    let three = seq![a, m, b];
    let two = seq![a, b];
    assert(three.drop_last() =~= seq![a, m]);
    assert(seq![a, m].drop_last() =~= seq![a]);
    assert(two.drop_last() =~= seq![a]);
    assert(machine_area(seq![a]) == 0 && coke_area(seq![a]) == 0 && span(seq![a]) == 0);
    assert(span(seq![a, m]) == m.time.secs - a.time.secs);
    assert(span(three) == b.time.secs - a.time.secs);
    assert(span(two) == b.time.secs - a.time.secs);
    assert(machine_area(seq![a, m]) == (a.machine + m.machine) * (m.time.secs - a.time.secs));
    assert(coke_area(seq![a, m]) == (a.coke + m.coke) * (m.time.secs - a.time.secs));
    let d1 = m.time.secs - a.time.secs;
    let d2 = b.time.secs - m.time.secs;
    assert((a.machine + m.machine) * d1 + (m.machine + b.machine) * d2 == (a.machine + b.machine)
        * (d1 + d2)) by (nonlinear_arith)
        requires
            (m.machine - a.machine) * (d1 + d2) == (b.machine - a.machine) * d1,
    ;
    assert((a.coke + m.coke) * d1 + (m.coke + b.coke) * d2 == (a.coke + b.coke) * (d1 + d2))
        by (nonlinear_arith)
        requires
            (m.coke - a.coke) * (d1 + d2) == (b.coke - a.coke) * d1,
    ;
}

} // verus!
