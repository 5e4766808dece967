use crate::integral::{average, time_weighted_average, valid_series};
use crate::models::{brackets, interpolate_temp, interpolation, TempRecord, TimeTempPoint};
use crate::time::Instant;
use vstd::prelude::*;

verus! {

/// A stored temperature sample of one oven.
#[derive(Clone, Copy, Debug, PartialEq, Eq, Structural)]
pub struct TemperatureSample {
    pub coke_oven: i32,
    pub record: TempRecord,
}

/// Samples well formed, in ascending order of instant, and at most one per
/// oven and instant.
pub open spec fn samples_ok(s: Seq<TemperatureSample>) -> bool {
    &&& forall|i: int| 0 <= i < s.len() ==> (#[trigger] s[i]).record.wf()
    &&& forall|i: int, j: int|
        0 <= i < j < s.len() ==> (#[trigger] s[i]).record.time.secs <= (#[trigger] s[j]).record.time.secs
    &&& forall|i: int, j: int|
        0 <= i < j < s.len() && (#[trigger] s[i]).coke_oven == (#[trigger] s[j]).coke_oven
            ==> s[i].record.time.secs != s[j].record.time.secs
}

/// The sample of oven `o` with the greatest instant at or before `t`.
pub open spec fn nearest_before(s: Seq<TemperatureSample>, o: i32, t: int) -> Option<TempRecord>
    decreases s.len(),
{
    if s.len() == 0 {
        None
    } else {
        let r = nearest_before(s.drop_last(), o, t);
        let x = s.last();
        if x.coke_oven == o && x.record.time.secs <= t && (r is None || r.unwrap().time.secs
            <= x.record.time.secs) {
            Some(x.record)
        } else {
            r
        }
    }
}

/// The sample of oven `o` with the smallest instant strictly after `t`.
pub open spec fn nearest_after(s: Seq<TemperatureSample>, o: i32, t: int) -> Option<TempRecord>
    decreases s.len(),
{
    if s.len() == 0 {
        None
    } else {
        let r = nearest_after(s.drop_last(), o, t);
        let x = s.last();
        if x.coke_oven == o && x.record.time.secs > t && (r is None || x.record.time.secs
            < r.unwrap().time.secs) {
            Some(x.record)
        } else {
            r
        }
    }
}

/// The samples of oven `o` strictly between `start` and `end`, in stored order.
pub open spec fn in_window(s: Seq<TemperatureSample>, o: i32, start: int, end: int) -> Seq<TempRecord>
    decreases s.len(),
{
    if s.len() == 0 {
        Seq::empty()
    } else {
        let r = in_window(s.drop_last(), o, start, end);
        let x = s.last();
        if x.coke_oven == o && start < x.record.time.secs < end {
            r.push(x.record)
        } else {
            r
        }
    }
}

/// What `nearest_before` returns is a sample of the oven at or before `t`, and
/// none of the oven's samples at or before `t` is later.
pub proof fn lemma_nearest_before(s: Seq<TemperatureSample>, o: i32, t: int)
    ensures
        nearest_before(s, o, t) matches Some(x) ==> exists|i: int|
            0 <= i < s.len() && (#[trigger] s[i]).coke_oven == o && s[i].record == x,
        nearest_before(s, o, t) matches Some(x) ==> x.time.secs <= t,
        forall|i: int|
            0 <= i < s.len() && (#[trigger] s[i]).coke_oven == o && s[i].record.time.secs <= t
                ==> (nearest_before(s, o, t) is Some && s[i].record.time.secs
                <= nearest_before(s, o, t).unwrap().time.secs),
    decreases s.len(),
{
    if s.len() > 0 {
        let d = s.drop_last();
        lemma_nearest_before(d, o, t);
        if let Some(x) = nearest_before(d, o, t) {
            let i = choose|i: int| 0 <= i < d.len() && (#[trigger] d[i]).coke_oven == o && d[i].record == x;
            assert(s[i] == d[i]);
        }
        assert forall|i: int|
            0 <= i < s.len() && (#[trigger] s[i]).coke_oven == o && s[i].record.time.secs
                <= t implies nearest_before(s, o, t) is Some && s[i].record.time.secs
                <= nearest_before(s, o, t).unwrap().time.secs by {
            if i < s.len() - 1 {
                assert(s[i] == d[i]);
            }
        }
    }
}

/// What `nearest_after` returns is a sample of the oven after `t`, and none of
/// the oven's samples after `t` is earlier.
pub proof fn lemma_nearest_after(s: Seq<TemperatureSample>, o: i32, t: int)
    ensures
        nearest_after(s, o, t) matches Some(x) ==> exists|i: int|
            0 <= i < s.len() && (#[trigger] s[i]).coke_oven == o && s[i].record == x,
        nearest_after(s, o, t) matches Some(x) ==> x.time.secs > t,
        forall|i: int|
            0 <= i < s.len() && (#[trigger] s[i]).coke_oven == o && s[i].record.time.secs > t
                ==> (nearest_after(s, o, t) is Some && nearest_after(s, o, t).unwrap().time.secs
                <= s[i].record.time.secs),
    decreases s.len(),
{
    if s.len() > 0 {
        let d = s.drop_last();
        lemma_nearest_after(d, o, t);
        if let Some(x) = nearest_after(d, o, t) {
            let i = choose|i: int| 0 <= i < d.len() && (#[trigger] d[i]).coke_oven == o && d[i].record == x;
            assert(s[i] == d[i]);
        }
        assert forall|i: int|
            0 <= i < s.len() && (#[trigger] s[i]).coke_oven == o && s[i].record.time.secs
                > t implies nearest_after(s, o, t) is Some && nearest_after(s, o, t).unwrap().time.secs
                <= s[i].record.time.secs by {
            if i < s.len() - 1 {
                assert(s[i] == d[i]);
            }
        }
    }
}

/// The samples in a window are samples of the oven inside the window, well
/// formed and in strictly ascending order of instant.
pub proof fn lemma_in_window(s: Seq<TemperatureSample>, o: i32, start: int, end: int)
    requires
        samples_ok(s),
    ensures
        ({
            let r = in_window(s, o, start, end);
            &&& forall|k: int|
                #![trigger r[k]]
                0 <= k < r.len() ==> exists|i: int|
                    0 <= i < s.len() && (#[trigger] s[i]).coke_oven == o && s[i].record == r[k]
            &&& forall|k: int|
                0 <= k < r.len() ==> (#[trigger] r[k]).wf() && start < r[k].time.secs < end
            &&& forall|k: int| 0 < k < r.len() ==> r[k - 1].time.secs < (#[trigger] r[k]).time.secs
        }),
    decreases s.len(),
{
    if s.len() > 0 {
        let d = s.drop_last();
        assert(samples_ok(d)) by {
            assert forall|i: int, j: int|
                0 <= i < j < d.len() && (#[trigger] d[i]).coke_oven == (#[trigger] d[j]).coke_oven
                    implies d[i].record.time.secs != d[j].record.time.secs by {
                assert(d[i] == s[i] && d[j] == s[j]);
            }
            assert forall|i: int, j: int| 0 <= i < j < d.len() implies (#[trigger] d[i]).record.time.secs
                <= (#[trigger] d[j]).record.time.secs by {
                assert(d[i] == s[i] && d[j] == s[j]);
            }
            assert forall|i: int| 0 <= i < d.len() implies (#[trigger] d[i]).record.wf() by {
                assert(d[i] == s[i]);
            }
        }
        lemma_in_window(d, o, start, end);
        let r = in_window(d, o, start, end);
        let x = s.last();
        let n = s.len() - 1;
        assert(x == s[n]);
        assert(x.record.wf());
        assert forall|k: int| #![trigger r[k]] 0 <= k < r.len() implies exists|i: int|
            0 <= i < s.len() && (#[trigger] s[i]).coke_oven == o && s[i].record == r[k] by {
            let i = choose|i: int| 0 <= i < d.len() && (#[trigger] d[i]).coke_oven == o && d[i].record == r[k];
            assert(s[i] == d[i]);
        }
        if x.coke_oven == o && start < x.record.time.secs < end {
            let rr = r.push(x.record);
            if r.len() > 0 {
                let k = r.len() - 1;
                let i = choose|i: int| 0 <= i < d.len() && (#[trigger] d[i]).coke_oven == o && d[i].record == r[k];
                assert(s[i] == d[i]);
                assert(s[i].record.time.secs <= s[n].record.time.secs);
                assert(s[i].record.time.secs != s[n].record.time.secs);
            }
            assert forall|k: int| #![trigger rr[k]] 0 <= k < rr.len() implies exists|i: int|
                0 <= i < s.len() && (#[trigger] s[i]).coke_oven == o && s[i].record == rr[k] by {
                if k == r.len() {
                    assert(s[n].record == rr[k]);
                } else {
                    assert(rr[k] == r[k]);
                }
            }
            assert forall|k: int| 0 < k < rr.len() implies rr[k - 1].time.secs < (
            #[trigger] rr[k]).time.secs by {
                if k < r.len() {
                    assert(rr[k] == r[k] && rr[k - 1] == r[k - 1]);
                }
            }
        }
    }
}

/// Finds the sample of `coke_oven` nearest to `target`: with `before`, the
/// latest one at or before it; otherwise the earliest one strictly after it.
pub fn get_nearest_temp_record(
    samples: &Vec<TemperatureSample>,
    coke_oven: i32,
    target: Instant,
    before: bool,
) -> (r: Option<TempRecord>)
    ensures
        r == (if before {
            nearest_before(samples@, coke_oven, target.secs as int)
        } else {
            nearest_after(samples@, coke_oven, target.secs as int)
        }),
{
    let ghost s = samples@;
    let mut best: Option<TempRecord> = None;
    let mut i: usize = 0;
    while i < samples.len()
        invariant
            s == samples@,
            0 <= i <= s.len(),
            best == (if before {
                nearest_before(s.take(i as int), coke_oven, target.secs as int)
            } else {
                nearest_after(s.take(i as int), coke_oven, target.secs as int)
            }),
        decreases s.len() - i,
    {
        assert(s.take(i + 1).drop_last() =~= s.take(i as int));
        let x = samples[i];
        if x.coke_oven == coke_oven {
            if before {
                if x.record.time.secs <= target.secs {
                    match best {
                        Some(b) => {
                            if b.time.secs <= x.record.time.secs {
                                best = Some(x.record);
                            }
                        },
                        None => {
                            best = Some(x.record);
                        },
                    }
                }
            } else {
                if x.record.time.secs > target.secs {
                    match best {
                        Some(b) => {
                            if x.record.time.secs < b.time.secs {
                                best = Some(x.record);
                            }
                        },
                        None => {
                            best = Some(x.record);
                        },
                    }
                }
            }
        }
        i = i + 1;
    }
    assert(s.take(s.len() as int) =~= s);
    best
}

/// The samples of `coke_oven` strictly between `start` and `end`, in stored order.
pub fn get_temp_records_in_range(samples: &Vec<TemperatureSample>, coke_oven: i32, start: Instant, end: Instant) -> (r:
    Vec<TempRecord>)
    ensures
        r@ == in_window(samples@, coke_oven, start.secs as int, end.secs as int),
{
    let ghost s = samples@;
    let mut out: Vec<TempRecord> = Vec::new();
    let mut i: usize = 0;
    while i < samples.len()
        invariant
            s == samples@,
            0 <= i <= s.len(),
            out@ == in_window(s.take(i as int), coke_oven, start.secs as int, end.secs as int),
        decreases s.len() - i,
    {
        assert(s.take(i + 1).drop_last() =~= s.take(i as int));
        let x = samples[i];
        if x.coke_oven == coke_oven && start.secs < x.record.time.secs && x.record.time.secs
            < end.secs {
            out.push(x.record);
        }
        i = i + 1;
    }
    assert(s.take(s.len() as int) =~= s);
    out
}

pub open spec fn to_point(r: TempRecord) -> TimeTempPoint {
    TimeTempPoint { time: r.time, machine: r.machine_side, coke: r.coke_side }
}

/// The series integrated over a window: the estimate at its start, the
/// samples inside it, and the estimate at its end.
pub open spec fn window_points(
    s: Seq<TemperatureSample>,
    o: i32,
    start: Instant,
    end: Instant,
    a: (i64, i64),
    b: (i64, i64),
) -> Seq<TimeTempPoint> {
    seq![TimeTempPoint { time: start, machine: a.0, coke: a.1 }] + in_window(
        s,
        o,
        start.secs as int,
        end.secs as int,
    ).map_values(|r: TempRecord| to_point(r)) + seq![TimeTempPoint { time: end, machine: b.0, coke: b.1 }]
}

/// The time-weighted average of both readings of oven `o` over the window
/// from `start` to `end`; none where the oven has no sample at all.
pub open spec fn window_average(s: Seq<TemperatureSample>, o: i32, start: Instant, end: Instant) -> Option<(int, int)> {
    let a = interpolation(nearest_before(s, o, start.secs as int), nearest_after(s, o, start.secs as int), start);
    let b = interpolation(nearest_before(s, o, end.secs as int), nearest_after(s, o, end.secs as int), end);
    if a is Some && b is Some {
        Some(average(window_points(s, o, start, end, a.unwrap(), b.unwrap())))
    } else {
        None
    }
}

proof fn lemma_brackets(s: Seq<TemperatureSample>, o: i32, t: Instant)
    requires
        samples_ok(s),
    ensures
        brackets(nearest_before(s, o, t.secs as int), nearest_after(s, o, t.secs as int), t),
{
    lemma_nearest_before(s, o, t.secs as int);
    lemma_nearest_after(s, o, t.secs as int);
}

/// Averages the readings of `coke_oven` over the window from `start` to `end`:
/// estimates both ends from their neighbouring samples, adds the samples
/// inside, and integrates.
pub fn calculate_avg_temperature(
    samples: &Vec<TemperatureSample>,
    coke_oven: i32,
    start: Instant,
    end: Instant,
) -> (r: Option<(i64, i64)>)
    requires
        samples_ok(samples@),
        start.wf(),
        end.wf(),
        start.secs < end.secs,
    ensures
        match (r, window_average(samples@, coke_oven, start, end)) {
            (Some((m, c)), Some((am, ac))) => m == am && c == ac,
            (None, None) => true,
            _ => false,
        },
{
    let ghost s = samples@;
    let prev_start = get_nearest_temp_record(samples, coke_oven, start, true);
    let next_start = get_nearest_temp_record(samples, coke_oven, start, false);
    let prev_end = get_nearest_temp_record(samples, coke_oven, end, true);
    let next_end = get_nearest_temp_record(samples, coke_oven, end, false);
    let middle = get_temp_records_in_range(samples, coke_oven, start, end);
    proof {
        lemma_brackets(s, coke_oven, start);
        lemma_brackets(s, coke_oven, end);
        lemma_in_window(s, coke_oven, start.secs as int, end.secs as int);
    }
    let start_temp = match interpolate_temp(&prev_start, &next_start, start) {
        Some(v) => v,
        None => {
            return None;
        },
    };
    let end_temp = match interpolate_temp(&prev_end, &next_end, end) {
        Some(v) => v,
        None => {
            return None;
        },
    };
    let mut points: Vec<TimeTempPoint> = Vec::new();
    points.push(TimeTempPoint { time: start, machine: start_temp.0, coke: start_temp.1 });
    let ghost head = points@;
    let ghost mid = middle@.map_values(|r: TempRecord| to_point(r));
    let mut i: usize = 0;
    while i < middle.len()
        invariant
            0 <= i <= middle@.len(),
            mid == middle@.map_values(|r: TempRecord| to_point(r)),
            points@ == head + mid.take(i as int),
        decreases middle@.len() - i,
    {
        let rec = middle[i];
        points.push(TimeTempPoint { time: rec.time, machine: rec.machine_side, coke: rec.coke_side });
        assert(mid.take(i + 1) =~= mid.take(i as int).push(mid[i as int]));
        assert(points@ =~= head + mid.take(i + 1));
        i = i + 1;
    }
    assert(mid.take(middle@.len() as int) =~= mid);
    points.push(TimeTempPoint { time: end, machine: end_temp.0, coke: end_temp.1 });
    let ghost pts = points@;
    assert(pts =~= window_points(s, coke_oven, start, end, start_temp, end_temp));
    proof {
        let w = middle@;
        assert forall|i: int| 0 <= i < pts.len() implies (#[trigger] pts[i]).wf() by {
            if 0 < i < pts.len() - 1 {
                assert(pts[i] == to_point(w[i - 1]));
            }
        }
        assert forall|i: int| 0 < i < pts.len() implies pts[i - 1].time.secs <= (
        #[trigger] pts[i]).time.secs by {
            if 1 < i < pts.len() - 1 {
                assert(pts[i] == to_point(w[i - 1]) && pts[i - 1] == to_point(w[i - 2]));
            } else if i == 1 && pts.len() > 2 {
                assert(pts[i] == to_point(w[0]));
            } else if i == pts.len() - 1 && i > 1 {
                assert(pts[i - 1] == to_point(w[i - 2]));
            }
        }
        assert(valid_series(pts));
    }
    let avg = time_weighted_average(points.as_slice());
    Some(avg)
}

} // verus!
