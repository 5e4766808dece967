use coke_oven::error::CokeError;
use coke_oven::integral::{calculate_integral, time_weighted_average};
use coke_oven::models::{interpolate_temp, TempRecord, TimeTempPoint};
use coke_oven::time::{parse_time, Instant};

fn centi(v: f64) -> i64 {
    (v * 100.0).round() as i64
}

fn at(y: i32, mo: u32, d: u32, h: u32, mi: u32, s: u32) -> Instant {
    Instant::from_civil(y, mo, d, h, mi, s).unwrap()
}

fn point(t: Instant, m: f64, c: f64) -> TimeTempPoint {
    TimeTempPoint { time: t, machine: centi(m), coke: centi(c) }
}

#[test]
fn test_parse_time() {
    let dt = parse_time("2025-06-18 08:16:30").unwrap();
    assert_eq!(dt, at(2025, 6, 18, 8, 16, 30));

    let dt = parse_time("2025-06-18 08:16").unwrap();
    assert_eq!(dt, at(2025, 6, 18, 8, 16, 0));

    let dt = parse_time("2025-06-18").unwrap();
    assert_eq!(dt, at(2025, 6, 18, 0, 0, 0));

    assert!(parse_time("invalid-time").is_err());
}

#[test]
fn parse_time_rejects_other_forms() {
    for text in [
        "",
        "2025-6-18",
        "2025-06-18T08:16",
        "2025-06-18 08:16:3",
        "2025-06-18 8:16",
        " 2025-06-18",
        "2025-06-18 ",
        "2025-02-30",
        "2025-13-01",
        "2025-06-18 24:00",
        "2025-06-18 23:60",
        "2025-06-18 23:59:60",
        "2023-02-29",
    ] {
        assert_eq!(parse_time(text), Err(CokeError::InvalidTimeFormat), "{}", text);
    }
}

#[test]
fn parse_time_accepts_calendar_edges() {
    assert!(parse_time("2024-02-29").is_ok());
    assert!(parse_time("2000-02-29 23:59:59").is_ok());
    assert!(parse_time("1900-02-29").is_err());
    assert!(parse_time("0000-01-01").is_ok());
    assert!(parse_time("9999-12-31 23:59:59").is_ok());
}

#[test]
fn parse_time_day_numbers_follow_calendar() {
    let a = parse_time("2025-02-28").unwrap();
    let b = parse_time("2025-03-01").unwrap();
    assert_eq!(b.secs - a.secs, 86400);
    let c = parse_time("2024-02-28").unwrap();
    let d = parse_time("2024-03-01").unwrap();
    assert_eq!(d.secs - c.secs, 2 * 86400);
    let e = parse_time("2024-12-31 23:59:59").unwrap();
    let f = parse_time("2025-01-01").unwrap();
    assert_eq!(f.secs - e.secs, 1);
    let g = parse_time("1970-01-01").unwrap();
    assert_eq!(g.secs, 719_163 * 86400);
}

#[test]
fn parse_time_round_trips_all_forms() {
    assert_eq!(parse_time("2025-06-18 08:16:00"), parse_time("2025-06-18 08:16"));
    assert_eq!(parse_time("2025-06-18 00:00:00"), parse_time("2025-06-18"));
    assert_eq!(parse_time("2025-06-18 00:00"), parse_time("2025-06-18"));
    let t = parse_time("1999-12-31 23:59:58").unwrap();
    assert_eq!(t, at(1999, 12, 31, 23, 59, 58));
}

#[test]
fn from_civil_rejects_bad_fields() {
    assert_eq!(Instant::from_civil(2025, 2, 29, 0, 0, 0), None);
    assert_eq!(Instant::from_civil(2025, 1, 1, 24, 0, 0), None);
    assert_eq!(Instant::from_civil(2025, 1, 0, 0, 0, 0), None);
}

#[test]
fn test_interpolate_temp() {
    let prev = Some(TempRecord {
        time: at(2025, 6, 18, 8, 0, 0),
        machine_side: centi(100.0),
        coke_side: centi(200.0),
    });
    let next = Some(TempRecord {
        time: at(2025, 6, 18, 9, 0, 0),
        machine_side: centi(200.0),
        coke_side: centi(300.0),
    });
    let target = at(2025, 6, 18, 8, 30, 0);

    let result = interpolate_temp(&prev, &next, target).unwrap();
    assert_eq!(result, (centi(150.0), centi(250.0)));

    let result = interpolate_temp(&prev, &next, prev.as_ref().unwrap().time).unwrap();
    assert_eq!(result, (centi(100.0), centi(200.0)));

    let result = interpolate_temp(&prev, &next, next.as_ref().unwrap().time).unwrap();
    assert_eq!(result, (centi(200.0), centi(300.0)));
}

#[test]
fn interpolate_rounds_down_and_handles_falling_readings() {
    let prev = Some(TempRecord { time: Instant { secs: 0 }, machine_side: 300, coke_side: 0 });
    let next = Some(TempRecord { time: Instant { secs: 3 }, machine_side: 0, coke_side: 1 });
    // 300 - 300 * 1 / 3 = 200; 0 + 1 * 1 / 3 rounds down to 0.
    assert_eq!(interpolate_temp(&prev, &next, Instant { secs: 1 }), Some((200, 0)));
    // 300 - 300 * 2 / 3 = 100; 0 + 2 / 3 rounds down to 0.
    assert_eq!(interpolate_temp(&prev, &next, Instant { secs: 2 }), Some((100, 0)));
    let down = Some(TempRecord { time: Instant { secs: 3 }, machine_side: -1, coke_side: -1 });
    let zero = Some(TempRecord { time: Instant { secs: 0 }, machine_side: 0, coke_side: 0 });
    // -1 * 1 / 3 rounds down to -1.
    assert_eq!(interpolate_temp(&zero, &down, Instant { secs: 1 }), Some((-1, -1)));
}

#[test]
fn interpolate_at_sample_with_either_neighbour() {
    let s = TempRecord { time: at(2025, 6, 18, 10, 0, 0), machine_side: 1234, coke_side: 5678 };
    let later = TempRecord { time: at(2025, 6, 18, 11, 0, 0), machine_side: 9, coke_side: 9 };
    let earlier = TempRecord { time: at(2025, 6, 18, 9, 0, 0), machine_side: 1, coke_side: 1 };
    assert_eq!(interpolate_temp(&Some(s), &Some(later), s.time), Some((1234, 5678)));
    assert_eq!(interpolate_temp(&Some(earlier), &Some(s), s.time), Some((1234, 5678)));
    assert_eq!(interpolate_temp(&Some(s), &None, s.time), Some((1234, 5678)));
    assert_eq!(interpolate_temp(&None, &Some(s), s.time), Some((1234, 5678)));
}

#[test]
fn interpolate_one_side_is_flat() {
    let s = TempRecord { time: at(2025, 6, 18, 10, 0, 0), machine_side: 111, coke_side: 222 };
    let later = at(2025, 6, 19, 10, 0, 0);
    let earlier = at(2025, 6, 17, 10, 0, 0);
    assert_eq!(interpolate_temp(&Some(s), &None, later), Some((111, 222)));
    assert_eq!(interpolate_temp(&None, &Some(s), earlier), Some((111, 222)));
    assert_eq!(interpolate_temp(&None, &None, later), None);
}

#[test]
fn interpolate_degenerate_pair_keeps_prior() {
    let t = at(2025, 6, 18, 10, 0, 0);
    let a = TempRecord { time: t, machine_side: 1, coke_side: 2 };
    let b = TempRecord { time: t, machine_side: 3, coke_side: 4 };
    assert_eq!(interpolate_temp(&Some(a), &Some(b), t), Some((1, 2)));
}

#[test]
fn integrate_single_point() {
    let p = point(at(2025, 6, 18, 8, 0, 0), 123.0, 456.0);
    assert_eq!(calculate_integral(&[p]), (0, 0, 0));
    assert_eq!(time_weighted_average(&[p]), (centi(123.0), centi(456.0)));
}

#[test]
fn integrate_identical_instants() {
    let t = at(2025, 6, 18, 8, 0, 0);
    let pts = [point(t, 10.0, 20.0), point(t, 30.0, 40.0), point(t, 50.0, 60.0)];
    assert_eq!(time_weighted_average(&pts), (centi(10.0), centi(20.0)));
}

#[test]
fn integrate_two_points() {
    let t0 = at(2025, 6, 18, 8, 0, 0);
    let t1 = at(2025, 6, 18, 9, 0, 0);
    let pts = [point(t0, 100.0, 200.0), point(t1, 200.0, 300.0)];
    assert_eq!(calculate_integral(&pts), (30000 * 3600, 50000 * 3600, 3600));
    assert_eq!(time_weighted_average(&pts), (centi(150.0), centi(250.0)));
}

#[test]
fn integrate_collinear_interior_point() {
    let t0 = at(2025, 6, 18, 8, 0, 0);
    let tm = at(2025, 6, 18, 8, 15, 0);
    let t1 = at(2025, 6, 18, 9, 0, 0);
    let pts = [point(t0, 100.0, 200.0), point(tm, 125.0, 225.0), point(t1, 200.0, 300.0)];
    assert_eq!(time_weighted_average(&pts), (centi(150.0), centi(250.0)));
}

#[test]
fn integrate_skips_zero_width_pairs() {
    let t0 = at(2025, 6, 18, 8, 0, 0);
    let t1 = at(2025, 6, 18, 9, 0, 0);
    let pts = [point(t0, 100.0, 200.0), point(t1, 200.0, 300.0), point(t1, 900.0, 900.0)];
    // The last pair spans no time and adds nothing.
    assert_eq!(time_weighted_average(&pts), (centi(150.0), centi(250.0)));
}
