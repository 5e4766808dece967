use coke_oven::duration::minutes_to_hhmm;
use coke_oven::error::CokeError;
use coke_oven::series::{calculate_avg_temperature, get_nearest_temp_record, get_temp_records_in_range};
use coke_oven::system::{initialize_ovens, parse_operation_kind, CokeOvenSystem, OperationKind};
use coke_oven::time::parse_time;

fn centi(v: f64) -> i64 {
    (v * 100.0).round() as i64
}

fn setup() -> CokeOvenSystem {
    CokeOvenSystem::new()
}

#[test]
fn test_minutes_to_hhmm() {
    assert_eq!(minutes_to_hhmm(0), "00:00");
    assert_eq!(minutes_to_hhmm(59), "00:59");
    assert_eq!(minutes_to_hhmm(60), "01:00");
    assert_eq!(minutes_to_hhmm(119), "01:59");
    assert_eq!(minutes_to_hhmm(120), "02:00");
    assert_eq!(minutes_to_hhmm(1709), "28:29");
    assert_eq!(minutes_to_hhmm(1724), "28:44");
}

#[test]
fn minutes_to_hhmm_wide_hours() {
    assert_eq!(minutes_to_hhmm(9 * 60 + 5), "09:05");
    assert_eq!(minutes_to_hhmm(100 * 60 + 1), "100:01");
    assert_eq!(minutes_to_hhmm(12345 * 60 + 59), "12345:59");
}

#[test]
fn test_record_temperature() {
    let mut system = setup();
    assert!(system
        .record_temperature(1, "2025-06-18 08:00", centi(1350.0), centi(1360.0))
        .is_ok());
    assert!(system
        .record_temperature(4, "2025-06-18 08:00", centi(1350.0), centi(1360.0))
        .is_err());
    assert!(system
        .record_temperature(1, "invalid_time", centi(1350.0), centi(1360.0))
        .is_err());
}

#[test]
fn record_temperature_errors() {
    let mut system = setup();
    assert_eq!(
        system.record_temperature(4, "2025-06-18 08:00", 1, 2),
        Err(CokeError::InvalidOven)
    );
    assert_eq!(
        system.record_temperature(0, "2025-06-18 08:00", 1, 2),
        Err(CokeError::InvalidOven)
    );
    assert_eq!(
        system.record_temperature(1, "invalid_time", 1, 2),
        Err(CokeError::InvalidTimeFormat)
    );
    assert!(system.temperatures.is_empty());
}

#[test]
fn duplicate_temperature_rejected() {
    let mut system = setup();
    assert_eq!(system.record_temperature(1, "2025-06-18 08:00", 100, 200), Ok(()));
    assert_eq!(
        system.record_temperature(1, "2025-06-18 08:00", 300, 400),
        Err(CokeError::DuplicateRecord)
    );
    // The same instant written another way is the same key.
    assert_eq!(
        system.record_temperature(1, "2025-06-18 08:00:00", 300, 400),
        Err(CokeError::DuplicateRecord)
    );
    // Another oven at the same instant is a different key.
    assert_eq!(system.record_temperature(2, "2025-06-18 08:00", 300, 400), Ok(()));
    assert_eq!(system.temperatures.len(), 2);
    assert_eq!(system.temperatures[0].record.machine_side, 100);
}

#[test]
fn temperatures_kept_in_time_order() {
    let mut system = setup();
    system.record_temperature(1, "2025-06-18 12:00", 3, 3).unwrap();
    system.record_temperature(1, "2025-06-18 08:00", 1, 1).unwrap();
    system.record_temperature(1, "2025-06-18 10:00", 2, 2).unwrap();
    let readings: Vec<i64> = system.temperatures.iter().map(|s| s.record.machine_side).collect();
    assert_eq!(readings, vec![1, 2, 3]);
}

#[test]
fn test_record_operation() {
    let mut system = setup();
    assert!(system.record_operation(1, "1#", "LOAD", "2025-06-18 08:00").is_ok());
    assert!(system.record_operation(1, "1#", "PUSH", "2025-06-19 12:45").is_ok());
    assert!(system.record_operation(1, "999#", "LOAD", "2025-06-18 08:00").is_err());
    assert!(system.record_operation(1, "1#", "INVALID", "2025-06-18 08:00").is_err());
}

#[test]
fn record_operation_errors() {
    let mut system = setup();
    assert_eq!(
        system.record_operation(9, "1#", "LOAD", "2025-06-18 08:00"),
        Err(CokeError::InvalidOven)
    );
    assert_eq!(
        system.record_operation(1, "51#", "LOAD", "2025-06-18 08:00"),
        Err(CokeError::InvalidChamber)
    );
    assert_eq!(
        system.record_operation(1, "1#", "load", "2025-06-18 08:00"),
        Err(CokeError::InvalidOperationKind)
    );
    assert_eq!(
        system.record_operation(1, "1#", "LOAD", "2025/06/18"),
        Err(CokeError::InvalidTimeFormat)
    );
    assert_eq!(system.record_operation(1, "1#", "LOAD", "2025-06-18 08:00"), Ok(()));
    assert_eq!(
        system.record_operation(1, "1#", "PUSH", "2025-06-18 08:00"),
        Err(CokeError::DuplicateRecord)
    );
    assert_eq!(system.operations.len(), 1);
    assert_eq!(system.operations[0].kind, OperationKind::Load);
}

#[test]
fn operation_kind_parsing() {
    assert_eq!(parse_operation_kind("LOAD"), Ok(OperationKind::Load));
    assert_eq!(parse_operation_kind("PUSH"), Ok(OperationKind::Push));
    assert_eq!(parse_operation_kind("PUSH "), Err(CokeError::InvalidOperationKind));
    assert_eq!(parse_operation_kind(""), Err(CokeError::InvalidOperationKind));
}

#[test]
fn standard_ovens() {
    let ovens = initialize_ovens();
    assert_eq!(ovens.len(), 3);
    assert_eq!(ovens[0].id, 1);
    assert_eq!(ovens[0].chambers.len(), 50);
    assert_eq!(ovens[0].chambers[0], "1#");
    assert_eq!(ovens[2].chambers[49], "50#");
    assert!(ovens[1].is_valid_chamber("48#"));
    assert!(!ovens[1].is_valid_chamber("0#"));
    assert!(!ovens[1].is_valid_chamber("48"));
}

#[test]
fn test_coking_cycle_calculation() {
    let mut system = setup();
    system.record_temperature(1, "2025-06-18 08:00", centi(1350.0), centi(1360.0)).unwrap();
    system.record_temperature(1, "2025-06-19 12:00", centi(1400.0), centi(1410.0)).unwrap();
    system.record_temperature(1, "2025-06-19 13:00", centi(1420.0), centi(1430.0)).unwrap();
    system.record_operation(1, "48#", "LOAD", "2025-06-18 08:16").unwrap();
    system.record_operation(1, "48#", "PUSH", "2025-06-19 12:45").unwrap();

    let cycles: Vec<_> = system.cycles.iter().filter(|c| c.chamber == "48#").collect();
    let row = cycles[0];
    assert_eq!(row.loading_time, parse_time("2025-06-18 08:16").unwrap());
    assert_eq!(row.push_time, parse_time("2025-06-19 12:45").unwrap());

    let minutes = (row.push_time.secs - row.loading_time.secs) / 60;
    let expected_minutes = 28 * 60 + 29;
    assert_eq!(minutes, expected_minutes, "{} {}", minutes, expected_minutes);

    let expected_duration = minutes_to_hhmm(expected_minutes);
    assert_eq!(row.duration_hhmm, expected_duration, "{} {}", row.duration_hhmm, expected_duration);
}

#[test]
fn end_to_end_cycle() {
    let mut system = setup();
    system.record_temperature(1, "2025-06-18 08:00", centi(100.0), centi(200.0)).unwrap();
    system.record_temperature(1, "2025-06-18 10:00", centi(200.0), centi(300.0)).unwrap();
    system.record_operation(1, "1#", "LOAD", "2025-06-18 08:16").unwrap();
    system.record_temperature(1, "2025-06-19 12:00", centi(1400.0), centi(1410.0)).unwrap();
    system.record_temperature(1, "2025-06-19 13:00", centi(1420.0), centi(1430.0)).unwrap();
    system.record_operation(1, "1#", "PUSH", "2025-06-19 12:45").unwrap();
    assert_eq!(system.cycles.len(), 1);
    let c = &system.cycles[0];
    assert_eq!(c.coke_oven, 1);
    assert_eq!(c.chamber, "1#");
    assert_eq!(c.duration_minutes, 1709);
    assert_eq!(c.duration_hhmm, "28:29");
    assert!(c.avg_temp_machine.is_some());
    assert!(c.avg_temp_coke.is_some());
}

#[test]
fn push_without_load_makes_no_cycle() {
    let mut system = setup();
    system.record_temperature(1, "2025-06-18 08:00", 100, 200).unwrap();
    assert_eq!(system.record_operation(1, "2#", "PUSH", "2025-06-19 12:45"), Ok(()));
    assert!(system.cycles.is_empty());
    // A load of another chamber, or one after the push, does not match.
    system.record_operation(1, "3#", "LOAD", "2025-06-18 09:00").unwrap();
    system.record_operation(1, "2#", "LOAD", "2025-06-20 09:00").unwrap();
    assert_eq!(system.record_operation(1, "2#", "PUSH", "2025-06-20 08:00"), Ok(()));
    assert!(system.cycles.is_empty());
}

#[test]
fn push_matches_latest_earlier_load() {
    let mut system = setup();
    system.record_operation(2, "5#", "LOAD", "2025-06-18 08:00").unwrap();
    system.record_operation(2, "5#", "LOAD", "2025-06-18 09:30").unwrap();
    system.record_operation(2, "5#", "LOAD", "2025-06-19 09:30").unwrap();
    system.record_operation(2, "5#", "PUSH", "2025-06-18 10:00").unwrap();
    assert_eq!(system.cycles.len(), 1);
    let c = &system.cycles[0];
    assert_eq!(c.loading_time, parse_time("2025-06-18 09:30").unwrap());
    assert_eq!(c.duration_hhmm, "00:30");
    // Without temperature data the averages are absent, not zero.
    assert_eq!(c.avg_temp_machine, None);
    assert_eq!(c.avg_temp_coke, None);
    // A second push matches the same load again.
    system.record_operation(2, "5#", "PUSH", "2025-06-18 11:00").unwrap();
    assert_eq!(system.cycles.len(), 2);
    assert_eq!(system.cycles[1].loading_time, parse_time("2025-06-18 09:30").unwrap());
    assert_eq!(system.cycles[1].duration_hhmm, "01:30");
}

#[test]
fn test_get_nearest_temp_record() {
    let mut system = setup();
    system.record_temperature(1, "2025-06-18 08:00", centi(1350.0), centi(1360.0)).unwrap();
    system.record_temperature(1, "2025-06-18 10:00", centi(1360.0), centi(1370.0)).unwrap();
    system.record_temperature(1, "2025-06-18 12:00", centi(1370.0), centi(1380.0)).unwrap();

    let t = parse_time("2025-06-18 09:00").unwrap();
    let record = get_nearest_temp_record(&system.temperatures, 1, t, true).unwrap();
    assert_eq!(record.time, parse_time("2025-06-18 08:00").unwrap());

    let record = get_nearest_temp_record(&system.temperatures, 1, t, false).unwrap();
    assert_eq!(record.time, parse_time("2025-06-18 10:00").unwrap());
}

#[test]
fn nearest_is_inclusive_before_exclusive_after() {
    let mut system = setup();
    system.record_temperature(1, "2025-06-18 08:00", 1, 1).unwrap();
    system.record_temperature(1, "2025-06-18 10:00", 2, 2).unwrap();
    system.record_temperature(2, "2025-06-18 09:00", 9, 9).unwrap();
    let t = parse_time("2025-06-18 10:00").unwrap();
    assert_eq!(get_nearest_temp_record(&system.temperatures, 1, t, true).unwrap().machine_side, 2);
    assert_eq!(get_nearest_temp_record(&system.temperatures, 1, t, false), None);
    let early = parse_time("2025-06-18 07:00").unwrap();
    assert_eq!(get_nearest_temp_record(&system.temperatures, 1, early, true), None);
    assert_eq!(get_nearest_temp_record(&system.temperatures, 3, t, true), None);
}

#[test]
fn range_excludes_bounds_and_other_ovens() {
    let mut system = setup();
    for (oven, time, v) in [
        (1, "2025-06-18 08:00", 1),
        (1, "2025-06-18 09:00", 2),
        (2, "2025-06-18 09:30", 9),
        (1, "2025-06-18 10:00", 3),
        (1, "2025-06-18 11:00", 4),
    ] {
        system.record_temperature(oven, time, v, v).unwrap();
    }
    let start = parse_time("2025-06-18 08:00").unwrap();
    let end = parse_time("2025-06-18 11:00").unwrap();
    let inside = get_temp_records_in_range(&system.temperatures, 1, start, end);
    let readings: Vec<i64> = inside.iter().map(|r| r.machine_side).collect();
    assert_eq!(readings, vec![2, 3]);
}

#[test]
fn test_calculate_avg_temperature() {
    let mut system = setup();
    system.record_temperature(1, "2025-06-18 08:00", centi(100.0), centi(200.0)).unwrap();
    system.record_temperature(1, "2025-06-18 10:00", centi(200.0), centi(300.0)).unwrap();
    system.record_temperature(1, "2025-06-18 12:00", centi(300.0), centi(400.0)).unwrap();

    let (avg_machine, avg_coke) = calculate_avg_temperature(
        &system.temperatures,
        1,
        parse_time("2025-06-18 09:00").unwrap(),
        parse_time("2025-06-18 11:00").unwrap(),
    )
    .unwrap();
    let avg_machine = avg_machine as f64 / 100.0;
    let avg_coke = avg_coke as f64 / 100.0;
    assert!((avg_machine - 200.0).abs() < 0.1, "{}", avg_machine);
    assert!((avg_coke - 300.0).abs() < 0.1, "{}", avg_coke);
}

#[test]
fn average_absent_without_samples() {
    let system = setup();
    let r = calculate_avg_temperature(
        &system.temperatures,
        1,
        parse_time("2025-06-18 09:00").unwrap(),
        parse_time("2025-06-18 11:00").unwrap(),
    );
    assert_eq!(r, None);
}

#[test]
fn average_flat_outside_series() {
    let mut system = setup();
    system.record_temperature(1, "2025-06-18 08:00", 500, 700).unwrap();
    let r = calculate_avg_temperature(
        &system.temperatures,
        1,
        parse_time("2025-06-18 09:00").unwrap(),
        parse_time("2025-06-18 11:00").unwrap(),
    );
    assert_eq!(r, Some((500, 700)));
}
