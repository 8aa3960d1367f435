use track_frames::frames::{UpdateFrame, VisualizationData, FRAME_COUNT, SLOT_COUNT, UPDATE_RATE_MS};
use track_frames::group::{earliest_instant, group_by_timestamp};
use track_frames::pipeline::{build_visualization, visualize_lines};
use track_frames::record::{
    parse_lines, parse_record, DriverData, DriverDataWithTimestamp, LineError, RecordError,
};
use track_frames::UtcInstant;

const JAN_2023: i64 = 1672531200;

fn lines(rows: &[&str]) -> Vec<String> {
    let mut v = vec!["timestamp,led_num,driver_number".to_string()];
    for r in rows {
        v.push(r.to_string());
    }
    v
}

fn is_empty(f: &UpdateFrame) -> bool {
    f.drivers.iter().all(|s| s.is_none())
}

fn empty_count(v: &VisualizationData) -> usize {
    v.frames.iter().filter(|f| is_empty(f)).count()
}

fn occupied(f: &UpdateFrame) -> Vec<DriverData> {
    f.drivers.iter().filter_map(|s| *s).collect()
}

fn rec(secs: i64, driver: u32, led: u32) -> DriverDataWithTimestamp {
    DriverDataWithTimestamp {
        timestamp: UtcInstant { secs, nanos: 0 },
        driver_data: DriverData { driver_number: driver, led_num: led },
    }
}

#[test]
fn same_driver_same_instant_keeps_first_row() {
    let v = visualize_lines(&lines(&["2023-01-01T00:00:00Z,5,10", "2023-01-01T00:00:00Z,6,10"]))
        .unwrap();
    assert_eq!(v.update_rate_ms, 1000);
    assert_eq!(v.frames.len(), 1548);
    assert_eq!(v.frames[0].drivers[0], Some(DriverData { driver_number: 10, led_num: 5 }));
    assert_eq!(occupied(&v.frames[0]).len(), 1);
    assert_eq!(empty_count(&v), 1547);
}

#[test]
fn three_instants_leave_1545_empty_frames() {
    let v = visualize_lines(&lines(&[
        "2023-01-01T00:00:00Z,1,1",
        "2023-01-01T00:00:02Z,2,1",
        "2023-01-01T00:00:01Z,3,1",
        "2023-01-01T00:00:01Z,4,2",
    ]))
    .unwrap();
    assert_eq!(v.frames.len(), FRAME_COUNT);
    assert_eq!(empty_count(&v), 1545);
}

#[test]
fn frames_follow_offsets_with_fillers_after_offset_zero() {
    let v = visualize_lines(&lines(&[
        "2023-01-01T00:00:02Z,2,1",
        "2023-01-01T00:00:00Z,1,1",
        "2023-01-01T00:00:01Z,3,1",
    ]))
    .unwrap();
    assert_eq!(v.frames[0].drivers[0], Some(DriverData { driver_number: 1, led_num: 1 }));
    for p in 1..1546 {
        assert!(is_empty(&v.frames[p]));
    }
    assert_eq!(v.frames[1546].drivers[0], Some(DriverData { driver_number: 1, led_num: 3 }));
    assert_eq!(v.frames[1547].drivers[0], Some(DriverData { driver_number: 1, led_num: 2 }));
}

#[test]
fn twenty_five_drivers_fill_twenty_slots() {
    let mut rows = Vec::new();
    for d in 0..25u32 {
        rows.push(rec(JAN_2023, d, 100 + d));
    }
    let v = build_visualization(&rows);
    let shown = occupied(&v.frames[0]);
    assert_eq!(shown.len(), 20);
    for (i, d) in shown.iter().enumerate() {
        assert_eq!(d.driver_number, i as u32);
        assert_eq!(d.led_num, 100 + i as u32);
    }
    assert_eq!(empty_count(&v), 1547);
}

#[test]
fn no_records_give_all_empty_buffer() {
    let v = build_visualization(&Vec::new());
    assert_eq!(v.update_rate_ms, UPDATE_RATE_MS);
    assert_eq!(v.frames.len(), FRAME_COUNT);
    for f in &v.frames {
        assert_eq!(f.drivers.len(), SLOT_COUNT);
        assert!(is_empty(f));
    }
    let only_header = visualize_lines(&lines(&[])).unwrap();
    assert_eq!(empty_count(&only_header), 1548);
    let nothing = visualize_lines(&Vec::new()).unwrap();
    assert_eq!(empty_count(&nothing), 1548);
}

#[test]
fn more_instants_than_frames_are_cut() {
    let mut rows = Vec::new();
    for s in 0..2000i64 {
        rows.push(rec(JAN_2023 + s, 7, s as u32));
    }
    let v = build_visualization(&rows);
    assert_eq!(v.frames.len(), 1548);
    assert_eq!(empty_count(&v), 0);
    for (p, f) in v.frames.iter().enumerate() {
        assert_eq!(f.drivers.len(), 20);
        assert_eq!(f.drivers[0], Some(DriverData { driver_number: 7, led_num: p as u32 }));
    }
}

#[test]
fn no_frame_repeats_a_driver() {
    let rows = vec![
        rec(JAN_2023, 3, 1),
        rec(JAN_2023, 4, 2),
        rec(JAN_2023, 3, 9),
        rec(JAN_2023 + 1, 3, 5),
        rec(JAN_2023, 4, 8),
    ];
    let v = build_visualization(&rows);
    assert_eq!(
        occupied(&v.frames[0]),
        vec![DriverData { driver_number: 3, led_num: 1 }, DriverData { driver_number: 4, led_num: 2 }]
    );
    assert_eq!(occupied(&v.frames[1547]), vec![DriverData { driver_number: 3, led_num: 5 }]);
}

#[test]
fn groups_are_by_instant_and_offset() {
    let rows = vec![rec(JAN_2023 + 5, 1, 1), rec(JAN_2023 + 2, 2, 2), rec(JAN_2023 + 5, 3, 3)];
    let base = earliest_instant(&rows).unwrap();
    assert_eq!(base, UtcInstant { secs: JAN_2023 + 2, nanos: 0 });
    let g = group_by_timestamp(&rows, &base);
    assert_eq!(g.len(), 2);
    assert_eq!(g[0].offset, 0);
    assert_eq!(g[1].offset, 3_000_000_000);
    assert_eq!(g[1].drivers.len(), 2);
    assert!(earliest_instant(&Vec::new()).is_none());
}

#[test]
fn row_is_read_with_trimmed_fields() {
    let r = parse_record(" 2023-01-01T00:00:00.5+01:00 , +42 ,\t7 ,extra").unwrap();
    assert_eq!(r.timestamp, UtcInstant { secs: JAN_2023 - 3600, nanos: 500_000_000 });
    assert_eq!(r.driver_data, DriverData { driver_number: 7, led_num: 42 });
}

#[test]
fn row_errors_come_in_order() {
    assert_eq!(parse_record("2023-01-01T00:00:00Z,5"), Err(RecordError::MissingField));
    assert_eq!(parse_record(""), Err(RecordError::MissingField));
    assert_eq!(parse_record("bad,x,y"), Err(RecordError::BadDriverNumber));
    assert_eq!(parse_record("bad,x,4294967296"), Err(RecordError::BadDriverNumber));
    assert_eq!(parse_record("bad,-1,4294967295"), Err(RecordError::BadLedPosition));
    assert_eq!(parse_record("bad,+,1"), Err(RecordError::BadLedPosition));
    assert_eq!(parse_record("2023-01-01 00:00:00,1,1"), Err(RecordError::BadTimestamp));
    assert_eq!(parse_record("2023-01-01T00:00:00,1,1"), Err(RecordError::BadTimestamp));
}

#[test]
fn first_bad_row_is_reported() {
    let l = lines(&["2023-01-01T00:00:00Z,1,1", "x,1", "y"]);
    assert_eq!(parse_lines(&l), Err(LineError { line: 2, error: RecordError::MissingField }));
    assert_eq!(
        visualize_lines(&l).err(),
        Some(LineError { line: 2, error: RecordError::MissingField })
    );
    let ok = parse_lines(&lines(&["2023-01-01T00:00:01Z,4,9"])).unwrap();
    assert_eq!(ok, vec![rec(JAN_2023 + 1, 9, 4)]);
}

#[test]
fn elapsed_time_is_clamped_and_counts_leap_seconds() {
    let a = UtcInstant { secs: 100, nanos: 250 };
    let b = UtcInstant { secs: 98, nanos: 500 };
    assert_eq!(a.elapsed_since(&b), 1_999_999_750);
    assert_eq!(b.elapsed_since(&a), 0);
    // 2016-12-31T23:59:59 and the leap second after it.
    let before = UtcInstant { secs: 1483228799, nanos: 0 };
    let leap = parse_record("2016-12-31T23:59:60.5Z,1,1").unwrap().timestamp;
    assert_eq!(leap, UtcInstant { secs: 1483228799, nanos: 1_500_000_000 });
    let after = parse_record("2017-01-01T00:00:00Z,1,1").unwrap().timestamp;
    assert_eq!(leap.elapsed_since(&before), 1_500_000_000);
    assert_eq!(after.elapsed_since(&leap), 0);
    assert_eq!(after.elapsed_since(&before), 1_000_000_000);
}

#[test]
fn frame_helpers() {
    let e = UpdateFrame::empty();
    assert_eq!(e.drivers, vec![None; 20]);
    let f = UpdateFrame::from_updates(&vec![DriverData { driver_number: 1, led_num: 2 }]);
    assert_eq!(f.drivers.len(), 20);
    assert_eq!(f.drivers[0], Some(DriverData { driver_number: 1, led_num: 2 }));
    assert!(f.drivers[1..].iter().all(|s| s.is_none()));
}
