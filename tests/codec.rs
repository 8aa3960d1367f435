use track_frames::codec::{decode_buffer, encode_buffer, BUFFER_TEXT_LEN};
use track_frames::pipeline::{build_visualization, visualize_lines};
use track_frames::record::{DriverData, DriverDataWithTimestamp};
use track_frames::UtcInstant;

fn sample() -> track_frames::frames::VisualizationData {
    visualize_lines(&vec![
        "timestamp,led_num,driver_number".to_string(),
        "2023-01-01T00:00:00Z,5,10".to_string(),
        "2023-01-01T00:00:03Z,4294967295,255".to_string(),
    ])
    .unwrap()
}

#[test]
fn encoding_reads_back_the_same_buffer() {
    let v = sample();
    let text = encode_buffer(&v);
    assert_eq!(text.len(), BUFFER_TEXT_LEN);
    let back = decode_buffer(&text).unwrap();
    assert_eq!(back.update_rate_ms, v.update_rate_ms);
    assert_eq!(back.frames.len(), v.frames.len());
    for (a, b) in back.frames.iter().zip(v.frames.iter()) {
        assert_eq!(a.drivers, b.drivers);
    }
}

#[test]
fn encoding_layout() {
    let v = sample();
    let text = String::from_utf8(encode_buffer(&v)).unwrap();
    assert!(text.starts_with("000003e8\n+0000000a00000005 -0000000000000000 "));
    let lines: Vec<&str> = text.lines().collect();
    assert_eq!(lines.len(), 1549);
    assert!(lines[1548].starts_with("+000000ffffffffff -"));
    assert_eq!(lines[2], vec!["-0000000000000000"; 20].join(" "));
}

#[test]
fn malformed_text_is_refused() {
    let v = build_visualization(&vec![DriverDataWithTimestamp {
        timestamp: UtcInstant { secs: 0, nanos: 0 },
        driver_data: DriverData { driver_number: 1, led_num: 2 },
    }]);
    let good = encode_buffer(&v);
    assert!(decode_buffer(&good).is_some());
    let mut short = good.clone();
    short.pop();
    assert!(decode_buffer(&short).is_none());
    let mut bad_digit = good.clone();
    bad_digit[3] = b'g';
    assert!(decode_buffer(&bad_digit).is_none());
    let mut bad_sep = good.clone();
    bad_sep[9 + 17] = b',';
    assert!(decode_buffer(&bad_sep).is_none());
    let mut bad_empty = good.clone();
    bad_empty[9 + 18 + 5] = b'1';
    assert!(decode_buffer(&bad_empty).is_none());
    assert!(decode_buffer(&Vec::new()).is_none());
}
