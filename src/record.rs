use vstd::prelude::*;
use crate::instant::{UtcInstant, rfc3339_instant, parse_timestamp};
use crate::text::{comma_from, trim, parse_u32, find_comma, trim_bounds, parse_u32_in};

verus! {

/// One driver's position on the LED strip.
#[derive(Debug, Clone, Copy, PartialEq, Eq, Structural)]
pub struct DriverData {
    pub driver_number: u32,
    pub led_num: u32,
}

/// A driver's position together with the instant it was recorded at.
#[derive(Debug, Clone, Copy, PartialEq, Eq, Structural)]
pub struct DriverDataWithTimestamp {
    pub timestamp: UtcInstant,
    pub driver_data: DriverData,
}

/// Why a data row could not be read. The checks run in this order: the row
/// has three fields, the driver number, the LED position, the timestamp.
#[derive(Debug, Clone, Copy, PartialEq, Eq, Structural)]
pub enum RecordError {
    MissingField,
    BadDriverNumber,
    BadLedPosition,
    BadTimestamp,
}

/// A row that could not be read, with its index among all lines (the header
/// is line 0).
#[derive(Debug, Clone, Copy, PartialEq, Eq, Structural)]
pub struct LineError {
    pub line: usize,
    pub error: RecordError,
}

/// End of the first field of a row.
pub open spec fn end0(s: Seq<char>) -> int {
    comma_from(s, 0)
}

/// End of the second field of a row.
pub open spec fn end1(s: Seq<char>) -> int {
    comma_from(s, end0(s) + 1)
}

/// End of the third field of a row.
pub open spec fn end2(s: Seq<char>) -> int {
    comma_from(s, end1(s) + 1)
}

/// A row has at least three comma-separated fields.
pub open spec fn has_three_fields(s: Seq<char>) -> bool {
    end0(s) < s.len() && end1(s) < s.len()
}

/// The record a row `timestamp, led position, driver number` holds; fields
/// past the third are ignored and each field is trimmed of white space.
pub open spec fn record_of(s: Seq<char>) -> Result<DriverDataWithTimestamp, RecordError> {
    if !has_three_fields(s) {
        Err(RecordError::MissingField)
    } else {
        let stamp = trim(s.subrange(0, end0(s)));
        let led = parse_u32(trim(s.subrange(end0(s) + 1, end1(s))));
        let driver = parse_u32(trim(s.subrange(end1(s) + 1, end2(s))));
        if driver is None {
            Err(RecordError::BadDriverNumber)
        } else if led is None {
            Err(RecordError::BadLedPosition)
        } else {
            match rfc3339_instant(stamp) {
                None => Err(RecordError::BadTimestamp),
                Some(t) => Ok(
                    DriverDataWithTimestamp {
                        timestamp: UtcInstant { secs: t.0, nanos: t.1 },
                        driver_data: DriverData {
                            driver_number: driver->Some_0,
                            led_num: led->Some_0,
                        },
                    },
                ),
            }
        }
    }
}

/// Reads one data row.
pub fn parse_record(line: &str) -> (r: Result<DriverDataWithTimestamp, RecordError>)
    ensures
        r == record_of(line@),
        r matches Ok(d) ==> d.timestamp.wf(),
{
    let ghost s = line@;
    let n = line.unicode_len();
    let e0 = find_comma(line, 0);
    if e0 >= n {
        return Err(RecordError::MissingField);
    }
    let e1 = find_comma(line, e0 + 1);
    if e1 >= n {
        return Err(RecordError::MissingField);
    }
    let e2 = find_comma(line, e1 + 1);
    let (d0, d1) = trim_bounds(line, e1 + 1, e2);
    let driver = parse_u32_in(line, d0, d1);
    let (l0, l1) = trim_bounds(line, e0 + 1, e1);
    let led = parse_u32_in(line, l0, l1);
    match (driver, led) {
        (Some(driver_number), Some(led_num)) => {
            let (t0, t1) = trim_bounds(line, 0, e0);
            let stamp = line.substring_char(t0, t1);
            match parse_timestamp(stamp) {
                Ok(timestamp) => Ok(
                    DriverDataWithTimestamp {
                        timestamp,
                        driver_data: DriverData { driver_number, led_num },
                    },
                ),
                Err(_) => Err(RecordError::BadTimestamp),
            }
        },
        (None, _) => Err(RecordError::BadDriverNumber),
        (_, None) => Err(RecordError::BadLedPosition),
    }
}

/// Reads every line after the header, stopping at the first row that cannot
/// be read.
pub fn parse_lines(lines: &Vec<String>) -> (r: Result<Vec<DriverDataWithTimestamp>, LineError>)
    ensures
        r matches Ok(v) ==> {
            &&& lines@.len() <= 1 ==> v@.len() == 0
            &&& lines@.len() > 1 ==> v@.len() == lines@.len() - 1
            &&& forall|i: int|
                0 <= i < v@.len() ==> record_of(#[trigger] lines@[i + 1]@) == Ok::<
                    DriverDataWithTimestamp,
                    RecordError,
                >(v@[i]) && v@[i].timestamp.wf()
        },
        r matches Err(e) ==> {
            &&& 1 <= e.line < lines@.len()
            &&& record_of(lines@[e.line as int]@) == Err::<DriverDataWithTimestamp, RecordError>(
                e.error,
            )
            &&& forall|i: int| 1 <= i < e.line ==> (#[trigger] record_of(lines@[i]@)) is Ok
        },
        r is Err <==> exists|i: int| 1 <= i < lines@.len() && (#[trigger] record_of(lines@[i]@)) is Err,
{
    let mut out: Vec<DriverDataWithTimestamp> = Vec::new();
    let mut i: usize = 1;
    while i < lines.len()
        invariant
            1 <= i,
            lines@.len() <= 1 ==> i == 1,
            lines@.len() > 1 ==> i <= lines@.len(),
            out@.len() == i - 1,
            forall|k: int|
                0 <= k < out@.len() ==> record_of(#[trigger] lines@[k + 1]@) == Ok::<
                    DriverDataWithTimestamp,
                    RecordError,
                >(out@[k]) && out@[k].timestamp.wf(),
        decreases lines@.len() - i,
    {
        match parse_record(lines[i].as_str()) {
            Ok(d) => {
                out.push(d);
            },
            Err(error) => {
                proof {
                    assert forall|k: int| 1 <= k < i implies (#[trigger] record_of(lines@[k]@)) is Ok by {
                        assert(record_of(lines@[(k - 1) + 1]@) is Ok);
                    }
                }
                return Err(LineError { line: i, error });
            },
        }
        i = i + 1;
    }
    proof {
        assert forall|k: int| 1 <= k < lines@.len() implies (#[trigger] record_of(lines@[k]@)) is Ok by {
            assert(record_of(lines@[(k - 1) + 1]@) is Ok);
        }
    }
    Ok(out)
}

} // verus!
