use vstd::prelude::*;

verus! {

/// Nanoseconds in one second.
pub const NANOS_PER_SEC: u32 = 1_000_000_000;

/// A UTC instant, as whole seconds since the Unix epoch (leap seconds not
/// counted) and the nanoseconds past that second. A value of `nanos` of one
/// second or more marks an instant inside a leap second.
#[derive(Debug, Clone, Copy, PartialEq, Eq, Structural)]
pub struct UtcInstant {
    pub secs: i64,
    pub nanos: u32,
}

impl UtcInstant {
    /// An instant is well formed when its sub-second part stays below two
    /// seconds (the second of the two is a leap second).
    pub open spec fn wf(self) -> bool {
        self.nanos < 2 * NANOS_PER_SEC
    }

    /// Seconds past midnight of this instant's day.
    pub open spec fn second_of_day(self) -> int {
        (self.secs as int) % 86400
    }

    /// Signed nanoseconds from `base` to `self`, counted as calendar
    /// arithmetic with at most one leap second between the two.
    pub open spec fn delta_from(self, base: UtcInstant) -> int {
        let adj: int = if self.second_of_day() > base.second_of_day() && base.nanos
            >= NANOS_PER_SEC {
            1
        } else if self.second_of_day() < base.second_of_day() && self.nanos >= NANOS_PER_SEC {
            -1
        } else {
            0
        };
        (self.secs - base.secs + adj) * (NANOS_PER_SEC as int) + self.nanos - base.nanos
    }

    /// Nanoseconds elapsed from `base` to `self`, or zero when `self` is not later.
    pub open spec fn offset_from(self, base: UtcInstant) -> nat {
        let d = self.delta_from(base);
        if d > 0 {
            d as nat
        } else {
            0
        }
    }

    /// Nanoseconds elapsed from `base` to `self`, where an instant before
    /// `base` counts as no time at all.
    pub fn elapsed_since(&self, base: &UtcInstant) -> (r: u128)
        ensures
            r as nat == self.offset_from(*base),
    {
        let sod_self = second_of_day(self.secs);
        let sod_base = second_of_day(base.secs);
        let adj: i128 = if sod_self > sod_base && base.nanos >= NANOS_PER_SEC {
            1
        } else if sod_self < sod_base && self.nanos >= NANOS_PER_SEC {
            -1
        } else {
            0
        };
        let secs: i128 = self.secs as i128 - base.secs as i128 + adj;
        assert(-20_000_000_000_000_000_000i128 * 1_000_000_000 < secs * 1_000_000_000
            < 20_000_000_000_000_000_000i128 * 1_000_000_000) by (nonlinear_arith)
            requires
                -20_000_000_000_000_000_000i128 < secs < 20_000_000_000_000_000_000i128,
        ;
        let scaled: i128 = secs * 1_000_000_000i128;
        let d: i128 = scaled + self.nanos as i128 - base.nanos as i128;
        if d > 0 {
            d as u128
        } else {
            0
        }
    }
}

#[verifier::external_type_specification]
#[verifier::external_body]
pub struct ExParseError(chrono::ParseError);

/// The instant that an RFC 3339 date-time text denotes, as whole seconds since
/// the epoch and the nanoseconds past them, or `None` when the text is not
/// RFC 3339.
pub uninterp spec fn rfc3339_instant(s: Seq<char>) -> Option<(i64, u32)>;

/// Relies on `chrono::DateTime::parse_from_rfc3339`, read through
/// `DateTime::timestamp` and `DateTime::timestamp_subsec_nanos`: the text is
/// accepted exactly when it is RFC 3339, the instant depends on the text alone,
/// and the sub-second part stays below two seconds (`NaiveTime`'s invariant).
#[verifier::external_body]
pub(crate) fn parse_timestamp(s: &str) -> (r: Result<UtcInstant, chrono::ParseError>)
    ensures
        r is Ok <==> rfc3339_instant(s@) is Some,
        r matches Ok(t) ==> rfc3339_instant(s@) == Some((t.secs, t.nanos)) && t.wf(),
{
    chrono::DateTime::parse_from_rfc3339(s).map(
        |dt| UtcInstant { secs: dt.timestamp(), nanos: dt.timestamp_subsec_nanos() },
    )
}

/// Seconds past midnight of the day holding `secs` seconds since the epoch.
fn second_of_day(secs: i64) -> (r: i64)
    ensures
        r == (secs as int) % 86400,
{
    let r = secs % 86400;
    if r < 0 {
        r + 86400
    } else {
        r
    }
}

} // verus!
