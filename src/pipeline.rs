use vstd::prelude::*;
use crate::instant::UtcInstant;
use crate::record::{DriverDataWithTimestamp, LineError, RecordError, record_of, parse_lines};
use crate::group::{TimestampGroup, groups_of, earliest_instant, group_by_timestamp, is_earliest};
use crate::frames::{
    VisualizationData,
    UPDATE_RATE_MS,
    FRAME_COUNT,
    SLOT_COUNT,
    frames_view,
    ordered_frames,
    frames_from_groups,
};

use crate::laws::lemma_buffer_shape;

verus! {

/// `g` are the groups of `recs` about their earliest instant.
pub open spec fn grouped(recs: Seq<DriverDataWithTimestamp>, g: Seq<TimestampGroup>) -> bool {
    exists|base: UtcInstant|
        (recs.len() > 0 ==> is_earliest(recs, base)) && #[trigger] groups_of(recs, base, g)
}

/// `v` is the buffer that the records `recs` give: the fixed interval, and
/// the frames laid out from the records grouped by instant, with offsets
/// measured from the earliest instant.
pub open spec fn buffer_of(recs: Seq<DriverDataWithTimestamp>, v: VisualizationData) -> bool {
    &&& v.update_rate_ms == UPDATE_RATE_MS
    &&& exists|g: Seq<TimestampGroup>|
        grouped(recs, g) && #[trigger] ordered_frames(g) == frames_view(v.frames@)
}

/// `recs` are the records that the rows after the header hold, in order.
pub open spec fn rows_hold(lines: Seq<String>, recs: Seq<DriverDataWithTimestamp>) -> bool {
    &&& recs.len() == if lines.len() == 0 {
        0
    } else {
        lines.len() - 1
    }
    &&& forall|i: int|
        0 <= i < recs.len() ==> record_of(#[trigger] lines[i + 1]@) == Ok::<
            DriverDataWithTimestamp,
            RecordError,
        >(recs[i])
}

/// Builds the animation buffer from parsed records.
pub fn build_visualization(records: &Vec<DriverDataWithTimestamp>) -> (r: VisualizationData)
    ensures
        buffer_of(records@, r),
        r.wf(),
{
    let base = match earliest_instant(records) {
        Some(t) => t,
        None => UtcInstant { secs: 0, nanos: 0 },
    };
    let groups = group_by_timestamp(records, &base);
    let frames = frames_from_groups(&groups);
    assert(grouped(records@, groups@));
    proof {
        lemma_buffer_shape(groups@);
        assert forall|p: int| 0 <= p < FRAME_COUNT implies (#[trigger] frames@[p]).drivers@.len() == SLOT_COUNT by {
            assert(frames_view(frames@)[p] == frames@[p].drivers@);
        }
    }
    VisualizationData { update_rate_ms: UPDATE_RATE_MS, frames }
}

/// Reads the lines of a log (a header, then one row per update) and builds
/// the animation buffer, or reports the first row that cannot be read.
pub fn visualize_lines(lines: &Vec<String>) -> (r: Result<VisualizationData, LineError>)
    ensures
        r is Err <==> exists|i: int| 1 <= i < lines@.len() && (#[trigger] record_of(lines@[i]@)) is Err,
        r matches Err(e) ==> {
            &&& 1 <= e.line < lines@.len()
            &&& record_of(lines@[e.line as int]@) == Err::<DriverDataWithTimestamp, _>(e.error)
            &&& forall|i: int| 1 <= i < e.line ==> (#[trigger] record_of(lines@[i]@)) is Ok
        },
        r matches Ok(v) ==> exists|recs: Seq<DriverDataWithTimestamp>|
            #[trigger] rows_hold(lines@, recs) && buffer_of(recs, v),
{
    match parse_lines(lines) {
        Ok(records) => {
            let v = build_visualization(&records);
            assert(rows_hold(lines@, records@));
            Ok(v)
        },
        Err(e) => Err(e),
    }
}

} // verus!
