use vstd::prelude::*;
use crate::instant::UtcInstant;
use crate::record::{DriverData, DriverDataWithTimestamp};
use crate::group::{
    TimestampGroup,
    groups_of,
    is_earliest,
    has_stamp,
    updates_at,
    has_driver,
    first_per_driver,
    drivers_distinct,
    lemma_first_per_driver,
};
use crate::frames::{
    FRAME_COUNT,
    SLOT_COUNT,
    slots_of,
    empty_slots,
    group_slots,
    kept_count,
    leading_zero_offsets,
    filler_start,
    ordered_frames,
};
use crate::pipeline::grouped;

verus! {

/// No driver fills two slots of the frame.
pub open spec fn slots_distinct(s: Seq<Option<DriverData>>) -> bool {
    forall|a: int, b: int|
        0 <= a < b < s.len() && s[a] is Some && s[b] is Some ==> (#[trigger] s[a])->Some_0.driver_number
            != (#[trigger] s[b])->Some_0.driver_number
}

/// Where the frame of group `j` stands in the buffer.
pub open spec fn frame_position(g: Seq<TimestampGroup>, j: int) -> int {
    if j < filler_start(g) {
        j
    } else {
        j + FRAME_COUNT - kept_count(g)
    }
}

proof fn lemma_leading_zero(s: Seq<TimestampGroup>)
    ensures
        0 <= leading_zero_offsets(s) <= s.len(),
        forall|j: int| 0 <= j < leading_zero_offsets(s) ==> (#[trigger] s[j]).offset == 0,
        leading_zero_offsets(s) < s.len() ==> s[leading_zero_offsets(s)].offset != 0,
    decreases s.len(),
{
    if s.len() > 0 && s[0].offset == 0 {
        lemma_leading_zero(s.drop_first());
        assert forall|j: int| 0 <= j < leading_zero_offsets(s) implies (#[trigger] s[j]).offset
            == 0 by {
            if j > 0 {
                assert(s[j] == s.drop_first()[j - 1]);
            }
        }
    }
}

/// Each frame of the buffer by position: the groups at offset zero, then the
/// empty fillers, then the remaining kept groups.
proof fn lemma_ordered_frames_at(g: Seq<TimestampGroup>)
    ensures
        0 <= filler_start(g) <= kept_count(g) <= g.len(),
        kept_count(g) <= FRAME_COUNT,
        ordered_frames(g).len() == FRAME_COUNT,
        forall|j: int| 0 <= j < filler_start(g) ==> (#[trigger] g[j]).offset == 0,
        filler_start(g) < kept_count(g) ==> g[filler_start(g)].offset != 0,
        forall|p: int|
            0 <= p < FRAME_COUNT ==> #[trigger] ordered_frames(g)[p] == if p < filler_start(g) {
                group_slots(g[p])
            } else if p < filler_start(g) + FRAME_COUNT - kept_count(g) {
                empty_slots()
            } else {
                group_slots(g[p - (FRAME_COUNT - kept_count(g))])
            },
{
    let k = kept_count(g);
    let kept = g.take(k);
    lemma_leading_zero(kept);
    let z = filler_start(g);
    assert forall|j: int| 0 <= j < z implies (#[trigger] g[j]).offset == 0 by {
        assert(kept[j] == g[j]);
    }
    if z < k {
        assert(kept[z] == g[z]);
    }
}

proof fn lemma_slots_of_distinct(s: Seq<DriverData>)
    requires
        drivers_distinct(s),
    ensures
        slots_distinct(slots_of(s)),
{
}

proof fn lemma_group_distinct(recs: Seq<DriverDataWithTimestamp>, base: UtcInstant, g: Seq<TimestampGroup>, j: int)
    requires
        groups_of(recs, base, g),
        0 <= j < g.len(),
    ensures
        slots_distinct(group_slots(g[j])),
{
    lemma_first_per_driver(updates_at(recs, g[j].timestamp));
    lemma_slots_of_distinct(g[j].drivers@);
}

/// Dedup: no frame of the buffer shows the same driver in two slots.
pub proof fn lemma_no_driver_twice(recs: Seq<DriverDataWithTimestamp>, g: Seq<TimestampGroup>)
    requires
        grouped(recs, g),
    ensures
        forall|p: int| 0 <= p < ordered_frames(g).len() ==> slots_distinct(#[trigger] ordered_frames(g)[p]),
{
    let base = choose|base: UtcInstant|
        (recs.len() > 0 ==> is_earliest(recs, base)) && #[trigger] groups_of(recs, base, g);
    lemma_ordered_frames_at(g);
    assert forall|p: int| 0 <= p < ordered_frames(g).len() implies slots_distinct(#[trigger] ordered_frames(g)[p]) by {
        let z = filler_start(g);
        let f = FRAME_COUNT - kept_count(g);
        if p < z {
            lemma_group_distinct(recs, base, g, p);
        } else if p >= z + f {
            lemma_group_distinct(recs, base, g, p - f);
        }
    }
}

/// Capacity: whatever the groups, the buffer holds exactly `FRAME_COUNT`
/// frames of exactly `SLOT_COUNT` slots.
pub proof fn lemma_buffer_shape(g: Seq<TimestampGroup>)
    ensures
        ordered_frames(g).len() == FRAME_COUNT,
        forall|p: int| 0 <= p < FRAME_COUNT ==> (#[trigger] ordered_frames(g)[p]).len() == SLOT_COUNT,
{
    lemma_ordered_frames_at(g);
}

/// Truncation: a frame made from at least `SLOT_COUNT` updates has every
/// slot filled, with the first `SLOT_COUNT` updates in order.
pub proof fn lemma_full_frame(s: Seq<DriverData>)
    requires
        s.len() >= SLOT_COUNT,
    ensures
        slots_of(s) == s.take(SLOT_COUNT as int).map_values(|d: DriverData| Some(d)),
{
    assert(slots_of(s) =~= s.take(SLOT_COUNT as int).map_values(|d: DriverData| Some(d)));
}

/// Ordering: each kept group's frame stands at `frame_position`, and of two
/// kept groups the one at the smaller offset comes first.
pub proof fn lemma_frames_follow_offsets(recs: Seq<DriverDataWithTimestamp>, g: Seq<TimestampGroup>)
    requires
        grouped(recs, g),
    ensures
        forall|j: int|
            0 <= j < kept_count(g) ==> 0 <= frame_position(g, j) < FRAME_COUNT && ordered_frames(g)[frame_position(g, j)]
                == group_slots(#[trigger] g[j]),
        forall|a: int, b: int|
            0 <= a < kept_count(g) && 0 <= b < kept_count(g) && (#[trigger] g[a]).offset < (
            #[trigger] g[b]).offset ==> frame_position(g, a) < frame_position(g, b),
{
    let base = choose|base: UtcInstant|
        (recs.len() > 0 ==> is_earliest(recs, base)) && #[trigger] groups_of(recs, base, g);
    lemma_ordered_frames_at(g);
    assert forall|j: int| 0 <= j < kept_count(g) implies 0 <= frame_position(g, j) < FRAME_COUNT && ordered_frames(g)[frame_position(g, j)]
        == group_slots(#[trigger] g[j]) by {
        let _ = ordered_frames(g)[frame_position(g, j)];
    }
    assert forall|a: int, b: int|
        0 <= a < kept_count(g) && 0 <= b < kept_count(g) && (#[trigger] g[a]).offset < (
        #[trigger] g[b]).offset implies frame_position(g, a) < frame_position(g, b) by {
        if b <= a {
            assert(g[b].offset <= g[a].offset);
        }
    }
}

proof fn lemma_group_not_empty(recs: Seq<DriverDataWithTimestamp>, t: UtcInstant)
    requires
        has_stamp(recs, t),
    ensures
        first_per_driver(updates_at(recs, t)).len() > 0,
    decreases recs.len(),
{
    let u = updates_at(recs, t);
    let p = recs.drop_last();
    if recs.last().timestamp != t {
        let m = choose|m: int| 0 <= m < recs.len() && (#[trigger] recs[m]).timestamp == t;
        assert(m != recs.len() - 1);
        assert(p[m] == recs[m]);
        lemma_group_not_empty(p, t);
        let fp = first_per_driver(updates_at(p, t));
        lemma_first_per_driver(updates_at(p, t));
        assert(has_driver(fp, fp[0].driver_number));
    } else {
        assert(u.len() > 0);
        assert(has_driver(u, u[0].driver_number));
    }
    lemma_first_per_driver(u);
}

/// Gap fill: the frames with every slot empty are exactly the
/// `FRAME_COUNT - kept_count(g)` fillers, which follow the frames at offset
/// zero.
pub proof fn lemma_empty_frames_are_fillers(recs: Seq<DriverDataWithTimestamp>, g: Seq<TimestampGroup>)
    requires
        grouped(recs, g),
    ensures
        forall|p: int|
            0 <= p < FRAME_COUNT ==> (#[trigger] ordered_frames(g)[p] == empty_slots() <==> filler_start(g) <= p
                < filler_start(g) + FRAME_COUNT - kept_count(g)),
{
    let base = choose|base: UtcInstant|
        (recs.len() > 0 ==> is_earliest(recs, base)) && #[trigger] groups_of(recs, base, g);
    lemma_ordered_frames_at(g);
    assert forall|p: int|
        0 <= p < FRAME_COUNT implies (#[trigger] ordered_frames(g)[p] == empty_slots() <==> filler_start(g) <= p
            < filler_start(g) + FRAME_COUNT - kept_count(g)) by {
        let z = filler_start(g);
        let f = FRAME_COUNT - kept_count(g);
        if p < z || p >= z + f {
            let j = if p < z { p } else { p - f };
            lemma_group_not_empty(recs, g[j].timestamp);
            assert(group_slots(g[j])[0] is Some);
            assert(empty_slots()[0] is None);
        }
    }
}

/// The instants that occur in the records.
pub open spec fn instants_of(recs: Seq<DriverDataWithTimestamp>) -> Set<UtcInstant> {
    recs.map_values(|r: DriverDataWithTimestamp| r.timestamp).to_set()
}

/// One group per instant: the groups' instants are exactly those of the
/// records, so there are as many groups as distinct instants.
pub proof fn lemma_one_group_per_instant(recs: Seq<DriverDataWithTimestamp>, g: Seq<TimestampGroup>)
    requires
        grouped(recs, g),
    ensures
        g.map_values(|x: TimestampGroup| x.timestamp).to_set() == instants_of(recs),
        g.len() == instants_of(recs).len(),
{
    let base = choose|base: UtcInstant|
        (recs.len() > 0 ==> is_earliest(recs, base)) && #[trigger] groups_of(recs, base, g);
    let ts = g.map_values(|x: TimestampGroup| x.timestamp);
    let rs = recs.map_values(|r: DriverDataWithTimestamp| r.timestamp);
    assert forall|t: UtcInstant| ts.to_set().contains(t) <==> rs.to_set().contains(t) by {
        if ts.to_set().contains(t) {
            let j = choose|j: int| 0 <= j < ts.len() && ts[j] == t;
            assert(has_stamp(recs, g[j].timestamp));
            let m = choose|m: int| 0 <= m < recs.len() && (#[trigger] recs[m]).timestamp == t;
            assert(rs[m] == t);
        }
        if rs.to_set().contains(t) {
            let m = choose|m: int| 0 <= m < rs.len() && rs[m] == t;
            assert(recs[m].timestamp == t);
            let j = choose|j: int|
                0 <= j < g.len() && (#[trigger] g[j]).timestamp == (#[trigger] recs[m]).timestamp;
            assert(ts[j] == t);
        }
    }
    assert(ts.to_set() =~= rs.to_set());
    assert forall|a: int, b: int| 0 <= a < ts.len() && 0 <= b < ts.len() && a != b implies ts[a] != ts[b] by {
        if a < b {
            assert(g[a].timestamp != g[b].timestamp);
        } else {
            assert(g[b].timestamp != g[a].timestamp);
        }
    }
    ts.unique_seq_to_set();
}

} // verus!
