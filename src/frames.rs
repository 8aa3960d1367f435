use vstd::prelude::*;
use crate::record::DriverData;
use crate::group::TimestampGroup;

verus! {

/// Slots in one frame.
pub const SLOT_COUNT: usize = 20;

/// Frames in a finished buffer.
pub const FRAME_COUNT: usize = 1548;

/// Milliseconds between two frames when played back.
pub const UPDATE_RATE_MS: u32 = 1000;

/// One time slice of the display: `SLOT_COUNT` slots, each empty or holding
/// one driver's position.
#[derive(Debug, Clone)]
pub struct UpdateFrame {
    pub drivers: Vec<Option<DriverData>>,
}

/// The finished animation buffer: the playback interval and `FRAME_COUNT`
/// frames in display order.
#[derive(Debug, Clone)]
pub struct VisualizationData {
    pub update_rate_ms: u32,
    pub frames: Vec<UpdateFrame>,
}

impl VisualizationData {
    /// A finished buffer holds `FRAME_COUNT` frames of `SLOT_COUNT` slots.
    pub open spec fn wf(&self) -> bool {
        &&& self.frames@.len() == FRAME_COUNT
        &&& forall|p: int| 0 <= p < FRAME_COUNT ==> (#[trigger] self.frames@[p]).drivers@.len() == SLOT_COUNT
    }
}

/// The slots of a frame filled from `s` in order: the first `SLOT_COUNT`
/// updates, then empty slots.
pub open spec fn slots_of(s: Seq<DriverData>) -> Seq<Option<DriverData>> {
    Seq::new(SLOT_COUNT as nat, |i: int| if i < s.len() { Some(s[i]) } else { None })
}

/// The slots of a frame with nothing in it.
pub open spec fn empty_slots() -> Seq<Option<DriverData>> {
    Seq::new(SLOT_COUNT as nat, |i: int| None)
}

/// The slots that a group's frame shows.
pub open spec fn group_slots(g: TimestampGroup) -> Seq<Option<DriverData>> {
    slots_of(g.drivers@)
}

/// The slots of each frame, in order.
pub open spec fn frames_view(v: Seq<UpdateFrame>) -> Seq<Seq<Option<DriverData>>> {
    v.map_values(|f: UpdateFrame| f.drivers@)
}

/// How many groups get a frame: at most `FRAME_COUNT`.
pub open spec fn kept_count(g: Seq<TimestampGroup>) -> int {
    if g.len() < FRAME_COUNT {
        g.len() as int
    } else {
        FRAME_COUNT as int
    }
}

/// How many groups at the front of `g` are at offset zero.
pub open spec fn leading_zero_offsets(g: Seq<TimestampGroup>) -> int
    decreases g.len(),
{
    if g.len() > 0 && g[0].offset == 0 {
        1 + leading_zero_offsets(g.drop_first())
    } else {
        0
    }
}

/// Number of frames that come before the empty filler frames.
pub open spec fn filler_start(g: Seq<TimestampGroup>) -> int {
    leading_zero_offsets(g.take(kept_count(g)))
}

/// The frames of the buffer made from groups `g`: the first `FRAME_COUNT`
/// groups each give a frame, empty frames at offset zero make up the rest, and
/// frames are stably ordered by offset, so the fillers come right after the
/// groups at offset zero.
pub open spec fn ordered_frames(g: Seq<TimestampGroup>) -> Seq<Seq<Option<DriverData>>> {
    let kept = g.take(kept_count(g));
    let z = filler_start(g);
    kept.take(z).map_values(|x: TimestampGroup| group_slots(x)) + Seq::new(
        (FRAME_COUNT - kept_count(g)) as nat,
        |i: int| empty_slots(),
    ) + kept.skip(z).map_values(|x: TimestampGroup| group_slots(x))
}

impl UpdateFrame {
    /// A frame with every slot empty.
    pub fn empty() -> (r: UpdateFrame)
        ensures
            r.drivers@ == empty_slots(),
    {
        let mut drivers: Vec<Option<DriverData>> = Vec::new();
        let mut i: usize = 0;
        while i < SLOT_COUNT
            invariant
                i <= SLOT_COUNT,
                drivers@ == Seq::new(i as nat, |j: int| None::<DriverData>),
            decreases SLOT_COUNT - i,
        {
            drivers.push(None);
            i = i + 1;
            assert(drivers@ =~= Seq::new(i as nat, |j: int| None::<DriverData>));
        }
        assert(drivers@ =~= empty_slots());
        UpdateFrame { drivers }
    }

    /// A frame showing the first `SLOT_COUNT` updates in order, one per slot;
    /// later updates are dropped.
    pub fn from_updates(updates: &Vec<DriverData>) -> (r: UpdateFrame)
        ensures
            r.drivers@ == slots_of(updates@),
    {
        let mut drivers: Vec<Option<DriverData>> = Vec::new();
        let mut i: usize = 0;
        while i < SLOT_COUNT
            invariant
                i <= SLOT_COUNT,
                drivers@ == slots_of(updates@).take(i as int),
            decreases SLOT_COUNT - i,
        {
            if i < updates.len() {
                drivers.push(Some(updates[i]));
            } else {
                drivers.push(None);
            }
            i = i + 1;
            assert(drivers@ =~= slots_of(updates@).take(i as int));
        }
        assert(drivers@ =~= slots_of(updates@));
        UpdateFrame { drivers }
    }
}

proof fn lemma_frames_view_push(v: Seq<UpdateFrame>, f: UpdateFrame)
    ensures
        frames_view(v.push(f)) == frames_view(v).push(f.drivers@),
{
    assert(frames_view(v.push(f)) =~= frames_view(v).push(f.drivers@));
}

/// Counts the groups at offset zero at the front of the first `k` groups.
fn count_leading_zero(groups: &Vec<TimestampGroup>, k: usize) -> (z: usize)
    requires
        k <= groups@.len(),
    ensures
        z == leading_zero_offsets(groups@.take(k as int)),
        z <= k,
{
    let ghost kept = groups@.take(k as int);
    let mut z: usize = 0;
    assert(kept.skip(0) =~= kept);
    while z < k && groups[z].offset == 0
        invariant
            z <= k <= groups@.len(),
            kept == groups@.take(k as int),
            leading_zero_offsets(kept) == z + leading_zero_offsets(kept.skip(z as int)),
        decreases k - z,
    {
        assert(kept.skip(z as int).drop_first() =~= kept.skip(z + 1));
        z = z + 1;
    }
    if z < k {
        assert(kept.skip(z as int)[0] == groups@[z as int]);
    } else {
        assert(kept.skip(z as int).len() == 0);
    }
    z
}

/// Lays the groups out as the buffer's frames: one frame per group for the
/// first `FRAME_COUNT` groups, empty frames at offset zero for the rest, the
/// whole stably ordered by offset as far as the groups' order allows.
pub fn frames_from_groups(groups: &Vec<TimestampGroup>) -> (r: Vec<UpdateFrame>)
    ensures
        frames_view(r@) == ordered_frames(groups@),
{
    let k: usize = if groups.len() < FRAME_COUNT {
        groups.len()
    } else {
        FRAME_COUNT
    };
    let ghost kept = groups@.take(k as int);
    let z = count_leading_zero(groups, k);
    let ghost first = kept.take(z as int).map_values(|x: TimestampGroup| group_slots(x));
    let ghost fill = Seq::new((FRAME_COUNT - k) as nat, |i: int| empty_slots());
    let ghost rest = kept.skip(z as int).map_values(|x: TimestampGroup| group_slots(x));
    let mut out: Vec<UpdateFrame> = Vec::new();
    let mut j: usize = 0;
    while j < z
        invariant
            j <= z <= k <= groups@.len(),
            kept == groups@.take(k as int),
            first == kept.take(z as int).map_values(|x: TimestampGroup| group_slots(x)),
            frames_view(out@) == first.take(j as int),
        decreases z - j,
    {
        let frame = UpdateFrame::from_updates(&groups[j].drivers);
        proof {
            lemma_frames_view_push(out@, frame);
            assert(first[j as int] == group_slots(groups@[j as int]));
            assert(first.take(j + 1) =~= first.take(j as int).push(first[j as int]));
        }
        out.push(frame);
        j = j + 1;
    }
    assert(first.take(z as int) =~= first);
    let mut f: usize = 0;
    while f < FRAME_COUNT - k
        invariant
            f <= FRAME_COUNT - k,
            k <= FRAME_COUNT,
            fill == Seq::new((FRAME_COUNT - k) as nat, |i: int| empty_slots()),
            frames_view(out@) == first + fill.take(f as int),
        decreases FRAME_COUNT - k - f,
    {
        let frame = UpdateFrame::empty();
        proof {
            lemma_frames_view_push(out@, frame);
            assert(first + fill.take(f + 1) =~= (first + fill.take(f as int)).push(fill[f as int]));
        }
        out.push(frame);
        f = f + 1;
    }
    assert(fill.take(f as int) =~= fill);
    let mut j: usize = z;
    while j < k
        invariant
            z <= j <= k <= groups@.len(),
            kept == groups@.take(k as int),
            rest == kept.skip(z as int).map_values(|x: TimestampGroup| group_slots(x)),
            frames_view(out@) == first + fill + rest.take(j - z),
        decreases k - j,
    {
        let frame = UpdateFrame::from_updates(&groups[j].drivers);
        proof {
            lemma_frames_view_push(out@, frame);
            assert(rest[j - z] == group_slots(groups@[j as int]));
            assert(first + fill + rest.take(j + 1 - z) =~= (first + fill + rest.take(j - z)).push(
                rest[j - z],
            ));
        }
        out.push(frame);
        j = j + 1;
    }
    assert(rest.take(k - z) =~= rest);
    out
}

} // verus!
