use vstd::prelude::*;
use crate::instant::UtcInstant;
use crate::record::{DriverData, DriverDataWithTimestamp};

verus! {

/// `a` comes strictly before `b`.
pub open spec fn is_before(a: UtcInstant, b: UtcInstant) -> bool {
    a.secs < b.secs || (a.secs == b.secs && a.nanos < b.nanos)
}

/// Some record carries the instant `t`.
pub open spec fn has_stamp(recs: Seq<DriverDataWithTimestamp>, t: UtcInstant) -> bool {
    exists|m: int| 0 <= m < recs.len() && (#[trigger] recs[m]).timestamp == t
}

/// `t` is the earliest instant among the records.
pub open spec fn is_earliest(recs: Seq<DriverDataWithTimestamp>, t: UtcInstant) -> bool {
    &&& has_stamp(recs, t)
    &&& forall|m: int| 0 <= m < recs.len() ==> !is_before(#[trigger] recs[m].timestamp, t)
}

/// The updates recorded at instant `t`, in input order.
pub open spec fn updates_at(recs: Seq<DriverDataWithTimestamp>, t: UtcInstant) -> Seq<DriverData>
    decreases recs.len(),
{
    if recs.len() == 0 {
        Seq::empty()
    } else if recs.last().timestamp == t {
        updates_at(recs.drop_last(), t).push(recs.last().driver_data)
    } else {
        updates_at(recs.drop_last(), t)
    }
}

/// Some update of `s` is for driver `n`.
pub open spec fn has_driver(s: Seq<DriverData>, n: u32) -> bool {
    exists|j: int| 0 <= j < s.len() && (#[trigger] s[j]).driver_number == n
}

/// `s` keeping only the first update of each driver.
pub open spec fn first_per_driver(s: Seq<DriverData>) -> Seq<DriverData>
    decreases s.len(),
{
    if s.len() == 0 {
        Seq::empty()
    } else if has_driver(s.drop_last(), s.last().driver_number) {
        first_per_driver(s.drop_last())
    } else {
        first_per_driver(s.drop_last()).push(s.last())
    }
}

/// No driver appears twice in `s`.
pub open spec fn drivers_distinct(s: Seq<DriverData>) -> bool {
    forall|j: int, k: int|
        0 <= j < k < s.len() ==> (#[trigger] s[j]).driver_number != (#[trigger] s[k]).driver_number
}

proof fn lemma_has_driver_push(x: Seq<DriverData>, e: DriverData, n: u32)
    ensures
        has_driver(x.push(e), n) == (has_driver(x, n) || e.driver_number == n),
{
    let y = x.push(e);
    if has_driver(x, n) {
        let j = choose|j: int| 0 <= j < x.len() && (#[trigger] x[j]).driver_number == n;
        assert(y[j] == x[j]);
    }
    if e.driver_number == n {
        assert(y[x.len() as int] == e);
    }
    if has_driver(y, n) {
        let j = choose|j: int| 0 <= j < y.len() && (#[trigger] y[j]).driver_number == n;
        if j < x.len() {
            assert(y[j] == x[j]);
        }
    }
}

pub proof fn lemma_first_per_driver(s: Seq<DriverData>)
    ensures
        forall|n: u32| has_driver(first_per_driver(s), n) == has_driver(s, n),
        drivers_distinct(first_per_driver(s)),
    decreases s.len(),
{
    if s.len() > 0 {
        let p = s.drop_last();
        let e = s.last();
        assert(s =~= p.push(e));
        lemma_first_per_driver(p);
        assert forall|n: u32| has_driver(first_per_driver(s), n) == has_driver(s, n) by {
            lemma_has_driver_push(p, e, n);
            lemma_has_driver_push(first_per_driver(p), e, n);
        }
        if !has_driver(p, e.driver_number) {
            let f = first_per_driver(s);
            let fp = first_per_driver(p);
            assert forall|j: int, k: int| 0 <= j < k < f.len() implies (#[trigger] f[j]).driver_number
                != (#[trigger] f[k]).driver_number by {
                if k == f.len() - 1 {
                    assert(f[j] == fp[j]);
                    assert(!has_driver(fp, e.driver_number));
                } else {
                    assert(f[j] == fp[j] && f[k] == fp[k]);
                }
            }
        }
    }
}

/// The updates of one distinct instant, first per driver, with the time
/// elapsed from the base instant to it.
#[derive(Debug, Clone)]
pub struct TimestampGroup {
    pub timestamp: UtcInstant,
    pub offset: u128,
    pub drivers: Vec<DriverData>,
}

/// What holds of the groups of `recs` about the base instant `base`: each
/// group holds the first update per driver at its instant, instants are
/// distinct and are exactly the records' instants, and offsets never
/// decrease along the sequence.
pub open spec fn groups_of(
    recs: Seq<DriverDataWithTimestamp>,
    base: UtcInstant,
    g: Seq<TimestampGroup>,
) -> bool {
    &&& forall|j: int|
        0 <= j < g.len() ==> (#[trigger] g[j]).drivers@ == first_per_driver(
            updates_at(recs, g[j].timestamp),
        ) && g[j].offset as nat == g[j].timestamp.offset_from(base) && has_stamp(recs, g[j].timestamp)
    &&& forall|j: int, k: int|
        0 <= j < k < g.len() ==> (#[trigger] g[j]).timestamp != (#[trigger] g[k]).timestamp
    &&& forall|m: int|
        0 <= m < recs.len() ==> exists|j: int|
            0 <= j < g.len() && (#[trigger] g[j]).timestamp == (#[trigger] recs[m]).timestamp
    &&& forall|j: int, k: int|
        0 <= j <= k < g.len() ==> (#[trigger] g[j]).offset <= (#[trigger] g[k]).offset
}

/// The earliest instant among the records, if there are any.
pub fn earliest_instant(records: &Vec<DriverDataWithTimestamp>) -> (r: Option<UtcInstant>)
    ensures
        records@.len() == 0 <==> r is None,
        r matches Some(t) ==> is_earliest(records@, t),
{
    if records.len() == 0 {
        return None;
    }
    let mut best = records[0].timestamp;
    let mut i: usize = 1;
    while i < records.len()
        invariant
            1 <= i <= records@.len(),
            has_stamp(records@, best),
            forall|m: int| 0 <= m < i ==> !is_before(#[trigger] records@[m].timestamp, best),
        decreases records@.len() - i,
    {
        let t = records[i].timestamp;
        if t.secs < best.secs || (t.secs == best.secs && t.nanos < best.nanos) {
            best = t;
        }
        i = i + 1;
    }
    Some(best)
}

} // verus!
verus! {

fn find_group(groups: &Vec<TimestampGroup>, t: UtcInstant) -> (r: Option<usize>)
    ensures
        r matches Some(j) ==> j < groups@.len() && groups@[j as int].timestamp == t,
        r is None ==> forall|k: int| 0 <= k < groups@.len() ==> (#[trigger] groups@[k]).timestamp != t,
{
    let mut j: usize = 0;
    while j < groups.len()
        invariant
            j <= groups@.len(),
            forall|k: int| 0 <= k < j ==> (#[trigger] groups@[k]).timestamp != t,
        decreases groups@.len() - j,
    {
        if groups[j].timestamp == t {
            return Some(j);
        }
        j = j + 1;
    }
    None
}

fn contains_driver(v: &Vec<DriverData>, n: u32) -> (r: bool)
    ensures
        r == has_driver(v@, n),
{
    let mut j: usize = 0;
    while j < v.len()
        invariant
            j <= v@.len(),
            forall|k: int| 0 <= k < j ==> (#[trigger] v@[k]).driver_number != n,
        decreases v@.len() - j,
    {
        if v[j].driver_number == n {
            return true;
        }
        j = j + 1;
    }
    false
}

/// Where a group of offset `o` goes so that offsets stay in order, after
/// every group of the same offset.
fn insert_position(groups: &Vec<TimestampGroup>, o: u128) -> (p: usize)
    requires
        forall|j: int, k: int|
            0 <= j <= k < groups@.len() ==> (#[trigger] groups@[j]).offset <= (
            #[trigger] groups@[k]).offset,
    ensures
        p <= groups@.len(),
        forall|k: int| 0 <= k < p ==> (#[trigger] groups@[k]).offset <= o,
        forall|k: int| p <= k < groups@.len() ==> (#[trigger] groups@[k]).offset > o,
{
    let mut p: usize = 0;
    while p < groups.len()
        invariant
            p <= groups@.len(),
            forall|k: int| 0 <= k < p ==> (#[trigger] groups@[k]).offset <= o,
            forall|j: int, k: int|
                0 <= j <= k < groups@.len() ==> (#[trigger] groups@[j]).offset <= (
                #[trigger] groups@[k]).offset,
        decreases groups@.len() - p,
    {
        if groups[p].offset > o {
            assert forall|k: int| p <= k < groups@.len() implies (#[trigger] groups@[k]).offset
                > o by {
                assert(groups@[p as int].offset <= groups@[k].offset);
            }
            return p;
        }
        p = p + 1;
    }
    p
}

proof fn lemma_updates_at_push(
    recs: Seq<DriverDataWithTimestamp>,
    r: DriverDataWithTimestamp,
    t: UtcInstant,
)
    ensures
        updates_at(recs.push(r), t) == (if r.timestamp == t {
            updates_at(recs, t).push(r.driver_data)
        } else {
            updates_at(recs, t)
        }),
{
    assert(recs.push(r).drop_last() =~= recs);
}

proof fn lemma_first_per_driver_single(d: DriverData)
    ensures
        first_per_driver(seq![d]) == seq![d],
{
    let s = seq![d];
    assert(s.drop_last() =~= Seq::<DriverData>::empty());
    assert(!has_driver(s.drop_last(), d.driver_number));
    assert(first_per_driver(s.drop_last()) =~= Seq::<DriverData>::empty());
    assert(Seq::<DriverData>::empty().push(d) =~= s);
}

proof fn lemma_updates_at_absent(recs: Seq<DriverDataWithTimestamp>, t: UtcInstant)
    requires
        !has_stamp(recs, t),
    ensures
        updates_at(recs, t) == Seq::<DriverData>::empty(),
    decreases recs.len(),
{
    if recs.len() > 0 {
        let p = recs.drop_last();
        assert(recs[recs.len() - 1] == recs.last());
        assert forall|m: int| 0 <= m < p.len() implies (#[trigger] p[m]).timestamp != t by {
            assert(recs[m] == p[m]);
        }
        lemma_updates_at_absent(p, t);
    }
}

/// Adds record `i` to the groups of the records before it.
#[verifier::rlimit(40)]
fn add_record(
    groups: &mut Vec<TimestampGroup>,
    records: &Vec<DriverDataWithTimestamp>,
    i: usize,
    base: &UtcInstant,
)
    requires
        i < records@.len(),
        groups_of(records@.subrange(0, i as int), *base, old(groups)@),
    ensures
        groups_of(records@.subrange(0, i + 1), *base, final(groups)@),
{
    let rec = records[i];
    let t = rec.timestamp;
    let ghost pre = records@.subrange(0, i as int);
    let ghost post = records@.subrange(0, i + 1);
    let ghost old_groups = groups@;
    assert(post =~= pre.push(rec));
    proof {
        assert forall|u: UtcInstant| has_stamp(pre, u) implies has_stamp(post, u) by {
            let m = choose|m: int| 0 <= m < pre.len() && (#[trigger] pre[m]).timestamp == u;
            assert(post[m] == pre[m]);
        }
        assert(post[i as int] == rec);
        assert forall|u: UtcInstant| u != t implies #[trigger] updates_at(post, u) == updates_at(pre, u) by {
            lemma_updates_at_push(pre, rec, u);
        }
        lemma_updates_at_push(pre, rec, t);
    }
    match find_group(&groups, t) {
        Some(j) => {
            let n = rec.driver_data.driver_number;
            proof {
                let u = updates_at(pre, t);
                lemma_first_per_driver(u);
                lemma_has_driver_push(u, rec.driver_data, n);
                assert(u.push(rec.driver_data).drop_last() =~= u);
                assert(u.push(rec.driver_data).last() == rec.driver_data);
            }
            if !contains_driver(&groups[j].drivers, n) {
                let mut grp = groups.remove(j);
                grp.drivers.push(rec.driver_data);
                groups.insert(j, grp);
                assert(groups@ =~= old_groups.update(j as int, grp));
            }
            assert forall|m: int| 0 <= m < post.len() implies exists|k: int|
                0 <= k < groups@.len() && (#[trigger] groups@[k]).timestamp == (
                #[trigger] post[m]).timestamp by {
                if m < pre.len() {
                    assert(pre[m] == post[m]);
                    let k = choose|k: int|
                        0 <= k < old_groups.len() && (#[trigger] old_groups[k]).timestamp
                            == (#[trigger] pre[m]).timestamp;
                    assert(groups@[k].timestamp == old_groups[k].timestamp);
                } else {
                    assert(groups@[j as int].timestamp == post[m].timestamp);
                }
            }
            assert forall|k: int| 0 <= k < groups@.len() implies (#[trigger] groups@[k]).drivers@
                == first_per_driver(updates_at(post, groups@[k].timestamp)) && groups@[k].offset as nat
                == groups@[k].timestamp.offset_from(*base) && has_stamp(post, groups@[k].timestamp) by {
                if k != j {
                    assert(old_groups[k] == groups@[k]);
                    assert(old_groups[k].timestamp != old_groups[j as int].timestamp);
                }
            }
            assert forall|a: int, b: int|
                0 <= a <= b < groups@.len() implies (#[trigger] groups@[a]).offset <= (
                #[trigger] groups@[b]).offset by {
                assert(old_groups[a].offset <= old_groups[b].offset);
            }
            assert forall|a: int, b: int|
                0 <= a < b < groups@.len() implies (#[trigger] groups@[a]).timestamp != (
                #[trigger] groups@[b]).timestamp by {
                assert(old_groups[a].timestamp != old_groups[b].timestamp);
            }
        },
        None => {
            let offset = t.elapsed_since(base);
            let p = insert_position(&groups, offset);
            let mut drivers: Vec<DriverData> = Vec::new();
            drivers.push(rec.driver_data);
            let grp = TimestampGroup { timestamp: t, offset, drivers };
            proof {
                assert(!has_stamp(pre, t)) by {
                    if has_stamp(pre, t) {
                        let m = choose|m: int| 0 <= m < pre.len() && (#[trigger] pre[m]).timestamp == t;
                        let k = choose|k: int|
                            0 <= k < old_groups.len() && (#[trigger] old_groups[k]).timestamp
                                == (#[trigger] pre[m]).timestamp;
                    }
                }
                lemma_updates_at_absent(pre, t);
                assert(updates_at(post, t) =~= seq![rec.driver_data]);
                assert(seq![rec.driver_data].drop_last() =~= Seq::<DriverData>::empty());
                lemma_first_per_driver_single(rec.driver_data);
                assert(has_stamp(post, t));
            }
            groups.insert(p, grp);
            assert(groups@ =~= old_groups.insert(p as int, grp));
            assert forall|m: int| 0 <= m < post.len() implies exists|k: int|
                0 <= k < groups@.len() && (#[trigger] groups@[k]).timestamp == (
                #[trigger] post[m]).timestamp by {
                if m < pre.len() {
                    assert(pre[m] == post[m]);
                    let k = choose|k: int|
                        0 <= k < old_groups.len() && (#[trigger] old_groups[k]).timestamp
                            == (#[trigger] pre[m]).timestamp;
                    if k < p {
                        assert(groups@[k].timestamp == old_groups[k].timestamp);
                    } else {
                        assert(groups@[k + 1].timestamp == old_groups[k].timestamp);
                    }
                } else {
                    assert(groups@[p as int].timestamp == post[m].timestamp);
                }
            }
            assert forall|a: int, b: int|
                0 <= a <= b < groups@.len() implies (#[trigger] groups@[a]).offset <= (
                #[trigger] groups@[b]).offset by {
                if a < p && b > p {
                    assert(old_groups[a].offset <= old_groups[b - 1].offset);
                }
            }
        },
    }
}

/// Collapses the records into one group per distinct instant, keeping the
/// first update of each driver, with groups ordered by the time elapsed
/// from `base`; groups of equal offset stay in order of first appearance.
pub fn group_by_timestamp(records: &Vec<DriverDataWithTimestamp>, base: &UtcInstant) -> (g: Vec<
    TimestampGroup,
>)
    ensures
        groups_of(records@, *base, g@),
{
    let mut groups: Vec<TimestampGroup> = Vec::new();
    let mut i: usize = 0;
    while i < records.len()
        invariant
            i <= records@.len(),
            groups_of(records@.subrange(0, i as int), *base, groups@),
        decreases records@.len() - i,
    {
        add_record(&mut groups, records, i, base);
        i = i + 1;
    }
    assert(records@.subrange(0, i as int) =~= records@);
    groups
}

} // verus!
