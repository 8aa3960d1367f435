use vstd::prelude::*;
use crate::record::DriverData;
use crate::frames::{UpdateFrame, VisualizationData, FRAME_COUNT, SLOT_COUNT, frames_view};

verus! {

/// Bytes of one slot: a tag, then the driver number and the LED position as
/// eight lower-case hex digits each.
pub const SLOT_TEXT_LEN: usize = 17;

/// Bytes of one slot with the separator that follows it.
pub const SLOT_UNIT_LEN: usize = 18;

/// Bytes of one frame: its slots, separated by spaces, ending in a newline.
pub const FRAME_TEXT_LEN: usize = 360;

/// Bytes of the header: the update interval in hex and a newline.
pub const HEADER_LEN: usize = 9;

/// Bytes of a whole encoded buffer.
pub const BUFFER_TEXT_LEN: usize = 557289;

/// The hex digit of `d`, which is below sixteen.
pub open spec fn hex_char(d: u32) -> u8 {
    if d < 10 {
        (48 + d) as u8
    } else {
        (87 + d) as u8
    }
}

/// The value of a lower-case hex digit.
pub open spec fn hex_val(c: u8) -> Option<u32> {
    if 48 <= c <= 57 {
        Some((c - 48) as u32)
    } else if 97 <= c <= 102 {
        Some((c - 87) as u32)
    } else {
        None
    }
}

/// Hex digit `i` of `n`, counted from the most significant.
pub open spec fn nibble(n: u32, i: int) -> u32 {
    (n >> ((28 - 4 * i) as u32)) & 0xf
}

/// `n` as eight hex digits.
pub open spec fn hex8(n: u32) -> Seq<u8> {
    Seq::new(8, |i: int| hex_char(nibble(n, i)))
}

/// The number that a run of hex digits spells, if all are hex digits.
pub open spec fn read_hex(s: Seq<u8>) -> Option<u32>
    decreases s.len(),
{
    if s.len() == 0 {
        Some(0)
    } else {
        match (read_hex(s.drop_last()), hex_val(s.last())) {
            (Some(a), Some(d)) => Some((a << 4u32) | d),
            _ => None,
        }
    }
}

/// The text of one slot.
pub open spec fn slot_text(s: Option<DriverData>) -> Seq<u8> {
    match s {
        None => seq![45u8] + hex8(0) + hex8(0),
        Some(d) => seq![43u8] + hex8(d.driver_number) + hex8(d.led_num),
    }
}

/// What follows slot `i` of a frame: a space, or a newline after the last.
pub open spec fn slot_sep(i: int) -> u8 {
    if i == SLOT_COUNT - 1 {
        10u8
    } else {
        32u8
    }
}

/// The text of one frame.
pub open spec fn frame_text(f: Seq<Option<DriverData>>) -> Seq<u8> {
    f.map(|i: int, s: Option<DriverData>| slot_text(s).push(slot_sep(i))).flatten()
}

/// The text of a buffer with interval `rate` and frames `fs`.
pub open spec fn buffer_text(rate: u32, fs: Seq<Seq<Option<DriverData>>>) -> Seq<u8> {
    hex8(rate).push(10u8) + fs.map_values(|f: Seq<Option<DriverData>>| frame_text(f)).flatten()
}

/// The slot that a slot's text holds.
pub open spec fn read_slot(b: Seq<u8>) -> Option<Option<DriverData>> {
    let dn = read_hex(b.subrange(1, 9));
    let led = read_hex(b.subrange(9, 17));
    if b.len() == SLOT_TEXT_LEN && dn is Some && led is Some {
        if b[0] == 43u8 {
            Some(Some(DriverData { driver_number: dn->Some_0, led_num: led->Some_0 }))
        } else if b[0] == 45u8 && dn == Some(0u32) && led == Some(0u32) {
            Some(None)
        } else {
            None
        }
    } else {
        None
    }
}

/// The bytes of slot `s` within a frame's text, separator left out.
pub open spec fn slot_bytes(b: Seq<u8>, s: int) -> Seq<u8> {
    b.subrange(SLOT_UNIT_LEN * s, SLOT_UNIT_LEN * s + SLOT_TEXT_LEN)
}

/// The slots that a frame's text holds.
pub open spec fn read_frame(b: Seq<u8>) -> Option<Seq<Option<DriverData>>> {
    if b.len() == FRAME_TEXT_LEN && forall|s: int|
        0 <= s < SLOT_COUNT ==> (#[trigger] read_slot(slot_bytes(b, s))) is Some && b[SLOT_UNIT_LEN
            * s + SLOT_TEXT_LEN] == slot_sep(s) {
        Some(Seq::new(SLOT_COUNT as nat, |s: int| read_slot(slot_bytes(b, s))->Some_0))
    } else {
        None
    }
}

/// The bytes of frame `p` within a buffer's text.
pub open spec fn frame_bytes(b: Seq<u8>, p: int) -> Seq<u8> {
    b.subrange(HEADER_LEN + FRAME_TEXT_LEN * p, HEADER_LEN + FRAME_TEXT_LEN * p + FRAME_TEXT_LEN)
}

/// The interval and frames that a buffer's text holds.
pub open spec fn read_buffer(b: Seq<u8>) -> Option<(u32, Seq<Seq<Option<DriverData>>>)> {
    if b.len() == BUFFER_TEXT_LEN && read_hex(b.take(8)) is Some && b[8] == 10u8 && forall|p: int|
        0 <= p < FRAME_COUNT ==> (#[trigger] read_frame(frame_bytes(b, p))) is Some {
        Some(
            (
                read_hex(b.take(8))->Some_0,
                Seq::new(FRAME_COUNT as nat, |p: int| read_frame(frame_bytes(b, p))->Some_0),
            ),
        )
    } else {
        None
    }
}

proof fn lemma_hex_char(d: u32)
    requires
        d < 16,
    ensures
        hex_val(hex_char(d)) == Some(d),
{
}

proof fn lemma_read_hex_step(s: Seq<u8>, k: int)
    requires
        0 <= k < s.len(),
    ensures
        read_hex(s.take(k + 1)) == match (read_hex(s.take(k)), hex_val(s[k])) {
            (Some(a), Some(d)) => Some((a << 4u32) | d),
            _ => None,
        },
{
    assert(s.take(k + 1).drop_last() =~= s.take(k));
}

/// Eight hex digits read back as the number they were written from.
pub proof fn lemma_hex_round_trip(n: u32)
    ensures
        read_hex(hex8(n)) == Some(n),
{
    let s = hex8(n);
    let d0 = (n >> 28u32) & 0xf;
    let d1 = (n >> 24u32) & 0xf;
    let d2 = (n >> 20u32) & 0xf;
    let d3 = (n >> 16u32) & 0xf;
    let d4 = (n >> 12u32) & 0xf;
    let d5 = (n >> 8u32) & 0xf;
    let d6 = (n >> 4u32) & 0xf;
    let d7 = (n >> 0u32) & 0xf;
    assert(d0 < 16 && d1 < 16 && d2 < 16 && d3 < 16 && d4 < 16 && d5 < 16 && d6 < 16 && d7 < 16)
        by (bit_vector)
        requires
            d0 == (n >> 28u32) & 0xf,
            d1 == (n >> 24u32) & 0xf,
            d2 == (n >> 20u32) & 0xf,
            d3 == (n >> 16u32) & 0xf,
            d4 == (n >> 12u32) & 0xf,
            d5 == (n >> 8u32) & 0xf,
            d6 == (n >> 4u32) & 0xf,
            d7 == (n >> 0u32) & 0xf,
    ;
    assert(s[0] == hex_char(d0) && s[1] == hex_char(d1) && s[2] == hex_char(d2) && s[3] == hex_char(d3));
    assert(s[4] == hex_char(d4) && s[5] == hex_char(d5) && s[6] == hex_char(d6) && s[7] == hex_char(d7));
    lemma_hex_char(d0);
    lemma_hex_char(d1);
    lemma_hex_char(d2);
    lemma_hex_char(d3);
    lemma_hex_char(d4);
    lemma_hex_char(d5);
    lemma_hex_char(d6);
    lemma_hex_char(d7);
    assert(s.take(0) =~= Seq::<u8>::empty());
    lemma_read_hex_step(s, 0);
    lemma_read_hex_step(s, 1);
    lemma_read_hex_step(s, 2);
    lemma_read_hex_step(s, 3);
    lemma_read_hex_step(s, 4);
    lemma_read_hex_step(s, 5);
    lemma_read_hex_step(s, 6);
    lemma_read_hex_step(s, 7);
    assert(s.take(8) =~= s);
    let v1 = (0u32 << 4u32) | d0;
    let v2 = (v1 << 4u32) | d1;
    let v3 = (v2 << 4u32) | d2;
    let v4 = (v3 << 4u32) | d3;
    let v5 = (v4 << 4u32) | d4;
    let v6 = (v5 << 4u32) | d5;
    let v7 = (v6 << 4u32) | d6;
    let v8 = (v7 << 4u32) | d7;
    assert(v8 == n) by (bit_vector)
        requires
            d0 == (n >> 28u32) & 0xf,
            d1 == (n >> 24u32) & 0xf,
            d2 == (n >> 20u32) & 0xf,
            d3 == (n >> 16u32) & 0xf,
            d4 == (n >> 12u32) & 0xf,
            d5 == (n >> 8u32) & 0xf,
            d6 == (n >> 4u32) & 0xf,
            d7 == (n >> 0u32) & 0xf,
            v1 == (0u32 << 4u32) | d0,
            v2 == (v1 << 4u32) | d1,
            v3 == (v2 << 4u32) | d2,
            v4 == (v3 << 4u32) | d3,
            v5 == (v4 << 4u32) | d4,
            v6 == (v5 << 4u32) | d5,
            v7 == (v6 << 4u32) | d6,
            v8 == (v7 << 4u32) | d7,
    ;
}

proof fn lemma_flatten_uniform(ps: Seq<Seq<u8>>, l: int)
    requires
        l >= 0,
        forall|i: int| 0 <= i < ps.len() ==> (#[trigger] ps[i]).len() == l,
    ensures
        ps.flatten().len() == l * ps.len(),
        forall|p: int|
            0 <= p < ps.len() ==> #[trigger] ps.flatten().subrange(l * p, l * p + l) == ps[p],
    decreases ps.len(),
{
    if ps.len() > 0 {
        let rest = ps.drop_first();
        assert forall|i: int| 0 <= i < rest.len() implies (#[trigger] rest[i]).len() == l by {
            assert(rest[i] == ps[i + 1]);
        }
        lemma_flatten_uniform(rest, l);
        let n = rest.len() as int;
        assert(l * (n + 1) == l + l * n) by (nonlinear_arith);
        assert forall|p: int| 0 <= p < ps.len() implies #[trigger] ps.flatten().subrange(
            l * p,
            l * p + l,
        ) == ps[p] by {
            if p == 0 {
                assert(ps.flatten().subrange(0, l) =~= ps[0]);
            } else {
                let q = p - 1;
                assert(l * p == l + l * q) by (nonlinear_arith)
                    requires
                        q == p - 1,
                ;
                assert(l * q + l <= l * n) by (nonlinear_arith)
                    requires
                        0 <= q < n,
                        l >= 0,
                ;
                assert(rest[q] == ps[p]);
                assert(rest.flatten().subrange(l * q, l * q + l) == rest[q]);
                assert(ps.flatten().subrange(l * p, l * p + l) =~= rest.flatten().subrange(
                    l * q,
                    l * q + l,
                ));
            }
        }
    }
}

proof fn lemma_slot_round_trip(x: Option<DriverData>)
    ensures
        slot_text(x).len() == SLOT_TEXT_LEN,
        read_slot(slot_text(x)) == Some(x),
{
    let b = slot_text(x);
    match x {
        None => {
            assert(b.subrange(1, 9) =~= hex8(0));
            assert(b.subrange(9, 17) =~= hex8(0));
            lemma_hex_round_trip(0);
        },
        Some(d) => {
            assert(b.subrange(1, 9) =~= hex8(d.driver_number));
            assert(b.subrange(9, 17) =~= hex8(d.led_num));
            lemma_hex_round_trip(d.driver_number);
            lemma_hex_round_trip(d.led_num);
        },
    }
}

proof fn lemma_frame_round_trip(f: Seq<Option<DriverData>>)
    requires
        f.len() == SLOT_COUNT,
    ensures
        frame_text(f).len() == FRAME_TEXT_LEN,
        read_frame(frame_text(f)) == Some(f),
{
    let units = f.map(|i: int, s: Option<DriverData>| slot_text(s).push(slot_sep(i)));
    assert forall|i: int| 0 <= i < units.len() implies (#[trigger] units[i]).len() == SLOT_UNIT_LEN by {
        lemma_slot_round_trip(f[i]);
    }
    lemma_flatten_uniform(units, SLOT_UNIT_LEN as int);
    let b = frame_text(f);
    assert forall|s: int| 0 <= s < SLOT_COUNT implies (#[trigger] read_slot(slot_bytes(b, s))) == Some(f[s])
        && b[SLOT_UNIT_LEN * s + SLOT_TEXT_LEN] == slot_sep(s) by {
        let u = b.subrange(SLOT_UNIT_LEN * s, SLOT_UNIT_LEN * s + SLOT_UNIT_LEN);
        assert(u == units[s]);
        lemma_slot_round_trip(f[s]);
        assert(slot_bytes(b, s) =~= slot_text(f[s]));
        assert(b[SLOT_UNIT_LEN * s + SLOT_TEXT_LEN] == u[SLOT_TEXT_LEN as int]);
    }
    assert(Seq::new(SLOT_COUNT as nat, |s: int| read_slot(slot_bytes(b, s))->Some_0) =~= f);
}

/// Round trip: the text of a buffer of `FRAME_COUNT` frames of `SLOT_COUNT`
/// slots reads back as the same interval and the same frames.
pub proof fn lemma_round_trip(rate: u32, fs: Seq<Seq<Option<DriverData>>>)
    requires
        fs.len() == FRAME_COUNT,
        forall|p: int| 0 <= p < fs.len() ==> (#[trigger] fs[p]).len() == SLOT_COUNT,
    ensures
        read_buffer(buffer_text(rate, fs)) == Some((rate, fs)),
{
    let pieces = fs.map_values(|f: Seq<Option<DriverData>>| frame_text(f));
    assert forall|i: int| 0 <= i < pieces.len() implies (#[trigger] pieces[i]).len() == FRAME_TEXT_LEN by {
        lemma_frame_round_trip(fs[i]);
    }
    lemma_flatten_uniform(pieces, FRAME_TEXT_LEN as int);
    let body = pieces.flatten();
    let b = buffer_text(rate, fs);
    assert(b.take(8) =~= hex8(rate));
    lemma_hex_round_trip(rate);
    assert forall|p: int| 0 <= p < FRAME_COUNT implies (#[trigger] read_frame(frame_bytes(b, p)))
        == Some(fs[p]) by {
        assert(frame_bytes(b, p) =~= body.subrange(
            FRAME_TEXT_LEN * p,
            FRAME_TEXT_LEN * p + FRAME_TEXT_LEN,
        ));
        lemma_frame_round_trip(fs[p]);
    }
    assert(Seq::new(FRAME_COUNT as nat, |p: int| read_frame(frame_bytes(b, p))->Some_0) =~= fs);
}

} // verus!
verus! {

fn hex_digit(d: u32) -> (c: u8)
    requires
        d < 16,
    ensures
        c == hex_char(d),
{
    if d < 10 {
        (48 + d) as u8
    } else {
        (87 + d) as u8
    }
}

fn hex_value(c: u8) -> (r: Option<u32>)
    ensures
        r == hex_val(c),
{
    if 48 <= c && c <= 57 {
        Some((c - 48) as u32)
    } else if 97 <= c && c <= 102 {
        Some((c - 87) as u32)
    } else {
        None
    }
}

fn push_hex8(out: &mut Vec<u8>, n: u32)
    ensures
        final(out)@ == old(out)@ + hex8(n),
{
    let ghost start = out@;
    let mut i: u32 = 0;
    while i < 8
        invariant
            i <= 8,
            out@ == start + hex8(n).take(i as int),
        decreases 8 - i,
    {
        let shift: u32 = 28 - 4 * i;
        let d = (n >> shift) & 0xf;
        assert(d < 16) by (bit_vector)
            requires
                d == (n >> shift) & 0xf,
        ;
        out.push(hex_digit(d));
        assert(hex8(n)[i as int] == hex_char(d));
        i = i + 1;
        assert(out@ =~= start + hex8(n).take(i as int));
    }
    assert(hex8(n).take(8) =~= hex8(n));
}

fn push_slot(out: &mut Vec<u8>, s: Option<DriverData>, sep: u8)
    ensures
        final(out)@ == old(out)@ + slot_text(s).push(sep),
{
    let ghost start = out@;
    match s {
        None => {
            out.push(45u8);
            push_hex8(out, 0);
            push_hex8(out, 0);
        },
        Some(d) => {
            out.push(43u8);
            push_hex8(out, d.driver_number);
            push_hex8(out, d.led_num);
        },
    }
    out.push(sep);
    assert(out@ =~= start + slot_text(s).push(sep));
}

proof fn lemma_flatten_alt_step(ps: Seq<Seq<u8>>, i: int)
    requires
        0 <= i < ps.len(),
    ensures
        ps.take(i + 1).flatten_alt() == ps.take(i).flatten_alt() + ps[i],
{
    assert(ps.take(i + 1).drop_last() =~= ps.take(i));
}

fn push_frame(out: &mut Vec<u8>, f: &UpdateFrame)
    requires
        f.drivers@.len() == SLOT_COUNT,
    ensures
        final(out)@ == old(out)@ + frame_text(f.drivers@),
{
    let ghost start = out@;
    let ghost units = f.drivers@.map(
        |i: int, s: Option<DriverData>| slot_text(s).push(slot_sep(i)),
    );
    let mut i: usize = 0;
    assert(units.take(0) =~= Seq::<Seq<u8>>::empty());
    assert(start + units.take(0).flatten_alt() =~= start);
    while i < SLOT_COUNT
        invariant
            i <= SLOT_COUNT,
            f.drivers@.len() == SLOT_COUNT,
            units == f.drivers@.map(|i: int, s: Option<DriverData>| slot_text(s).push(slot_sep(i))),
            out@ == start + units.take(i as int).flatten_alt(),
        decreases SLOT_COUNT - i,
    {
        let sep: u8 = if i == SLOT_COUNT - 1 {
            10
        } else {
            32
        };
        push_slot(out, f.drivers[i], sep);
        proof {
            lemma_flatten_alt_step(units, i as int);
        }
        i = i + 1;
        assert(out@ =~= start + units.take(i as int).flatten_alt());
    }
    proof {
        assert(units.take(SLOT_COUNT as int) =~= units);
        units.lemma_flatten_and_flatten_alt_are_equivalent();
    }
}

/// Writes the buffer as text: a header line with the interval, then one line
/// per frame, each slot a tag (`+` filled, `-` empty) and the driver number
/// and LED position as eight hex digits each.
pub fn encode_buffer(v: &VisualizationData) -> (r: Vec<u8>)
    requires
        v.wf(),
    ensures
        r@ == buffer_text(v.update_rate_ms, frames_view(v.frames@)),
{
    let mut out: Vec<u8> = Vec::new();
    push_hex8(&mut out, v.update_rate_ms);
    out.push(10u8);
    let ghost head = out@;
    let ghost fs = frames_view(v.frames@);
    let ghost pieces = fs.map_values(|f: Seq<Option<DriverData>>| frame_text(f));
    assert(head =~= hex8(v.update_rate_ms).push(10u8));
    assert(pieces.take(0) =~= Seq::<Seq<u8>>::empty());
    assert(head + pieces.take(0).flatten_alt() =~= head);
    let mut p: usize = 0;
    while p < v.frames.len()
        invariant
            p <= v.frames@.len(),
            v.wf(),
            fs == frames_view(v.frames@),
            pieces == fs.map_values(|f: Seq<Option<DriverData>>| frame_text(f)),
            out@ == head + pieces.take(p as int).flatten_alt(),
        decreases v.frames@.len() - p,
    {
        push_frame(&mut out, &v.frames[p]);
        proof {
            lemma_flatten_alt_step(pieces, p as int);
        }
        p = p + 1;
        assert(out@ =~= head + pieces.take(p as int).flatten_alt());
    }
    proof {
        assert(pieces.take(p as int) =~= pieces);
        pieces.lemma_flatten_and_flatten_alt_are_equivalent();
    }
    out
}

} // verus!
verus! {

proof fn lemma_read_hex_prefix_none(s: Seq<u8>, k: int)
    requires
        0 <= k <= s.len(),
        read_hex(s.take(k)) is None,
    ensures
        read_hex(s) is None,
    decreases s.len() - k,
{
    if k == s.len() {
        assert(s.take(k) =~= s);
    } else {
        lemma_read_hex_step(s, k);
        lemma_read_hex_prefix_none(s, k + 1);
    }
}

/// Reads the eight hex digits at `b[at..at + 8]`.
fn read_hex_at(b: &Vec<u8>, at: usize) -> (r: Option<u32>)
    requires
        at + 8 <= b.len(),
    ensures
        r == read_hex(b@.subrange(at as int, at + 8)),
{
    let ghost s = b@.subrange(at as int, at + 8);
    let mut acc: u32 = 0;
    let mut i: usize = 0;
    assert(s.take(0) =~= Seq::<u8>::empty());
    while i < 8
        invariant
            i <= 8,
            at + 8 <= b.len(),
            s == b@.subrange(at as int, at + 8),
            read_hex(s.take(i as int)) == Some(acc),
        decreases 8 - i,
    {
        proof {
            lemma_read_hex_step(s, i as int);
        }
        match hex_value(b[at + i]) {
            Some(d) => {
                acc = (acc << 4u32) | d;
            },
            None => {
                proof {
                    lemma_read_hex_prefix_none(s, i + 1);
                }
                return None;
            },
        }
        i = i + 1;
    }
    assert(s.take(8) =~= s);
    Some(acc)
}

/// Reads the slot whose text is `b[at..at + SLOT_TEXT_LEN]`.
fn read_slot_at(b: &Vec<u8>, at: usize) -> (r: Option<Option<DriverData>>)
    requires
        at + SLOT_TEXT_LEN <= b.len(),
    ensures
        r == read_slot(b@.subrange(at as int, at + SLOT_TEXT_LEN)),
{
    let ghost t = b@.subrange(at as int, at + SLOT_TEXT_LEN);
    assert(t.subrange(1, 9) =~= b@.subrange(at + 1, at + 9));
    assert(t.subrange(9, 17) =~= b@.subrange(at + 9, at + 17));
    let dn = read_hex_at(b, at + 1);
    let led = read_hex_at(b, at + 9);
    match (dn, led) {
        (Some(driver_number), Some(led_num)) => {
            if b[at] == 43u8 {
                Some(Some(DriverData { driver_number, led_num }))
            } else if b[at] == 45u8 && driver_number == 0 && led_num == 0 {
                Some(None)
            } else {
                None
            }
        },
        _ => None,
    }
}

/// Reads the frame whose text is `b[at..at + FRAME_TEXT_LEN]`.
fn read_frame_at(b: &Vec<u8>, at: usize) -> (r: Option<UpdateFrame>)
    requires
        at + FRAME_TEXT_LEN <= b.len(),
    ensures
        match read_frame(b@.subrange(at as int, at + FRAME_TEXT_LEN)) {
            None => r is None,
            Some(f) => r matches Some(x) && x.drivers@ == f,
        },
{
    let ghost fb = b@.subrange(at as int, at + FRAME_TEXT_LEN);
    let mut drivers: Vec<Option<DriverData>> = Vec::new();
    let mut s: usize = 0;
    while s < SLOT_COUNT
        invariant
            s <= SLOT_COUNT,
            at + FRAME_TEXT_LEN <= b.len(),
            fb == b@.subrange(at as int, at + FRAME_TEXT_LEN),
            drivers@.len() == s,
            forall|k: int|
                0 <= k < s ==> (#[trigger] read_slot(slot_bytes(fb, k))) is Some
                    && fb[SLOT_UNIT_LEN * k + SLOT_TEXT_LEN] == slot_sep(k)
                    && drivers@[k] == read_slot(slot_bytes(fb, k))->Some_0,
        decreases SLOT_COUNT - s,
    {
        let x = at + SLOT_UNIT_LEN * s;
        assert(slot_bytes(fb, s as int) =~= b@.subrange(x as int, x + SLOT_TEXT_LEN));
        let slot = read_slot_at(b, x);
        let sep: u8 = if s == SLOT_COUNT - 1 {
            10
        } else {
            32
        };
        match slot {
            Some(v) => {
                if b[x + SLOT_TEXT_LEN] != sep {
                    assert(fb[SLOT_UNIT_LEN * s + SLOT_TEXT_LEN] != slot_sep(s as int));
                    return None;
                }
                drivers.push(v);
            },
            None => {
                assert(read_slot(slot_bytes(fb, s as int)) is None);
                return None;
            },
        }
        s = s + 1;
    }
    assert(drivers@ =~= Seq::new(SLOT_COUNT as nat, |k: int| read_slot(slot_bytes(fb, k))->Some_0));
    Some(UpdateFrame { drivers })
}

/// Reads a buffer back from the text that `encode_buffer` writes; `None`
/// when the bytes are not such a text.
pub fn decode_buffer(b: &Vec<u8>) -> (r: Option<VisualizationData>)
    ensures
        match read_buffer(b@) {
            None => r is None,
            Some((rate, fs)) => r matches Some(v) && v.update_rate_ms == rate && frames_view(
                v.frames@,
            ) == fs,
        },
{
    if b.len() != BUFFER_TEXT_LEN {
        return None;
    }
    assert(b@.take(8) =~= b@.subrange(0, 8));
    let rate = match read_hex_at(b, 0) {
        Some(r) => r,
        None => {
            return None;
        },
    };
    if b[8] != 10u8 {
        return None;
    }
    let mut frames: Vec<UpdateFrame> = Vec::new();
    let mut p: usize = 0;
    while p < FRAME_COUNT
        invariant
            p <= FRAME_COUNT,
            b@.len() == BUFFER_TEXT_LEN,
            frames@.len() == p,
            forall|q: int|
                0 <= q < p ==> (#[trigger] read_frame(frame_bytes(b@, q))) is Some
                    && frames@[q].drivers@ == read_frame(frame_bytes(b@, q))->Some_0,
        decreases FRAME_COUNT - p,
    {
        let at = HEADER_LEN + FRAME_TEXT_LEN * p;
        assert(frame_bytes(b@, p as int) == b@.subrange(at as int, at + FRAME_TEXT_LEN));
        match read_frame_at(b, at) {
            Some(f) => {
                frames.push(f);
            },
            None => {
                return None;
            },
        }
        p = p + 1;
    }
    let v = VisualizationData { update_rate_ms: rate, frames };
    assert(frames_view(v.frames@) =~= Seq::new(
        FRAME_COUNT as nat,
        |q: int| read_frame(frame_bytes(b@, q))->Some_0,
    ));
    Some(v)
}

} // verus!
