//! Channel lines (`#mmmcc:objects`) of a BMS file.
use crate::codes::{
    base_number, base_value, bms_digit, channel_code, channel_code_chars, channel_to_lane,
    decode_base_chars, digit_below, digit_run, lane_of_channel, law_base_number_push, lemma_two_digit_bound,
    Decoded,
};
use crate::document::{
    BmsDocument, DocView, LaneObject, MeasureLength, MeasureLengthView, Number, NumberView,
    Position, TempoEvent, TempoEventView, TempoKind, TempoKindView,
};
use crate::lines::{find_char, first_index_of, message, Flow, Step};
use crate::text::{
    all_radix_digits, digits_value, is_float_literal, is_float_literal_chars, parse_unsigned,
    parse_unsigned_chars, radix_digit,
    string_from_chars, trim, trim_bounds,
};
use crate::utf8len::{
    byte_len_at_least, char_index_at, char_index_at_byte, encode_chars, lemma_encode_concat,
};
use vstd::prelude::*;
use vstd::utf8::{encode_scalar, encode_utf8};

verus! {

broadcast use vstd::std_specs::hash::group_hash_axioms;

// ---------------------------------------------------------------------------
// Splitting a channel line
// ---------------------------------------------------------------------------

/// How a channel line splits into measure, channel and object text.
pub enum Parts {
    Fail(Seq<char>),
    /// Too short, or no `:` after the channel: the line carries no objects.
    Skip,
    Found(u32, usize, Seq<char>),
}

/// `#mmmcc:...`: bytes 1-3 are the measure (decimal), bytes 4-5 the channel
/// (decimal, or Base36), and the objects follow the first `:` after them.
/// A line whose byte offsets 3 or 5 after `#` fall inside a character has no
/// such fields and is rejected.
pub open spec fn channel_parts(t: Seq<char>) -> Parts {
    let body = t.subrange(1, t.len() as int);
    if encode_utf8(body).len() < 6 {
        Parts::Skip
    } else {
        match (char_index_at_byte(body, 3), char_index_at_byte(body, 5)) {
            (Some(k3), Some(k5)) => {
                let ms = body.subrange(0, k3 as int);
                let cs = body.subrange(k3 as int, k5 as int);
                match parse_unsigned(ms, 10, 0xFFFF_FFFF) {
                    None => Parts::Fail("invalid measure: "@ + ms),
                    Some(m) => match channel_code(cs) {
                        None => Parts::Fail("invalid channel: "@ + cs),
                        Some(ch) => {
                            let tail = body.subrange(k5 as int, body.len() as int);
                            let c = first_index_of(tail, ':') as int;
                            if c == tail.len() {
                                Parts::Skip
                            } else {
                                Parts::Found(
                                    m as u32,
                                    ch as usize,
                                    tail.subrange(c + 1, tail.len() as int),
                                )
                            }
                        },
                    },
                }
            },
            _ => Parts::Fail("invalid channel line: "@ + t),
        }
    }
}

proof fn lemma_char_index_bounds(s: Seq<char>, n: nat)
    ensures
        char_index_at_byte(s, n) matches Some(k) ==> k <= s.len() && k <= n && encode_utf8(
            s.subrange(0, k as int),
        ).len() == n,
    decreases s.len(),
{
    if n == 0 {
        assert(s.subrange(0, 0) =~= Seq::<char>::empty());
    } else if s.len() > 0 {
        let w = encode_scalar(s[0] as u32).len();
        vstd::utf8::char_is_scalar(s[0]);
        if w <= n {
            lemma_char_index_bounds(s.drop_first(), (n - w) as nat);
            if let Some(k) = char_index_at_byte(s.drop_first(), (n - w) as nat) {
                let p = s.subrange(0, k + 1 as int);
                assert(p.drop_first() =~= s.drop_first().subrange(0, k as int));
                assert(p[0] == s[0]);
            }
        }
    }
}

pub proof fn lemma_char_index_bounds_pub(s: Seq<char>, n: nat)
    ensures
        char_index_at_byte(s, n) matches Some(k) ==> k <= s.len() && k <= n && encode_utf8(
            s.subrange(0, k as int),
        ).len() == n,
{
    lemma_char_index_bounds(s, n);
}

proof fn lemma_char_index_monotone(s: Seq<char>, n1: nat, n2: nat)
    requires
        n1 <= n2,
    ensures
        char_index_at_byte(s, n1) matches Some(a) ==> char_index_at_byte(s, n2) matches Some(b)
            ==> a <= b,
    decreases s.len(),
{
    if n1 > 0 && s.len() > 0 {
        let w = encode_scalar(s[0] as u32).len();
        if w <= n1 {
            lemma_char_index_monotone(s.drop_first(), (n1 - w) as nat, (n2 - w) as nat);
        }
    }
}

/// Every character takes at least one byte.
proof fn lemma_encode_len_at_least(s: Seq<char>)
    ensures
        encode_utf8(s).len() >= s.len(),
    decreases s.len(),
{
    if s.len() > 0 {
        vstd::utf8::char_is_scalar(s[0]);
        lemma_encode_len_at_least(s.drop_first());
    }
}

pub enum PartsResult {
    Fail(String),
    Skip,
    Found(u32, usize, usize),
}

/// Splits a channel line; the objects are `t[start..]` for the returned start.
pub fn split_channel_line(t: &[char]) -> (r: PartsResult)
    requires
        t@.len() >= 1,
    ensures
        match channel_parts(t@) {
            Parts::Fail(m) => r matches PartsResult::Fail(s) && s@ == m,
            Parts::Skip => r is Skip,
            Parts::Found(m, ch, v) => r matches PartsResult::Found(m2, ch2, st) && m2 == m && ch2
                == ch && st <= t@.len() && t@.subrange(st as int, t@.len() as int) == v,
        },
{
    let body = &t[1..t.len()];
    if !byte_len_at_least(body, 6) {
        return PartsResult::Skip;
    }
    let k3 = match char_index_at(body, 3) {
        Some(k) => k,
        None => return PartsResult::Fail(message("invalid channel line: ", t)),
    };
    let k5 = match char_index_at(body, 5) {
        Some(k) => k,
        None => return PartsResult::Fail(message("invalid channel line: ", t)),
    };
    proof {
        lemma_char_index_bounds(body@, 3);
        lemma_char_index_bounds(body@, 5);
        lemma_char_index_monotone(body@, 3, 5);
    }
    let ms = &body[0..k3];
    let cs = &body[k3..k5];
    let m: u32 = match parse_unsigned_chars(ms, 10, 0xFFFF_FFFF) {
        Some(m) => m as u32,
        None => return PartsResult::Fail(message("invalid measure: ", ms)),
    };
    proof {
        // the channel field is two bytes, so at most two characters
        lemma_encode_concat(body@.subrange(0, k3 as int), cs@);
        assert(body@.subrange(0, k3 as int) + cs@ =~= body@.subrange(0, k5 as int));
        lemma_encode_len_at_least(cs@);
        lemma_two_digit_bound(cs@, 36);
    }
    let ch = match channel_code_chars(cs) {
        Some(c) => c,
        None => return PartsResult::Fail(message("invalid channel: ", cs)),
    };
    let tail = &body[k5..body.len()];
    let c = find_char(tail, ':');
    if c == tail.len() {
        return PartsResult::Skip;
    }
    let st = 1 + k5 + c + 1;
    assert(t@.subrange(st as int, t@.len() as int) =~= tail@.subrange(c + 1, tail@.len() as int));
    PartsResult::Found(m, ch, st)
}

// ---------------------------------------------------------------------------
// Objects
// ---------------------------------------------------------------------------

/// A two-byte cell of the object text's UTF-8 encoding, as `str::from_utf8`
/// reads it.
pub enum Cell {
    /// Two ASCII characters.
    Pair(char, char),
    /// One two-byte character (not ASCII).
    Wide,
    /// No valid UTF-8: the cell is read as `00`, an empty slot.
    Invalid,
}

/// Two bytes are valid UTF-8 when both are ASCII or they form one two-byte
/// character (lead byte C2-DF, continuation byte 80-BF).
pub open spec fn cell_of(b0: u8, b1: u8) -> Cell {
    if b0 < 0x80 && b1 < 0x80 {
        Cell::Pair(b0 as char, b1 as char)
    } else if 0xC2 <= b0 <= 0xDF && 0x80 <= b1 <= 0xBF {
        Cell::Wide
    } else {
        Cell::Invalid
    }
}

/// Key sound index of a note: its Base62 value, when that is not zero.
pub open spec fn keysound_of(v: Seq<char>) -> Option<usize> {
    match base_number(v, 62) {
        Some(n) => if n > 0 {
            Some(n as usize)
        } else {
            None
        },
        None => None,
    }
}

pub open spec fn push_tempo(d: DocView, pos: Position, kind: TempoKindView) -> DocView {
    DocView { tempo_events: d.tempo_events.push(TempoEventView { position: pos, kind }), ..d }
}

pub open spec fn push_note(d: DocView, lane: usize, pos: Position, key: Option<usize>) -> DocView {
    DocView {
        notes: d.notes.push(LaneObject { lane, position: pos, keysound_id: key }),
        ..d
    }
}

/// One object `v` (two characters, not `00`) of channel `ch` at `pos`:
/// 03 a hexadecimal tempo, 08 a tempo from the `#BPMxx` table, 09 a stop
/// from the `#STOPxx` table (or a hexadecimal value when the code is no
/// Base36 number), note channels a note with its key sound.
pub open spec fn object_step(d: DocView, pos: Position, ch: usize, v: Seq<char>) -> DocView {
    if ch == 3 {
        match parse_unsigned(v, 16, 0xFFFF_FFFF) {
            Some(x) => push_tempo(d, pos, TempoKindView::Bpm(NumberView::Whole(x as u32))),
            None => d,
        }
    } else if ch == 8 {
        match base_number(v, 36) {
            Some(i) => if d.bpm_table.contains_key(i as usize) {
                push_tempo(d, pos, TempoKindView::Bpm(NumberView::Text(d.bpm_table[i as usize])))
            } else {
                d
            },
            None => d,
        }
    } else if ch == 9 {
        match base_number(v, 36) {
            Some(i) => if d.stop_table.contains_key(i as usize) {
                push_tempo(
                    d,
                    pos,
                    TempoKindView::Stop(NumberView::Text(d.stop_table[i as usize])),
                )
            } else {
                d
            },
            None => match parse_unsigned(v, 16, 0xFFFF_FFFF) {
                Some(x) => push_tempo(d, pos, TempoKindView::Stop(NumberView::Whole(x as u32))),
                None => d,
            },
        }
    } else {
        match lane_of_channel(ch) {
            Some(l) => push_note(d, l, pos, keysound_of(v)),
            None => d,
        }
    }
}

/// Value of a hexadecimal digit: `0-9`, then `A-F` or `a-f` for 10-15.
pub open spec fn hex_value(c: char) -> Option<nat> {
    if '0' <= c && c <= '9' {
        Some((c as int - '0' as int) as nat)
    } else if 'A' <= c && c <= 'F' {
        Some((c as int - 'A' as int + 10) as nat)
    } else if 'a' <= c && c <= 'f' {
        Some((c as int - 'a' as int + 10) as nat)
    } else {
        None
    }
}

/// A channel-03 object `ab` is a tempo change at its place to the
/// hexadecimal number `ab` (`16 * a + b` BPM; `+b` is `b`, as the standard
/// library's radix parsing reads a leading `+`), and nothing else of the
/// document changes; an object that is no such number changes nothing.
pub proof fn law_hex_tempo_object(d: DocView, pos: Position, a: char, b: char)
    ensures
        object_step(d, pos, 3, seq![a, b]) == match (a, hex_value(a), hex_value(b)) {
            (_, Some(x), Some(y)) => DocView {
                tempo_events: d.tempo_events.push(
                    TempoEventView {
                        position: pos,
                        kind: TempoKindView::Bpm(NumberView::Whole((16 * x + y) as u32)),
                    },
                ),
                ..d
            },
            ('+', None, Some(y)) => DocView {
                tempo_events: d.tempo_events.push(
                    TempoEventView {
                        position: pos,
                        kind: TempoKindView::Bpm(NumberView::Whole(y as u32)),
                    },
                ),
                ..d
            },
            _ => d,
        },
{
    lemma_hex_pair(a, b);
}

/// The number that two characters `ab` denote in `base` (`a * base + b`),
/// when both are digits below `base`.
pub open spec fn pair_number(a: char, b: char, base: nat) -> Option<nat> {
    match (bms_digit(a), bms_digit(b)) {
        (Some(x), Some(y)) => if x < base && y < base {
            Some(x * base + y)
        } else {
            None
        },
        _ => None,
    }
}

proof fn lemma_pair_number(a: char, b: char, base: nat)
    ensures
        base_number(seq![a, b], base) == pair_number(a, b, base),
{
    let e = Seq::<char>::empty();
    assert(digit_run(e, base) == 0);
    assert(base_value(e, base) == 0);
    assert(base_number(e, base) == Some(0nat));
    law_base_number_push(e, a, base);
    assert(e.push(a) =~= seq![a]);
    law_base_number_push(seq![a], b, base);
    assert(seq![a].push(b) =~= seq![a, b]);
    assert(base_number(seq![a], base) == if digit_below(a, base) {
        Some(bms_digit(a).unwrap())
    } else {
        None::<nat>
    });
    assert(base_number(seq![b], base) == if digit_below(b, base) {
        Some(bms_digit(b).unwrap())
    } else {
        None::<nat>
    });
}

/// A channel-08 object `ab` is the Base36 index of a `#BPMxx` definition:
/// when it is defined, a tempo change at its place to that definition's
/// value, and nothing else changes; otherwise nothing changes.
pub proof fn law_table_tempo_object(d: DocView, pos: Position, a: char, b: char)
    ensures
        object_step(d, pos, 8, seq![a, b]) == match pair_number(a, b, 36) {
            Some(i) => if d.bpm_table.contains_key(i as usize) {
                DocView {
                    tempo_events: d.tempo_events.push(
                        TempoEventView {
                            position: pos,
                            kind: TempoKindView::Bpm(NumberView::Text(d.bpm_table[i as usize])),
                        },
                    ),
                    ..d
                }
            } else {
                d
            },
            None => d,
        },
{
    lemma_pair_number(a, b, 36);
}

/// The hexadecimal number `ab` as the standard library's radix parsing
/// reads it: `16 * a + b`, or `b` after a leading `+`.
pub open spec fn hex_pair(a: char, b: char) -> Option<nat> {
    match (a, hex_value(a), hex_value(b)) {
        (_, Some(x), Some(y)) => Some(16 * x + y),
        ('+', None, Some(y)) => Some(y),
        _ => None,
    }
}

proof fn lemma_hex_pair(a: char, b: char)
    ensures
        parse_unsigned(seq![a, b], 16, 0xFFFF_FFFF) == hex_pair(a, b),
{
    let v = seq![a, b];
    let one = seq![b];
    assert(v.drop_first() =~= one);
    assert(v.drop_last() =~= seq![a]);
    assert(seq![a].drop_last() =~= Seq::<char>::empty());
    assert(one.drop_last() =~= Seq::<char>::empty());
    assert(digits_value(Seq::<char>::empty(), 16) == 0);
    assert(v[0] == a && v[1] == b && one[0] == b);
    assert(hex_value(a) == radix_digit(a, 16));
    assert(hex_value(b) == radix_digit(b, 16));
    assert(digits_value(one, 16) == match radix_digit(b, 16) {
        Some(y) => y,
        None => 0,
    });
    assert(digits_value(seq![a], 16) == match radix_digit(a, 16) {
        Some(x) => x,
        None => 0,
    });
    assert(digits_value(v, 16) == digits_value(seq![a], 16) * 16 + match radix_digit(b, 16) {
        Some(y) => y,
        None => 0,
    });
    if a == '+' {
        assert(all_radix_digits(one, 16) <==> radix_digit(b, 16) is Some) by {
            if radix_digit(b, 16) is Some {
                assert forall|i: int| 0 <= i < one.len() implies (#[trigger] radix_digit(one[i], 16)) is Some by {
                    assert(one[i] == b);
                }
            }
        }
    } else {
        assert(all_radix_digits(v, 16) <==> (radix_digit(a, 16) is Some && radix_digit(b, 16) is Some)) by {
            if radix_digit(a, 16) is Some && radix_digit(b, 16) is Some {
                assert forall|i: int| 0 <= i < v.len() implies (#[trigger] radix_digit(v[i], 16)) is Some by {
                    if i == 0 {
                        assert(v[i] == a);
                    } else {
                        assert(v[i] == b);
                    }
                }
            }
        }
    }
}

/// A channel-09 object `ab` that is a Base36 number is the index of a
/// `#STOPxx` definition: when it is defined, a stop at its place of that
/// definition's value, otherwise nothing. An object that is no Base36 number
/// is a stop of its hexadecimal value, or nothing when it is no such number.
pub proof fn law_stop_object(d: DocView, pos: Position, a: char, b: char)
    ensures
        object_step(d, pos, 9, seq![a, b]) == match pair_number(a, b, 36) {
            Some(i) => if d.stop_table.contains_key(i as usize) {
                push_tempo(d, pos, TempoKindView::Stop(NumberView::Text(d.stop_table[i as usize])))
            } else {
                d
            },
            None => match hex_pair(a, b) {
                Some(x) => push_tempo(d, pos, TempoKindView::Stop(NumberView::Whole(x as u32))),
                None => d,
            },
        },
{
    lemma_pair_number(a, b, 36);
    lemma_hex_pair(a, b);
}

/// On a note channel (one that has a lane), an object `ab` is one note in
/// that lane at its place, whose key sound is the Base62 number `ab` when
/// that is a number other than 0; nothing else of the document changes.
pub proof fn law_note_object(d: DocView, pos: Position, ch: usize, a: char, b: char, l: usize)
    requires
        lane_of_channel(ch) == Some(l),
    ensures
        object_step(d, pos, ch, seq![a, b]) == (DocView {
            notes: d.notes.push(
                (LaneObject {
                    lane: l,
                    position: pos,
                    keysound_id: match pair_number(a, b, 62) {
                        Some(n) => if n > 0 {
                            Some(n as usize)
                        } else {
                            None
                        },
                        None => None,
                    },
                }),
            ),
            ..d
        }),
{
    lemma_pair_number(a, b, 62);
}

/// Cell `k` of `nv` cells. A single non-ASCII character is neither `00`,
/// nor a Base36/Base62 or hexadecimal digit: on a note channel it is a note
/// without key sound, elsewhere nothing.
pub open spec fn cell_step(d: DocView, m: u32, ch: usize, nv: nat, k: nat, c: Cell) -> DocView {
    let pos = Position { measure: m, index: k as usize, resolution: nv as usize };
    match c {
        Cell::Invalid => d,
        Cell::Wide => if ch != 3 && ch != 8 && ch != 9 {
            match lane_of_channel(ch) {
                Some(l) => push_note(d, l, pos, None),
                None => d,
            }
        } else {
            d
        },
        Cell::Pair(a, b) => if a == '0' && b == '0' {
            d
        } else {
            object_step(d, pos, ch, seq![a, b])
        },
    }
}

/// Cells `k..nv` of the encoded object text `b`.
pub open spec fn cells_from(d: DocView, m: u32, ch: usize, b: Seq<u8>, nv: nat, k: nat) -> DocView
    decreases nv - k,
{
    if k < nv {
        cells_from(
            cell_step(d, m, ch, nv, k, cell_of(b[2 * k as int], b[2 * k as int + 1])),
            m,
            ch,
            b,
            nv,
            k + 1,
        )
    } else {
        d
    }
}

/// The objects of one line: the UTF-8 encoding of the object text in
/// two-byte cells, a trailing odd byte ignored.
pub open spec fn line_objects(d: DocView, m: u32, ch: usize, vals: Seq<char>) -> DocView {
    let b = encode_utf8(vals);
    cells_from(d, m, ch, b, b.len() / 2, 0)
}

/// One channel line of the channel pass.
pub open spec fn channel_step(d: DocView, t: Seq<char>) -> Flow<DocView> {
    match channel_parts(t) {
        Parts::Fail(msg) => Flow::Fail(msg),
        Parts::Skip => Flow::Go(d),
        Parts::Found(m, ch, vals) => if ch == 2 {
            let r = trim(vals);
            if is_float_literal(r) {
                Flow::Go(
                    DocView {
                        measure_lengths: d.measure_lengths.push(
                            MeasureLengthView { measure: m, ratio: r },
                        ),
                        ..d
                    },
                )
            } else {
                Flow::Go(d)
            }
        } else {
            Flow::Go(line_objects(d, m, ch, vals))
        },
    }
}

/// Number of the cells `k..n` of `vals` (two characters each) that are not
/// `00`.
pub open spec fn nonzero_cells(vals: Seq<char>, k: nat, n: nat) -> nat
    decreases n - k,
{
    if k < n {
        (if vals[2 * k as int] == '0' && vals[2 * k as int + 1] == '0' {
            0nat
        } else {
            1nat
        }) + nonzero_cells(vals, k + 1, n)
    } else {
        0
    }
}

/// Every character of `s` is ASCII.
pub open spec fn is_ascii_text(s: Seq<char>) -> bool {
    forall|i: int| 0 <= i < s.len() ==> (#[trigger] s[i] as u32) < 0x80
}

proof fn lemma_ascii_encode(s: Seq<char>)
    requires
        is_ascii_text(s),
    ensures
        encode_utf8(s).len() == s.len(),
        forall|i: int| 0 <= i < s.len() ==> (#[trigger] encode_utf8(s)[i]) as u32 == s[i] as u32,
    decreases s.len(),
{
    if s.len() > 0 {
        let c = s[0];
        let r = s.drop_first();
        assert forall|i: int| 0 <= i < r.len() implies (#[trigger] r[i] as u32) < 0x80 by {
            assert(r[i] == s[i + 1]);
        }
        lemma_ascii_encode(r);
        let x: u32 = c as u32;
        assert(x < 0x80);
        assert(x & 0x7F == x) by (bit_vector)
            requires
                x < 0x80,
        ;
        assert(encode_scalar(x) == seq![(x & 0x7F) as u8]);
        let e = encode_utf8(s);
        assert(e == encode_scalar(x) + encode_utf8(r));
        assert forall|i: int| 0 <= i < s.len() implies (#[trigger] encode_utf8(s)[i]) as u32
            == s[i] as u32 by {
            if i > 0 {
                assert(e[i] == encode_utf8(r)[i - 1]);
                assert(r[i - 1] == s[i]);
            }
        }
    }
}

proof fn lemma_note_cells(
    d: DocView,
    m: u32,
    ch: usize,
    l: usize,
    b: Seq<u8>,
    vals: Seq<char>,
    nv: nat,
    k: nat,
)
    requires
        lane_of_channel(ch) == Some(l),
        b.len() == vals.len(),
        2 * nv <= b.len(),
        k <= nv,
        forall|i: int| 0 <= i < b.len() ==> (#[trigger] b[i]) < 0x80 && b[i] as u32 == vals[i] as u32,
    ensures
        ({
            let d2 = cells_from(d, m, ch, b, nv, k);
            &&& d2.notes.len() == d.notes.len() + nonzero_cells(vals, k, nv)
            &&& d2.notes.subrange(0, d.notes.len() as int) == d.notes
            &&& forall|j: int|
                d.notes.len() <= j < d2.notes.len() ==> (#[trigger] d2.notes[j]).lane == l
                    && d2.notes[j].position.measure == m && d2.notes[j].position.resolution
                    == nv as usize
            &&& d2 == DocView { notes: d2.notes, ..d }
        }),
    decreases nv - k,
{
    let d2 = cells_from(d, m, ch, b, nv, k);
    if k < nv {
        let i0 = 2 * k as int;
        let b0 = b[i0];
        let b1 = b[i0 + 1];
        let pos = Position { measure: m, index: k as usize, resolution: nv as usize };
        assert(b0 < 0x80 && b1 < 0x80);
        let c = cell_of(b0, b1);
        assert(c == Cell::Pair(b0 as char, b1 as char));
        assert(b0 as u32 == vals[i0] as u32);
        assert(b1 as u32 == vals[i0 + 1] as u32);
        assert((b0 as char) as u32 == b0 as u32);
        assert((b1 as char) as u32 == b1 as u32);
        vstd::utf8::char_u32_cast(b0 as char, (b0 as char) as u32);
        vstd::utf8::char_u32_cast(b1 as char, (b1 as char) as u32);
        vstd::utf8::char_u32_cast(vals[i0], vals[i0] as u32);
        vstd::utf8::char_u32_cast(vals[i0 + 1], vals[i0 + 1] as u32);
        assert(b0 as char == vals[i0]);
        assert(b1 as char == vals[i0 + 1]);
        let d1 = cell_step(d, m, ch, nv, k, c);
        lemma_note_cells(d1, m, ch, l, b, vals, nv, k + 1);
        assert(d2 == cells_from(d1, m, ch, b, nv, k + 1));
        if vals[i0] == '0' && vals[i0 + 1] == '0' {
            assert(d1 == d);
        } else {
            let n = LaneObject {
                lane: l,
                position: pos,
                keysound_id: keysound_of(seq![b0 as char, b1 as char]),
            };
            assert(d1 == push_note(d, l, pos, keysound_of(seq![b0 as char, b1 as char])));
            assert(d1.notes == d.notes.push(n));
            assert(d2.notes.subrange(0, d.notes.len() as int) =~= d2.notes.subrange(
                0,
                d1.notes.len() as int,
            ).subrange(0, d.notes.len() as int));
            assert(d1.notes.subrange(0, d.notes.len() as int) =~= d.notes);
            assert forall|j: int| d.notes.len() <= j < d2.notes.len() implies (
            #[trigger] d2.notes[j]).lane == l && d2.notes[j].position.measure == m
                && d2.notes[j].position.resolution == nv as usize by {
                if j == d.notes.len() {
                    assert(d2.notes[j] == d2.notes.subrange(0, d1.notes.len() as int)[j]);
                    assert(d2.notes[j] == d1.notes[j]);
                    assert(d1.notes[j] == n);
                }
            }
        }
    }
}

/// The objects of an ASCII object text, cells `k..n` in order: cell `k` is
/// the characters `2k` and `2k+1`, at slot `k` of `n`, and `00` is empty.
pub open spec fn ascii_cells(d: DocView, m: u32, ch: usize, vals: Seq<char>, n: nat, k: nat) -> DocView
    decreases n - k,
{
    if k < n {
        let a = vals[2 * k as int];
        let b = vals[2 * k as int + 1];
        let pos = Position { measure: m, index: k as usize, resolution: n as usize };
        let d1 = if a == '0' && b == '0' {
            d
        } else {
            object_step(d, pos, ch, seq![a, b])
        };
        ascii_cells(d1, m, ch, vals, n, k + 1)
    } else {
        d
    }
}

proof fn lemma_ascii_cells(d: DocView, m: u32, ch: usize, b: Seq<u8>, vals: Seq<char>, nv: nat, k: nat)
    requires
        b.len() == vals.len(),
        2 * nv <= b.len(),
        k <= nv,
        forall|i: int| 0 <= i < b.len() ==> (#[trigger] b[i]) < 0x80 && b[i] as u32 == vals[i] as u32,
    ensures
        cells_from(d, m, ch, b, nv, k) == ascii_cells(d, m, ch, vals, nv, k),
    decreases nv - k,
{
    if k < nv {
        let i0 = 2 * k as int;
        let b0 = b[i0];
        let b1 = b[i0 + 1];
        assert(b0 < 0x80 && b1 < 0x80);
        assert(cell_of(b0, b1) == Cell::Pair(b0 as char, b1 as char));
        assert((b0 as char) as u32 == b0 as u32);
        assert((b1 as char) as u32 == b1 as u32);
        vstd::utf8::char_u32_cast(b0 as char, (b0 as char) as u32);
        vstd::utf8::char_u32_cast(b1 as char, (b1 as char) as u32);
        vstd::utf8::char_u32_cast(vals[i0], vals[i0] as u32);
        vstd::utf8::char_u32_cast(vals[i0 + 1], vals[i0 + 1] as u32);
        assert(b0 as char == vals[i0]);
        assert(b1 as char == vals[i0 + 1]);
        let d1 = cell_step(d, m, ch, nv, k, cell_of(b0, b1));
        lemma_ascii_cells(d1, m, ch, b, vals, nv, k + 1);
    }
}

/// A channel line other than a measure length (channel 02) whose object text
/// is ASCII holds its objects in two-character cells: cell `k` of `n` lies at
/// slot `k` of `n` of the line's measure, `00` is empty, and the cells are
/// read in order, each as one object of the line's channel.
pub proof fn law_ascii_line(d: DocView, t: Seq<char>, m: u32, ch: usize, vals: Seq<char>)
    requires
        channel_parts(t) == Parts::Found(m, ch, vals),
        ch != 2,
        is_ascii_text(vals),
    ensures
        channel_step(d, t) == Flow::Go(ascii_cells(d, m, ch, vals, vals.len() / 2, 0)),
{
    lemma_ascii_encode(vals);
    let b = encode_utf8(vals);
    assert forall|i: int| 0 <= i < b.len() implies (#[trigger] b[i]) < 0x80 && b[i] as u32
        == vals[i] as u32 by {
        assert(b[i] as u32 == vals[i] as u32);
        assert((vals[i] as u32) < 0x80);
    }
    lemma_ascii_cells(d, m, ch, b, vals, vals.len() / 2, 0);
}

/// On a note channel (one that has a lane), a line whose object text is
/// ASCII adds one note for each of its two-character cells that is not `00`:
/// in that lane, on the line's measure, with as many slots as the line has
/// cells. The notes read before stay, and nothing else of the document
/// changes.
pub proof fn law_note_line(d: DocView, t: Seq<char>, m: u32, ch: usize, vals: Seq<char>, l: usize)
    requires
        channel_parts(t) == Parts::Found(m, ch, vals),
        lane_of_channel(ch) == Some(l),
        is_ascii_text(vals),
    ensures
        channel_step(d, t) matches Flow::Go(d2) && {
            &&& d2.notes.len() == d.notes.len() + nonzero_cells(vals, 0, vals.len() / 2)
            &&& d2.notes.subrange(0, d.notes.len() as int) == d.notes
            &&& forall|j: int|
                d.notes.len() <= j < d2.notes.len() ==> (#[trigger] d2.notes[j]).lane == l
                    && d2.notes[j].position.measure == m && d2.notes[j].position.resolution == (
                    vals.len() / 2) as usize
            &&& d2 == DocView { notes: d2.notes, ..d }
        },
{
    lemma_ascii_encode(vals);
    let b = encode_utf8(vals);
    assert forall|i: int| 0 <= i < b.len() implies (#[trigger] b[i]) < 0x80 && b[i] as u32
        == vals[i] as u32 by {
        assert(b[i] as u32 == vals[i] as u32);
        assert((vals[i] as u32) < 0x80);
    }
    lemma_note_cells(d, m, ch, l, b, vals, vals.len() / 2, 0);
}

fn add_tempo(doc: &mut BmsDocument, pos: Position, kind: TempoKind)
    ensures
        final(doc)@ == push_tempo(old(doc)@, pos, kind@),
{
    let ghost before = doc.tempo_events@;
    let e = TempoEvent { position: pos, kind };
    doc.tempo_events.push(e);
    assert(doc.tempo_events@.map_values(|e: TempoEvent| e@) =~= before.map_values(
        |e: TempoEvent| e@,
    ).push(e@));
}

fn add_note(doc: &mut BmsDocument, lane: usize, pos: Position, key: Option<usize>)
    ensures
        final(doc)@ == push_note(old(doc)@, lane, pos, key),
{
    doc.notes.push(LaneObject { lane, position: pos, keysound_id: key });
}

fn read_object(doc: &mut BmsDocument, pos: Position, ch: usize, v: &[char])
    requires
        v@.len() == 2,
    ensures
        final(doc)@ == object_step(old(doc)@, pos, ch, v@),
{
    proof {
        lemma_two_digit_bound(v@, 36);
        lemma_two_digit_bound(v@, 62);
    }
    if ch == 3 {
        if let Some(x) = parse_unsigned_chars(v, 16, 0xFFFF_FFFF) {
            add_tempo(doc, pos, TempoKind::Bpm(Number::Whole(x as u32)));
        }
    } else if ch == 8 {
        if let Decoded::Value(i) = decode_base_chars(v, 36) {
            match doc.bpm_table.get(&i) {
                Some(s) => {
                    let s2 = s.clone();
                    add_tempo(doc, pos, TempoKind::Bpm(Number::Text(s2)));
                },
                None => {},
            }
        }
    } else if ch == 9 {
        match decode_base_chars(v, 36) {
            Decoded::Value(i) => {
                match doc.stop_table.get(&i) {
                    Some(s) => {
                        let s2 = s.clone();
                        add_tempo(doc, pos, TempoKind::Stop(Number::Text(s2)));
                    },
                    None => {},
                }
            },
            _ => {
                if let Some(x) = parse_unsigned_chars(v, 16, 0xFFFF_FFFF) {
                    add_tempo(doc, pos, TempoKind::Stop(Number::Whole(x as u32)));
                }
            },
        }
    } else {
        if let Some(l) = channel_to_lane(ch) {
            let key = match decode_base_chars(v, 62) {
                Decoded::Value(n) => if n > 0 {
                    Some(n)
                } else {
                    None
                },
                _ => None,
            };
            add_note(doc, l, pos, key);
        }
    }
}

fn read_objects(doc: &mut BmsDocument, m: u32, ch: usize, vals: &[char])
    ensures
        final(doc)@ == line_objects(old(doc)@, m, ch, vals@),
{
    let b = encode_chars(vals);
    let blen = b.len();
    let nv = blen / 2;
    let mut k: usize = 0;
    let ghost target = line_objects(doc@, m, ch, vals@);
    while k < nv
        invariant
            b@ == encode_utf8(vals@),
            nv == b@.len() / 2,
            blen == b@.len(),
            k <= nv,
            target == cells_from(doc@, m, ch, b@, nv as nat, k as nat),
        decreases nv - k,
    {
        assert(2 * k + 1 < blen);
        let b0 = b[2 * k];
        let b1 = b[2 * k + 1];
        let pos = Position { measure: m, index: k, resolution: nv };
        if b0 < 0x80 && b1 < 0x80 {
            let a = b0 as char;
            let c = b1 as char;
            if !(a == '0' && c == '0') {
                let v = [a, c];
                assert(v@ =~= seq![a, c]);
                read_object(doc, pos, ch, v.as_slice());
            }
        } else if 0xC2 <= b0 && b0 <= 0xDF && 0x80 <= b1 && b1 <= 0xBF {
            if ch != 3 && ch != 8 && ch != 9 {
                if let Some(l) = channel_to_lane(ch) {
                    add_note(doc, l, pos, None);
                }
            }
        }
        k += 1;
    }
}

/// Reads one channel line into `doc`.
pub fn read_channel_line(doc: &mut BmsDocument, t: &[char]) -> (r: Step)
    requires
        t@.len() >= 1,
    ensures
        crate::lines::step_reports(r, channel_step(old(doc)@, t@), old(doc)@, final(doc)@),
{
    match split_channel_line(t) {
        PartsResult::Fail(s) => Step::Fail(s),
        PartsResult::Skip => Step::Go,
        PartsResult::Found(m, ch, st) => {
            let vals = &t[st..t.len()];
            if ch == 2 {
                let (a, b) = trim_bounds(vals, 0, vals.len());
                assert(vals@.subrange(0, vals@.len() as int) =~= vals@);
                let r = &vals[a..b];
                if is_float_literal_chars(r) {
                    let ghost before = doc.measure_lengths@;
                    let ml = MeasureLength { measure: m, ratio: string_from_chars(r) };
                    doc.measure_lengths.push(ml);
                    assert(doc.measure_lengths@.map_values(|x: MeasureLength| x@)
                        =~= before.map_values(|x: MeasureLength| x@).push(ml@));
                }
            } else {
                read_objects(doc, m, ch, vals);
            }
            Step::Go
        },
    }
}

} // verus!
