//! Object codes of the BMS format: Base36/Base62 numbers, channel codes,
//! lanes and `#PLAYER` values.
use crate::text::{all_digit_chars, all_digits, chars_of, parse_unsigned, parse_unsigned_chars};
use vstd::prelude::*;

verus! {

// ---------------------------------------------------------------------------
// Base36 / Base62 numbers
// ---------------------------------------------------------------------------

/// Digit value in the BMS alphabet: `0-9`, then `A-Z` (10..35), then `a-z` (36..61).
pub open spec fn bms_digit(c: char) -> Option<nat> {
    if '0' <= c && c <= '9' {
        Some((c as int - '0' as int) as nat)
    } else if 'A' <= c && c <= 'Z' {
        Some((c as int - 'A' as int + 10) as nat)
    } else if 'a' <= c && c <= 'z' {
        Some((c as int - 'a' as int + 36) as nat)
    } else {
        None
    }
}

/// `c` is a digit whose value is below `base`.
pub open spec fn digit_below(c: char, base: nat) -> bool {
    bms_digit(c) matches Some(d) && d < base
}

/// Length of the longest prefix of `s` made of digits below `base`.
pub open spec fn digit_run(s: Seq<char>, base: nat) -> nat
    decreases s.len(),
{
    if s.len() > 0 && digit_below(s[0], base) {
        digit_run(s.drop_first(), base) + 1
    } else {
        0
    }
}

/// Positional value of `s` in `base` (a character that is no digit counts as 0).
pub open spec fn base_value(s: Seq<char>, base: nat) -> nat
    decreases s.len(),
{
    if s.len() == 0 {
        0
    } else {
        let d = match bms_digit(s.last()) {
            Some(d) => d,
            None => 0,
        };
        base_value(s.drop_last(), base) * base + d
    }
}

/// The number `s` denotes in `base`: defined when every character is a digit below `base`.
pub open spec fn base_number(s: Seq<char>, base: nat) -> Option<nat> {
    if digit_run(s, base) == s.len() {
        Some(base_value(s, base))
    } else {
        None
    }
}

/// The largest value that decoding reaches: the value of the digit run.
/// Decoding overflows `usize` exactly when this exceeds `usize::MAX`.
pub open spec fn base_peak(s: Seq<char>, base: nat) -> nat {
    base_value(s.subrange(0, digit_run(s, base) as int), base)
}

/// Outcome of decoding a Base36/Base62 number.
#[derive(Debug, Clone, Copy, PartialEq, Eq, Structural)]
pub enum Decoded {
    /// All characters are digits below the base; the number fits in `usize`.
    Value(usize),
    /// Some character is not a digit below the base.
    NotANumber,
    /// The digits read before the first non-digit exceed `usize::MAX`.
    Overflow,
}

/// What decoding `s` in `base` gives.
pub open spec fn decode_outcome(s: Seq<char>, base: nat) -> Decoded {
    if base_peak(s, base) > usize::MAX {
        Decoded::Overflow
    } else {
        match base_number(s, base) {
            Some(v) => Decoded::Value(v as usize),
            None => Decoded::NotANumber,
        }
    }
}

proof fn lemma_digit_run(s: Seq<char>, base: nat, i: int)
    requires
        0 <= i <= s.len(),
        forall|k: int| 0 <= k < i ==> digit_below(#[trigger] s[k], base),
        i == s.len() || !digit_below(s[i], base),
    ensures
        digit_run(s, base) == i,
    decreases i,
{
    if i > 0 {
        let t = s.drop_first();
        assert forall|k: int| 0 <= k < i - 1 implies digit_below(#[trigger] t[k], base) by {
            assert(t[k] == s[k + 1]);
        }
        if i - 1 < t.len() {
            assert(t[i - 1] == s[i]);
        }
        lemma_digit_run(t, base, i - 1);
    }
}

proof fn lemma_digit_run_bound(s: Seq<char>, base: nat)
    ensures
        digit_run(s, base) <= s.len(),
        forall|k: int| 0 <= k < digit_run(s, base) ==> digit_below(#[trigger] s[k], base),
        digit_run(s, base) < s.len() ==> !digit_below(s[digit_run(s, base) as int], base),
    decreases s.len(),
{
    if s.len() > 0 && digit_below(s[0], base) {
        let t = s.drop_first();
        lemma_digit_run_bound(t, base);
        assert forall|k: int| 0 <= k < digit_run(s, base) implies digit_below(
            #[trigger] s[k],
            base,
        ) by {
            if k > 0 {
                assert(s[k] == t[k - 1]);
            }
        }
        if digit_run(s, base) < s.len() {
            assert(s[digit_run(s, base) as int] == t[digit_run(t, base) as int]);
        }
    }
}

proof fn lemma_base_value_step(s: Seq<char>, i: int, base: nat)
    requires
        0 <= i < s.len(),
    ensures
        base_value(s.subrange(0, i + 1), base) == base_value(s.subrange(0, i), base) * base
            + match bms_digit(s[i]) {
            Some(d) => d,
            None => 0,
        },
{
    assert(s.subrange(0, i + 1).drop_last() =~= s.subrange(0, i));
}

/// Along a run of digits the decoded value never decreases.
proof fn lemma_base_value_monotone(s: Seq<char>, base: nat, i: int, j: int)
    requires
        base >= 1,
        0 <= i <= j <= s.len(),
    ensures
        base_value(s.subrange(0, i), base) <= base_value(s.subrange(0, j), base),
    decreases j - i,
{
    if i < j {
        lemma_base_value_monotone(s, base, i, j - 1);
        lemma_base_value_step(s, j - 1, base);
        let v = base_value(s.subrange(0, j - 1), base);
        assert(v * base >= v) by (nonlinear_arith)
            requires
                base >= 1,
        ;
    }
}

fn bms_digit_exec(c: char) -> (r: Option<u32>)
    ensures
        match r {
            Some(d) => bms_digit(c) == Some(d as nat),
            None => bms_digit(c) is None,
        },
{
    if '0' <= c && c <= '9' {
        Some((c as u32) - ('0' as u32))
    } else if 'A' <= c && c <= 'Z' {
        Some((c as u32) - ('A' as u32) + 10)
    } else if 'a' <= c && c <= 'z' {
        Some((c as u32) - ('a' as u32) + 36)
    } else {
        None
    }
}

/// Decodes `s` as a number in `base` over the BMS digit alphabet,
/// reporting a value that would not fit in `usize`.
pub fn decode_base_chars(s: &[char], base: u32) -> (r: Decoded)
    ensures
        r == decode_outcome(s@, base as nat),
{
    let mut val: usize = 0;
    let mut i: usize = 0;
    while i < s.len()
        invariant
            i <= s@.len(),
            forall|k: int| 0 <= k < i ==> digit_below(#[trigger] s@[k], base as nat),
            val as nat == base_value(s@.subrange(0, i as int), base as nat),
        decreases s@.len() - i,
    {
        let c = s[i];
        let d = match bms_digit_exec(c) {
            Some(d) => d,
            None => base,
        };
        if d >= base {
            proof {
                lemma_digit_run(s@, base as nat, i as int);
            }
            return Decoded::NotANumber;
        }
        proof {
            lemma_base_value_step(s@, i as int, base as nat);
        }
        assert((val as u128) * (base as u128) <= 0xFFFF_FFFF_FFFF_FFFFu128 * 0xFFFF_FFFFu128)
            by (nonlinear_arith)
            requires
                val <= 0xFFFF_FFFF_FFFF_FFFFu64,
                base <= 0xFFFF_FFFFu32,
        ;
        let nv: u128 = (val as u128) * (base as u128) + (d as u128);
        if nv > usize::MAX as u128 {
            proof {
                lemma_digit_run_bound(s@, base as nat);
                assert forall|k: int| 0 <= k < i + 1 implies digit_below(
                    #[trigger] s@[k],
                    base as nat,
                ) by {}
                if digit_run(s@, base as nat) < i + 1 {
                    assert(digit_below(s@[digit_run(s@, base as nat) as int], base as nat));
                }
                lemma_base_value_monotone(
                    s@,
                    base as nat,
                    i + 1,
                    digit_run(s@, base as nat) as int,
                );
            }
            return Decoded::Overflow;
        }
        val = nv as usize;
        i += 1;
    }
    proof {
        lemma_digit_run(s@, base as nat, i as int);
        assert(s@.subrange(0, s@.len() as int) =~= s@);
    }
    Decoded::Value(val)
}

/// Decodes a Base36/Base62 number (`base` 36 or 62 in the format).
/// The caller keeps the digits within `usize`.
pub fn base_decode(s: &str, base: u32) -> (r: Option<usize>)
    requires
        base_peak(s@, base as nat) <= usize::MAX,
    ensures
        match base_number(s@, base as nat) {
            Some(v) => r == Some(v as usize),
            None => r is None,
        },
{
    let cs = chars_of(s);
    match decode_base_chars(cs.as_slice(), base) {
        Decoded::Value(v) => Some(v),
        _ => None,
    }
}

/// Decoding is positional: appending a character `c` to `s` gives a number
/// exactly when both `s` and `c` are numbers, and then the number of `s`
/// times the base plus the digit.
pub proof fn law_base_number_push(s: Seq<char>, c: char, base: nat)
    ensures
        base_number(s.push(c), base) == match (base_number(s, base), base_number(seq![c], base)) {
            (Some(v), Some(d)) => Some(v * base + d),
            _ => None::<nat>,
        },
        base_number(seq![c], base) == if digit_below(c, base) {
            Some(bms_digit(c).unwrap())
        } else {
            None::<nat>
        },
{
    let sp = s.push(c);
    let one = seq![c];
    lemma_digit_run_bound(s, base);
    assert(sp.drop_last() =~= s);
    assert(one.drop_last() =~= Seq::<char>::empty());
    assert(one.drop_first() =~= Seq::<char>::empty());
    assert(digit_run(Seq::<char>::empty(), base) == 0);
    assert(base_value(Seq::<char>::empty(), base) == 0);
    assert(base_value(one, base) == 0 * base + match bms_digit(c) {
        Some(d) => d,
        None => 0,
    });
    if digit_run(s, base) == s.len() {
        assert forall|k: int| 0 <= k < s.len() implies digit_below(#[trigger] sp[k], base) by {
            assert(sp[k] == s[k]);
        }
        assert(sp[s.len() as int] == c);
        if digit_below(c, base) {
            lemma_digit_run(sp, base, sp.len() as int);
        } else {
            lemma_digit_run(sp, base, s.len() as int);
        }
    } else {
        let r = digit_run(s, base) as int;
        assert forall|k: int| 0 <= k < r implies digit_below(#[trigger] sp[k], base) by {
            assert(sp[k] == s[k]);
        }
        assert(sp[r] == s[r]);
        lemma_digit_run(sp, base, r);
    }
}

/// Two digits below `base` never exceed `base * base - 1`.
pub proof fn lemma_two_digit_bound(s: Seq<char>, base: nat)
    requires
        s.len() <= 2,
        1 <= base <= 62,
    ensures
        base_peak(s, base) < base * base,
        base_number(s, base) matches Some(v) ==> v < base * base,
{
    lemma_digit_run_bound(s, base);
    let r = s.subrange(0, digit_run(s, base) as int);
    assert forall|k: int| 0 <= k < r.len() implies digit_below(#[trigger] r[k], base) by {
        assert(r[k] == s[k]);
    }
    assert(base * base >= base) by (nonlinear_arith)
        requires
            base >= 1,
    ;
    if r.len() == 1 {
        assert(r.drop_last() =~= Seq::<char>::empty());
        assert(digit_below(r[0], base));
        assert(base_value(r.drop_last(), base) == 0);
        assert(r.last() == r[0]);
        assert(base_value(r, base) == 0 * base + bms_digit(r[0]).unwrap());
    } else if r.len() == 2 {
        let r1 = r.drop_last();
        assert(r1.drop_last() =~= Seq::<char>::empty());
        assert(digit_below(r[0], base));
        assert(digit_below(r[1], base));
        let d0 = bms_digit(r[0]).unwrap();
        let d1 = bms_digit(r[1]).unwrap();
        assert(r1.last() == r[0]);
        assert(base_value(r1.drop_last(), base) == 0);
        assert(base_value(r1, base) == d0);
        assert(base_value(r, base) == d0 * base + d1);
        assert(d0 * base + d1 < base * base) by (nonlinear_arith)
            requires
                d0 < base,
                d1 < base,
        ;
    } else {
        assert(r.len() == 0);
        assert(base_value(r, base) == 0);
    }
    if digit_run(s, base) == s.len() {
        assert(r =~= s);
    }
}

// ---------------------------------------------------------------------------
// Channel codes and lanes
// ---------------------------------------------------------------------------

/// The channel a channel code names: decimal when it is all ASCII digits
/// (as `usize::from_str` reads it), Base36 otherwise.
pub open spec fn channel_code(s: Seq<char>) -> Option<nat> {
    if all_digits(s) {
        parse_unsigned(s, 10, usize::MAX as nat)
    } else {
        base_number(s, 36)
    }
}

/// Reads a channel code given as characters.
pub fn channel_code_chars(s: &[char]) -> (r: Option<usize>)
    requires
        all_digits(s@) || base_peak(s@, 36) <= usize::MAX,
    ensures
        match channel_code(s@) {
            Some(v) => r == Some(v as usize),
            None => r is None,
        },
{
    if all_digit_chars(s) {
        match parse_unsigned_chars(s, 10, usize::MAX as u64) {
            Some(v) => Some(v as usize),
            None => None,
        }
    } else {
        match decode_base_chars(s, 36) {
            Decoded::Value(v) => Some(v),
            _ => None,
        }
    }
}

/// Reads a channel code: decimal when all ASCII digits, Base36 otherwise.
pub fn parse_channel_code(channel: &str) -> (r: Option<usize>)
    requires
        all_digits(channel@) || base_peak(channel@, 36) <= usize::MAX,
    ensures
        match channel_code(channel@) {
            Some(v) => r == Some(v as usize),
            None => r is None,
        },
{
    let cs = chars_of(channel);
    channel_code_chars(cs.as_slice())
}

/// The lane a note channel feeds: 1P visible (11-17) and invisible (51-57)
/// keys, 2P keys (21-27 as lanes 7-13), scratch channels (18/19, 58/59 to
/// lane 0; 28/29 to lane 7).
pub open spec fn lane_of_channel(channel: usize) -> Option<usize> {
    if 11 <= channel <= 17 {
        Some((channel - 11) as usize)
    } else if channel == 18 || channel == 19 {
        Some(0)
    } else if 51 <= channel <= 57 {
        Some((channel - 51) as usize)
    } else if channel == 58 || channel == 59 {
        Some(0)
    } else if 21 <= channel <= 27 {
        Some((channel - 14) as usize)
    } else if channel == 28 || channel == 29 {
        Some(7)
    } else {
        None
    }
}

/// Lanes of the note channels: the 1P keys 11-17 are the lanes 0, 1, ...
/// in channel order, each next channel the next lane; the 2P keys 21-27
/// continue after the seven 1P lanes; 18/19 share lane 0 and 28/29 lane 7;
/// and the channels 51-59 are the lanes of 11-19.
pub proof fn law_note_channel_lanes(c: usize)
    ensures
        lane_of_channel(11) == Some(0usize),
        lane_of_channel(21) == Some(7usize),
        (11 <= c < 17 || 21 <= c < 27) ==> (lane_of_channel(c) matches Some(l)
            && lane_of_channel((c + 1) as usize) == Some((l + 1) as usize)),
        (c == 18 || c == 19) ==> lane_of_channel(c) == lane_of_channel(11),
        (c == 28 || c == 29) ==> lane_of_channel(c) == lane_of_channel(21),
        11 <= c <= 19 ==> lane_of_channel((c + 40) as usize) == lane_of_channel(c),
{
}

/// Maps a note channel to its lane.
pub fn channel_to_lane(channel: usize) -> (r: Option<usize>)
    ensures
        r == lane_of_channel(channel),
{
    if 11 <= channel && channel <= 17 {
        Some(channel - 11)
    } else if channel == 18 || channel == 19 {
        Some(0)
    } else if 51 <= channel && channel <= 57 {
        Some(channel - 51)
    } else if channel == 58 || channel == 59 {
        Some(0)
    } else if 21 <= channel && channel <= 27 {
        Some(channel - 14)
    } else if channel == 28 || channel == 29 {
        Some(7)
    } else {
        None
    }
}

/// Every lane a channel feeds is below 14 (the 14-key lane count).
pub proof fn law_lanes_below_fourteen(channel: usize)
    ensures
        lane_of_channel(channel) matches Some(l) ==> l < 14,
{
}

/// The key-mode number a `#PLAYER` value selects: 1 single (7), 2 double
/// (14), 3 nine keys, 4 ten keys, 5 five keys; anything else single.
pub open spec fn keymode_of_player(player: u32) -> u32 {
    if player == 1 {
        7
    } else if player == 2 {
        14
    } else if player == 3 {
        9
    } else if player == 4 {
        10
    } else if player == 5 {
        5
    } else {
        7
    }
}

/// Maps the `#PLAYER` header value to a key-mode number.
pub fn player_to_keymode(player: u32) -> (k: u32)
    ensures
        k == keymode_of_player(player),
{
    match player {
        1 => 7,
        2 => 14,
        3 => 9,
        4 => 10,
        5 => 5,
        _ => 7,
    }
}

/// `#PLAYER` values: 1 is 7 keys, 3 is 9 keys and 5 is 5 keys for one
/// player; 2 and 4 are the double-play modes of 1 and 5, with twice their
/// keys; any other value is read as 1.
pub proof fn law_player_keymodes(player: u32)
    ensures
        keymode_of_player(1) == 7,
        keymode_of_player(3) == 9,
        keymode_of_player(5) == 5,
        keymode_of_player(2) == 2 * keymode_of_player(1),
        keymode_of_player(4) == 2 * keymode_of_player(5),
        !(1 <= player <= 5) ==> keymode_of_player(player) == keymode_of_player(1),
{
}

/// Every `#PLAYER` value selects a number that names a key mode.
pub proof fn law_player_selects_keymode(player: u32)
    ensures
        crate::keymode::keymode_of_number(keymode_of_player(player)) is Some,
{
}

} // verus!
