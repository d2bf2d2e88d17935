//! Reading single header lines: resource declarations, indexed values,
//! whitespace-separated fields.
use crate::chart::{table_view, ResourceRef, ResourceRefView};
use crate::codes::{decode_base_chars, decode_outcome, Decoded};
use crate::text::{
    is_float_literal, is_float_literal_chars, is_whitespace_char, is_ws, push_chars, push_str,
    string_from_chars, trim, trim_bounds,
};
use std::collections::HashMap;
use vstd::prelude::*;

verus! {

broadcast use vstd::std_specs::hash::group_hash_axioms;

/// Result of reading one line into some state.
pub enum Flow<T> {
    /// Reading goes on with the new state.
    Go(T),
    /// The file is rejected with this message.
    Fail(Seq<char>),
    /// The input is one the format reader is not defined on: an index too
    /// large for `usize`.
    Abort,
}

/// What a reading step reports.
pub enum Step {
    Go,
    Fail(String),
    Abort,
}

/// `r` reports `f`: when `f` goes on, `now` is its new state; when it
/// stops, the state is still `before`.
pub open spec fn step_reports<T>(r: Step, f: Flow<T>, before: T, now: T) -> bool {
    match f {
        Flow::Go(t) => r is Go && now == t,
        Flow::Fail(m) => r matches Step::Fail(s) && s@ == m && now == before,
        Flow::Abort => r is Abort && now == before,
    }
}

// ---------------------------------------------------------------------------
// Searching
// ---------------------------------------------------------------------------

/// Index of the first whitespace character of `s`, or its length.
pub open spec fn first_ws(s: Seq<char>) -> nat
    decreases s.len(),
{
    if s.len() == 0 {
        0
    } else if is_ws(s[0]) {
        0
    } else {
        first_ws(s.drop_first()) + 1
    }
}

pub open spec fn is_ascii_alnum(c: char) -> bool {
    ('0' <= c && c <= '9') || ('a' <= c && c <= 'z') || ('A' <= c && c <= 'Z')
}

/// Index of the first character of `s` that is not ASCII alphanumeric, or its length.
pub open spec fn first_non_alnum(s: Seq<char>) -> nat
    decreases s.len(),
{
    if s.len() == 0 {
        0
    } else if !is_ascii_alnum(s[0]) {
        0
    } else {
        first_non_alnum(s.drop_first()) + 1
    }
}

/// Index of the first `c` in `s`, or its length.
pub open spec fn first_index_of(s: Seq<char>, c: char) -> nat
    decreases s.len(),
{
    if s.len() == 0 {
        0
    } else if s[0] == c {
        0
    } else {
        first_index_of(s.drop_first(), c) + 1
    }
}

pub proof fn lemma_first_index_bound(s: Seq<char>, c: char)
    ensures
        first_index_of(s, c) <= s.len(),
    decreases s.len(),
{
    if s.len() > 0 && s[0] != c {
        lemma_first_index_bound(s.drop_first(), c);
    }
}

proof fn lemma_drop_first_subrange<A>(s: Seq<A>, i: int)
    requires
        0 <= i < s.len(),
    ensures
        s.subrange(i, s.len() as int).drop_first() == s.subrange(i + 1, s.len() as int),
{
    assert(s.subrange(i, s.len() as int).drop_first() =~= s.subrange(i + 1, s.len() as int));
}

pub fn find_ws(s: &[char]) -> (k: usize)
    ensures
        k as nat == first_ws(s@),
        k <= s@.len(),
{
    let mut i: usize = 0;
    assert(s@.subrange(0, s@.len() as int) =~= s@);
    while i < s.len() && !is_whitespace_char(s[i])
        invariant
            i <= s@.len(),
            first_ws(s@) == i + first_ws(s@.subrange(i as int, s@.len() as int)),
        decreases s@.len() - i,
    {
        proof {
            lemma_drop_first_subrange(s@, i as int);
        }
        i += 1;
    }
    i
}

pub fn find_non_alnum(s: &[char]) -> (k: usize)
    ensures
        k as nat == first_non_alnum(s@),
        k <= s@.len(),
{
    let mut i: usize = 0;
    assert(s@.subrange(0, s@.len() as int) =~= s@);
    while i < s.len() && (('0' <= s[i] && s[i] <= '9') || ('a' <= s[i] && s[i] <= 'z') || ('A'
        <= s[i] && s[i] <= 'Z'))
        invariant
            i <= s@.len(),
            first_non_alnum(s@) == i + first_non_alnum(s@.subrange(i as int, s@.len() as int)),
        decreases s@.len() - i,
    {
        proof {
            lemma_drop_first_subrange(s@, i as int);
        }
        i += 1;
    }
    i
}

pub fn find_char(s: &[char], c: char) -> (k: usize)
    ensures
        k as nat == first_index_of(s@, c),
        k <= s@.len(),
{
    let mut i: usize = 0;
    assert(s@.subrange(0, s@.len() as int) =~= s@);
    while i < s.len() && s[i] != c
        invariant
            i <= s@.len(),
            first_index_of(s@, c) == i + first_index_of(s@.subrange(i as int, s@.len() as int), c),
        decreases s@.len() - i,
    {
        proof {
            lemma_drop_first_subrange(s@, i as int);
        }
        i += 1;
    }
    i
}

/// The characters of `s` as a `String`, trimmed.
pub fn trimmed_string(s: &[char]) -> (r: String)
    ensures
        r@ == trim(s@),
{
    let (a, b) = trim_bounds(s, 0, s.len());
    assert(s@.subrange(0, s@.len() as int) =~= s@);
    string_from_chars(&s[a..b])
}

/// `prefix` followed by `s`, as a `String`.
pub fn message(prefix: &str, s: &[char]) -> (r: String)
    ensures
        r@ == prefix@ + s@,
{
    let mut msg: Vec<char> = Vec::new();
    push_str(&mut msg, prefix);
    push_chars(&mut msg, s);
    assert(Seq::<char>::empty() + prefix@ + s@ =~= prefix@ + s@);
    string_from_chars(msg.as_slice())
}

pub fn message_only(prefix: &str) -> (r: String)
    ensures
        r@ == prefix@,
{
    let mut msg: Vec<char> = Vec::new();
    push_str(&mut msg, prefix);
    assert(Seq::<char>::empty() + prefix@ =~= prefix@);
    string_from_chars(msg.as_slice())
}

// ---------------------------------------------------------------------------
// Resource declarations: `#WAVxx path`, `#BMPxx path`
// ---------------------------------------------------------------------------

/// Reads the text after `#WAV` / `#BMP`: an index in `base`, a whitespace
/// character, and the path (trimmed). Without whitespace the line declares
/// nothing.
pub open spec fn resource_line(rest: Seq<char>, table: Map<usize, ResourceRefView>, base: nat) -> Flow<
    Map<usize, ResourceRefView>,
> {
    let k = first_ws(rest) as int;
    if k == rest.len() {
        Flow::Go(table)
    } else {
        let idx = rest.subrange(0, k);
        let path = trim(rest.subrange(k + 1, rest.len() as int));
        match decode_outcome(idx, base) {
            Decoded::Overflow => Flow::Abort,
            Decoded::NotANumber => Flow::Fail("invalid resource index: "@ + idx),
            Decoded::Value(v) => Flow::Go(table.insert(v, ResourceRefView { index: v, path })),
        }
    }
}

/// Reads a resource declaration into `table`.
pub fn apply_resource_line(rest: &[char], table: &mut HashMap<usize, ResourceRef>, base: u32) -> (r: Step)
    ensures
        step_reports(
            r,
            resource_line(rest@, table_view(old(table)@), base as nat),
            table_view(old(table)@),
            table_view(final(table)@),
        ),
        !(r is Go) ==> final(table)@ == old(table)@,
{
    let k = find_ws(rest);
    if k == rest.len() {
        return Step::Go;
    }
    let idx = &rest[0..k];
    let path = trimmed_string(&rest[k + 1..rest.len()]);
    match decode_base_chars(idx, base) {
        Decoded::Overflow => Step::Abort,
        Decoded::NotANumber => Step::Fail(message("invalid resource index: ", idx)),
        Decoded::Value(v) => {
            let ghost old_t = table@;
            let rr = ResourceRef { index: v, path };
            table.insert(v, rr);
            assert(table_view(old_t.insert(v, rr)) =~= table_view(old_t).insert(v, rr@));
            Step::Go
        },
    }
}

// ---------------------------------------------------------------------------
// Indexed values: `#BPMxx value`, `#STOPxx value`
// ---------------------------------------------------------------------------

pub enum Indexed {
    Found(usize, Seq<char>),
    Invalid(Seq<char>),
    Abort,
}

/// Reads the text after `#BPM` / `#STOP` as an index (ASCII alphanumerics,
/// read in `base`) followed by a decimal value.
pub open spec fn indexed_value(rest: Seq<char>, base: nat) -> Indexed {
    let e = first_non_alnum(rest) as int;
    if e == 0 || e == rest.len() {
        Indexed::Invalid("missing indexed value"@)
    } else {
        let idx = rest.subrange(0, e);
        let value = trim(rest.subrange(e, rest.len() as int));
        if value.len() == 0 {
            Indexed::Invalid("missing value for index "@ + idx)
        } else {
            match decode_outcome(idx, base) {
                Decoded::Overflow => Indexed::Abort,
                Decoded::NotANumber => Indexed::Invalid("invalid indexed key: "@ + idx),
                Decoded::Value(v) => if is_float_literal(value) {
                    Indexed::Found(v, value)
                } else {
                    Indexed::Invalid("invalid indexed value: "@ + value)
                },
            }
        }
    }
}

pub enum IndexedResult {
    Found(usize, String),
    Invalid(String),
    Abort,
}

pub open spec fn indexed_reports(r: IndexedResult, i: Indexed) -> bool {
    match i {
        Indexed::Found(k, v) => r matches IndexedResult::Found(k2, s) && k2 == k && s@ == v,
        Indexed::Invalid(m) => r matches IndexedResult::Invalid(s) && s@ == m,
        Indexed::Abort => r is Abort,
    }
}

pub fn read_indexed_value(rest: &[char], base: u32) -> (r: IndexedResult)
    ensures
        indexed_reports(r, indexed_value(rest@, base as nat)),
{
    let e = find_non_alnum(rest);
    if e == 0 || e == rest.len() {
        return IndexedResult::Invalid(message_only("missing indexed value"));
    }
    let idx = &rest[0..e];
    let (a, b) = trim_bounds(rest, e, rest.len());
    let value = &rest[a..b];
    if value.len() == 0 {
        return IndexedResult::Invalid(message("missing value for index ", idx));
    }
    match decode_base_chars(idx, base) {
        Decoded::Overflow => IndexedResult::Abort,
        Decoded::NotANumber => IndexedResult::Invalid(message("invalid indexed key: ", idx)),
        Decoded::Value(v) => {
            if is_float_literal_chars(value) {
                IndexedResult::Found(v, string_from_chars(value))
            } else {
                IndexedResult::Invalid(message("invalid indexed value: ", value))
            }
        },
    }
}

} // verus!
