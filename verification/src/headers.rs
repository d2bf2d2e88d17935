//! Header lines (`#KEY value`) of a BMS file.
use crate::chart::table_view;
use crate::codes::{keymode_of_player, player_to_keymode};
use crate::document::{text_map_view, texts_view, BmsDocument, DocView, HeaderBpm, HeaderBpmView};
use crate::lines::{
    apply_resource_line, find_ws, first_ws, indexed_value, read_indexed_value, resource_line,
    trimmed_string, Flow, Indexed, IndexedResult, Step,
};
use crate::text::{
    is_float_literal, is_float_literal_chars, parse_unsigned, parse_unsigned_chars,
    string_from_chars, trim, trim_bounds, trim_start,
};
use crate::utf8len::byte_len_at_least;
use vstd::prelude::*;
use vstd::utf8::encode_utf8;

verus! {

broadcast use vstd::std_specs::hash::group_hash_axioms;

/// `t` begins with `p`.
pub open spec fn has_prefix(t: Seq<char>, p: Seq<char>) -> bool {
    p.len() <= t.len() && t.subrange(0, p.len() as int) == p
}

/// What follows prefix `p` in `t`.
pub open spec fn after(t: Seq<char>, p: Seq<char>) -> Seq<char> {
    t.subrange(p.len() as int, t.len() as int)
}

/// What a header line does.
pub enum LineResult {
    /// The line is read; the document becomes this.
    Keep(DocView),
    /// The line is no known header: it is kept for the channel pass.
    Channel,
    Fail(Seq<char>),
    Abort,
}

/// `#STP`: a whitespace character and then a decimal literal (milliseconds);
/// anything else declares no stop.
pub open spec fn stp_line(d: DocView, rest: Seq<char>) -> DocView {
    let k = first_ws(rest) as int;
    if k == rest.len() {
        d
    } else {
        let v = rest.subrange(k + 1, rest.len() as int);
        if is_float_literal(v) {
            DocView { header_stops: d.header_stops.push(v), ..d }
        } else {
            d
        }
    }
}

/// `#BPM`: an indexed definition `#BPMxx value`, otherwise the initial tempo
/// from the first whitespace-separated field when it is a decimal literal.
pub open spec fn bpm_line(d: DocView, rest: Seq<char>) -> LineResult {
    match indexed_value(rest, 36) {
        Indexed::Found(i, v) => LineResult::Keep(
            DocView {
                bpm_table: d.bpm_table.insert(i, v),
                header_bpms: d.header_bpms.push(HeaderBpmView { index: Some(i), value: v }),
                ..d
            },
        ),
        Indexed::Abort => LineResult::Abort,
        Indexed::Invalid(_) => {
            let u = trim_start(rest);
            let tok = u.subrange(0, first_ws(u) as int);
            if u.len() > 0 && is_float_literal(tok) {
                LineResult::Keep(
                    DocView {
                        header_bpms: d.header_bpms.push(HeaderBpmView { index: None, value: tok }),
                        ..d
                    },
                )
            } else {
                LineResult::Keep(d)
            }
        },
    }
}

/// One trimmed line of the header pass.
pub open spec fn header_step(d: DocView, t: Seq<char>) -> LineResult {
    if t.len() == 0 || t[0] != '#' {
        LineResult::Keep(d)
    } else if has_prefix(t, "#WAV"@) {
        match resource_line(after(t, "#WAV"@), d.wav, 62) {
            Flow::Go(w) => LineResult::Keep(DocView { wav: w, ..d }),
            Flow::Fail(m) => LineResult::Fail(m),
            Flow::Abort => LineResult::Abort,
        }
    } else if has_prefix(t, "#BMP"@) {
        match resource_line(after(t, "#BMP"@), d.bmp, 62) {
            Flow::Go(b) => LineResult::Keep(DocView { bmp: b, ..d }),
            Flow::Fail(m) => LineResult::Fail(m),
            Flow::Abort => LineResult::Abort,
        }
    } else if has_prefix(t, "#STOP"@) {
        match indexed_value(after(t, "#STOP"@), 36) {
            Indexed::Found(i, v) => LineResult::Keep(
                DocView { stop_table: d.stop_table.insert(i, v), ..d },
            ),
            Indexed::Invalid(m) => LineResult::Fail(m),
            Indexed::Abort => LineResult::Abort,
        }
    } else if has_prefix(t, "#STP"@) {
        LineResult::Keep(stp_line(d, after(t, "#STP"@)))
    } else if has_prefix(t, "#BPM"@) {
        bpm_line(d, after(t, "#BPM"@))
    } else if has_prefix(t, "#TITLE"@) {
        LineResult::Keep(DocView { title: trim(after(t, "#TITLE"@)), ..d })
    } else if has_prefix(t, "#SUBTITLE"@) {
        LineResult::Keep(DocView { subtitle: trim(after(t, "#SUBTITLE"@)), ..d })
    } else if has_prefix(t, "#ARTIST"@) {
        LineResult::Keep(DocView { artist: trim(after(t, "#ARTIST"@)), ..d })
    } else if has_prefix(t, "#SUBARTIST"@) {
        LineResult::Keep(DocView { subartist: trim(after(t, "#SUBARTIST"@)), ..d })
    } else if has_prefix(t, "#GENRE"@) {
        LineResult::Keep(DocView { genre: trim(after(t, "#GENRE"@)), ..d })
    } else if has_prefix(t, "#PLAYER"@) {
        let player = match parse_unsigned(trim(after(t, "#PLAYER"@)), 10, 0xFFFF_FFFF) {
            Some(p) => p as u32,
            None => 1,
        };
        LineResult::Keep(DocView { keymode: Some(keymode_of_player(player)), ..d })
    } else if has_prefix(t, "#LNTYPE"@) {
        let lntype = match parse_unsigned(trim(after(t, "#LNTYPE"@)), 10, 0xFF) {
            Some(n) => n as u8,
            None => 0,
        };
        LineResult::Keep(DocView { lntype, ..d })
    } else if encode_utf8(t).len() >= 6 {
        LineResult::Channel
    } else {
        LineResult::Keep(d)
    }
}

proof fn lemma_tag_prefix(p: Seq<char>, rest: Seq<char>)
    ensures
        has_prefix(p + rest, p),
        after(p + rest, p) == rest,
{
    assert((p + rest).subrange(0, p.len() as int) =~= p);
    assert((p + rest).subrange(p.len() as int, (p + rest).len() as int) =~= rest);
}

proof fn lemma_tag_differs(p: Seq<char>, q: Seq<char>, i: int, rest: Seq<char>)
    requires
        0 <= i < p.len(),
        i < q.len(),
        p[i] != q[i],
    ensures
        !has_prefix(p + rest, q),
{
    if has_prefix(p + rest, q) {
        assert((p + rest).subrange(0, q.len() as int)[i] == (p + rest)[i]);
    }
}

proof fn lemma_title_header(d: DocView, rest: Seq<char>)
    ensures
        header_step(d, "#TITLE"@ + rest) == LineResult::Keep(DocView { title: trim(rest), ..d }),
{
    reveal_strlit("#WAV");
    reveal_strlit("#BMP");
    reveal_strlit("#STOP");
    reveal_strlit("#STP");
    reveal_strlit("#BPM");
    reveal_strlit("#TITLE");
    lemma_tag_prefix("#TITLE"@, rest);
    assert(("#TITLE"@ + rest)[0] == '#');
    lemma_tag_differs("#TITLE"@, "#WAV"@, 1, rest);
    lemma_tag_differs("#TITLE"@, "#BMP"@, 1, rest);
    lemma_tag_differs("#TITLE"@, "#STOP"@, 1, rest);
    lemma_tag_differs("#TITLE"@, "#STP"@, 1, rest);
    lemma_tag_differs("#TITLE"@, "#BPM"@, 1, rest);
}

proof fn lemma_subtitle_header(d: DocView, rest: Seq<char>)
    ensures
        header_step(d, "#SUBTITLE"@ + rest) == LineResult::Keep(DocView { subtitle: trim(rest), ..d }),
{
    reveal_strlit("#WAV");
    reveal_strlit("#BMP");
    reveal_strlit("#STOP");
    reveal_strlit("#STP");
    reveal_strlit("#BPM");
    reveal_strlit("#TITLE");
    reveal_strlit("#SUBTITLE");
    lemma_tag_prefix("#SUBTITLE"@, rest);
    assert(("#SUBTITLE"@ + rest)[0] == '#');
    lemma_tag_differs("#SUBTITLE"@, "#WAV"@, 1, rest);
    lemma_tag_differs("#SUBTITLE"@, "#BMP"@, 1, rest);
    lemma_tag_differs("#SUBTITLE"@, "#STOP"@, 2, rest);
    lemma_tag_differs("#SUBTITLE"@, "#STP"@, 2, rest);
    lemma_tag_differs("#SUBTITLE"@, "#BPM"@, 1, rest);
    lemma_tag_differs("#SUBTITLE"@, "#TITLE"@, 1, rest);
}

proof fn lemma_artist_header(d: DocView, rest: Seq<char>)
    ensures
        header_step(d, "#ARTIST"@ + rest) == LineResult::Keep(DocView { artist: trim(rest), ..d }),
{
    reveal_strlit("#WAV");
    reveal_strlit("#BMP");
    reveal_strlit("#STOP");
    reveal_strlit("#STP");
    reveal_strlit("#BPM");
    reveal_strlit("#TITLE");
    reveal_strlit("#SUBTITLE");
    reveal_strlit("#ARTIST");
    lemma_tag_prefix("#ARTIST"@, rest);
    assert(("#ARTIST"@ + rest)[0] == '#');
    lemma_tag_differs("#ARTIST"@, "#WAV"@, 1, rest);
    lemma_tag_differs("#ARTIST"@, "#BMP"@, 1, rest);
    lemma_tag_differs("#ARTIST"@, "#STOP"@, 1, rest);
    lemma_tag_differs("#ARTIST"@, "#STP"@, 1, rest);
    lemma_tag_differs("#ARTIST"@, "#BPM"@, 1, rest);
    lemma_tag_differs("#ARTIST"@, "#TITLE"@, 1, rest);
    lemma_tag_differs("#ARTIST"@, "#SUBTITLE"@, 1, rest);
}

proof fn lemma_subartist_header(d: DocView, rest: Seq<char>)
    ensures
        header_step(d, "#SUBARTIST"@ + rest) == LineResult::Keep(DocView { subartist: trim(rest), ..d }),
{
    reveal_strlit("#WAV");
    reveal_strlit("#BMP");
    reveal_strlit("#STOP");
    reveal_strlit("#STP");
    reveal_strlit("#BPM");
    reveal_strlit("#TITLE");
    reveal_strlit("#SUBTITLE");
    reveal_strlit("#ARTIST");
    reveal_strlit("#SUBARTIST");
    lemma_tag_prefix("#SUBARTIST"@, rest);
    assert(("#SUBARTIST"@ + rest)[0] == '#');
    lemma_tag_differs("#SUBARTIST"@, "#WAV"@, 1, rest);
    lemma_tag_differs("#SUBARTIST"@, "#BMP"@, 1, rest);
    lemma_tag_differs("#SUBARTIST"@, "#STOP"@, 2, rest);
    lemma_tag_differs("#SUBARTIST"@, "#STP"@, 2, rest);
    lemma_tag_differs("#SUBARTIST"@, "#BPM"@, 1, rest);
    lemma_tag_differs("#SUBARTIST"@, "#TITLE"@, 1, rest);
    lemma_tag_differs("#SUBARTIST"@, "#SUBTITLE"@, 4, rest);
    lemma_tag_differs("#SUBARTIST"@, "#ARTIST"@, 1, rest);
}

proof fn lemma_genre_header(d: DocView, rest: Seq<char>)
    ensures
        header_step(d, "#GENRE"@ + rest) == LineResult::Keep(DocView { genre: trim(rest), ..d }),
{
    reveal_strlit("#WAV");
    reveal_strlit("#BMP");
    reveal_strlit("#STOP");
    reveal_strlit("#STP");
    reveal_strlit("#BPM");
    reveal_strlit("#TITLE");
    reveal_strlit("#SUBTITLE");
    reveal_strlit("#ARTIST");
    reveal_strlit("#SUBARTIST");
    reveal_strlit("#GENRE");
    lemma_tag_prefix("#GENRE"@, rest);
    assert(("#GENRE"@ + rest)[0] == '#');
    lemma_tag_differs("#GENRE"@, "#WAV"@, 1, rest);
    lemma_tag_differs("#GENRE"@, "#BMP"@, 1, rest);
    lemma_tag_differs("#GENRE"@, "#STOP"@, 1, rest);
    lemma_tag_differs("#GENRE"@, "#STP"@, 1, rest);
    lemma_tag_differs("#GENRE"@, "#BPM"@, 1, rest);
    lemma_tag_differs("#GENRE"@, "#TITLE"@, 1, rest);
    lemma_tag_differs("#GENRE"@, "#SUBTITLE"@, 1, rest);
    lemma_tag_differs("#GENRE"@, "#ARTIST"@, 1, rest);
    lemma_tag_differs("#GENRE"@, "#SUBARTIST"@, 1, rest);
}

proof fn lemma_player_header(d: DocView, rest: Seq<char>)
    ensures
        header_step(d, "#PLAYER"@ + rest) == LineResult::Keep(DocView { keymode: Some(keymode_of_player(match parse_unsigned(trim(rest), 10, 0xFFFF_FFFF) {
            Some(p) => p as u32,
            None => 1,
        })), ..d }),
{
    reveal_strlit("#WAV");
    reveal_strlit("#BMP");
    reveal_strlit("#STOP");
    reveal_strlit("#STP");
    reveal_strlit("#BPM");
    reveal_strlit("#TITLE");
    reveal_strlit("#SUBTITLE");
    reveal_strlit("#ARTIST");
    reveal_strlit("#SUBARTIST");
    reveal_strlit("#GENRE");
    reveal_strlit("#PLAYER");
    lemma_tag_prefix("#PLAYER"@, rest);
    assert(("#PLAYER"@ + rest)[0] == '#');
    lemma_tag_differs("#PLAYER"@, "#WAV"@, 1, rest);
    lemma_tag_differs("#PLAYER"@, "#BMP"@, 1, rest);
    lemma_tag_differs("#PLAYER"@, "#STOP"@, 1, rest);
    lemma_tag_differs("#PLAYER"@, "#STP"@, 1, rest);
    lemma_tag_differs("#PLAYER"@, "#BPM"@, 1, rest);
    lemma_tag_differs("#PLAYER"@, "#TITLE"@, 1, rest);
    lemma_tag_differs("#PLAYER"@, "#SUBTITLE"@, 1, rest);
    lemma_tag_differs("#PLAYER"@, "#ARTIST"@, 1, rest);
    lemma_tag_differs("#PLAYER"@, "#SUBARTIST"@, 1, rest);
    lemma_tag_differs("#PLAYER"@, "#GENRE"@, 1, rest);
}

proof fn lemma_lntype_header(d: DocView, rest: Seq<char>)
    ensures
        header_step(d, "#LNTYPE"@ + rest) == LineResult::Keep(DocView { lntype: match parse_unsigned(trim(rest), 10, 0xFF) {
            Some(n) => n as u8,
            None => 0,
        }, ..d }),
{
    reveal_strlit("#WAV");
    reveal_strlit("#BMP");
    reveal_strlit("#STOP");
    reveal_strlit("#STP");
    reveal_strlit("#BPM");
    reveal_strlit("#TITLE");
    reveal_strlit("#SUBTITLE");
    reveal_strlit("#ARTIST");
    reveal_strlit("#SUBARTIST");
    reveal_strlit("#GENRE");
    reveal_strlit("#PLAYER");
    reveal_strlit("#LNTYPE");
    lemma_tag_prefix("#LNTYPE"@, rest);
    assert(("#LNTYPE"@ + rest)[0] == '#');
    lemma_tag_differs("#LNTYPE"@, "#WAV"@, 1, rest);
    lemma_tag_differs("#LNTYPE"@, "#BMP"@, 1, rest);
    lemma_tag_differs("#LNTYPE"@, "#STOP"@, 1, rest);
    lemma_tag_differs("#LNTYPE"@, "#STP"@, 1, rest);
    lemma_tag_differs("#LNTYPE"@, "#BPM"@, 1, rest);
    lemma_tag_differs("#LNTYPE"@, "#TITLE"@, 1, rest);
    lemma_tag_differs("#LNTYPE"@, "#SUBTITLE"@, 1, rest);
    lemma_tag_differs("#LNTYPE"@, "#ARTIST"@, 1, rest);
    lemma_tag_differs("#LNTYPE"@, "#SUBARTIST"@, 1, rest);
    lemma_tag_differs("#LNTYPE"@, "#GENRE"@, 1, rest);
    lemma_tag_differs("#LNTYPE"@, "#PLAYER"@, 1, rest);
}

/// `#PLAYER` sets only the key-mode number: that of the decimal player
/// number after the tag (1 when there is none), every other part of the
/// document as it was; `#LNTYPE` sets only the long-note type (0 when the
/// text after the tag is no decimal number below 256).
pub proof fn law_player_lntype_headers(d: DocView, rest: Seq<char>)
    ensures
        header_step(d, "#PLAYER"@ + rest) == LineResult::Keep(
            DocView {
                keymode: Some(
                    keymode_of_player(
                        match parse_unsigned(trim(rest), 10, 0xFFFF_FFFF) {
                            Some(p) => p as u32,
                            None => 1,
                        },
                    ),
                ),
                ..d
            },
        ),
        header_step(d, "#LNTYPE"@ + rest) == LineResult::Keep(
            DocView {
                lntype: match parse_unsigned(trim(rest), 10, 0xFF) {
                    Some(n) => n as u8,
                    None => 0,
                },
                ..d
            },
        ),
{
    lemma_player_header(d, rest);
    lemma_lntype_header(d, rest);
}

/// Each metadata header (`#TITLE`, `#SUBTITLE`, `#ARTIST`, `#SUBARTIST`,
/// `#GENRE`) sets its own field to the trimmed text after the tag and leaves
/// every other part of the document as it was.
pub proof fn law_metadata_headers(d: DocView, rest: Seq<char>)
    ensures
        header_step(d, "#TITLE"@ + rest) == LineResult::Keep(DocView { title: trim(rest), ..d }),
        header_step(d, "#SUBTITLE"@ + rest) == LineResult::Keep(DocView { subtitle: trim(rest), ..d }),
        header_step(d, "#ARTIST"@ + rest) == LineResult::Keep(DocView { artist: trim(rest), ..d }),
        header_step(d, "#SUBARTIST"@ + rest) == LineResult::Keep(DocView { subartist: trim(rest), ..d }),
        header_step(d, "#GENRE"@ + rest) == LineResult::Keep(DocView { genre: trim(rest), ..d }),
{
    lemma_title_header(d, rest);
    lemma_subtitle_header(d, rest);
    lemma_artist_header(d, rest);
    lemma_subartist_header(d, rest);
    lemma_genre_header(d, rest);
}

/// The header names, as characters.
pub struct Tags {
    pub wav: Vec<char>,
    pub bmp: Vec<char>,
    pub stop: Vec<char>,
    pub stp: Vec<char>,
    pub bpm: Vec<char>,
    pub title: Vec<char>,
    pub subtitle: Vec<char>,
    pub artist: Vec<char>,
    pub subartist: Vec<char>,
    pub genre: Vec<char>,
    pub player: Vec<char>,
    pub lntype: Vec<char>,
}

impl Tags {
    pub open spec fn wf(&self) -> bool {
        &&& self.wav@ == "#WAV"@
        &&& self.bmp@ == "#BMP"@
        &&& self.stop@ == "#STOP"@
        &&& self.stp@ == "#STP"@
        &&& self.bpm@ == "#BPM"@
        &&& self.title@ == "#TITLE"@
        &&& self.subtitle@ == "#SUBTITLE"@
        &&& self.artist@ == "#ARTIST"@
        &&& self.subartist@ == "#SUBARTIST"@
        &&& self.genre@ == "#GENRE"@
        &&& self.player@ == "#PLAYER"@
        &&& self.lntype@ == "#LNTYPE"@
    }

    pub fn new() -> (t: Tags)
        ensures
            t.wf(),
    {
        Tags {
            wav: crate::text::chars_of("#WAV"),
            bmp: crate::text::chars_of("#BMP"),
            stop: crate::text::chars_of("#STOP"),
            stp: crate::text::chars_of("#STP"),
            bpm: crate::text::chars_of("#BPM"),
            title: crate::text::chars_of("#TITLE"),
            subtitle: crate::text::chars_of("#SUBTITLE"),
            artist: crate::text::chars_of("#ARTIST"),
            subartist: crate::text::chars_of("#SUBARTIST"),
            genre: crate::text::chars_of("#GENRE"),
            player: crate::text::chars_of("#PLAYER"),
            lntype: crate::text::chars_of("#LNTYPE"),
        }
    }
}

fn starts_with_chars(t: &[char], p: &[char]) -> (b: bool)
    ensures
        b == has_prefix(t@, p@),
{
    if p.len() > t.len() {
        return false;
    }
    let mut i: usize = 0;
    while i < p.len()
        invariant
            p@.len() <= t@.len(),
            i <= p@.len(),
            forall|k: int| 0 <= k < i ==> t@[k] == p@[k],
        decreases p@.len() - i,
    {
        if t[i] != p[i] {
            assert(t@.subrange(0, p@.len() as int)[i as int] != p@[i as int]);
            return false;
        }
        i += 1;
    }
    assert(t@.subrange(0, p@.len() as int) =~= p@);
    true
}

/// What a header-line reading reports.
pub enum LineStep {
    Keep,
    Channel,
    Fail(String),
    Abort,
}

pub open spec fn line_reports(r: LineStep, l: LineResult, before: DocView, now: DocView) -> bool {
    match l {
        LineResult::Keep(d) => r is Keep && now == d,
        LineResult::Channel => r is Channel && now == before,
        LineResult::Fail(m) => r matches LineStep::Fail(s) && s@ == m && now == before,
        LineResult::Abort => r is Abort && now == before,
    }
}

fn flow_to_line(r: Step) -> (l: LineStep)
    ensures
        r is Go ==> l is Keep,
        r matches Step::Fail(s) ==> l matches LineStep::Fail(s2) && s2@ == s@,
        r is Abort ==> l is Abort,
{
    match r {
        Step::Go => LineStep::Keep,
        Step::Fail(s) => LineStep::Fail(s),
        Step::Abort => LineStep::Abort,
    }
}

fn read_stp_line(doc: &mut BmsDocument, rest: &[char])
    ensures
        final(doc)@ == stp_line(old(doc)@, rest@),
{
    let k = find_ws(rest);
    if k == rest.len() {
        return ;
    }
    let v = &rest[k + 1..rest.len()];
    if is_float_literal_chars(v) {
        let ghost before = doc.header_stops@;
        doc.header_stops.push(string_from_chars(v));
        assert(texts_view(doc.header_stops@) =~= texts_view(before).push(v@));
    }
}

fn read_bpm_line(doc: &mut BmsDocument, rest: &[char]) -> (r: LineStep)
    ensures
        line_reports(r, bpm_line(old(doc)@, rest@), old(doc)@, final(doc)@),
{
    match read_indexed_value(rest, 36) {
        IndexedResult::Found(i, v) => {
            let ghost before_t = doc.bpm_table@;
            let ghost before_h = doc.header_bpms@;
            let h = HeaderBpm { index: Some(i), value: v.clone() };
            doc.bpm_table.insert(i, v);
            doc.header_bpms.push(h);
            assert(text_map_view(doc.bpm_table@) =~= text_map_view(before_t).insert(i, h.value@));
            assert(doc.header_bpms@.map_values(|h: HeaderBpm| h@) =~= before_h.map_values(
                |h: HeaderBpm| h@,
            ).push(h@));
            LineStep::Keep
        },
        IndexedResult::Abort => LineStep::Abort,
        IndexedResult::Invalid(_) => {
            let (a, b) = trim_bounds(rest, 0, rest.len());
            assert(rest@.subrange(0, rest@.len() as int) =~= rest@);
            let u = &rest[a..b];
            let ghost us = trim_start(rest@);
            assert(us =~= rest@.subrange(a as int, rest@.len() as int));
            let k = find_ws(&rest[a..rest.len()]);
            let tok = &rest[a..a + k];
            assert(tok@ =~= us.subrange(0, first_ws(us) as int));
            if a < rest.len() && is_float_literal_chars(tok) {
                let ghost before_h = doc.header_bpms@;
                let h = HeaderBpm { index: None, value: string_from_chars(tok) };
                doc.header_bpms.push(h);
                assert(doc.header_bpms@.map_values(|h: HeaderBpm| h@) =~= before_h.map_values(
                    |h: HeaderBpm| h@,
                ).push(h@));
            }
            LineStep::Keep
        },
    }
}

/// Reads one trimmed line of the header pass into `doc`.
pub fn read_header_line(doc: &mut BmsDocument, t: &[char], tags: &Tags) -> (r: LineStep)
    requires
        tags.wf(),
    ensures
        line_reports(r, header_step(old(doc)@, t@), old(doc)@, final(doc)@),
{
    if t.len() == 0 || t[0] != '#' {
        return LineStep::Keep;
    }
    if starts_with_chars(t, tags.wav.as_slice()) {
        let rest = &t[tags.wav.len()..t.len()];
        return flow_to_line(apply_resource_line(rest, &mut doc.resources.wav, 62));
    }
    if starts_with_chars(t, tags.bmp.as_slice()) {
        let rest = &t[tags.bmp.len()..t.len()];
        return flow_to_line(apply_resource_line(rest, &mut doc.resources.bmp, 62));
    }
    if starts_with_chars(t, tags.stop.as_slice()) {
        let rest = &t[tags.stop.len()..t.len()];
        return match read_indexed_value(rest, 36) {
            IndexedResult::Found(i, v) => {
                let ghost before = doc.stop_table@;
                let ghost vv = v@;
                doc.stop_table.insert(i, v);
                assert(text_map_view(doc.stop_table@) =~= text_map_view(before).insert(i, vv));
                LineStep::Keep
            },
            IndexedResult::Invalid(m) => LineStep::Fail(m),
            IndexedResult::Abort => LineStep::Abort,
        };
    }
    if starts_with_chars(t, tags.stp.as_slice()) {
        let rest = &t[tags.stp.len()..t.len()];
        read_stp_line(doc, rest);
        return LineStep::Keep;
    }
    if starts_with_chars(t, tags.bpm.as_slice()) {
        let rest = &t[tags.bpm.len()..t.len()];
        return read_bpm_line(doc, rest);
    }
    if starts_with_chars(t, tags.title.as_slice()) {
        doc.title = trimmed_string(&t[tags.title.len()..t.len()]);
        return LineStep::Keep;
    }
    if starts_with_chars(t, tags.subtitle.as_slice()) {
        doc.subtitle = trimmed_string(&t[tags.subtitle.len()..t.len()]);
        return LineStep::Keep;
    }
    if starts_with_chars(t, tags.artist.as_slice()) {
        doc.artist = trimmed_string(&t[tags.artist.len()..t.len()]);
        return LineStep::Keep;
    }
    if starts_with_chars(t, tags.subartist.as_slice()) {
        doc.subartist = trimmed_string(&t[tags.subartist.len()..t.len()]);
        return LineStep::Keep;
    }
    if starts_with_chars(t, tags.genre.as_slice()) {
        doc.genre = trimmed_string(&t[tags.genre.len()..t.len()]);
        return LineStep::Keep;
    }
    if starts_with_chars(t, tags.player.as_slice()) {
        let (a, b) = trim_bounds(t, tags.player.len(), t.len());
        let player: u32 = match parse_unsigned_chars(&t[a..b], 10, 0xFFFF_FFFF) {
            Some(p) => p as u32,
            None => 1,
        };
        doc.keymode = Some(player_to_keymode(player));
        return LineStep::Keep;
    }
    if starts_with_chars(t, tags.lntype.as_slice()) {
        let (a, b) = trim_bounds(t, tags.lntype.len(), t.len());
        let lntype: u8 = match parse_unsigned_chars(&t[a..b], 10, 0xFF) {
            Some(n) => n as u8,
            None => 0,
        };
        doc.lntype = lntype;
        return LineStep::Keep;
    }
    if byte_len_at_least(t, 6) {
        LineStep::Channel
    } else {
        LineStep::Keep
    }
}

} // verus!
