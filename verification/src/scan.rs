//! Reading a whole BMS file: the header pass over all lines, then the
//! channel pass over the lines that are no known header.
use crate::channels::{channel_step, read_channel_line};
use crate::document::{empty_doc, BmsDocument, DocView};
use crate::error::OpenLr2Error;
use crate::headers::{header_step, read_header_line, LineResult, LineStep, Tags};
use crate::lines::{find_char, first_index_of, Flow, Step};
use crate::text::{chars_of, trim, trim_bounds};
use vstd::utf8::encode_utf8;
use vstd::prelude::*;

verus! {

/// Result of the header pass.
pub enum HeaderScan {
    /// All lines read: the document so far and the channel lines (trimmed).
    Done(DocView, Seq<Seq<char>>),
    Fail(Seq<char>),
    Abort,
}

/// The header pass over the text `s` that remains: lines end at `\n`, each
/// line is trimmed (which also drops a `\r` before the `\n`).
pub open spec fn scan_headers(d: DocView, chans: Seq<Seq<char>>, s: Seq<char>) -> HeaderScan
    decreases s.len(),
{
    let k = first_index_of(s, '\n') as int;
    let t = trim(s.subrange(0, k));
    match header_step(d, t) {
        LineResult::Keep(d2) => if k >= s.len() {
            HeaderScan::Done(d2, chans)
        } else {
            scan_headers(d2, chans, s.subrange(k + 1, s.len() as int))
        },
        LineResult::Channel => if k >= s.len() {
            HeaderScan::Done(d, chans.push(t))
        } else {
            scan_headers(d, chans.push(t), s.subrange(k + 1, s.len() as int))
        },
        LineResult::Fail(m) => HeaderScan::Fail(m),
        LineResult::Abort => HeaderScan::Abort,
    }
}

/// The channel pass over `lines`, first to last; the first failing line
/// ends it.
pub open spec fn scan_channels(d: DocView, lines: Seq<Seq<char>>) -> Flow<DocView>
    decreases lines.len(),
{
    if lines.len() == 0 {
        Flow::Go(d)
    } else {
        match channel_step(d, lines[0]) {
            Flow::Go(d2) => scan_channels(d2, lines.drop_first()),
            Flow::Fail(m) => Flow::Fail(m),
            Flow::Abort => Flow::Abort,
        }
    }
}

/// What reading `content` gives: `None` on an input the format reader is
/// not defined on, otherwise the document or the message of the first
/// error.
pub open spec fn parse_document(content: Seq<char>) -> Option<Result<DocView, Seq<char>>> {
    match scan_headers(empty_doc(), Seq::empty(), content) {
        HeaderScan::Abort => None,
        HeaderScan::Fail(m) => Some(Err(m)),
        HeaderScan::Done(d, chans) => match scan_channels(d, chans) {
            Flow::Abort => None,
            Flow::Fail(m) => Some(Err(m)),
            Flow::Go(d2) => Some(Ok(d2)),
        },
    }
}

/// `chans` are the ranges of `cs` that hold `lines`, each non-empty.
pub open spec fn chans_match(cs: Seq<char>, chans: Seq<(usize, usize)>, lines: Seq<Seq<char>>) -> bool {
    &&& lines.len() == chans.len()
    &&& forall|j: int|
        0 <= j < chans.len() ==> #[trigger] lines[j] == cs.subrange(
            chans[j].0 as int,
            chans[j].1 as int,
        ) && chans[j].0 <= chans[j].1 <= cs.len() && lines[j].len() >= 1
}

/// Reads a BMS file's text. `None` stands for the inputs the format reader
/// is not defined on: an index of a `#WAV`/`#BMP`/`#BPM`/`#STOP` line too
/// large for `usize`. Errors are `BmsParse` with the message of the first
/// failing line: header lines first, then channel lines.
pub fn scan_bms(content: &str) -> (r: Option<Result<BmsDocument, OpenLr2Error>>)
    ensures
        match parse_document(content@) {
            None => r is None,
            Some(Ok(d)) => r matches Some(Ok(doc)) && doc@ == d,
            Some(Err(m)) => r matches Some(Err(OpenLr2Error::BmsParse(s))) && s@ == m,
        },
{
    let cs = chars_of(content);
    let tags = Tags::new();
    let mut doc = BmsDocument::new();
    let mut chans: Vec<(usize, usize)> = Vec::new();
    let ghost mut lines: Seq<Seq<char>> = Seq::empty();
    let mut pos: usize = 0;
    assert(cs@.subrange(0, cs@.len() as int) =~= cs@);
    let ghost header_result = scan_headers(empty_doc(), Seq::empty(), cs@);
    assert(doc@ == empty_doc());
    loop
        invariant_except_break
            cs@ == content@,
            header_result == scan_headers(empty_doc(), Seq::empty(), content@),
            tags.wf(),
            pos <= cs@.len(),
            chans_match(cs@, chans@, lines),
            header_result == scan_headers(doc@, lines, cs@.subrange(pos as int, cs@.len() as int)),
        ensures
            cs@ == content@,
            header_result == scan_headers(empty_doc(), Seq::empty(), content@),
            chans_match(cs@, chans@, lines),
            header_result == HeaderScan::Done(doc@, lines),
        decreases cs@.len() - pos,
    {
        let rest = &cs[pos..cs.len()];
        let k = find_char(rest, '\n');
        let (a, b) = trim_bounds(cs.as_slice(), pos, pos + k);
        assert(cs@.subrange(pos as int, pos + k) =~= rest@.subrange(0, k as int));
        let t = &cs[a..b];
        let ghost doc_before = doc@;
        let ghost lines_before = lines;
        assert(rest@ == cs@.subrange(pos as int, cs@.len() as int));
        assert(t@ == trim(rest@.subrange(0, k as int)));
        match read_header_line(&mut doc, t, &tags) {
            LineStep::Keep => {
                assert(header_step(doc_before, t@) == LineResult::Keep(doc@));
                assert(scan_headers(doc_before, lines_before, rest@) == (if k >= rest@.len() {
                    HeaderScan::Done(doc@, lines)
                } else {
                    scan_headers(doc@, lines, rest@.subrange(k + 1, rest@.len() as int))
                }));
            },
            LineStep::Channel => {
                chans.push((a, b));
                proof {
                    lines = lines.push(t@);
                    assert forall|j: int| 0 <= j < chans@.len() implies #[trigger] lines[j]
                        == cs@.subrange(chans@[j].0 as int, chans@[j].1 as int) && chans@[j].0
                        <= chans@[j].1 <= cs@.len() && lines[j].len() >= 1 by {
                        if j < chans@.len() - 1 {
                            assert(lines[j] == lines_before[j]);
                        }
                    }
                    assert(header_step(doc_before, t@) == LineResult::Channel);
                    assert(doc@ == doc_before);
                    assert(scan_headers(doc_before, lines_before, rest@) == (if k >= rest@.len() {
                        HeaderScan::Done(doc@, lines)
                    } else {
                        scan_headers(doc@, lines, rest@.subrange(k + 1, rest@.len() as int))
                    }));
                }
            },
            LineStep::Fail(m) => {
                return Some(Err(OpenLr2Error::BmsParse(m)));
            },
            LineStep::Abort => {
                return None;
            },
        }
        if k >= rest.len() {
            break ;
        }
        assert(cs@.subrange(pos + k + 1, cs@.len() as int) =~= rest@.subrange(
            k + 1,
            rest@.len() as int,
        ));
        pos = pos + k + 1;
    }
    let ghost doc0 = doc@;
    let ghost channel_result = scan_channels(doc@, lines);
    assert(lines.skip(0) =~= lines);
    let mut i: usize = 0;
    while i < chans.len()
        invariant
            cs@ == content@,
            header_result == scan_headers(empty_doc(), Seq::empty(), content@),
            header_result == HeaderScan::Done(doc0, lines),
            channel_result == scan_channels(doc0, lines),
            i <= chans@.len(),
            chans_match(cs@, chans@, lines),
            channel_result == scan_channels(doc@, lines.skip(i as int)),
        decreases chans@.len() - i,
    {
        let (a, b) = chans[i];
        let t = &cs[a..b];
        assert(lines[i as int] == t@);
        assert(lines.skip(i as int)[0] == t@);
        assert(lines.skip(i as int).drop_first() =~= lines.skip(i + 1));
        match read_channel_line(&mut doc, t) {
            Step::Go => {},
            Step::Fail(m) => {
                return Some(Err(OpenLr2Error::BmsParse(m)));
            },
            Step::Abort => {
                return None;
            },
        }
        i += 1;
    }
    assert(lines.skip(i as int) =~= Seq::<Seq<char>>::empty());
    Some(Ok(doc))
}

/// The invariant every document the reader produces keeps: each resource
/// is filed under its own index, each note is in one of the 14 lanes, key
/// sounds are two-digit Base62 numbers above zero, and every note and tempo
/// object sits in one of the slots of its measure.
pub open spec fn doc_well_formed(d: DocView) -> bool {
    &&& forall|k: usize| #[trigger] d.wav.contains_key(k) ==> d.wav[k].index == k
    &&& forall|k: usize| #[trigger] d.bmp.contains_key(k) ==> d.bmp[k].index == k
    &&& forall|i: int|
        0 <= i < d.notes.len() ==> {
            let o = #[trigger] d.notes[i];
            &&& o.lane < 14
            &&& o.position.index < o.position.resolution
            &&& (o.keysound_id matches Some(n) ==> 0 < n < 62 * 62)
        }
    &&& forall|i: int|
        0 <= i < d.tempo_events.len() ==> (#[trigger] d.tempo_events[i]).position.index
            < d.tempo_events[i].position.resolution
}

proof fn lemma_resource_line_wf(rest: Seq<char>, t: Map<usize, crate::chart::ResourceRefView>)
    requires
        forall|k: usize| #[trigger] t.contains_key(k) ==> t[k].index == k,
    ensures
        crate::lines::resource_line(rest, t, 62) matches Flow::Go(t2) ==> forall|k: usize|
            #[trigger] t2.contains_key(k) ==> t2[k].index == k,
{
}

proof fn lemma_header_step_wf(d: DocView, t: Seq<char>)
    requires
        doc_well_formed(d),
    ensures
        header_step(d, t) matches LineResult::Keep(d2) ==> doc_well_formed(d2),
{
    lemma_resource_line_wf(crate::headers::after(t, "#WAV"@), d.wav);
    lemma_resource_line_wf(crate::headers::after(t, "#BMP"@), d.bmp);
}

/// A part of a text takes no more bytes than the text.
proof fn lemma_encode_subrange_len(x: Seq<char>, i: int, j: int)
    requires
        0 <= i <= j <= x.len(),
    ensures
        encode_utf8(x.subrange(i, j)).len() <= encode_utf8(x).len(),
{
    crate::utf8len::lemma_encode_concat(x.subrange(0, i), x.subrange(i, j));
    crate::utf8len::lemma_encode_concat(x.subrange(0, i) + x.subrange(i, j), x.subrange(j, x.len() as int));
    assert(x.subrange(0, i) + x.subrange(i, j) + x.subrange(j, x.len() as int) =~= x);
}

proof fn lemma_encode_trim_start_len(x: Seq<char>)
    ensures
        encode_utf8(crate::text::trim_start(x)).len() <= encode_utf8(x).len(),
    decreases x.len(),
{
    if x.len() > 0 {
        lemma_encode_trim_start_len(x.drop_first());
    }
}

proof fn lemma_encode_trim_end_len(x: Seq<char>)
    ensures
        encode_utf8(crate::text::trim_end(x)).len() <= encode_utf8(x).len(),
    decreases x.len(),
{
    if x.len() > 0 {
        lemma_encode_trim_end_len(x.drop_last());
        crate::utf8len::lemma_encode_push(x.drop_last(), x.last());
        assert(x.drop_last().push(x.last()) =~= x);
    }
}

proof fn lemma_encode_trim_len(x: Seq<char>)
    ensures
        encode_utf8(trim(x)).len() <= encode_utf8(x).len(),
{
    lemma_encode_trim_start_len(x);
    lemma_encode_trim_end_len(crate::text::trim_start(x));
}

/// Every text in `lines` is non-empty and takes at most `bound` bytes.
pub open spec fn lines_within(lines: Seq<Seq<char>>, bound: nat) -> bool {
    forall|i: int|
        0 <= i < lines.len() ==> encode_utf8(#[trigger] lines[i]).len() <= bound && lines[i].len()
            >= 1
}

proof fn lemma_scan_headers_wf(d: DocView, chans: Seq<Seq<char>>, s: Seq<char>, bound: nat)
    requires
        doc_well_formed(d),
        encode_utf8(s).len() <= bound,
        lines_within(chans, bound),
    ensures
        scan_headers(d, chans, s) matches HeaderScan::Done(d2, c2) ==> doc_well_formed(d2)
            && lines_within(c2, bound),
    decreases s.len(),
{
    let k = first_index_of(s, '\n') as int;
    let t = trim(s.subrange(0, k));
    lemma_header_step_wf(d, t);
    crate::lines::lemma_first_index_bound(s, '\n');
    lemma_encode_subrange_len(s, 0, k);
    lemma_encode_trim_len(s.subrange(0, k));
    if header_step(d, t) is Channel {
        assert(t.len() >= 1);
        assert forall|i: int| 0 <= i < chans.push(t).len() implies encode_utf8(
            #[trigger] chans.push(t)[i],
        ).len() <= bound && chans.push(t)[i].len() >= 1 by {
            if i < chans.len() {
                assert(chans.push(t)[i] == chans[i]);
            }
        }
    }
    if k < s.len() {
        lemma_encode_subrange_len(s, k + 1, s.len() as int);
        match header_step(d, t) {
            LineResult::Keep(d2) => lemma_scan_headers_wf(
                d2,
                chans,
                s.subrange(k + 1, s.len() as int),
                bound,
            ),
            LineResult::Channel => lemma_scan_headers_wf(
                d,
                chans.push(t),
                s.subrange(k + 1, s.len() as int),
                bound,
            ),
            _ => {},
        }
    }
}

proof fn lemma_cells_from_wf(d: DocView, m: u32, ch: usize, b: Seq<u8>, nv: nat, k: nat)
    requires
        doc_well_formed(d),
        nv <= usize::MAX,
    ensures
        doc_well_formed(crate::channels::cells_from(d, m, ch, b, nv, k)),
    decreases nv - k,
{
    if k < nv {
        let c = crate::channels::cell_of(b[2 * k as int], b[2 * k as int + 1]);
        let d2 = crate::channels::cell_step(d, m, ch, nv, k, c);
        if let crate::channels::Cell::Pair(x, y) = c {
            crate::codes::lemma_two_digit_bound(seq![x, y], 62);
        }
        assert(doc_well_formed(d2));
        lemma_cells_from_wf(d2, m, ch, b, nv, k + 1);
    }
}

proof fn lemma_channel_values_len(t: Seq<char>)
    requires
        t.len() >= 1,
    ensures
        crate::channels::channel_parts(t) matches crate::channels::Parts::Found(_, _, vals)
            ==> encode_utf8(vals).len() <= encode_utf8(t).len(),
{
    if let crate::channels::Parts::Found(m, ch, vals) = crate::channels::channel_parts(t) {
        let body = t.subrange(1, t.len() as int);
        let k5 = crate::utf8len::char_index_at_byte(body, 5).unwrap();
        crate::channels::lemma_char_index_bounds_pub(body, 5);
        let tail = body.subrange(k5 as int, body.len() as int);
        let c = first_index_of(tail, ':') as int;
        crate::lines::lemma_first_index_bound(tail, ':');
        lemma_encode_subrange_len(tail, c + 1, tail.len() as int);
        lemma_encode_subrange_len(body, k5 as int, body.len() as int);
        lemma_encode_subrange_len(t, 1, t.len() as int);
    }
}

proof fn lemma_scan_channels_wf(d: DocView, lines: Seq<Seq<char>>)
    requires
        doc_well_formed(d),
        lines_within(lines, usize::MAX as nat),
    ensures
        scan_channels(d, lines) matches Flow::Go(d2) ==> doc_well_formed(d2),
    decreases lines.len(),
{
    if lines.len() > 0 {
        let t = lines[0];
        lemma_channel_values_len(t);
        if let crate::channels::Parts::Found(m, ch, vals) = crate::channels::channel_parts(t) {
            if ch != 2 {
                let b = encode_utf8(vals);
                lemma_cells_from_wf(d, m, ch, b, b.len() / 2, 0);
            }
        }
        assert(lines_within(lines.drop_first(), usize::MAX as nat)) by {
            assert forall|i: int| 0 <= i < lines.drop_first().len() implies encode_utf8(
                #[trigger] lines.drop_first()[i],
            ).len() <= usize::MAX && lines.drop_first()[i].len() >= 1 by {
                assert(lines.drop_first()[i] == lines[i + 1]);
            }
        }
        match channel_step(d, t) {
            Flow::Go(d2) => lemma_scan_channels_wf(d2, lines.drop_first()),
            _ => {},
        }
    }
}

/// Every document that reading a file yields is well formed (for any text
/// whose UTF-8 encoding fits in memory, as a `str`'s does).
pub proof fn law_parsed_document_well_formed(content: Seq<char>)
    requires
        encode_utf8(content).len() <= usize::MAX,
    ensures
        parse_document(content) matches Some(Ok(d)) ==> doc_well_formed(d),
{
    lemma_scan_headers_wf(empty_doc(), Seq::empty(), content, usize::MAX as nat);
    if let HeaderScan::Done(d, chans) = scan_headers(empty_doc(), Seq::empty(), content) {
        lemma_scan_channels_wf(d, chans);
    }
}

} // verus!
