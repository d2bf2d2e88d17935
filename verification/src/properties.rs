//! Properties of the whole-file reader: how line endings and lines that
//! are no header or channel line affect what it reads.
use crate::document::{empty_doc, DocView};
use crate::headers::{header_step, LineResult};
use crate::lines::{first_index_of, Flow};
use crate::scan::{parse_document, scan_channels, scan_headers, HeaderScan};
use crate::text::{is_ws, trim, trim_end, trim_start};
use vstd::prelude::*;

verus! {

proof fn lemma_first_index_facts(s: Seq<char>, c: char)
    ensures
        first_index_of(s, c) <= s.len(),
        forall|i: int| 0 <= i < first_index_of(s, c) ==> s[i] != c,
        first_index_of(s, c) < s.len() ==> s[first_index_of(s, c) as int] == c,
    decreases s.len(),
{
    if s.len() > 0 && s[0] != c {
        let t = s.drop_first();
        lemma_first_index_facts(t, c);
        assert forall|i: int| 0 <= i < first_index_of(s, c) implies s[i] != c by {
            if i > 0 {
                assert(s[i] == t[i - 1]);
            }
        }
    }
}

proof fn lemma_first_index_from_facts(s: Seq<char>, c: char, k: int)
    requires
        0 <= k <= s.len(),
        forall|i: int| 0 <= i < k ==> s[i] != c,
        k < s.len() ==> s[k] == c,
    ensures
        first_index_of(s, c) == k,
    decreases s.len(),
{
    if k > 0 {
        let t = s.drop_first();
        assert forall|i: int| 0 <= i < k - 1 implies t[i] != c by {
            assert(t[i] == s[i + 1]);
        }
        if k - 1 < t.len() {
            assert(t[k - 1] == s[k]);
        }
        lemma_first_index_from_facts(t, c, k - 1);
    }
}

proof fn lemma_trim_start_push(x: Seq<char>, w: char)
    requires
        is_ws(w),
    ensures
        trim_start(x.push(w)) == if trim_start(x).len() == 0 {
            Seq::<char>::empty()
        } else {
            trim_start(x).push(w)
        },
    decreases x.len(),
{
    if x.len() == 0 {
        let y = x.push(w);
        assert(y.drop_first() =~= Seq::<char>::empty());
        assert(trim_start(Seq::<char>::empty()) == Seq::<char>::empty());
    } else {
        assert(x.push(w)[0] == x[0]);
        if is_ws(x[0]) {
            assert(x.push(w).drop_first() =~= x.drop_first().push(w));
            lemma_trim_start_push(x.drop_first(), w);
        }
    }
}

proof fn lemma_trim_end_push(y: Seq<char>, w: char)
    requires
        is_ws(w),
    ensures
        trim_end(y.push(w)) == trim_end(y),
{
    assert(y.push(w).drop_last() =~= y);
}

/// A whitespace character at the end of a line does not change its trim.
proof fn lemma_trim_push_ws(x: Seq<char>, w: char)
    requires
        is_ws(w),
    ensures
        trim(x.push(w)) == trim(x),
{
    lemma_trim_start_push(x, w);
    if trim_start(x).len() == 0 {
        assert(trim_end(Seq::<char>::empty()) == Seq::<char>::empty());
        assert(trim_start(x) =~= Seq::<char>::empty());
    } else {
        lemma_trim_end_push(trim_start(x), w);
    }
}

/// The text made of the lines `ls`, each but the last followed by a line
/// feed.
pub open spec fn join_lines(ls: Seq<Seq<char>>) -> Seq<char>
    decreases ls.len(),
{
    if ls.len() == 0 {
        Seq::empty()
    } else if ls.len() == 1 {
        ls[0]
    } else {
        ls[0] + seq!['\n'] + join_lines(ls.drop_first())
    }
}

/// The lines of `s`: the text between line feeds.
pub open spec fn split_lines(s: Seq<char>) -> Seq<Seq<char>>
    decreases s.len(),
{
    let k = first_index_of(s, '\n') as int;
    if k >= s.len() {
        seq![s]
    } else {
        seq![s.subrange(0, k)] + split_lines(s.subrange(k + 1, s.len() as int))
    }
}

/// No line of `ls` holds a line feed.
pub open spec fn single_lines(ls: Seq<Seq<char>>) -> bool {
    forall|i: int, j: int| 0 <= i < ls.len() && 0 <= j < ls[i].len() ==> #[trigger] ls[i][j] != '\n'
}

/// A trimmed line that the reader looks at: it begins with `#`.
pub open spec fn is_directive(t: Seq<char>) -> bool {
    t.len() > 0 && t[0] == '#'
}

/// The trimmed lines of `ls` that begin with `#`, in order.
pub open spec fn directives(ls: Seq<Seq<char>>) -> Seq<Seq<char>>
    decreases ls.len(),
{
    if ls.len() == 0 {
        Seq::empty()
    } else {
        let t = trim(ls[0]);
        if is_directive(t) {
            seq![t] + directives(ls.drop_first())
        } else {
            directives(ls.drop_first())
        }
    }
}

/// The header pass over a list of trimmed lines.
pub open spec fn read_lines(d: DocView, chans: Seq<Seq<char>>, ts: Seq<Seq<char>>) -> HeaderScan
    decreases ts.len(),
{
    if ts.len() == 0 {
        HeaderScan::Done(d, chans)
    } else {
        match header_step(d, ts[0]) {
            LineResult::Keep(d2) => read_lines(d2, chans, ts.drop_first()),
            LineResult::Channel => read_lines(d, chans.push(ts[0]), ts.drop_first()),
            LineResult::Fail(m) => HeaderScan::Fail(m),
            LineResult::Abort => HeaderScan::Abort,
        }
    }
}

/// The header pass over the text of `ls` reads only their directives.
proof fn lemma_scan_join(d: DocView, chans: Seq<Seq<char>>, ls: Seq<Seq<char>>)
    requires
        ls.len() >= 1,
        single_lines(ls),
    ensures
        scan_headers(d, chans, join_lines(ls)) == read_lines(d, chans, directives(ls)),
    decreases ls.len(),
{
    let l0 = ls[0];
    let s = join_lines(ls);
    let t = trim(l0);
    let rest = ls.drop_first();
    let dr = directives(rest);
    let ds = directives(ls);
    if is_directive(t) {
        assert(ds == seq![t] + dr);
        assert(ds[0] == t);
        assert(ds.drop_first() =~= dr);
        assert(ds.len() > 0);
    } else {
        assert(ds == dr);
        assert(header_step(d, t) == LineResult::Keep(d));
    }
    if ls.len() == 1 {
        assert forall|i: int| 0 <= i < l0.len() implies l0[i] != '\n' by {
            assert(ls[0][i] != '\n');
        }
        lemma_first_index_from_facts(l0, '\n', l0.len() as int);
        assert(l0.subrange(0, l0.len() as int) =~= l0);
        assert(s == l0);
        assert(rest.len() == 0);
        assert(dr == Seq::<Seq<char>>::empty());
        if is_directive(t) {
            let e = ds.drop_first();
            assert(e.len() == 0);
            match header_step(d, t) {
                LineResult::Keep(d2) => {
                    assert(read_lines(d2, chans, e) == HeaderScan::Done(d2, chans));
                },
                LineResult::Channel => {
                    assert(read_lines(d, chans.push(t), e) == HeaderScan::Done(d, chans.push(t)));
                },
                _ => {},
            }
        } else {
            assert(read_lines(d, chans, ds) == HeaderScan::Done(d, chans));
        }
    } else {
        assert forall|i: int| 0 <= i < l0.len() implies s[i] != '\n' by {
            assert(s[i] == l0[i]);
            assert(ls[0][i] != '\n');
        }
        assert(s[l0.len() as int] == '\n');
        lemma_first_index_from_facts(s, '\n', l0.len() as int);
        assert(s.subrange(0, l0.len() as int) =~= l0);
        assert(s.subrange(l0.len() + 1 as int, s.len() as int) =~= join_lines(rest));
        assert forall|i: int, j: int| 0 <= i < rest.len() && 0 <= j < rest[i].len() implies #[trigger] rest[i][j] != '\n' by {
            assert(rest[i] == ls[i + 1]);
        }
        match header_step(d, t) {
            LineResult::Keep(d2) => {
                lemma_scan_join(d2, chans, rest);
                assert(scan_headers(d, chans, s) == scan_headers(d2, chans, join_lines(rest)));
            },
            LineResult::Channel => {
                lemma_scan_join(d, chans.push(t), rest);
                assert(scan_headers(d, chans, s) == scan_headers(d, chans.push(t), join_lines(rest)));
            },
            _ => {},
        }
    }
}

/// The whole-file reader reads only the directives of a text's lines.
proof fn lemma_document_of_directives(ls: Seq<Seq<char>>)
    requires
        single_lines(ls),
    ensures
        parse_document(join_lines(ls)) == match read_lines(empty_doc(), Seq::empty(), directives(ls)) {
            HeaderScan::Abort => None,
            HeaderScan::Fail(m) => Some(Err(m)),
            HeaderScan::Done(d, chans) => match scan_channels(d, chans) {
                Flow::Abort => None,
                Flow::Fail(m) => Some(Err(m)),
                Flow::Go(d2) => Some(Ok(d2)),
            },
        },
{
    if ls.len() == 0 {
        let e = Seq::<char>::empty();
        assert(first_index_of(e, '\n') == 0);
        assert(e.subrange(0, 0) =~= e);
        assert(trim(e) == e);
        assert(header_step(empty_doc(), e) == LineResult::Keep(empty_doc()));
    } else {
        lemma_scan_join(empty_doc(), Seq::empty(), ls);
    }
}

/// Every text is the text of its lines, and they hold no line feed.
pub proof fn law_text_is_its_lines(s: Seq<char>)
    ensures
        join_lines(split_lines(s)) == s,
        single_lines(split_lines(s)),
        split_lines(s).len() >= 1,
    decreases s.len(),
{
    let k = first_index_of(s, '\n') as int;
    lemma_first_index_facts(s, '\n');
    let ls = split_lines(s);
    if k < s.len() {
        let a = s.subrange(0, k);
        let r = s.subrange(k + 1, s.len() as int);
        law_text_is_its_lines(r);
        let lr = split_lines(r);
        assert(ls =~= seq![a] + lr);
        assert(ls[0] == a);
        assert(ls.drop_first() =~= lr);
        assert(join_lines(ls) == a + seq!['\n'] + join_lines(lr));
        assert(s =~= a + seq!['\n'] + r);
        assert forall|i: int, j: int| 0 <= i < ls.len() && 0 <= j < ls[i].len() implies #[trigger] ls[i][j] != '\n' by {
            if i == 0 {
                assert(ls[0][j] == s[j]);
            } else {
                assert(ls[i] == lr[i - 1]);
            }
        }
    } else {
        assert forall|i: int, j: int| 0 <= i < ls.len() && 0 <= j < ls[i].len() implies #[trigger] ls[i][j] != '\n' by {
            assert(ls[i] == s);
        }
    }
}

/// Two texts whose lines begin with `#` in the same order, once trimmed,
/// read the same: lines that are blank or do not begin with `#` (comments),
/// and spaces or carriage returns around a line, change nothing.
pub proof fn law_same_directives_same_document(ls1: Seq<Seq<char>>, ls2: Seq<Seq<char>>)
    requires
        single_lines(ls1),
        single_lines(ls2),
        directives(ls1) == directives(ls2),
    ensures
        parse_document(join_lines(ls1)) == parse_document(join_lines(ls2)),
{
    lemma_document_of_directives(ls1);
    lemma_document_of_directives(ls2);
}

proof fn lemma_directives_concat(a: Seq<Seq<char>>, b: Seq<Seq<char>>)
    ensures
        directives(a + b) == directives(a) + directives(b),
    decreases a.len(),
{
    if a.len() == 0 {
        assert(a + b =~= b);
        assert(directives(a) + directives(b) =~= directives(b));
    } else {
        lemma_directives_concat(a.drop_first(), b);
        assert((a + b).drop_first() =~= a.drop_first() + b);
        assert((a + b)[0] == a[0]);
        let t = trim(a[0]);
        if is_directive(t) {
            assert(seq![t] + (directives(a.drop_first()) + directives(b)) =~= (seq![t]
                + directives(a.drop_first())) + directives(b));
        }
    }
}

proof fn lemma_crlf_directives(ls1: Seq<Seq<char>>, ls2: Seq<Seq<char>>)
    requires
        ls1.len() == ls2.len(),
        forall|i: int| 0 <= i < ls1.len() ==> #[trigger] ls2[i] == ls1[i] || ls2[i] == ls1[i].push('\r'),
    ensures
        directives(ls1) == directives(ls2),
    decreases ls1.len(),
{
    if ls1.len() > 0 {
        assert forall|i: int| 0 <= i < ls1.drop_first().len() implies #[trigger] ls2.drop_first()[i]
            == ls1.drop_first()[i] || ls2.drop_first()[i] == ls1.drop_first()[i].push('\r') by {
            assert(ls2[i + 1] == ls1[i + 1] || ls2[i + 1] == ls1[i + 1].push('\r'));
        }
        lemma_crlf_directives(ls1.drop_first(), ls2.drop_first());
        if ls2[0] != ls1[0] {
            lemma_trim_push_ws(ls1[0], '\r');
        }
    }
}

/// Ending any of a text's lines with CRLF instead of LF (the line feed
/// preceded by a carriage return) changes nothing that the reader reads.
pub proof fn law_crlf_line_endings(ls1: Seq<Seq<char>>, ls2: Seq<Seq<char>>)
    requires
        single_lines(ls1),
        ls1.len() == ls2.len(),
        forall|i: int| 0 <= i < ls1.len() ==> #[trigger] ls2[i] == ls1[i] || ls2[i] == ls1[i].push('\r'),
    ensures
        parse_document(join_lines(ls2)) == parse_document(join_lines(ls1)),
{
    lemma_crlf_directives(ls1, ls2);
    assert forall|i: int, j: int| 0 <= i < ls2.len() && 0 <= j < ls2[i].len() implies #[trigger] ls2[i][j] != '\n' by {
        assert(ls2[i] == ls1[i] || ls2[i] == ls1[i].push('\r'));
        if j < ls1[i].len() {
            assert(ls1[i][j] != '\n');
        }
    }
    law_same_directives_same_document(ls1, ls2);
}

/// Lines whose trimmed text is empty or does not begin with `#` (comment or
/// blank lines), inserted anywhere among a text's lines, also after its
/// last line, change nothing that the reader reads.
pub proof fn law_comment_lines_ignored(ls: Seq<Seq<char>>, i: int, extra: Seq<Seq<char>>)
    requires
        single_lines(ls),
        single_lines(extra),
        0 <= i <= ls.len(),
        forall|j: int| 0 <= j < extra.len() ==> !is_directive(#[trigger] trim(extra[j])),
    ensures
        parse_document(join_lines(ls.subrange(0, i) + extra + ls.subrange(i, ls.len() as int)))
            == parse_document(join_lines(ls)),
{
    let a = ls.subrange(0, i);
    let b = ls.subrange(i, ls.len() as int);
    let all = a + extra + b;
    assert(ls =~= a + b);
    lemma_directives_concat(a, b);
    lemma_directives_concat(a + extra, b);
    lemma_directives_concat(a, extra);
    assert(directives(extra) =~= Seq::<Seq<char>>::empty()) by {
        lemma_no_directives(extra);
    }
    assert(directives(a) + Seq::<Seq<char>>::empty() =~= directives(a));
    assert forall|x: int, y: int| 0 <= x < all.len() && 0 <= y < all[x].len() implies #[trigger] all[x][y] != '\n' by {
        if x < i {
            assert(all[x] == ls[x]);
        } else if x < i + extra.len() {
            assert(all[x] == extra[x - i]);
        } else {
            assert(all[x] == ls[x - extra.len()]);
        }
    }
    law_same_directives_same_document(all, ls);
}

proof fn lemma_no_directives(ls: Seq<Seq<char>>)
    requires
        forall|j: int| 0 <= j < ls.len() ==> !is_directive(#[trigger] trim(ls[j])),
    ensures
        directives(ls) == Seq::<Seq<char>>::empty(),
    decreases ls.len(),
{
    if ls.len() > 0 {
        assert(!is_directive(trim(ls[0])));
        assert forall|j: int| 0 <= j < ls.drop_first().len() implies !is_directive(
            #[trigger] trim(ls.drop_first()[j]),
        ) by {
            assert(ls.drop_first()[j] == ls[j + 1]);
        }
        lemma_no_directives(ls.drop_first());
    }
}

} // verus!
