//! Byte lengths and byte offsets of character sequences under UTF-8.
use vstd::prelude::*;
use vstd::utf8::*;

verus! {

/// Byte offset `n` of the UTF-8 encoding of `s` as a character index: the
/// `k` with `encode_utf8(s[..k]).len() == n`, if `n` falls on a character
/// boundary.
pub open spec fn char_index_at_byte(s: Seq<char>, n: nat) -> Option<nat>
    decreases s.len(),
{
    if n == 0 {
        Some(0)
    } else if s.len() == 0 {
        None
    } else {
        let w = encode_scalar(s[0] as u32).len();
        if w > n {
            None
        } else {
            match char_index_at_byte(s.drop_first(), (n - w) as nat) {
                Some(k) => Some(k + 1),
                None => None,
            }
        }
    }
}

/// Encoding distributes over concatenation.
pub proof fn lemma_encode_concat(a: Seq<char>, b: Seq<char>)
    ensures
        encode_utf8(a + b) == encode_utf8(a) + encode_utf8(b),
    decreases a.len(),
{
    if a.len() == 0 {
        assert(a + b =~= b);
        assert(encode_utf8(a) =~= Seq::<u8>::empty());
        assert(encode_utf8(a) + encode_utf8(b) =~= encode_utf8(b));
    } else {
        lemma_encode_concat(a.drop_first(), b);
        assert((a + b).drop_first() =~= a.drop_first() + b);
        assert((a + b)[0] == a[0]);
        assert(encode_utf8(a + b) =~= encode_scalar(a[0] as u32) + encode_utf8(a.drop_first() + b));
    }
}

/// Encoding one more character appends its scalar encoding.
pub proof fn lemma_encode_push(s: Seq<char>, c: char)
    ensures
        encode_utf8(s.push(c)) == encode_utf8(s) + encode_scalar(c as u32),
{
    lemma_encode_concat(s, seq![c]);
    assert(s.push(c) =~= s + seq![c]);
    assert(seq![c].drop_first() =~= Seq::<char>::empty());
    assert(encode_utf8(seq![c]) =~= encode_scalar(c as u32) + encode_utf8(Seq::<char>::empty()));
    assert(encode_utf8(seq![c]) =~= encode_scalar(c as u32));
}

/// Number of bytes of `c` in UTF-8.
pub fn char_width(c: char) -> (w: usize)
    ensures
        w == encode_scalar(c as u32).len(),
        1 <= w <= 4,
{
    proof {
        char_is_scalar(c);
    }
    let u = c as u32;
    if u <= 0x7F {
        1
    } else if u <= 0x7FF {
        2
    } else if u <= 0xFFFF {
        3
    } else {
        4
    }
}

/// The UTF-8 encoding of `s`.
pub fn encode_chars(s: &[char]) -> (v: Vec<u8>)
    ensures
        v@ == encode_utf8(s@),
{
    let mut v: Vec<u8> = Vec::new();
    let mut i: usize = 0;
    assert(s@.subrange(0, 0) =~= Seq::<char>::empty());
    assert(encode_utf8(Seq::<char>::empty()) =~= Seq::<u8>::empty());
    while i < s.len()
        invariant
            i <= s@.len(),
            v@ == encode_utf8(s@.subrange(0, i as int)),
        decreases s@.len() - i,
    {
        let c = s[i];
        proof {
            char_is_scalar(c);
            lemma_encode_push(s@.subrange(0, i as int), c);
            assert(s@.subrange(0, i + 1) =~= s@.subrange(0, i as int).push(c));
        }
        let u = c as u32;
        let ghost before = v@;
        if u <= 0x7F {
            v.push((u & 0x7F) as u8);
            assert(v@ =~= before + encode_scalar(u));
        } else if u <= 0x7FF {
            v.push(0xC0 | ((u >> 6) & 0x1F) as u8);
            v.push(0x80 | (u & 0x3F) as u8);
            assert(v@ =~= before + encode_scalar(u));
        } else if u <= 0xFFFF {
            v.push(0xE0 | ((u >> 12) & 0x0F) as u8);
            v.push(0x80 | ((u >> 6) & 0x3F) as u8);
            v.push(0x80 | (u & 0x3F) as u8);
            assert(v@ =~= before + encode_scalar(u));
        } else {
            v.push(0xF0 | ((u >> 18) & 0x7) as u8);
            v.push(0x80 | ((u >> 12) & 0x3F) as u8);
            v.push(0x80 | ((u >> 6) & 0x3F) as u8);
            v.push(0x80 | (u & 0x3F) as u8);
            assert(v@ =~= before + encode_scalar(u));
        }
        i += 1;
    }
    assert(s@.subrange(0, s@.len() as int) =~= s@);
    v
}

/// Whether the UTF-8 encoding of `s` has at least `n` bytes.
pub fn byte_len_at_least(s: &[char], n: usize) -> (b: bool)
    ensures
        b == (encode_utf8(s@).len() >= n),
{
    if n == 0 {
        return true;
    }
    let mut acc: usize = 0;
    let mut i: usize = 0;
    assert(s@.subrange(0, 0) =~= Seq::<char>::empty());
    assert(encode_utf8(Seq::<char>::empty()) =~= Seq::<u8>::empty());
    while i < s.len()
        invariant
            i <= s@.len(),
            1 <= n,
            acc as nat == encode_utf8(s@.subrange(0, i as int)).len(),
            acc < n,
        decreases s@.len() - i,
    {
        let w = char_width(s[i]);
        proof {
            lemma_encode_push(s@.subrange(0, i as int), s@[i as int]);
            assert(s@.subrange(0, i + 1) =~= s@.subrange(0, i as int).push(s@[i as int]));
        }
        i += 1;
        if w >= n - acc {
            proof {
                lemma_encode_concat(s@.subrange(0, i as int), s@.subrange(i as int, s@.len() as int));
                assert(s@.subrange(0, i as int) + s@.subrange(i as int, s@.len() as int) =~= s@);
            }
            return true;
        }
        acc = acc + w;
    }
    assert(s@.subrange(0, s@.len() as int) =~= s@);
    false
}

/// The character index at byte offset `n` of `s`, if `n` is a character boundary.
pub fn char_index_at(s: &[char], n: usize) -> (r: Option<usize>)
    ensures
        match char_index_at_byte(s@, n as nat) {
            Some(k) => r == Some(k as usize),
            None => r is None,
        },
{
    let mut rem: usize = n;
    let mut i: usize = 0;
    assert(s@.subrange(0, s@.len() as int) =~= s@);
    while i < s.len() && rem > 0
        invariant
            i <= s@.len(),
            rem <= n,
            char_index_at_byte(s@, n as nat) == match char_index_at_byte(
                s@.subrange(i as int, s@.len() as int),
                rem as nat,
            ) {
                Some(k) => Some((k + i) as nat),
                None => None::<nat>,
            },
        decreases s@.len() - i,
    {
        let w = char_width(s[i]);
        assert(s@.subrange(i as int, s@.len() as int).drop_first() =~= s@.subrange(
            i + 1,
            s@.len() as int,
        ));
        assert(s@.subrange(i as int, s@.len() as int)[0] == s@[i as int]);
        if w > rem {
            return None;
        }
        rem = rem - w;
        i += 1;
    }
    if rem == 0 {
        Some(i)
    } else {
        None
    }
}

} // verus!
