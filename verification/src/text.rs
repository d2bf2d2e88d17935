//! Character-level text primitives: whitespace, trimming, integer and
//! floating-point literal syntax, decimal rendering.
use vstd::prelude::*;

verus! {

// ---------------------------------------------------------------------------
// Whitespace and trimming
// ---------------------------------------------------------------------------

/// Unicode `White_Space` characters (the set `char::is_whitespace` accepts).
pub open spec fn is_ws(c: char) -> bool {
    let u = c as u32;
    ||| 0x09 <= u <= 0x0D
    ||| u == 0x20
    ||| u == 0x85
    ||| u == 0xA0
    ||| u == 0x1680
    ||| 0x2000 <= u <= 0x200A
    ||| u == 0x2028
    ||| u == 0x2029
    ||| u == 0x202F
    ||| u == 0x205F
    ||| u == 0x3000
}

/// Drops leading whitespace.
pub open spec fn trim_start(s: Seq<char>) -> Seq<char>
    decreases s.len(),
{
    if s.len() > 0 && is_ws(s[0]) {
        trim_start(s.drop_first())
    } else {
        s
    }
}

/// Drops trailing whitespace.
pub open spec fn trim_end(s: Seq<char>) -> Seq<char>
    decreases s.len(),
{
    if s.len() > 0 && is_ws(s.last()) {
        trim_end(s.drop_last())
    } else {
        s
    }
}

/// Drops leading and trailing whitespace (`str::trim`).
pub open spec fn trim(s: Seq<char>) -> Seq<char> {
    trim_end(trim_start(s))
}

/// Whether `c` is a whitespace character.
pub fn is_whitespace_char(c: char) -> (b: bool)
    ensures
        b == is_ws(c),
{
    let u = c as u32;
    (0x09 <= u && u <= 0x0D) || u == 0x20 || u == 0x85 || u == 0xA0 || u == 0x1680 || (0x2000
        <= u && u <= 0x200A) || u == 0x2028 || u == 0x2029 || u == 0x202F || u == 0x205F || u
        == 0x3000
}

/// The bounds of `s[a..b]` once whitespace is trimmed from both ends.
pub fn trim_bounds(s: &[char], a: usize, b: usize) -> (r: (usize, usize))
    requires
        a <= b <= s@.len(),
    ensures
        a <= r.0 <= r.1 <= b,
        s@.subrange(r.0 as int, r.1 as int) == trim(s@.subrange(a as int, b as int)),
        s@.subrange(r.0 as int, b as int) == trim_start(s@.subrange(a as int, b as int)),
{
    let mut i: usize = a;
    while i < b && is_whitespace_char(s[i])
        invariant
            a <= i <= b <= s@.len(),
            trim_start(s@.subrange(a as int, b as int)) == trim_start(s@.subrange(i as int, b as int)),
        decreases b - i,
    {
        assert(s@.subrange(i as int, b as int).drop_first() =~= s@.subrange(i + 1, b as int));
        i += 1;
    }
    assert(trim_start(s@.subrange(i as int, b as int)) == s@.subrange(i as int, b as int));
    let mut j: usize = b;
    while j > i && is_whitespace_char(s[j - 1])
        invariant
            a <= i <= j <= b <= s@.len(),
            trim_end(s@.subrange(i as int, b as int)) == trim_end(s@.subrange(i as int, j as int)),
        decreases j - i,
    {
        assert(s@.subrange(i as int, j as int).drop_last() =~= s@.subrange(i as int, j - 1));
        j -= 1;
    }
    (i, j)
}

// ---------------------------------------------------------------------------
// Unsigned integers (`u32::from_str`, `u32::from_str_radix`, ...)
// ---------------------------------------------------------------------------

/// Value of `c` as a digit in `radix` (ASCII digits, then letters of either case).
pub open spec fn radix_digit(c: char, radix: nat) -> Option<nat> {
    let d: int = if '0' <= c && c <= '9' {
        c as int - '0' as int
    } else if 'a' <= c && c <= 'z' {
        c as int - 'a' as int + 10
    } else if 'A' <= c && c <= 'Z' {
        c as int - 'A' as int + 10
    } else {
        radix as int
    };
    if d < radix {
        Some(d as nat)
    } else {
        None
    }
}

/// Every character of `s` is a digit in `radix`.
pub open spec fn all_radix_digits(s: Seq<char>, radix: nat) -> bool {
    forall|i: int| 0 <= i < s.len() ==> (#[trigger] radix_digit(s[i], radix)) is Some
}

/// Positional value of a digit string (characters that are no digit count as 0).
pub open spec fn digits_value(s: Seq<char>, radix: nat) -> nat
    decreases s.len(),
{
    if s.len() == 0 {
        0
    } else {
        let d = match radix_digit(s.last(), radix) {
            Some(d) => d,
            None => 0,
        };
        digits_value(s.drop_last(), radix) * radix + d
    }
}

/// What `from_str_radix` returns for an unsigned type with maximum `max`:
/// an optional `+`, then at least one digit, with a value that fits.
pub open spec fn parse_unsigned(s: Seq<char>, radix: nat, max: nat) -> Option<nat> {
    let d = if s.len() > 0 && s[0] == '+' {
        s.drop_first()
    } else {
        s
    };
    if d.len() > 0 && all_radix_digits(d, radix) && digits_value(d, radix) <= max {
        Some(digits_value(d, radix))
    } else {
        None
    }
}

pub proof fn lemma_digits_value_step(s: Seq<char>, i: int, radix: nat)
    requires
        0 <= i < s.len(),
    ensures
        digits_value(s.subrange(0, i + 1), radix) == digits_value(s.subrange(0, i), radix) * radix
            + match radix_digit(s[i], radix) {
            Some(d) => d,
            None => 0,
        },
{
    assert(s.subrange(0, i + 1).drop_last() =~= s.subrange(0, i));
}

fn digit_in_radix(c: char, radix: u32) -> (r: Option<u32>)
    requires
        radix <= 36,
    ensures
        match r {
            Some(d) => radix_digit(c, radix as nat) == Some(d as nat),
            None => radix_digit(c, radix as nat) is None,
        },
{
    let d: u32 = if '0' <= c && c <= '9' {
        (c as u32) - ('0' as u32)
    } else if 'a' <= c && c <= 'z' {
        (c as u32) - ('a' as u32) + 10
    } else if 'A' <= c && c <= 'Z' {
        (c as u32) - ('A' as u32) + 10
    } else {
        radix
    };
    if d < radix {
        Some(d)
    } else {
        None
    }
}

/// Parses `s` as an unsigned integer in `radix` that must not exceed `max`,
/// as the standard library's `from_str_radix` does for unsigned types.
pub fn parse_unsigned_chars(s: &[char], radix: u32, max: u64) -> (r: Option<u64>)
    requires
        2 <= radix <= 36,
    ensures
        match r {
            Some(v) => parse_unsigned(s@, radix as nat, max as nat) == Some(v as nat),
            None => parse_unsigned(s@, radix as nat, max as nat) is None,
        },
{
    let start: usize = if s.len() > 0 && s[0] == '+' {
        1
    } else {
        0
    };
    let ghost d = if s@.len() > 0 && s@[0] == '+' {
        s@.drop_first()
    } else {
        s@
    };
    assert(d =~= s@.subrange(start as int, s@.len() as int));
    if start == s.len() {
        return None;
    }
    let mut val: u64 = 0;
    let mut over = false;
    let mut i: usize = start;
    while i < s.len()
        invariant
            start <= i <= s@.len(),
            2 <= radix <= 36,
            d == s@.subrange(start as int, s@.len() as int),
            d == (if s@.len() > 0 && s@[0] == '+' { s@.drop_first() } else { s@ }),
            all_radix_digits(d.subrange(0, i - start), radix as nat),
            !over ==> val as nat == digits_value(d.subrange(0, i - start), radix as nat) && val
                <= max,
            over ==> digits_value(d.subrange(0, i - start), radix as nat) > max,
        decreases s@.len() - i,
    {
        let c = s[i];
        match digit_in_radix(c, radix) {
            None => {
                assert(d[i - start] == s@[i as int]);
                assert(radix_digit(d[i - start], radix as nat) is None);
                assert(!all_radix_digits(d, radix as nat));
                assert(d.len() > 0);
                assert(!(d.len() > 0 && all_radix_digits(d, radix as nat) && digits_value(d, radix as nat) <= max));
                return None;
            },
            Some(dg) => {
                proof {
                    lemma_digits_value_step(d, i - start, radix as nat);
                    let pv = digits_value(d.subrange(0, i - start), radix as nat);
                    assert(pv * radix >= pv) by (nonlinear_arith)
                        requires
                            radix >= 2,
                    ;
                    assert forall|k: int| 0 <= k < i + 1 - start implies (#[trigger] radix_digit(
                        d.subrange(0, i + 1 - start)[k],
                        radix as nat,
                    )) is Some by {
                        if k < i - start {
                            assert(d.subrange(0, i + 1 - start)[k] == d.subrange(0, i - start)[k]);
                        }
                    }
                }
                if !over {
                    assert((val as u128) * (radix as u128) <= 0xFFFF_FFFF_FFFF_FFFFu128 * 36) by (nonlinear_arith)
                        requires
                            val <= 0xFFFF_FFFF_FFFF_FFFFu64,
                            radix <= 36,
                    ;
                    let nv: u128 = (val as u128) * (radix as u128) + (dg as u128);
                    if nv > max as u128 {
                        over = true;
                    } else {
                        val = nv as u64;
                    }
                }
            },
        }
        i += 1;
    }
    assert(d.subrange(0, i - start) =~= d);
    if over {
        None
    } else {
        Some(val)
    }
}

// ---------------------------------------------------------------------------
// Floating-point literal syntax (`f64::from_str` succeeds exactly on these)
// ---------------------------------------------------------------------------

pub open spec fn is_ascii_digit(c: char) -> bool {
    '0' <= c && c <= '9'
}

/// ASCII lower-casing.
pub open spec fn ascii_lower(c: char) -> char {
    if 'A' <= c && c <= 'Z' {
        ((c as u32) + 32) as char
    } else {
        c
    }
}

/// `s` equals the lower-case word `w` ignoring ASCII case.
pub open spec fn eq_ignore_case(s: Seq<char>, w: Seq<char>) -> bool {
    s.len() == w.len() && forall|i: int| 0 <= i < s.len() ==> ascii_lower(#[trigger] s[i]) == w[i]
}

pub open spec fn all_digits(s: Seq<char>) -> bool {
    forall|i: int| 0 <= i < s.len() ==> is_ascii_digit(#[trigger] s[i])
}

/// Number of characters satisfying digit / dot in `s`.
pub open spec fn count_digits(s: Seq<char>) -> nat
    decreases s.len(),
{
    if s.len() == 0 {
        0
    } else {
        count_digits(s.drop_last()) + if is_ascii_digit(s.last()) {
            1nat
        } else {
            0nat
        }
    }
}

pub open spec fn count_dots(s: Seq<char>) -> nat
    decreases s.len(),
{
    if s.len() == 0 {
        0
    } else {
        count_dots(s.drop_last()) + if s.last() == '.' {
            1nat
        } else {
            0nat
        }
    }
}

/// `Digit+ | Digit+ '.' Digit* | Digit* '.' Digit+`: digits with at most one
/// dot and at least one digit.
pub open spec fn is_mantissa(m: Seq<char>) -> bool {
    &&& forall|i: int| 0 <= i < m.len() ==> is_ascii_digit(#[trigger] m[i]) || m[i] == '.'
    &&& count_dots(m) <= 1
    &&& count_digits(m) >= 1
}

/// `Exp ::= 'e' Sign? Digit+` (either case of `e`).
pub open spec fn is_exponent(e: Seq<char>) -> bool {
    &&& e.len() >= 2
    &&& (e[0] == 'e' || e[0] == 'E')
    &&& {
        let r = e.drop_first();
        let r2 = if r[0] == '+' || r[0] == '-' {
            r.drop_first()
        } else {
            r
        };
        r2.len() > 0 && all_digits(r2)
    }
}

/// Index of the first `e`/`E` in `s`, or its length.
pub open spec fn first_exp_index(s: Seq<char>) -> nat
    decreases s.len(),
{
    if s.len() == 0 {
        0
    } else if s[0] == 'e' || s[0] == 'E' {
        0
    } else {
        first_exp_index(s.drop_first()) + 1
    }
}

/// `Number ::= Mantissa Exp?`
pub open spec fn is_number(t: Seq<char>) -> bool {
    let k = first_exp_index(t) as int;
    is_mantissa(t.subrange(0, k)) && (k == t.len() || is_exponent(t.subrange(k, t.len() as int)))
}

/// Strings that `f64::from_str` accepts:
/// `Sign? ('inf' | 'infinity' | 'nan' | Number)`, case-insensitively.
pub open spec fn is_float_literal(s: Seq<char>) -> bool {
    let t = if s.len() > 0 && (s[0] == '+' || s[0] == '-') {
        s.drop_first()
    } else {
        s
    };
    ||| eq_ignore_case(t, seq!['i', 'n', 'f'])
    ||| eq_ignore_case(t, seq!['i', 'n', 'f', 'i', 'n', 'i', 't', 'y'])
    ||| eq_ignore_case(t, seq!['n', 'a', 'n'])
    ||| is_number(t)
}

fn lower_ascii(c: char) -> (r: char)
    ensures
        r == ascii_lower(c),
{
    if 'A' <= c && c <= 'Z' {
        (((c as u32) + 32) as u8) as char
    } else {
        c
    }
}

fn eq_ignore_case_chars(s: &[char], w: &[char]) -> (b: bool)
    ensures
        b == eq_ignore_case(s@, w@),
{
    if s.len() != w.len() {
        return false;
    }
    let mut i: usize = 0;
    while i < s.len()
        invariant
            s@.len() == w@.len(),
            i <= s@.len(),
            forall|k: int| 0 <= k < i ==> ascii_lower(#[trigger] s@[k]) == w@[k],
        decreases s@.len() - i,
    {
        if lower_ascii(s[i]) != w[i] {
            return false;
        }
        i += 1;
    }
    true
}

/// Whether every character of `s` is an ASCII digit.
pub fn all_digit_chars(s: &[char]) -> (b: bool)
    ensures
        b == all_digits(s@),
{
    let mut i: usize = 0;
    while i < s.len()
        invariant
            i <= s@.len(),
            forall|k: int| 0 <= k < i ==> is_ascii_digit(#[trigger] s@[k]),
        decreases s@.len() - i,
    {
        if !('0' <= s[i] && s[i] <= '9') {
            return false;
        }
        i += 1;
    }
    true
}

fn is_mantissa_chars(m: &[char]) -> (b: bool)
    ensures
        b == is_mantissa(m@),
{
    let mut dots: usize = 0;
    let mut digits: usize = 0;
    let mut i: usize = 0;
    while i < m.len()
        invariant
            i <= m@.len(),
            forall|k: int| 0 <= k < i ==> is_ascii_digit(#[trigger] m@[k]) || m@[k] == '.',
            dots as nat == count_dots(m@.subrange(0, i as int)),
            digits as nat == count_digits(m@.subrange(0, i as int)),
            dots <= 1,
            digits <= i,
        decreases m@.len() - i,
    {
        assert(m@.subrange(0, i + 1).drop_last() =~= m@.subrange(0, i as int));
        let c = m[i];
        if '0' <= c && c <= '9' {
            digits += 1;
        } else if c == '.' {
            if dots == 1 {
                proof {
                    assert(count_dots(m@.subrange(0, i + 1)) == 2);
                    lemma_count_dots_prefix(m@, i + 1, m@.len() as int);
                    assert(m@.subrange(0, m@.len() as int) =~= m@);
                }
                return false;
            }
            dots += 1;
        } else {
            return false;
        }
        i += 1;
    }
    assert(m@.subrange(0, m@.len() as int) =~= m@);
    digits >= 1
}

proof fn lemma_count_dots_prefix(s: Seq<char>, i: int, j: int)
    requires
        0 <= i <= j <= s.len(),
    ensures
        count_dots(s.subrange(0, i)) <= count_dots(s.subrange(0, j)),
    decreases j - i,
{
    if i < j {
        lemma_count_dots_prefix(s, i, j - 1);
        assert(s.subrange(0, j).drop_last() =~= s.subrange(0, j - 1));
    }
}

fn first_exp_index_chars(s: &[char]) -> (k: usize)
    ensures
        k as nat == first_exp_index(s@),
        k <= s@.len(),
{
    let mut i: usize = 0;
    assert(s@.subrange(0, s@.len() as int) =~= s@);
    while i < s.len() && !(s[i] == 'e' || s[i] == 'E')
        invariant
            i <= s@.len(),
            first_exp_index(s@) == i + first_exp_index(s@.subrange(i as int, s@.len() as int)),
        decreases s@.len() - i,
    {
        assert(s@.subrange(i as int, s@.len() as int).drop_first() =~= s@.subrange(
            i + 1,
            s@.len() as int,
        ));
        i += 1;
    }
    assert(s@.subrange(0, s@.len() as int) =~= s@);
    i
}

fn is_exponent_chars(e: &[char]) -> (b: bool)
    ensures
        b == is_exponent(e@),
{
    if e.len() < 2 || !(e[0] == 'e' || e[0] == 'E') {
        return false;
    }
    let r = &e[1..e.len()];
    assert(r@ =~= e@.drop_first());
    let r2 = if r[0] == '+' || r[0] == '-' {
        assert(r@.subrange(1, r@.len() as int) =~= r@.drop_first());
        &r[1..r.len()]
    } else {
        r
    };
    r2.len() > 0 && all_digit_chars(r2)
}

/// Whether `f64::from_str` accepts `s`.
pub fn is_float_literal_chars(s: &[char]) -> (b: bool)
    ensures
        b == is_float_literal(s@),
{
    let t = if s.len() > 0 && (s[0] == '+' || s[0] == '-') {
        assert(s@.subrange(1, s@.len() as int) =~= s@.drop_first());
        &s[1..s.len()]
    } else {
        s
    };
    let inf = ['i', 'n', 'f'];
    let infinity = ['i', 'n', 'f', 'i', 'n', 'i', 't', 'y'];
    let nan = ['n', 'a', 'n'];
    assert(inf@ =~= seq!['i', 'n', 'f']);
    assert(infinity@ =~= seq!['i', 'n', 'f', 'i', 'n', 'i', 't', 'y']);
    assert(nan@ =~= seq!['n', 'a', 'n']);
    if eq_ignore_case_chars(t, inf.as_slice()) || eq_ignore_case_chars(t, infinity.as_slice())
        || eq_ignore_case_chars(t, nan.as_slice()) {
        return true;
    }
    let k = first_exp_index_chars(t);
    let m = &t[0..k];
    if !is_mantissa_chars(m) {
        return false;
    }
    if k == t.len() {
        return true;
    }
    is_exponent_chars(&t[k..t.len()])
}

// ---------------------------------------------------------------------------
// Decimal rendering and character buffers
// ---------------------------------------------------------------------------

pub open spec fn digit_char(d: nat) -> char {
    (d + 48) as char
}

/// Decimal digits of `n`, most significant first.
pub open spec fn decimal(n: nat) -> Seq<char>
    decreases n,
{
    if n < 10 {
        seq![digit_char(n)]
    } else {
        decimal(n / 10).push(digit_char(n % 10))
    }
}

/// Appends the decimal digits of `n`.
pub fn push_decimal(out: &mut Vec<char>, n: u64)
    ensures
        final(out)@ == old(out)@ + decimal(n as nat),
    decreases n,
{
    if n < 10 {
        out.push(((n as u8) + 48) as char);
    } else {
        push_decimal(out, n / 10);
        out.push((((n % 10) as u8) + 48) as char);
    }
}

/// Appends the characters of `s`.
pub fn push_str(out: &mut Vec<char>, s: &str)
    ensures
        final(out)@ == old(out)@ + s@,
{
    let ghost start = out@;
    for c in it: s.chars()
        invariant
            out@ == start + it.seq().take(it.index() as int),
            it.seq() == s@,
    {
        out.push(c);
    }
    assert(s@.take(s@.len() as int) =~= s@);
}

/// Appends the characters of `s`.
pub fn push_chars(out: &mut Vec<char>, s: &[char])
    ensures
        final(out)@ == old(out)@ + s@,
{
    let ghost start = out@;
    let mut i: usize = 0;
    while i < s.len()
        invariant
            i <= s@.len(),
            out@ == start + s@.subrange(0, i as int),
        decreases s@.len() - i,
    {
        out.push(s[i]);
        assert(s@.subrange(0, i + 1) =~= s@.subrange(0, i as int).push(s@[i as int]));
        i += 1;
    }
    assert(s@.subrange(0, s@.len() as int) =~= s@);
}

/// The characters of a string, in order.
pub fn chars_of(s: &str) -> (v: Vec<char>)
    ensures
        v@ == s@,
{
    let mut v: Vec<char> = Vec::new();
    push_str(&mut v, s);
    assert(Seq::<char>::empty() + s@ =~= s@);
    v
}

/// Builds a `String` from characters (`FromIterator<char>` for `String`).
#[verifier::external_body]
pub(crate) fn string_from_chars(cs: &[char]) -> (s: String)
    ensures
        s@ == cs@,
{
    cs.iter().collect()
}

} // verus!
