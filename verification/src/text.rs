//! Character-level text handling: whitespace, trimming, case mapping,
//! decimal and hexadecimal formatting, and decimal integer parsing.
use vstd::prelude::*;

verus! {

// ---------------------------------------------------------------- strings

/// Appends one character to a string (`String::push`).
#[verifier::external_body]
pub(crate) fn push_char(s: &mut String, c: char)
    ensures
        final(s)@ == old(s)@.push(c),
{
    s.push(c);
}

/// The characters of a string slice, in order.
pub fn chars_of(s: &str) -> (v: Vec<char>)
    ensures
        v@ == s@,
{
    let mut v: Vec<char> = Vec::new();
    for c in it: s.chars()
        invariant
            v@ == it.seq().take(it.index()),
            it.seq() == s@,
    {
        v.push(c);
    }
    v
}

/// Appends the characters `v[lo..hi]` to `s`.
pub fn push_range(s: &mut String, v: &Vec<char>, lo: usize, hi: usize)
    requires
        lo <= hi <= v@.len(),
    ensures
        final(s)@ == old(s)@ + v@.subrange(lo as int, hi as int),
{
    let mut i: usize = lo;
    while i < hi
        invariant
            lo <= i <= hi <= v@.len(),
            s@ == old(s)@ + v@.subrange(lo as int, i as int),
        decreases hi - i,
    {
        push_char(s, v[i]);
        assert(v@.subrange(lo as int, i + 1) =~= v@.subrange(lo as int, i as int).push(v@[i as int]));
        i += 1;
    }
}

/// The string made of the characters `v[lo..hi]`.
pub fn string_of_range(v: &Vec<char>, lo: usize, hi: usize) -> (s: String)
    requires
        lo <= hi <= v@.len(),
    ensures
        s@ == v@.subrange(lo as int, hi as int),
{
    let mut s = String::new();
    push_range(&mut s, v, lo, hi);
    assert(s@ =~= v@.subrange(lo as int, hi as int));
    s
}

// ------------------------------------------------------------- whitespace

/// A character with the Unicode `White_Space` property, the characters
/// that `char::is_whitespace` accepts.
pub open spec fn is_ws(c: char) -> bool {
    ||| c == ' '
    ||| ('\u{9}' <= c && c <= '\u{d}')
    ||| c == '\u{85}'
    ||| c == '\u{a0}'
    ||| c == '\u{1680}'
    ||| ('\u{2000}' <= c && c <= '\u{200a}')
    ||| c == '\u{2028}'
    ||| c == '\u{2029}'
    ||| c == '\u{202f}'
    ||| c == '\u{205f}'
    ||| c == '\u{3000}'
}

/// Whether `c` is a whitespace character.
pub fn is_whitespace(c: char) -> (b: bool)
    ensures
        b == is_ws(c),
{
    c == ' ' || ('\u{9}' <= c && c <= '\u{d}') || c == '\u{85}' || c == '\u{a0}' || c == '\u{1680}'
        || ('\u{2000}' <= c && c <= '\u{200a}') || c == '\u{2028}' || c == '\u{2029}' || c
        == '\u{202f}' || c == '\u{205f}' || c == '\u{3000}'
}

/// `s` without its leading whitespace.
pub open spec fn trim_start(s: Seq<char>) -> Seq<char>
    decreases s.len(),
{
    if s.len() > 0 && is_ws(s[0]) {
        trim_start(s.drop_first())
    } else {
        s
    }
}

/// `s` without its trailing whitespace.
pub open spec fn trim_end(s: Seq<char>) -> Seq<char>
    decreases s.len(),
{
    if s.len() > 0 && is_ws(s.last()) {
        trim_end(s.drop_last())
    } else {
        s
    }
}

/// `s` without leading and trailing whitespace (`str::trim`).
pub open spec fn trim(s: Seq<char>) -> Seq<char> {
    trim_end(trim_start(s))
}

/// The bounds of `v[lo..hi]` once its leading and trailing whitespace is
/// taken off.
pub fn trim_range(v: &Vec<char>, lo: usize, hi: usize) -> (r: (usize, usize))
    requires
        lo <= hi <= v@.len(),
    ensures
        lo <= r.0 <= r.1 <= hi,
        v@.subrange(r.0 as int, r.1 as int) == trim(v@.subrange(lo as int, hi as int)),
{
    let mut a: usize = lo;
    while a < hi && is_whitespace(v[a])
        invariant
            lo <= a <= hi <= v@.len(),
            trim_start(v@.subrange(lo as int, hi as int)) == trim_start(
                v@.subrange(a as int, hi as int),
            ),
        decreases hi - a,
    {
        assert(v@.subrange(a as int, hi as int).drop_first() =~= v@.subrange(a + 1, hi as int));
        a += 1;
    }
    assert(trim_start(v@.subrange(a as int, hi as int)) == v@.subrange(a as int, hi as int));
    let mut b: usize = hi;
    while b > a && is_whitespace(v[b - 1])
        invariant
            lo <= a <= b <= hi <= v@.len(),
            trim(v@.subrange(lo as int, hi as int)) == trim_end(v@.subrange(a as int, b as int)),
        decreases b - a,
    {
        assert(v@.subrange(a as int, b as int).drop_last() =~= v@.subrange(a as int, b - 1));
        b -= 1;
    }
    (a, b)
}

// ------------------------------------------------------------------ case

/// The ASCII upper-case form of `c`; other characters are unchanged.
pub open spec fn upper(c: char) -> char {
    if 97 <= (c as u32) && (c as u32) <= 122 {
        (((c as u32) - 32) as u8) as char
    } else {
        c
    }
}

/// `s` with each ASCII lower-case letter made upper-case (`to_ascii_uppercase`).
pub open spec fn ascii_upper(s: Seq<char>) -> Seq<char> {
    s.map_values(|c: char| upper(c))
}

/// The ASCII upper-case form of `c`.
pub fn to_upper(c: char) -> (r: char)
    ensures
        r == upper(c),
{
    let b = c as u32;
    if 97 <= b && b <= 122 {
        ((b - 32) as u8) as char
    } else {
        c
    }
}

/// The ASCII lower-case form of `c`; other characters are unchanged.
pub open spec fn lower(c: char) -> char {
    if 65 <= (c as u32) && (c as u32) <= 90 {
        (((c as u32) + 32) as u8) as char
    } else {
        c
    }
}

/// `s` with each ASCII upper-case letter made lower-case (`to_ascii_lowercase`).
pub open spec fn ascii_lower(s: Seq<char>) -> Seq<char> {
    s.map_values(|c: char| lower(c))
}

/// Whether `c` is an ASCII letter.
pub open spec fn is_letter(c: char) -> bool {
    ('a' <= c && c <= 'z') || ('A' <= c && c <= 'Z')
}

/// Case mapping keeps whitespace and non-letters, and upper-casing after
/// either mapping is upper-casing.
pub proof fn lemma_case_char(c: char)
    ensures
        upper(upper(c)) == upper(c),
        upper(lower(c)) == upper(c),
        is_ws(upper(c)) == is_ws(c),
        is_ws(lower(c)) == is_ws(c),
        !is_letter(c) ==> upper(c) == c && lower(c) == c,
{
}

/// A character mapping that keeps whitespace commutes with trimming.
pub proof fn lemma_trim_map(s: Seq<char>, f: spec_fn(char) -> char)
    requires
        forall|c: char| #[trigger] is_ws(f(c)) == is_ws(c),
    ensures
        trim(s.map_values(f)) == trim(s).map_values(f),
        trim_start(s.map_values(f)) == trim_start(s).map_values(f),
        trim_end(s.map_values(f)) == trim_end(s).map_values(f),
    decreases s.len(),
{
    let m = s.map_values(f);
    if s.len() > 0 {
        assert(m[0] == f(s[0]));
        assert(m.last() == f(s.last()));
        assert(m.drop_first() =~= s.drop_first().map_values(f));
        assert(m.drop_last() =~= s.drop_last().map_values(f));
        lemma_trim_map(s.drop_first(), f);
        lemma_trim_map(s.drop_last(), f);
    }
    lemma_trim_end_map(trim_start(s), f);
}

proof fn lemma_trim_end_map(s: Seq<char>, f: spec_fn(char) -> char)
    requires
        forall|c: char| #[trigger] is_ws(f(c)) == is_ws(c),
    ensures
        trim_end(s.map_values(f)) == trim_end(s).map_values(f),
    decreases s.len(),
{
    let m = s.map_values(f);
    if s.len() > 0 {
        assert(m.last() == f(s.last()));
        assert(m.drop_last() =~= s.drop_last().map_values(f));
        lemma_trim_end_map(s.drop_last(), f);
    } else {
        assert(m =~= s.map_values(f));
    }
}

/// Leading whitespace is trimmed away.
pub proof fn lemma_trim_start_ws_prefix(w: Seq<char>, x: Seq<char>)
    requires
        forall|i: int| 0 <= i < w.len() ==> is_ws(#[trigger] w[i]),
    ensures
        trim_start(w + x) == trim_start(x),
    decreases w.len(),
{
    if w.len() > 0 {
        assert((w + x)[0] == w[0]);
        assert((w + x).drop_first() =~= w.drop_first() + x);
        lemma_trim_start_ws_prefix(w.drop_first(), x);
    } else {
        assert(w + x =~= x);
    }
}

/// Trailing whitespace is trimmed away.
pub proof fn lemma_trim_end_ws_suffix(x: Seq<char>, w: Seq<char>)
    requires
        forall|i: int| 0 <= i < w.len() ==> is_ws(#[trigger] w[i]),
    ensures
        trim_end(x + w) == trim_end(x),
    decreases w.len(),
{
    if w.len() > 0 {
        assert((x + w).last() == w.last());
        assert((x + w).drop_last() =~= x + w.drop_last());
        lemma_trim_end_ws_suffix(x, w.drop_last());
    } else {
        assert(x + w =~= x);
    }
}

/// Trimming the front of `x + y` trims `x`, or goes on into `y` when `x`
/// is all whitespace.
pub proof fn lemma_trim_start_concat(x: Seq<char>, y: Seq<char>)
    ensures
        trim_start(x + y) == if trim_start(x).len() > 0 { trim_start(x) + y } else { trim_start(y) },
    decreases x.len(),
{
    if x.len() > 0 {
        assert((x + y)[0] == x[0]);
        assert((x + y).drop_first() =~= x.drop_first() + y);
        lemma_trim_start_concat(x.drop_first(), y);
    } else {
        assert(x + y =~= y);
    }
}

/// Whitespace around a text changes nothing once it is trimmed.
pub proof fn lemma_trim_surrounded(before: Seq<char>, s: Seq<char>, after: Seq<char>)
    requires
        forall|i: int| 0 <= i < before.len() ==> is_ws(#[trigger] before[i]),
        forall|i: int| 0 <= i < after.len() ==> is_ws(#[trigger] after[i]),
    ensures
        trim(before + s + after) == trim(s),
{
    assert(before + s + after =~= before + (s + after));
    lemma_trim_start_ws_prefix(before, s + after);
    lemma_trim_start_concat(s, after);
    if trim_start(s).len() > 0 {
        lemma_trim_end_ws_suffix(trim_start(s), after);
    } else {
        lemma_trim_start_ws_prefix(after, Seq::empty());
        assert(after + Seq::<char>::empty() =~= after);
        assert(trim_start(after).len() == 0);
    }
}

// ---------------------------------------------------------------- digits

/// The character of decimal or hexadecimal digit `d` (upper case letters).
pub open spec fn digit_char(d: nat) -> char {
    if d == 0 { '0' }
    else if d == 1 { '1' }
    else if d == 2 { '2' }
    else if d == 3 { '3' }
    else if d == 4 { '4' }
    else if d == 5 { '5' }
    else if d == 6 { '6' }
    else if d == 7 { '7' }
    else if d == 8 { '8' }
    else if d == 9 { '9' }
    else if d == 10 { 'A' }
    else if d == 11 { 'B' }
    else if d == 12 { 'C' }
    else if d == 13 { 'D' }
    else if d == 14 { 'E' }
    else { 'F' }
}

/// Whether `c` is an ASCII decimal digit.
pub open spec fn is_digit(c: char) -> bool {
    '0' <= c && c <= '9'
}

/// The value of decimal digit `c`.
pub open spec fn digit_value(c: char) -> nat {
    if c == '1' { 1 }
    else if c == '2' { 2 }
    else if c == '3' { 3 }
    else if c == '4' { 4 }
    else if c == '5' { 5 }
    else if c == '6' { 6 }
    else if c == '7' { 7 }
    else if c == '8' { 8 }
    else if c == '9' { 9 }
    else { 0 }
}

/// The decimal digits of `n`, most significant first, without leading zeros.
pub open spec fn dec_nat(n: nat) -> Seq<char>
    decreases n,
{
    if n < 10 {
        seq![digit_char(n)]
    } else {
        dec_nat(n / 10).push(digit_char(n % 10))
    }
}

/// The decimal form of `n`, with a `-` in front of a negative number.
pub open spec fn dec_int(n: int) -> Seq<char> {
    if n < 0 {
        seq!['-'] + dec_nat((-n) as nat)
    } else {
        dec_nat(n as nat)
    }
}

/// The upper-case hexadecimal digits of `n`, without leading zeros.
pub open spec fn hex_nat(n: nat) -> Seq<char>
    decreases n,
{
    if n < 16 {
        seq![digit_char(n)]
    } else {
        hex_nat(n / 16).push(digit_char(n % 16))
    }
}

/// `s` with zeros in front to make it at least `width` characters long.
pub open spec fn zero_pad(s: Seq<char>, width: nat) -> Seq<char> {
    if s.len() < width {
        Seq::new((width - s.len()) as nat, |i: int| '0') + s
    } else {
        s
    }
}

/// `s` with spaces behind it to make it at least `width` characters long.
pub open spec fn space_pad(s: Seq<char>, width: nat) -> Seq<char> {
    if s.len() < width {
        s + Seq::new((width - s.len()) as nat, |i: int| ' ')
    } else {
        s
    }
}

/// `n` in upper-case hexadecimal, zero-padded to `width` digits (`{:0wX}`).
pub open spec fn hex_pad(n: nat, width: nat) -> Seq<char> {
    zero_pad(hex_nat(n), width)
}

fn digit_char_of(d: u64) -> (c: char)
    requires
        d < 16,
    ensures
        c == digit_char(d as nat),
{
    if d == 0 { '0' }
    else if d == 1 { '1' }
    else if d == 2 { '2' }
    else if d == 3 { '3' }
    else if d == 4 { '4' }
    else if d == 5 { '5' }
    else if d == 6 { '6' }
    else if d == 7 { '7' }
    else if d == 8 { '8' }
    else if d == 9 { '9' }
    else if d == 10 { 'A' }
    else if d == 11 { 'B' }
    else if d == 12 { 'C' }
    else if d == 13 { 'D' }
    else if d == 14 { 'E' }
    else { 'F' }
}

/// Appends the decimal digits of `n`.
pub fn write_dec_u64(s: &mut String, n: u64)
    ensures
        final(s)@ == old(s)@ + dec_nat(n as nat),
    decreases n,
{
    if n >= 10 {
        write_dec_u64(s, n / 10);
    }
    push_char(s, digit_char_of(n % 10));
    assert(final(s)@ =~= old(s)@ + dec_nat(n as nat));
}

/// Appends the decimal form of `n` (`{}`).
pub fn write_dec_i64(s: &mut String, n: i64)
    ensures
        final(s)@ == old(s)@ + dec_int(n as int),
{
    if n < 0 {
        push_char(s, '-');
        let m: u64 = if n == i64::MIN {
            9223372036854775808u64
        } else {
            (-n) as u64
        };
        write_dec_u64(s, m);
        assert(final(s)@ =~= old(s)@ + dec_int(n as int));
    } else {
        write_dec_u64(s, n as u64);
    }
}

/// Appends the upper-case hexadecimal digits of `n`.
pub fn write_hex_u64(s: &mut String, n: u64)
    ensures
        final(s)@ == old(s)@ + hex_nat(n as nat),
    decreases n,
{
    if n >= 16 {
        write_hex_u64(s, n / 16);
    }
    push_char(s, digit_char_of(n % 16));
    assert(final(s)@ =~= old(s)@ + hex_nat(n as nat));
}

/// Appends `n` in upper-case hexadecimal, zero-padded to `width` digits.
pub fn write_hex_padded(s: &mut String, n: u64, width: usize)
    ensures
        final(s)@ == old(s)@ + hex_pad(n as nat, width as nat),
{
    let mut digits = String::new();
    write_hex_u64(&mut digits, n);
    let d = chars_of(digits.as_str());
    let mut k: usize = d.len();
    while k < width
        invariant
            d@ == hex_nat(n as nat),
            d@.len() <= k,
            k == d@.len() || k <= width,
            s@ == old(s)@ + Seq::new((k - d@.len()) as nat, |i: int| '0'),
        decreases width - k,
    {
        push_char(s, '0');
        assert(Seq::new((k + 1 - d@.len()) as nat, |i: int| '0') =~= Seq::new(
            (k - d@.len()) as nat,
            |i: int| '0',
        ).push('0'));
        k += 1;
    }
    let ghost zeros = Seq::new((k - d@.len()) as nat, |i: int| '0');
    push_range(s, &d, 0, d.len());
    assert(d@.subrange(0, d@.len() as int) =~= d@);
    if d.len() < width {
        assert(zeros =~= Seq::new((width - d@.len()) as nat, |i: int| '0'));
    } else {
        assert(zeros =~= Seq::<char>::empty());
    }
    assert(final(s)@ =~= old(s)@ + hex_pad(n as nat, width as nat));
}

// --------------------------------------------------------------- parsing

/// Why a decimal integer could not be read (as `core::num::IntErrorKind`).
#[derive(Debug, Clone, Copy, PartialEq, Eq, Structural)]
pub enum IntErrorKind {
    Empty,
    InvalidDigit,
    PosOverflow,
    NegOverflow,
}

/// The message of an integer parse error (`ParseIntError`'s `Display`).
pub open spec fn int_error_message(e: IntErrorKind) -> Seq<char> {
    match e {
        IntErrorKind::Empty => "cannot parse integer from empty string"@,
        IntErrorKind::InvalidDigit => "invalid digit found in string"@,
        IntErrorKind::PosOverflow => "number too large to fit in target type"@,
        IntErrorKind::NegOverflow => "number too small to fit in target type"@,
    }
}

/// Appends the message of an integer parse error.
pub fn write_int_error(s: &mut String, e: IntErrorKind)
    ensures
        final(s)@ == old(s)@ + int_error_message(e),
{
    match e {
        IntErrorKind::Empty => s.append("cannot parse integer from empty string"),
        IntErrorKind::InvalidDigit => s.append("invalid digit found in string"),
        IntErrorKind::PosOverflow => s.append("number too large to fit in target type"),
        IntErrorKind::NegOverflow => s.append("number too small to fit in target type"),
    }
}

/// Reads the digits `ds` left to right into `acc` (subtracting each digit
/// when `neg`); stops at the first character that is no digit or at the
/// first digit that takes the value out of the `i64` range.
pub open spec fn accumulate(ds: Seq<char>, acc: int, neg: bool) -> Result<i64, IntErrorKind>
    decreases ds.len(),
{
    if ds.len() == 0 {
        Ok(acc as i64)
    } else if !is_digit(ds[0]) {
        Err(IntErrorKind::InvalidDigit)
    } else {
        let next = if neg {
            acc * 10 - digit_value(ds[0])
        } else {
            acc * 10 + digit_value(ds[0])
        };
        if next > i64::MAX {
            Err(IntErrorKind::PosOverflow)
        } else if next < i64::MIN {
            Err(IntErrorKind::NegOverflow)
        } else {
            accumulate(ds.drop_first(), next, neg)
        }
    }
}

/// A decimal `i64` with an optional leading `+` or `-`, read as
/// `str::parse::<i64>` reads it.
pub open spec fn spec_parse_i64(s: Seq<char>) -> Result<i64, IntErrorKind> {
    if s.len() == 0 {
        Err(IntErrorKind::Empty)
    } else if s.len() == 1 && (s[0] == '+' || s[0] == '-') {
        Err(IntErrorKind::InvalidDigit)
    } else if s[0] == '+' {
        accumulate(s.drop_first(), 0, false)
    } else if s[0] == '-' {
        accumulate(s.drop_first(), 0, true)
    } else {
        accumulate(s, 0, false)
    }
}

fn digit_value_of(c: char) -> (d: i64)
    ensures
        d == digit_value(c),
{
    if c == '1' { 1 }
    else if c == '2' { 2 }
    else if c == '3' { 3 }
    else if c == '4' { 4 }
    else if c == '5' { 5 }
    else if c == '6' { 6 }
    else if c == '7' { 7 }
    else if c == '8' { 8 }
    else if c == '9' { 9 }
    else { 0 }
}

/// Reads `v[lo..hi]` as a decimal `i64`.
pub fn parse_i64(v: &Vec<char>, lo: usize, hi: usize) -> (r: Result<i64, IntErrorKind>)
    requires
        lo <= hi <= v@.len(),
    ensures
        r == spec_parse_i64(v@.subrange(lo as int, hi as int)),
{
    let ghost s = v@.subrange(lo as int, hi as int);
    if lo == hi {
        return Err(IntErrorKind::Empty);
    }
    let first = v[lo];
    if hi - lo == 1 && (first == '+' || first == '-') {
        return Err(IntErrorKind::InvalidDigit);
    }
    let neg = first == '-';
    let mut i: usize = if first == '+' || first == '-' {
        lo + 1
    } else {
        lo
    };
    assert(s.drop_first() =~= v@.subrange(lo + 1, hi as int));
    let mut acc: i64 = 0;
    while i < hi
        invariant
            lo <= i <= hi <= v@.len(),
            s == v@.subrange(lo as int, hi as int),
            spec_parse_i64(s) == accumulate(v@.subrange(i as int, hi as int), acc as int, neg),
        decreases hi - i,
    {
        let c = v[i];
        assert(v@.subrange(i as int, hi as int)[0] == c);
        assert(v@.subrange(i as int, hi as int).drop_first() =~= v@.subrange(i + 1, hi as int));
        if !('0' <= c && c <= '9') {
            return Err(IntErrorKind::InvalidDigit);
        }
        let d = digit_value_of(c) as i128;
        let next: i128 = if neg {
            acc as i128 * 10 - d
        } else {
            acc as i128 * 10 + d
        };
        if next > i64::MAX as i128 {
            return Err(IntErrorKind::PosOverflow);
        }
        if next < i64::MIN as i128 {
            return Err(IntErrorKind::NegOverflow);
        }
        acc = next as i64;
        i += 1;
    }
    Ok(acc)
}

// ------------------------------------------------------- reading it back

proof fn lemma_div_mod_10(m: nat)
    ensures
        (m / 10) * 10 + m % 10 == m,
        m % 10 < 10,
        m >= 10 ==> m / 10 < m,
{
}

/// The digits of `m` followed by `rest` read as the digits of `m` and then
/// `rest`, when `m` fits (with the sign that `neg` gives) in an `i64`.
proof fn lemma_accumulate_dec(m: nat, neg: bool, rest: Seq<char>)
    requires
        neg ==> m <= 0x8000_0000_0000_0000,
        !neg ==> m <= 0x7fff_ffff_ffff_ffff,
    ensures
        accumulate(dec_nat(m) + rest, 0, neg) == accumulate(rest, if neg { -m } else { m as int }, neg),
    decreases m,
{
    lemma_div_mod_10(m);
    if m < 10 {
        let s = dec_nat(m) + rest;
        assert(s[0] == digit_char(m));
        assert(s.drop_first() =~= rest);
    } else {
        let q = m / 10;
        let d = digit_char(m % 10);
        assert(dec_nat(m) + rest =~= dec_nat(q) + (seq![d] + rest));
        lemma_accumulate_dec(q, neg, seq![d] + rest);
        assert((seq![d] + rest)[0] == d);
        assert((seq![d] + rest).drop_first() =~= rest);
    }
}

/// Every character of `dec_nat(m)` is a digit.
pub proof fn lemma_dec_nat_digits(m: nat)
    ensures
        forall|i: int| 0 <= i < dec_nat(m).len() ==> is_digit(#[trigger] dec_nat(m)[i]),
        dec_nat(m).len() >= 1,
    decreases m,
{
    lemma_div_mod_10(m);
    if m >= 10 {
        lemma_dec_nat_digits(m / 10);
    }
}

/// Reading back the decimal form of a value gives the value.
pub proof fn lemma_parse_dec_int(n: i64)
    ensures
        spec_parse_i64(dec_int(n as int)) == Ok::<i64, IntErrorKind>(n),
{
    if n < 0 {
        let m = (-n) as nat;
        lemma_dec_nat_digits(m);
        lemma_accumulate_dec(m, true, Seq::empty());
        let s = dec_int(n as int);
        assert(s.drop_first() =~= dec_nat(m) + Seq::empty());
    } else {
        let m = n as nat;
        lemma_dec_nat_digits(m);
        lemma_accumulate_dec(m, false, Seq::empty());
        assert(dec_nat(m) + Seq::<char>::empty() =~= dec_nat(m));
        assert(is_digit(dec_nat(m)[0]));
    }
}

/// A decimal integer that reads holds only digits, after an optional sign.
pub proof fn lemma_parse_i64_chars(s: Seq<char>)
    requires
        spec_parse_i64(s) is Ok,
    ensures
        forall|i: int|
            0 <= i < s.len() ==> is_digit(#[trigger] s[i]) || (i == 0 && (s[0] == '+' || s[0] == '-')),
{
    if s[0] == '+' || s[0] == '-' {
        lemma_accumulate_chars(s.drop_first(), 0, s[0] == '-');
        assert forall|i: int| 0 <= i < s.len() implies is_digit(#[trigger] s[i]) || (i == 0 && (s[0]
            == '+' || s[0] == '-')) by {
            if i > 0 {
                assert(s[i] == s.drop_first()[i - 1]);
            }
        }
    } else {
        lemma_accumulate_chars(s, 0, false);
    }
}

proof fn lemma_accumulate_chars(ds: Seq<char>, acc: int, neg: bool)
    requires
        accumulate(ds, acc, neg) is Ok,
    ensures
        forall|i: int| 0 <= i < ds.len() ==> is_digit(#[trigger] ds[i]),
    decreases ds.len(),
{
    if ds.len() > 0 {
        let next = if neg {
            acc * 10 - digit_value(ds[0])
        } else {
            acc * 10 + digit_value(ds[0])
        };
        lemma_accumulate_chars(ds.drop_first(), next, neg);
        assert forall|i: int| 0 <= i < ds.len() implies is_digit(#[trigger] ds[i]) by {
            if i > 0 {
                assert(ds[i] == ds.drop_first()[i - 1]);
            }
        }
    }
}

/// The digit characters are the ASCII codes `'0'..'9'` and then `'A'..'F'`,
/// and a decimal digit's value is its code minus that of `'0'`.
pub proof fn law_digit_chars(d: nat, c: char)
    ensures
        d < 10 ==> digit_char(d) as u32 == 48 + d,
        10 <= d < 16 ==> digit_char(d) as u32 == 55 + d,
        is_digit(c) ==> digit_value(c) == (c as u32) - 48,
        is_digit(c) <==> 48 <= (c as u32) <= 57,
{
}

/// The value of upper-case hexadecimal digits, most significant first.
pub open spec fn hex_value(s: Seq<char>) -> nat
    decreases s.len(),
{
    if s.len() == 0 {
        0
    } else {
        let c = s.last() as u32;
        let d: nat = if c <= 57 { (c - 48) as nat } else { (c - 55) as nat };
        hex_value(s.drop_last()) * 16 + d
    }
}

/// Reading back the padded hexadecimal form of a number gives the number;
/// the form has at least `width` digits, each `0-9` or `A-F`.
pub proof fn law_hex_pad_value(n: nat, width: nat)
    ensures
        hex_value(hex_pad(n, width)) == n,
        hex_pad(n, width).len() >= width,
        forall|i: int| 0 <= i < hex_pad(n, width).len() ==> ({
            let c = #[trigger] hex_pad(n, width)[i] as u32;
            (48 <= c <= 57) || (65 <= c <= 70)
        }),
{
    lemma_hex_nat_value(n);
    let h = hex_nat(n);
    if h.len() < width {
        let z = Seq::new((width - h.len()) as nat, |i: int| '0');
        lemma_hex_value_zeros(z, h);
        assert(hex_pad(n, width) =~= z + h);
        assert forall|i: int| 0 <= i < hex_pad(n, width).len() implies ({
            let c = #[trigger] hex_pad(n, width)[i] as u32;
            (48 <= c <= 57) || (65 <= c <= 70)
        }) by {
            if i >= z.len() {
                assert(hex_pad(n, width)[i] == h[i - z.len()]);
            }
        }
    }
}

proof fn lemma_hex_nat_value(n: nat)
    ensures
        hex_value(hex_nat(n)) == n,
        forall|i: int| 0 <= i < hex_nat(n).len() ==> ({
            let c = #[trigger] hex_nat(n)[i] as u32;
            (48 <= c <= 57) || (65 <= c <= 70)
        }),
    decreases n,
{
    if n >= 16 {
        lemma_hex_nat_value(n / 16);
        let h = hex_nat(n);
        assert(h.drop_last() =~= hex_nat(n / 16));
        let d = n % 16;
        assert(h.last() == digit_char(d));
        assert(digit_char(d) as u32 == if d < 10 { 48 + d } else { 55 + d });
        assert(n == (n / 16) * 16 + d);
        assert forall|i: int| 0 <= i < h.len() implies ({
            let c = #[trigger] h[i] as u32;
            (48 <= c <= 57) || (65 <= c <= 70)
        }) by {
            if i < h.len() - 1 {
                assert(h[i] == hex_nat(n / 16)[i]);
            }
        }
    } else {
        assert(seq![digit_char(n)].drop_last() =~= Seq::<char>::empty());
        assert(digit_char(n) as u32 == if n < 10 { 48 + n } else { 55 + n });
        assert(hex_value(Seq::<char>::empty()) == 0);
    }
}

proof fn lemma_hex_value_zeros(z: Seq<char>, h: Seq<char>)
    requires
        forall|i: int| 0 <= i < z.len() ==> #[trigger] z[i] == '0',
    ensures
        hex_value(z + h) == hex_value(h),
    decreases z.len() + h.len(),
{
    if h.len() > 0 {
        assert((z + h).drop_last() =~= z + h.drop_last());
        assert((z + h).last() == h.last());
        lemma_hex_value_zeros(z, h.drop_last());
    } else if z.len() > 0 {
        assert(z + h =~= z);
        assert(z.drop_last() + h =~= z.drop_last());
        lemma_hex_value_zeros(z.drop_last(), h);
        assert(hex_value(z) == hex_value(z.drop_last()) * 16);
    } else {
        assert(z + h =~= h);
    }
}

} // verus!
