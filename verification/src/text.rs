//! Text utilities: characters of a `str`, and UTF-16 encoding.

use vstd::prelude::*;

verus! {

/// The characters of `s`, in order.
pub fn str_chars(s: &str) -> (r: Vec<char>)
    ensures
        r@ == s@,
{
    let mut out: Vec<char> = Vec::new();
    for c in it: s.chars()
        invariant
            out@ == it.seq().take(it.index() as int),
            it.seq() == s@,
    {
        out.push(c);
    }
    out
}

/// The UTF-16 code units of one character (a surrogate pair above U+FFFF).
pub open spec fn char_utf16(c: char) -> Seq<u16> {
    code_utf16(c as nat)
}

/// The UTF-16 encoding of the scalar value `v`.
pub open spec fn code_utf16(v: nat) -> Seq<u16> {
    if v < 0x10000 {
        seq![v as u16]
    } else {
        seq![(0xD800 + (v - 0x10000) / 0x400) as u16, (0xDC00 + (v - 0x10000) % 0x400) as u16]
    }
}

/// The UTF-16 encoding of a character sequence.
pub open spec fn utf16_of(s: Seq<char>) -> Seq<u16>
    decreases s.len(),
{
    if s.len() == 0 {
        seq![]
    } else {
        utf16_of(s.drop_last()) + char_utf16(s.last())
    }
}

/// Append the UTF-16 units of `c` to `out`.
pub fn push_utf16(out: &mut Vec<u16>, c: char)
    ensures
        final(out)@ == old(out)@ + char_utf16(c),
{
    let v = c as u32;
    if v < 0x10000 {
        out.push(v as u16);
        assert(final(out)@ == old(out)@ + char_utf16(c));
    } else {
        let w = v - 0x10000;
        out.push((0xD800 + w / 0x400) as u16);
        out.push((0xDC00 + w % 0x400) as u16);
        assert(final(out)@ == old(out)@ + char_utf16(c));
    }
}

/// The UTF-16 encoding of `s`.
pub fn encode_utf16(s: &Vec<char>) -> (r: Vec<u16>)
    ensures
        r@ == utf16_of(s@),
{
    let mut out: Vec<u16> = Vec::new();
    let mut i: usize = 0;
    while i < s.len()
        invariant
            i <= s@.len(),
            out@ == utf16_of(s@.subrange(0, i as int)),
        decreases s@.len() - i,
    {
        assert(s@.subrange(0, i + 1).drop_last() == s@.subrange(0, i as int));
        push_utf16(&mut out, s[i]);
        i = i + 1;
    }
    assert(s@.subrange(0, s@.len() as int) == s@);
    out
}

/// The UTF-16 encoding of `s`.
pub fn str_utf16(s: &str) -> (r: Vec<u16>)
    ensures
        r@ == utf16_of(s@),
{
    encode_utf16(&str_chars(s))
}

/// Whether two unit strings are equal.
pub fn units_eq(a: &Vec<u16>, b: &Vec<u16>) -> (r: bool)
    ensures
        r == (a@ == b@),
{
    if a.len() != b.len() {
        return false;
    }
    let mut i: usize = 0;
    while i < a.len()
        invariant
            i <= a@.len(),
            a@.len() == b@.len(),
            forall|k: int| 0 <= k < i ==> a@[k] == b@[k],
        decreases a@.len() - i,
    {
        if a[i] != b[i] {
            return false;
        }
        i = i + 1;
    }
    assert(a@ == b@);
    true
}

/// Lexicographic order on UTF-16 unit strings (a proper prefix is smaller).
pub open spec fn units_lt(a: Seq<u16>, b: Seq<u16>) -> bool
    decreases a.len(),
{
    if a.len() == 0 {
        b.len() > 0
    } else if b.len() == 0 {
        false
    } else if a[0] != b[0] {
        a[0] < b[0]
    } else {
        units_lt(a.drop_first(), b.drop_first())
    }
}

/// `units_lt` is irreflexive.
pub proof fn lemma_units_lt_irreflexive(a: Seq<u16>)
    ensures
        !units_lt(a, a),
    decreases a.len(),
{
    if a.len() > 0 {
        lemma_units_lt_irreflexive(a.drop_first());
    }
}

/// `units_lt` is transitive.
pub proof fn lemma_units_lt_transitive(a: Seq<u16>, b: Seq<u16>, c: Seq<u16>)
    requires
        units_lt(a, b),
        units_lt(b, c),
    ensures
        units_lt(a, c),
    decreases a.len(),
{
    if a.len() > 0 && b.len() > 0 && c.len() > 0 && a[0] == b[0] && b[0] == c[0] {
        lemma_units_lt_transitive(a.drop_first(), b.drop_first(), c.drop_first());
    }
}

/// `units_lt` is total.
pub proof fn lemma_units_lt_total(a: Seq<u16>, b: Seq<u16>)
    ensures
        units_lt(a, b) || units_lt(b, a) || a == b,
    decreases a.len(),
{
    if a.len() > 0 && b.len() > 0 && a[0] == b[0] {
        lemma_units_lt_total(a.drop_first(), b.drop_first());
        if a.drop_first() == b.drop_first() {
            assert(a == seq![a[0]] + a.drop_first());
            assert(b == seq![b[0]] + b.drop_first());
        }
    } else if a.len() == 0 && b.len() == 0 {
        assert(a == b);
    }
}

/// `a < b` in the lexicographic order of unit strings.
pub fn units_less(a: &Vec<u16>, b: &Vec<u16>) -> (r: bool)
    ensures
        r == units_lt(a@, b@),
{
    let mut i: usize = 0;
    assert(a@.skip(0) == a@ && b@.skip(0) == b@);
    while i < a.len() && i < b.len() && a[i] == b[i]
        invariant
            i <= a@.len(),
            i <= b@.len(),
            units_lt(a@, b@) == units_lt(a@.skip(i as int), b@.skip(i as int)),
        decreases a@.len() - i,
    {
        assert(a@.skip(i as int).drop_first() == a@.skip(i + 1));
        assert(b@.skip(i as int).drop_first() == b@.skip(i + 1));
        i = i + 1;
    }
    if i == a.len() {
        i < b.len()
    } else if i == b.len() {
        false
    } else {
        a[i] < b[i]
    }
}

/// Unicode `White_Space`, the property `char::is_whitespace` decides: tab
/// through carriage return, space, U+0085, U+00A0, U+1680, U+2000 through
/// U+200A, the line and paragraph separators, U+202F, U+205F and U+3000.
pub open spec fn unicode_whitespace(c: char) -> bool {
    let u = c as u32;
    ||| 9 <= u <= 13
    ||| u == 32
    ||| u == 0x85
    ||| u == 0xA0
    ||| u == 0x1680
    ||| 0x2000 <= u <= 0x200A
    ||| u == 0x2028
    ||| u == 0x2029
    ||| u == 0x202F
    ||| u == 0x205F
    ||| u == 0x3000
}

/// Unicode `Alphabetic`, as `char::is_alphabetic` decides it.
pub uninterp spec fn unicode_alphabetic(c: char) -> bool;

/// Unicode `Numeric`, as `char::is_numeric` decides it.
pub uninterp spec fn unicode_numeric(c: char) -> bool;

/// An ASCII letter.
pub open spec fn ascii_letter(c: char) -> bool {
    ('a' <= c && c <= 'z') || ('A' <= c && c <= 'Z')
}

/// An ASCII decimal digit.
pub open spec fn ascii_digit(c: char) -> bool {
    '0' <= c && c <= '9'
}

/// `Alphabetic`: within ASCII exactly the letters.
pub open spec fn alphabetic(c: char) -> bool {
    if (c as u32) < 128 {
        ascii_letter(c)
    } else {
        unicode_alphabetic(c)
    }
}

/// `Alphabetic` or `Numeric`: within ASCII exactly the letters and digits.
pub open spec fn alphanumeric(c: char) -> bool {
    if (c as u32) < 128 {
        ascii_letter(c) || ascii_digit(c)
    } else {
        unicode_alphabetic(c) || unicode_numeric(c)
    }
}

/// Whether `c` is Unicode white space (what `char::is_whitespace` decides).
pub fn is_whitespace(c: char) -> (r: bool)
    ensures
        r == unicode_whitespace(c),
{
    let u = c as u32;
    (9 <= u && u <= 13) || u == 32 || u == 0x85 || u == 0xA0 || u == 0x1680 || (0x2000 <= u && u <= 0x200A)
        || u == 0x2028 || u == 0x2029 || u == 0x202F || u == 0x205F || u == 0x3000
}

/// `char::is_alphabetic`: the Unicode `Alphabetic` property, which within
/// ASCII holds of the letters alone.
#[verifier::external_body]
pub(crate) fn is_alphabetic(c: char) -> (r: bool)
    ensures
        r == alphabetic(c),
        (c as u32) >= 128 ==> r == unicode_alphabetic(c),
{
    c.is_alphabetic()
}

/// `char::is_alphanumeric`: Unicode `Alphabetic` or `Numeric` (the
/// documentation defines it as `is_alphabetic() || is_numeric()`), which
/// within ASCII holds of the letters and digits alone.
#[verifier::external_body]
pub(crate) fn is_alphanumeric(c: char) -> (r: bool)
    ensures
        r == alphanumeric(c),
        (c as u32) >= 128 ==> r == (unicode_alphabetic(c) || unicode_numeric(c)),
{
    c.is_alphanumeric()
}

/// `String::push`: appends one character.
#[verifier::external_body]
pub(crate) fn string_push(s: &mut String, c: char)
    ensures
        final(s)@ == old(s)@.push(c),
{
    s.push(c);
}

/// The text decoded from UTF-16 units: a high surrogate followed by a low
/// one is one supplementary character, an unpaired surrogate becomes U+FFFD,
/// and any other unit is the character of that value.
pub open spec fn utf16_lossy(units: Seq<u16>) -> Seq<char>
    decreases units.len(),
{
    if units.len() == 0 {
        Seq::empty()
    } else {
        let u = units[0];
        if 0xD800 <= u < 0xDC00 && units.len() >= 2 && 0xDC00 <= units[1] < 0xE000 {
            seq![(0x10000 + (u - 0xD800) * 0x400 + (units[1] - 0xDC00)) as char] + utf16_lossy(
                units.subrange(2, units.len() as int),
            )
        } else if 0xD800 <= u < 0xE000 {
            seq!['\u{FFFD}'] + utf16_lossy(units.drop_first())
        } else {
            seq![u as char] + utf16_lossy(units.drop_first())
        }
    }
}

/// `String::from_utf16_lossy`.
#[verifier::external_body]
pub(crate) fn string_from_utf16_lossy(units: &Vec<u16>) -> (r: String)
    ensures
        r@ == utf16_lossy(units@),
{
    String::from_utf16_lossy(units)
}

/// A `String` holding the characters of `s`.
pub fn string_of(s: &str) -> (r: String)
    ensures
        r@ == s@,
{
    let mut out = String::new();
    let cs = str_chars(s);
    let mut i: usize = 0;
    while i < cs.len()
        invariant
            i <= cs@.len(),
            cs@ == s@,
            out@ == cs@.subrange(0, i as int),
        decreases cs@.len() - i,
    {
        string_push(&mut out, cs[i]);
        assert(cs@.subrange(0, i + 1) == cs@.subrange(0, i as int).push(cs@[i as int]));
        i = i + 1;
    }
    assert(cs@.subrange(0, cs@.len() as int) == cs@);
    out
}

/// A `String` holding the characters of `s`.
pub fn string_from_chars(s: &Vec<char>) -> (r: String)
    ensures
        r@ == s@,
{
    let mut out = String::new();
    let mut i: usize = 0;
    while i < s.len()
        invariant
            i <= s@.len(),
            out@ == s@.subrange(0, i as int),
        decreases s@.len() - i,
    {
        string_push(&mut out, s[i]);
        assert(s@.subrange(0, i + 1) == s@.subrange(0, i as int).push(s@[i as int]));
        i = i + 1;
    }
    assert(s@.subrange(0, s@.len() as int) == s@);
    out
}

/// `char::from_u32`: the character with scalar value `cp`, or `None` when
/// `cp` is a surrogate or above U+10FFFF.
#[verifier::external_body]
pub(crate) fn char_from_u32(cp: u32) -> (r: Option<char>)
    ensures
        r is Some <==> (cp < 0xD800 || (0xE000 <= cp && cp <= 0x10FFFF)),
        r matches Some(c) ==> c as u32 == cp && c as nat == cp as nat,
{
    std::char::from_u32(cp)
}

/// A copy of a unit string.
pub fn clone_units(v: &Vec<u16>) -> (r: Vec<u16>)
    ensures
        r@ == v@,
{
    let r = v.clone();
    assert(r@ =~= v@);
    r
}

/// Whether a string equals a literal.
pub fn str_is(s: &String, lit: &str) -> (r: bool)
    ensures
        r == (s@ == lit@),
{
    let a = s.as_str();
    let n = a.unicode_len();
    if n != lit.unicode_len() {
        return false;
    }
    let mut i: usize = 0;
    while i < n
        invariant
            i <= n,
            n == a@.len(),
            n == lit@.len(),
            a@ == s@,
            forall|k: int| 0 <= k < i ==> a@[k] == lit@[k],
        decreases n - i,
    {
        if a.get_char(i) != lit.get_char(i) {
            return false;
        }
        i = i + 1;
    }
    assert(a@ =~= lit@);
    true
}

/// The decimal digits of `n`.
pub open spec fn decimal(n: nat) -> Seq<char>
    decreases n,
{
    if n < 10 {
        seq![(48 + n) as char]
    } else {
        decimal(n / 10) + seq![(48 + n % 10) as char]
    }
}

/// Append the decimal digits of `n` to `out`.
pub fn push_decimal(out: &mut Vec<char>, n: u32)
    ensures
        final(out)@ == old(out)@ + decimal(n as nat),
    decreases n,
{
    if n >= 10 {
        push_decimal(out, n / 10);
    }
    let d = (n % 10) as u8;
    out.push((48u8 + d) as char);
    assert(final(out)@ =~= old(out)@ + decimal(n as nat));
}

/// `parts` joined with `.`.
pub open spec fn dot_joined(parts: Seq<String>) -> Seq<char>
    decreases parts.len(),
{
    if parts.len() == 0 {
        seq![]
    } else if parts.len() == 1 {
        parts[0]@
    } else {
        dot_joined(parts.drop_last()) + seq!['.'] + parts.last()@
    }
}

/// `parts` joined with `.` (`[T]::join`).
pub fn join_dot(parts: &Vec<String>) -> (r: String)
    ensures
        r@ == dot_joined(parts@),
{
    let mut out: Vec<char> = Vec::new();
    let mut i: usize = 0;
    while i < parts.len()
        invariant
            i <= parts@.len(),
            out@ == dot_joined(parts@.subrange(0, i as int)),
        decreases parts@.len() - i,
    {
        let ghost before = out@;
        if i > 0 {
            out.push('.');
        }
        let cs = str_chars(parts[i].as_str());
        let mut k: usize = 0;
        while k < cs.len()
            invariant
                k <= cs@.len(),
                out@ == (if i > 0 { before + seq!['.'] } else { before }) + cs@.subrange(0, k as int),
            decreases cs@.len() - k,
        {
            out.push(cs[k]);
            assert(cs@.subrange(0, k + 1) == cs@.subrange(0, k as int).push(cs@[k as int]));
            k = k + 1;
        }
        assert(cs@.subrange(0, cs@.len() as int) == cs@);
        assert(parts@.subrange(0, i + 1).drop_last() == parts@.subrange(0, i as int));
        i = i + 1;
    }
    assert(parts@.subrange(0, parts@.len() as int) == parts@);
    string_from_chars(&out)
}

/// Append the decimal digits of `n` to `out`.
pub fn push_decimal_usize(out: &mut Vec<char>, n: usize)
    ensures
        final(out)@ == old(out)@ + decimal(n as nat),
    decreases n,
{
    if n >= 10 {
        push_decimal_usize(out, n / 10);
    }
    let d = (n % 10) as u8;
    out.push((48u8 + d) as char);
    assert(final(out)@ =~= old(out)@ + decimal(n as nat));
}

/// Append the characters of `s` to `out`.
pub fn push_chars(out: &mut Vec<char>, s: &str)
    ensures
        final(out)@ == old(out)@ + s@,
{
    let cs = str_chars(s);
    let ghost before = out@;
    let mut i: usize = 0;
    while i < cs.len()
        invariant
            i <= cs@.len(),
            out@ == before + cs@.subrange(0, i as int),
        decreases cs@.len() - i,
    {
        out.push(cs[i]);
        i = i + 1;
        assert(out@ =~= before + cs@.subrange(0, i as int));
    }
    assert(cs@.subrange(0, cs@.len() as int) =~= cs@);
}

/// `a` + `b` + `c`.
pub fn concat3(a: &str, b: &str, c: &str) -> (r: String)
    ensures
        r@ == a@ + b@ + c@,
{
    let mut out: Vec<char> = Vec::new();
    push_chars(&mut out, a);
    push_chars(&mut out, b);
    push_chars(&mut out, c);
    assert(out@ =~= a@ + b@ + c@);
    string_from_chars(&out)
}

} // verus!
