//! Character-level building blocks shared by the parsers and formatters:
//! Unicode whitespace and trimming, decimal numerals in both directions, and
//! conversions between `&str`, `String` and character vectors.

use vstd::prelude::*;

verus! {

// ── Whitespace and trimming ──────────────────────────────────────────────────

/// The Unicode `White_Space` property, the set of characters that
/// `char::is_whitespace` and `str::trim` treat as whitespace.
pub open spec fn is_white_space(c: char) -> bool {
    ||| ('\u{9}' <= c && c <= '\u{d}')
    ||| c == ' '
    ||| c == '\u{85}'
    ||| c == '\u{a0}'
    ||| c == '\u{1680}'
    ||| ('\u{2000}' <= c && c <= '\u{200a}')
    ||| c == '\u{2028}'
    ||| c == '\u{2029}'
    ||| c == '\u{202f}'
    ||| c == '\u{205f}'
    ||| c == '\u{3000}'
}

/// Executable form of [`is_white_space`].
pub fn white_space(c: char) -> (r: bool)
    ensures
        r == is_white_space(c),
{
    ('\u{9}' <= c && c <= '\u{d}') || c == ' ' || c == '\u{85}' || c == '\u{a0}' || c == '\u{1680}'
        || ('\u{2000}' <= c && c <= '\u{200a}') || c == '\u{2028}' || c == '\u{2029}' || c
        == '\u{202f}' || c == '\u{205f}' || c == '\u{3000}'
}

/// `s` without its leading whitespace.
pub open spec fn trim_start(s: Seq<char>) -> Seq<char>
    decreases s.len(),
{
    if s.len() > 0 && is_white_space(s[0]) {
        trim_start(s.drop_first())
    } else {
        s
    }
}

/// `s` without its trailing whitespace.
pub open spec fn trim_end(s: Seq<char>) -> Seq<char>
    decreases s.len(),
{
    if s.len() > 0 && is_white_space(s.last()) {
        trim_end(s.drop_last())
    } else {
        s
    }
}

/// `s` without leading and trailing whitespace, as `str::trim` gives it.
pub open spec fn trim(s: Seq<char>) -> Seq<char> {
    trim_end(trim_start(s))
}

/// A sequence that neither starts nor ends with whitespace is its own trim.
pub proof fn lemma_trim_unchanged(s: Seq<char>)
    requires
        s.len() > 0,
        !is_white_space(s[0]),
        !is_white_space(s.last()),
    ensures
        trim(s) == s,
{
}

/// `trim_start` drops a prefix: what is left is empty or starts with a
/// non-whitespace character.
pub proof fn lemma_trim_start_shape(s: Seq<char>) -> (a: int)
    ensures
        0 <= a <= s.len(),
        trim_start(s) == s.skip(a),
        trim_start(s).len() == 0 || !is_white_space(trim_start(s)[0]),
    decreases s.len(),
{
    if s.len() > 0 && is_white_space(s[0]) {
        let a = lemma_trim_start_shape(s.drop_first());
        assert(s.drop_first().skip(a) =~= s.skip(a + 1));
        a + 1
    } else {
        assert(s.skip(0) =~= s);
        0
    }
}

/// `trim_end` keeps a prefix: empty or ending with a non-whitespace
/// character.
pub proof fn lemma_trim_end_shape(s: Seq<char>) -> (b: int)
    ensures
        0 <= b <= s.len(),
        trim_end(s) == s.take(b),
        trim_end(s).len() == 0 || !is_white_space(trim_end(s).last()),
    decreases s.len(),
{
    if s.len() > 0 && is_white_space(s.last()) {
        let b = lemma_trim_end_shape(s.drop_last());
        assert(s.drop_last().take(b) =~= s.take(b));
        b
    } else {
        assert(s.take(s.len() as int) =~= s);
        s.len() as int
    }
}

/// The trim of `s` is a stretch of `s`, and trimming it again changes nothing.
pub proof fn lemma_trim_shape(s: Seq<char>) -> (r: (int, int))
    ensures
        0 <= r.0 <= r.1 <= s.len(),
        trim(s) == s.subrange(r.0, r.1),
        trim(trim(s)) == trim(s),
{
    let a = lemma_trim_start_shape(s);
    let t = trim_start(s);
    let b = lemma_trim_end_shape(t);
    assert(t.take(b) =~= s.subrange(a, a + b));
    let u = trim(s);
    if u.len() > 0 {
        assert(u[0] == t[0]);
        lemma_trim_unchanged(u);
    } else {
        assert(trim_start(u) == u);
        assert(trim_end(u) == u);
    }
    (a, a + b)
}

/// Index of the first character of `v[lo..hi]` that is not whitespace.
pub fn trim_start_index(v: &Vec<char>, lo: usize, hi: usize) -> (a: usize)
    requires
        lo <= hi <= v.len(),
    ensures
        lo <= a <= hi,
        v@.subrange(a as int, hi as int) == trim_start(v@.subrange(lo as int, hi as int)),
{
    let mut a: usize = lo;
    while a < hi && white_space(v[a])
        invariant
            lo <= a <= hi <= v.len(),
            trim_start(v@.subrange(a as int, hi as int)) == trim_start(
                v@.subrange(lo as int, hi as int),
            ),
        decreases hi - a,
    {
        assert(v@.subrange(a as int, hi as int).drop_first() =~= v@.subrange(
            a + 1,
            hi as int,
        ));
        a = a + 1;
    }
    a
}

/// One past the index of the last character of `v[lo..hi]` that is not
/// whitespace.
pub fn trim_end_index(v: &Vec<char>, lo: usize, hi: usize) -> (b: usize)
    requires
        lo <= hi <= v.len(),
    ensures
        lo <= b <= hi,
        v@.subrange(lo as int, b as int) == trim_end(v@.subrange(lo as int, hi as int)),
{
    let mut b: usize = hi;
    while b > lo && white_space(v[b - 1])
        invariant
            lo <= b <= hi <= v.len(),
            trim_end(v@.subrange(lo as int, b as int)) == trim_end(
                v@.subrange(lo as int, hi as int),
            ),
        decreases b - lo,
    {
        assert(v@.subrange(lo as int, b as int).drop_last() =~= v@.subrange(
            lo as int,
            b - 1,
        ));
        b = b - 1;
    }
    b
}

/// The bounds of the trimmed part of `v[lo..hi]`.
pub fn trim_range(v: &Vec<char>, lo: usize, hi: usize) -> (r: (usize, usize))
    requires
        lo <= hi <= v.len(),
    ensures
        lo <= r.0 <= r.1 <= hi,
        v@.subrange(r.0 as int, r.1 as int) == trim(v@.subrange(lo as int, hi as int)),
{
    let a = trim_start_index(v, lo, hi);
    let b = trim_end_index(v, a, hi);
    (a, b)
}

// ── Conversions ──────────────────────────────────────────────────────────────

/// The characters of a string slice, in order.
pub fn chars_of(s: &str) -> (v: Vec<char>)
    ensures
        v@ == s@,
{
    let mut v: Vec<char> = Vec::new();
    for c in it: s.chars()
        invariant
            it.seq() == s@,
            v@ == s@.take(it.index()),
    {
        v.push(c);
    }
    v
}

/// A copy of `v[lo..hi]`.
pub fn sub_vec(v: &Vec<char>, lo: usize, hi: usize) -> (r: Vec<char>)
    requires
        lo <= hi <= v.len(),
    ensures
        r@ == v@.subrange(lo as int, hi as int),
{
    let mut r: Vec<char> = Vec::new();
    let mut i: usize = lo;
    while i < hi
        invariant
            lo <= i <= hi <= v.len(),
            r@ == v@.subrange(lo as int, i as int),
        decreases hi - i,
    {
        r.push(v[i]);
        i = i + 1;
    }
    r
}

/// Appends the characters of `s` to `out`.
pub fn push_str(out: &mut Vec<char>, s: &str)
    ensures
        final(out)@ == old(out)@ + s@,
{
    let cs = chars_of(s);
    let mut i: usize = 0;
    while i < cs.len()
        invariant
            0 <= i <= cs.len(),
            cs@ == s@,
            out@ == old(out)@ + cs@.take(i as int),
        decreases cs.len() - i,
    {
        out.push(cs[i]);
        i = i + 1;
        assert(out@ =~= old(out)@ + cs@.take(i as int));
    }
    assert(cs@.take(cs.len() as int) =~= cs@);
}

/// Appends all of `src` to `out`.
pub fn push_chars(out: &mut Vec<char>, src: &Vec<char>)
    ensures
        final(out)@ == old(out)@ + src@,
{
    let mut i: usize = 0;
    while i < src.len()
        invariant
            0 <= i <= src.len(),
            out@ == old(out)@ + src@.take(i as int),
        decreases src.len() - i,
    {
        out.push(src[i]);
        i = i + 1;
        assert(out@ =~= old(out)@ + src@.take(i as int));
    }
    assert(src@.take(src.len() as int) =~= src@);
}

/// A string holding exactly the characters of `v` (std's
/// `FromIterator<&char> for String`, which appends each character in turn).
#[verifier::external_body]
pub(crate) fn string_from_chars(v: &Vec<char>) -> (s: String)
    ensures
        s@ == v@,
{
    v.iter().collect()
}

/// The result of `str::to_lowercase` on a string with the given characters:
/// each character replaced by its Unicode lowercase mapping, with the
/// context-dependent rule for a final capital sigma.
pub uninterp spec fn str_to_lowercase(s: Seq<char>) -> Seq<char>;

/// Every character is ASCII.
pub open spec fn is_ascii_text(s: Seq<char>) -> bool {
    forall|i: int| 0 <= i < s.len() ==> #[trigger] s[i] <= '\u{7f}'
}

/// The ASCII lowercase of a character: `A` to `Z` become `a` to `z`, and
/// every other character stays.
pub open spec fn ascii_lower_char(c: char) -> char {
    if 'A' <= c && c <= 'Z' {
        ((c as int) + 32) as char
    } else {
        c
    }
}

/// Each character in ASCII lowercase.
pub open spec fn ascii_lower(s: Seq<char>) -> Seq<char> {
    s.map_values(|c: char| ascii_lower_char(c))
}

/// Two characters with the same ASCII lowercase are whitespace alike.
proof fn lemma_lower_keeps_space(x: char, y: char)
    requires
        ascii_lower_char(x) == ascii_lower_char(y),
    ensures
        is_white_space(x) == is_white_space(y),
{
}

proof fn lemma_trim_start_same(a: Seq<char>, b: Seq<char>) -> (k: int)
    requires
        a.len() == b.len(),
        forall|i: int| 0 <= i < a.len() ==> is_white_space(#[trigger] a[i]) == is_white_space(b[i]),
    ensures
        0 <= k <= a.len(),
        trim_start(a) == a.skip(k),
        trim_start(b) == b.skip(k),
    decreases a.len(),
{
    if a.len() > 0 && is_white_space(a[0]) {
        assert(is_white_space(b[0]));
        assert forall|i: int| 0 <= i < a.drop_first().len() implies is_white_space(
            #[trigger] a.drop_first()[i],
        ) == is_white_space(b.drop_first()[i]) by {
            assert(a.drop_first()[i] == a[i + 1] && b.drop_first()[i] == b[i + 1]);
        }
        let k = lemma_trim_start_same(a.drop_first(), b.drop_first());
        assert(a.drop_first().skip(k) =~= a.skip(k + 1));
        assert(b.drop_first().skip(k) =~= b.skip(k + 1));
        k + 1
    } else {
        if a.len() > 0 {
            assert(!is_white_space(b[0]));
        }
        assert(a.skip(0) =~= a);
        assert(b.skip(0) =~= b);
        0
    }
}

proof fn lemma_trim_end_same(a: Seq<char>, b: Seq<char>) -> (k: int)
    requires
        a.len() == b.len(),
        forall|i: int| 0 <= i < a.len() ==> is_white_space(#[trigger] a[i]) == is_white_space(b[i]),
    ensures
        0 <= k <= a.len(),
        trim_end(a) == a.take(k),
        trim_end(b) == b.take(k),
    decreases a.len(),
{
    if a.len() > 0 && is_white_space(a.last()) {
        assert(is_white_space(b[b.len() - 1]));
        assert forall|i: int| 0 <= i < a.drop_last().len() implies is_white_space(
            #[trigger] a.drop_last()[i],
        ) == is_white_space(b.drop_last()[i]) by {
            assert(a.drop_last()[i] == a[i] && b.drop_last()[i] == b[i]);
        }
        let k = lemma_trim_end_same(a.drop_last(), b.drop_last());
        assert(a.drop_last().take(k) =~= a.take(k));
        assert(b.drop_last().take(k) =~= b.take(k));
        k
    } else {
        if a.len() > 0 {
            assert(!is_white_space(b[b.len() - 1]));
        }
        assert(a.take(a.len() as int) =~= a);
        assert(b.take(b.len() as int) =~= b);
        a.len() as int
    }
}

/// Text that differs only in the case of ASCII letters trims to text that
/// differs only so.
pub proof fn lemma_trim_lower(a: Seq<char>, b: Seq<char>)
    requires
        ascii_lower(a) == ascii_lower(b),
    ensures
        ascii_lower(trim(a)) == ascii_lower(trim(b)),
{
    assert(a.len() == ascii_lower(a).len() && b.len() == ascii_lower(b).len());
    assert forall|i: int| 0 <= i < a.len() implies is_white_space(#[trigger] a[i])
        == is_white_space(b[i]) by {
        assert(ascii_lower(a)[i] == ascii_lower_char(a[i]));
        assert(ascii_lower(b)[i] == ascii_lower_char(b[i]));
        assert(ascii_lower(a)[i] == ascii_lower(b)[i]);
        lemma_lower_keeps_space(a[i], b[i]);
    }
    let p = lemma_trim_start_same(a, b);
    let sa = trim_start(a);
    let sb = trim_start(b);
    assert forall|i: int| 0 <= i < sa.len() implies is_white_space(#[trigger] sa[i])
        == is_white_space(sb[i]) by {
        assert(sa[i] == a[p + i] && sb[i] == b[p + i]);
    }
    let q = lemma_trim_end_same(sa, sb);
    assert forall|i: int| 0 <= i < q implies #[trigger] ascii_lower(trim(a))[i] == ascii_lower(
        trim(b),
    )[i] by {
        assert(trim(a)[i] == a[p + i] && trim(b)[i] == b[p + i]);
        assert(ascii_lower(a)[p + i] == ascii_lower_char(a[p + i]));
        assert(ascii_lower(b)[p + i] == ascii_lower_char(b[p + i]));
        assert(ascii_lower(a)[p + i] == ascii_lower(b)[p + i]);
        assert(ascii_lower(trim(a))[i] == ascii_lower_char(trim(a)[i]));
        assert(ascii_lower(trim(b))[i] == ascii_lower_char(trim(b)[i]));
    }
    assert(trim(a).len() == q && trim(b).len() == q);
    assert(ascii_lower(trim(a)) =~= ascii_lower(trim(b)));
}

/// std's `str::to_lowercase`, whose result is named by [`str_to_lowercase`].
/// On ASCII text the Unicode lowercase mapping is the ASCII one, which std
/// documents as `A`–`Z` to `a`–`z` with every other character kept; what it
/// does to other characters is left to the name.
#[verifier::external_body]
pub(crate) fn to_lowercase(s: &str) -> (r: String)
    ensures
        r@ == str_to_lowercase(s@),
        is_ascii_text(s@) ==> r@ == ascii_lower(s@),
{
    s.to_lowercase()
}

// ── Decimal numerals ─────────────────────────────────────────────────────────

/// The ASCII digit for a value in `0..10`.
pub open spec fn digit_char(d: int) -> char {
    if d == 0 {
        '0'
    } else if d == 1 {
        '1'
    } else if d == 2 {
        '2'
    } else if d == 3 {
        '3'
    } else if d == 4 {
        '4'
    } else if d == 5 {
        '5'
    } else if d == 6 {
        '6'
    } else if d == 7 {
        '7'
    } else if d == 8 {
        '8'
    } else {
        '9'
    }
}

/// Whether `c` is an ASCII decimal digit.
pub open spec fn is_digit(c: char) -> bool {
    '0' <= c && c <= '9'
}

/// The value of an ASCII decimal digit.
pub open spec fn digit_value(c: char) -> int {
    c as int - '0' as int
}

/// The shortest decimal numeral of `n` (no sign, no leading zeros).
pub open spec fn decimal(n: nat) -> Seq<char>
    decreases n,
{
    if n < 10 {
        seq![digit_char(n as int)]
    } else {
        decimal(n / 10).push(digit_char((n % 10) as int))
    }
}

/// The decimal numeral of an integer, with a leading `-` when negative, as
/// `Display` writes integers.
pub open spec fn signed_decimal(i: int) -> Seq<char> {
    if i < 0 {
        seq!['-'] + decimal((-i) as nat)
    } else {
        decimal(i as nat)
    }
}

/// The value of a sequence of digits read as a decimal numeral.
pub open spec fn digits_value(s: Seq<char>) -> int
    decreases s.len(),
{
    if s.len() == 0 {
        0
    } else {
        digits_value(s.drop_last()) * 10 + digit_value(s.last())
    }
}

/// Every character of `s` is an ASCII digit.
pub open spec fn all_digits(s: Seq<char>) -> bool {
    forall|i: int| 0 <= i < s.len() ==> is_digit(#[trigger] s[i])
}

/// `s` without one leading `+`, if it has one.
pub open spec fn without_plus(s: Seq<char>) -> Seq<char> {
    if s.len() > 0 && s[0] == '+' {
        s.drop_first()
    } else {
        s
    }
}

/// What `u32::from_str` accepts: an optional `+`, then one or more ASCII
/// digits whose value fits in a `u32`.
pub open spec fn parse_u32_text(s: Seq<char>) -> Option<u32> {
    let d = without_plus(s);
    if d.len() > 0 && all_digits(d) && digits_value(d) <= u32::MAX {
        Some(digits_value(d) as u32)
    } else {
        None
    }
}

/// What `i64::from_str` accepts: an optional `+` or `-`, then one or more
/// ASCII digits whose signed value fits in an `i64`.
pub open spec fn parse_i64_text(s: Seq<char>) -> Option<i64> {
    if s.len() > 0 && s[0] == '-' {
        let d = s.drop_first();
        if d.len() > 0 && all_digits(d) && digits_value(d) <= i64::MAX + 1 {
            Some((-digits_value(d)) as i64)
        } else {
            None
        }
    } else {
        let d = without_plus(s);
        if d.len() > 0 && all_digits(d) && digits_value(d) <= i64::MAX {
            Some(digits_value(d) as i64)
        } else {
            None
        }
    }
}

/// The ASCII digit for `d`.
pub fn digit_to_char(d: u64) -> (c: char)
    requires
        d < 10,
    ensures
        c == digit_char(d as int),
{
    if d == 0 {
        '0'
    } else if d == 1 {
        '1'
    } else if d == 2 {
        '2'
    } else if d == 3 {
        '3'
    } else if d == 4 {
        '4'
    } else if d == 5 {
        '5'
    } else if d == 6 {
        '6'
    } else if d == 7 {
        '7'
    } else if d == 8 {
        '8'
    } else {
        '9'
    }
}

/// Appends the decimal numeral of `n`.
pub fn push_decimal(out: &mut Vec<char>, n: u128)
    ensures
        final(out)@ == old(out)@ + decimal(n as nat),
    decreases n,
{
    if n >= 10 {
        push_decimal(out, n / 10);
    }
    let ghost before = out@;
    out.push(digit_to_char((n % 10) as u64));
    proof {
        if n >= 10 {
            assert(out@ =~= old(out)@ + decimal(n as nat));
        } else {
            assert(out@ =~= old(out)@ + decimal(n as nat));
        }
    }
}

/// Appends the signed decimal numeral of `n`.
pub fn push_signed_decimal(out: &mut Vec<char>, n: i64)
    ensures
        final(out)@ == old(out)@ + signed_decimal(n as int),
{
    if n < 0 {
        out.push('-');
        let m: i128 = -(n as i128);
        push_decimal(out, m as u128);
        assert(out@ =~= old(out)@ + signed_decimal(n as int));
    } else {
        push_decimal(out, n as u128);
    }
}

/// The decimal numeral of `n` as a string.
pub fn decimal_string(n: u64) -> (s: String)
    ensures
        s@ == decimal(n as nat),
{
    let mut v: Vec<char> = Vec::new();
    push_decimal(&mut v, n as u128);
    assert(v@ =~= decimal(n as nat));
    string_from_chars(&v)
}

/// Digits are characters `0` to `9` with their values.
pub proof fn lemma_digit_char(d: int)
    requires
        0 <= d < 10,
    ensures
        is_digit(digit_char(d)),
        digit_value(digit_char(d)) == d,
{
}

/// A decimal numeral is a non-empty run of digits that reads back as its value.
pub proof fn lemma_decimal(n: nat)
    ensures
        decimal(n).len() > 0,
        all_digits(decimal(n)),
        digits_value(decimal(n)) == n,
    decreases n,
{
    if n < 10 {
        lemma_digit_char(n as int);
        assert(decimal(n).drop_last() =~= Seq::<char>::empty());
        assert(digits_value(Seq::<char>::empty()) == 0);
    } else {
        lemma_decimal(n / 10);
        lemma_digit_char((n % 10) as int);
        let s = decimal(n);
        assert(s.drop_last() =~= decimal(n / 10));
        assert((n / 10) * 10 + n % 10 == n) by (nonlinear_arith);
        assert forall|i: int| 0 <= i < s.len() implies is_digit(#[trigger] s[i]) by {
            if i < s.len() - 1 {
                assert(s[i] == decimal(n / 10)[i]);
            }
        }
    }
}

/// The value of a run of digits is never negative.
pub proof fn lemma_digits_value_nonneg(s: Seq<char>)
    requires
        all_digits(s),
    ensures
        digits_value(s) >= 0,
    decreases s.len(),
{
    if s.len() > 0 {
        assert(all_digits(s.drop_last())) by {
            assert forall|i: int| 0 <= i < s.drop_last().len() implies is_digit(
                #[trigger] s.drop_last()[i],
            ) by {
                assert(s.drop_last()[i] == s[i]);
            }
        }
        lemma_digits_value_nonneg(s.drop_last());
        assert(is_digit(s[s.len() - 1]));
    }
}

/// A decimal numeral is accepted by the `u32` reader when its value fits.
pub proof fn lemma_parse_u32_decimal(n: nat)
    requires
        n <= u32::MAX,
    ensures
        parse_u32_text(decimal(n)) == Some(n as u32),
{
    lemma_decimal(n);
    assert(is_digit(decimal(n)[0]));
}

/// A decimal numeral is accepted by the `i64` reader when its value fits.
pub proof fn lemma_parse_i64_decimal(n: nat)
    requires
        n <= i64::MAX,
    ensures
        parse_i64_text(decimal(n)) == Some(n as i64),
{
    lemma_decimal(n);
    assert(is_digit(decimal(n)[0]));
}

/// Reads `v[lo..hi]` as a run of digits: its value when every character is a
/// digit and the value is at most `limit`, `None` otherwise.
fn digits_at(v: &Vec<char>, lo: usize, hi: usize, limit: u64) -> (r: Option<u64>)
    requires
        lo <= hi <= v.len(),
    ensures
        r is Some <==> all_digits(v@.subrange(lo as int, hi as int)) && digits_value(
            v@.subrange(lo as int, hi as int),
        ) <= limit,
        r matches Some(x) ==> x == digits_value(v@.subrange(lo as int, hi as int)),
{
    let mut acc: u64 = 0;
    let mut over = false;
    let mut k: usize = lo;
    while k < hi
        invariant
            lo <= k <= hi <= v.len(),
            all_digits(v@.subrange(lo as int, k as int)),
            !over ==> acc == digits_value(v@.subrange(lo as int, k as int)) && acc <= limit,
            over ==> digits_value(v@.subrange(lo as int, k as int)) > limit,
        decreases hi - k,
    {
        let c = v[k];
        if !('0' <= c && c <= '9') {
            assert(v@.subrange(lo as int, hi as int)[k - lo] == c);
            return None;
        }
        let d: u64 = (c as u32 - '0' as u32) as u64;
        let ghost prev = v@.subrange(lo as int, k as int);
        let ghost next = v@.subrange(lo as int, k + 1);
        assert(next.drop_last() =~= prev);
        assert(next.last() == c);
        proof {
            lemma_digits_value_nonneg(prev);
        }
        if !over {
            let t: u128 = (acc as u128) * 10 + (d as u128);
            if t > limit as u128 {
                over = true;
            } else {
                acc = t as u64;
            }
        }
        k = k + 1;
        assert(all_digits(v@.subrange(lo as int, k as int))) by {
            assert forall|i: int| 0 <= i < next.len() implies is_digit(#[trigger] next[i]) by {
                if i < prev.len() {
                    assert(next[i] == prev[i]);
                }
            }
        }
    }
    if over {
        None
    } else {
        Some(acc)
    }
}

/// Reads `v[lo..hi]` as `u32::from_str` does.
pub fn parse_u32_at(v: &Vec<char>, lo: usize, hi: usize) -> (r: Option<u32>)
    requires
        lo <= hi <= v.len(),
    ensures
        r == parse_u32_text(v@.subrange(lo as int, hi as int)),
{
    let ghost s = v@.subrange(lo as int, hi as int);
    let mut start: usize = lo;
    if lo < hi && v[lo] == '+' {
        start = lo + 1;
        assert(s.drop_first() =~= v@.subrange(start as int, hi as int));
    }
    assert(lo < hi ==> s[0] == v@[lo as int]);
    assert(without_plus(s) =~= v@.subrange(start as int, hi as int));
    if start == hi {
        return None;
    }
    match digits_at(v, start, hi, 4294967295) {
        Some(n) => Some(n as u32),
        None => None,
    }
}

/// Reads `v[lo..hi]` as `i64::from_str` does.
pub fn parse_i64_at(v: &Vec<char>, lo: usize, hi: usize) -> (r: Option<i64>)
    requires
        lo <= hi <= v.len(),
    ensures
        r == parse_i64_text(v@.subrange(lo as int, hi as int)),
{
    let ghost s = v@.subrange(lo as int, hi as int);
    assert(lo < hi ==> s[0] == v@[lo as int]);
    if lo < hi && v[lo] == '-' {
        assert(s.drop_first() =~= v@.subrange(lo + 1, hi as int));
        if lo + 1 == hi {
            return None;
        }
        match digits_at(v, lo + 1, hi, 9223372036854775808) {
            Some(n) => {
                if n == 9223372036854775808 {
                    Some(i64::MIN)
                } else {
                    Some(-(n as i64))
                }
            },
            None => None,
        }
    } else {
        let mut start: usize = lo;
        if lo < hi && v[lo] == '+' {
            start = lo + 1;
            assert(s.drop_first() =~= v@.subrange(start as int, hi as int));
        }
        assert(lo < hi ==> s[0] == v@[lo as int]);
        assert(without_plus(s) =~= v@.subrange(start as int, hi as int));
        if start == hi {
            return None;
        }
        match digits_at(v, start, hi, 9223372036854775807) {
            Some(n) => Some(n as i64),
            None => None,
        }
    }
}

// ── Joining ──────────────────────────────────────────────────────────────────

/// The parts joined with `sep` between consecutive parts.
pub open spec fn join(parts: Seq<Seq<char>>, sep: Seq<char>) -> Seq<char>
    decreases parts.len(),
{
    if parts.len() == 0 {
        Seq::empty()
    } else if parts.len() == 1 {
        parts[0]
    } else {
        parts[0] + sep + join(parts.drop_first(), sep)
    }
}

/// Joining one more part adds the separator and the part.
pub proof fn lemma_join_push(parts: Seq<Seq<char>>, sep: Seq<char>, p: Seq<char>)
    requires
        parts.len() >= 1,
    ensures
        join(parts.push(p), sep) == join(parts, sep) + sep + p,
    decreases parts.len(),
{
    assert(parts.push(p)[0] == parts[0]);
    if parts.len() == 1 {
        assert(parts.push(p).drop_first() =~= seq![p]);
        assert(join(seq![p], sep) == p);
        assert(join(parts.push(p), sep) =~= join(parts, sep) + sep + p);
    } else {
        assert(parts.push(p).drop_first() =~= parts.drop_first().push(p));
        lemma_join_push(parts.drop_first(), sep, p);
        assert(join(parts.push(p), sep) =~= join(parts, sep) + sep + p);
    }
}

/// Appends the next part of a join: the separator first unless it is the
/// first part.
pub(crate) fn push_join_part(
    out: &mut Vec<char>,
    sep: &str,
    part: &Vec<char>,
    first: bool,
    Ghost(done): Ghost<Seq<Seq<char>>>,
)
    requires
        old(out)@ == join(done, sep@),
        first == (done.len() == 0),
    ensures
        final(out)@ == join(done.push(part@), sep@),
{
    if !first {
        push_str(out, sep);
        proof {
            lemma_join_push(done, sep@, part@);
        }
    } else {
        assert(done.push(part@) =~= seq![part@]);
    }
    push_chars(out, part);
}

} // verus!
