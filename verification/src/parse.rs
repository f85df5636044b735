//! The dice-expression grammar: its meaning as spec functions over character
//! sequences, and the executable parser proved to follow it.
//!
//! ```text
//! expression  = [modifier] term { ('+' | '-') term }
//! modifier    = 'adv' | 'dis'
//! term        = dice-group | integer
//! dice-group  = [count] 'd' sides [keep]
//! keep        = 'kh' count | 'kl' count
//! ```

use vstd::prelude::*;

use crate::expr::{
    DiceExpr, DiceExprView, DiceGroup, Keep, Modifier, ParseError, ParseFailure,
    group_well_formed,
};
use crate::text::{
    all_digits, ascii_lower, chars_of, lemma_trim_lower, is_ascii_text, is_digit, lemma_trim_shape, parse_i64_at, parse_i64_text, parse_u32_at, parse_u32_text, str_to_lowercase,
    string_from_chars, sub_vec, to_lowercase, trim, trim_range, trim_start, trim_start_index,
};

verus! {

// ── Splitting on signs ───────────────────────────────────────────────────────

/// The characters that separate terms.
pub open spec fn is_sep(c: char) -> bool {
    c == '+' || c == '-'
}

/// Index of the first separator in `s`, or `s.len()` when there is none.
pub open spec fn sep_index(s: Seq<char>) -> nat
    decreases s.len(),
{
    if s.len() == 0 {
        0
    } else if is_sep(s[0]) {
        0
    } else {
        1 + sep_index(s.drop_first())
    }
}

/// `sep_index` never points past the end.
pub proof fn lemma_sep_index_bound(s: Seq<char>)
    ensures
        sep_index(s) <= s.len(),
        sep_index(s) < s.len() ==> is_sep(s[sep_index(s) as int]),
        forall|k: int| 0 <= k < sep_index(s) ==> !is_sep(#[trigger] s[k]),
    decreases s.len(),
{
    if s.len() > 0 && !is_sep(s[0]) {
        lemma_sep_index_bound(s.drop_first());
        assert forall|k: int| 0 <= k < sep_index(s) implies !is_sep(#[trigger] s[k]) by {
            if k > 0 {
                assert(s[k] == s.drop_first()[k - 1]);
            }
        }
    }
}

/// `sep_index` is the first position holding a separator.
pub proof fn lemma_sep_index_at(s: Seq<char>, j: int)
    requires
        0 <= j <= s.len(),
        forall|k: int| 0 <= k < j ==> !is_sep(#[trigger] s[k]),
        j < s.len() ==> is_sep(s[j]),
    ensures
        sep_index(s) == j,
    decreases j,
{
    if j > 0 {
        assert(!is_sep(s[0]));
        assert forall|k: int| 0 <= k < j - 1 implies !is_sep(#[trigger] s.drop_first()[k]) by {
            assert(s.drop_first()[k] == s[k + 1]);
        }
        lemma_sep_index_at(s.drop_first(), j - 1);
    }
}

/// The entry for one term: nothing when the trimmed term is empty.
pub open spec fn token_entry(sign: i64, t: Seq<char>) -> Seq<(i64, Seq<char>)> {
    if t.len() == 0 {
        Seq::empty()
    } else {
        seq![(sign, t)]
    }
}

/// The non-empty trimmed terms of `s` between `+` and `-`, each with the
/// sign of the separator before it (`sign` for the first).
///
/// `"2d10 + 1d4 - 3"` gives `[(1, "2d10"), (1, "1d4"), (-1, "3")]`.
pub open spec fn signed_tokens(s: Seq<char>, sign: i64) -> Seq<(i64, Seq<char>)>
    decreases s.len(),
{
    let i = sep_index(s);
    if i < s.len() {
        token_entry(sign, trim(s.take(i as int))) + signed_tokens(
            s.skip(i + 1 as int),
            if s[i as int] == '-' {
                -1i64
            } else {
                1i64
            },
        )
    } else {
        token_entry(sign, trim(s))
    }
}

/// Every term `signed_tokens` gives is non-empty, trimmed and free of `+` and
/// `-`, and every sign is `1` or `-1` when the first is.
pub proof fn law_signed_tokens_shape(s: Seq<char>, sign: i64)
    requires
        sign == 1 || sign == -1,
    ensures
        forall|k: int|
            0 <= k < signed_tokens(s, sign).len() ==> {
                let (g, t) = #[trigger] signed_tokens(s, sign)[k];
                &&& g == 1 || g == -1
                &&& t.len() > 0
                &&& trim(t) == t
                &&& forall|j: int| 0 <= j < t.len() ==> !is_sep(#[trigger] t[j])
            },
    decreases s.len(),
{
    let i = sep_index(s);
    lemma_sep_index_bound(s);
    let head = if i < s.len() {
        s.take(i as int)
    } else {
        s
    };
    assert forall|j: int| 0 <= j < head.len() implies !is_sep(#[trigger] head[j]) by {
        assert(head[j] == s[j]);
    }
    let r = lemma_trim_shape(head);
    let t = trim(head);
    assert forall|j: int| 0 <= j < t.len() implies !is_sep(#[trigger] t[j]) by {
        assert(t[j] == head[r.0 + j]);
    }
    if i < s.len() {
        let next: i64 = if s[i as int] == '-' {
            -1i64
        } else {
            1i64
        };
        law_signed_tokens_shape(s.skip(i + 1 as int), next);
        let first = token_entry(sign, t);
        let rest = signed_tokens(s.skip(i + 1 as int), next);
        assert(signed_tokens(s, sign) == first + rest);
        assert forall|k: int| 0 <= k < (first + rest).len() implies {
            let (g, u) = #[trigger] (first + rest)[k];
            &&& g == 1 || g == -1
            &&& u.len() > 0
            &&& trim(u) == u
            &&& forall|j: int| 0 <= j < u.len() ==> !is_sep(#[trigger] u[j])
        } by {
            if k >= first.len() {
                assert((first + rest)[k] == rest[k - first.len()]);
            }
        }
    }
}

/// The sign and text of each token given by index range into `chars`.
pub open spec fn tokens_view(chars: Seq<char>, toks: Seq<(i64, usize, usize)>) -> Seq<
    (i64, Seq<char>),
> {
    toks.map_values(|t: (i64, usize, usize)| (t.0, chars.subrange(t.1 as int, t.2 as int)))
}

/// Splits `v[lo..hi]` into signed, trimmed, non-empty terms on `+`/`-`.
fn split_signed_tokens(v: &Vec<char>, lo: usize, hi: usize) -> (r: Vec<(i64, usize, usize)>)
    requires
        lo <= hi <= v.len(),
    ensures
        tokens_view(v@, r@) == signed_tokens(v@.subrange(lo as int, hi as int), 1),
        forall|k: int| 0 <= k < r.len() ==> lo <= (#[trigger] r@[k]).1 <= r@[k].2 <= hi,
{
    let mut out: Vec<(i64, usize, usize)> = Vec::new();
    let mut sign: i64 = 1;
    let mut start: usize = lo;
    let mut i: usize = lo;
    while i < hi
        invariant
            lo <= start <= i <= hi <= v.len(),
            forall|k: int| start <= k < i ==> !is_sep(#[trigger] v@[k]),
            tokens_view(v@, out@) + signed_tokens(v@.subrange(start as int, hi as int), sign)
                == signed_tokens(v@.subrange(lo as int, hi as int), 1),
            forall|k: int| 0 <= k < out.len() ==> lo <= (#[trigger] out@[k]).1 <= out@[k].2 <= hi,
        decreases hi - i,
    {
        let c = v[i];
        if c == '+' || c == '-' {
            let ghost s = v@.subrange(start as int, hi as int);
            proof {
                assert forall|k: int| 0 <= k < i - start implies !is_sep(#[trigger] s[k]) by {
                    assert(s[k] == v@[start + k]);
                }
                lemma_sep_index_at(s, i - start);
                assert(s.take(i - start) =~= v@.subrange(start as int, i as int));
                assert(s.skip(i - start + 1) =~= v@.subrange(i + 1, hi as int));
            }
            let (a, b) = trim_range(v, start, i);
            let ghost old_out = out@;
            if a < b {
                out.push((sign, a, b));
            }
            proof {
                let e = token_entry(sign, trim(v@.subrange(start as int, i as int)));
                assert(tokens_view(v@, out@) =~= tokens_view(v@, old_out) + e);
                assert(tokens_view(v@, out@) + signed_tokens(
                    v@.subrange(i + 1, hi as int),
                    if c == '-' {
                        -1i64
                    } else {
                        1i64
                    },
                ) =~= tokens_view(v@, old_out) + signed_tokens(s, sign));
            }
            sign = if c == '-' {
                -1
            } else {
                1
            };
            start = i + 1;
        }
        i = i + 1;
    }
    let ghost s = v@.subrange(start as int, hi as int);
    proof {
        assert forall|k: int| 0 <= k < hi - start implies !is_sep(#[trigger] s[k]) by {
            assert(s[k] == v@[start + k]);
        }
        lemma_sep_index_at(s, hi - start);
    }
    let (a, b) = trim_range(v, start, hi);
    let ghost old_out = out@;
    if a < b {
        out.push((sign, a, b));
    }
    assert(tokens_view(v@, out@) =~= tokens_view(v@, old_out) + token_entry(sign, trim(s)));
    out
}

// ── Dice terms ───────────────────────────────────────────────────────────────

/// Index of the first occurrence of the two characters `a`, `b` in `t`.
pub open spec fn pair_index(t: Seq<char>, a: char, b: char) -> Option<nat>
    decreases t.len(),
{
    if t.len() < 2 {
        None
    } else if t[0] == a && t[1] == b {
        Some(0)
    } else {
        match pair_index(t.drop_first(), a, b) {
            Some(p) => Some(p + 1),
            None => None,
        }
    }
}

/// Index of the first occurrence of `c` in `t`.
pub open spec fn char_index(t: Seq<char>, c: char) -> Option<nat>
    decreases t.len(),
{
    if t.len() == 0 {
        None
    } else if t[0] == c {
        Some(0)
    } else {
        match char_index(t.drop_first(), c) {
            Some(p) => Some(p + 1),
            None => None,
        }
    }
}

/// The message for a dice count of zero.
pub open spec fn zero_count_message() -> Seq<char> {
    "count must be at least 1"@
}

/// The message for a side count of zero.
pub open spec fn zero_sides_message() -> Seq<char> {
    "sides must be at least 1"@
}

/// The dice part of a term and its keep rule: the text before the first `kh`
/// (else the first `kl`) and the count after it.
pub open spec fn keep_split(t: Seq<char>) -> Result<(Seq<char>, Keep), ParseFailure> {
    match pair_index(t, 'k', 'h') {
        Some(p) => match parse_u32_text(t.skip(p + 2int)) {
            Some(n) => Ok((t.take(p as int), Keep::Highest(n))),
            None => Err(ParseFailure::InvalidSides(t.skip(p + 2int))),
        },
        None => match pair_index(t, 'k', 'l') {
            Some(p) => match parse_u32_text(t.skip(p + 2int)) {
                Some(n) => Ok((t.take(p as int), Keep::Lowest(n))),
                None => Err(ParseFailure::InvalidSides(t.skip(p + 2int))),
            },
            None => Ok((t, Keep::All)),
        },
    }
}

/// The group written by `[count] 'd' sides` with the given keep rule.
pub open spec fn dice_part(d: Seq<char>, keep: Keep) -> Result<DiceGroup, ParseFailure> {
    match char_index(d, 'd') {
        None => Err(ParseFailure::InvalidToken(d)),
        Some(p) => {
            let count_text = d.take(p as int);
            let sides_text = d.skip(p + 1int);
            let count: Result<u32, ParseFailure> = if count_text.len() == 0 {
                Ok(1u32)
            } else {
                match parse_u32_text(count_text) {
                    Some(c) => Ok(c),
                    None => Err(ParseFailure::InvalidDiceCount(count_text)),
                }
            };
            match count {
                Err(e) => Err(e),
                Ok(c) => if c == 0 {
                    Err(ParseFailure::InvalidDiceCount(zero_count_message()))
                } else {
                    match parse_u32_text(sides_text) {
                        None => Err(ParseFailure::InvalidSides(sides_text)),
                        Some(n) => if n == 0 {
                            Err(ParseFailure::InvalidSides(zero_sides_message()))
                        } else {
                            Ok(DiceGroup { count: c, sides: n, keep })
                        },
                    }
                },
            }
        },
    }
}

/// The group a dice term denotes, or why it denotes none.
pub open spec fn dice_term(t: Seq<char>) -> Result<DiceGroup, ParseFailure> {
    match keep_split(t) {
        Err(e) => Err(e),
        Ok((d, keep)) => dice_part(d, keep),
    }
}

/// The value of a group result.
pub open spec fn group_result(r: Result<DiceGroup, ParseError>) -> Result<DiceGroup, ParseFailure> {
    match r {
        Ok(g) => Ok(g),
        Err(e) => Err(e@),
    }
}

/// The position of the first `a` `b` pair in `v[lo..hi]`.
pub(crate) fn find_pair(v: &Vec<char>, lo: usize, hi: usize, a: char, b: char) -> (r: Option<usize>)
    requires
        lo <= hi <= v.len(),
    ensures
        match r {
            Some(p) => lo <= p && p + 2 <= hi && pair_index(v@.subrange(lo as int, hi as int), a, b)
                == Some((p - lo) as nat),
            None => pair_index(v@.subrange(lo as int, hi as int), a, b) is None,
        },
{
    let mut k: usize = lo;
    while hi - k >= 2
        invariant
            lo <= k <= hi <= v.len(),
            pair_index(v@.subrange(lo as int, hi as int), a, b) == match pair_index(
                v@.subrange(k as int, hi as int),
                a,
                b,
            ) {
                Some(p) => Some(p + (k - lo) as nat),
                None => None,
            },
        decreases hi - k,
    {
        let ghost s = v@.subrange(k as int, hi as int);
        assert(s[0] == v@[k as int] && s[1] == v@[k + 1]);
        if v[k] == a && v[k + 1] == b {
            return Some(k);
        }
        assert(s.drop_first() =~= v@.subrange(k + 1, hi as int));
        k = k + 1;
    }
    None
}

/// The position of the first `c` in `v[lo..hi]`.
fn find_char(v: &Vec<char>, lo: usize, hi: usize, c: char) -> (r: Option<usize>)
    requires
        lo <= hi <= v.len(),
    ensures
        match r {
            Some(p) => lo <= p < hi && char_index(v@.subrange(lo as int, hi as int), c) == Some(
                (p - lo) as nat,
            ),
            None => char_index(v@.subrange(lo as int, hi as int), c) is None,
        },
{
    let mut k: usize = lo;
    while k < hi
        invariant
            lo <= k <= hi <= v.len(),
            char_index(v@.subrange(lo as int, hi as int), c) == match char_index(
                v@.subrange(k as int, hi as int),
                c,
            ) {
                Some(p) => Some(p + (k - lo) as nat),
                None => None,
            },
        decreases hi - k,
    {
        let ghost s = v@.subrange(k as int, hi as int);
        assert(s[0] == v@[k as int]);
        if v[k] == c {
            return Some(k);
        }
        assert(s.drop_first() =~= v@.subrange(k + 1, hi as int));
        k = k + 1;
    }
    None
}

/// A string of the characters `v[lo..hi]`.
pub(crate) fn text_of(v: &Vec<char>, lo: usize, hi: usize) -> (s: String)
    requires
        lo <= hi <= v.len(),
    ensures
        s@ == v@.subrange(lo as int, hi as int),
{
    string_from_chars(&sub_vec(v, lo, hi))
}

/// Reads the keep suffix of the term `v[lo..hi]`.
fn parse_keep(v: &Vec<char>, lo: usize, hi: usize) -> (r: Result<(usize, Keep), ParseError>)
    requires
        lo <= hi <= v.len(),
    ensures
        match r {
            Ok((e, k)) => lo <= e <= hi && keep_split(v@.subrange(lo as int, hi as int)) == Ok::<
                (Seq<char>, Keep),
                ParseFailure,
            >((v@.subrange(lo as int, e as int), k)),
            Err(err) => keep_split(v@.subrange(lo as int, hi as int)) == Err::<
                (Seq<char>, Keep),
                ParseFailure,
            >(err@),
        },
{
    let ghost t = v@.subrange(lo as int, hi as int);
    match find_pair(v, lo, hi, 'k', 'h') {
        Some(p) => {
            assert(t.skip(p - lo + 2) =~= v@.subrange(p + 2, hi as int));
            assert(t.take(p - lo) =~= v@.subrange(lo as int, p as int));
            match parse_u32_at(v, p + 2, hi) {
                Some(n) => Ok((p, Keep::Highest(n))),
                None => Err(ParseError::InvalidSides(text_of(v, p + 2, hi))),
            }
        },
        None => match find_pair(v, lo, hi, 'k', 'l') {
            Some(p) => {
                assert(t.skip(p - lo + 2) =~= v@.subrange(p + 2, hi as int));
                assert(t.take(p - lo) =~= v@.subrange(lo as int, p as int));
                match parse_u32_at(v, p + 2, hi) {
                    Some(n) => Ok((p, Keep::Lowest(n))),
                    None => Err(ParseError::InvalidSides(text_of(v, p + 2, hi))),
                }
            },
            None => Ok((hi, Keep::All)),
        },
    }
}

/// Parses the dice term `v[lo..hi]`.
fn parse_dice_token(v: &Vec<char>, lo: usize, hi: usize) -> (r: Result<DiceGroup, ParseError>)
    requires
        lo <= hi <= v.len(),
    ensures
        group_result(r) == dice_term(v@.subrange(lo as int, hi as int)),
{
    let (end, keep) = match parse_keep(v, lo, hi) {
        Ok(x) => x,
        Err(e) => return Err(e),
    };
    let ghost d = v@.subrange(lo as int, end as int);
    let dpos = match find_char(v, lo, end, 'd') {
        Some(p) => p,
        None => return Err(ParseError::InvalidToken(text_of(v, lo, end))),
    };
    assert(d.take(dpos - lo) =~= v@.subrange(lo as int, dpos as int));
    assert(d.skip(dpos - lo + 1) =~= v@.subrange(dpos + 1, end as int));
    let count: u32 = if dpos == lo {
        1
    } else {
        match parse_u32_at(v, lo, dpos) {
            Some(c) => c,
            None => return Err(ParseError::InvalidDiceCount(text_of(v, lo, dpos))),
        }
    };
    if count == 0 {
        return Err(ParseError::InvalidDiceCount("count must be at least 1".to_string()));
    }
    let sides: u32 = match parse_u32_at(v, dpos + 1, end) {
        Some(n) => n,
        None => return Err(ParseError::InvalidSides(text_of(v, dpos + 1, end))),
    };
    if sides == 0 {
        return Err(ParseError::InvalidSides("sides must be at least 1".to_string()));
    }
    Ok(DiceGroup { count, sides, keep })
}

// ── Whole expressions ────────────────────────────────────────────────────────

/// What parsing a normalized (trimmed, lowercased) expression yields.
pub enum ParseOutcome {
    /// The expression.
    Parsed(DiceExprView),
    /// The error the parser reports.
    Failed(ParseFailure),
    /// The running sum of the flat terms leaves the `i64` range, where the
    /// parser would overflow.
    BonusOverflow,
}

/// Folds the signed terms left to right into dice groups and a flat bonus,
/// stopping at the first failure.
pub open spec fn fold_terms(
    toks: Seq<(i64, Seq<char>)>,
    m: Modifier,
    groups: Seq<DiceGroup>,
    bonus: int,
) -> ParseOutcome
    decreases toks.len(),
{
    if toks.len() == 0 {
        if groups.len() == 0 {
            ParseOutcome::Failed(ParseFailure::NoDiceFound)
        } else {
            ParseOutcome::Parsed(DiceExprView { modifier: m, groups, flat_bonus: bonus as i64 })
        }
    } else {
        let sign = toks[0].0;
        let t = toks[0].1;
        if t.contains('d') {
            if sign == -1 {
                ParseOutcome::Failed(ParseFailure::NegativeDiceGroup)
            } else {
                match dice_term(t) {
                    Ok(g) => fold_terms(toks.drop_first(), m, groups.push(g), bonus),
                    Err(e) => ParseOutcome::Failed(e),
                }
            }
        } else {
            match parse_i64_text(t) {
                None => ParseOutcome::Failed(ParseFailure::InvalidToken(t)),
                Some(val) => {
                    let nb = bonus + sign * val;
                    if nb < i64::MIN || nb > i64::MAX {
                        ParseOutcome::BonusOverflow
                    } else {
                        fold_terms(toks.drop_first(), m, groups, nb)
                    }
                },
            }
        }
    }
}

/// The modifier that a normalized expression starts with, and what follows it.
pub open spec fn split_modifier(s: Seq<char>) -> (Modifier, Seq<char>) {
    if s.len() >= 3 && s.take(3) == seq!['a', 'd', 'v'] {
        (Modifier::Advantage, trim_start(s.skip(3)))
    } else if s.len() >= 3 && s.take(3) == seq!['d', 'i', 's'] {
        (Modifier::Disadvantage, trim_start(s.skip(3)))
    } else {
        (Modifier::Normal, s)
    }
}

/// The meaning of a normalized expression.
pub open spec fn parse_text(s: Seq<char>) -> ParseOutcome {
    if s.len() == 0 {
        ParseOutcome::Failed(ParseFailure::NoDiceFound)
    } else {
        let (m, rest) = split_modifier(s);
        fold_terms(signed_tokens(rest, 1), m, Seq::empty(), 0)
    }
}

/// The normalized form of an input: trimmed, then lowercased.
pub open spec fn normalize(input: Seq<char>) -> Seq<char> {
    str_to_lowercase(trim(input))
}

/// The outcome a parser result stands for.
pub open spec fn outcome_of(r: Result<DiceExpr, ParseError>) -> ParseOutcome {
    match r {
        Ok(e) => ParseOutcome::Parsed(e@),
        Err(e) => ParseOutcome::Failed(e@),
    }
}

/// Whether `v[lo..hi]` holds a `d`.
fn contains_d(v: &Vec<char>, lo: usize, hi: usize) -> (r: bool)
    requires
        lo <= hi <= v.len(),
    ensures
        r == v@.subrange(lo as int, hi as int).contains('d'),
{
    let ghost t = v@.subrange(lo as int, hi as int);
    let mut k: usize = lo;
    while k < hi
        invariant
            lo <= k <= hi <= v.len(),
            t == v@.subrange(lo as int, hi as int),
            forall|j: int| lo <= j < k ==> v@[j] != 'd',
        decreases hi - k,
    {
        if v[k] == 'd' {
            assert(t[k - lo] == 'd');
            return true;
        }
        k = k + 1;
    }
    assert forall|j: int| 0 <= j < t.len() implies t[j] != 'd' by {
        assert(t[j] == v@[lo + j]);
    }
    false
}

/// Parses the normalized expression in `v`; `None` where the flat bonus
/// would overflow.
#[verifier::rlimit(40)]
#[verifier::spinoff_prover]
fn parse_chars(v: &Vec<char>) -> (r: Option<Result<DiceExpr, ParseError>>)
    ensures
        r is None <==> parse_text(v@) is BonusOverflow,
        r matches Some(x) ==> outcome_of(x) == parse_text(v@),
{
    let n = v.len();
    if n == 0 {
        return Some(Err(ParseError::NoDiceFound));
    }
    let mut modifier = Modifier::Normal;
    let mut start: usize = 0;
    if n >= 3 && v[0] == 'a' && v[1] == 'd' && v[2] == 'v' {
        assert(v@.take(3) =~= seq!['a', 'd', 'v']);
        assert(v@.skip(3) =~= v@.subrange(3, n as int));
        modifier = Modifier::Advantage;
        start = trim_start_index(v, 3, n);
    } else if n >= 3 && v[0] == 'd' && v[1] == 'i' && v[2] == 's' {
        assert(v@.take(3) =~= seq!['d', 'i', 's']);
        assert(v@.skip(3) =~= v@.subrange(3, n as int));
        modifier = Modifier::Disadvantage;
        start = trim_start_index(v, 3, n);
    } else {
        assert(n >= 3 ==> v@.take(3)[0] == v@[0] && v@.take(3)[1] == v@[1] && v@.take(3)[2]
            == v@[2]);
        assert(v@.subrange(0, n as int) =~= v@);
    }
    let toks = split_signed_tokens(v, start, n);
    let ghost tv = tokens_view(v@, toks@);
    assert(split_modifier(v@) == (modifier, v@.subrange(start as int, n as int)));
    assert(tv.skip(0) =~= tv);
    let mut groups: Vec<DiceGroup> = Vec::new();
    let mut bonus: i64 = 0;
    let mut k: usize = 0;
    while k < toks.len()
        invariant
            0 <= k <= toks.len(),
            n == v.len(),
            tv == tokens_view(v@, toks@),
            forall|j: int| 0 <= j < toks.len() ==> 0 <= (#[trigger] toks@[j]).1 <= toks@[j].2 <= n,
            parse_text(v@) == fold_terms(tv.skip(k as int), modifier, groups@, bonus as int),
        decreases toks.len() - k,
    {
        let (sign, a, b) = toks[k];
        assert(tv.skip(k as int)[0] == (sign, v@.subrange(a as int, b as int)));
        assert(tv.skip(k as int).drop_first() =~= tv.skip(k + 1));
        if contains_d(v, a, b) {
            if sign == -1 {
                return Some(Err(ParseError::NegativeDiceGroup));
            }
            match parse_dice_token(v, a, b) {
                Ok(g) => groups.push(g),
                Err(e) => return Some(Err(e)),
            }
        } else {
            match parse_i64_at(v, a, b) {
                None => return Some(Err(ParseError::InvalidToken(text_of(v, a, b)))),
                Some(val) => {
                    let sw: i128 = sign as i128;
                    let vw: i128 = val as i128;
                    assert(-0x4000_0000_0000_0000_0000_0000_0000_0000 <= sw * vw
                        <= 0x4000_0000_0000_0000_0000_0000_0000_0000) by (nonlinear_arith)
                        requires
                            -0x8000_0000_0000_0000 <= sw <= 0x7fff_ffff_ffff_ffff,
                            -0x8000_0000_0000_0000 <= vw <= 0x7fff_ffff_ffff_ffff,
                    ;
                    let nb: i128 = bonus as i128 + sw * vw;
                    if nb < -9223372036854775808 || nb > 9223372036854775807 {
                        return None;
                    }
                    bonus = nb as i64;
                },
            }
        }
        k = k + 1;
    }
    if groups.len() == 0 {
        Some(Err(ParseError::NoDiceFound))
    } else {
        Some(Ok(DiceExpr { modifier, groups, flat_bonus: bonus }))
    }
}

/// Parses an expression that is already trimmed and lowercased.
pub fn parse_normalized(s: &str) -> (r: Result<DiceExpr, ParseError>)
    requires
        !(parse_text(s@) is BonusOverflow),
    ensures
        outcome_of(r) == parse_text(s@),
        r matches Ok(e) ==> e@.well_formed(),
{
    proof {
        law_parsed_well_formed(s@);
    }
    let v = chars_of(s);
    match parse_chars(&v) {
        Some(r) => r,
        None => Err(ParseError::NoDiceFound),
    }
}

/// The normalized characters of an input: trimmed, then lowercased.
fn normalized_string(input: &str) -> (s: String)
    ensures
        s@ == normalize(input@),
        is_ascii_text(input@) ==> s@ == ascii_lower(trim(input@)),
{
    proof {
        let r = lemma_trim_shape(input@);
        if is_ascii_text(input@) {
            assert forall|i: int| 0 <= i < trim(input@).len() implies #[trigger] trim(input@)[i]
                <= '\u{7f}' by {
                assert(trim(input@)[i] == input@[r.0 + i]);
            }
        }
    }
    let v = chars_of(input);
    let (a, b) = trim_range(&v, 0, v.len());
    assert(v@.subrange(0, v.len() as int) =~= v@);
    let t = text_of(&v, a, b);
    to_lowercase(t.as_str())
}

/// Parse a dice expression string into a [`DiceExpr`].
///
/// Supports expressions like `"2d10+4"`, `"adv d20+5"`, `"dis d20-1"`,
/// `"2d6+1d4+3"`, and `"4d6kh3"` (keep highest 3 of 4d6). The input is
/// trimmed and lowercased first.
pub fn parse_expr(input: &str) -> (r: Result<DiceExpr, ParseError>)
    requires
        !(parse_text(normalize(input@)) is BonusOverflow),
    ensures
        outcome_of(r) == parse_text(normalize(input@)),
        is_ascii_text(input@) ==> outcome_of(r) == parse_text(ascii_lower(trim(input@))),
        r matches Ok(e) ==> e@.well_formed(),
{
    let s = normalized_string(input);
    parse_normalized(s.as_str())
}

/// [`parse_expr`] for every input: `None` exactly where the flat terms of the
/// expression sum past the `i64` range.
pub fn try_parse_expr(input: &str) -> (r: Option<Result<DiceExpr, ParseError>>)
    ensures
        r is None <==> parse_text(normalize(input@)) is BonusOverflow,
        r matches Some(x) ==> outcome_of(x) == parse_text(normalize(input@)),
        is_ascii_text(input@) ==> (r is None <==> parse_text(ascii_lower(trim(input@)))
            is BonusOverflow),
        is_ascii_text(input@) ==> (r matches Some(x) ==> outcome_of(x) == parse_text(
            ascii_lower(trim(input@)),
        )),
        r matches Some(Ok(e)) ==> e@.well_formed(),
{
    let s = normalized_string(input);
    let v = chars_of(s.as_str());
    match parse_chars(&v) {
        None => None,
        Some(_) => Some(parse_expr(input)),
    }
}

// ── Laws ─────────────────────────────────────────────────────────────────────

/// Folding from well-formed groups yields only well-formed expressions.
proof fn lemma_fold_well_formed(
    toks: Seq<(i64, Seq<char>)>,
    m: Modifier,
    groups: Seq<DiceGroup>,
    bonus: int,
)
    requires
        forall|i: int| 0 <= i < groups.len() ==> group_well_formed(#[trigger] groups[i]),
    ensures
        fold_terms(toks, m, groups, bonus) matches ParseOutcome::Parsed(e) ==> e.well_formed(),
    decreases toks.len(),
{
    if toks.len() > 0 {
        let t = toks[0].1;
        if t.contains('d') {
            if let Ok(g) = dice_term(t) {
                let gs = groups.push(g);
                assert forall|i: int| 0 <= i < gs.len() implies group_well_formed(
                    #[trigger] gs[i],
                ) by {
                    if i < groups.len() {
                        assert(gs[i] == groups[i]);
                    }
                }
                lemma_fold_well_formed(toks.drop_first(), m, gs, bonus);
            }
        } else if let Some(val) = parse_i64_text(t) {
            lemma_fold_well_formed(toks.drop_first(), m, groups, bonus + toks[0].0 * val);
        }
    }
}

/// Every expression the parser accepts has at least one group, and every
/// group at least one die of at least one side.
pub proof fn law_parsed_well_formed(s: Seq<char>)
    ensures
        parse_text(s) matches ParseOutcome::Parsed(e) ==> e.well_formed(),
{
    if s.len() > 0 {
        let (m, rest) = split_modifier(s);
        lemma_fold_well_formed(signed_tokens(rest, 1), m, Seq::empty(), 0);
    }
}

// ── What a written dice term denotes ─────────────────────────────────────────

/// The keep suffix written for `keep` with the count `digits`: none, `kh…`
/// or `kl…`.
pub open spec fn keep_suffix(keep: Keep, digits: Seq<char>) -> Seq<char> {
    match keep {
        Keep::All => Seq::empty(),
        Keep::Highest(_) => seq!['k', 'h'] + digits,
        Keep::Lowest(_) => seq!['k', 'l'] + digits,
    }
}

/// The group a term `count 'd' sides keep` denotes, the counts read from
/// their digits: the count defaults to one; a count or side count of zero is
/// refused.
pub open spec fn written_group(c: Seq<char>, s: Seq<char>, keep: Keep) -> Result<
    DiceGroup,
    ParseFailure,
> {
    let cv: u32 = if c.len() == 0 {
        1
    } else {
        parse_u32_text(c)->0
    };
    let sv: u32 = parse_u32_text(s)->0;
    if cv == 0 {
        Err(ParseFailure::InvalidDiceCount(zero_count_message()))
    } else if sv == 0 {
        Err(ParseFailure::InvalidSides(zero_sides_message()))
    } else {
        Ok(DiceGroup { count: cv, sides: sv, keep })
    }
}

proof fn lemma_pair_first(p: Seq<char>, r: Seq<char>, a: char, b: char)
    requires
        forall|i: int| 0 <= i < p.len() ==> p[i] != a,
    ensures
        pair_index(p + seq![a, b] + r, a, b) == Some(p.len()),
    decreases p.len(),
{
    let t = p + seq![a, b] + r;
    if p.len() > 0 {
        assert(t[0] == p[0]);
        assert(t.drop_first() =~= p.drop_first() + seq![a, b] + r);
        lemma_pair_first(p.drop_first(), r, a, b);
    } else {
        assert(t[0] == a && t[1] == b);
    }
}

proof fn lemma_pair_none(t: Seq<char>, a: char, b: char)
    requires
        forall|i: int| 0 <= i < t.len() - 1 ==> !(#[trigger] t[i] == a && t[i + 1] == b),
    ensures
        pair_index(t, a, b) is None,
    decreases t.len(),
{
    if t.len() >= 2 {
        assert(!(t[0] == a && t[1] == b));
        assert forall|i: int| 0 <= i < t.drop_first().len() - 1 implies !(#[trigger] t.drop_first()[i] == a
            && t.drop_first()[i + 1] == b) by {
            assert(t.drop_first()[i] == t[i + 1] && t.drop_first()[i + 1] == t[i + 2]);
        }
        lemma_pair_none(t.drop_first(), a, b);
    }
}

proof fn lemma_char_first(p: Seq<char>, r: Seq<char>, c: char)
    requires
        forall|i: int| 0 <= i < p.len() ==> p[i] != c,
    ensures
        char_index(p + seq![c] + r, c) == Some(p.len()),
    decreases p.len(),
{
    let t = p + seq![c] + r;
    if p.len() > 0 {
        assert(t[0] == p[0]);
        assert(t.drop_first() =~= p.drop_first() + seq![c] + r);
        lemma_char_first(p.drop_first(), r, c);
    } else {
        assert(t[0] == c);
    }
}

proof fn lemma_keep_split_written(d: Seq<char>, kd: Seq<char>, keep: Keep)
    requires
        forall|i: int| 0 <= i < d.len() ==> d[i] != 'k',
        all_digits(kd),
        match keep {
            Keep::All => kd.len() == 0,
            Keep::Highest(n) => parse_u32_text(kd) == Some(n),
            Keep::Lowest(n) => parse_u32_text(kd) == Some(n),
        },
    ensures
        keep_split(d + keep_suffix(keep, kd)) == Ok::<(Seq<char>, Keep), ParseFailure>((d, keep)),
{
    let t = d + keep_suffix(keep, kd);
    match keep {
        Keep::All => {
            assert(t =~= d);
            lemma_pair_none(t, 'k', 'h');
            lemma_pair_none(t, 'k', 'l');
        },
        Keep::Highest(n) => {
            assert(t =~= d + seq!['k', 'h'] + kd);
            lemma_pair_first(d, kd, 'k', 'h');
            assert(t.take(d.len() as int) =~= d);
            assert(t.skip(d.len() + 2int) =~= kd);
        },
        Keep::Lowest(n) => {
            assert(t =~= d + seq!['k', 'l'] + kd);
            assert forall|i: int| 0 <= i < t.len() - 1 implies !(#[trigger] t[i] == 'k' && t[i + 1]
                == 'h') by {
                if i < d.len() {
                    assert(t[i] == d[i]);
                } else if i == d.len() {
                    assert(t[i + 1] == 'l');
                } else if i == d.len() + 1 {
                    assert(t[i] == 'l');
                } else {
                    assert(t[i] == kd[i - d.len() - 2]);
                    assert(is_digit(kd[i - d.len() - 2]));
                }
            }
            lemma_pair_none(t, 'k', 'h');
            lemma_pair_first(d, kd, 'k', 'l');
            assert(t.take(d.len() as int) =~= d);
            assert(t.skip(d.len() + 2int) =~= kd);
        },
    }
}

proof fn lemma_dice_part_written(c: Seq<char>, s: Seq<char>, keep: Keep)
    requires
        all_digits(c),
        c.len() > 0 ==> parse_u32_text(c) is Some,
        parse_u32_text(s) is Some,
    ensures
        dice_part(c + seq!['d'] + s, keep) == written_group(c, s, keep),
{
    let d = c + seq!['d'] + s;
    assert forall|i: int| 0 <= i < c.len() implies c[i] != 'd' by {
        assert(is_digit(c[i]));
    }
    lemma_char_first(c, s, 'd');
    assert(d.take(c.len() as int) =~= c);
    assert(d.skip(c.len() + 1int) =~= s);
}

/// A dice term written as an optional count, `d`, a side count and an
/// optional keep suffix, all counts in digits that fit a `u32`, denotes the
/// group they say, or the error for a zero count or zero sides.
pub proof fn law_written_dice_term(c: Seq<char>, s: Seq<char>, kd: Seq<char>, keep: Keep)
    requires
        all_digits(c),
        all_digits(s),
        all_digits(kd),
        c.len() > 0 ==> parse_u32_text(c) is Some,
        parse_u32_text(s) is Some,
        match keep {
            Keep::All => kd.len() == 0,
            Keep::Highest(n) => parse_u32_text(kd) == Some(n),
            Keep::Lowest(n) => parse_u32_text(kd) == Some(n),
        },
    ensures
        dice_term(c + seq!['d'] + s + keep_suffix(keep, kd)) == written_group(c, s, keep),
{
    let d = c + seq!['d'] + s;
    assert forall|i: int| 0 <= i < d.len() implies d[i] != 'k' by {
        if i < c.len() {
            assert(is_digit(c[i]));
        } else if i > c.len() {
            assert(d[i] == s[i - c.len() - 1]);
            assert(is_digit(s[i - c.len() - 1]));
        }
    }
    lemma_keep_split_written(d, kd, keep);
    lemma_dice_part_written(c, s, keep);
}

/// Every group a dice term denotes has at least one die of at least one side.
pub proof fn law_dice_term_well_formed(t: Seq<char>)
    ensures
        dice_term(t) matches Ok(g) ==> group_well_formed(g),
{
}

/// Expressions are case-insensitive: two ASCII inputs that differ only in the
/// case of their letters parse alike (see `parse_expr`'s contract for ASCII
/// input).
pub proof fn law_case_insensitive(a: Seq<char>, b: Seq<char>)
    requires
        ascii_lower(a) == ascii_lower(b),
    ensures
        parse_text(ascii_lower(trim(a))) == parse_text(ascii_lower(trim(b))),
{
    lemma_trim_lower(a, b);
}

} // verus!
