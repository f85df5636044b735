//! The command line's own logic: reading an inclusive `MIN..MAX` range and
//! describing a probability query.

use vstd::prelude::*;

use crate::dist::ProbabilityQuery;
use crate::parse::{find_pair, pair_index};
use crate::text::{
    chars_of, parse_i64_at, parse_i64_text, push_chars, push_signed_decimal, push_str,
    signed_decimal, string_from_chars, sub_vec,
};

verus! {

/// What reading `s` as an inclusive `MIN..MAX` range gives: the bounds, or
/// the message of the first problem.
pub open spec fn range_result(s: Seq<char>) -> Result<(i64, i64), Seq<char>> {
    match pair_index(s, '.', '.') {
        None => Err("range must use MIN..MAX syntax"@),
        Some(p) => {
            let a = s.take(p as int);
            let b = s.skip(p + 2int);
            match parse_i64_text(a) {
                None => Err("invalid range minimum: '"@ + a + "'"@),
                Some(lo) => match parse_i64_text(b) {
                    None => Err("invalid range maximum: '"@ + b + "'"@),
                    Some(hi) => if lo > hi {
                        Err("range minimum must not exceed maximum"@)
                    } else {
                        Ok((lo, hi))
                    },
                },
            }
        },
    }
}

/// Reads an inclusive `MIN..MAX` range, such as `3..7` or `-2..2`.
pub fn parse_probability_range(value: &str) -> (r: Result<(i64, i64), String>)
    ensures
        match r {
            Ok(b) => range_result(value@) == Ok::<(i64, i64), Seq<char>>(b),
            Err(m) => range_result(value@) == Err::<(i64, i64), Seq<char>>(m@),
        },
{
    let v = chars_of(value);
    let n = v.len();
    assert(v@.subrange(0, n as int) =~= v@);
    let p = match find_pair(&v, 0, n, '.', '.') {
        Some(p) => p,
        None => return Err("range must use MIN..MAX syntax".to_string()),
    };
    assert(v@.take(p as int) =~= v@.subrange(0, p as int));
    assert(v@.skip(p + 2int) =~= v@.subrange(p + 2, n as int));
    let lo = match parse_i64_at(&v, 0, p) {
        Some(x) => x,
        None => {
            let mut out: Vec<char> = Vec::new();
            push_str(&mut out, "invalid range minimum: '");
            push_chars(&mut out, &sub_vec(&v, 0, p));
            push_str(&mut out, "'");
            return Err(string_from_chars(&out));
        },
    };
    let hi = match parse_i64_at(&v, p + 2, n) {
        Some(x) => x,
        None => {
            let mut out: Vec<char> = Vec::new();
            push_str(&mut out, "invalid range maximum: '");
            push_chars(&mut out, &sub_vec(&v, p + 2, n));
            push_str(&mut out, "'");
            return Err(string_from_chars(&out));
        },
    };
    if lo > hi {
        return Err("range minimum must not exceed maximum".to_string());
    }
    Ok((lo, hi))
}

/// The operator and the bounds with which a query is shown.
pub open spec fn query_description_spec(q: ProbabilityQuery) -> (Seq<char>, Seq<i64>) {
    match q {
        ProbabilityQuery::AtLeast(t) => (">="@, seq![t]),
        ProbabilityQuery::AtMost(t) => ("<="@, seq![t]),
        ProbabilityQuery::Equal(t) => ("=="@, seq![t]),
        ProbabilityQuery::InclusiveRange(lo, hi) => ("in"@, seq![lo, hi]),
    }
}

/// The operator and the bounds with which a query is shown.
pub fn query_description(query: ProbabilityQuery) -> (r: (&'static str, Vec<i64>))
    ensures
        (r.0@, r.1@) == query_description_spec(query),
{
    match query {
        ProbabilityQuery::AtLeast(target) => (">=", vec![target]),
        ProbabilityQuery::AtMost(target) => ("<=", vec![target]),
        ProbabilityQuery::Equal(target) => ("==", vec![target]),
        ProbabilityQuery::InclusiveRange(min, max) => ("in", vec![min, max]),
    }
}

/// The text of query bounds: one bound as it is, two as `MIN..MAX`, and
/// anything else as nothing.
pub open spec fn bounds_text(bounds: Seq<i64>) -> Seq<char> {
    if bounds.len() == 1 {
        signed_decimal(bounds[0] as int)
    } else if bounds.len() == 2 {
        signed_decimal(bounds[0] as int) + seq!['.', '.'] + signed_decimal(bounds[1] as int)
    } else {
        Seq::empty()
    }
}

/// The text of query bounds, e.g. `15` or `3..7`.
pub fn format_bounds(bounds: &[i64]) -> (s: String)
    ensures
        s@ == bounds_text(bounds@),
{
    let mut out: Vec<char> = Vec::new();
    if bounds.len() == 1 {
        push_signed_decimal(&mut out, bounds[0]);
    } else if bounds.len() == 2 {
        push_signed_decimal(&mut out, bounds[0]);
        out.push('.');
        out.push('.');
        push_signed_decimal(&mut out, bounds[1]);
    }
    assert(out@ =~= bounds_text(bounds@));
    string_from_chars(&out)
}

} // verus!
