//! Monte Carlo simulation: the distribution of results, hit counts for
//! probability queries, and the integral layout of a distribution histogram.

use vstd::prelude::*;
use vstd::multiset::Multiset;
use vstd::std_specs::iter::IteratorSpec;

use std::collections::BTreeMap;

use rand::rngs::StdRng;

use crate::expr::{DiceExpr, DiceExprView, Keep, Modifier};
use crate::roll::{possible_value, roll_value, rollable};
use crate::stats::{law_value_within_stats, stats_max, stats_min};
use crate::text::{decimal, push_decimal, push_signed_decimal, push_str, signed_decimal, string_from_chars};

verus! {

broadcast use vstd::laws_cmp::group_laws_cmp;

/// The counts of a map of result counts, as a multiset of results.
pub open spec fn counted(m: Map<i64, u64>) -> Multiset<i64> {
    Multiset::from_map(m.map_values(|c: u64| c as nat))
}

/// `m` counts the results: it has a key exactly for each value that occurs,
/// mapped to the number of times it occurs.
pub open spec fn counts_results(m: Map<i64, u64>, results: Seq<i64>) -> bool {
    forall|k: i64|
        (#[trigger] m.contains_key(k) <==> results.to_multiset().count(k) > 0) && (m.contains_key(
            k,
        ) ==> m[k] == results.to_multiset().count(k))
}

/// Each result is a value rolling `e` can give.
pub open spec fn all_possible(e: DiceExprView, results: Seq<i64>) -> bool {
    forall|i: int| 0 <= i < results.len() ==> possible_value(e, #[trigger] results[i] as int)
}

/// The counts of a finite map that counts `results` add up to the number of
/// results.
pub proof fn law_counts_total(m: Map<i64, u64>, results: Seq<i64>)
    requires
        m.dom().finite(),
        counts_results(m, results),
    ensures
        counted(m) == results.to_multiset(),
        counted(m).len() == results.len(),
{
    let mn = m.map_values(|c: u64| c as nat);
    assert(mn.dom() =~= m.dom());
    assert forall|k: i64| #[trigger] counted(m).count(k) == results.to_multiset().count(k) by {
        if m.contains_key(k) {
            assert(mn.dom().contains(k));
        } else {
            assert(!mn.dom().contains(k));
        }
    }
    assert(counted(m) =~= results.to_multiset());
    results.to_multiset_ensures();
}

/// Every value a distribution counts occurs at least once, and lies between
/// the minimum and the maximum of the statistics (for a `d6`, in `1..=6`).
pub proof fn law_counted_values_within_stats(e: DiceExprView, m: Map<i64, u64>, results: Seq<i64>)
    requires
        all_possible(e, results),
        counts_results(m, results),
    ensures
        forall|k: i64|
            #[trigger] m.contains_key(k) ==> m[k] >= 1 && stats_min(e) <= k <= stats_max(e),
{
    results.to_multiset_ensures();
    assert forall|k: i64| #[trigger] m.contains_key(k) implies m[k] >= 1 && stats_min(e) <= k
        <= stats_max(e) by {
        assert(results.to_multiset().count(k) > 0);
        assert(results.contains(k));
        let i = choose|i: int| 0 <= i < results.len() && results[i] == k;
        assert(possible_value(e, results[i] as int));
        law_value_within_stats(e, k as int);
    }
}

/// `m` counts the values of `sims` rolls of `e`: `sims` values a roll can
/// give, each counted as often as it occurs.
pub open spec fn simulated(e: DiceExprView, m: Map<i64, u64>, sims: u64) -> bool {
    &&& exists|results: Seq<i64>|
        #![trigger results.len()]
        results.len() == sims && all_possible(e, results) && counts_results(m, results)
    &&& counted(m).len() == sims
}

/// Run a Monte Carlo simulation and return the count of each result value.
pub fn compute_distribution(expr: &DiceExpr, sims: u64, rng: &mut StdRng) -> (counts: BTreeMap<
    i64,
    u64,
>)
    requires
        rollable(expr@),
    ensures
        simulated(expr@, counts@, sims),
{
    let mut counts: BTreeMap<i64, u64> = BTreeMap::new();
    let ghost mut results: Seq<i64> = Seq::empty();
    let mut n: u64 = 0;
    assert(counts_results(counts@, results)) by {
        results.to_multiset_ensures();
    }
    while n < sims
        invariant
            0 <= n <= sims,
            rollable(expr@),
            results.len() == n,
            all_possible(expr@, results),
            counts_results(counts@, results),
        decreases sims - n,
    {
        let v = roll_value(expr, rng);
        let ghost before = results.to_multiset();
        proof {
            results.to_multiset_ensures();
        }
        let c: u64 = match counts.get(&v) {
            Some(c) => *c,
            None => 0,
        };
        assert(c == before.count(v));
        assert(before.count(v) <= results.len());
        counts.insert(v, c + 1);
        proof {
            vstd::seq_lib::to_multiset_build(results, v);
            results = results.push(v);
            assert(results.to_multiset() == before.insert(v));
            assert forall|k: i64|
                (#[trigger] counts@.contains_key(k) <==> results.to_multiset().count(k) > 0) && (
                counts@.contains_key(k) ==> counts@[k] == results.to_multiset().count(k)) by {
                if k == v {
                } else {
                    assert(results.to_multiset().count(k) == before.count(k));
                }
            }
            assert forall|i: int| 0 <= i < results.len() implies possible_value(
                expr@,
                #[trigger] results[i] as int,
            ) by {
                if i < results.len() - 1 {
                    assert(results[i] == results.drop_last()[i]);
                }
            }
        }
        n = n + 1;
    }
    proof {
        law_counts_total(counts@, results);
    }
    counts
}

// ── Probability queries ──────────────────────────────────────────────────────

/// A probability question about the value of a roll.
#[derive(Debug, Clone, Copy, PartialEq, Eq)]
pub enum ProbabilityQuery {
    /// The value is at least this.
    AtLeast(i64),
    /// The value is at most this.
    AtMost(i64),
    /// The value is exactly this.
    Equal(i64),
    /// The value lies in this inclusive range.
    InclusiveRange(i64, i64),
}

impl ProbabilityQuery {
    /// Whether a value answers the query.
    pub open spec fn accepts(self, v: int) -> bool {
        match self {
            ProbabilityQuery::AtLeast(t) => v >= t,
            ProbabilityQuery::AtMost(t) => v <= t,
            ProbabilityQuery::Equal(t) => v == t,
            ProbabilityQuery::InclusiveRange(lo, hi) => lo <= v && v <= hi,
        }
    }

    /// Whether `value` answers the query.
    pub fn contains(&self, value: i64) -> (r: bool)
        ensures
            r == self.accepts(value as int),
    {
        match *self {
            ProbabilityQuery::AtLeast(t) => value >= t,
            ProbabilityQuery::AtMost(t) => value <= t,
            ProbabilityQuery::Equal(t) => value == t,
            ProbabilityQuery::InclusiveRange(lo, hi) => lo <= value && value <= hi,
        }
    }
}

/// How many of the results answer the query.
pub open spec fn hits(results: Seq<i64>, q: ProbabilityQuery) -> int
    decreases results.len(),
{
    if results.len() == 0 {
        0
    } else {
        hits(results.drop_last(), q) + if q.accepts(results.last() as int) {
            1int
        } else {
            0int
        }
    }
}

proof fn lemma_hits_bound(results: Seq<i64>, q: ProbabilityQuery)
    ensures
        0 <= hits(results, q) <= results.len(),
    decreases results.len(),
{
    if results.len() > 0 {
        lemma_hits_bound(results.drop_last(), q);
    }
}

/// Rolls `sims` times and counts the values that answer the query; the
/// estimated probability is the count divided by `sims`.
pub fn count_query_hits(
    expr: &DiceExpr,
    query: ProbabilityQuery,
    sims: u64,
    rng: &mut StdRng,
) -> (h: u64)
    requires
        rollable(expr@),
    ensures
        h <= sims,
        exists|results: Seq<i64>|
            #![trigger results.len()]
            results.len() == sims && all_possible(expr@, results) && h == hits(results, query),
{
    let ghost mut results: Seq<i64> = Seq::empty();
    let mut n: u64 = 0;
    let mut h: u64 = 0;
    while n < sims
        invariant
            0 <= n <= sims,
            h <= n,
            rollable(expr@),
            results.len() == n,
            all_possible(expr@, results),
            h == hits(results, query),
        decreases sims - n,
    {
        let v = roll_value(expr, rng);
        if query.contains(v) {
            h = h + 1;
        }
        proof {
            let old_results = results;
            results = results.push(v);
            assert(results.drop_last() =~= old_results);
            assert forall|i: int| 0 <= i < results.len() implies possible_value(
                expr@,
                #[trigger] results[i] as int,
            ) by {
                if i < results.len() - 1 {
                    assert(results[i] == old_results[i]);
                }
            }
        }
        n = n + 1;
    }
    h
}

/// Rolls `sims` times and counts the values of at least `target`: the
/// numerator of the estimated probability of rolling at least `target`.
pub fn count_at_least(expr: &DiceExpr, target: i64, sims: u64, rng: &mut StdRng) -> (h: u64)
    requires
        rollable(expr@),
    ensures
        h <= sims,
        exists|results: Seq<i64>|
            #![trigger results.len()]
            results.len() == sims && all_possible(expr@, results) && h == hits(
                results,
                ProbabilityQuery::AtLeast(target),
            ),
{
    count_query_hits(expr, ProbabilityQuery::AtLeast(target), sims, rng)
}

/// Whether the exact probability calculation applies: no advantage or
/// disadvantage, and no keep rule.
pub open spec fn exact_applies(e: DiceExprView) -> bool {
    &&& e.modifier == Modifier::Normal
    &&& forall|i: int| 0 <= i < e.groups.len() ==> (#[trigger] e.groups[i]).keep == Keep::All
}

/// Whether the exact probability calculation applies to `expr`.
pub fn supports_exact_probability(expr: &DiceExpr) -> (r: bool)
    ensures
        r == exact_applies(expr@),
{
    if expr.modifier != Modifier::Normal {
        return false;
    }
    let mut i: usize = 0;
    while i < expr.groups.len()
        invariant
            0 <= i <= expr.groups.len(),
            forall|k: int| 0 <= k < i ==> (#[trigger] expr.groups@[k]).keep == Keep::All,
        decreases expr.groups.len() - i,
    {
        if expr.groups[i].keep != Keep::All {
            return false;
        }
        i = i + 1;
    }
    true
}

// ── Histogram layout ─────────────────────────────────────────────────────────

/// `k` is the least key of `m`.
pub open spec fn is_least_key(m: Map<i64, u64>, k: i64) -> bool {
    m.contains_key(k) && forall|j: i64| #[trigger] m.contains_key(j) ==> k <= j
}

/// `k` is the greatest key of `m`.
pub open spec fn is_greatest_key(m: Map<i64, u64>, k: i64) -> bool {
    m.contains_key(k) && forall|j: i64| #[trigger] m.contains_key(j) ==> j <= k
}

/// `c` is the greatest count in `m`.
pub open spec fn is_greatest_count(m: Map<i64, u64>, c: u64) -> bool {
    &&& exists|k: i64| #[trigger] m.contains_key(k) && m[k] == c
    &&& forall|k: i64| #[trigger] m.contains_key(k) ==> m[k] <= c
}

/// The count of `k` in `m`, zero when absent.
pub open spec fn count_of(m: Map<i64, u64>, k: int) -> u64 {
    if m.contains_key(k as i64) {
        m[k as i64]
    } else {
        0
    }
}

/// The width of the value column: the longer of the numerals of the least
/// and the greatest value.
pub open spec fn label_width(lo: i64, hi: i64) -> int {
    max_len(signed_decimal(lo as int).len() as int, signed_decimal(hi as int).len() as int)
}

/// The larger of two lengths.
pub open spec fn max_len(a: int, b: int) -> int {
    if a >= b {
        a
    } else {
        b
    }
}

/// The integral layout of a distribution histogram: one row per value from
/// the least to the greatest counted value, the width of the value column,
/// and the greatest count (which the bars are scaled against).
pub struct DistributionLayout {
    pub rows: Vec<(i64, u64)>,
    pub label_width: usize,
    pub max_count: u64,
}

/// The histogram layout of `counts`; `None` when nothing was counted.
pub fn distribution_layout(counts: &BTreeMap<i64, u64>) -> (r: Option<DistributionLayout>)
    ensures
        r is None <==> counts@.dom().len() == 0,
        r matches Some(l) ==> exists|lo: i64, hi: i64|
            #![trigger is_least_key(counts@, lo), is_greatest_key(counts@, hi)]
            is_least_key(counts@, lo) && is_greatest_key(counts@, hi) && l.rows@.len() == hi - lo
                + 1 && (forall|i: int|
                0 <= i < l.rows@.len() ==> #[trigger] l.rows@[i] == (
                    (lo + i) as i64,
                    count_of(counts@, lo + i),
                )) && l.label_width == label_width(lo, hi) && is_greatest_count(
                counts@,
                l.max_count,
            ),
{
    let mut lo: i64 = 0;
    let mut hi: i64 = 0;
    let mut max_count: u64 = 0;
    let mut seen = false;
    let ghost m = counts@;
    let ghost entries = vstd::std_specs::btree::spec_btree_map_iter(counts).remaining();
    for kv in it: counts.iter()
        invariant
            m == counts@,
            it.seq() == entries,
            entries == vstd::std_specs::btree::spec_btree_map_iter(counts).remaining(),
            seen <==> it.index() > 0,
            seen ==> m.contains_key(lo) && m.contains_key(hi),
            seen ==> exists|k: i64| #[trigger] m.contains_key(k) && m[k] == max_count,
            forall|i: int|
                0 <= i < it.index() ==> lo <= *(#[trigger] it.seq()[i]).0 <= hi && *it.seq()[i].1
                    <= max_count,
    {
        let (k, c) = kv;
        proof {
            assert(m.contains_key(*k) && m[*k] == *c);
        }
        if !seen || *k < lo {
            lo = *k;
        }
        if !seen || *k > hi {
            hi = *k;
        }
        if !seen || *c > max_count {
            max_count = *c;
        }
        seen = true;
    }
    if !seen {
        proof {
            assert(counts@.dom().len() == 0);
        }
        return None;
    }
    proof {
        assert forall|j: i64| #[trigger] m.contains_key(j) implies lo <= j <= hi && m[j] <= max_count by {
            assert(entries.contains((&j, &m[j])));
            let i = choose|i: int| 0 <= i < entries.len() && entries[i] == (&j, &m[j]);
            assert(lo <= *entries[i].0 <= hi);
        }
    }
    let mut rows: Vec<(i64, u64)> = Vec::new();
    let mut v: i64 = lo;
    loop
        invariant_except_break
            rows@.len() == v - lo,
        invariant
            lo <= v <= hi,
            forall|i: int| 0 <= i < rows@.len() ==> #[trigger] rows@[i] == ((lo + i) as i64, count_of(m, lo + i)),
            m == counts@,
        ensures
            rows@.len() == hi - lo + 1,
            forall|i: int| 0 <= i < rows@.len() ==> #[trigger] rows@[i] == ((lo + i) as i64, count_of(m, lo + i)),
        decreases hi - v,
    {
        let c: u64 = match counts.get(&v) {
            Some(c) => *c,
            None => 0,
        };
        rows.push((v, c));
        if v == hi {
            break;
        }
        v = v + 1;
    }
    let width = max_usize(signed_decimal_len(lo), signed_decimal_len(hi));
    let layout = DistributionLayout { rows, label_width: width, max_count };
    assert(is_least_key(counts@, lo));
    assert(is_greatest_key(counts@, hi));
    assert(is_greatest_count(counts@, max_count));
    assert(layout.rows@.len() == hi - lo + 1);
    Some(layout)
}

/// The larger of two lengths.
fn max_usize(a: usize, b: usize) -> (r: usize)
    ensures
        r == max_len(a as int, b as int),
{
    if a >= b {
        a
    } else {
        b
    }
}

/// The length of the signed numeral of `n`.
pub fn signed_decimal_len(n: i64) -> (r: usize)
    ensures
        r == signed_decimal(n as int).len(),
{
    let mut v: Vec<char> = Vec::new();
    push_signed_decimal(&mut v, n);
    v.len()
}

/// The numeral of `v` right-aligned in a column of `width` characters.
pub open spec fn right_aligned_text(v: int, width: int) -> Seq<char> {
    let t = signed_decimal(v);
    if t.len() < width {
        Seq::new((width - t.len()) as nat, |i: int| ' ') + t
    } else {
        t
    }
}

/// The numeral of `value` right-aligned in a column of `width` characters.
pub fn right_aligned(value: i64, width: usize) -> (s: String)
    ensures
        s@ == right_aligned_text(value as int, width as int),
{
    let mut num: Vec<char> = Vec::new();
    push_signed_decimal(&mut num, value);
    let mut out: Vec<char> = Vec::new();
    if num.len() < width {
        let pad = width - num.len();
        let mut i: usize = 0;
        while i < pad
            invariant
                0 <= i <= pad,
                out@ == Seq::new(i as nat, |j: int| ' '),
            decreases pad - i,
        {
            out.push(' ');
            i = i + 1;
            assert(out@ =~= Seq::new(i as nat, |j: int| ' '));
        }
    }
    crate::text::push_chars(&mut out, &num);
    assert(out@ =~= right_aligned_text(value as int, width as int));
    string_from_chars(&out)
}

/// The first line of a rendered distribution.
pub open spec fn distribution_header_text(e: DiceExprView, sims: u64) -> Seq<char> {
    "Distribution for "@ + crate::expr::expr_text(e) + " ("@ + decimal(sims as nat)
        + " simulations):\n"@
}

/// The first line of a rendered distribution, e.g.
/// `Distribution for 2d6 (1000 simulations):` and a line break.
pub fn distribution_header(expr: &DiceExpr, sims: u64) -> (s: String)
    ensures
        s@ == distribution_header_text(expr@, sims),
{
    let mut out: Vec<char> = Vec::new();
    push_str(&mut out, "Distribution for ");
    let e = expr.to_string();
    push_str(&mut out, e.as_str());
    push_str(&mut out, " (");
    push_decimal(&mut out, sims as u128);
    push_str(&mut out, " simulations):\n");
    string_from_chars(&out)
}

} // verus!
