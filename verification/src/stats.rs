//! Theoretical statistics of an expression, and how rolls relate to them.

use vstd::prelude::*;

use crate::expr::{DiceExpr, DiceExprView, DiceGroup, Keep, Modifier};
use crate::roll::{
    dice_sum, faces_within, groups_sum, is_roll, kept_count, kept_dice, lemma_dice_sum_bounds,
    lemma_kept_dice_within, max_int, min_int, possible_total, possible_value, roll_outcome,
};

verus! {

/// Theoretical statistics for a dice expression (min, max, and mean).
///
/// Computed analytically; does not account for advantage/disadvantage. The
/// mean is held exactly, as twice its value (an integer).
#[derive(Debug, Clone, Copy, PartialEq, Eq)]
pub struct RollStats {
    pub min: i64,
    pub max: i64,
    /// Twice the mean.
    pub double_mean: i128,
}

/// The number of dice the statistics count for a group: the dice it keeps,
/// which under a keep rule is the keep count or, where that exceeds the dice
/// rolled, every die rolled.
pub open spec fn stats_count(g: DiceGroup) -> int {
    kept_count(g.count, g.keep)
}

/// The sum of [`stats_count`] over groups.
pub open spec fn sum_counts(gs: Seq<DiceGroup>) -> int
    decreases gs.len(),
{
    if gs.len() == 0 {
        0
    } else {
        sum_counts(gs.drop_last()) + stats_count(gs.last())
    }
}

/// The sum over groups of counted dice times sides.
pub open spec fn sum_maxima(gs: Seq<DiceGroup>) -> int
    decreases gs.len(),
{
    if gs.len() == 0 {
        0
    } else {
        sum_maxima(gs.drop_last()) + stats_count(gs.last()) * gs.last().sides
    }
}

/// The sum over groups of counted dice times `sides + 1`: twice the sum of
/// the groups' means.
pub open spec fn sum_double_means(gs: Seq<DiceGroup>) -> int
    decreases gs.len(),
{
    if gs.len() == 0 {
        0
    } else {
        sum_double_means(gs.drop_last()) + stats_count(gs.last()) * (gs.last().sides + 1)
    }
}

/// The least total the statistics give.
pub open spec fn stats_min(e: DiceExprView) -> int {
    e.flat_bonus + sum_counts(e.groups)
}

/// The greatest total the statistics give.
pub open spec fn stats_max(e: DiceExprView) -> int {
    e.flat_bonus + sum_maxima(e.groups)
}

/// Twice the mean total the statistics give.
pub open spec fn stats_double_mean(e: DiceExprView) -> int {
    2 * e.flat_bonus + sum_double_means(e.groups)
}

/// The statistics fit in `i64`: no group's maximum, and neither the minimum
/// nor the maximum total, leaves the range.
pub open spec fn stats_fit(e: DiceExprView) -> bool {
    &&& forall|i: int|
        0 <= i < e.groups.len() ==> stats_count(#[trigger] e.groups[i]) * e.groups[i].sides
            <= i64::MAX
    &&& stats_min(e) <= i64::MAX
    &&& stats_max(e) <= i64::MAX
}

proof fn lemma_sums_prefix(gs: Seq<DiceGroup>, i: int)
    requires
        0 <= i <= gs.len(),
    ensures
        0 <= sum_counts(gs.take(i)) <= sum_counts(gs),
        0 <= sum_maxima(gs.take(i)) <= sum_maxima(gs),
        0 <= sum_double_means(gs.take(i)) <= sum_double_means(gs),
        sum_double_means(gs) == sum_maxima(gs) + sum_counts(gs),
    decreases gs.len(),
{
    if gs.len() > 0 {
        let g = gs.last();
        assert(stats_count(g) * g.sides >= 0 && stats_count(g) * (g.sides + 1) == stats_count(g)
            * g.sides + stats_count(g)) by (nonlinear_arith)
            requires
                stats_count(g) >= 0,
                g.sides >= 0,
        ;
        if i == gs.len() {
            assert(gs.take(i) =~= gs);
            lemma_sums_prefix(gs.drop_last(), i - 1);
        } else {
            assert(gs.drop_last().take(i) =~= gs.take(i));
            lemma_sums_prefix(gs.drop_last(), i);
        }
    } else {
        assert(gs.take(i) =~= gs);
    }
}

/// Whether the statistics of `expr` fit in `i64` (see [`stats_fit`]).
pub fn stats_computable(expr: &DiceExpr) -> (r: bool)
    ensures
        r == stats_fit(expr@),
{
    let mut lo: i128 = expr.flat_bonus as i128;
    let mut hi: i128 = expr.flat_bonus as i128;
    let mut i: usize = 0;
    while i < expr.groups.len()
        invariant
            0 <= i <= expr.groups.len(),
            expr@.groups == expr.groups@,
            lo == expr.flat_bonus + sum_counts(expr.groups@.take(i as int)),
            hi == expr.flat_bonus + sum_maxima(expr.groups@.take(i as int)),
            lo <= i64::MAX,
            hi <= i64::MAX,
            forall|k: int|
                0 <= k < i ==> stats_count(#[trigger] expr.groups@[k]) * expr.groups@[k].sides
                    <= i64::MAX,
        decreases expr.groups.len() - i,
    {
        let g = expr.groups[i];
        let ghost gs = expr.groups@;
        assert(gs.take(i + 1).drop_last() =~= gs.take(i as int));
        let n: u32 = kept_number(g.count, g.keep);
        assert(n == stats_count(g));
        assert(n * g.sides <= u32::MAX * u32::MAX) by (nonlinear_arith)
            requires
                n <= u32::MAX,
                g.sides <= u32::MAX,
        ;
        let m: i128 = n as i128 * g.sides as i128;
        if m > i64::MAX as i128 {
            assert(stats_count(expr@.groups[i as int]) * expr@.groups[i as int].sides > i64::MAX);
            return false;
        }
        if lo + n as i128 > i64::MAX as i128 || hi + m > i64::MAX as i128 {
            proof {
                lemma_sums_prefix(gs, i + 1);
            }
            return false;
        }
        lo = lo + n as i128;
        hi = hi + m;
        i = i + 1;
    }
    assert(expr.groups@.take(i as int) =~= expr.groups@);
    true
}

/// The number of dice a group of `count` dice keeps under `keep`.
fn kept_number(count: u32, keep: Keep) -> (n: u32)
    ensures
        n == kept_count(count, keep),
{
    match keep {
        Keep::All => count,
        Keep::Highest(k) => if k < count { k } else { count },
        Keep::Lowest(k) => if k < count { k } else { count },
    }
}

/// Compute theoretical min, max, and mean for a [`DiceExpr`].
///
/// Ignores advantage/disadvantage. For keep groups, counts the dice kept
/// (not statistically exact for `kh`/`kl`, but a useful ballpark).
pub fn roll_stats(expr: &DiceExpr) -> (r: RollStats)
    requires
        stats_fit(expr@),
    ensures
        r.min == stats_min(expr@),
        r.max == stats_max(expr@),
        r.double_mean == stats_double_mean(expr@),
{
    let mut min: i64 = expr.flat_bonus;
    let mut max: i64 = expr.flat_bonus;
    let mut double_mean: i128 = 2 * (expr.flat_bonus as i128);
    let mut i: usize = 0;
    while i < expr.groups.len()
        invariant
            0 <= i <= expr.groups.len(),
            stats_fit(expr@),
            min == expr.flat_bonus + sum_counts(expr.groups@.take(i as int)),
            max == expr.flat_bonus + sum_maxima(expr.groups@.take(i as int)),
            double_mean == 2 * expr.flat_bonus + sum_double_means(expr.groups@.take(i as int)),
        decreases expr.groups.len() - i,
    {
        let g = expr.groups[i];
        let keep_count: u32 = kept_number(g.count, g.keep);
        proof {
            let ghost gs = expr.groups@;
            assert(gs.take(i + 1).drop_last() =~= gs.take(i as int));
            assert(gs.take(i + 1).last() == g);
            lemma_sums_prefix(gs, i + 1);
            lemma_sums_prefix(gs.take(i + 1), i as int);
            assert(gs.take(i + 1).take(i as int) =~= gs.take(i as int));
            assert(stats_count(gs[i as int]) * gs[i as int].sides <= i64::MAX);
        }
        let product: i64 = (keep_count as i64) * (g.sides as i64);
        min = min + keep_count as i64;
        max = max + product;
        double_mean = double_mean + (keep_count as i128) * ((g.sides as i128) + 1);
        i = i + 1;
    }
    assert(expr.groups@.take(expr.groups.len() as int) =~= expr.groups@);
    RollStats { min, max, double_mean }
}

// ── Laws ─────────────────────────────────────────────────────────────────────

proof fn lemma_groups_sum_bounds(
    gs: Seq<DiceGroup>,
    raw: Seq<Seq<u32>>,
    kept: Seq<Seq<u32>>,
)
    requires
        raw.len() == gs.len(),
        kept.len() == gs.len(),
        forall|i: int|
            0 <= i < gs.len() ==> (#[trigger] raw[i]).len() == gs[i].count && faces_within(
                raw[i],
                gs[i].sides,
            ),
        forall|i: int| 0 <= i < gs.len() ==> #[trigger] kept[i] == kept_dice(raw[i], gs[i].keep),
    ensures
        sum_counts(gs) <= groups_sum(kept) <= sum_maxima(gs),
    decreases gs.len(),
{
    if gs.len() > 0 {
        let n = (gs.len() - 1) as int;
        lemma_groups_sum_bounds(gs.drop_last(), raw.drop_last(), kept.drop_last());
        let g = gs[n];
        assert(raw[n].len() == g.count && faces_within(raw[n], g.sides));
        lemma_kept_dice_within(raw[n], g.keep, g.sides);
        assert(kept[n] == kept_dice(raw[n], g.keep));
        let k = kept[n];
        lemma_dice_sum_bounds(k, g.sides);
        assert(k.len() == stats_count(g));
        assert(kept.last() == k);
        assert(gs.last() == g);
    }
}

/// Every total one roll can give lies between the minimum and the maximum of
/// the statistics.
pub proof fn law_roll_within_stats(e: DiceExprView, t: int, kept: Seq<Seq<u32>>)
    requires
        is_roll(e, t, kept),
    ensures
        stats_min(e) <= t <= stats_max(e),
{
    let raw = choose|raw: Seq<Seq<u32>>| roll_outcome(e, raw, t, kept);
    lemma_groups_sum_bounds(e.groups, raw, kept);
}

/// Every value a roll can give, advantage and disadvantage included, lies
/// between the minimum and the maximum of the statistics.
pub proof fn law_value_within_stats(e: DiceExprView, v: int)
    requires
        possible_value(e, v),
    ensures
        stats_min(e) <= v <= stats_max(e),
{
    match e.modifier {
        Modifier::Normal => {
            let k = choose|k: Seq<Seq<u32>>| is_roll(e, v, k);
            law_roll_within_stats(e, v, k);
        },
        Modifier::Advantage => {
            let (a, b) = choose|a: int, b: int|
                possible_total(e, a) && possible_total(e, b) && v == max_int(a, b);
            let ka = choose|k: Seq<Seq<u32>>| is_roll(e, a, k);
            let kb = choose|k: Seq<Seq<u32>>| is_roll(e, b, k);
            law_roll_within_stats(e, a, ka);
            law_roll_within_stats(e, b, kb);
        },
        Modifier::Disadvantage => {
            let (a, b) = choose|a: int, b: int|
                possible_total(e, a) && possible_total(e, b) && v == min_int(a, b);
            let ka = choose|k: Seq<Seq<u32>>| is_roll(e, a, k);
            let kb = choose|k: Seq<Seq<u32>>| is_roll(e, b, k);
            law_roll_within_stats(e, a, ka);
            law_roll_within_stats(e, b, kb);
        },
    }
}

} // verus!
