//! Rolling dice: keep rules, single rolls, advantage and disadvantage, and the
//! human-readable breakdown of a roll.

use vstd::prelude::*;
use vstd::relations::{sorted_by, total_ordering};
use vstd::seq_lib::{lemma_sorted_unique, to_multiset_build, to_multiset_insert};

use rand::Rng;
use rand::rngs::StdRng;

use crate::expr::{DiceExpr, DiceExprView, DiceGroup, Keep, Modifier};
use crate::text::{decimal, join, push_decimal, push_join_part, push_str, string_from_chars};

verus! {

/// rand's standard generator, which the rolls draw from.
#[verifier::external_type_specification]
#[verifier::external_body]
pub struct ExStdRng(rand::rngs::StdRng);

// ── Keep rules ───────────────────────────────────────────────────────────────

/// The order in which a keep rule ranks dice: highest first when
/// `descending`, lowest first otherwise.
pub open spec fn dice_order(descending: bool) -> spec_fn(u32, u32) -> bool {
    |a: u32, b: u32|
        if descending {
            a >= b
        } else {
            a <= b
        }
}

/// Either ranking is a total order.
pub proof fn lemma_dice_order_total(descending: bool)
    ensures
        total_ordering(dice_order(descending)),
{
}

/// The smaller of two integers.
pub open spec fn min_int(a: int, b: int) -> int {
    if a <= b {
        a
    } else {
        b
    }
}

/// The larger of two integers.
pub open spec fn max_int(a: int, b: int) -> int {
    if a >= b {
        a
    } else {
        b
    }
}

/// The dice a keep rule keeps from the faces rolled: all of them in roll
/// order, or the `n` highest (highest first), or the `n` lowest (lowest
/// first), all of them when fewer than `n` were rolled.
pub open spec fn kept_dice(faces: Seq<u32>, keep: Keep) -> Seq<u32> {
    match keep {
        Keep::All => faces,
        Keep::Highest(n) => faces.sort_by(dice_order(true)).take(
            min_int(n as int, faces.len() as int),
        ),
        Keep::Lowest(n) => faces.sort_by(dice_order(false)).take(
            min_int(n as int, faces.len() as int),
        ),
    }
}

/// Whether `a` may come before `b` in the ranking.
fn ranks_before(a: u32, b: u32, descending: bool) -> (r: bool)
    ensures
        r == dice_order(descending)(a, b),
{
    if descending {
        a >= b
    } else {
        a <= b
    }
}

/// The faces of `v`, ranked by [`dice_order`].
fn sorted_copy(v: &Vec<u32>, descending: bool) -> (r: Vec<u32>)
    ensures
        r@ == v@.sort_by(dice_order(descending)),
{
    let ghost leq = dice_order(descending);
    let mut out: Vec<u32> = Vec::new();
    let mut i: usize = 0;
    assert(v@.take(0) =~= out@);
    while i < v.len()
        invariant
            0 <= i <= v.len(),
            leq == dice_order(descending),
            sorted_by(out@, leq),
            out@.to_multiset() == v@.take(i as int).to_multiset(),
        decreases v.len() - i,
    {
        let x = v[i];
        let mut pos: usize = 0;
        while pos < out.len() && ranks_before(out[pos], x, descending)
            invariant
                0 <= pos <= out.len(),
                leq == dice_order(descending),
                forall|k: int| 0 <= k < pos ==> leq(#[trigger] out@[k], x),
            decreases out.len() - pos,
        {
            pos = pos + 1;
        }
        let ghost before = out@;
        out.insert(pos, x);
        proof {
            assert(pos < before.len() ==> !leq(before[pos as int], x));
            assert forall|a: int, b: int| 0 <= a < b < out@.len() implies #[trigger] leq(
                out@[a],
                out@[b],
            ) by {
                if b < pos {
                    assert(out@[a] == before[a] && out@[b] == before[b]);
                } else if b == pos {
                    assert(out@[a] == before[a]);
                } else if a < pos {
                    assert(out@[a] == before[a] && out@[b] == before[b - 1]);
                    assert(leq(before[a], before[pos as int]));
                    assert(leq(before[pos as int], before[b - 1]) || pos == b - 1);
                } else if a == pos {
                    assert(out@[b] == before[b - 1]);
                    assert(leq(before[pos as int], before[b - 1]) || pos == b - 1);
                } else {
                    assert(out@[a] == before[a - 1] && out@[b] == before[b - 1]);
                }
            }
            to_multiset_insert(before, pos as int, x);
            assert(v@.take(i + 1) =~= v@.take(i as int).push(x));
            to_multiset_build(v@.take(i as int), x);
        }
        i = i + 1;
    }
    proof {
        assert(v@.take(v.len() as int) =~= v@);
        lemma_dice_order_total(descending);
        v@.lemma_sort_by_ensures(leq);
        lemma_sorted_unique(out@, v@.sort_by(leq), leq);
    }
    out
}

/// The first `n` elements of `v`, or all of them when it is shorter.
fn take_first(v: &Vec<u32>, n: u32) -> (r: Vec<u32>)
    ensures
        r@ == v@.take(min_int(n as int, v.len() as int)),
{
    let m: usize = if (n as usize) < v.len() {
        n as usize
    } else {
        v.len()
    };
    let mut r: Vec<u32> = Vec::new();
    let mut i: usize = 0;
    while i < m
        invariant
            0 <= i <= m <= v.len(),
            m == min_int(n as int, v.len() as int),
            r@ == v@.take(i as int),
        decreases m - i,
    {
        r.push(v[i]);
        i = i + 1;
        assert(r@ =~= v@.take(i as int));
    }
    r
}

/// The dice that `keep` keeps from the rolled `faces`.
pub fn apply_keep(faces: &Vec<u32>, keep: Keep) -> (kept: Vec<u32>)
    ensures
        kept@ == kept_dice(faces@, keep),
{
    match keep {
        Keep::All => faces.clone(),
        Keep::Highest(n) => {
            let sorted = sorted_copy(faces, true);
            proof {
                lemma_dice_order_total(true);
                faces@.lemma_sort_by_ensures(dice_order(true));
                assert(sorted@.len() == faces@.len()) by {
                    assert(sorted@.to_multiset().len() == faces@.to_multiset().len());
                    sorted@.to_multiset_ensures();
                    faces@.to_multiset_ensures();
                }
            }
            take_first(&sorted, n)
        },
        Keep::Lowest(n) => {
            let sorted = sorted_copy(faces, false);
            proof {
                lemma_dice_order_total(false);
                faces@.lemma_sort_by_ensures(dice_order(false));
                assert(sorted@.len() == faces@.len()) by {
                    assert(sorted@.to_multiset().len() == faces@.to_multiset().len());
                    sorted@.to_multiset_ensures();
                    faces@.to_multiset_ensures();
                }
            }
            take_first(&sorted, n)
        },
    }
}

/// How many dice a keep rule keeps out of `count`.
pub open spec fn kept_count(count: u32, keep: Keep) -> int {
    match keep {
        Keep::All => count as int,
        Keep::Highest(n) => min_int(n as int, count as int),
        Keep::Lowest(n) => min_int(n as int, count as int),
    }
}

/// Every face lies in `1..=sides`.
pub open spec fn faces_within(faces: Seq<u32>, sides: u32) -> bool {
    forall|i: int| 0 <= i < faces.len() ==> 1 <= #[trigger] faces[i] <= sides
}

/// The kept dice are as many as the rule keeps, and lie where the faces lie.
pub proof fn lemma_kept_dice_within(faces: Seq<u32>, keep: Keep, sides: u32)
    requires
        faces_within(faces, sides),
    ensures
        kept_dice(faces, keep).len() == kept_count(faces.len() as u32, keep) || faces.len()
            > u32::MAX,
        faces_within(kept_dice(faces, keep), sides),
{
    match keep {
        Keep::All => {},
        Keep::Highest(_) => lemma_sorted_within(faces, true, sides),
        Keep::Lowest(_) => lemma_sorted_within(faces, false, sides),
    }
}

/// Whether `a` may come before `b` among the dice `keep` keeps: any order
/// for all dice, highest first or lowest first for a keep rule.
pub open spec fn keep_order(keep: Keep, a: u32, b: u32) -> bool {
    match keep {
        Keep::All => true,
        Keep::Highest(_) => a >= b,
        Keep::Lowest(_) => a <= b,
    }
}

/// A keep rule keeps the highest dice highest first, or the lowest lowest
/// first, and keeps only dice that were rolled.
pub proof fn law_kept_dice_order(faces: Seq<u32>, keep: Keep)
    ensures
        forall|i: int, j: int|
            0 <= i < j < kept_dice(faces, keep).len() ==> keep_order(
                keep,
                #[trigger] kept_dice(faces, keep)[i],
                #[trigger] kept_dice(faces, keep)[j],
            ),
        kept_dice(faces, keep).to_multiset().subset_of(faces.to_multiset()),
{
    match keep {
        Keep::All => {
            assert(faces.to_multiset().subset_of(faces.to_multiset()));
        },
        Keep::Highest(n) => lemma_sorted_prefix(faces, true, min_int(n as int, faces.len() as int)),
        Keep::Lowest(n) => lemma_sorted_prefix(faces, false, min_int(n as int, faces.len() as int)),
    }
}

proof fn lemma_sorted_prefix(faces: Seq<u32>, descending: bool, k: int)
    requires
        0 <= k <= faces.len(),
    ensures
        faces.sort_by(dice_order(descending)).take(k).len() == k,
        forall|i: int, j: int|
            0 <= i < j < k ==> (if descending {
                faces.sort_by(dice_order(descending)).take(k)[i] >= faces.sort_by(
                    dice_order(descending),
                ).take(k)[j]
            } else {
                faces.sort_by(dice_order(descending)).take(k)[i] <= faces.sort_by(
                    dice_order(descending),
                ).take(k)[j]
            }),
        faces.sort_by(dice_order(descending)).take(k).to_multiset().subset_of(faces.to_multiset()),
{
    let leq = dice_order(descending);
    let sorted = faces.sort_by(leq);
    lemma_dice_order_total(descending);
    faces.lemma_sort_by_ensures(leq);
    sorted.to_multiset_ensures();
    faces.to_multiset_ensures();
    assert(sorted.len() == faces.len());
    let kept = sorted.take(k);
    assert forall|i: int, j: int| 0 <= i < j < k implies (if descending {
        kept[i] >= kept[j]
    } else {
        kept[i] <= kept[j]
    }) by {
        assert(leq(sorted[i], sorted[j]));
    }
    assert(sorted =~= kept + sorted.skip(k));
    vstd::seq_lib::lemma_multiset_commutative(kept, sorted.skip(k));
    assert(kept.to_multiset().subset_of(sorted.to_multiset()));
}

proof fn lemma_sorted_within(faces: Seq<u32>, descending: bool, sides: u32)
    requires
        faces_within(faces, sides),
    ensures
        faces.sort_by(dice_order(descending)).len() == faces.len(),
        faces_within(faces.sort_by(dice_order(descending)), sides),
{
    let sorted = faces.sort_by(dice_order(descending));
    lemma_dice_order_total(descending);
    faces.lemma_sort_by_ensures(dice_order(descending));
    sorted.to_multiset_ensures();
    faces.to_multiset_ensures();
    assert forall|i: int| 0 <= i < sorted.len() implies 1 <= #[trigger] sorted[i] <= sides by {
        assert(sorted.contains(sorted[i]));
        assert(faces.contains(sorted[i]));
        let j = choose|j: int| 0 <= j < faces.len() && faces[j] == sorted[i];
        assert(1 <= faces[j] <= sides);
    }
}

// ── Sums ─────────────────────────────────────────────────────────────────────

/// The sum of some dice.
pub open spec fn dice_sum(s: Seq<u32>) -> int
    decreases s.len(),
{
    if s.len() == 0 {
        0
    } else {
        dice_sum(s.drop_last()) + s.last()
    }
}

/// The sum of the kept dice of every group.
pub open spec fn groups_sum(k: Seq<Seq<u32>>) -> int
    decreases k.len(),
{
    if k.len() == 0 {
        0
    } else {
        groups_sum(k.drop_last()) + dice_sum(k.last())
    }
}

/// A sum of dice within `lo..=hi` lies between `len * lo` and `len * hi`.
pub proof fn lemma_dice_sum_bounds(s: Seq<u32>, sides: u32)
    requires
        faces_within(s, sides),
    ensures
        s.len() <= dice_sum(s) <= s.len() * sides,
    decreases s.len(),
{
    if s.len() > 0 {
        assert(faces_within(s.drop_last(), sides)) by {
            assert forall|i: int| 0 <= i < s.drop_last().len() implies 1 <= #[trigger] s.drop_last()[i]
                <= sides by {
                assert(s.drop_last()[i] == s[i]);
            }
        }
        lemma_dice_sum_bounds(s.drop_last(), sides);
        assert(1 <= s[s.len() - 1] <= sides);
        assert((s.len() - 1) * sides + sides == s.len() * sides) by (nonlinear_arith);
    }
}

/// A prefix of non-negative dice sums to no more than the whole.
pub proof fn lemma_dice_sum_prefix(s: Seq<u32>, i: int)
    requires
        0 <= i <= s.len(),
    ensures
        0 <= dice_sum(s.take(i)) <= dice_sum(s),
    decreases s.len(),
{
    if i == s.len() {
        assert(s.take(i) =~= s);
        lemma_dice_sum_prefix_nonneg(s);
    } else {
        assert(s.drop_last().take(i) =~= s.take(i));
        lemma_dice_sum_prefix(s.drop_last(), i);
    }
}

proof fn lemma_dice_sum_prefix_nonneg(s: Seq<u32>)
    ensures
        dice_sum(s) >= 0,
    decreases s.len(),
{
    if s.len() > 0 {
        lemma_dice_sum_prefix_nonneg(s.drop_last());
    }
}

// ── Rolls ────────────────────────────────────────────────────────────────────

/// The largest sum the kept dice of a group can reach.
pub open spec fn group_max(g: DiceGroup) -> int {
    kept_count(g.count, g.keep) * g.sides
}

/// The sum of [`group_max`] over groups.
pub open spec fn groups_max(gs: Seq<DiceGroup>) -> int
    decreases gs.len(),
{
    if gs.len() == 0 {
        0
    } else {
        groups_max(gs.drop_last()) + group_max(gs.last())
    }
}

/// An expression that can be rolled: every group has at least one side (a
/// die of none cannot be rolled), and no sum of kept dice, alone or with the
/// flat bonus, can leave the `i64` range.
pub open spec fn rollable(e: DiceExprView) -> bool {
    &&& forall|i: int| 0 <= i < e.groups.len() ==> (#[trigger] e.groups[i]).sides >= 1
    &&& forall|i: int| 0 <= i < e.groups.len() ==> group_max(#[trigger] e.groups[i]) <= i64::MAX
    &&& e.flat_bonus + groups_max(e.groups) <= i64::MAX
}

/// `raw` holds the faces rolled for each group of `e`, `kept` the dice the
/// keep rules keep, and `total` their sum plus the flat bonus.
pub open spec fn roll_outcome(
    e: DiceExprView,
    raw: Seq<Seq<u32>>,
    total: int,
    kept: Seq<Seq<u32>>,
) -> bool {
    &&& raw.len() == e.groups.len()
    &&& kept.len() == e.groups.len()
    &&& forall|i: int|
        0 <= i < e.groups.len() ==> (#[trigger] raw[i]).len() == e.groups[i].count
            && faces_within(raw[i], e.groups[i].sides)
    &&& forall|i: int|
        0 <= i < e.groups.len() ==> #[trigger] kept[i] == kept_dice(raw[i], e.groups[i].keep)
    &&& total == e.flat_bonus + groups_sum(kept)
}

/// One roll of `e` can give `total` with `kept` as the dice kept per group.
pub open spec fn is_roll(e: DiceExprView, total: int, kept: Seq<Seq<u32>>) -> bool {
    exists|raw: Seq<Seq<u32>>| roll_outcome(e, raw, total, kept)
}

/// Which of two totals a modifier uses: the first with none, the higher
/// with advantage, the lower with disadvantage.
pub open spec fn picked(m: Modifier, a: int, b: int) -> int {
    match m {
        Modifier::Normal => a,
        Modifier::Advantage => max_int(a, b),
        Modifier::Disadvantage => min_int(a, b),
    }
}

/// The total a modifier uses of two rolled totals `a` and `b`.
pub fn pick(modifier: Modifier, a: i64, b: i64) -> (r: i64)
    ensures
        r == picked(modifier, a as int, b as int),
{
    match modifier {
        Modifier::Normal => a,
        Modifier::Advantage => if a >= b { a } else { b },
        Modifier::Disadvantage => if a <= b { a } else { b },
    }
}

/// One roll of `e` can total `t`.
pub open spec fn possible_total(e: DiceExprView, t: int) -> bool {
    exists|kept: Seq<Seq<u32>>| is_roll(e, t, kept)
}

/// `e` can give the value `v` once its modifier is applied: one roll, or the
/// higher (advantage) or lower (disadvantage) of two.
pub open spec fn possible_value(e: DiceExprView, v: int) -> bool {
    match e.modifier {
        Modifier::Normal => possible_total(e, v),
        Modifier::Advantage => exists|a: int, b: int|
            possible_total(e, a) && possible_total(e, b) && v == max_int(a, b),
        Modifier::Disadvantage => exists|a: int, b: int|
            possible_total(e, a) && possible_total(e, b) && v == min_int(a, b),
    }
}

/// The mathematical value of a list of kept dice per group.
pub open spec fn nested_view(v: Seq<Vec<u32>>) -> Seq<Seq<u32>> {
    v.map_values(|x: Vec<u32>| x@)
}

/// rand's `Rng::random_range` on `1..=sides`: a face from 1 to `sides`. The
/// range is never empty here, which is where `random_range` panics. Which face
/// comes back depends on the generator's state and is not stated.
#[verifier::external_body]
fn roll_die(rng: &mut StdRng, sides: u32) -> (face: u32)
    requires
        sides >= 1,
    ensures
        1 <= face <= sides,
{
    rng.random_range(1..=sides)
}

/// Rolls `count` dice of `sides` sides.
fn roll_faces(rng: &mut StdRng, count: u32, sides: u32) -> (faces: Vec<u32>)
    requires
        sides >= 1,
    ensures
        faces@.len() == count,
        faces_within(faces@, sides),
{
    let mut faces: Vec<u32> = Vec::new();
    let mut i: u32 = 0;
    while i < count
        invariant
            0 <= i <= count,
            sides >= 1,
            faces@.len() == i,
            faces_within(faces@, sides),
        decreases count - i,
    {
        let f = roll_die(rng, sides);
        faces.push(f);
        i = i + 1;
    }
    faces
}

/// The sum of some dice, each in `1..=sides`.
fn sum_kept(kept: &Vec<u32>, sides: u32) -> (s: i64)
    requires
        faces_within(kept@, sides),
        kept@.len() * sides <= i64::MAX,
    ensures
        s == dice_sum(kept@),
{
    let mut s: i64 = 0;
    let mut j: usize = 0;
    proof {
        lemma_dice_sum_bounds(kept@, sides);
    }
    while j < kept.len()
        invariant
            0 <= j <= kept.len(),
            dice_sum(kept@) <= i64::MAX,
            s == dice_sum(kept@.take(j as int)),
        decreases kept.len() - j,
    {
        proof {
            lemma_dice_sum_prefix(kept@, j + 1);
            assert(kept@.take(j + 1).drop_last() =~= kept@.take(j as int));
        }
        s = s + kept[j] as i64;
        j = j + 1;
    }
    assert(kept@.take(kept.len() as int) =~= kept@);
    s
}

proof fn lemma_groups_max_prefix(gs: Seq<DiceGroup>, i: int)
    requires
        0 <= i <= gs.len(),
    ensures
        0 <= groups_max(gs.take(i)) <= groups_max(gs),
    decreases gs.len(),
{
    if i == gs.len() {
        assert(gs.take(i) =~= gs);
        lemma_groups_max_nonneg(gs);
    } else {
        assert(gs.drop_last().take(i) =~= gs.take(i));
        lemma_groups_max_prefix(gs.drop_last(), i);
        assert(group_max(gs.last()) >= 0) by (nonlinear_arith)
            requires
                group_max(gs.last()) == kept_count(gs.last().count, gs.last().keep) * gs.last().sides,
                kept_count(gs.last().count, gs.last().keep) >= 0,
        ;
    }
}

proof fn lemma_groups_max_nonneg(gs: Seq<DiceGroup>)
    ensures
        groups_max(gs) >= 0,
    decreases gs.len(),
{
    if gs.len() > 0 {
        lemma_groups_max_nonneg(gs.drop_last());
        assert(group_max(gs.last()) >= 0) by (nonlinear_arith)
            requires
                group_max(gs.last()) == kept_count(gs.last().count, gs.last().keep) * gs.last().sides,
                kept_count(gs.last().count, gs.last().keep) >= 0,
        ;
    }
}

/// Whether `expr` can be rolled (see [`rollable`]).
pub fn can_roll(expr: &DiceExpr) -> (r: bool)
    ensures
        r == rollable(expr@),
{
    let mut total: i128 = expr.flat_bonus as i128;
    let mut i: usize = 0;
    while i < expr.groups.len()
        invariant
            0 <= i <= expr.groups.len(),
            expr@.groups == expr.groups@,
            total == expr.flat_bonus + groups_max(expr.groups@.take(i as int)),
            total <= i64::MAX,
            forall|k: int| 0 <= k < i ==> (#[trigger] expr.groups@[k]).sides >= 1,
            forall|k: int| 0 <= k < i ==> group_max(#[trigger] expr.groups@[k]) <= i64::MAX,
        decreases expr.groups.len() - i,
    {
        let g = expr.groups[i];
        assert(expr.groups@.take(i + 1).drop_last() =~= expr.groups@.take(i as int));
        assert(groups_max(expr.groups@.take(i + 1)) == groups_max(expr.groups@.take(i as int))
            + group_max(g));
        if g.sides == 0 {
            assert(expr@.groups[i as int].sides == 0);
            return false;
        }
        let n: u32 = match g.keep {
            Keep::All => g.count,
            Keep::Highest(k) => if k < g.count { k } else { g.count },
            Keep::Lowest(k) => if k < g.count { k } else { g.count },
        };
        assert(n == kept_count(g.count, g.keep));
        assert(n * g.sides <= u32::MAX * u32::MAX) by (nonlinear_arith)
            requires
                n <= u32::MAX,
                g.sides <= u32::MAX,
        ;
        let m: i128 = n as i128 * g.sides as i128;
        assert(m == group_max(g));
        if m > i64::MAX as i128 {
            assert(group_max(expr@.groups[i as int]) > i64::MAX);
            return false;
        }
        if total + m > i64::MAX as i128 {
            proof {
                lemma_groups_max_prefix(expr.groups@, i + 1);
            }
            return false;
        }
        total = total + m;
        i = i + 1;
    }
    assert(expr.groups@.take(i as int) =~= expr.groups@);
    true
}

/// Roll the dice once, returning the total and the kept dice per group.
///
/// For groups with a [`Keep`] rule, only the kept dice are included in the
/// inner `Vec`, highest first for `kh` and lowest first for `kl`; the total
/// already reflects the keep logic.
pub fn roll_once(expr: &DiceExpr, rng: &mut StdRng) -> (r: (i64, Vec<Vec<u32>>))
    requires
        rollable(expr@),
    ensures
        is_roll(expr@, r.0 as int, nested_view(r.1@)),
{
    let mut total: i64 = expr.flat_bonus;
    let mut all_rolls: Vec<Vec<u32>> = Vec::new();
    let ghost mut raw: Seq<Seq<u32>> = Seq::empty();
    let mut i: usize = 0;
    while i < expr.groups.len()
        invariant
            0 <= i <= expr.groups.len(),
            rollable(expr@),
            raw.len() == i,
            all_rolls@.len() == i,
            forall|k: int|
                0 <= k < i ==> (#[trigger] raw[k]).len() == expr.groups@[k].count && faces_within(
                    raw[k],
                    expr.groups@[k].sides,
                ),
            forall|k: int|
                0 <= k < i ==> #[trigger] nested_view(all_rolls@)[k] == kept_dice(
                    raw[k],
                    expr.groups@[k].keep,
                ),
            forall|k: int|
                0 <= k < i ==> faces_within(
                    #[trigger] nested_view(all_rolls@)[k],
                    expr.groups@[k].sides,
                ) && nested_view(all_rolls@)[k].len() * expr.groups@[k].sides <= group_max(
                    expr.groups@[k],
                ),
            total == expr.flat_bonus + groups_sum(nested_view(all_rolls@)),
            groups_sum(nested_view(all_rolls@)) <= groups_max(expr.groups@.take(i as int)),
        decreases expr.groups.len() - i,
    {
        let g = expr.groups[i];
        assert(g.sides >= 1);
        let faces = roll_faces(rng, g.count, g.sides);
        let kept = apply_keep(&faces, g.keep);
        proof {
            lemma_kept_dice_within(faces@, g.keep, g.sides);
            assert(group_max(expr.groups@[i as int]) <= i64::MAX);
            assert(kept@.len() * g.sides <= group_max(g)) by (nonlinear_arith)
                requires
                    kept@.len() == kept_count(g.count, g.keep),
                    group_max(g) == kept_count(g.count, g.keep) * g.sides,
            ;
        }
        let s = sum_kept(&kept, g.sides);
        proof {
            lemma_dice_sum_bounds(kept@, g.sides);
            lemma_groups_max_prefix(expr.groups@, i + 1);
            assert(expr.groups@.take(i + 1).drop_last() =~= expr.groups@.take(i as int));
            assert(nested_view(all_rolls@.push(kept)).drop_last() =~= nested_view(all_rolls@));
        }
        total = total + s;
        let ghost old_nv = nested_view(all_rolls@);
        let ghost kept_v = kept@;
        all_rolls.push(kept);
        proof {
            assert(nested_view(all_rolls@) =~= old_nv.push(kept_v));
            raw = raw.push(faces@);
        }
        i = i + 1;
    }
    proof {
        assert(roll_outcome(expr@, raw, total as int, nested_view(all_rolls@)));
    }
    (total, all_rolls)
}

/// Roll and return just the final value, applying advantage/disadvantage.
pub fn roll_value(expr: &DiceExpr, rng: &mut StdRng) -> (v: i64)
    requires
        rollable(expr@),
    ensures
        possible_value(expr@, v as int),
{
    match expr.modifier {
        Modifier::Normal => {
            let (t, k) = roll_once(expr, rng);
            assert(possible_total(expr@, t as int));
            t
        },
        Modifier::Advantage => {
            let (a, ka) = roll_once(expr, rng);
            let (b, kb) = roll_once(expr, rng);
            assert(possible_total(expr@, a as int));
            assert(possible_total(expr@, b as int));
            let v = pick(expr.modifier, a, b);
            assert(possible_total(expr@, a as int) && possible_total(expr@, b as int) && v
                == max_int(a as int, b as int));
            v
        },
        Modifier::Disadvantage => {
            let (a, ka) = roll_once(expr, rng);
            let (b, kb) = roll_once(expr, rng);
            assert(possible_total(expr@, a as int));
            assert(possible_total(expr@, b as int));
            let v = pick(expr.modifier, a, b);
            assert(possible_total(expr@, a as int) && possible_total(expr@, b as int) && v
                == min_int(a as int, b as int));
            v
        },
    }
}

// ── Breakdown text ───────────────────────────────────────────────────────────

/// The dice of one group in brackets, e.g. `[3, 5]`.
pub open spec fn bracket_text(dice: Seq<u32>) -> Seq<char> {
    seq!['['] + join(dice.map_values(|d: u32| decimal(d as nat)), seq![',', ' ']) + seq![']']
}

/// The groups of a roll joined by ` + `, e.g. `[3, 5] + [2]`.
pub open spec fn rolls_text(rolls: Seq<Seq<u32>>) -> Seq<char> {
    join(rolls.map_values(|g: Seq<u32>| bracket_text(g)), seq![' ', '+', ' '])
}

/// The bracketed text of one group's dice.
fn bracket_chars(dice: &Vec<u32>) -> (r: Vec<char>)
    ensures
        r@ == bracket_text(dice@),
{
    let ghost parts = dice@.map_values(|d: u32| decimal(d as nat));
    let mut inner: Vec<char> = Vec::new();
    let mut i: usize = 0;
    assert(parts.take(0) =~= Seq::<Seq<char>>::empty());
    while i < dice.len()
        invariant
            0 <= i <= dice.len(),
            parts == dice@.map_values(|d: u32| decimal(d as nat)),
            inner@ == join(parts.take(i as int), seq![',', ' ']),
        decreases dice.len() - i,
    {
        let mut num: Vec<char> = Vec::new();
        push_decimal(&mut num, dice[i] as u128);
        assert(num@ =~= parts[i as int]);
        proof {
            reveal_strlit(", ");
            assert(", "@ =~= seq![',', ' ']);
        }
        push_join_part(&mut inner, ", ", &num, i == 0, Ghost(parts.take(i as int)));
        assert(parts.take(i as int).push(num@) =~= parts.take(i + 1));
        i = i + 1;
    }
    assert(parts.take(dice.len() as int) =~= parts);
    let mut r: Vec<char> = Vec::new();
    r.push('[');
    let ghost opened = r@;
    let mut k: usize = 0;
    while k < inner.len()
        invariant
            0 <= k <= inner.len(),
            r@ == opened + inner@.take(k as int),
            opened == seq!['['],
        decreases inner.len() - k,
    {
        r.push(inner[k]);
        k = k + 1;
        assert(r@ =~= opened + inner@.take(k as int));
    }
    r.push(']');
    assert(inner@.take(inner.len() as int) =~= inner@);
    assert(r@ =~= bracket_text(dice@));
    r
}

/// The characters of [`rolls_text`].
fn rolls_chars(rolls: &[Vec<u32>]) -> (r: Vec<char>)
    ensures
        r@ == rolls_text(nested_view(rolls@)),
{
    let ghost parts = nested_view(rolls@).map_values(|g: Seq<u32>| bracket_text(g));
    let mut out: Vec<char> = Vec::new();
    let mut i: usize = 0;
    assert(parts.take(0) =~= Seq::<Seq<char>>::empty());
    while i < rolls.len()
        invariant
            0 <= i <= rolls@.len(),
            parts == nested_view(rolls@).map_values(|g: Seq<u32>| bracket_text(g)),
            out@ == join(parts.take(i as int), seq![' ', '+', ' ']),
        decreases rolls@.len() - i,
    {
        let b = bracket_chars(&rolls[i]);
        assert(b@ == parts[i as int]);
        proof {
            reveal_strlit(" + ");
            assert(" + "@ =~= seq![' ', '+', ' ']);
        }
        push_join_part(&mut out, " + ", &b, i == 0, Ghost(parts.take(i as int)));
        assert(parts.take(i as int).push(b@) =~= parts.take(i + 1));
        i = i + 1;
    }
    assert(parts.take(rolls@.len() as int) =~= parts);
    out
}

/// Format roll results as a human-readable string like `[3, 5] + [2]`.
pub fn format_rolls(rolls: &[Vec<u32>]) -> (s: String)
    ensures
        s@ == rolls_text(nested_view(rolls@)),
{
    let r = rolls_chars(rolls);
    string_from_chars(&r)
}

/// `text` is a breakdown that rolling `e` can produce along with `total`:
/// the kept dice of one roll, or of two rolls separated by ` vs ` under
/// advantage or disadvantage.
pub open spec fn possible_breakdown(e: DiceExprView, total: int, text: Seq<char>) -> bool {
    match e.modifier {
        Modifier::Normal => exists|k: Seq<Seq<u32>>| is_roll(e, total, k) && text == rolls_text(k),
        Modifier::Advantage => exists|t1: int, k1: Seq<Seq<u32>>, t2: int, k2: Seq<Seq<u32>>|
            is_roll(e, t1, k1) && is_roll(e, t2, k2) && total == max_int(t1, t2) && text
                == rolls_text(k1) + seq![' ', 'v', 's', ' '] + rolls_text(k2),
        Modifier::Disadvantage => exists|t1: int, k1: Seq<Seq<u32>>, t2: int, k2: Seq<Seq<u32>>|
            is_roll(e, t1, k1) && is_roll(e, t2, k2) && total == min_int(t1, t2) && text
                == rolls_text(k1) + seq![' ', 'v', 's', ' '] + rolls_text(k2),
    }
}

/// Roll with detailed output, returning the total and a human-readable
/// breakdown.
pub fn roll_verbose(expr: &DiceExpr, rng: &mut StdRng) -> (r: (i64, String))
    requires
        rollable(expr@),
    ensures
        possible_breakdown(expr@, r.0 as int, r.1@),
{
    match expr.modifier {
        Modifier::Normal => {
            let (total, rolls) = roll_once(expr, rng);
            let text = format_rolls(rolls.as_slice());
            assert(is_roll(expr@, total as int, nested_view(rolls@)) && text@ == rolls_text(
                nested_view(rolls@),
            ));
            (total, text)
        },
        Modifier::Advantage | Modifier::Disadvantage => {
            let (a, rolls_a) = roll_once(expr, rng);
            let (b, rolls_b) = roll_once(expr, rng);
            let total = pick(expr.modifier, a, b);
            let mut out = rolls_chars(rolls_a.as_slice());
            push_str(&mut out, " vs ");
            let tail = rolls_chars(rolls_b.as_slice());
            let ghost head = out@;
            let mut k: usize = 0;
            while k < tail.len()
                invariant
                    0 <= k <= tail.len(),
                    out@ == head + tail@.take(k as int),
                decreases tail.len() - k,
            {
                out.push(tail[k]);
                k = k + 1;
                assert(out@ =~= head + tail@.take(k as int));
            }
            proof {
                reveal_strlit(" vs ");
                assert(" vs "@ =~= seq![' ', 'v', 's', ' ']);
                assert(tail@.take(tail.len() as int) =~= tail@);
                assert(out@ =~= rolls_text(nested_view(rolls_a@)) + seq![' ', 'v', 's', ' ']
                    + rolls_text(nested_view(rolls_b@)));
            }
            let text = string_from_chars(&out);
            proof {
                let t1 = a as int;
                let t2 = b as int;
                let k1 = nested_view(rolls_a@);
                let k2 = nested_view(rolls_b@);
                if expr.modifier == Modifier::Advantage {
                    assert(is_roll(expr@, t1, k1) && is_roll(expr@, t2, k2) && total == max_int(
                        t1,
                        t2,
                    ) && text@ == rolls_text(k1) + seq![' ', 'v', 's', ' '] + rolls_text(k2));
                } else {
                    assert(is_roll(expr@, t1, k1) && is_roll(expr@, t2, k2) && total == min_int(
                        t1,
                        t2,
                    ) && text@ == rolls_text(k1) + seq![' ', 'v', 's', ' '] + rolls_text(k2));
                }
            }
            (total, text)
        },
    }
}

} // verus!
