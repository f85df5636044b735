//! Exact probabilities, counted: for an expression without advantage,
//! disadvantage or keep rules, the number of ways the dice can fall so that
//! the roll answers a query, out of all the ways they can fall. The ratio of
//! the two is the exact probability.

use vstd::prelude::*;

use crate::dist::{exact_applies, supports_exact_probability, ProbabilityQuery};
use crate::expr::{DiceExpr, DiceExprView, DiceGroup, Keep};
use crate::roll::{
    dice_sum, faces_within, groups_sum, is_roll, kept_dice, possible_value,
    roll_outcome,
};

verus! {

/// The number of ways dice with the given sides (one entry per die) can
/// show faces summing to `t`.
pub open spec fn ways(dice: Seq<u32>, t: int) -> nat
    decreases dice.len(), 0x1_0000_0000int,
{
    if dice.len() == 0 {
        if t == 0 {
            1
        } else {
            0
        }
    } else {
        face_ways(dice.drop_last(), t, dice.last() as int)
    }
}

/// The sum of `ways(dice, t - f)` for each face `f` in `1..=k`.
pub open spec fn face_ways(dice: Seq<u32>, t: int, k: int) -> nat
    decreases dice.len() + 1, k,
{
    if k <= 0 {
        0
    } else {
        face_ways(dice, t, k - 1) + ways(dice, t - k)
    }
}

/// The greatest total of the dice: the sum of their sides.
pub open spec fn top(dice: Seq<u32>) -> int
    decreases dice.len(),
{
    if dice.len() == 0 {
        0
    } else {
        top(dice.drop_last()) + dice.last()
    }
}

/// The number of ways the dice can fall: the product of their sides.
pub open spec fn combos(dice: Seq<u32>) -> nat
    decreases dice.len(),
{
    if dice.len() == 0 {
        1
    } else {
        combos(dice.drop_last()) * dice.last() as nat
    }
}

/// The product of the sides, a side count of zero taken as one: a bound on
/// every count of ways, for the dice and for each of their prefixes.
pub open spec fn combo_bound(dice: Seq<u32>) -> nat
    decreases dice.len(),
{
    if dice.len() == 0 {
        1
    } else {
        combo_bound(dice.drop_last()) * (if dice.last() == 0 {
            1
        } else {
            dice.last() as nat
        })
    }
}

/// The sum of `ways(dice, t)` for `t` in `lo..hi`.
pub open spec fn sum_ways(dice: Seq<u32>, lo: int, hi: int) -> nat
    decreases hi - lo,
{
    if hi <= lo {
        0
    } else {
        sum_ways(dice, lo, hi - 1) + ways(dice, hi - 1)
    }
}

/// The sum of `face_ways(dice, t, k)` for `t` in `lo..hi`.
pub open spec fn sum_face_ways(dice: Seq<u32>, k: int, lo: int, hi: int) -> nat
    decreases hi - lo,
{
    if hi <= lo {
        0
    } else {
        sum_face_ways(dice, k, lo, hi - 1) + face_ways(dice, hi - 1, k)
    }
}

/// A die of `k` sides added to `dice`: each total counts the ways of the
/// other dice to make up what its face leaves.
proof fn lemma_ways_push(dice: Seq<u32>, k: u32, t: int)
    ensures
        ways(dice.push(k), t) == face_ways(dice, t, k as int),
{
    assert(dice.push(k).drop_last() =~= dice);
}

proof fn lemma_sum_ways_push(dice: Seq<u32>, k: u32, lo: int, hi: int)
    ensures
        sum_ways(dice.push(k), lo, hi) == sum_face_ways(dice, k as int, lo, hi),
    decreases hi - lo,
{
    if hi > lo {
        lemma_sum_ways_push(dice, k, lo, hi - 1);
        lemma_ways_push(dice, k, hi - 1);
    }
}

proof fn lemma_sum_face_step(dice: Seq<u32>, k: int, lo: int, hi: int)
    requires
        k > 0,
    ensures
        sum_face_ways(dice, k, lo, hi) == sum_face_ways(dice, k - 1, lo, hi) + sum_ways(
            dice,
            lo - k,
            hi - k,
        ),
    decreases hi - lo,
{
    if hi > lo {
        lemma_sum_face_step(dice, k, lo, hi - 1);
    }
}

/// Summed over a range that holds every total, the counts of ways add up to
/// the number of ways the dice can fall.
pub proof fn lemma_sum_ways_total(dice: Seq<u32>, lo: int, hi: int)
    requires
        lo <= 0,
        hi > top(dice),
    ensures
        sum_ways(dice, lo, hi) == combos(dice),
    decreases dice.len(), 0x1_0000_0000int,
{
    if dice.len() == 0 {
        assert(dice =~= Seq::empty());
        lemma_sum_ways_empty(lo, hi);
    } else {
        let d = dice.drop_last();
        let k = dice.last();
        assert(d.push(k) =~= dice);
        lemma_sum_ways_push(d, k, lo, hi);
        lemma_sum_face_total(d, k as int, lo, hi);
        assert(k as int * combos(d) == combos(d) * k as nat) by (nonlinear_arith);
    }
}

proof fn lemma_sum_ways_empty(lo: int, hi: int)
    requires
        lo <= 0 < hi,
    ensures
        sum_ways(Seq::empty(), lo, hi) == 1,
    decreases hi - lo,
{
    if hi - 1 > 0 {
        lemma_sum_ways_empty(lo, hi - 1);
    } else {
        lemma_sum_ways_zero(Seq::empty(), lo, hi - 1);
    }
}

/// No total below zero can be made.
proof fn lemma_sum_ways_zero(dice: Seq<u32>, lo: int, hi: int)
    requires
        hi <= 0,
    ensures
        sum_ways(dice, lo, hi) == 0,
    decreases hi - lo,
{
    if hi > lo {
        lemma_sum_ways_zero(dice, lo, hi - 1);
        lemma_ways_support(dice, hi - 1);
    }
}

proof fn lemma_sum_face_total(dice: Seq<u32>, k: int, lo: int, hi: int)
    requires
        0 <= k <= u32::MAX,
        lo <= 0,
        hi > top(dice) + k,
    ensures
        sum_face_ways(dice, k, lo, hi) == k * combos(dice),
    decreases dice.len() + 1, k,
{
    if k == 0 {
        lemma_sum_face_zero(dice, lo, hi);
    } else {
        lemma_sum_face_total(dice, k - 1, lo, hi);
        lemma_sum_face_step(dice, k, lo, hi);
        lemma_sum_ways_total(dice, lo - k, hi - k);
        assert((k - 1) * combos(dice) + combos(dice) == k * combos(dice)) by (nonlinear_arith);
    }
}

proof fn lemma_sum_face_zero(dice: Seq<u32>, lo: int, hi: int)
    ensures
        sum_face_ways(dice, 0, lo, hi) == 0,
    decreases hi - lo,
{
    if hi > lo {
        lemma_sum_face_zero(dice, lo, hi - 1);
    }
}

/// Only totals in `0..=top(dice)` can be made.
pub proof fn lemma_ways_support(dice: Seq<u32>, t: int)
    requires
        t < 0 || t > top(dice),
    ensures
        ways(dice, t) == 0,
    decreases dice.len(), 0x1_0000_0000int,
{
    if dice.len() > 0 {
        lemma_face_ways_support(dice.drop_last(), t, dice.last() as int);
    }
}

proof fn lemma_face_ways_support(dice: Seq<u32>, t: int, k: int)
    requires
        0 <= k <= u32::MAX,
        t < 0 || t > top(dice) + k,
    ensures
        face_ways(dice, t, k) == 0,
    decreases dice.len() + 1, k,
{
    if k > 0 {
        lemma_face_ways_support(dice, t, k - 1);
        lemma_ways_support(dice, t - k);
    }
}

/// No count of ways exceeds [`combo_bound`].
pub proof fn lemma_ways_bound(dice: Seq<u32>, t: int)
    ensures
        ways(dice, t) <= combo_bound(dice),
    decreases dice.len(), 0x1_0000_0000int,
{
    if dice.len() > 0 {
        let d = dice.drop_last();
        let k = dice.last() as int;
        lemma_face_ways_bound(d, t, k);
        if k == 0 {
            assert(face_ways(d, t, 0) == 0);
        } else {
            assert(combo_bound(dice) == combo_bound(d) * k);
        }
    }
}

proof fn lemma_face_ways_bound(dice: Seq<u32>, t: int, k: int)
    requires
        0 <= k <= u32::MAX,
    ensures
        face_ways(dice, t, k) <= k * combo_bound(dice),
    decreases dice.len() + 1, k,
{
    if k > 0 {
        lemma_face_ways_bound(dice, t, k - 1);
        lemma_ways_bound(dice, t - k);
        assert((k - 1) * combo_bound(dice) + combo_bound(dice) == k * combo_bound(dice))
            by (nonlinear_arith);
    }
}

/// The counts of ways for `dice` with one more die of `k` sides, from the
/// counts for `dice` (indexed by total, from zero to the greatest).
fn add_die(cur: &Vec<u128>, k: u32, Ghost(dice): Ghost<Seq<u32>>) -> (out: Vec<u128>)
    requires
        k >= 1,
        cur@.len() == top(dice) + 1,
        forall|t: int| 0 <= t < cur@.len() ==> cur@[t] == ways(dice, t),
        combo_bound(dice.push(k)) <= u128::MAX,
        top(dice) + k < usize::MAX,
    ensures
        out@.len() == top(dice.push(k)) + 1,
        forall|t: int| 0 <= t < out@.len() ==> out@[t] == ways(dice.push(k), t),
{
    let ghost bound = combo_bound(dice);
    assert(dice.push(k).drop_last() =~= dice);
    assert(combo_bound(dice.push(k)) == bound * k);
    let n: usize = cur.len() + k as usize;
    let mut out: Vec<u128> = Vec::new();
    let mut t: usize = 0;
    while t < n
        invariant
            n == top(dice) + k + 1,
            cur@.len() == top(dice) + 1,
            forall|j: int| 0 <= j < cur@.len() ==> cur@[j] == ways(dice, j),
            bound == combo_bound(dice),
            bound * k <= u128::MAX,
            k >= 1,
            0 <= t <= n,
            out@.len() == t,
            forall|j: int| 0 <= j < t ==> out@[j] == ways(dice.push(k), j),
        decreases n - t,
    {
        let mut s: u128 = 0;
        let mut f: u64 = 1;
        while f <= k as u64
            invariant
                1 <= f <= k + 1,
                cur@.len() == top(dice) + 1,
                forall|j: int| 0 <= j < cur@.len() ==> cur@[j] == ways(dice, j),
                bound == combo_bound(dice),
                bound * k <= u128::MAX,
                s == face_ways(dice, t as int, f - 1),
            decreases k + 1 - f,
        {
            proof {
                lemma_face_ways_bound(dice, t as int, f - 1);
                lemma_ways_bound(dice, t - f);
                assert((f - 1) * bound + bound <= bound * k) by (nonlinear_arith)
                    requires
                        f <= k,
                        bound >= 0,
                ;
            }
            if (f as usize) <= t && t - (f as usize) < cur.len() {
                assert(cur@[t - f] == ways(dice, t - f));
                s = s + cur[t - f as usize];
            } else {
                proof {
                    lemma_ways_support(dice, t - f);
                }
            }
            f = f + 1;
        }
        proof {
            lemma_ways_push(dice, k, t as int);
        }
        out.push(s);
        t = t + 1;
    }
    out
}

/// The sides of every die of the groups, group by group.
pub open spec fn dice_of(gs: Seq<DiceGroup>) -> Seq<u32>
    decreases gs.len(),
{
    if gs.len() == 0 {
        Seq::empty()
    } else {
        dice_of(gs.drop_last()) + Seq::new(gs.last().count as nat, |i: int| gs.last().sides)
    }
}

/// The counts can be held: every count of ways fits in `u128`, and a table
/// indexed by total fits in memory's address range.
pub open spec fn counts_fit(dice: Seq<u32>) -> bool {
    combo_bound(dice) <= u128::MAX && top(dice) < usize::MAX
}

/// The sum of `ways(dice, t)` for `t` in `0..n` whose value `t + bonus`
/// answers `q`.
pub open spec fn hit_ways(dice: Seq<u32>, q: ProbabilityQuery, bonus: int, n: int) -> nat
    decreases n,
{
    if n <= 0 {
        0
    } else {
        hit_ways(dice, q, bonus, n - 1) + if q.accepts(n - 1 + bonus) {
            ways(dice, n - 1)
        } else {
            0
        }
    }
}

/// The number of ways the dice of `e` can fall so that the roll answers `q`.
pub open spec fn query_ways(e: DiceExprView, q: ProbabilityQuery) -> nat {
    let dice = dice_of(e.groups);
    hit_ways(dice, q, e.flat_bonus as int, top(dice) + 1)
}

proof fn lemma_bounds_append(a: Seq<u32>, b: Seq<u32>)
    ensures
        top(a + b) == top(a) + top(b),
        top(b) >= 0,
        combo_bound(a + b) == combo_bound(a) * combo_bound(b),
        combo_bound(b) >= 1,
    decreases b.len(),
{
    if b.len() == 0 {
        assert(a + b =~= a);
        assert(combo_bound(b) == 1);
        assert(combo_bound(a) * 1 == combo_bound(a));
    } else {
        let k = b.last();
        lemma_bounds_append(a, b.drop_last());
        assert((a + b).drop_last() =~= a + b.drop_last());
        let f: nat = if k == 0 {
            1
        } else {
            k as nat
        };
        assert((a + b).last() == k);
        assert(combo_bound(a + b) == combo_bound(a + b.drop_last()) * f);
        assert(combo_bound(b) == combo_bound(b.drop_last()) * f);
        let x = combo_bound(a + b.drop_last());
        let p = combo_bound(a);
        let q = combo_bound(b.drop_last());
        assert(combo_bound(a + b) == p * combo_bound(b)) by (nonlinear_arith)
            requires
                combo_bound(a + b) == x * f,
                x == p * q,
                combo_bound(b) == q * f,
        ;
        assert(combo_bound(b.drop_last()) * f >= 1) by (nonlinear_arith)
            requires
                combo_bound(b.drop_last()) >= 1,
                f >= 1,
        ;
    }
}

/// What fits for the dice fits for a prefix of them.
proof fn lemma_prefix_fits(a: Seq<u32>, b: Seq<u32>)
    requires
        counts_fit(a + b),
    ensures
        counts_fit(a),
{
    lemma_bounds_append(a, b);
    assert(combo_bound(a) <= combo_bound(a) * combo_bound(b)) by (nonlinear_arith)
        requires
            combo_bound(b) >= 1,
    ;
}

proof fn lemma_dice_of_append(a: Seq<DiceGroup>, b: Seq<DiceGroup>)
    ensures
        dice_of(a + b) == dice_of(a) + dice_of(b),
    decreases b.len(),
{
    if b.len() == 0 {
        assert(a + b =~= a);
        assert(dice_of(a) + dice_of(b) =~= dice_of(a));
    } else {
        lemma_dice_of_append(a, b.drop_last());
        assert((a + b).drop_last() =~= a + b.drop_last());
        assert(dice_of(a + b) =~= dice_of(a) + dice_of(b));
    }
}

/// Seen from die `j` of group `i`: the dice before it, and the rest.
proof fn lemma_dice_split(gs: Seq<DiceGroup>, i: int, j: int)
    requires
        0 <= i < gs.len(),
        0 <= j <= gs[i].count,
    ensures
        dice_of(gs) == dice_of(gs.take(i)) + Seq::new(j as nat, |x: int| gs[i].sides) + (Seq::new(
            (gs[i].count - j) as nat,
            |x: int| gs[i].sides,
        ) + dice_of(gs.skip(i + 1))),
        dice_of(gs.take(i + 1)) == dice_of(gs.take(i)) + Seq::new(
            gs[i].count as nat,
            |x: int| gs[i].sides,
        ),
{
    let g = gs[i];
    assert(gs =~= gs.take(i + 1) + gs.skip(i + 1));
    lemma_dice_of_append(gs.take(i + 1), gs.skip(i + 1));
    assert(gs.take(i + 1).drop_last() =~= gs.take(i));
    assert(Seq::new(g.count as nat, |x: int| g.sides) =~= Seq::new(j as nat, |x: int| g.sides)
        + Seq::new((g.count - j) as nat, |x: int| g.sides));
    assert(dice_of(gs) =~= dice_of(gs.take(i)) + Seq::new(j as nat, |x: int| g.sides) + (Seq::new(
        (g.count - j) as nat,
        |x: int| g.sides,
    ) + dice_of(gs.skip(i + 1))));
}

proof fn lemma_sum_ways_mono(dice: Seq<u32>, n: int, m: int)
    requires
        0 <= n <= m,
    ensures
        sum_ways(dice, 0, n) <= sum_ways(dice, 0, m),
    decreases m - n,
{
    if n < m {
        lemma_sum_ways_mono(dice, n, m - 1);
    }
}

proof fn lemma_hits_within(dice: Seq<u32>, q: ProbabilityQuery, bonus: int, n: int)
    requires
        n >= 0,
    ensures
        hit_ways(dice, q, bonus, n) <= sum_ways(dice, 0, n),
    decreases n,
{
    if n > 0 {
        lemma_hits_within(dice, q, bonus, n - 1);
    }
}

proof fn lemma_combos_within(dice: Seq<u32>)
    ensures
        combos(dice) <= combo_bound(dice),
    decreases dice.len(),
{
    if dice.len() > 0 {
        let d = dice.drop_last();
        let k = dice.last() as nat;
        lemma_combos_within(d);
        assert(combos(d) * k <= combo_bound(d) * (if k == 0 {
            1
        } else {
            k
        })) by (nonlinear_arith)
            requires
                combos(d) <= combo_bound(d),
        ;
    }
}

/// Whether the value `v` answers `q`.
fn answers(q: ProbabilityQuery, v: i128) -> (r: bool)
    ensures
        r == q.accepts(v as int),
{
    match q {
        ProbabilityQuery::AtLeast(t) => v >= t as i128,
        ProbabilityQuery::AtMost(t) => v <= t as i128,
        ProbabilityQuery::Equal(t) => v == t as i128,
        ProbabilityQuery::InclusiveRange(lo, hi) => lo as i128 <= v && v <= hi as i128,
    }
}

/// The counts for `dice` with one more die of no sides, which no total can
/// be made with.
fn add_empty_die(cur: &Vec<u128>, Ghost(dice): Ghost<Seq<u32>>) -> (out: Vec<u128>)
    requires
        cur@.len() == top(dice) + 1,
    ensures
        out@.len() == top(dice.push(0)) + 1,
        forall|t: int| 0 <= t < out@.len() ==> out@[t] == ways(dice.push(0), t),
{
    assert(dice.push(0).drop_last() =~= dice);
    let mut out: Vec<u128> = Vec::new();
    let mut t: usize = 0;
    while t < cur.len()
        invariant
            0 <= t <= cur@.len(),
            out@.len() == t,
            forall|j: int| 0 <= j < t ==> out@[j] == ways(dice.push(0), j),
        decreases cur.len() - t,
    {
        proof {
            lemma_ways_push(dice, 0, t as int);
        }
        out.push(0);
        t = t + 1;
    }
    out
}

/// For an expression without advantage, disadvantage or keep rules: the
/// number of ways its dice can fall so that the roll answers `query`, and the
/// number of ways they can fall in all. `None` for other expressions, and
/// where the counts would not fit in `u128` or the table of counts, one entry
/// per total up to the greatest, would not fit in memory's address range.
pub fn exact_query_hits(expr: &DiceExpr, query: ProbabilityQuery) -> (r: Option<(u128, u128)>)
    ensures
        r is Some <==> exact_applies(expr@) && counts_fit(dice_of(expr@.groups)),
        r matches Some((hits, total)) ==> hits == query_ways(expr@, query) && total == combos(
            dice_of(expr@.groups),
        ),
{
    if !supports_exact_probability(expr) {
        return None;
    }
    let ghost gs = expr.groups@;
    let mut cur: Vec<u128> = Vec::new();
    cur.push(1);
    let mut bound: u128 = 1;
    let mut top_now: usize = 0;
    let ghost mut done: Seq<u32> = Seq::empty();
    assert(gs.take(0) =~= Seq::<DiceGroup>::empty());
    let mut i: usize = 0;
    while i < expr.groups.len()
        invariant
            expr@.groups == gs,
            gs == expr.groups@,
            0 <= i <= gs.len(),
            done == dice_of(gs.take(i as int)),
            cur@.len() == top(done) + 1,
            forall|t: int| 0 <= t < cur@.len() ==> cur@[t] == ways(done, t),
            bound == combo_bound(done),
            top_now == top(done),
            top(done) < usize::MAX,
        decreases gs.len() - i,
    {
        let g = expr.groups[i];
        proof {
            lemma_dice_split(gs, i as int, 0);
            assert(done + Seq::new(0, |x: int| g.sides) =~= done);
        }
        let mut j: u32 = 0;
        while j < g.count
            invariant
                expr@.groups == gs,
                gs == expr.groups@,
                0 <= i < gs.len(),
                g == gs[i as int],
                0 <= j <= g.count,
                done == dice_of(gs.take(i as int)) + Seq::new(j as nat, |x: int| g.sides),
                cur@.len() == top(done) + 1,
                forall|t: int| 0 <= t < cur@.len() ==> cur@[t] == ways(done, t),
                bound == combo_bound(done),
                top_now == top(done),
                top(done) < usize::MAX,
            decreases g.count - j,
        {
            let ghost next = done.push(g.sides);
            proof {
                lemma_dice_split(gs, i as int, j + 1);
                assert(next =~= dice_of(gs.take(i as int)) + Seq::new(
                    (j + 1) as nat,
                    |x: int| g.sides,
                ));
                assert(next.drop_last() =~= done);
                lemma_top_step(done, g.sides);
            }
            let factor: u128 = if g.sides == 0 {
                1
            } else {
                g.sides as u128
            };
            let nb: u128 = match bound.checked_mul(factor) {
                Some(b) => b,
                None => {
                    proof {
                        lemma_prefix_fits_not(next, dice_of(gs), gs, i as int, j + 1);
                    }
                    return None;
                },
            };
            if g.sides as usize >= usize::MAX - top_now {
                proof {
                    lemma_prefix_fits_not(next, dice_of(gs), gs, i as int, j + 1);
                }
                return None;
            }
            if g.sides == 0 {
                cur = add_empty_die(&cur, Ghost(done));
            } else {
                cur = add_die(&cur, g.sides, Ghost(done));
            }
            bound = nb;
            top_now = top_now + g.sides as usize;
            proof {
                done = next;
            }
            j = j + 1;
        }
        proof {
            lemma_dice_split(gs, i as int, 0);
        }
        i = i + 1;
    }
    assert(gs.take(i as int) =~= gs);
    let ghost bonus = expr.flat_bonus as int;
    let mut hits: u128 = 0;
    let mut total: u128 = 0;
    let mut t: usize = 0;
    proof {
        lemma_sum_ways_total(done, 0, top(done) + 1);
        lemma_combos_within(done);
    }
    while t < cur.len()
        invariant
            cur@.len() == top(done) + 1,
            forall|k: int| 0 <= k < cur@.len() ==> cur@[k] == ways(done, k),
            sum_ways(done, 0, top(done) + 1) == combos(done),
            combos(done) <= u128::MAX,
            bonus == expr.flat_bonus,
            0 <= t <= cur@.len(),
            total == sum_ways(done, 0, t as int),
            hits == hit_ways(done, query, bonus, t as int),
        decreases cur.len() - t,
    {
        proof {
            lemma_sum_ways_mono(done, t + 1, top(done) + 1);
            lemma_hits_within(done, query, bonus, t as int);
        }
        total = total + cur[t];
        if answers(query, t as i128 + expr.flat_bonus as i128) {
            hits = hits + cur[t];
        }
        t = t + 1;
    }
    Some((hits, total))
}

proof fn lemma_top_step(dice: Seq<u32>, k: u32)
    ensures
        top(dice.push(k)) == top(dice) + k,
        combo_bound(dice.push(k)) == combo_bound(dice) * (if k == 0 {
            1
        } else {
            k as nat
        }),
{
    assert(dice.push(k).drop_last() =~= dice);
}

/// Where the dice up to die `j` of group `i` do not fit, the expression's
/// dice do not.
proof fn lemma_prefix_fits_not(prefix: Seq<u32>, full: Seq<u32>, gs: Seq<DiceGroup>, i: int, j: int)
    requires
        0 <= i < gs.len(),
        0 <= j <= gs[i].count,
        full == dice_of(gs),
        prefix == dice_of(gs.take(i)) + Seq::new(j as nat, |x: int| gs[i].sides),
        !counts_fit(prefix),
    ensures
        !counts_fit(full),
{
    lemma_dice_split(gs, i, j);
    let rest = Seq::new((gs[i].count - j) as nat, |x: int| gs[i].sides) + dice_of(gs.skip(i + 1));
    if counts_fit(full) {
        lemma_prefix_fits(prefix, rest);
    }
}

proof fn lemma_hits_split(dice: Seq<u32>, x: i64, bonus: int, n: int)
    requires
        x > i64::MIN,
        n >= 0,
    ensures
        hit_ways(dice, ProbabilityQuery::AtLeast(x), bonus, n) + hit_ways(
            dice,
            ProbabilityQuery::AtMost((x - 1) as i64),
            bonus,
            n,
        ) == sum_ways(dice, 0, n),
    decreases n,
{
    if n > 0 {
        lemma_hits_split(dice, x, bonus, n - 1);
    }
}

/// Every way the dice can fall makes a roll of at least `x` or of at most
/// `x - 1`, and not both: the two exact probabilities add up to one.
pub proof fn law_at_least_complement(e: DiceExprView, x: i64)
    requires
        x > i64::MIN,
    ensures
        query_ways(e, ProbabilityQuery::AtLeast(x)) + query_ways(
            e,
            ProbabilityQuery::AtMost((x - 1) as i64),
        ) == combos(dice_of(e.groups)),
{
    let dice = dice_of(e.groups);
    lemma_ways_top_nonneg(dice);
    lemma_hits_split(dice, x, e.flat_bonus as int, top(dice) + 1);
    lemma_sum_ways_total(dice, 0, top(dice) + 1);
}

proof fn lemma_ways_top_nonneg(dice: Seq<u32>)
    ensures
        top(dice) >= 0,
    decreases dice.len(),
{
    if dice.len() > 0 {
        lemma_ways_top_nonneg(dice.drop_last());
    }
}

proof fn lemma_face_ways_includes(dice: Seq<u32>, t: int, k: int, f: int)
    requires
        1 <= f <= k,
    ensures
        face_ways(dice, t, k) >= ways(dice, t - f),
    decreases k,
{
    if k > f {
        lemma_face_ways_includes(dice, t, k - 1, f);
    }
}

/// Faces that the dice `more` can show, summing to `dice_sum(faces)`, add
/// that much to every total the dice `dice` can make.
proof fn lemma_ways_extend(dice: Seq<u32>, more: Seq<u32>, faces: Seq<u32>, t: int)
    requires
        faces.len() == more.len(),
        forall|i: int| 0 <= i < faces.len() ==> 1 <= #[trigger] faces[i] <= more[i],
    ensures
        ways(dice + more, t + dice_sum(faces)) >= ways(dice, t),
    decreases more.len(),
{
    if more.len() == 0 {
        assert(dice + more =~= dice);
    } else {
        let m = more.drop_last();
        let fs = faces.drop_last();
        let k = more.last();
        let f = faces.last();
        lemma_ways_extend(dice, m, fs, t);
        assert((dice + more).drop_last() =~= dice + m);
        assert(faces[faces.len() - 1] <= more[more.len() - 1]);
        lemma_face_ways_includes(dice + m, t + dice_sum(faces), k as int, f as int);
    }
}

/// The kept dice of every group, all of them kept, can be made by the dice of
/// the groups.
proof fn lemma_roll_has_ways(gs: Seq<DiceGroup>, raw: Seq<Seq<u32>>)
    requires
        raw.len() == gs.len(),
        forall|i: int|
            0 <= i < gs.len() ==> (#[trigger] raw[i]).len() == gs[i].count && faces_within(
                raw[i],
                gs[i].sides,
            ),
    ensures
        ways(dice_of(gs), groups_sum(raw)) >= 1,
    decreases gs.len(),
{
    if gs.len() > 0 {
        let g = gs.last();
        let r = raw.last();
        lemma_roll_has_ways(gs.drop_last(), raw.drop_last());
        let rep = Seq::new(g.count as nat, |x: int| g.sides);
        assert forall|i: int| 0 <= i < r.len() implies 1 <= #[trigger] r[i] <= rep[i] by {
            assert(raw[raw.len() - 1] == r);
        }
        lemma_ways_extend(dice_of(gs.drop_last()), rep, r, groups_sum(raw.drop_last()));
    }
}

proof fn lemma_hits_equal(dice: Seq<u32>, v: i64, bonus: int, n: int)
    requires
        0 <= v - bonus < n,
    ensures
        hit_ways(dice, ProbabilityQuery::Equal(v), bonus, n) >= ways(dice, v - bonus),
    decreases n,
{
    if n - 1 > v - bonus {
        lemma_hits_equal(dice, v, bonus, n - 1);
    }
}

/// Every value a roll of an expression without advantage, disadvantage or
/// keep rules can give has a positive exact probability.
pub proof fn law_roll_values_have_ways(e: DiceExprView, v: i64)
    requires
        exact_applies(e),
        possible_value(e, v as int),
    ensures
        query_ways(e, ProbabilityQuery::Equal(v)) >= 1,
{
    let dice = dice_of(e.groups);
    let kept = choose|kept: Seq<Seq<u32>>| is_roll(e, v as int, kept);
    let raw = choose|raw: Seq<Seq<u32>>| roll_outcome(e, raw, v as int, kept);
    assert(raw =~= kept) by {
        assert forall|i: int| 0 <= i < raw.len() implies raw[i] == kept[i] by {
            assert(e.groups[i].keep == Keep::All);
            assert(kept[i] == kept_dice(raw[i], e.groups[i].keep));
        }
    }
    lemma_roll_has_ways(e.groups, raw);
    let t = v - e.flat_bonus;
    assert(t == groups_sum(raw));
    if t < 0 || t > top(dice) {
        lemma_ways_support(dice, t);
    }
    lemma_hits_equal(dice, v, e.flat_bonus as int, top(dice) + 1);
}

proof fn lemma_face_pick(dice: Seq<u32>, t: int, k: int) -> (f: int)
    requires
        face_ways(dice, t, k) >= 1,
    ensures
        1 <= f <= k,
        ways(dice, t - f) >= 1,
    decreases k,
{
    if ways(dice, t - k) >= 1 {
        k
    } else {
        lemma_face_pick(dice, t, k - 1)
    }
}

/// Faces for `dice` summing to `t`, where `t` can be made.
proof fn lemma_faces_for(dice: Seq<u32>, t: int) -> (faces: Seq<u32>)
    requires
        ways(dice, t) >= 1,
    ensures
        faces.len() == dice.len(),
        forall|i: int| 0 <= i < faces.len() ==> 1 <= #[trigger] faces[i] <= dice[i],
        dice_sum(faces) == t,
    decreases dice.len(),
{
    if dice.len() == 0 {
        Seq::empty()
    } else {
        let d = dice.drop_last();
        let k = dice.last();
        let f = lemma_face_pick(d, t, k as int);
        let rest = lemma_faces_for(d, t - f);
        let faces = rest.push(f as u32);
        assert(faces.drop_last() =~= rest);
        assert forall|i: int| 0 <= i < faces.len() implies 1 <= #[trigger] faces[i] <= dice[i] by {
            if i < rest.len() {
                assert(faces[i] == rest[i] && dice[i] == d[i]);
            }
        }
        faces
    }
}

proof fn lemma_dice_sum_append(a: Seq<u32>, b: Seq<u32>)
    ensures
        dice_sum(a + b) == dice_sum(a) + dice_sum(b),
    decreases b.len(),
{
    if b.len() == 0 {
        assert(a + b =~= a);
    } else {
        lemma_dice_sum_append(a, b.drop_last());
        assert((a + b).drop_last() =~= a + b.drop_last());
    }
}

/// Faces for the dice of the groups, split group by group.
proof fn lemma_split_faces(gs: Seq<DiceGroup>, faces: Seq<u32>) -> (raw: Seq<Seq<u32>>)
    requires
        faces.len() == dice_of(gs).len(),
        forall|i: int| 0 <= i < faces.len() ==> 1 <= #[trigger] faces[i] <= dice_of(gs)[i],
    ensures
        raw.len() == gs.len(),
        forall|i: int|
            0 <= i < gs.len() ==> (#[trigger] raw[i]).len() == gs[i].count && faces_within(
                raw[i],
                gs[i].sides,
            ),
        groups_sum(raw) == dice_sum(faces),
    decreases gs.len(),
{
    if gs.len() == 0 {
        Seq::empty()
    } else {
        let g = gs.last();
        let head = dice_of(gs.drop_last());
        let n = head.len() as int;
        let front = faces.take(n);
        let back = faces.skip(n);
        assert(dice_of(gs) == head + Seq::new(g.count as nat, |x: int| g.sides));
        assert forall|i: int| 0 <= i < front.len() implies 1 <= #[trigger] front[i] <= head[i] by {
            assert(front[i] == faces[i] && dice_of(gs)[i] == head[i]);
        }
        let raw0 = lemma_split_faces(gs.drop_last(), front);
        assert(faces_within(back, g.sides)) by {
            assert forall|i: int| 0 <= i < back.len() implies 1 <= #[trigger] back[i] <= g.sides by {
                assert(back[i] == faces[n + i] && dice_of(gs)[n + i] == g.sides);
            }
        }
        let raw = raw0.push(back);
        assert(raw.drop_last() =~= raw0);
        assert(faces =~= front + back);
        lemma_dice_sum_append(front, back);
        assert forall|i: int|
            0 <= i < gs.len() implies (#[trigger] raw[i]).len() == gs[i].count && faces_within(
                raw[i],
                gs[i].sides,
            ) by {
            if i < gs.len() - 1 {
                assert(raw[i] == raw0[i] && gs[i] == gs.drop_last()[i]);
            }
        }
        raw
    }
}

/// For an expression without advantage, disadvantage or keep rules, a value
/// has a positive exact probability exactly when a roll can give it.
pub proof fn law_exact_ways_iff_possible(e: DiceExprView, v: i64)
    requires
        exact_applies(e),
    ensures
        query_ways(e, ProbabilityQuery::Equal(v)) >= 1 <==> possible_value(e, v as int),
{
    if possible_value(e, v as int) {
        law_roll_values_have_ways(e, v);
    }
    if query_ways(e, ProbabilityQuery::Equal(v)) >= 1 {
        let dice = dice_of(e.groups);
        let t = v - e.flat_bonus;
        lemma_ways_top_nonneg(dice);
        lemma_hits_only_equal(dice, v, e.flat_bonus as int, top(dice) + 1);
        let faces = lemma_faces_for(dice, t);
        let raw = lemma_split_faces(e.groups, faces);
        assert forall|i: int| 0 <= i < e.groups.len() implies #[trigger] raw[i] == kept_dice(
            raw[i],
            e.groups[i].keep,
        ) by {
            assert(e.groups[i].keep == Keep::All);
        }
        assert(roll_outcome(e, raw, v as int, raw));
        assert(is_roll(e, v as int, raw));
    }
}

/// Only the total `v - bonus` counts towards `Equal(v)`.
proof fn lemma_hits_only_equal(dice: Seq<u32>, v: i64, bonus: int, n: int)
    requires
        n >= 0,
    ensures
        hit_ways(dice, ProbabilityQuery::Equal(v), bonus, n) == (if 0 <= v - bonus < n {
            ways(dice, v - bonus)
        } else {
            0
        }),
    decreases n,
{
    if n > 0 {
        lemma_hits_only_equal(dice, v, bonus, n - 1);
    }
}

proof fn lemma_hits_at_least_mono(dice: Seq<u32>, x1: i64, x2: i64, bonus: int, n: int)
    requires
        x1 <= x2,
    ensures
        hit_ways(dice, ProbabilityQuery::AtLeast(x1), bonus, n) >= hit_ways(
            dice,
            ProbabilityQuery::AtLeast(x2),
            bonus,
            n,
        ),
    decreases n,
{
    if n > 0 {
        lemma_hits_at_least_mono(dice, x1, x2, bonus, n - 1);
    }
}

/// The exact probability of a roll of at least `x` does not grow with `x`.
pub proof fn law_at_least_non_increasing(e: DiceExprView, x1: i64, x2: i64)
    requires
        x1 <= x2,
    ensures
        query_ways(e, ProbabilityQuery::AtLeast(x1)) >= query_ways(
            e,
            ProbabilityQuery::AtLeast(x2),
        ),
{
    let dice = dice_of(e.groups);
    lemma_hits_at_least_mono(dice, x1, x2, e.flat_bonus as int, top(dice) + 1);
}

proof fn lemma_hits_above(dice: Seq<u32>, x: i64, bonus: int, n: int)
    requires
        n - 1 + bonus < x,
    ensures
        hit_ways(dice, ProbabilityQuery::AtLeast(x), bonus, n) == 0,
    decreases n,
{
    if n > 0 {
        lemma_hits_above(dice, x, bonus, n - 1);
    }
}

/// No roll reaches a target above the greatest total: its exact probability
/// is zero.
pub proof fn law_at_least_above_max(e: DiceExprView, x: i64)
    requires
        x > e.flat_bonus + top(dice_of(e.groups)),
    ensures
        query_ways(e, ProbabilityQuery::AtLeast(x)) == 0,
{
    let dice = dice_of(e.groups);
    lemma_hits_above(dice, x, e.flat_bonus as int, top(dice) + 1);
}

/// The sum, over the values `v` in `lo..hi` that `q` accepts, of the number
/// of ways a roll of `e` gives exactly `v`.
pub open spec fn value_ways(e: DiceExprView, q: ProbabilityQuery, lo: int, hi: int) -> nat
    decreases hi - lo,
{
    if hi <= lo {
        0
    } else {
        value_ways(e, q, lo, hi - 1) + if q.accepts(hi - 1) {
            query_ways(e, ProbabilityQuery::Equal((hi - 1) as i64))
        } else {
            0
        }
    }
}

proof fn lemma_value_ways_prefix(e: DiceExprView, q: ProbabilityQuery, lo: int, h: int)
    requires
        i64::MIN <= lo <= e.flat_bonus,
        lo <= h <= i64::MAX + 1,
    ensures
        value_ways(e, q, lo, h) == hit_ways(dice_of(e.groups), q, e.flat_bonus as int, h
            - e.flat_bonus),
    decreases h - lo,
{
    let dice = dice_of(e.groups);
    let bonus = e.flat_bonus as int;
    lemma_ways_top_nonneg(dice);
    if h > lo {
        lemma_value_ways_prefix(e, q, lo, h - 1);
        let v = (h - 1) as i64;
        assert(v as int == h - 1);
        lemma_hits_only_equal(dice, v, bonus, top(dice) + 1);
        if h - 1 - bonus > top(dice) {
            lemma_ways_support(dice, h - 1 - bonus);
        }
    }
}

proof fn lemma_hits_beyond(dice: Seq<u32>, q: ProbabilityQuery, bonus: int, n: int)
    requires
        n >= top(dice) + 1,
    ensures
        hit_ways(dice, q, bonus, n) == hit_ways(dice, q, bonus, top(dice) + 1),
    decreases n - top(dice),
{
    if n > top(dice) + 1 {
        lemma_hits_beyond(dice, q, bonus, n - 1);
        lemma_ways_support(dice, n - 1);
    }
}

/// The exact count for any query is the count of the roll values it accepts:
/// for each value `v`, the number of ways a roll of `e` (flat bonus
/// included) gives exactly `v`, summed over the accepted values of a range
/// that holds every possible value. With [`law_exact_ways_iff_possible`],
/// which ties the count for one value to the values a roll can give, every
/// query is measured on the roll's value.
pub proof fn law_query_by_values(e: DiceExprView, q: ProbabilityQuery, lo: int, hi: int)
    requires
        i64::MIN <= lo <= e.flat_bonus,
        e.flat_bonus + top(dice_of(e.groups)) < hi <= i64::MAX + 1,
    ensures
        query_ways(e, q) == value_ways(e, q, lo, hi),
{
    let dice = dice_of(e.groups);
    lemma_ways_top_nonneg(dice);
    lemma_value_ways_prefix(e, q, lo, hi);
    lemma_hits_beyond(dice, q, e.flat_bonus as int, hi - e.flat_bonus);
}

/// A range query counts the rolls of at least its lower bound less those of
/// at least one more than its upper bound.
pub proof fn law_range_by_at_least(e: DiceExprView, lo: i64, hi: i64)
    requires
        lo <= hi < i64::MAX,
    ensures
        query_ways(e, ProbabilityQuery::InclusiveRange(lo, hi)) + query_ways(
            e,
            ProbabilityQuery::AtLeast((hi + 1) as i64),
        ) == query_ways(e, ProbabilityQuery::AtLeast(lo)),
{
    let dice = dice_of(e.groups);
    lemma_ways_top_nonneg(dice);
    lemma_hits_range_split(dice, lo, hi, e.flat_bonus as int, top(dice) + 1);
}

proof fn lemma_hits_range_split(dice: Seq<u32>, lo: i64, hi: i64, bonus: int, n: int)
    requires
        lo <= hi < i64::MAX,
    ensures
        hit_ways(dice, ProbabilityQuery::InclusiveRange(lo, hi), bonus, n) + hit_ways(
            dice,
            ProbabilityQuery::AtLeast((hi + 1) as i64),
            bonus,
            n,
        ) == hit_ways(dice, ProbabilityQuery::AtLeast(lo), bonus, n),
    decreases n,
{
    if n > 0 {
        lemma_hits_range_split(dice, lo, hi, bonus, n - 1);
    }
}

} // verus!
