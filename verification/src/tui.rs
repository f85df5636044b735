//! The interactive interface's logic that does not touch the terminal:
//! screens, presets, simulation-count steps, and reading a roll breakdown
//! back for natural-max and natural-min highlighting.

use vstd::prelude::*;

use crate::expr::DiceExpr;
use crate::roll::{bracket_text, rolls_text};
use crate::text::{
    chars_of, decimal, is_digit, join, lemma_decimal, lemma_parse_u32_decimal,
    lemma_trim_unchanged, trim_start, parse_u32_at, parse_u32_text, push_decimal, str_to_lowercase,
    string_from_chars, to_lowercase, trim, trim_range,
};

verus! {

/// The screen the interface shows.
#[derive(Debug, Clone, Copy, PartialEq, Eq, Structural)]
pub enum Screen {
    Roller,
    /// The scrollable log of this session's rolls.
    History,
    Distribution,
    Presets,
    Help,
}

/// A named preset expression.
#[derive(Debug, Clone, PartialEq, Eq)]
pub struct PresetEntry {
    pub name: String,
    pub expression: String,
}

// ── Simulation counts ────────────────────────────────────────────────────────

/// The simulation counts the distribution view steps through.
pub open spec fn sims_steps() -> Seq<u64> {
    seq![10_000u64, 50_000, 100_000, 500_000, 1_000_000, 5_000_000, 10_000_000]
}

/// The first step above `current`, or the largest step.
pub open spec fn step_up(current: u64) -> u64 {
    if current < 10_000 {
        10_000
    } else if current < 50_000 {
        50_000
    } else if current < 100_000 {
        100_000
    } else if current < 500_000 {
        500_000
    } else if current < 1_000_000 {
        1_000_000
    } else if current < 5_000_000 {
        5_000_000
    } else {
        10_000_000
    }
}

/// The last step below `current`, or the smallest step.
pub open spec fn step_down(current: u64) -> u64 {
    if current > 10_000_000 {
        10_000_000
    } else if current > 5_000_000 {
        5_000_000
    } else if current > 1_000_000 {
        1_000_000
    } else if current > 500_000 {
        500_000
    } else if current > 100_000 {
        100_000
    } else if current > 50_000 {
        50_000
    } else {
        10_000
    }
}

/// `step_up` is the first step above `current` when there is one, and the
/// largest step otherwise.
pub proof fn law_step_up(current: u64)
    ensures
        sims_steps().contains(step_up(current)),
        (exists|i: int| 0 <= i < 7 && sims_steps()[i] > current) ==> step_up(current) > current
            && forall|i: int| 0 <= i < 7 && #[trigger] sims_steps()[i] > current ==> step_up(current)
                <= sims_steps()[i],
        (forall|i: int| 0 <= i < 7 ==> #[trigger] sims_steps()[i] <= current) ==> step_up(current)
            == 10_000_000,
{
    assert(sims_steps()[0] == 10_000 && sims_steps()[1] == 50_000 && sims_steps()[2] == 100_000
        && sims_steps()[3] == 500_000 && sims_steps()[4] == 1_000_000 && sims_steps()[5]
        == 5_000_000 && sims_steps()[6] == 10_000_000);
}

/// `step_down` is the last step below `current` when there is one, and the
/// smallest step otherwise.
pub proof fn law_step_down(current: u64)
    ensures
        sims_steps().contains(step_down(current)),
        (exists|i: int| 0 <= i < 7 && sims_steps()[i] < current) ==> step_down(current) < current
            && forall|i: int| 0 <= i < 7 && #[trigger] sims_steps()[i] < current ==> sims_steps()[i]
                <= step_down(current),
        (forall|i: int| 0 <= i < 7 ==> #[trigger] sims_steps()[i] >= current) ==> step_down(current)
            == 10_000,
{
    assert(sims_steps()[0] == 10_000 && sims_steps()[1] == 50_000 && sims_steps()[2] == 100_000
        && sims_steps()[3] == 500_000 && sims_steps()[4] == 1_000_000 && sims_steps()[5]
        == 5_000_000 && sims_steps()[6] == 10_000_000);
}

/// The next larger simulation count.
pub fn next_sims_up(current: u64) -> (r: u64)
    ensures
        r == step_up(current),
{
    let steps: Vec<u64> = vec![10_000, 50_000, 100_000, 500_000, 1_000_000, 5_000_000, 10_000_000];
    let mut i: usize = 0;
    while i < steps.len()
        invariant
            0 <= i <= steps.len(),
            steps@ == sims_steps(),
            forall|k: int| 0 <= k < i ==> steps@[k] <= current,
        decreases steps.len() - i,
    {
        if steps[i] > current {
            return steps[i];
        }
        i = i + 1;
    }
    steps[steps.len() - 1]
}

/// The next smaller simulation count.
pub fn next_sims_down(current: u64) -> (r: u64)
    ensures
        r == step_down(current),
{
    let steps: Vec<u64> = vec![10_000, 50_000, 100_000, 500_000, 1_000_000, 5_000_000, 10_000_000];
    let mut i: usize = steps.len();
    while i > 0
        invariant
            0 <= i <= steps.len(),
            steps@ == sims_steps(),
            forall|k: int| i <= k < steps.len() ==> steps@[k] >= current,
        decreases i,
    {
        if steps[i - 1] < current {
            return steps[i - 1];
        }
        i = i - 1;
    }
    steps[0]
}

/// A simulation count in short form: `5M`, `50K` or `500`.
pub open spec fn sims_text(sims: u64) -> Seq<char> {
    if sims >= 1_000_000 {
        decimal((sims / 1_000_000) as nat) + seq!['M']
    } else if sims >= 1_000 {
        decimal((sims / 1_000) as nat) + seq!['K']
    } else {
        decimal(sims as nat)
    }
}

/// A simulation count in short form: `5M`, `50K` or `500`.
pub fn format_sims(sims: u64) -> (s: String)
    ensures
        s@ == sims_text(sims),
{
    let mut out: Vec<char> = Vec::new();
    if sims >= 1_000_000 {
        push_decimal(&mut out, (sims / 1_000_000) as u128);
        out.push('M');
    } else if sims >= 1_000 {
        push_decimal(&mut out, (sims / 1_000) as u128);
        out.push('K');
    } else {
        push_decimal(&mut out, sims as u128);
    }
    assert(out@ =~= sims_text(sims));
    string_from_chars(&out)
}

// ── Natural maximum and minimum ──────────────────────────────────────────────

/// Every kept die, group by group along the sides given (as far as both
/// go), shows its maximum, and no group is empty; false when nothing was kept.
pub open spec fn natural_max(kept: Seq<Seq<u32>>, sides: Seq<u32>) -> bool {
    &&& kept.len() > 0
    &&& forall|i: int|
        0 <= i < kept.len() && i < sides.len() ==> (#[trigger] kept[i]).len() > 0 && forall|j: int|
            0 <= j < kept[i].len() ==> kept[i][j] == sides[i]
}

/// Every kept die shows 1 and no group is empty; false when nothing was kept.
pub open spec fn natural_min(kept: Seq<Seq<u32>>) -> bool {
    &&& kept.len() > 0
    &&& forall|i: int|
        0 <= i < kept.len() ==> (#[trigger] kept[i]).len() > 0 && forall|j: int|
            0 <= j < kept[i].len() ==> kept[i][j] == 1
}

/// The mathematical value of a list of dice per group.
pub open spec fn dice_view(v: Seq<Vec<u32>>) -> Seq<Seq<u32>> {
    v.map_values(|x: Vec<u32>| x@)
}

/// Whether every die of `dice` shows `face` (and there is one).
fn all_show(dice: &Vec<u32>, face: u32) -> (r: bool)
    ensures
        r == (dice@.len() > 0 && forall|j: int| 0 <= j < dice@.len() ==> dice@[j] == face),
{
    if dice.len() == 0 {
        return false;
    }
    let mut j: usize = 0;
    while j < dice.len()
        invariant
            0 <= j <= dice.len(),
            forall|k: int| 0 <= k < j ==> dice@[k] == face,
        decreases dice.len() - j,
    {
        if dice[j] != face {
            return false;
        }
        j = j + 1;
    }
    true
}

/// Whether the kept dice are a natural maximum.
pub fn is_natural_max(kept_dice: &[Vec<u32>], group_sides: &[u32]) -> (r: bool)
    ensures
        r == natural_max(dice_view(kept_dice@), group_sides@),
{
    if kept_dice.len() == 0 {
        return false;
    }
    let mut i: usize = 0;
    while i < kept_dice.len() && i < group_sides.len()
        invariant
            0 <= i <= kept_dice@.len(),
            forall|k: int|
                0 <= k < i && k < group_sides@.len() ==> (#[trigger] dice_view(kept_dice@)[k]).len()
                    > 0 && forall|j: int|
                    0 <= j < dice_view(kept_dice@)[k].len() ==> dice_view(kept_dice@)[k][j]
                        == group_sides@[k],
        decreases kept_dice@.len() - i,
    {
        if !all_show(&kept_dice[i], group_sides[i]) {
            assert(dice_view(kept_dice@)[i as int] == kept_dice@[i as int]@);
            return false;
        }
        i = i + 1;
    }
    true
}

/// Whether the kept dice are a natural minimum.
pub fn is_natural_min(kept_dice: &[Vec<u32>]) -> (r: bool)
    ensures
        r == natural_min(dice_view(kept_dice@)),
{
    if kept_dice.len() == 0 {
        return false;
    }
    let mut i: usize = 0;
    while i < kept_dice.len()
        invariant
            0 <= i <= kept_dice@.len(),
            forall|k: int|
                0 <= k < i ==> (#[trigger] dice_view(kept_dice@)[k]).len() > 0 && forall|j: int|
                    0 <= j < dice_view(kept_dice@)[k].len() ==> dice_view(kept_dice@)[k][j] == 1,
        decreases kept_dice@.len() - i,
    {
        if !all_show(&kept_dice[i], 1) {
            assert(dice_view(kept_dice@)[i as int] == kept_dice@[i as int]@);
            return false;
        }
        i = i + 1;
    }
    true
}

// ── Presets ──────────────────────────────────────────────────────────────────

/// The index of the first preset whose name matches `input` ignoring case.
pub open spec fn preset_match(presets: Seq<PresetEntry>, input: Seq<char>) -> Option<int>
    decreases presets.len(),
{
    if presets.len() == 0 {
        None
    } else if str_to_lowercase(presets[0].name@) == str_to_lowercase(input) {
        Some(0)
    } else {
        match preset_match(presets.drop_first(), input) {
            Some(i) => Some(i + 1),
            None => None,
        }
    }
}

/// The expression a user input stands for: the expression of the first
/// preset whose name matches it ignoring case, or the input itself.
pub open spec fn resolved_input(presets: Seq<PresetEntry>, input: Seq<char>) -> Seq<char> {
    match preset_match(presets, input) {
        Some(i) => presets[i].expression@,
        None => input,
    }
}

/// Resolves a preset name (case-insensitively) to its expression; any other
/// input is returned unchanged.
pub fn resolve_preset(presets: &[PresetEntry], input: &str) -> (r: String)
    ensures
        r@ == resolved_input(presets@, input@),
{
    let wanted = to_lowercase(input);
    let mut i: usize = 0;
    assert(presets@.skip(0) =~= presets@);
    while i < presets.len()
        invariant
            0 <= i <= presets@.len(),
            wanted@ == str_to_lowercase(input@),
            preset_match(presets@, input@) == match preset_match(presets@.skip(i as int), input@) {
                Some(k) => Some(k + i),
                None => None::<int>,
            },
        decreases presets@.len() - i,
    {
        let name = to_lowercase(presets[i].name.as_str());
        assert(presets@.skip(i as int)[0] == presets@[i as int]);
        if name == wanted {
            return presets[i].expression.clone();
        }
        assert(presets@.skip(i as int).drop_first() =~= presets@.skip(i + 1));
        i = i + 1;
    }
    string_from_chars(&chars_of(input))
}

// ── Reading a breakdown back ─────────────────────────────────────────────────

/// The index of the first occurrence of `pat` in `s`.
pub open spec fn find_text(s: Seq<char>, pat: Seq<char>) -> Option<nat>
    decreases s.len(),
{
    if s.len() < pat.len() {
        None
    } else if s.take(pat.len() as int) == pat {
        Some(0)
    } else if s.len() == 0 {
        None
    } else {
        match find_text(s.drop_first(), pat) {
            Some(p) => Some(p + 1),
            None => None,
        }
    }
}

/// An occurrence found by `find_text` lies inside `s`.
pub proof fn lemma_find_text_bound(s: Seq<char>, pat: Seq<char>)
    ensures
        find_text(s, pat) matches Some(p) ==> p + pat.len() <= s.len() && s.subrange(
            p as int,
            (p + pat.len()) as int,
        ) == pat,
    decreases s.len(),
{
    if s.len() >= pat.len() && s.take(pat.len() as int) != pat && s.len() > 0 {
        lemma_find_text_bound(s.drop_first(), pat);
        if let Some(p) = find_text(s.drop_first(), pat) {
            assert(s.subrange((p + 1) as int, (p + 1 + pat.len()) as int) =~= s.drop_first().subrange(
                p as int,
                (p + pat.len()) as int,
            ));
        }
    } else if s.len() >= pat.len() && s.take(pat.len() as int) == pat {
        assert(s.subrange(0, pat.len() as int) =~= s.take(pat.len() as int));
    }
}

/// The pieces of `s` between the occurrences of `pat`, as `str::split`
/// gives them (`s` itself when `pat` is empty).
pub open spec fn split_text(s: Seq<char>, pat: Seq<char>) -> Seq<Seq<char>>
    decreases s.len(),
{
    if pat.len() == 0 {
        seq![s]
    } else {
        match find_text(s, pat) {
            None => seq![s],
            Some(p) => {
                proof {
                    lemma_find_text_bound(s, pat);
                }
                seq![s.take(p as int)] + split_text(s.skip((p + pat.len()) as int), pat)
            },
        }
    }
}

/// `s` without its leading copies of `c`.
pub open spec fn strip_leading(s: Seq<char>, c: char) -> Seq<char>
    decreases s.len(),
{
    if s.len() > 0 && s[0] == c {
        strip_leading(s.drop_first(), c)
    } else {
        s
    }
}

/// `s` without its trailing copies of `c`.
pub open spec fn strip_trailing(s: Seq<char>, c: char) -> Seq<char>
    decreases s.len(),
{
    if s.len() > 0 && s.last() == c {
        strip_trailing(s.drop_last(), c)
    } else {
        s
    }
}

/// The inside of one bracketed group of a breakdown.
pub open spec fn group_inside(part: Seq<char>) -> Seq<char> {
    strip_trailing(strip_leading(trim(part), '['), ']')
}

/// The numbers among comma-separated pieces, skipping those that do not read
/// as a `u32`.
pub open spec fn numbers_in(pieces: Seq<Seq<char>>) -> Seq<u32>
    decreases pieces.len(),
{
    if pieces.len() == 0 {
        Seq::empty()
    } else {
        (match parse_u32_text(trim(pieces[0])) {
            Some(v) => seq![v],
            None => Seq::empty(),
        }) + numbers_in(pieces.drop_first())
    }
}

/// The part of a breakdown that holds the first roll: before the first
/// ` vs `, if any.
pub open spec fn first_roll_part(b: Seq<char>) -> Seq<char> {
    match find_text(b, " vs "@) {
        Some(p) => b.take(p as int),
        None => b,
    }
}

/// The kept dice that a breakdown such as `[3, 5] + [2]` shows, per group.
pub open spec fn kept_from_breakdown(b: Seq<char>) -> Seq<Seq<u32>> {
    split_text(first_roll_part(b), " + "@).map_values(
        |p: Seq<char>| numbers_in(split_text(group_inside(p), seq![','])),
    )
}

/// Whether `v[k..k + pat.len()]` is `pat`.
fn matches_at(v: &Vec<char>, k: usize, pat: &Vec<char>) -> (r: bool)
    requires
        k + pat.len() <= v.len(),
    ensures
        r == (v@.subrange(k as int, k + pat.len()) == pat@),
{
    let mut j: usize = 0;
    while j < pat.len()
        invariant
            0 <= j <= pat.len(),
            k + pat.len() <= v.len(),
            forall|i: int| 0 <= i < j ==> v@[k + i] == pat@[i],
        decreases pat.len() - j,
    {
        if v[k + j] != pat[j] {
            assert(v@.subrange(k as int, k + pat.len())[j as int] != pat@[j as int]);
            return false;
        }
        j = j + 1;
    }
    assert(v@.subrange(k as int, k + pat.len()) =~= pat@);
    true
}

/// The first occurrence of `pat` in `v[lo..hi]`.
fn find_text_at(v: &Vec<char>, lo: usize, hi: usize, pat: &Vec<char>) -> (r: Option<usize>)
    requires
        lo <= hi <= v.len(),
    ensures
        match r {
            Some(p) => lo <= p && p + pat.len() <= hi && find_text(
                v@.subrange(lo as int, hi as int),
                pat@,
            ) == Some((p - lo) as nat),
            None => find_text(v@.subrange(lo as int, hi as int), pat@) is None,
        },
{
    let mut k: usize = lo;
    while hi - k >= pat.len()
        invariant
            lo <= k <= hi <= v.len(),
            find_text(v@.subrange(lo as int, hi as int), pat@) == match find_text(
                v@.subrange(k as int, hi as int),
                pat@,
            ) {
                Some(p) => Some(p + (k - lo) as nat),
                None => None,
            },
        decreases hi - k,
    {
        let ghost s = v@.subrange(k as int, hi as int);
        assert(s.take(pat.len() as int) =~= v@.subrange(k as int, k + pat.len()));
        if matches_at(v, k, pat) {
            return Some(k);
        }
        if k == hi {
            return None;
        }
        assert(s.drop_first() =~= v@.subrange(k + 1, hi as int));
        k = k + 1;
    }
    None
}

/// The view of ranges into `v`.
pub open spec fn ranges_view(v: Seq<char>, r: Seq<(usize, usize)>) -> Seq<Seq<char>> {
    r.map_values(|x: (usize, usize)| v.subrange(x.0 as int, x.1 as int))
}

/// The pieces of `v[lo..hi]` between occurrences of a non-empty `pat`.
fn split_ranges(v: &Vec<char>, lo: usize, hi: usize, pat: &Vec<char>) -> (r: Vec<(usize, usize)>)
    requires
        lo <= hi <= v.len(),
        pat.len() > 0,
    ensures
        ranges_view(v@, r@) == split_text(v@.subrange(lo as int, hi as int), pat@),
        forall|i: int| 0 <= i < r@.len() ==> lo <= (#[trigger] r@[i]).0 <= r@[i].1 <= hi,
{
    let mut out: Vec<(usize, usize)> = Vec::new();
    let mut start: usize = lo;
    loop
        invariant_except_break
            lo <= start <= hi <= v.len(),
            ranges_view(v@, out@) + split_text(v@.subrange(start as int, hi as int), pat@)
                == split_text(v@.subrange(lo as int, hi as int), pat@),
        invariant
            pat.len() > 0,
            lo <= hi <= v.len(),
            forall|i: int| 0 <= i < out@.len() ==> lo <= (#[trigger] out@[i]).0 <= out@[i].1 <= hi,
        ensures
            ranges_view(v@, out@) == split_text(v@.subrange(lo as int, hi as int), pat@),
        decreases hi - start,
    {
        let ghost s = v@.subrange(start as int, hi as int);
        let ghost before = out@;
        match find_text_at(v, start, hi, pat) {
            None => {
                out.push((start, hi));
                assert(ranges_view(v@, out@) =~= ranges_view(v@, before) + seq![s]);
                break;
            },
            Some(p) => {
                out.push((start, p));
                assert(s.take(p - start) =~= v@.subrange(start as int, p as int));
                assert(s.skip(p - start + pat.len()) =~= v@.subrange(p + pat.len(), hi as int));
                assert(ranges_view(v@, out@) =~= ranges_view(v@, before) + seq![
                    v@.subrange(start as int, p as int),
                ]);
                start = p + pat.len();
            },
        }
    }
    out
}

/// The bounds of `v[lo..hi]` without its leading copies of `c`.
fn strip_leading_index(v: &Vec<char>, lo: usize, hi: usize, c: char) -> (a: usize)
    requires
        lo <= hi <= v.len(),
    ensures
        lo <= a <= hi,
        v@.subrange(a as int, hi as int) == strip_leading(v@.subrange(lo as int, hi as int), c),
{
    let mut a: usize = lo;
    while a < hi && v[a] == c
        invariant
            lo <= a <= hi <= v.len(),
            strip_leading(v@.subrange(a as int, hi as int), c) == strip_leading(
                v@.subrange(lo as int, hi as int),
                c,
            ),
        decreases hi - a,
    {
        assert(v@.subrange(a as int, hi as int).drop_first() =~= v@.subrange(a + 1, hi as int));
        a = a + 1;
    }
    a
}

/// The bounds of `v[lo..hi]` without its trailing copies of `c`.
fn strip_trailing_index(v: &Vec<char>, lo: usize, hi: usize, c: char) -> (b: usize)
    requires
        lo <= hi <= v.len(),
    ensures
        lo <= b <= hi,
        v@.subrange(lo as int, b as int) == strip_trailing(v@.subrange(lo as int, hi as int), c),
{
    let mut b: usize = hi;
    while b > lo && v[b - 1] == c
        invariant
            lo <= b <= hi <= v.len(),
            strip_trailing(v@.subrange(lo as int, b as int), c) == strip_trailing(
                v@.subrange(lo as int, hi as int),
                c,
            ),
        decreases b - lo,
    {
        assert(v@.subrange(lo as int, b as int).drop_last() =~= v@.subrange(lo as int, b - 1));
        b = b - 1;
    }
    b
}

/// The numbers shown in the bracketed group `v[lo..hi]`.
fn group_numbers(v: &Vec<char>, lo: usize, hi: usize, comma: &Vec<char>) -> (r: Vec<u32>)
    requires
        lo <= hi <= v.len(),
        comma@ == seq![','],
    ensures
        r@ == numbers_in(split_text(group_inside(v@.subrange(lo as int, hi as int)), seq![','])),
{
    let (a, b) = trim_range(v, lo, hi);
    let a2 = strip_leading_index(v, a, b, '[');
    let b2 = strip_trailing_index(v, a2, b, ']');
    let pieces = split_ranges(v, a2, b2, comma);
    let ghost pv = ranges_view(v@, pieces@);
    let mut out: Vec<u32> = Vec::new();
    let mut i: usize = 0;
    assert(pv.skip(0) =~= pv);
    assert(numbers_in(pv) =~= Seq::<u32>::empty() + numbers_in(pv.skip(0)));
    while i < pieces.len()
        invariant
            0 <= i <= pieces.len(),
            pv == ranges_view(v@, pieces@),
            forall|k: int| 0 <= k < pieces@.len() ==> a2 <= (#[trigger] pieces@[k]).0 <= pieces@[k].1 <= b2,
            b2 <= v.len(),
            numbers_in(pv) == out@ + numbers_in(pv.skip(i as int)),
        decreases pieces.len() - i,
    {
        let (pa, pb) = pieces[i];
        let (ta, tb) = trim_range(v, pa, pb);
        let ghost rest = pv.skip(i as int);
        assert(rest[0] == v@.subrange(pa as int, pb as int));
        assert(rest.drop_first() =~= pv.skip(i + 1));
        match parse_u32_at(v, ta, tb) {
            Some(n) => {
                out.push(n);
                assert(numbers_in(pv) =~= out@ + numbers_in(pv.skip(i + 1)));
            },
            None => {
                assert(numbers_in(pv) =~= out@ + numbers_in(pv.skip(i + 1)));
            },
        }
        i = i + 1;
    }
    assert(pv.skip(pieces.len() as int) =~= Seq::<Seq<char>>::empty());
    assert(out@ =~= numbers_in(pv));
    out
}

/// Parse the kept dice back from a breakdown such as `[3, 5] + [2]` (for a
/// breakdown `A vs B`, from `A`), and the sides of each group of `expr`.
pub fn parse_kept_from_breakdown(breakdown: &str, expr: &DiceExpr) -> (r: (Vec<Vec<u32>>, Vec<u32>))
    ensures
        dice_view(r.0@) == kept_from_breakdown(breakdown@),
        r.1@ == expr.groups@.map_values(|g: crate::expr::DiceGroup| g.sides),
{
    let v = chars_of(breakdown);
    let vs = chars_of(" vs ");
    let plus = chars_of(" + ");
    let comma = chars_of(",");
    proof {
        reveal_strlit(" vs ");
        reveal_strlit(" + ");
        reveal_strlit(",");
        assert(comma@ =~= seq![',']);
    }
    let n = v.len();
    assert(v@.subrange(0, n as int) =~= v@);
    let end = match find_text_at(&v, 0, n, &vs) {
        Some(p) => p,
        None => n,
    };
    assert(first_roll_part(v@) =~= v@.subrange(0, end as int));
    let parts = split_ranges(&v, 0, end, &plus);
    let ghost pv = ranges_view(v@, parts@);
    let mut kept: Vec<Vec<u32>> = Vec::new();
    let mut i: usize = 0;
    while i < parts.len()
        invariant
            0 <= i <= parts.len(),
            pv == ranges_view(v@, parts@),
            comma@ == seq![','],
            end <= v.len(),
            forall|k: int| 0 <= k < parts@.len() ==> 0 <= (#[trigger] parts@[k]).0 <= parts@[k].1 <= end,
            dice_view(kept@) == pv.take(i as int).map_values(
                |p: Seq<char>| numbers_in(split_text(group_inside(p), seq![','])),
            ),
        decreases parts.len() - i,
    {
        let (a, b) = parts[i];
        let nums = group_numbers(&v, a, b, &comma);
        let ghost before = dice_view(kept@);
        let ghost nv = nums@;
        kept.push(nums);
        assert(dice_view(kept@) =~= before.push(nv));
        assert(pv[i as int] == v@.subrange(a as int, b as int));
        assert(dice_view(kept@) =~= pv.take(i + 1).map_values(
            |p: Seq<char>| numbers_in(split_text(group_inside(p), seq![','])),
        ));
        i = i + 1;
    }
    assert(pv.take(parts.len() as int) =~= pv);
    let mut sides: Vec<u32> = Vec::new();
    let mut j: usize = 0;
    while j < expr.groups.len()
        invariant
            0 <= j <= expr.groups.len(),
            sides@ == expr.groups@.take(j as int).map_values(|g: crate::expr::DiceGroup| g.sides),
        decreases expr.groups.len() - j,
    {
        sides.push(expr.groups[j].sides);
        j = j + 1;
        assert(sides@ =~= expr.groups@.take(j as int).map_values(
            |g: crate::expr::DiceGroup| g.sides,
        ));
    }
    assert(expr.groups@.take(expr.groups.len() as int) =~= expr.groups@);
    (kept, sides)
}

// ── A printed breakdown reads back ───────────────────────────────────────────

/// Where `pat[j]` occurs nowhere in `s`, neither does `pat`.
proof fn lemma_find_none(s: Seq<char>, pat: Seq<char>, j: int)
    requires
        0 <= j < pat.len(),
        forall|i: int| 0 <= i < s.len() ==> s[i] != pat[j],
    ensures
        find_text(s, pat) is None,
    decreases s.len(),
{
    if s.len() >= pat.len() {
        assert(s.take(pat.len() as int)[j] == s[j]);
        if s.len() > 0 {
            lemma_find_none(s.drop_first(), pat, j);
        }
    }
}

/// `pat` is first found right after `p` when `p` holds no `pat[j]` and
/// `pat[j]` differs from the characters of `pat` before it.
proof fn lemma_find_first(p: Seq<char>, pat: Seq<char>, rest: Seq<char>, j: int)
    requires
        0 <= j < pat.len(),
        forall|i: int| 0 <= i < p.len() ==> p[i] != pat[j],
        forall|k: int| 0 <= k < j ==> pat[k] != pat[j],
    ensures
        find_text(p + pat + rest, pat) == Some(p.len()),
    decreases p.len(),
{
    let s = p + pat + rest;
    if p.len() == 0 {
        assert(s.take(pat.len() as int) =~= pat);
    } else {
        if j < p.len() {
            assert(s.take(pat.len() as int)[j] == p[j]);
        } else {
            assert(s.take(pat.len() as int)[j] == pat[j - p.len()]);
        }
        assert(s.take(pat.len() as int) != pat);
        assert(s.drop_first() =~= p.drop_first() + pat + rest);
        lemma_find_first(p.drop_first(), pat, rest, j);
    }
}

/// Splitting a join by its separator gives the parts back, when no part holds
/// `sep[j]` and `sep[j]` differs from the characters of `sep` before it.
proof fn lemma_split_join(parts: Seq<Seq<char>>, sep: Seq<char>, j: int)
    requires
        parts.len() >= 1,
        0 <= j < sep.len(),
        forall|k: int| 0 <= k < j ==> sep[k] != sep[j],
        forall|n: int, i: int|
            0 <= n < parts.len() && 0 <= i < parts[n].len() ==> #[trigger] parts[n][i] != sep[j],
    ensures
        split_text(join(parts, sep), sep) == parts,
    decreases parts.len(),
{
    let p0 = parts[0];
    if parts.len() == 1 {
        assert forall|i: int| 0 <= i < p0.len() implies p0[i] != sep[j] by {
            assert(parts[0][i] == p0[i]);
        }
        lemma_find_none(p0, sep, j);
        assert(split_text(join(parts, sep), sep) =~= parts);
    } else {
        let rest = parts.drop_first();
        assert forall|i: int| 0 <= i < p0.len() implies p0[i] != sep[j] by {
            assert(parts[0][i] == p0[i]);
        }
        assert forall|n: int, i: int|
            0 <= n < rest.len() && 0 <= i < rest[n].len() implies #[trigger] rest[n][i] != sep[j] by {
            assert(rest[n] == parts[n + 1]);
            assert(parts[n + 1][i] != sep[j]);
        }
        let s = join(parts, sep);
        assert(s == p0 + sep + join(rest, sep));
        lemma_find_first(p0, sep, join(rest, sep), j);
        lemma_split_join(rest, sep, j);
        assert(s.take(p0.len() as int) =~= p0);
        assert(s.skip((p0.len() + sep.len()) as int) =~= join(rest, sep));
        assert(split_text(s, sep) =~= parts);
    }
}

/// Every character of a join is one of the parts' or the separator's.
proof fn lemma_join_chars(parts: Seq<Seq<char>>, sep: Seq<char>, ok: spec_fn(char) -> bool)
    requires
        forall|n: int, i: int|
            0 <= n < parts.len() && 0 <= i < parts[n].len() ==> ok(#[trigger] parts[n][i]),
        forall|i: int| 0 <= i < sep.len() ==> ok(#[trigger] sep[i]),
    ensures
        forall|i: int| 0 <= i < join(parts, sep).len() ==> ok(#[trigger] join(parts, sep)[i]),
    decreases parts.len(),
{
    if parts.len() > 1 {
        let rest = parts.drop_first();
        assert forall|n: int, i: int|
            0 <= n < rest.len() && 0 <= i < rest[n].len() implies ok(#[trigger] rest[n][i]) by {
            assert(rest[n] == parts[n + 1]);
            assert(ok(parts[n + 1][i]));
        }
        lemma_join_chars(rest, sep, ok);
        let a = parts[0] + sep;
        let b = join(rest, sep);
        assert forall|i: int| 0 <= i < (a + b).len() implies ok(#[trigger] (a + b)[i]) by {
            if i < parts[0].len() {
                assert(ok(parts[0][i]));
            } else if i < a.len() {
                assert(ok(sep[i - parts[0].len()]));
            } else {
                assert((a + b)[i] == b[i - a.len()]);
            }
        }
        assert(join(parts, sep) == a + b);
    } else if parts.len() == 1 {
        assert forall|i: int| 0 <= i < join(parts, sep).len() implies ok(
            #[trigger] join(parts, sep)[i],
        ) by {
            assert(ok(parts[0][i]));
        }
    }
}

/// Joining with a first part that gains a leading space.
proof fn lemma_join_space_first(q: Seq<Seq<char>>, sep: Seq<char>)
    requires
        q.len() >= 1,
    ensures
        join(q.update(0, seq![' '] + q[0]), sep) == seq![' '] + join(q, sep),
{
    let q2 = q.update(0, seq![' '] + q[0]);
    assert(q2.drop_first() =~= q.drop_first());
    if q.len() > 1 {
        assert(join(q2, sep) =~= seq![' '] + join(q, sep));
    }
}

/// The numerals of `ds`, each but the first after a space.
pub open spec fn spaced_numerals(ds: Seq<u32>) -> Seq<Seq<char>> {
    Seq::new(
        ds.len(),
        |i: int|
            if i == 0 {
                decimal(ds[0] as nat)
            } else {
                seq![' '] + decimal(ds[i] as nat)
            },
    )
}

/// `a, b, c` is `a`, ` b` and ` c` joined by commas.
proof fn lemma_comma_space(ds: Seq<u32>)
    requires
        ds.len() >= 1,
    ensures
        join(ds.map_values(|d: u32| decimal(d as nat)), seq![',', ' ']) == join(
            spaced_numerals(ds),
            seq![','],
        ),
    decreases ds.len(),
{
    let nums = ds.map_values(|d: u32| decimal(d as nat));
    if ds.len() == 1 {
        assert(spaced_numerals(ds)[0] == nums[0]);
    } else {
        let dr = ds.drop_first();
        lemma_comma_space(dr);
        assert(nums.drop_first() =~= dr.map_values(|d: u32| decimal(d as nat)));
        let q = spaced_numerals(dr);
        lemma_join_space_first(q, seq![',']);
        assert(spaced_numerals(ds).drop_first() =~= q.update(0, seq![' '] + q[0]));
        assert(join(nums, seq![',', ' ']) =~= join(spaced_numerals(ds), seq![',']));
    }
}

/// The numbers read from the pieces are `ds` where each piece trims to the
/// numeral of the matching number.
proof fn lemma_numbers_back(pieces: Seq<Seq<char>>, ds: Seq<u32>)
    requires
        pieces.len() == ds.len(),
        forall|i: int| 0 <= i < ds.len() ==> trim(#[trigger] pieces[i]) == decimal(ds[i] as nat),
    ensures
        numbers_in(pieces) == ds,
    decreases ds.len(),
{
    if ds.len() > 0 {
        lemma_parse_u32_decimal(ds[0] as nat);
        assert(trim(pieces[0]) == decimal(ds[0] as nat));
        lemma_numbers_back(pieces.drop_first(), ds.drop_first());
        assert(numbers_in(pieces) =~= ds);
    }
}

/// A numeral, with or without one leading space, trims to itself.
proof fn lemma_trim_numeral(n: nat)
    ensures
        trim(decimal(n)) == decimal(n),
        trim(seq![' '] + decimal(n)) == decimal(n),
{
    let d = decimal(n);
    lemma_decimal(n);
    assert(is_digit(d[0]) && is_digit(d.last()));
    lemma_trim_unchanged(d);
    assert((seq![' '] + d).drop_first() =~= d);
    assert(trim_start(seq![' '] + d) == trim_start(d));
}

/// The dice printed in one group's brackets read back.
proof fn lemma_group_back(ds: Seq<u32>)
    ensures
        numbers_in(split_text(group_inside(bracket_text(ds)), seq![','])) == ds,
{
    let b = bracket_text(ds);
    let inner = join(ds.map_values(|d: u32| decimal(d as nat)), seq![',', ' ']);
    assert(b == seq!['['] + inner + seq![']']);
    lemma_trim_unchanged(b);
    if ds.len() == 0 {
        assert(inner =~= Seq::<char>::empty());
        assert(b =~= seq!['[', ']']);
        assert(trim(b) == b);
        let close = seq![']'];
        assert(b.drop_first() =~= close);
        assert(strip_leading(close, '[') == close);
        assert(strip_leading(b, '[') == close);
        let empty = Seq::<char>::empty();
        assert(close.drop_last() =~= empty);
        assert(strip_trailing(empty, ']') == empty);
        assert(strip_trailing(close, ']') == empty);
        assert(group_inside(b) == empty);
        assert(split_text(empty, seq![',']) =~= seq![empty]);
        assert(trim_start(empty) == empty);
        assert(trim(empty) == empty);
        assert(parse_u32_text(empty) is None);
        assert(seq![empty].drop_first() =~= Seq::<Seq<char>>::empty());
        assert(numbers_in(Seq::<Seq<char>>::empty()) == Seq::<u32>::empty());
        assert(numbers_in(seq![empty]) =~= Seq::<u32>::empty());
    } else {
        let pieces = spaced_numerals(ds);
        lemma_comma_space(ds);
        assert forall|i: int| 0 <= i < ds.len() implies trim(#[trigger] pieces[i]) == decimal(
            ds[i] as nat,
        ) by {
            lemma_trim_numeral(ds[i] as nat);
        }
        assert forall|n: int, i: int|
            0 <= n < pieces.len() && 0 <= i < pieces[n].len() implies #[trigger] pieces[n][i]
            != seq![','][0] by {
            lemma_decimal(ds[n] as nat);
            if n > 0 && i > 0 {
                assert(pieces[n][i] == decimal(ds[n] as nat)[i - 1]);
            }
        }
        lemma_split_join(pieces, seq![','], 0);
        lemma_numbers_back(pieces, ds);
        // The brackets come off: the numerals begin and end with digits.
        lemma_decimal(ds[0] as nat);
        lemma_decimal(ds.last() as nat);
        lemma_join_first_last(pieces, seq![',']);
        assert(pieces[0] == decimal(ds[0] as nat));
        assert(pieces.last() == seq![' '] + decimal(ds.last() as nat) || pieces.last() == decimal(
            ds.last() as nat,
        ));
        assert(is_digit(inner[0]) && is_digit(inner.last()));
        assert((seq!['['] + inner + seq![']']).drop_first() =~= inner + seq![']']);
        assert((inner + seq![']'])[0] == inner[0]);
        assert(strip_leading(inner + seq![']'], '[') == inner + seq![']']);
        assert((inner + seq![']']).drop_last() =~= inner);
        assert(strip_trailing(inner, ']') == inner);
        assert(group_inside(b) == inner);
    }
}

/// A join begins with its first part's first character and ends with its last
/// part's last character, when those parts are not empty.
proof fn lemma_join_first_last(parts: Seq<Seq<char>>, sep: Seq<char>)
    requires
        parts.len() >= 1,
        parts[0].len() >= 1,
        parts.last().len() >= 1,
    ensures
        join(parts, sep).len() >= 1,
        join(parts, sep)[0] == parts[0][0],
        join(parts, sep).last() == parts.last().last(),
    decreases parts.len(),
{
    if parts.len() > 1 {
        let rest = parts.drop_first();
        assert(rest.last() == parts.last());
        if rest.len() >= 1 && rest[0].len() >= 1 {
            lemma_join_first_last(rest, sep);
        } else {
            lemma_join_first_last_any(rest, sep);
        }
    }
}

proof fn lemma_join_first_last_any(parts: Seq<Seq<char>>, sep: Seq<char>)
    requires
        parts.len() >= 1,
        parts.last().len() >= 1,
    ensures
        join(parts, sep).len() >= 1,
        join(parts, sep).last() == parts.last().last(),
    decreases parts.len(),
{
    if parts.len() > 1 {
        let rest = parts.drop_first();
        assert(rest.last() == parts.last());
        lemma_join_first_last_any(rest, sep);
    }
}

/// Every character of a printed roll is a digit, a bracket, a comma, a
/// space or a plus sign.
proof fn lemma_rolls_text_chars(rolls: Seq<Seq<u32>>)
    ensures
        forall|i: int|
            0 <= i < rolls_text(rolls).len() ==> {
                let c = #[trigger] rolls_text(rolls)[i];
                is_digit(c) || c == ',' || c == ' ' || c == '[' || c == ']' || c == '+'
            },
        forall|n: int, i: int|
            0 <= n < rolls.len() && 0 <= i < bracket_text(rolls[n]).len() ==> {
                let c = #[trigger] bracket_text(rolls[n])[i];
                is_digit(c) || c == ',' || c == ' ' || c == '[' || c == ']'
            },
{
    let parts = rolls.map_values(|g: Seq<u32>| bracket_text(g));
    let plain = |c: char| is_digit(c) || c == ',' || c == ' ' || c == '[' || c == ']';
    let printed = |c: char| plain(c) || c == '+';
    assert forall|n: int, i: int|
        0 <= n < rolls.len() && 0 <= i < bracket_text(rolls[n]).len() implies plain(
            #[trigger] bracket_text(rolls[n])[i],
        ) by {
        let ds = rolls[n];
        let nums = ds.map_values(|d: u32| decimal(d as nat));
        assert forall|m: int, k: int|
            0 <= m < nums.len() && 0 <= k < nums[m].len() implies plain(#[trigger] nums[m][k]) by {
            lemma_decimal(ds[m] as nat);
        }
        lemma_join_chars(nums, seq![',', ' '], plain);
        let inner = join(nums, seq![',', ' ']);
        assert(bracket_text(ds) == seq!['['] + inner + seq![']']);
        if 0 < i < bracket_text(ds).len() - 1 {
            assert(bracket_text(ds)[i] == inner[i - 1]);
        }
    }
    assert forall|n: int, i: int|
        0 <= n < parts.len() && 0 <= i < parts[n].len() implies printed(#[trigger] parts[n][i]) by {
        assert(parts[n] == bracket_text(rolls[n]));
        assert(plain(bracket_text(rolls[n])[i]));
    }
    lemma_join_chars(parts, seq![' ', '+', ' '], printed);
}

/// The breakdown printed for a roll reads back as the dice it shows, group by
/// group (for a roll of at least one group).
pub proof fn law_breakdown_round_trip(rolls: Seq<Seq<u32>>)
    requires
        rolls.len() >= 1,
    ensures
        kept_from_breakdown(rolls_text(rolls)) == rolls,
{
    reveal_strlit(" + ");
    reveal_strlit(" vs ");
    let parts = rolls.map_values(|g: Seq<u32>| bracket_text(g));
    let text = rolls_text(rolls);
    lemma_rolls_text_chars(rolls);
    assert(" vs "@ =~= seq![' ', 'v', 's', ' ']);
    assert forall|i: int| 0 <= i < text.len() implies text[i] != " vs "@[1] by {
        let c = text[i];
        assert(is_digit(c) || c == ',' || c == ' ' || c == '[' || c == ']' || c == '+');
    }
    lemma_find_none(text, " vs "@, 1);
    assert(first_roll_part(text) == text);
    assert(" + "@ =~= seq![' ', '+', ' ']);
    assert forall|n: int, i: int|
        0 <= n < parts.len() && 0 <= i < parts[n].len() implies #[trigger] parts[n][i]
        != " + "@[1] by {
        assert(parts[n] == bracket_text(rolls[n]));
        let c = bracket_text(rolls[n])[i];
        assert(is_digit(c) || c == ',' || c == ' ' || c == '[' || c == ']');
    }
    lemma_split_join(parts, " + "@, 1);
    assert forall|n: int| 0 <= n < rolls.len() implies numbers_in(
        split_text(group_inside(#[trigger] parts[n]), seq![',']),
    ) == rolls[n] by {
        lemma_group_back(rolls[n]);
    }
    assert(kept_from_breakdown(text) =~= rolls);
}

/// The breakdown printed for a roll with advantage or disadvantage, two
/// rolls joined by ` vs `, reads back as the dice of the first roll.
pub proof fn law_breakdown_vs_round_trip(first: Seq<Seq<u32>>, second: Seq<Seq<u32>>)
    requires
        first.len() >= 1,
    ensures
        kept_from_breakdown(rolls_text(first) + seq![' ', 'v', 's', ' '] + rolls_text(second))
            == first,
{
    reveal_strlit(" vs ");
    let text = rolls_text(first);
    let full = text + seq![' ', 'v', 's', ' '] + rolls_text(second);
    lemma_rolls_text_chars(first);
    assert(" vs "@ =~= seq![' ', 'v', 's', ' ']);
    assert forall|i: int| 0 <= i < text.len() implies text[i] != " vs "@[1] by {
        let c = text[i];
        assert(is_digit(c) || c == ',' || c == ' ' || c == '[' || c == ']' || c == '+');
    }
    lemma_find_none(text, " vs "@, 1);
    lemma_find_first(text, " vs "@, rolls_text(second), 1);
    assert(full.take(text.len() as int) =~= text);
    assert(first_roll_part(full) == first_roll_part(text));
    law_breakdown_round_trip(first);
}

} // verus!
