//! The interface's two steps that roll: submitting the input, and opening
//! the distribution view. Each takes the state and the random generator, and
//! gives back what the interface shows; only the time of a roll is left to
//! the caller.

use vstd::prelude::*;

use std::collections::BTreeMap;

use rand::rngs::StdRng;

use crate::dist::{compute_distribution, simulated};
use crate::expr::{failure_message, DiceExprView};
use crate::parse::{normalize, parse_text, try_parse_expr, ParseOutcome};
use crate::roll::{can_roll, possible_breakdown, roll_verbose, rollable};
use crate::session::{opened, AppState};
use crate::stats::{roll_stats, stats_computable, stats_double_mean, stats_fit, stats_max, stats_min, RollStats};
use crate::text::trim;
use crate::tui::{
    dice_view, is_natural_max, is_natural_min, kept_from_breakdown, natural_max, natural_min,
    parse_kept_from_breakdown, resolved_input, Screen,
};

verus! {

/// A roll as the interface records it (the time it was made aside).
pub struct RollRecord {
    /// The expression rolled, preset names resolved.
    pub expression: String,
    pub total: i64,
    pub breakdown: String,
    pub stats: RollStats,
    /// The kept dice per group, read back from the breakdown.
    pub kept_dice: Vec<Vec<u32>>,
    /// The sides of each group.
    pub group_sides: Vec<u32>,
    pub is_nat_max: bool,
    pub is_nat_min: bool,
}

/// What submitting the input did.
pub enum Submitted {
    /// The input was blank: nothing happened.
    Blank,
    /// The expression did not parse: the error is shown.
    Failed,
    /// The expression's sums leave the `i64` range: nothing happened.
    TooLarge,
    /// The expression was rolled and the input recorded.
    Rolled(RollRecord),
}

/// The distribution view's data.
pub struct DistRecord {
    pub expr_str: String,
    pub counts: BTreeMap<i64, u64>,
    pub sims: u64,
    pub stats: RollStats,
}

/// What opening the distribution view did.
pub enum DistOpened {
    /// There was nothing to show, or it did not parse: the error is shown.
    Failed,
    /// The expression's sums leave the `i64` range: nothing happened.
    TooLarge,
    /// The distribution was simulated and its view opened.
    Opened(DistRecord),
}

/// The expression a non-blank input stands for: trimmed, with preset names
/// resolved.
pub open spec fn submitted_text(s: AppState) -> Seq<char> {
    resolved_input(s.presets@, trim(s.input@))
}

/// The statistics of `e`.
pub open spec fn stats_of(e: DiceExprView, s: RollStats) -> bool {
    s.min == stats_min(e) && s.max == stats_max(e) && s.double_mean == stats_double_mean(e)
}

/// `rec` records a roll of `e`, written `text`.
pub open spec fn roll_recorded(e: DiceExprView, rec: RollRecord, text: Seq<char>) -> bool {
    &&& rec.expression@ == text
    &&& possible_breakdown(e, rec.total as int, rec.breakdown@)
    &&& stats_of(e, rec.stats)
    &&& dice_view(rec.kept_dice@) == kept_from_breakdown(rec.breakdown@)
    &&& rec.group_sides@ == e.groups.map_values(|g: crate::expr::DiceGroup| g.sides)
    &&& rec.is_nat_max == natural_max(dice_view(rec.kept_dice@), rec.group_sides@)
    &&& rec.is_nat_min == natural_min(dice_view(rec.kept_dice@))
}

/// `typed` has entered the input history (unless it repeats the last entry),
/// the input is emptied, and the error, the history selection and the scroll
/// are reset.
pub open spec fn recorded(old: AppState, new: AppState, typed: Seq<char>) -> bool {
    &&& if old.input_history@.len() > 0 && old.input_history@.last()@ == typed {
        new.input_history@ == old.input_history@
    } else {
        &&& new.input_history@.len() == old.input_history@.len() + 1
        &&& new.input_history@.take(old.input_history@.len() as int) == old.input_history@
        &&& new.input_history@.last()@ == typed
    }
    &&& new.input@.len() == 0
    &&& new == AppState {
        input: new.input,
        input_history: new.input_history,
        cursor: 0,
        input_history_idx: None,
        error_msg: None,
        history_scroll: 0,
        ..old
    }
}

/// Only the error changed, to the message of `f`.
pub open spec fn failed_with(old: AppState, new: AppState, msg: Seq<char>) -> bool {
    &&& new.error_msg matches Some(m) && m@ == msg
    &&& new == AppState { error_msg: new.error_msg, ..old }
}

/// What submitting a non-blank input does: by how the expression `text`
/// parses, nothing, the parse error, or a roll recorded.
pub open spec fn submit_step(old: AppState, new: AppState, r: Submitted) -> bool {
    match parse_text(normalize(submitted_text(old))) {
        ParseOutcome::BonusOverflow => r is TooLarge && new == old,
        ParseOutcome::Failed(f) => r is Failed && failed_with(old, new, failure_message(f)),
        ParseOutcome::Parsed(e) => if rollable(e) && stats_fit(e) {
            &&& r matches Submitted::Rolled(rec) && roll_recorded(e, rec, submitted_text(old))
            &&& recorded(old, new, trim(old.input@))
        } else {
            r is TooLarge && new == old
        },
    }
}

/// What opening the distribution of `text` does.
pub open spec fn dist_step(old: AppState, new: AppState, text: Seq<char>, r: DistOpened) -> bool {
    match parse_text(normalize(text)) {
        ParseOutcome::BonusOverflow => r is TooLarge && new == old,
        ParseOutcome::Failed(f) => r is Failed && failed_with(old, new, failure_message(f)),
        ParseOutcome::Parsed(e) => if rollable(e) && stats_fit(e) {
            &&& r matches DistOpened::Opened(rec) && rec.expr_str@ == text && rec.sims == old.sims
                && simulated(e, rec.counts@, old.sims) && stats_of(e, rec.stats)
            &&& opened(old, new, Screen::Distribution)
        } else {
            r is TooLarge && new == old
        },
    }
}

impl AppState {
    /// Enter on the roller: rolls the input's expression and records the
    /// input, or shows why it cannot.
    pub fn submit(&mut self, rng: &mut StdRng) -> (r: Submitted)
        requires
            old(self).wf(),
        ensures
            final(self).wf(),
            trim(old(self).input@).len() == 0 ==> r is Blank && *final(self) == *old(self),
            trim(old(self).input@).len() > 0 ==> submit_step(*old(self), *final(self), r),
    {
        let (typed, resolved) = match self.submission() {
            None => return Submitted::Blank,
            Some(p) => p,
        };
        let expr = match try_parse_expr(resolved.as_str()) {
            None => return Submitted::TooLarge,
            Some(Err(e)) => {
                self.parse_failed(&e);
                return Submitted::Failed;
            },
            Some(Ok(e)) => e,
        };
        if !can_roll(&expr) || !stats_computable(&expr) {
            return Submitted::TooLarge;
        }
        let (total, breakdown) = roll_verbose(&expr, rng);
        let stats = roll_stats(&expr);
        let (kept_dice, group_sides) = parse_kept_from_breakdown(breakdown.as_str(), &expr);
        let is_nat_max = is_natural_max(kept_dice.as_slice(), group_sides.as_slice());
        let is_nat_min = is_natural_min(kept_dice.as_slice());
        let ghost typed_text = typed@;
        self.record_submission(typed);
        proof {
            let o = old(self).input_history@;
            if !(o.len() > 0 && o.last()@ == typed_text) {
                assert(self.input_history@.take(o.len() as int) =~= o);
            }
        }
        Submitted::Rolled(
            RollRecord {
                expression: resolved,
                total,
                breakdown,
                stats,
                kept_dice,
                group_sides,
                is_nat_max,
                is_nat_min,
            },
        )
    }

    /// Tab to the distribution: simulates the input's expression (or the last
    /// roll's, for a blank input) `sims` times and opens the view, or shows why
    /// it cannot.
    pub fn open_distribution(&mut self, last_rolled: Option<String>, rng: &mut StdRng) -> (r:
        DistOpened)
        requires
            old(self).wf(),
        ensures
            final(self).wf(),
            trim(old(self).input@).len() > 0 ==> dist_step(
                *old(self),
                *final(self),
                submitted_text(*old(self)),
                r,
            ),
            trim(old(self).input@).len() == 0 ==> match last_rolled {
                Some(l) => dist_step(*old(self), *final(self), l@, r),
                None => r is Failed && failed_with(
                    *old(self),
                    *final(self),
                    "Type an expression first"@,
                ),
            },
    {
        let text = match self.distribution_source(last_rolled) {
            Ok(t) => t,
            Err(m) => {
                self.fail(m);
                return DistOpened::Failed;
            },
        };
        let expr = match try_parse_expr(text.as_str()) {
            None => return DistOpened::TooLarge,
            Some(Err(e)) => {
                self.parse_failed(&e);
                return DistOpened::Failed;
            },
            Some(Ok(e)) => e,
        };
        if !can_roll(&expr) || !stats_computable(&expr) {
            return DistOpened::TooLarge;
        }
        let counts = compute_distribution(&expr, self.sims, rng);
        let stats = roll_stats(&expr);
        self.open_screen(Screen::Distribution);
        DistOpened::Opened(DistRecord { expr_str: text, counts, sims: self.sims, stats })
    }
}

} // verus!
