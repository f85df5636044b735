//! A dice roller library for tabletop RPGs.
//!
//! Supports standard dice notation (e.g. `2d10+4`), advantage/disadvantage,
//! keep-highest/lowest (`4d6kh3`), analytical statistics, and Monte Carlo
//! simulation. Each function states what it computes as a contract over the
//! mathematical model in its module, and Verus proves the code against it.

pub mod cli;
pub mod dist;
pub mod exact;
pub mod expr;
pub mod parse;
pub mod roll;
pub mod roundtrip;
pub mod session;
pub mod stats;
pub mod steps;
pub mod text;
pub mod tui;
pub mod view;

pub use cli::{format_bounds, parse_probability_range, query_description};
pub use dist::{
    compute_distribution, count_at_least, count_query_hits, distribution_header,
    distribution_layout, right_aligned, supports_exact_probability, DistributionLayout,
    ProbabilityQuery,
};
pub use exact::exact_query_hits;
pub use expr::{DiceExpr, DiceGroup, Keep, Modifier, ParseError};
pub use parse::{parse_expr, parse_normalized, try_parse_expr};
pub use roll::{apply_keep, can_roll, format_rolls, pick, roll_once, roll_value, roll_verbose};
pub use session::{next_target, push_capped, AppState, Key, KeyAction, MAX_HISTORY};
pub use stats::{roll_stats, stats_computable, RollStats};
pub use steps::{DistOpened, DistRecord, RollRecord, Submitted};
pub use tui::{
    format_sims, is_natural_max, is_natural_min, next_sims_down, next_sims_up,
    parse_kept_from_breakdown, resolve_preset, PresetEntry, Screen,
};
pub use view::{
    bar_width, flash_of, help_popup, mean_text, roll_line, stats_line, total_label, Flash,
};
