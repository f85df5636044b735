//! What the command line and the interface show, as text and geometry: the
//! line printed for a roll, the label of a total, where the help box sits,
//! how wide the bars of the chart are, and how a fresh result is highlighted.

use vstd::prelude::*;

use crate::expr::{expr_text, DiceExpr, DiceExprView};
use crate::stats::RollStats;
use crate::text::{decimal, push_decimal, push_signed_decimal, push_str, signed_decimal, string_from_chars};

verus! {

/// `n` as `{:+}` writes it: with its sign, `+` included.
pub open spec fn plus_signed(n: int) -> Seq<char> {
    if n < 0 {
        signed_decimal(n)
    } else {
        seq!['+'] + decimal(n as nat)
    }
}

/// The number of a roll among several, as `#3: `; nothing for a single roll.
pub open spec fn number_prefix(number: Option<u32>) -> Seq<char> {
    match number {
        Some(i) => "#"@ + decimal(i as nat) + ": "@,
        None => Seq::empty(),
    }
}

/// The line printed for a roll of `e` showing `detail` and making `total`.
pub open spec fn roll_line_text(
    number: Option<u32>,
    e: DiceExprView,
    detail: Seq<char>,
    total: int,
) -> Seq<char> {
    number_prefix(number) + expr_text(e) + " => "@ + detail + (if e.flat_bonus != 0 {
        " ("@ + plus_signed(e.flat_bonus as int) + ")"@
    } else {
        Seq::empty()
    }) + " = "@ + signed_decimal(total)
}

/// The line the command line prints for a roll: its number among several,
/// the expression, the dice shown, the flat bonus where there is one, and
/// the total, as in `#2: 2d6+3 => [4, 2] (+3) = 9`.
pub fn roll_line(number: Option<u32>, expr: &DiceExpr, detail: &str, total: i64) -> (s: String)
    ensures
        s@ == roll_line_text(number, expr@, detail@, total as int),
{
    let mut out: Vec<char> = Vec::new();
    match number {
        Some(i) => {
            push_str(&mut out, "#");
            push_decimal(&mut out, i as u128);
            push_str(&mut out, ": ");
        },
        None => {},
    }
    assert(out@ =~= number_prefix(number));
    let e = expr.to_string();
    push_str(&mut out, e.as_str());
    push_str(&mut out, " => ");
    push_str(&mut out, detail);
    let ghost head = out@;
    if expr.flat_bonus != 0 {
        push_str(&mut out, " (");
        if expr.flat_bonus < 0 {
            push_signed_decimal(&mut out, expr.flat_bonus);
        } else {
            out.push('+');
            push_decimal(&mut out, expr.flat_bonus as u128);
        }
        push_str(&mut out, ")");
        assert(out@ =~= head + (" ("@ + plus_signed(expr.flat_bonus as int) + ")"@));
    } else {
        assert(out@ =~= head + Seq::<char>::empty());
    }
    push_str(&mut out, " = ");
    push_signed_decimal(&mut out, total);
    assert(out@ =~= roll_line_text(number, expr@, detail@, total as int));
    string_from_chars(&out)
}

/// The label of a total: marked when every die rolled its maximum, or else
/// when every die rolled one.
pub open spec fn total_label_text(total: int, nat_max: bool, nat_min: bool) -> Seq<char> {
    if nat_max {
        signed_decimal(total) + " NAT MAX!"@
    } else if nat_min {
        signed_decimal(total) + " NAT MIN"@
    } else {
        signed_decimal(total)
    }
}

/// The label shown for a total, e.g. `20 NAT MAX!`.
pub fn total_label(total: i64, nat_max: bool, nat_min: bool) -> (s: String)
    ensures
        s@ == total_label_text(total as int, nat_max, nat_min),
{
    let mut out: Vec<char> = Vec::new();
    push_signed_decimal(&mut out, total);
    if nat_max {
        push_str(&mut out, " NAT MAX!");
    } else if nat_min {
        push_str(&mut out, " NAT MIN");
    }
    string_from_chars(&out)
}

/// `a - b`, or zero where `b` exceeds `a`.
pub open spec fn saturating_diff(a: int, b: int) -> int {
    if a >= b {
        a - b
    } else {
        0
    }
}

/// The smaller of two integers.
pub open spec fn least(a: int, b: int) -> int {
    if a <= b {
        a
    } else {
        b
    }
}

/// The help box on a screen of `area_width` by `area_height` cells: at most
/// 54 by 26, leaving two cells free on every side, and centred; the result is
/// `(x, y, width, height)`.
pub fn help_popup(area_width: u16, area_height: u16) -> (r: (u16, u16, u16, u16))
    ensures
        r.2 == least(54, saturating_diff(area_width as int, 4)),
        r.3 == least(26, saturating_diff(area_height as int, 4)),
        r.0 == saturating_diff(area_width as int, r.2 as int) / 2,
        r.1 == saturating_diff(area_height as int, r.3 as int) / 2,
{
    let width: u16 = if area_width >= 4 && area_width - 4 < 54 {
        area_width - 4
    } else if area_width < 4 {
        0
    } else {
        54
    };
    let height: u16 = if area_height >= 4 && area_height - 4 < 26 {
        area_height - 4
    } else if area_height < 4 {
        0
    } else {
        26
    };
    let x: u16 = if area_width >= width {
        (area_width - width) / 2
    } else {
        0
    };
    let y: u16 = if area_height >= height {
        (area_height - height) / 2
    } else {
        0
    };
    (x, y, width, height)
}

/// The width of each bar of a chart `chart_width` cells wide holding `bars`
/// bars: the inner width shared among them, between one and five cells.
pub fn bar_width(chart_width: u16, bars: u16) -> (r: u16)
    ensures
        r == ({
            let share = saturating_diff(chart_width as int, 2) / (if bars == 0 {
                1
            } else {
                bars as int
            });
            if share < 1 {
                1
            } else if share > 5 {
                5
            } else {
                share
            }
        }),
{
    let inner: u16 = if chart_width >= 2 {
        chart_width - 2
    } else {
        0
    };
    let n: u16 = if bars == 0 {
        1
    } else {
        bars
    };
    let share: u16 = inner / n;
    if share < 1 {
        1
    } else if share > 5 {
        5
    } else {
        share
    }
}

/// How a result is highlighted as it ages.
#[derive(Clone, Copy, Debug, PartialEq, Eq, Structural)]
pub enum Flash {
    /// Just rolled: shown brightest.
    Fresh,
    /// Fading.
    Fading,
    /// Shown plainly.
    Settled,
}

/// The highlight of a result rolled `age_ms` milliseconds ago: fresh for the
/// first 150, fading until 350, then settled.
pub fn flash_of(age_ms: u128) -> (r: Flash)
    ensures
        r == (if age_ms < 150 {
            Flash::Fresh
        } else if age_ms < 350 {
            Flash::Fading
        } else {
            Flash::Settled
        }),
{
    if age_ms < 150 {
        Flash::Fresh
    } else if age_ms < 350 {
        Flash::Fading
    } else {
        Flash::Settled
    }
}

/// Half of `d` written with two decimals, as `{:.2}` writes a mean: `3.50`,
/// `-0.50`, `7.00`.
pub open spec fn half_text(d: int) -> Seq<char> {
    let m = if d < 0 {
        -d
    } else {
        d
    };
    (if d < 0 {
        seq!['-']
    } else {
        Seq::empty()
    }) + decimal((m / 2) as nat) + (if m % 2 == 0 {
        ".00"@
    } else {
        ".50"@
    })
}

/// The mean of statistics holding twice it, with two decimals.
pub fn mean_text(double_mean: i128) -> (s: String)
    ensures
        s@ == half_text(double_mean as int),
{
    let mut out: Vec<char> = Vec::new();
    let m: u128 = if double_mean < 0 {
        out.push('-');
        ((-(double_mean + 1)) as u128) + 1
    } else {
        double_mean as u128
    };
    let ghost head = out@;
    push_decimal(&mut out, m / 2);
    if m % 2 == 0 {
        push_str(&mut out, ".00");
    } else {
        push_str(&mut out, ".50");
    }
    assert(out@ =~= half_text(double_mean as int));
    string_from_chars(&out)
}

/// The statistics line printed under a roll.
pub open spec fn stats_line_text(s: RollStats) -> Seq<char> {
    "  [min="@ + signed_decimal(s.min as int) + ", max="@ + signed_decimal(s.max as int)
        + ", mean="@ + half_text(s.double_mean as int) + "]"@
}

/// The statistics line, as in `  [min=5, max=15, mean=10.00]`.
pub fn stats_line(s: RollStats) -> (r: String)
    ensures
        r@ == stats_line_text(s),
{
    let mut out: Vec<char> = Vec::new();
    push_str(&mut out, "  [min=");
    push_signed_decimal(&mut out, s.min);
    push_str(&mut out, ", max=");
    push_signed_decimal(&mut out, s.max);
    push_str(&mut out, ", mean=");
    let mean = mean_text(s.double_mean);
    push_str(&mut out, mean.as_str());
    push_str(&mut out, "]");
    assert(out@ =~= stats_line_text(s));
    string_from_chars(&out)
}

} // verus!
