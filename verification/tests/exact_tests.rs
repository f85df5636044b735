use rand::rngs::StdRng;
use rand::SeedableRng;
use roll::{
    distribution_header, distribution_layout, exact_query_hits, parse_expr, right_aligned,
    DiceExpr, ProbabilityQuery,
};
use std::collections::BTreeMap;

/// The exact probability of a roll of at least `target`, from the counts.
fn exact_probability(expr: &DiceExpr, target: i64) -> Option<f64> {
    exact_query_hits(expr, ProbabilityQuery::AtLeast(target))
        .map(|(hits, total)| hits as f64 / total as f64)
}

/// The histogram text: the library's header, rows and column width, with
/// the percentages and bars scaled as floats.
fn render_distribution(expr: &DiceExpr, counts: &BTreeMap<i64, u64>, sims: u64) -> String {
    let mut out = distribution_header(expr, sims);
    if let Some(layout) = distribution_layout(counts) {
        for (v, count) in layout.rows {
            let pct = count as f64 / sims as f64 * 100.0;
            let bar_len = (count as f64 / layout.max_count as f64 * 40.0).round() as usize;
            out.push_str(&format!(
                " {} | {:>5.1}% {}\n",
                right_aligned(v, layout.label_width),
                pct,
                "\u{2588}".repeat(bar_len)
            ));
        }
    }
    out
}

#[test]
fn exact_probability_d6_at_least_1_is_100_percent() {
    let expr = parse_expr("d6").unwrap();
    let p = exact_probability(&expr, 1).unwrap();
    assert!((p - 1.0).abs() < f64::EPSILON);
}

#[test]
fn exact_probability_d6_at_least_7_is_0_percent() {
    let expr = parse_expr("d6").unwrap();
    let p = exact_probability(&expr, 7).unwrap();
    assert!(p.abs() < f64::EPSILON);
}

#[test]
fn exact_probability_d6_at_least_4_is_50_percent() {
    let expr = parse_expr("d6").unwrap();
    let p = exact_probability(&expr, 4).unwrap();
    assert!((p - 0.5).abs() < 1e-10);
}

#[test]
fn exact_probability_returns_none_for_advantage() {
    let expr = parse_expr("adv d20").unwrap();
    assert!(exact_probability(&expr, 15).is_none());
}

#[test]
fn exact_probability_returns_none_for_keep() {
    let expr = parse_expr("4d6kh3").unwrap();
    assert!(exact_probability(&expr, 10).is_none());
}

#[test]
fn exact_probability_2d6_known_value() {
    let expr = parse_expr("2d6").unwrap();
    let p = exact_probability(&expr, 7).unwrap();
    assert!((p - 7.0 / 12.0).abs() < 1e-10);
}

#[test]
fn exact_probability_with_flat_bonus() {
    let expr = parse_expr("d6+3").unwrap();
    let p = exact_probability(&expr, 7).unwrap();
    assert!((p - 0.5).abs() < 1e-10);
}

#[test]
fn exact_probability_sums_to_one() {
    let expr = parse_expr("2d6").unwrap();
    let p = exact_probability(&expr, 2).unwrap();
    assert!((p - 1.0).abs() < 1e-10);
}

#[test]
fn exact_counts_of_2d6() {
    let expr = parse_expr("2d6").unwrap();
    assert_eq!(exact_query_hits(&expr, ProbabilityQuery::AtLeast(7)), Some((21, 36)));
    assert_eq!(exact_query_hits(&expr, ProbabilityQuery::Equal(7)), Some((6, 36)));
    assert_eq!(exact_query_hits(&expr, ProbabilityQuery::AtMost(3)), Some((3, 36)));
    assert_eq!(exact_query_hits(&expr, ProbabilityQuery::InclusiveRange(5, 9)), Some((24, 36)));
}

#[test]
fn exact_counts_mixed_groups_with_bonus() {
    let expr = parse_expr("1d4+1d6-2").unwrap();
    assert_eq!(exact_query_hits(&expr, ProbabilityQuery::AtLeast(i64::MIN)), Some((24, 24)));
    assert_eq!(exact_query_hits(&expr, ProbabilityQuery::Equal(8)), Some((1, 24)));
    assert_eq!(exact_query_hits(&expr, ProbabilityQuery::Equal(0)), Some((1, 24)));
}

#[test]
fn exact_counts_complement_adds_up() {
    let expr = parse_expr("3d6+1").unwrap();
    for x in 0..25 {
        let (ge, total) = exact_query_hits(&expr, ProbabilityQuery::AtLeast(x)).unwrap();
        let (le, _) = exact_query_hits(&expr, ProbabilityQuery::AtMost(x - 1)).unwrap();
        assert_eq!(ge + le, total);
        assert_eq!(total, 216);
    }
}

#[test]
fn exact_counts_too_large_for_u128() {
    let expr = parse_expr("50d6").unwrap();
    assert_eq!(exact_query_hits(&expr, ProbabilityQuery::AtLeast(100)), None);
    let fits = parse_expr("49d6").unwrap();
    assert!(exact_query_hits(&fits, ProbabilityQuery::AtLeast(100)).is_some());
}

#[test]
fn render_distribution_contains_all_values() {
    let expr = parse_expr("d6").unwrap();
    let mut counts = BTreeMap::new();
    for v in 1..=6 {
        counts.insert(v, 1000);
    }
    let output = render_distribution(&expr, &counts, 6000);
    assert!(output.starts_with("Distribution for"));
    for v in 1..=6 {
        assert!(output.contains(&format!("{v} |")));
    }
}

#[test]
fn render_distribution_percentages() {
    let expr = parse_expr("d6").unwrap();
    let mut counts = BTreeMap::new();
    counts.insert(1, 500);
    counts.insert(2, 500);
    let output = render_distribution(&expr, &counts, 1000);
    assert!(output.contains("50.0%"));
}

#[test]
fn rolled_values_have_positive_exact_count() {
    let mut rng = StdRng::seed_from_u64(11);
    let expr = parse_expr("2d4+1d6-1").unwrap();
    for _ in 0..500 {
        let v = roll::roll_value(&expr, &mut rng);
        let (hits, total) = exact_query_hits(&expr, ProbabilityQuery::Equal(v)).unwrap();
        assert!(hits >= 1);
        assert_eq!(total, 96);
    }
}

#[test]
fn exact_at_least_is_non_increasing_and_zero_above_max() {
    let expr = parse_expr("2d6+1").unwrap();
    let mut last = u128::MAX;
    for x in -5..20 {
        let (hits, _) = exact_query_hits(&expr, ProbabilityQuery::AtLeast(x)).unwrap();
        assert!(hits <= last);
        last = hits;
        if x > 13 {
            assert_eq!(hits, 0);
        }
    }
}

#[test]
fn pick_follows_the_modifier() {
    assert_eq!(roll::pick(roll::Modifier::Advantage, 3, 9), 9);
    assert_eq!(roll::pick(roll::Modifier::Disadvantage, 3, 9), 3);
    assert_eq!(roll::pick(roll::Modifier::Normal, 3, 9), 3);
}
