use rand::rngs::StdRng;
use rand::SeedableRng;
use roll::{
    compute_distribution, count_at_least, format_rolls, parse_expr, roll_once, roll_stats,
    roll_value, roll_verbose, Keep, Modifier, ParseError,
};

fn seeded_rng() -> StdRng {
    StdRng::seed_from_u64(42)
}

// ---- parse_expr tests ----

#[test]
fn parse_simple_dice() {
    let expr = parse_expr("2d10").unwrap();
    assert_eq!(expr.modifier, Modifier::Normal);
    assert_eq!(expr.groups.len(), 1);
    assert_eq!(expr.groups[0].count, 2);
    assert_eq!(expr.groups[0].sides, 10);
    assert_eq!(expr.flat_bonus, 0);
    assert_eq!(expr.groups[0].keep, Keep::All);
}

#[test]
fn parse_single_die_shorthand() {
    let expr = parse_expr("d20").unwrap();
    assert_eq!(expr.groups[0].count, 1);
    assert_eq!(expr.groups[0].sides, 20);
}

#[test]
fn parse_with_positive_bonus() {
    let expr = parse_expr("2d10+4").unwrap();
    assert_eq!(expr.flat_bonus, 4);
}

#[test]
fn parse_with_negative_bonus() {
    let expr = parse_expr("d20-3").unwrap();
    assert_eq!(expr.flat_bonus, -3);
}

#[test]
fn parse_advantage() {
    let expr = parse_expr("adv d20+5").unwrap();
    assert_eq!(expr.modifier, Modifier::Advantage);
    assert_eq!(expr.groups[0].count, 1);
    assert_eq!(expr.groups[0].sides, 20);
    assert_eq!(expr.flat_bonus, 5);
}

#[test]
fn parse_disadvantage() {
    let expr = parse_expr("dis d20-1").unwrap();
    assert_eq!(expr.modifier, Modifier::Disadvantage);
    assert_eq!(expr.flat_bonus, -1);
}

#[test]
fn parse_multiple_groups() {
    let expr = parse_expr("2d6+1d4+3").unwrap();
    assert_eq!(expr.groups.len(), 2);
    assert_eq!(expr.groups[0].count, 2);
    assert_eq!(expr.groups[0].sides, 6);
    assert_eq!(expr.groups[1].count, 1);
    assert_eq!(expr.groups[1].sides, 4);
    assert_eq!(expr.flat_bonus, 3);
}

#[test]
fn parse_case_insensitive() {
    let expr = parse_expr("ADV D20+5").unwrap();
    assert_eq!(expr.modifier, Modifier::Advantage);
}

#[test]
fn parse_with_whitespace() {
    let expr = parse_expr("  2d10 + 4  ").unwrap();
    assert_eq!(expr.groups[0].count, 2);
    assert_eq!(expr.flat_bonus, 4);
}

#[test]
fn parse_no_dice_error() {
    assert!(parse_expr("42").is_err());
}

#[test]
fn parse_negative_dice_group_error() {
    assert!(parse_expr("d20-2d6").is_err());
}

#[test]
fn parse_invalid_sides_error() {
    assert!(parse_expr("2dx").is_err());
}

#[test]
fn parse_empty_error() {
    assert!(parse_expr("").is_err());
}

#[test]
fn parse_zero_sides_error() {
    assert_eq!(
        parse_expr("2d0"),
        Err(ParseError::InvalidSides(
            "sides must be at least 1".to_string()
        ))
    );
}

#[test]
fn parse_zero_count_error() {
    assert_eq!(
        parse_expr("0d6"),
        Err(ParseError::InvalidDiceCount(
            "count must be at least 1".to_string()
        ))
    );
}

#[test]
fn parse_keep_highest() {
    let expr = parse_expr("4d6kh3").unwrap();
    assert_eq!(expr.groups[0].count, 4);
    assert_eq!(expr.groups[0].sides, 6);
    assert_eq!(expr.groups[0].keep, Keep::Highest(3));
}

#[test]
fn parse_keep_lowest() {
    let expr = parse_expr("4d6kl1").unwrap();
    assert_eq!(expr.groups[0].keep, Keep::Lowest(1));
}

#[test]
fn parse_keep_with_bonus() {
    let expr = parse_expr("4d6kh3+2").unwrap();
    assert_eq!(expr.groups[0].keep, Keep::Highest(3));
    assert_eq!(expr.flat_bonus, 2);
}

// ---- Display tests ----

#[test]
fn display_simple() {
    let expr = parse_expr("2d10+4").unwrap();
    assert_eq!(expr.to_string(), "2d10+4");
}

#[test]
fn display_advantage() {
    let expr = parse_expr("adv d20+5").unwrap();
    assert_eq!(expr.to_string(), "adv 1d20+5");
}

#[test]
fn display_negative_bonus() {
    let expr = parse_expr("d20-3").unwrap();
    assert_eq!(expr.to_string(), "1d20-3");
}

#[test]
fn display_no_bonus() {
    let expr = parse_expr("d20").unwrap();
    assert_eq!(expr.to_string(), "1d20");
}

#[test]
fn display_keep_highest() {
    let expr = parse_expr("4d6kh3").unwrap();
    assert_eq!(expr.to_string(), "4d6kh3");
}

// ---- Rolling tests ----

#[test]
fn roll_once_within_bounds() {
    let expr = parse_expr("2d6").unwrap();
    let mut rng = seeded_rng();
    for _ in 0..100 {
        let (total, rolls) = roll_once(&expr, &mut rng);
        assert!(total >= 2 && total <= 12);
        assert_eq!(rolls.len(), 1);
        assert_eq!(rolls[0].len(), 2);
        for &r in &rolls[0] {
            assert!(r >= 1 && r <= 6);
        }
    }
}

#[test]
fn roll_once_applies_flat_bonus() {
    let expr = parse_expr("1d6+10").unwrap();
    let mut rng = seeded_rng();
    for _ in 0..100 {
        let (total, _) = roll_once(&expr, &mut rng);
        assert!(total >= 11 && total <= 16);
    }
}

#[test]
fn roll_once_keep_highest() {
    let expr = parse_expr("4d6kh3").unwrap();
    let mut rng = seeded_rng();
    for _ in 0..100 {
        let (total, rolls) = roll_once(&expr, &mut rng);
        // Only 3 dice kept
        assert_eq!(rolls[0].len(), 3);
        // Kept dice are sorted descending
        assert!(rolls[0].windows(2).all(|w| w[0] >= w[1]));
        // Total equals sum of kept dice
        let sum: i64 = rolls[0].iter().map(|&r| i64::from(r)).sum();
        assert_eq!(total, sum);
        // Each die is within range
        assert!(total >= 3 && total <= 18);
    }
}

#[test]
fn roll_once_keep_lowest() {
    let expr = parse_expr("4d6kl1").unwrap();
    let mut rng = seeded_rng();
    for _ in 0..100 {
        let (total, rolls) = roll_once(&expr, &mut rng);
        assert_eq!(rolls[0].len(), 1);
        assert!(total >= 1 && total <= 6);
    }
}

#[test]
fn roll_value_deterministic_with_seed() {
    let expr = parse_expr("d20").unwrap();
    let mut rng1 = seeded_rng();
    let mut rng2 = seeded_rng();
    let a = roll_value(&expr, &mut rng1);
    let b = roll_value(&expr, &mut rng2);
    assert_eq!(a, b);
}

#[test]
fn roll_value_advantage_takes_higher() {
    let expr = parse_expr("adv d20").unwrap();
    let mut rng = seeded_rng();
    for _ in 0..100 {
        let adv = roll_value(&expr, &mut rng);
        assert!(adv >= 1 && adv <= 20);
    }
}

#[test]
fn roll_value_disadvantage_takes_lower() {
    let expr = parse_expr("dis d20").unwrap();
    let mut rng = seeded_rng();
    for _ in 0..100 {
        let dis = roll_value(&expr, &mut rng);
        assert!(dis >= 1 && dis <= 20);
    }
}

#[test]
fn advantage_greater_equal_disadvantage() {
    let adv_expr = parse_expr("adv d20").unwrap();
    let dis_expr = parse_expr("dis d20").unwrap();
    let mut rng = seeded_rng();
    let mut adv_total: i64 = 0;
    let mut dis_total: i64 = 0;
    let n = 10_000;
    for _ in 0..n {
        adv_total += roll_value(&adv_expr, &mut rng);
        dis_total += roll_value(&dis_expr, &mut rng);
    }
    assert!(adv_total > dis_total);
}

// ---- roll_verbose tests ----

#[test]
fn roll_verbose_includes_rolls() {
    let expr = parse_expr("2d6").unwrap();
    let mut rng = seeded_rng();
    let (_, detail) = roll_verbose(&expr, &mut rng);
    assert!(detail.starts_with('['));
    assert!(detail.contains(']'));
}

#[test]
fn roll_verbose_advantage_shows_vs() {
    let expr = parse_expr("adv d20").unwrap();
    let mut rng = seeded_rng();
    let (_, detail) = roll_verbose(&expr, &mut rng);
    assert!(detail.contains("vs"));
}

// ---- format_rolls tests ----

#[test]
fn format_rolls_single_group() {
    assert_eq!(format_rolls(&[vec![3, 5]]), "[3, 5]");
}

#[test]
fn format_rolls_multiple_groups() {
    assert_eq!(format_rolls(&[vec![3, 5], vec![2]]), "[3, 5] + [2]");
}

// ---- roll_stats tests ----

#[test]
fn roll_stats_d6() {
    let expr = parse_expr("d6").unwrap();
    let stats = roll_stats(&expr);
    assert_eq!(stats.min, 1);
    assert_eq!(stats.max, 6);
    assert!((stats.double_mean as f64 / 2.0 - 3.5).abs() < f64::EPSILON);
}

#[test]
fn roll_stats_with_bonus() {
    let expr = parse_expr("2d6+5").unwrap();
    let stats = roll_stats(&expr);
    assert_eq!(stats.min, 7);
    assert_eq!(stats.max, 17);
    assert!((stats.double_mean as f64 / 2.0 - 12.0).abs() < f64::EPSILON);
}

#[test]
fn roll_stats_keep_highest() {
    // 4d6kh3: keep 3 dice
    let expr = parse_expr("4d6kh3").unwrap();
    let stats = roll_stats(&expr);
    assert_eq!(stats.min, 3);
    assert_eq!(stats.max, 18);
}

// ---- compute_distribution tests ----

#[test]
fn distribution_d6_has_all_values() {
    let expr = parse_expr("d6").unwrap();
    let mut rng = seeded_rng();
    let counts = compute_distribution(&expr, 100_000, &mut rng);
    for v in 1..=6 {
        assert!(counts.contains_key(&v), "missing value {v}");
    }
    assert!(!counts.contains_key(&0));
    assert!(!counts.contains_key(&7));
}

#[test]
fn distribution_counts_sum_to_sims() {
    let expr = parse_expr("2d6+3").unwrap();
    let mut rng = seeded_rng();
    let sims = 50_000;
    let counts = compute_distribution(&expr, sims, &mut rng);
    let total: u64 = counts.values().sum();
    assert_eq!(total, sims);
}

// ---- ParseError display tests ----

#[test]
fn parse_error_display_no_dice() {
    assert_eq!(
        ParseError::NoDiceFound.to_string(),
        "no dice found in expression"
    );
}

#[test]
fn parse_error_display_negative_group() {
    assert_eq!(
        ParseError::NegativeDiceGroup.to_string(),
        "negative dice groups are not supported"
    );
}

#[test]
fn parse_error_display_invalid_token() {
    assert_eq!(
        ParseError::InvalidToken("foo".to_string()).to_string(),
        "invalid token: 'foo'"
    );
}

#[test]
fn parse_error_display_invalid_sides() {
    assert_eq!(
        ParseError::InvalidSides("sides must be at least 1".to_string()).to_string(),
        "invalid sides: 'sides must be at least 1'"
    );
}

#[test]
fn parse_error_display_invalid_count() {
    assert_eq!(
        ParseError::InvalidDiceCount("count must be at least 1".to_string()).to_string(),
        "invalid dice count: 'count must be at least 1'"
    );
}

// ---- roll_verbose with keep tests ----

#[test]
fn roll_verbose_keep_shows_kept_count() {
    // 4d6kh3 keeps 3 dice; the detail should contain exactly 3 numbers in brackets
    let expr = parse_expr("4d6kh3").unwrap();
    let mut rng = seeded_rng();
    for _ in 0..20 {
        let (_, detail) = roll_verbose(&expr, &mut rng);
        // Detail looks like "[a, b, c]"; split on ',' to count dice
        let inner = detail.trim_start_matches('[').trim_end_matches(']');
        assert_eq!(
            inner.split(',').count(),
            3,
            "expected 3 kept dice, got: {detail}"
        );
    }
}

// ---- estimate_probability tests (hit counts over the simulations) ----

#[test]
fn probability_d6_at_least_1_is_100_percent() {
    let expr = parse_expr("d6").unwrap();
    let mut rng = seeded_rng();
    let p = count_at_least(&expr, 1, 10_000, &mut rng) as f64 / 10_000f64;
    assert!((p - 1.0).abs() < f64::EPSILON);
}

#[test]
fn probability_d6_at_least_7_is_0_percent() {
    let expr = parse_expr("d6").unwrap();
    let mut rng = seeded_rng();
    let p = count_at_least(&expr, 7, 10_000, &mut rng) as f64 / 10_000f64;
    assert!(p.abs() < f64::EPSILON);
}

#[test]
fn probability_d6_at_least_4_roughly_50_percent() {
    let expr = parse_expr("d6").unwrap();
    let mut rng = seeded_rng();
    let p = count_at_least(&expr, 4, 100_000, &mut rng) as f64 / 100_000f64;
    assert!((p - 0.5).abs() < 0.02);
}
