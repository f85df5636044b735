use rand::rngs::StdRng;
use rand::SeedableRng;
use roll::{
    apply_keep, compute_distribution, count_query_hits, distribution_header, distribution_layout,
    format_bounds, format_sims, is_natural_max, is_natural_min, next_sims_down, next_sims_up,
    parse_expr, parse_kept_from_breakdown, parse_normalized, parse_probability_range,
    query_description, resolve_preset, right_aligned, roll_once, roll_stats, roll_value,
    supports_exact_probability, try_parse_expr, DiceExpr, DiceGroup, Keep, Modifier, ParseError,
    PresetEntry, ProbabilityQuery,
};
use std::collections::BTreeMap;

fn rng() -> StdRng {
    StdRng::seed_from_u64(7)
}

// ---- parsing edge cases ----

#[test]
fn parse_error_variants_each_reachable() {
    assert_eq!(parse_expr("2dx"), Err(ParseError::InvalidSides("x".to_string())));
    assert_eq!(parse_expr("xd6"), Err(ParseError::InvalidDiceCount("x".to_string())));
    assert_eq!(parse_expr("d20-2d6"), Err(ParseError::NegativeDiceGroup));
    assert_eq!(parse_expr("42"), Err(ParseError::NoDiceFound));
    assert_eq!(parse_expr("   "), Err(ParseError::NoDiceFound));
    assert_eq!(parse_expr("d20+2x6"), Err(ParseError::InvalidToken("2x6".to_string())));
    assert_eq!(parse_expr("4d6kh"), Err(ParseError::InvalidSides(String::new())));
    assert_eq!(parse_expr("4d6klmany"), Err(ParseError::InvalidSides("many".to_string())));
    assert_eq!(parse_expr("adv"), Err(ParseError::NoDiceFound));
    assert_eq!(parse_expr("2d"), Err(ParseError::InvalidSides(String::new())));
}

#[test]
fn parse_keep_suffix_is_split_off_first() {
    // `kh2` is split off first; `d` is left, a die of no sides.
    assert_eq!(parse_expr("dkh2"), Err(ParseError::InvalidSides(String::new())));
    assert_eq!(parse_expr("kh2d"), Err(ParseError::InvalidSides("2d".to_string())));
}

#[test]
fn parse_flat_terms_anywhere() {
    let e = parse_expr("3+d6-1+2").unwrap();
    assert_eq!(e.flat_bonus, 4);
    assert_eq!(e.groups.len(), 1);
}

#[test]
fn parse_unicode_whitespace_is_trimmed() {
    let e = parse_expr("\u{a0}2d6\u{3000}").unwrap();
    assert_eq!(e.groups[0].count, 2);
}

#[test]
fn parse_normalized_takes_lowercase_input() {
    let e = parse_normalized("dis 3d8kl2-4").unwrap();
    assert_eq!(e.modifier, Modifier::Disadvantage);
    assert_eq!(e.groups[0], DiceGroup { count: 3, sides: 8, keep: Keep::Lowest(2) });
    assert_eq!(e.flat_bonus, -4);
}

#[test]
fn try_parse_reports_bonus_overflow() {
    assert_eq!(try_parse_expr("d6+9223372036854775807+1"), None);
    assert_eq!(
        try_parse_expr("d6+9223372036854775807"),
        Some(Ok(DiceExpr {
            modifier: Modifier::Normal,
            groups: vec![DiceGroup { count: 1, sides: 6, keep: Keep::All }],
            flat_bonus: i64::MAX,
        }))
    );
    assert_eq!(try_parse_expr("0d6"), Some(parse_expr("0d6")));
}

#[test]
fn keep_zero_and_keep_more_than_rolled() {
    let e = parse_expr("2d6kh0").unwrap();
    assert_eq!(e.groups[0].keep, Keep::Highest(0));
    let e = parse_expr("2d6kl5").unwrap();
    assert_eq!(e.groups[0].keep, Keep::Lowest(5));
}

// ---- text round trip (the law, on concrete values) ----

#[test]
fn display_round_trips_through_parse() {
    for text in ["adv 1d20+5", "dis 2d6kl1+1d4-3", "4d6kh3", "10d10+1d100", "1d6-9223372036854775807"] {
        let e = parse_normalized(text).unwrap();
        assert_eq!(e.to_string(), text);
        assert_eq!(parse_normalized(&e.to_string()).unwrap(), e);
    }
}

// ---- keep rules ----

#[test]
fn apply_keep_exact_values() {
    let faces = vec![2, 6, 3, 6, 1];
    assert_eq!(apply_keep(&faces, Keep::All), vec![2, 6, 3, 6, 1]);
    assert_eq!(apply_keep(&faces, Keep::Highest(3)), vec![6, 6, 3]);
    assert_eq!(apply_keep(&faces, Keep::Lowest(2)), vec![1, 2]);
    assert_eq!(apply_keep(&faces, Keep::Highest(9)), vec![6, 6, 3, 2, 1]);
    assert_eq!(apply_keep(&faces, Keep::Lowest(0)), Vec::<u32>::new());
}

// ---- rolls within the statistics (the law, on concrete values) ----

#[test]
fn rolls_stay_within_stats() {
    let mut r = rng();
    for text in ["3d8kh2+4", "adv 2d6-1", "dis 1d20+1d4"] {
        let e = parse_expr(text).unwrap();
        let s = roll_stats(&e);
        for _ in 0..200 {
            let v = roll_value(&e, &mut r);
            assert!(s.min <= v && v <= s.max);
        }
    }
}

#[test]
fn roll_once_kept_sorted_ascending_for_keep_lowest() {
    let e = parse_expr("6d6kl4").unwrap();
    let mut r = rng();
    for _ in 0..50 {
        let (total, kept) = roll_once(&e, &mut r);
        assert_eq!(kept[0].len(), 4);
        assert!(kept[0].windows(2).all(|w| w[0] <= w[1]));
        assert_eq!(total, kept[0].iter().map(|&d| i64::from(d)).sum::<i64>());
    }
}

#[test]
fn roll_stats_keep_beyond_count_keeps_every_die() {
    let e = parse_expr("2d6kh5+1").unwrap();
    let s = roll_stats(&e);
    assert_eq!(s.min, 3);
    assert_eq!(s.max, 13);
    assert_eq!(s.double_mean, 2 + 14);
    let e = parse_expr("2d6kh5").unwrap();
    let s = roll_stats(&e);
    assert_eq!((s.min, s.max, s.double_mean), (2, 12, 14));
}

// ---- distribution ----

#[test]
fn distribution_counts_are_possible_values() {
    let e = parse_expr("adv 1d4+2").unwrap();
    let counts = compute_distribution(&e, 5_000, &mut rng());
    assert_eq!(counts.values().sum::<u64>(), 5_000);
    assert!(counts.keys().all(|k| (3..=6).contains(k)));
}

#[test]
fn query_hits_count_only_matching_values() {
    let e = parse_expr("1d6").unwrap();
    assert_eq!(count_query_hits(&e, ProbabilityQuery::InclusiveRange(1, 6), 1_000, &mut rng()), 1_000);
    assert_eq!(count_query_hits(&e, ProbabilityQuery::Equal(7), 1_000, &mut rng()), 0);
    assert_eq!(count_query_hits(&e, ProbabilityQuery::AtMost(0), 1_000, &mut rng()), 0);
    assert!(ProbabilityQuery::AtLeast(3).contains(3));
    assert!(!ProbabilityQuery::AtMost(3).contains(4));
}

#[test]
fn exact_probability_support() {
    assert!(supports_exact_probability(&parse_expr("2d6+1d4+3").unwrap()));
    assert!(!supports_exact_probability(&parse_expr("adv d20").unwrap()));
    assert!(!supports_exact_probability(&parse_expr("4d6kh3").unwrap()));
}

#[test]
fn distribution_layout_fills_gaps() {
    let mut counts = BTreeMap::new();
    counts.insert(-2i64, 5u64);
    counts.insert(1, 9);
    let layout = distribution_layout(&counts).unwrap();
    assert_eq!(layout.rows, vec![(-2, 5), (-1, 0), (0, 0), (1, 9)]);
    assert_eq!(layout.label_width, 2);
    assert_eq!(layout.max_count, 9);
    assert!(distribution_layout(&BTreeMap::new()).is_none());
}

#[test]
fn distribution_header_and_labels() {
    let e = parse_expr("2d6").unwrap();
    assert_eq!(distribution_header(&e, 1000), "Distribution for 2d6 (1000 simulations):\n");
    assert_eq!(right_aligned(7, 3), "  7");
    assert_eq!(right_aligned(-12, 2), "-12");
}

// ---- command line ----

#[test]
fn probability_range_parsing() {
    assert_eq!(parse_probability_range("3..7"), Ok((3, 7)));
    assert_eq!(parse_probability_range("-2..2"), Ok((-2, 2)));
    assert_eq!(parse_probability_range("5"), Err("range must use MIN..MAX syntax".to_string()));
    assert_eq!(parse_probability_range("a..2"), Err("invalid range minimum: 'a'".to_string()));
    assert_eq!(parse_probability_range("1..b"), Err("invalid range maximum: 'b'".to_string()));
    assert_eq!(parse_probability_range("1...2"), Err("invalid range maximum: '.2'".to_string()));
    assert_eq!(
        parse_probability_range("9..2"),
        Err("range minimum must not exceed maximum".to_string())
    );
}

#[test]
fn query_text() {
    assert_eq!(query_description(ProbabilityQuery::AtLeast(15)), (">=", vec![15]));
    assert_eq!(query_description(ProbabilityQuery::InclusiveRange(3, 7)), ("in", vec![3, 7]));
    assert_eq!(format_bounds(&[15]), "15");
    assert_eq!(format_bounds(&[-3, 7]), "-3..7");
    assert_eq!(format_bounds(&[]), "");
}

// ---- interface helpers ----

#[test]
fn sims_steps() {
    assert_eq!(next_sims_up(1_000), 10_000);
    assert_eq!(next_sims_up(100_000), 500_000);
    assert_eq!(next_sims_up(10_000_000), 10_000_000);
    assert_eq!(next_sims_down(100_000), 50_000);
    assert_eq!(next_sims_down(10_000), 10_000);
    assert_eq!(next_sims_down(20_000_000), 10_000_000);
    assert_eq!(format_sims(5_000_000), "5M");
    assert_eq!(format_sims(50_000), "50K");
    assert_eq!(format_sims(999), "999");
}

#[test]
fn natural_max_and_min() {
    assert!(is_natural_max(&[vec![20]], &[20]));
    assert!(!is_natural_max(&[vec![20, 19]], &[20]));
    assert!(!is_natural_max(&[], &[]));
    assert!(!is_natural_max(&[vec![]], &[6]));
    assert!(is_natural_min(&[vec![1, 1], vec![1]]));
    assert!(!is_natural_min(&[vec![1, 2]]));
    assert!(!is_natural_min(&[]));
}

#[test]
fn kept_dice_read_back_from_breakdown() {
    let e = parse_expr("2d6+1d4").unwrap();
    let (kept, sides) = parse_kept_from_breakdown("[3, 5] + [2]", &e);
    assert_eq!(kept, vec![vec![3, 5], vec![2]]);
    assert_eq!(sides, vec![6, 4]);
    let (kept, _) = parse_kept_from_breakdown("[17] vs [12]", &e);
    assert_eq!(kept, vec![vec![17]]);
}

#[test]
fn preset_resolution_ignores_case() {
    let presets = vec![
        PresetEntry { name: "Attack".to_string(), expression: "adv d20+7".to_string() },
        PresetEntry { name: "attack".to_string(), expression: "d20".to_string() },
    ];
    assert_eq!(resolve_preset(&presets, "ATTACK"), "adv d20+7");
    assert_eq!(resolve_preset(&presets, "2d6"), "2d6");
}
