use roll::{
    bar_width, flash_of, help_popup, mean_text, parse_expr, roll_line, roll_stats, stats_line,
    total_label, Flash,
};

#[test]
fn roll_line_with_and_without_bonus() {
    let e = parse_expr("2d6+3").unwrap();
    assert_eq!(roll_line(None, &e, "[4, 2]", 9), "2d6+3 => [4, 2] (+3) = 9");
    let e = parse_expr("d20-3").unwrap();
    assert_eq!(roll_line(None, &e, "[1]", -2), "1d20-3 => [1] (-3) = -2");
    let e = parse_expr("adv d20").unwrap();
    assert_eq!(roll_line(None, &e, "[17 vs 12]", 17), "adv 1d20 => [17 vs 12] = 17");
}

#[test]
fn total_labels() {
    assert_eq!(total_label(20, true, false), "20 NAT MAX!");
    assert_eq!(total_label(1, false, true), "1 NAT MIN");
    assert_eq!(total_label(-4, false, false), "-4");
    assert_eq!(total_label(6, true, true), "6 NAT MAX!");
}

#[test]
fn help_popup_is_centred_and_bounded() {
    assert_eq!(help_popup(80, 40), (13, 7, 54, 26));
    assert_eq!(help_popup(30, 20), (2, 2, 26, 16));
    assert_eq!(help_popup(3, 2), (1, 1, 0, 0));
}

#[test]
fn bar_width_is_between_one_and_five() {
    assert_eq!(bar_width(102, 10), 5);
    assert_eq!(bar_width(32, 10), 3);
    assert_eq!(bar_width(12, 20), 1);
    assert_eq!(bar_width(1, 0), 1);
}

#[test]
fn flash_fades_with_age() {
    assert_eq!(flash_of(0), Flash::Fresh);
    assert_eq!(flash_of(149), Flash::Fresh);
    assert_eq!(flash_of(150), Flash::Fading);
    assert_eq!(flash_of(349), Flash::Fading);
    assert_eq!(flash_of(350), Flash::Settled);
}

#[test]
fn numbered_roll_line() {
    let e = parse_expr("2d6+3").unwrap();
    assert_eq!(roll_line(Some(2), &e, "[4, 2]", 9), "#2: 2d6+3 => [4, 2] (+3) = 9");
}

#[test]
fn mean_text_has_two_decimals() {
    assert_eq!(mean_text(20), "10.00");
    assert_eq!(mean_text(7), "3.50");
    assert_eq!(mean_text(-1), "-0.50");
    assert_eq!(mean_text(-6), "-3.00");
    assert_eq!(mean_text(0), "0.00");
}

#[test]
fn stats_line_of_2d6_plus_3() {
    let e = parse_expr("2d6+3").unwrap();
    assert_eq!(stats_line(roll_stats(&e)), "  [min=5, max=15, mean=10.00]");
}

#[test]
fn printed_breakdown_reads_back() {
    let rolls: Vec<Vec<u32>> = vec![vec![6, 5, 3], vec![], vec![12]];
    let text = roll::format_rolls(&rolls);
    assert_eq!(text, "[6, 5, 3] + [] + [12]");
    let e = parse_expr("3d6+1d4+1d12").unwrap();
    let (kept, sides) = roll::parse_kept_from_breakdown(&text, &e);
    assert_eq!(kept, rolls);
    assert_eq!(sides, vec![6, 4, 12]);
}

#[test]
fn advantage_breakdown_reads_back_first_roll() {
    let e = parse_expr("adv d20").unwrap();
    let (kept, _) = roll::parse_kept_from_breakdown("[17] vs [12]", &e);
    assert_eq!(kept, vec![vec![17]]);
}

#[test]
fn parse_ignores_letter_case() {
    assert_eq!(parse_expr("ADV 4D6KH3+2"), parse_expr("adv 4d6kh3+2"));
}
