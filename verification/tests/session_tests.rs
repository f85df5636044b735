use rand::rngs::StdRng;
use rand::SeedableRng;
use roll::session::{AppState, Key, KeyAction, MAX_HISTORY};
use roll::{next_target, parse_expr, push_capped, DistOpened, PresetEntry, Screen, Submitted};

fn preset(name: &str, expression: &str) -> PresetEntry {
    PresetEntry { name: name.to_string(), expression: expression.to_string() }
}

fn press(app: &mut AppState, key: Key) -> KeyAction {
    app.handle_key(key, false, true, 0)
}

fn type_text(app: &mut AppState, text: &str) {
    for c in text.chars() {
        press(app, Key::Char(c));
    }
}

#[test]
fn new_state_holds_initial_expression() {
    let app = AppState::new(Some("2d6"), 1000);
    assert_eq!(app.input, "2d6");
    assert_eq!(app.cursor, 3);
    assert_eq!(app.screen, Screen::Roller);
    assert_eq!(app.sims, 1000);
    let empty = AppState::new(None, 5);
    assert_eq!(empty.input, "");
    assert_eq!(empty.cursor, 0);
}

#[test]
fn cursor_pos_counts_bytes() {
    let mut app = AppState::new(Some("é1"), 10);
    assert_eq!(app.cursor_pos(), 3);
    press(&mut app, Key::Left);
    assert_eq!(app.cursor_pos(), 2);
    press(&mut app, Key::Left);
    assert_eq!(app.cursor_pos(), 0);
}

#[test]
fn typing_and_editing_keys() {
    let mut app = AppState::new(None, 10);
    type_text(&mut app, "1d20");
    assert_eq!(app.input, "1d20");
    press(&mut app, Key::Home);
    press(&mut app, Key::Char('2'));
    assert_eq!(app.input, "21d20");
    assert_eq!(app.cursor, 1);
    press(&mut app, Key::Delete);
    assert_eq!(app.input, "2d20");
    press(&mut app, Key::Backspace);
    assert_eq!(app.input, "d20");
    assert_eq!(app.cursor, 0);
    press(&mut app, Key::Backspace);
    assert_eq!(app.input, "d20");
    press(&mut app, Key::End);
    assert_eq!(app.cursor, 3);
    press(&mut app, Key::Right);
    assert_eq!(app.cursor, 3);
    app.handle_key(Key::Char('a'), true, true, 0);
    assert_eq!(app.cursor, 0);
    app.handle_key(Key::Char('e'), true, true, 0);
    assert_eq!(app.cursor, 3);
    app.handle_key(Key::Char('u'), true, true, 0);
    assert_eq!(app.input, "");
    assert_eq!(app.cursor, 0);
}

#[test]
fn type_then_backspace_restores_input() {
    let mut app = AppState::new(Some("4d6kh3"), 10);
    press(&mut app, Key::Left);
    press(&mut app, Key::Left);
    let before = app.input.clone();
    let cursor = app.cursor;
    press(&mut app, Key::Char('x'));
    press(&mut app, Key::Backspace);
    assert_eq!(app.input, before);
    assert_eq!(app.cursor, cursor);
}

#[test]
fn released_keys_do_nothing() {
    let mut app = AppState::new(Some("1d6"), 10);
    let action = app.handle_key(Key::Char('x'), false, false, 0);
    assert_eq!(action, KeyAction::Nothing);
    assert_eq!(app.input, "1d6");
}

#[test]
fn ctrl_c_quits_on_every_screen() {
    for screen in [Screen::Roller, Screen::Distribution, Screen::Presets, Screen::Help] {
        let mut app = AppState::new(None, 10);
        app.screen = screen;
        app.handle_key(Key::Char('c'), true, true, 0);
        assert!(app.should_quit);
    }
}

#[test]
fn escape_clears_error_before_quitting() {
    let mut app = AppState::new(None, 10);
    app.error_msg = Some("bad".to_string());
    press(&mut app, Key::Esc);
    assert_eq!(app.error_msg, None);
    assert!(!app.should_quit);
    press(&mut app, Key::Esc);
    assert!(app.should_quit);
}

#[test]
fn roller_keys_ask_for_outside_work() {
    let mut app = AppState::new(Some("1d6"), 10);
    assert_eq!(press(&mut app, Key::Enter), KeyAction::Submit);
    assert_eq!(press(&mut app, Key::F(3)), KeyAction::OpenDistribution);
    assert_eq!(press(&mut app, Key::F(2)), KeyAction::OpenPresets);
    assert_eq!(app.input, "1d6");
    assert_eq!(app.screen, Screen::Roller);
}

#[test]
fn input_history_navigation() {
    let mut app = AppState::new(None, 10);
    app.record_submission("1d4".to_string());
    app.record_submission("2d6".to_string());
    app.record_submission("2d6".to_string());
    assert_eq!(app.input_history, vec!["1d4".to_string(), "2d6".to_string()]);
    press(&mut app, Key::Up);
    assert_eq!(app.input, "2d6");
    press(&mut app, Key::Up);
    assert_eq!(app.input, "1d4");
    assert_eq!(app.cursor, 3);
    press(&mut app, Key::Up);
    assert_eq!(app.input, "1d4");
    press(&mut app, Key::Down);
    assert_eq!(app.input, "2d6");
    press(&mut app, Key::Down);
    assert_eq!(app.input, "");
    assert_eq!(app.input_history_idx, None);
}

#[test]
fn submission_trims_and_resolves_presets() {
    let mut app = AppState::new(Some("  Fireball "), 10);
    app.presets = vec![preset("fireball", "8d6")];
    assert_eq!(app.submission(), Some(("Fireball".to_string(), "8d6".to_string())));
    let blank = AppState::new(Some("   "), 10);
    assert_eq!(blank.submission(), None);
}

#[test]
fn distribution_source_prefers_input_then_last_roll() {
    let app = AppState::new(Some("2d8"), 10);
    assert_eq!(app.distribution_source(None), Ok("2d8".to_string()));
    let blank = AppState::new(None, 10);
    assert_eq!(blank.distribution_source(Some("1d12".to_string())), Ok("1d12".to_string()));
    assert_eq!(blank.distribution_source(None), Err("Type an expression first".to_string()));
}

#[test]
fn distribution_screen_keys() {
    let mut app = AppState::new(None, 10);
    app.open_screen(Screen::Distribution);
    assert_eq!(press(&mut app, Key::Left), KeyAction::MoveTarget(-1));
    assert_eq!(press(&mut app, Key::Right), KeyAction::MoveTarget(1));
    assert_eq!(press(&mut app, Key::Char('+')), KeyAction::SimsUp);
    assert_eq!(press(&mut app, Key::Char('_')), KeyAction::SimsDown);
    assert_eq!(press(&mut app, Key::Char('q')), KeyAction::Nothing);
    assert_eq!(app.screen, Screen::Roller);
}

#[test]
fn help_toggles_over_current_screen() {
    let mut app = AppState::new(None, 10);
    press(&mut app, Key::F(1));
    assert_eq!(app.screen, Screen::Help);
    assert_eq!(app.prev_screen, Screen::Roller);
    press(&mut app, Key::Char('x'));
    assert_eq!(app.screen, Screen::Help);
    press(&mut app, Key::F(1));
    assert_eq!(app.screen, Screen::Roller);
}

#[test]
fn presets_screen_selection_and_delete() {
    let mut app = AppState::new(None, 10);
    app.open_presets(vec![preset("a", "1d4"), preset("b", "1d6")]);
    assert_eq!(app.screen, Screen::Presets);
    press(&mut app, Key::Down);
    assert_eq!(app.preset_selected, 1);
    press(&mut app, Key::Char('j'));
    assert_eq!(app.preset_selected, 1);
    assert_eq!(press(&mut app, Key::Char('d')), KeyAction::Nothing);
    assert!(app.preset_confirm_delete);
    assert_eq!(press(&mut app, Key::Char('d')), KeyAction::DeletePreset("b".to_string()));
    assert!(!app.preset_confirm_delete);
    app.presets_reloaded(vec![preset("a", "1d4")]);
    assert_eq!(app.preset_selected, 0);
    press(&mut app, Key::Char('d'));
    press(&mut app, Key::Char('x'));
    assert!(!app.preset_confirm_delete);
    assert_eq!(press(&mut app, Key::Enter), KeyAction::Submit);
    assert_eq!(app.screen, Screen::Roller);
    assert_eq!(app.input, "1d4");
}

#[test]
fn presets_screen_escape_goes_back() {
    let mut app = AppState::new(None, 10);
    app.open_presets(Vec::new());
    app.preset_confirm_delete = true;
    assert_eq!(press(&mut app, Key::Enter), KeyAction::Nothing);
    press(&mut app, Key::Esc);
    assert_eq!(app.screen, Screen::Roller);
    assert!(!app.preset_confirm_delete);
}

#[test]
fn history_scroll_stays_in_range() {
    let mut app = AppState::new(None, 10);
    app.handle_key(Key::PageUp, false, true, 3);
    app.handle_key(Key::PageUp, false, true, 3);
    app.handle_key(Key::PageUp, false, true, 3);
    assert_eq!(app.history_scroll, 2);
    app.handle_key(Key::PageDown, false, true, 3);
    assert_eq!(app.history_scroll, 1);
    app.handle_key(Key::PageDown, false, true, 3);
    app.handle_key(Key::PageDown, false, true, 3);
    assert_eq!(app.history_scroll, 0);
}

#[test]
fn push_capped_drops_oldest() {
    let mut v: Vec<u32> = Vec::new();
    for i in 0..(MAX_HISTORY as u32 + 3) {
        push_capped(&mut v, i, MAX_HISTORY);
    }
    assert_eq!(v.len(), MAX_HISTORY);
    assert_eq!(v[0], 3);
    assert_eq!(*v.last().unwrap(), MAX_HISTORY as u32 + 2);
}

#[test]
fn next_target_starts_in_middle_and_clamps() {
    assert_eq!(next_target(None, 2, 12, 1), 8);
    assert_eq!(next_target(None, 2, 12, -1), 6);
    assert_eq!(next_target(Some(12), 2, 12, 1), 12);
    assert_eq!(next_target(Some(2), 2, 12, -1), 2);
    assert_eq!(next_target(Some(5), 2, 12, 1), 6);
}

#[test]
fn tab_switches_between_roller_and_history() {
    let mut app = AppState::new(Some("1d6"), 10);
    app.error_msg = Some("bad".to_string());
    assert_eq!(press(&mut app, Key::Tab), KeyAction::Nothing);
    assert_eq!(app.screen, Screen::History);
    assert_eq!(app.error_msg, Some("bad".to_string()));
    assert_eq!(app.input, "1d6");
    app.handle_key(Key::PageUp, false, true, 4);
    assert_eq!(app.history_scroll, 1);
    press(&mut app, Key::Char('x'));
    assert_eq!(app.input, "1d6");
    press(&mut app, Key::Tab);
    assert_eq!(app.screen, Screen::Roller);
}

#[test]
fn failures_set_only_the_error() {
    let mut app = AppState::new(Some("2dx"), 10);
    let e = parse_expr("2dx").unwrap_err();
    app.parse_failed(&e);
    assert_eq!(app.error_msg, Some(e.to_string()));
    assert_eq!(app.input, "2dx");
    assert_eq!(app.screen, Screen::Roller);
    app.fail("Type an expression first".to_string());
    assert_eq!(app.error_msg, Some("Type an expression first".to_string()));
}

#[test]
fn push_capped_over_cap_drops_one() {
    let mut v: Vec<u32> = vec![1, 2, 3, 4];
    push_capped(&mut v, 5, 2);
    assert_eq!(v, vec![2, 3, 4, 5]);
}

#[test]
fn submit_rolls_and_records_input() {
    let mut rng = StdRng::seed_from_u64(5);
    let mut app = AppState::new(Some("  Attack "), 10);
    app.presets = vec![preset("attack", "2d6+3")];
    match app.submit(&mut rng) {
        Submitted::Rolled(rec) => {
            assert_eq!(rec.expression, "2d6+3");
            assert!(5 <= rec.total && rec.total <= 15);
            assert_eq!((rec.stats.min, rec.stats.max, rec.stats.double_mean), (5, 15, 20));
            assert_eq!(rec.group_sides, vec![6]);
            assert_eq!(rec.kept_dice.len(), 1);
            assert_eq!(rec.kept_dice[0].len(), 2);
        }
        _ => panic!("expected a roll"),
    }
    assert_eq!(app.input, "");
    assert_eq!(app.input_history, vec!["Attack".to_string()]);
}

#[test]
fn submit_blank_and_failing_inputs() {
    let mut rng = StdRng::seed_from_u64(5);
    let mut app = AppState::new(Some("   "), 10);
    assert!(matches!(app.submit(&mut rng), Submitted::Blank));
    let mut app = AppState::new(Some("2dx"), 10);
    assert!(matches!(app.submit(&mut rng), Submitted::Failed));
    assert_eq!(app.error_msg, Some("invalid sides: 'x'".to_string()));
    assert_eq!(app.input, "2dx");
    assert!(app.input_history.is_empty());
}

#[test]
fn open_distribution_step() {
    let mut rng = StdRng::seed_from_u64(5);
    let mut app = AppState::new(None, 200);
    assert!(matches!(app.open_distribution(None, &mut rng), DistOpened::Failed));
    assert_eq!(app.error_msg, Some("Type an expression first".to_string()));
    assert_eq!(app.screen, Screen::Roller);
    match app.open_distribution(Some("1d4".to_string()), &mut rng) {
        DistOpened::Opened(rec) => {
            assert_eq!(rec.expr_str, "1d4");
            assert_eq!(rec.sims, 200);
            assert_eq!(rec.counts.values().sum::<u64>(), 200);
            assert!(rec.counts.keys().all(|k| (1..=4).contains(k)));
        }
        _ => panic!("expected the distribution"),
    }
    assert_eq!(app.screen, Screen::Distribution);
    assert_eq!(app.error_msg, None);
}
