use kwik::progress::{final_color, position_of, redraw_delay, BarColor, ProgressState, ProgressTag};

#[test]
fn progress_starts_empty() {
    let state = ProgressState::new(10);
    assert!(!state.is_complete());
    assert_eq!(state.amount(), 0);
    assert!(state.tags().is_empty());
}

#[test]
fn progress_ticks_to_completion() {
    let mut state = ProgressState::new(4);
    state.tick(1);
    assert_eq!(state.amount(), 25);
    state.tick(2);
    assert_eq!(state.amount(), 75);
    assert!(!state.is_complete());
    state.tick(3);
    assert_eq!(state.amount(), 100);
    assert!(state.is_complete());
}

#[test]
fn progress_stops() {
    let mut state = ProgressState::new(4);
    state.stop();
    assert!(state.is_complete());
}

#[test]
fn progress_draws_bar() {
    let mut state = ProgressState::new(2);
    state.set_width(4);
    state.tick(1);

    let y = |c: char| format!("\x1B[33m{c}\x1B[0m");
    let expected = format!("[{}{}{}{}] \x1B[33m50 %\x1B[0m", y('='), y('='), y('>'), y(' '));
    assert_eq!(state.bar(BarColor::Yellow), expected);
}

#[test]
fn progress_draws_custom_characters() {
    let mut state = ProgressState::new(1);
    state.set_width(2);
    state.set_filled_character('#');
    state.set_current_character('|');
    state.set_remaining_character('.');

    let r = |c: char| format!("\x1B[31m{c}\x1B[0m");
    let expected = format!("[{}{}] \x1B[31m0 %\x1B[0m", r('|'), r('.'));
    assert_eq!(state.bar(BarColor::Red), expected);
}

#[test]
fn progress_tags_are_kept_in_order() {
    let mut state = ProgressState::new(1);
    state.set_tag(ProgressTag::Eta);
    state.set_tag(ProgressTag::Tps);
    assert!(state.has_tag(ProgressTag::Tps));
    assert!(!state.has_tag(ProgressTag::Time));
    assert_eq!(state.tags(), &vec![ProgressTag::Eta, ProgressTag::Tps]);
}

#[test]
fn progress_positions_and_colors() {
    assert_eq!(position_of(70, 50), 35);
    assert_eq!(position_of(70, 100), 70);
    assert_eq!(position_of(3, 50), 1);
    assert_eq!(final_color(99), BarColor::Red);
    assert_eq!(final_color(100), BarColor::Green);
    assert_eq!(redraw_delay(5, 2), 10);
    assert_eq!(redraw_delay(3, 2), 100);
}

#[test]
fn progress_tag_texts() {
    assert_eq!(kwik::progress::tps_tag(1234), " (1,234 tps)");
    assert_eq!(kwik::progress::time_tag(61_000), " (time 1:01.000)");
    assert_eq!(kwik::progress::eta_tag(500), " (eta 500)");
}
