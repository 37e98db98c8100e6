use tessera::workspace::{close_tab_action, closes_window, shows_tab_bar, window_title_for_tab, CloseTabAction};

#[test]
fn window_title_falls_back_to_terminal() {
    assert_eq!(window_title_for_tab(Some("vim notes.md")), "vim notes.md");
    assert_eq!(window_title_for_tab(Some("")), "Terminal");
    assert_eq!(window_title_for_tab(None), "Terminal");
}

#[test]
fn tab_bar_appears_with_the_second_tab() {
    assert!(!shows_tab_bar(0));
    assert!(!shows_tab_bar(1));
    assert!(shows_tab_bar(2));
    assert!(closes_window(0));
    assert!(!closes_window(1));
}

#[test]
fn closing_the_last_tab_closes_the_window() {
    assert_eq!(close_tab_action(3), CloseTabAction::CloseActiveTab);
    assert_eq!(close_tab_action(2), CloseTabAction::CloseActiveTab);
    assert_eq!(close_tab_action(1), CloseTabAction::CloseWindow);
    assert_eq!(close_tab_action(0), CloseTabAction::CloseWindow);
}
