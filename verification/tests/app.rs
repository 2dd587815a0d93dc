use bindanalyzer::app::{App, Focus, KeyCode, KeyEvent, Request, View};
use bindanalyzer::config::{parse_alone, ConfigError};
use bindanalyzer::i18n::Lang;
use bindanalyzer::query::SearchField;
use bindanalyzer::snapshot::{build, LoadOptions};

fn app(lang: Lang) -> App {
    let parsed = parse_alone(
        "#TAGS: apps\nbind = SUPER, T, exec, kitty\nbind = SUPER SHIFT, T, exec, ghostty\n#TAGS:\nbind = SUPER, Q, killactive,\nbind = SUPER, Q, exec, dup\n",
        "hyprland.conf",
    );
    let snap = build("hyprland.conf", parsed, None);
    App::new(LoadOptions { config: "hyprland.conf".into(), use_live: false }, snap, false, View::Cheatsheet, lang)
}

fn press(app: &mut App, code: KeyCode) -> Request {
    app.handle_key(KeyEvent::plain(code))
}

fn keys(app: &mut App, s: &str) {
    for c in s.chars() {
        press(app, KeyCode::Char(c));
    }
}

#[test]
fn tags_panel_filters_rows() {
    let mut app = app(Lang::En);
    assert_eq!(app.rows.len(), 4);
    app.handle_key(KeyEvent::plain(KeyCode::Char('t')));
    app.handle_key(KeyEvent::plain(KeyCode::Char(' ')));
    assert_eq!(app.rows.len(), 2);
    app.handle_key(KeyEvent::plain(KeyCode::Char('n')));
    assert!(app.rows.is_empty());
    app.handle_key(KeyEvent::plain(KeyCode::Char('a')));
    assert_eq!(app.rows.len(), 4);
}

#[test]
fn search_view_filters_by_query() {
    let mut app = app(Lang::En);
    keys(&mut app, "/ghost");
    assert_eq!(app.view, View::Search);
    assert_eq!(app.focus, Focus::Input);
    assert_eq!(app.query, "ghost");
    assert_eq!(app.rows, vec![1]);
    press(&mut app, KeyCode::Backspace);
    assert_eq!(app.query, "ghos");
    app.handle_key(KeyEvent { code: KeyCode::Char('u'), ctrl: true });
    assert_eq!(app.query, "");
    assert_eq!(app.rows.len(), 4);
    press(&mut app, KeyCode::Tab);
    assert_eq!(app.field, SearchField::App);
    press(&mut app, KeyCode::Esc);
    assert_eq!(app.focus, Focus::Main);
    press(&mut app, KeyCode::Esc);
    assert_eq!(app.view, View::Cheatsheet);
}

#[test]
fn conflicts_view_groups_rows() {
    let mut app = app(Lang::En);
    keys(&mut app, "c");
    assert_eq!(app.view, View::Conflicts);
    assert_eq!(app.conflicts.len(), 1);
    assert_eq!(app.rows, vec![2, 3]);
    assert_eq!(app.row_groups, vec![1, 1]);
    assert_eq!(app.table_sel, Some(0));
    press(&mut app, KeyCode::Enter);
    assert!(app.detail);
    assert_eq!(app.current().unwrap().dispatcher, "killactive");
    press(&mut app, KeyCode::Char('x'));
    assert!(app.detail);
    press(&mut app, KeyCode::Esc);
    assert!(!app.detail);
}

#[test]
fn moving_the_selection_stays_in_the_table() {
    let mut app = app(Lang::En);
    assert_eq!(app.table_sel, Some(0));
    press(&mut app, KeyCode::Up);
    assert_eq!(app.table_sel, Some(0));
    press(&mut app, KeyCode::PageDown);
    assert_eq!(app.table_sel, Some(3));
    keys(&mut app, "k");
    assert_eq!(app.table_sel, Some(2));
    keys(&mut app, "g");
    assert_eq!(app.table_sel, Some(0));
    press(&mut app, KeyCode::End);
    assert_eq!(app.table_sel, Some(3));
}

#[test]
fn free_keys_view_cycles_combinations_and_submaps() {
    let mut app = app(Lang::En);
    keys(&mut app, "f");
    assert_eq!(app.view, View::FreeKeys);
    assert!(app.rows.is_empty());
    assert_eq!(app.table_sel, None);
    assert_eq!(app.combo_idx, 0);
    let n = app.combos.len();
    assert!(n > 0);
    press(&mut app, KeyCode::Left);
    assert_eq!(app.combo_idx, n - 1);
    press(&mut app, KeyCode::Right);
    assert_eq!(app.combo_idx, 0);
    assert_eq!(app.current_combo(), app.combos[0]);
    keys(&mut app, "s");
    assert_eq!(app.submap_idx, 0);
    assert_eq!(app.submap(), "");
    keys(&mut app, "jj");
    assert_eq!(app.scroll, 2);
}

#[test]
fn letter_view_takes_a_key() {
    let mut app = app(Lang::En);
    keys(&mut app, "lt");
    assert_eq!(app.view, View::FreeCombos);
    assert_eq!(app.letter, "t");
    press(&mut app, KeyCode::Enter);
    assert_eq!(app.focus, Focus::Main);
}

#[test]
fn help_closes_on_any_key_and_quit() {
    let mut app = app(Lang::Es);
    keys(&mut app, "?");
    assert!(app.help);
    keys(&mut app, "q");
    assert!(!app.help);
    assert!(!app.quit);
    assert_eq!(press(&mut app, KeyCode::Char('r')), Request::Reload);
    keys(&mut app, "q");
    assert!(app.quit);
}

#[test]
fn reload_result_updates_the_state() {
    let mut app = app(Lang::En);
    app.reloaded(Err(ConfigError::Read("hyprland.conf".into(), "gone".into())));
    assert_eq!(app.status, "Reload error: cannot read hyprland.conf: gone");
    let snap = build("hyprland.conf", parse_alone("#TAGS: z\nbind = SUPER, A, exec, a\n", "hyprland.conf"), None);
    app.reloaded(Ok(snap));
    assert_eq!(app.status, "Reloaded");
    assert_eq!(app.rows.len(), 1);
    assert_eq!(app.tags.len(), 1);
    assert_eq!(app.tags[0].name, "z");
    keys(&mut app, "m");
    assert_eq!(app.status, "");
}

#[test]
fn new_app_starts_in_the_requested_view() {
    let parsed = parse_alone("bind = SUPER, T, exec, kitty\n", "h.conf");
    let snap = build("h.conf", parsed, None);
    let a = App::new(LoadOptions { config: "h.conf".into(), use_live: false }, snap, true, View::Search, Lang::En);
    assert_eq!(a.view, View::Search);
    assert_eq!(a.focus, Focus::Input);
    assert!(a.compact);
    assert_eq!(a.rows, vec![0]);
    let (active, untagged) = a.active_tags();
    assert!(active.is_empty());
    assert!(untagged);
}

#[test]
fn combinations_cycle_in_free_keys() {
    let mut app = app(Lang::En);
    keys(&mut app, "f");
    let n = app.combos.len();
    assert!(n >= 1);
    let start = app.combo_idx;
    for step in 1..=n {
        press(&mut app, KeyCode::Char('n'));
        assert_eq!(app.combo_idx, (start + step) % n);
        assert_eq!(app.view, View::FreeKeys);
        assert!(app.rows.is_empty());
    }
    assert_eq!(app.combo_idx, start);
    for _ in 0..n {
        press(&mut app, KeyCode::Char('p'));
    }
    assert_eq!(app.combo_idx, start);
    press(&mut app, KeyCode::Left);
    assert_eq!(app.combo_idx, (start + n - 1) % n);
}
