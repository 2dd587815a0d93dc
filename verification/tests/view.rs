use bindanalyzer::app::{App, KeyCode, KeyEvent, View};
use bindanalyzer::config::parse_alone;
use bindanalyzer::i18n::Lang;
use bindanalyzer::model::{BindFlags, ModMask, Origin};
use bindanalyzer::query::{free_combos, free_keys, SearchField};
use bindanalyzer::view::{free_combo_count, header_notes, key_totals, row_mark, HeaderNote, RowMark};
use bindanalyzer::snapshot::{build, LiveStatus, LoadOptions};
use bindanalyzer::view::{
    column_width, detail_state, empty_message, field_label, flags_text, footer_hint, group_label, live_label, mods_label,
    submap_label, table_columns, table_title,
};

fn app() -> App {
    let parsed = parse_alone(
        "#TAGS: apps\nbind = SUPER, T, exec, kitty\nbind = SUPER SHIFT, T, exec, ghostty\n#TAGS:\nbind = SUPER, Q, killactive,\nbind = SUPER, Q, exec, dup\n",
        "hyprland.conf",
    );
    let snap = build("hyprland.conf", parsed, None);
    App::new(LoadOptions { config: "hyprland.conf".into(), use_live: false }, snap, false, View::Cheatsheet, Lang::En)
}

#[test]
fn labels_of_modifiers_submaps_and_fields() {
    let en = Lang::En.texts();
    let es = Lang::Es.texts();
    assert_eq!(mods_label(&en, ModMask::NONE()), "no modifier");
    assert_eq!(mods_label(&es, ModMask(65)), "SUPER+SHIFT");
    assert_eq!(submap_label(&en, ""), "global");
    assert_eq!(submap_label(&en, "resize"), "resize");
    assert_eq!(field_label(&es, SearchField::App), "aplicación");
    assert_eq!(group_label(&en, "Letters"), "Letters");
    assert_eq!(group_label(&es, "Letras"), "Símbolos");
    assert_eq!(live_label(&en, &LiveStatus::Answered), "  hyprctl ✓");
    assert_eq!(live_label(&es, &LiveStatus::Error("x".into())), "  hyprctl error");
}

#[test]
fn detail_texts() {
    let en = Lang::En.texts();
    assert_eq!(detail_state(&en, Origin::Config, true), "in the file but NOT loaded (missing hyprctl reload?)");
    assert_eq!(detail_state(&en, Origin::Config, false), "in the file");
    assert_eq!(detail_state(&en, Origin::Both, false), "loaded in Hyprland");
    assert_eq!(detail_state(&en, Origin::Live, true), "loaded but not in the file");
    let (f, _) = BindFlags::from_letters("el");
    assert_eq!(flags_text(&en, &f), "le (locked, repeat)");
    assert_eq!(flags_text(&en, &BindFlags::from_letters("").0), "none");
}

#[test]
fn table_shape_and_titles() {
    let mut a = app();
    let c = table_columns(&a);
    assert!(!c.group && !c.submap && !c.description && c.tags && c.source);
    assert_eq!(table_title(&a), " Cheatsheet · 4 of 4 ");
    a.handle_key(KeyEvent::plain(KeyCode::Char('c')));
    assert!(table_columns(&a).group);
    assert_eq!(table_title(&a), " Conflicts · 1 repeated combos ");
    a.handle_key(KeyEvent::plain(KeyCode::Char('/')));
    assert_eq!(empty_message(&a), "Type to search");
    assert_eq!(table_title(&a), " Search · 4 results · field: all ");
    for ch in "zzzz".chars() {
        a.handle_key(KeyEvent::plain(KeyCode::Char(ch)));
    }
    assert!(a.rows.is_empty());
    assert_eq!(empty_message(&a), "No results");
}

#[test]
fn column_widths_are_clamped() {
    assert_eq!(column_width(&[], 4, 24), 4);
    assert_eq!(column_width(&["SUPER+SHIFT".to_string(), "SUPER".to_string()], 4, 24), 11);
    assert_eq!(column_width(&["ñandú".to_string()], 2, 24), 5);
    assert_eq!(column_width(&["x".repeat(40)], 4, 24), 24);
}

#[test]
fn footer_hints_follow_focus_and_view() {
    let mut a = app();
    assert!(footer_hint(&a).unwrap().starts_with(" / search"));
    a.handle_key(KeyEvent::plain(KeyCode::Char('/')));
    assert_eq!(footer_hint(&a), None);
    a.handle_key(KeyEvent::plain(KeyCode::Esc));
    assert_eq!(footer_hint(&a).unwrap(), " i edit · Tab field (all) · Enter detail · Esc cheatsheet · q quit");
    a.handle_key(KeyEvent::plain(KeyCode::Char('t')));
    assert!(footer_hint(&a).unwrap().starts_with(" j/k move"));
}

#[test]
fn row_marks_and_counts() {
    assert_eq!(row_mark(Origin::Config, true), RowMark::NotLoaded);
    assert_eq!(row_mark(Origin::Config, false), RowMark::Plain);
    assert_eq!(row_mark(Origin::Live, false), RowMark::LiveOnly);
    assert_eq!(row_mark(Origin::Both, true), RowMark::Plain);
    let a = app();
    let report = free_keys(&a.snap.binds, ModMask::SUPER(), "");
    let (free, total) = key_totals(&report);
    assert_eq!(total, 75);
    assert_eq!(free, 73);
    let usage = free_combos(&a.snap.binds, "T", "", &a.combos);
    assert_eq!(free_combo_count(&usage), usage.len() - 2);
}

#[test]
fn header_notes_only_for_counts_above_zero() {
    let en = Lang::En.texts();
    let parsed = parse_alone("bind = $nope, Q, exec, x\nbind = SUPER, Q\nbind = SUPER, W, exec, y\n", "x.conf");
    let s = build("x.conf", parsed, None);
    let notes = header_notes(&en, &s);
    assert_eq!(notes, vec![("  2 warnings".to_string(), HeaderNote::Warnings)]);
    let quiet = build("x.conf", parse_alone("bind = SUPER, Q, killactive,\n", "x.conf"), None);
    assert!(header_notes(&en, &quiet).is_empty());
    let answered = build("x.conf", parse_alone("bind = SUPER, Q, killactive,\n", "x.conf"), Some(Ok(Vec::new())));
    let es = Lang::Es.texts();
    assert_eq!(header_notes(&es, &answered), vec![("  1 sin cargar".to_string(), HeaderNote::NotLoaded)]);
}
