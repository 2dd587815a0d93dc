use bindanalyzer::app::View;
use bindanalyzer::i18n::{fill, Lang};

#[test]
fn fill_replaces_in_order() {
    assert_eq!(fill(" {} · {} of {} ", &["A".to_string(), 2.to_string(), 3.to_string()]), " A · 2 of 3 ");
}

#[test]
fn fill_leaves_extra_holes_and_ignores_extra_args() {
    assert_eq!(fill("{} and {}", &["x".to_string()]), "x and {}");
    assert_eq!(fill("none", &["x".to_string()]), "none");
    assert_eq!(fill("{}", &["{}".to_string(), "y".to_string()]), "{}");
    assert_eq!(fill("{} {}", &["{}".to_string(), "y".to_string()]), "{} y");
    assert_eq!(fill("{{}}", &["x".to_string()]), "{x}");
    assert_eq!(fill("", &[]), "");
}

#[test]
fn language_from_locale() {
    assert_eq!(Lang::from_locale(&vec![None, None, Some("es_ES.UTF-8".into())]), Lang::Es);
    assert_eq!(Lang::from_locale(&vec![Some("".into()), Some("ES".into()), None]), Lang::Es);
    assert_eq!(Lang::from_locale(&vec![Some("C".into()), Some("es_ES".into())]), Lang::En);
    assert_eq!(Lang::from_locale(&vec![]), Lang::En);
}

#[test]
fn texts_by_language() {
    let en = Lang::En.texts();
    let es = Lang::Es.texts();
    assert_eq!(View::Cheatsheet.title(&en), "Cheatsheet");
    assert_eq!(View::Cheatsheet.title(&es), "Chuleta");
    assert_eq!(es.untagged, "(sin tag)");
    assert_eq!(es.col_action, "Acción");
    assert_eq!(en.untagged, "(untagged)");
    assert_eq!(fill(en.title_conflicts, &["Conflicts".to_string(), 1.to_string()]), " Conflicts · 1 repeated combos ");
    assert_eq!(en.help_rows.len(), 17);
    assert_eq!(es.help_rows[0].0, "/");
}
