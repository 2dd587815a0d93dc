use bindanalyzer::config::parse_alone;
use bindanalyzer::model::{Bind, ModMask};
use bindanalyzer::query::{
    bound_by, combo_candidates, conflicts, filter_by_tags, free_combos, free_keys, haystack, in_universe, key_groups,
    key_search, other_bound, search, standard_combos, used_modmasks, SearchField,
};

fn binds() -> Vec<Bind> {
    parse_alone(
        "#TAGS: apps\nbind = SUPER, T, exec, kitty\nbind = SUPER SHIFT, T, exec, ghostty\n\
         bind = SUPER, F1, exec, firefox\nbindd = SUPER, Q, Cerrar ventana, killactive,\n\
         #TAGS:\nbind = SUPER, 36, exec, footclient\nbind = SUPER, Q, exec, otra-cosa\n\
         submap = resize\nbind = , right, resizeactive, 10 0\nbind = , catchall, submap, reset\nsubmap = reset\n",
        "x.conf",
    )
    .binds
}

#[test]
fn tag_filter_handles_untagged() {
    let b = binds();
    let active = vec!["apps".to_string()];
    assert_eq!(filter_by_tags(&b, &active, false).len(), 4);
    assert_eq!(filter_by_tags(&b, &active, true).len(), 8);
    assert_eq!(filter_by_tags(&b, &[], true).len(), 4);
}

#[test]
fn fuzzy_search_by_app_and_all() {
    let b = binds();
    let r = search(&b, "fire", SearchField::App);
    assert_eq!(r, vec![2]);
    let r = search(&b, "cerrar", SearchField::All);
    assert_eq!(r, vec![3]);
    let r = search(&b, "exec kitty", SearchField::All);
    assert_eq!(r, vec![0]);
    assert_eq!(search(&b, "fire", SearchField::All), vec![2]);
    assert_eq!(search(&b, "frfx", SearchField::App), vec![2]);
    assert_eq!(search(&b, "", SearchField::All).len(), b.len());
}

#[test]
fn key_search_prefers_exact_mods() {
    let b = binds();
    let r = search(&b, "super t", SearchField::Key);
    assert_eq!(r, vec![0, 1]);
    let r = search(&b, "super+shift+t", SearchField::Key);
    assert_eq!(r, vec![1]);
    let r = search(&b, "return", SearchField::Key);
    assert_eq!(r, vec![4]);
    assert_eq!(search(&b, "super", SearchField::Key).len(), 6);
}

#[test]
fn free_keys_respect_keycodes_and_catchall() {
    let b = binds();
    assert_eq!(bound_by(&b, ModMask::SUPER(), "t", ""), Some(0));
    assert_eq!(bound_by(&b, ModMask::SUPER(), "return", ""), Some(4));
    assert_eq!(bound_by(&b, ModMask::SUPER(), "z", ""), None);
    assert_eq!(bound_by(&b, ModMask::NONE(), "z", "resize"), Some(7));
    let report = free_keys(&b, ModMask::SUPER(), "");
    let letters = &report[0];
    assert_eq!(letters.free_count(), 24);
}

#[test]
fn free_combos_for_a_key() {
    let b = binds();
    let combos = combo_candidates(&b, "");
    assert_eq!(combos[0], ModMask::SUPER());
    let r = free_combos(&b, "T", "", &combos);
    assert_eq!(r[0].bound_by, Some(0));
    let shift = r.iter().find(|c| c.mods == ModMask::SUPER() | ModMask::SHIFT()).unwrap();
    assert_eq!(shift.bound_by, Some(1));
    let ctrl = r.iter().find(|c| c.mods == ModMask::SUPER() | ModMask::CTRL()).unwrap();
    assert_eq!(ctrl.bound_by, None);
}

#[test]
fn detects_duplicate_combos() {
    let b = binds();
    let c = conflicts(&b);
    assert_eq!(c.len(), 1);
    assert_eq!(c[0].members, vec![3, 5]);
    assert_eq!(c[0].label, "SUPER+Q");
}

#[test]
fn search_field_cycles() {
    let f = SearchField::All;
    assert_eq!(f.next(), SearchField::App);
    assert_eq!(f.next().next(), SearchField::Key);
    assert_eq!(f.next().next().next(), f);
    assert_eq!(SearchField::App.label(), "aplicación");
}

#[test]
fn every_tag_active_shows_every_bind() {
    let b = binds();
    let all = filter_by_tags(&b, &["apps".to_string()], true);
    assert_eq!(all, (0..b.len()).collect::<Vec<usize>>());
}

#[test]
fn used_modmasks_most_used_first() {
    let b = binds();
    let u = used_modmasks(&b, "");
    assert_eq!(u[0], (ModMask::SUPER(), 5));
    assert_eq!(u[1], (ModMask::SUPER() | ModMask::SHIFT(), 1));
    assert_eq!(u.len(), 2);
    assert_eq!(used_modmasks(&b, "resize"), vec![(ModMask::NONE(), 2)]);
}

#[test]
fn standard_combos_fill_the_candidates() {
    let b = binds();
    let s = standard_combos();
    assert_eq!(s.len(), 7);
    let c = combo_candidates(&b, "");
    assert_eq!(c.len(), 7);
    let r = combo_candidates(&b, "resize");
    assert_eq!(r[0], ModMask::NONE());
    assert_eq!(r.len(), 8);
}

#[test]
fn universe_and_other_keys() {
    assert!(in_universe("return"));
    assert!(in_universe("f5"));
    assert!(!in_universe("xf86audiomute"));
    assert_eq!(key_groups().len(), 6);
    let b = parse_alone("bind = SUPER, XF86AudioMute, exec, m\nbind = SUPER, A, exec, a\n", "o.conf").binds;
    assert_eq!(other_bound(&b, ModMask::SUPER(), ""), vec![0]);
}

#[test]
fn key_search_ranks_and_haystacks() {
    let b = binds();
    assert_eq!(key_search(&b, "super q"), vec![3, 5]);
    assert_eq!(key_search(&b, "ctrl q"), Vec::<usize>::new());
    assert_eq!(haystack(&b[3], SearchField::App), " Cerrar ventana");
    assert_eq!(haystack(&b[0], SearchField::Key), "SUPER+T");
}

#[test]
fn free_keys_report_groups() {
    let b = binds();
    let report = free_keys(&b, ModMask::SUPER(), "");
    assert_eq!(report.len(), 6);
    assert_eq!(report[0].name, "Letras");
    let t = report[0].keys.iter().find(|k| k.key == "t").unwrap();
    assert_eq!(t.bound_by, Some(0));
    let special = &report[4];
    let ret = special.keys.iter().find(|k| k.key == "Return").unwrap();
    assert_eq!(ret.bound_by, Some(4));
}
