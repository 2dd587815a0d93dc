use bindanalyzer::config::{expand_home, is_glob, parse_alone, strip_comment, LineAction, ParsedConfig, Parser};
use bindanalyzer::model::{Key, ModMask};

const SAMPLE: &str = r###"
$mainMod = SUPER
$term = kitty

#TAGS: displays
bind = SUPER CTRL, 0, exec, ~/.config/hypr/scripts/eDP-1-only.sh
bind =SUPER, C, resizeactive, exact 50% 50%
bind = , mouse:274, killactive,          # El click de la rueda
bindm=SUPER, mouse:272, movewindow
#TAGS: apps
bind = $mainMod, 36, exec, footclient
bind = $mainMod SHIFT, T, exec, $term --title "a, b"
bindd = $mainMod, Q, Cerrar ventana, killactive,
bind = $mainMod, P, pseudo, # dwindle
bind = $mainMod, H, exec, notify-send "##1"
#TAGS:
bind = $mainMod, R, submap, resize
submap=resize
binde=,right,resizeactive,50 0
bind = , Return, submap, reset
submap = reset
bind = $mainMod, Z, exec, tail
"###;

fn parse() -> ParsedConfig {
    parse_alone(SAMPLE, "/tmp/hyprland.conf")
}

#[test]
fn parses_every_bind_variant() {
    let p = parse();
    assert_eq!(p.binds.len(), 13, "warnings: {:?}", p.warnings);
    assert!(p.warnings.is_empty(), "{:?}", p.warnings);
}

#[test]
fn strips_prefix_and_spaces() {
    let p = parse();
    let b = &p.binds[1];
    assert_eq!(b.mods, ModMask::SUPER());
    assert_eq!(b.key, Key::Sym("C".into()));
    assert_eq!(b.dispatcher, "resizeactive");
    assert_eq!(b.arg, "exact 50% 50%");
    assert_eq!(b.source.as_ref().unwrap().line, 7);
}

#[test]
fn strips_trailing_comments_and_keeps_escaped_hash() {
    let p = parse();
    let b = &p.binds[2];
    assert_eq!(b.mods, ModMask::NONE());
    assert_eq!(b.key, Key::Sym("mouse:274".into()));
    assert_eq!(b.dispatcher, "killactive");
    assert_eq!(b.arg, "");
    let p_bind = p.binds.iter().find(|b| b.key == Key::Sym("P".into())).unwrap();
    assert_eq!(p_bind.arg, "");
    let h_bind = p.binds.iter().find(|b| b.key == Key::Sym("H".into())).unwrap();
    assert_eq!(h_bind.arg, "notify-send \"#1\"");
}

#[test]
fn expands_variables_and_keeps_commas_in_args() {
    let p = parse();
    let t = p.binds.iter().find(|b| b.key == Key::Sym("T".into())).unwrap();
    assert_eq!(t.mods, ModMask::SUPER() | ModMask::SHIFT());
    assert_eq!(t.arg, "kitty --title \"a, b\"");
}

#[test]
fn keycodes_flags_and_descriptions() {
    let p = parse();
    let code = p.binds.iter().find(|b| b.key == Key::Code(36)).unwrap();
    assert_eq!(code.arg, "footclient");
    let m = &p.binds[3];
    assert!(m.flags.mouse);
    assert_eq!(m.key, Key::Sym("mouse:272".into()));
    let q = p.binds.iter().find(|b| b.key == Key::Sym("Q".into())).unwrap();
    assert!(q.flags.description);
    assert_eq!(q.description, "Cerrar ventana");
    assert_eq!(q.dispatcher, "killactive");
}

#[test]
fn tags_and_submaps_follow_the_file() {
    let p = parse();
    assert_eq!(p.binds[0].tags, vec!["displays"]);
    assert_eq!(p.binds[4].tags, vec!["apps"]);
    let r = p.binds.iter().find(|b| b.key == Key::Sym("R".into())).unwrap();
    assert!(r.tags.is_empty());
    assert_eq!(r.submap, "");
    let right = p.binds.iter().find(|b| b.key == Key::Sym("right".into())).unwrap();
    assert_eq!(right.submap, "resize");
    assert!(right.flags.repeat);
    let z = p.binds.iter().find(|b| b.key == Key::Sym("Z".into())).unwrap();
    assert_eq!(z.submap, "");
}

#[test]
fn warns_on_unknown_modifier_and_incomplete_bind() {
    let p = parse_alone("bind = $nope, Q, exec, x\nbind = SUPER, Q\n", "x.conf");
    assert_eq!(p.binds.len(), 1);
    assert_eq!(p.warnings.len(), 2);
}

#[test]
fn warning_texts_name_file_and_line() {
    let p = parse_alone("bind = $nope, Q, exec, x\nbind = SUPER, Q\n", "x.conf");
    assert_eq!(p.warnings[0], "x.conf:1: unknown modifiers: $nope");
    assert_eq!(p.warnings[1], "x.conf:2: incomplete bind, missing fields");
    let q = parse_alone("bindxz = SUPER, Q, exec, x\nbind = SUPER, W, ,\n", "y.conf");
    assert_eq!(q.warnings, vec!["y.conf:1: unknown bind flags: xz", "y.conf:2: bind without dispatcher"]);
}

#[test]
fn sources_are_reported_when_read_alone() {
    let p = parse_alone("source = ~/extra.conf\nbind = SUPER, Q, killactive,\n", "a.conf");
    assert_eq!(p.binds.len(), 1);
    assert_eq!(p.warnings, vec!["a.conf:1: source not followed: ~/extra.conf"]);
    assert_eq!(p.files, vec!["a.conf"]);
}

#[test]
fn marker_tags_are_inherited_until_the_next() {
    let p = parse_alone("bind = SUPER, A, x,\n#TAGS: one two\nbind = SUPER, B, x,\n  #TAGS:   \nbind = SUPER, C, x,\n", "t.conf");
    assert!(p.binds[0].tags.is_empty());
    assert_eq!(p.binds[1].tags, vec!["one", "two"]);
    assert!(p.binds[2].tags.is_empty());
    assert_eq!(p.binds[2].source.as_ref().unwrap().raw, "bind = SUPER, C, x,");
}

#[test]
fn variables_expand_longest_name_first() {
    let p = parse_alone("$a = one\n$ab = two\nbind = SUPER, Q, exec, $ab $a\n", "v.conf");
    assert_eq!(p.binds[0].arg, "two one");
    assert_eq!(p.variables.len(), 2);
}

#[test]
fn comments_are_stripped_but_double_hash_kept() {
    assert_eq!(strip_comment("bind = a, b # note"), "bind = a, b");
    assert_eq!(strip_comment("exec, echo ##x"), "exec, echo #x");
    assert_eq!(strip_comment("# all"), "");
}

#[test]
fn home_and_globs() {
    assert_eq!(expand_home("~/x.conf", Some("/home/u")), "/home/u/x.conf");
    assert_eq!(expand_home("~/x.conf", None), "~/x.conf");
    assert_eq!(expand_home("/etc/x", Some("/home/u")), "/etc/x");
    assert!(is_glob("conf.d/*.conf"));
    assert!(is_glob("a?.conf"));
    assert!(!is_glob("plain.conf"));
}

#[test]
fn parser_follows_sources_step_by_step() {
    let mut p = Parser::new();
    p.begin_file("/c/main.conf");
    assert!(matches!(p.feed_line("/c/main.conf", 1, "#TAGS: main"), LineAction::Done));
    let v = match p.feed_line("/c/main.conf", 2, "source = /c/extra.conf") {
        LineAction::Source(v) => v,
        LineAction::Done => panic!("source line not reported"),
    };
    assert_eq!(v, "/c/extra.conf");
    let saved = p.enter_source();
    p.begin_file("/c/extra.conf");
    p.feed_line("/c/extra.conf", 1, "#TAGS: extra");
    p.feed_line("/c/extra.conf", 2, "bind = SUPER, X, exec, foo");
    p.leave_source(saved);
    p.feed_line("/c/main.conf", 3, "bind = SUPER, Y, exec, bar");
    let r = p.finish();
    assert_eq!(r.files.len(), 2);
    assert_eq!(r.binds[0].tags, vec!["extra"]);
    assert_eq!(r.binds[0].source.as_ref().unwrap().file, "/c/extra.conf");
    assert_eq!(r.binds[1].tags, vec!["main"]);
}

#[test]
fn source_patterns_are_relative_to_the_file() {
    assert_eq!(Parser::source_pattern("extra.conf", "/etc/hypr/hyprland.conf", None), "/etc/hypr/extra.conf");
    assert_eq!(Parser::source_pattern("/abs/x.conf", "/etc/hypr/hyprland.conf", None), "/abs/x.conf");
    assert_eq!(Parser::source_pattern("~/k.conf", "/etc/hypr/hyprland.conf", Some("/home/u")), "/home/u/k.conf");
    assert_eq!(Parser::source_pattern("conf.d/*.conf", "hyprland.conf", None), "conf.d/*.conf");
}

#[test]
fn source_depth_and_matches_warn() {
    let mut p = Parser::new();
    p.begin_file("a.conf");
    assert!(!p.source_too_deep("a.conf", 3, 15));
    assert!(p.source_too_deep("a.conf", 3, 16));
    p.sources_found("a.conf", 4, "x/*.conf", 0);
    p.sources_found("a.conf", 5, "y.conf", 1);
    let r = p.finish();
    assert_eq!(r.warnings, vec!["a.conf:3: too many nested source levels", "a.conf:4: source matches nothing: x/*.conf"]);
}

#[test]
fn location_names_only_the_file() {
    let p = parse_alone("\nbind = SUPER, Q, killactive,\n", "/tmp/dir/hyprland.conf");
    assert_eq!(p.binds[0].location(), "hyprland.conf:2");
    assert_eq!(p.binds[0].combo(), "SUPER+Q");
}

#[test]
fn names_longer_in_bytes_are_replaced_first() {
    // "ñ" takes two bytes and "b" one: `$ñ` is replaced first, and the `$b`
    // it leaves is replaced after it.
    let text = "$ñ = $b\n$b = X\nbind = SUPER, Q, exec, $ñ\n";
    let p = parse_alone(text, "/tmp/hyprland.conf");
    assert_eq!(p.binds.len(), 1);
    assert_eq!(p.binds[0].arg, "X");
}

#[test]
fn byte_length_counts_each_width() {
    let v: Vec<char> = "añ€😀".chars().collect();
    assert_eq!(bindanalyzer::text::utf8_len_of(&v), 10);
    assert_eq!(bindanalyzer::text::utf8_len_of(&Vec::new()), 0);
}
