use bindanalyzer::config::{parse_alone, ConfigError};
use bindanalyzer::hyprctl::{convert_all, LiveError, RawBind};
use bindanalyzer::model::{Bind, Origin};
use bindanalyzer::snapshot::{build, load, merge, LiveStatus, LoadOptions};

fn raw(modmask: u32, key: &str, keycode: u32, dispatcher: &str, arg: &str) -> RawBind {
    RawBind {
        locked: false,
        mouse: false,
        release: false,
        repeat: false,
        long_press: false,
        non_consuming: false,
        has_description: false,
        modmask,
        submap: String::new(),
        key: key.to_string(),
        keycode,
        catch_all: false,
        description: String::new(),
        dispatcher: dispatcher.to_string(),
        arg: arg.to_string(),
    }
}

fn live() -> Vec<Bind> {
    convert_all(vec![
        raw(64, "Q", 0, "killactive", ""),
        raw(64, "", 36, "exec", "foot"),
        raw(64, "W", 0, "exec", "plugin"),
    ])
}

#[test]
fn merge_marks_loaded_missing_and_live_only() {
    let parsed = parse_alone(
        "#TAGS: a\nbind = SUPER, Q, killactive,\nbind = SUPER, 36, exec, foot\nbind = SUPER, N, exec, nuevo\n",
        "x.conf",
    );
    let s = build("x.conf", parsed, Some(Ok(live())));
    assert_eq!(s.live, LiveStatus::Answered);
    assert_eq!(s.binds.len(), 4);
    assert_eq!(s.binds[0].origin, Origin::Both);
    assert_eq!(s.binds[1].origin, Origin::Both);
    assert_eq!(s.binds[2].origin, Origin::Config);
    assert_eq!(s.binds[3].origin, Origin::Live);
    assert_eq!(s.not_loaded_count(), 1);
    assert_eq!(s.live_only_count(), 1);
    assert_eq!(s.all_tags(), vec!["a"]);
    assert!(s.has_untagged());
}

#[test]
fn without_hyprland_everything_is_config() {
    let parsed = parse_alone("bind = SUPER, Q, killactive,\n", "x.conf");
    let s = build("x.conf", parsed, Some(Err(LiveError::NotRunning)));
    assert_eq!(s.live, LiveStatus::NotRunning);
    assert_eq!(s.not_loaded_count(), 0);
    assert!(s.warnings.is_empty());
}

#[test]
fn hyprctl_failure_becomes_a_warning() {
    let parsed = parse_alone("bind = SUPER, Q, killactive,\n", "x.conf");
    let s = build("x.conf", parsed, Some(Err(LiveError::Failed("boom".into()))));
    assert_eq!(s.live, LiveStatus::Error("hyprctl devolvió un error: boom".into()));
    assert_eq!(s.warnings, vec!["hyprctl: hyprctl devolvió un error: boom"]);
    assert_eq!(s.binds[0].origin, Origin::Config);
    let d = build("x.conf", parse_alone("", "x.conf"), None);
    assert_eq!(d.live, LiveStatus::Disabled);
    assert_eq!(d.live_only_count(), 0);
}

#[test]
fn merge_keeps_counts_per_identity() {
    let file = parse_alone("bind = SUPER, Q, a,\nbind = SUPER, Q, b,\nbind = SUPER, W, c,\n", "m.conf").binds;
    let loaded = convert_all(vec![raw(64, "q", 0, "x", ""), raw(64, "E", 0, "y", ""), raw(64, "D", 0, "z", "")]);
    let r = merge(file, loaded);
    assert_eq!(r.len(), 5);
    assert_eq!(r[0].origin, Origin::Both);
    assert_eq!(r[1].origin, Origin::Config);
    assert_eq!(r[2].origin, Origin::Config);
    assert_eq!(r[3].dispatcher, "z");
    assert_eq!(r[4].dispatcher, "y");
    assert!(r[3..].iter().all(|b| b.origin == Origin::Live));
}

#[test]
fn paired_bind_takes_the_loaded_description() {
    let file = parse_alone("bind = SUPER, Q, killactive,\n", "d.conf").binds;
    let mut l = raw(64, "Q", 0, "killactive", "");
    l.description = "close".into();
    let r = merge(file, convert_all(vec![l]));
    assert_eq!(r.len(), 1);
    assert_eq!(r[0].description, "close");
    assert_eq!(r[0].origin, Origin::Both);
}

#[test]
fn tags_submaps_and_counts() {
    let parsed = parse_alone(
        "#TAGS: b a\nbind = SUPER, Q, x,\nsubmap = zed\nbind = , Q, y,\nsubmap = alpha\n#TAGS: a c\nbind = , W, z,\n",
        "s.conf",
    );
    let s = build("s.conf", parsed, None);
    assert_eq!(s.all_tags(), vec!["a", "b", "c"]);
    assert!(!s.has_untagged());
    assert_eq!(s.submaps(), vec!["", "alpha", "zed"]);
    assert_eq!(s.not_loaded_count(), 0);
}

#[test]
fn load_combines_what_was_read() {
    let opts = LoadOptions { config: "x.conf".into(), use_live: false };
    let s = load(&opts, Ok(parse_alone("bind = SUPER, Q, killactive,\n", "x.conf")), Some(Ok(live()))).unwrap();
    assert_eq!(s.live, LiveStatus::Disabled);
    assert_eq!(s.binds.len(), 1);
    assert_eq!(s.config_path, "x.conf");
    let opts = LoadOptions { config: "x.conf".into(), use_live: true };
    let s = load(&opts, Ok(parse_alone("bind = SUPER, Q, killactive,\n", "x.conf")), Some(Ok(live()))).unwrap();
    assert_eq!(s.live, LiveStatus::Answered);
    assert_eq!(s.binds.len(), 3);
    match load(&opts, Err(ConfigError::Read("x.conf".into(), "gone".into())), None) {
        Err(e) => assert_eq!(e.message(), "cannot read x.conf: gone"),
        Ok(_) => panic!("a read error must stay an error"),
    }
}
