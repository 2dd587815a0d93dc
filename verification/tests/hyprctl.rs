use bindanalyzer::hyprctl::{convert, convert_all, LiveError, RawBind};
use bindanalyzer::model::{Key, ModMask, Origin};

fn raw(modmask: u32, submap: &str, key: &str, keycode: u32, catch_all: bool, dispatcher: &str, arg: &str) -> RawBind {
    RawBind {
        locked: false,
        mouse: false,
        release: false,
        repeat: false,
        long_press: false,
        non_consuming: false,
        has_description: false,
        modmask,
        submap: submap.to_string(),
        key: key.to_string(),
        keycode,
        catch_all,
        description: String::new(),
        dispatcher: dispatcher.to_string(),
        arg: arg.to_string(),
    }
}

/// The entries of `hyprctl binds -j` as decoded by the program around the library.
#[test]
fn parses_hyprctl_json() {
    let mut third = raw(65, "resize", "", 0, true, "submap", "reset");
    third.repeat = true;
    let entries = vec![
        raw(68, "", "0", 0, false, "exec", "~/x.sh"),
        raw(64, "", "", 36, false, "exec", "footclient"),
        third,
    ];
    let b = convert_all(entries);
    assert_eq!(b.len(), 3);
    assert_eq!(b[0].mods, ModMask::SUPER() | ModMask::CTRL());
    assert_eq!(b[0].key, Key::Sym("0".into()));
    assert_eq!(b[1].key, Key::Code(36));
    assert_eq!(b[2].key, Key::CatchAll);
    assert!(b[2].flags.repeat);
    assert_eq!(b[2].submap, "resize");
    assert_eq!(b[0].origin, Origin::Live);
}

#[test]
fn converted_binds_have_no_tags_nor_source() {
    let mut r = raw(64, "", "Q", 0, false, "killactive", "");
    r.has_description = true;
    r.description = "close".to_string();
    r.locked = true;
    let b = convert(r);
    assert!(b.tags.is_empty());
    assert!(b.source.is_none());
    assert!(b.flags.description && b.flags.locked && !b.flags.drag);
    assert_eq!(b.description, "close");
    assert_eq!(b.location(), "hyprctl");
    assert_eq!(b.combo(), "SUPER+Q");
    assert_eq!(b.action(), "killactive");
}

#[test]
fn live_error_messages() {
    assert!(LiveError::NotRunning.is_not_running());
    assert!(!LiveError::Json("x".into()).is_not_running());
    assert_eq!(LiveError::Exec("boom".into()).message(), "no se pudo ejecutar hyprctl: boom");
    assert_eq!(LiveError::Failed("bad".into()).message(), "hyprctl devolvió un error: bad");
    assert_eq!(LiveError::Json("eof".into()).message(), "JSON de hyprctl no válido: eof");
    assert_eq!(
        LiveError::NotRunning.message(),
        "Hyprland no está en ejecución (HYPRLAND_INSTANCE_SIGNATURE no definida)"
    );
}
