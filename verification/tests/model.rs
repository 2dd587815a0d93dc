use bindanalyzer::model::{keycode_to_sym, BindFlags, Key, ModMask};

#[test]
fn modmask_matches_hyprland_bits() {
    let (m, unk) = ModMask::from_names("SUPER CTRL");
    assert_eq!(m.bits(), 68);
    assert!(unk.is_empty());
    assert_eq!(ModMask::from_names("$mainMod SHIFT").1, vec!["$mainMod"]);
    assert_eq!(ModMask::from_names("super+alt").0, ModMask::SUPER() | ModMask::ALT());
    assert_eq!(ModMask(65).label(), "SUPER+SHIFT");
    assert_eq!(ModMask::NONE().label(), "");
}

#[test]
fn key_parsing_follows_hyprland_rules() {
    assert_eq!(Key::parse("Q"), Key::Sym("Q".into()));
    assert_eq!(Key::parse("0"), Key::Sym("0".into()));
    assert_eq!(Key::parse("36"), Key::Code(36));
    assert_eq!(Key::parse("code:65"), Key::Code(65));
    assert_eq!(Key::parse("catchall"), Key::CatchAll);
    assert_eq!(Key::Code(36).display(), "Return [36]");
    assert_eq!(Key::Code(36).sym_name().as_deref(), Some("return"));
    assert_eq!(Key::Code(999).display(), "code:999");
}

#[test]
fn flags_roundtrip() {
    let (f, unk) = BindFlags::from_letters("elx");
    assert!(f.repeat && f.locked && !f.mouse);
    assert_eq!(unk, vec!['x']);
    assert_eq!(f.letters(), "le");
}

#[test]
fn every_flag_reads_back_from_its_letters() {
    let (all, unk) = BindFlags::from_letters("lroenmtisdpcg");
    assert!(unk.is_empty());
    assert_eq!(all.letters(), "lroenmtisdpcg");
    let (back, unk2) = BindFlags::from_letters(&all.letters());
    assert!(unk2.is_empty());
    assert_eq!(back.letters(), all.letters());
    assert_eq!(all.describe().len(), 13);
    assert_eq!(BindFlags::from_letters("").0.letters(), "");
}

#[test]
fn flag_descriptions_follow_the_letters() {
    let (f, _) = BindFlags::from_letters("dm");
    assert_eq!(f.describe(), vec!["mouse", "description"]);
}

#[test]
fn keycode_normal_form_reads_back() {
    for c in [10u32, 36, 65, 999, 4294967295] {
        assert_eq!(Key::parse(&Key::Code(c).norm()), Key::Code(c));
    }
    assert_eq!(Key::parse(&Key::CatchAll.norm()), Key::CatchAll);
    assert_eq!(Key::Code(65).norm(), "code:65");
}

#[test]
fn key_parse_edge_cases() {
    assert_eq!(Key::parse("  CatchAll "), Key::CatchAll);
    assert_eq!(Key::parse("9"), Key::Sym("9".into()));
    assert_eq!(Key::parse("10"), Key::Code(10));
    assert_eq!(Key::parse("code:x"), Key::Sym("code:x".into()));
    assert_eq!(Key::parse(" code: 12 "), Key::Code(12));
    assert_eq!(Key::Sym("XF86AudioMute".into()).sym_name().as_deref(), Some("xf86audiomute"));
    assert_eq!(Key::CatchAll.sym_name(), None);
    assert_eq!(Key::Sym("Return".into()).norm(), "return");
}

#[test]
fn keycode_table() {
    assert_eq!(keycode_to_sym(9), Some("Escape"));
    assert_eq!(keycode_to_sym(65), Some("space"));
    assert_eq!(keycode_to_sym(8), None);
    assert_eq!(keycode_to_sym(1000), None);
}

#[test]
fn modifier_names_and_aliases() {
    assert_eq!(ModMask::parse_one("control"), Some(ModMask::CTRL()));
    assert_eq!(ModMask::parse_one("Win"), Some(ModMask::SUPER()));
    assert_eq!(ModMask::parse_one("mod1"), Some(ModMask::ALT()));
    assert_eq!(ModMask::parse_one("hyper"), None);
    assert_eq!(ModMask(255).names(), vec!["SUPER", "CTRL", "ALT", "SHIFT", "CAPS", "MOD2", "MOD3", "MOD5"]);
    assert!(ModMask(68).contains(ModMask::CTRL()));
    assert!(!ModMask(68).contains(ModMask::SHIFT()));
    assert!(ModMask::NONE().is_empty());
    let (m, unk) = ModMask::from_names("  ++ ");
    assert_eq!(m, ModMask::NONE());
    assert!(unk.is_empty());
}

#[test]
fn labels_read_back_as_their_masks() {
    for m in 0u32..256 {
        let (back, unk) = ModMask::from_names(&ModMask(m).label());
        assert_eq!(back, ModMask(m));
        assert!(unk.is_empty());
    }
}
