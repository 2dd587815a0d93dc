//! What `hyprctl binds -j` reports, and how each entry becomes a [`Bind`].
//!
//! Running `hyprctl` and decoding its JSON happen outside the library; this module
//! turns the decoded entries into binds.

use vstd::prelude::*;
use crate::model::{no_flags, BindFlags, BindView, Bind, KeyView, Key, ModMask, Origin, strings_view};
use crate::text::{chars_of, push_all, string_of};

verus! {

/// Why the binds Hyprland has loaded could not be read.
#[derive(Debug)]
pub enum LiveError {
    /// Not inside a Hyprland session (`HYPRLAND_INSTANCE_SIGNATURE` unset).
    NotRunning,
    /// `hyprctl` could not be run; holds the system's reason.
    Exec(String),
    /// `hyprctl` answered with an error; holds what it wrote on stderr.
    Failed(String),
    /// The JSON of `hyprctl` could not be decoded; holds the decoder's reason.
    Json(String),
}

/// The text of an error.
pub open spec fn live_error_text(e: LiveError) -> Seq<char> {
    match e {
        LiveError::NotRunning => "Hyprland no está en ejecución (HYPRLAND_INSTANCE_SIGNATURE no definida)"@,
        LiveError::Exec(e) => "no se pudo ejecutar hyprctl: "@ + e@,
        LiveError::Failed(e) => "hyprctl devolvió un error: "@ + e@,
        LiveError::Json(e) => "JSON de hyprctl no válido: "@ + e@,
    }
}

impl LiveError {
    /// The text of the error.
    pub fn message(&self) -> (r: String)
        ensures
            r@ == live_error_text(*self),
            r@ == match self {
                LiveError::NotRunning => "Hyprland no está en ejecución (HYPRLAND_INSTANCE_SIGNATURE no definida)"@,
                LiveError::Exec(e) => "no se pudo ejecutar hyprctl: "@ + e@,
                LiveError::Failed(e) => "hyprctl devolvió un error: "@ + e@,
                LiveError::Json(e) => "JSON de hyprctl no válido: "@ + e@,
            },
    {
        match self {
            LiveError::NotRunning => {
                let v = chars_of("Hyprland no está en ejecución (HYPRLAND_INSTANCE_SIGNATURE no definida)");
                string_of(&v)
            },
            LiveError::Exec(e) => with_prefix("no se pudo ejecutar hyprctl: ", e),
            LiveError::Failed(e) => with_prefix("hyprctl devolvió un error: ", e),
            LiveError::Json(e) => with_prefix("JSON de hyprctl no válido: ", e),
        }
    }

    /// Whether this is [`LiveError::NotRunning`].
    pub fn is_not_running(&self) -> (r: bool)
        ensures
            r == (self is NotRunning),
    {
        match self {
            LiveError::NotRunning => true,
            _ => false,
        }
    }
}

fn with_prefix(prefix: &str, e: &String) -> (r: String)
    ensures
        r@ == prefix@ + e@,
{
    let mut v = chars_of(prefix);
    let w = chars_of(e.as_str());
    push_all(&mut v, &w);
    string_of(&v)
}

/// One entry of `hyprctl binds -j`, the fields this program reads. A field the JSON
/// leaves out holds its default: `false`, `0` or empty.
pub struct RawBind {
    pub locked: bool,
    pub mouse: bool,
    pub release: bool,
    pub repeat: bool,
    /// `longPress` in the JSON.
    pub long_press: bool,
    pub non_consuming: bool,
    pub has_description: bool,
    pub modmask: u32,
    pub submap: String,
    pub key: String,
    pub keycode: u32,
    pub catch_all: bool,
    pub description: String,
    pub dispatcher: String,
    pub arg: String,
}

/// The bind an entry of `hyprctl` stands for.
pub open spec fn raw_bind_view(r: RawBind) -> BindView {
    BindView {
        mods: r.modmask,
        key: if r.catch_all {
            KeyView::CatchAll
        } else if r.keycode != 0 {
            KeyView::Code(r.keycode)
        } else {
            KeyView::Sym(r.key@)
        },
        dispatcher: r.dispatcher@,
        arg: r.arg@,
        submap: r.submap@,
        flags: BindFlags {
            locked: r.locked,
            release: r.release,
            long_press: r.long_press,
            repeat: r.repeat,
            non_consuming: r.non_consuming,
            mouse: r.mouse,
            description: r.has_description,
            ..no_flags()
        },
        description: r.description@,
        tags: seq![],
        source: None,
        origin: Origin::Live,
    }
}

/// The bind an entry of `hyprctl` stands for: no tags, no source, origin `Live`.
pub fn convert(r: RawBind) -> (b: Bind)
    ensures
        b@ == raw_bind_view(r),
        b.mods.0 == r.modmask,
        b.dispatcher@ == r.dispatcher@,
        b.arg@ == r.arg@,
        b.submap@ == r.submap@,
        b.description@ == r.description@,
        b.key@ == (if r.catch_all {
            KeyView::CatchAll
        } else if r.keycode != 0 {
            KeyView::Code(r.keycode)
        } else {
            KeyView::Sym(r.key@)
        }),
        b.flags == (BindFlags {
            locked: r.locked,
            release: r.release,
            long_press: r.long_press,
            repeat: r.repeat,
            non_consuming: r.non_consuming,
            mouse: r.mouse,
            description: r.has_description,
            ..no_flags()
        }),
        b.tags@.len() == 0,
        b.source is None,
        b.origin == Origin::Live,
{
    let key = if r.catch_all {
        Key::CatchAll
    } else if r.keycode != 0 {
        Key::Code(r.keycode)
    } else {
        Key::Sym(r.key)
    };
    let mut flags = BindFlags::default();
    flags.locked = r.locked;
    flags.release = r.release;
    flags.long_press = r.long_press;
    flags.repeat = r.repeat;
    flags.non_consuming = r.non_consuming;
    flags.mouse = r.mouse;
    flags.description = r.has_description;
    let b = Bind {
        mods: ModMask(r.modmask),
        key: key,
        dispatcher: r.dispatcher,
        arg: r.arg,
        submap: r.submap,
        flags: flags,
        description: r.description,
        tags: Vec::new(),
        source: None,
        origin: Origin::Live,
    };
    proof {
        assert(strings_view(b.tags@) =~= Seq::<Seq<char>>::empty());
    }
    b
}

/// A bind converted from an entry of `hyprctl` keeps what the entry reports: the
/// modifiers, the dispatcher, the argument, the submap and the description; the key
/// is the catch-all, the keycode or the key name, in that order of precedence; it
/// has no tags and no source, and it comes from `hyprctl`.
pub proof fn lemma_converted_keeps_entry(raw: Seq<RawBind>, out: Seq<Bind>, k: int)
    requires
        out.map_values(|b: Bind| b@) == raw.map_values(|x: RawBind| raw_bind_view(x)),
        0 <= k < raw.len(),
    ensures
        out.len() == raw.len(),
        out[k].mods.0 == raw[k].modmask,
        out[k].dispatcher@ == raw[k].dispatcher@,
        out[k].arg@ == raw[k].arg@,
        out[k].submap@ == raw[k].submap@,
        out[k].description@ == raw[k].description@,
        out[k]@.key == (if raw[k].catch_all {
            KeyView::CatchAll
        } else if raw[k].keycode != 0 {
            KeyView::Code(raw[k].keycode)
        } else {
            KeyView::Sym(raw[k].key@)
        }),
        out[k]@.tags.len() == 0,
        out[k].source is None,
        out[k].origin == Origin::Live,
{
    let ov = out.map_values(|b: Bind| b@);
    let rv = raw.map_values(|x: RawBind| raw_bind_view(x));
    assert(ov.len() == out.len());
    assert(rv.len() == raw.len());
    assert(ov[k] == out[k]@);
    assert(rv[k] == raw_bind_view(raw[k]));
    let b = out[k];
    assert(b@ == raw_bind_view(raw[k]));
    assert(b.source is None) by {
        if b.source is Some {
            assert(b@.source is Some);
        }
    }
}

/// Every entry converted, in order.
pub fn convert_all(raw: Vec<RawBind>) -> (r: Vec<Bind>)
    ensures
        r@.map_values(|b: Bind| b@) == raw@.map_values(|x: RawBind| raw_bind_view(x)),
{
    let ghost all = raw@.map_values(|x: RawBind| raw_bind_view(x));
    let mut out: Vec<Bind> = Vec::new();
    let mut rest = raw;
    proof {
        assert(all =~= out@.map_values(|b: Bind| b@) + rest@.map_values(|x: RawBind| raw_bind_view(x)));
    }
    while rest.len() > 0
        invariant
            all == out@.map_values(|b: Bind| b@) + rest@.map_values(|x: RawBind| raw_bind_view(x)),
        decreases rest.len(),
    {
        let ghost before_out = out@.map_values(|b: Bind| b@);
        let ghost before_rest = rest@.map_values(|x: RawBind| raw_bind_view(x));
        let x = rest.remove(0);
        let b = convert(x);
        out.push(b);
        proof {
            assert(out@.map_values(|b: Bind| b@) =~= before_out.push(b@));
            assert(rest@.map_values(|x: RawBind| raw_bind_view(x)) =~= before_rest.drop_first());
            assert(all =~= out@.map_values(|b: Bind| b@) + rest@.map_values(|x: RawBind| raw_bind_view(x)));
        }
    }
    proof {
        assert(all =~= out@.map_values(|b: Bind| b@));
    }
    out
}

} // verus!
