//! The interface's texts, in English and in Spanish.
//!
//! One structure with every text and one table per language. Templates with
//! `{}` are filled with [`fill`].

use vstd::prelude::*;
use crate::model::strings_view;
use crate::text::{chars_of, lowercase, push_all, starts_with, starts_with_lit, string_of, to_lowercase_of};

verus! {

#[derive(Clone, Copy, Debug, PartialEq, Eq, Structural)]
pub enum Lang {
    En,
    Es,
}

/// The language a list of locale values picks (`LC_ALL`, `LC_MESSAGES`, `LANG`, in
/// that order): the first one that is set and not empty decides; Spanish when it
/// starts with `es` in lower case, English otherwise and when none decides.
pub open spec fn locale_lang(vals: Seq<Option<Seq<char>>>) -> Lang
    decreases vals.len(),
{
    if vals.len() == 0 {
        Lang::En
    } else {
        match vals[0] {
            Some(v) if v.len() > 0 => if starts_with(lowercase(v), "es"@) {
                Lang::Es
            } else {
                Lang::En
            },
            _ => locale_lang(vals.drop_first()),
        }
    }
}

impl Lang {
    /// The language of the locale values, read in order.
    pub fn from_locale(vals: &Vec<Option<String>>) -> (r: Lang)
        ensures
            r == locale_lang(vals@.map_values(|o: Option<String>| match o {
                Some(s) => Some(s@),
                None => None,
            })),
    {
        let ghost vs = vals@.map_values(|o: Option<String>| match o {
            Some(s) => Some(s@),
            None => None,
        });
        let mut i: usize = 0;
        proof {
            assert(vs.skip(0) =~= vs);
        }
        while i < vals.len()
            invariant
                i <= vals.len(),
                vs == vals@.map_values(|o: Option<String>| match o {
                    Some(s) => Some(s@),
                    None => None,
                }),
                locale_lang(vs) == locale_lang(vs.skip(i as int)),
            decreases vals.len() - i,
        {
            proof {
                assert(vs.skip(i as int).drop_first() =~= vs.skip(i + 1));
                assert(vs.skip(i as int)[0] == vs[i as int]);
            }
            match &vals[i] {
                Some(v) => {
                    let cs = chars_of(v.as_str());
                    if cs.len() > 0 {
                        let low = to_lowercase_of(&cs);
                        if starts_with_lit(&low, "es") {
                            return Lang::Es;
                        }
                        return Lang::En;
                    }
                },
                None => {},
            }
            i = i + 1;
        }
        Lang::En
    }

    /// The table of texts of the language.
    pub fn texts(self) -> (t: Texts)
        ensures
            t.lang == self,
            self == Lang::En ==> is_english(t),
            self == Lang::Es ==> is_spanish(t),
    {
        match self {
            Lang::En => english(),
            Lang::Es => spanish(),
        }
    }
}

/// The template's `{}` replaced by the arguments, left to right: the k-th `{}` of
/// the template by the k-th argument. The text of an argument is not looked at
/// again; arguments beyond the `{}` are ignored, and `{}` beyond the arguments stay.
pub open spec fn fill_spec(template: Seq<char>, args: Seq<Seq<char>>) -> Seq<char>
    decreases template.len(),
{
    if template.len() == 0 {
        template
    } else if args.len() > 0 && template.len() >= 2 && template[0] == '{' && template[1] == '}' {
        args[0] + fill_spec(template.skip(2), args.drop_first())
    } else {
        seq![template[0]] + fill_spec(template.drop_first(), args)
    }
}

/// Replaces the `{}` of a template by the arguments, in order.
pub fn fill(template: &str, args: &[String]) -> (r: String)
    ensures
        r@ == fill_spec(template@, strings_view(args@)),
{
    let t = chars_of(template);
    let ghost av = strings_view(args@);
    let mut out: Vec<char> = Vec::new();
    let mut i: usize = 0;
    let mut k: usize = 0;
    proof {
        assert(t@.skip(0) =~= t@);
        assert(av.skip(0) =~= av);
        assert(out@ + fill_spec(t@, av) =~= fill_spec(t@, av));
    }
    while i < t.len()
        invariant
            i <= t.len(),
            k <= args.len(),
            av == strings_view(args@),
            fill_spec(template@, av) == out@ + fill_spec(t@.skip(i as int), av.skip(k as int)),
            t@ == template@,
        decreases t.len() - i,
    {
        let ghost rest = t@.skip(i as int);
        let ghost ra = av.skip(k as int);
        proof {
            assert(rest[0] == t@[i as int]);
        }
        if k < args.len() && i + 1 < t.len() && t[i] == '{' && t[i + 1] == '}' {
            let a = chars_of(args[k].as_str());
            push_all(&mut out, &a);
            proof {
                assert(rest[1] == t@[i + 1]);
                assert(ra[0] == a@);
                assert(rest.skip(2) =~= t@.skip(i + 2));
                assert(ra.drop_first() =~= av.skip(k + 1));
                assert(forall|x: Seq<char>, y: Seq<char>, z: Seq<char>| #![auto] (x + y) + z =~= x + (y + z));
            }
            i = i + 2;
            k = k + 1;
        } else {
            out.push(t[i]);
            proof {
                assert(rest.drop_first() =~= t@.skip(i + 1));
                assert(forall|x: Seq<char>, y: Seq<char>, z: Seq<char>| #![auto] (x + y) + z =~= x + (y + z));
            }
            i = i + 1;
        }
    }
    proof {
        assert(t@.skip(i as int) =~= Seq::<char>::empty());
        assert(out@ + Seq::<char>::empty() =~= out@);
    }
    string_of(&out)
}

/// The English table.
pub open spec fn is_english(t: Texts) -> bool {
    &&& t.view_cheatsheet@ == "Cheatsheet"@
    &&& t.view_search@ == "Search"@
    &&& t.view_free_keys@ == "Free keys"@
    &&& t.view_free_combos@ == "Free combos"@
    &&& t.view_conflicts@ == "Conflicts"@
    &&& t.untagged@ == "(untagged)"@
    &&& t.no_modifier@ == "no modifier"@
    &&& t.global_submap@ == "global"@
    &&& t.status_reloaded@ == "Reloaded"@
    &&& t.status_reload_error@ == "Reload error: {}"@
    &&& t.status_file_changed@ == "Config changed, reloaded"@
    &&& t.header_binds@ == " {}  {} binds"@
    &&& t.header_not_loaded@ == "  {} not loaded"@
    &&& t.header_live_only@ == "  {} only in hyprctl"@
    &&& t.header_warnings@ == "  {} warnings"@
    &&& t.live_ok@ == "  hyprctl ✓"@
    &&& t.live_disabled@ == "  no hyprctl"@
    &&& t.live_not_running@ == "  Hyprland not running"@
    &&& t.live_error@ == "  hyprctl error"@
    &&& t.col_mods@ == "Mods"@
    &&& t.col_key@ == "Key"@
    &&& t.col_submap@ == "Submap"@
    &&& t.col_action@ == "Action"@
    &&& t.col_description@ == "Description"@
    &&& t.col_tags@ == "Tags"@
    &&& t.col_source@ == "Source"@
    &&& t.title_search@ == " {} · {} results · field: {} "@
    &&& t.title_conflicts@ == " {} · {} repeated combos "@
    &&& t.title_table@ == " {} · {} of {} "@
    &&& t.empty_type_to_search@ == "Type to search"@
    &&& t.empty_no_results@ == "No results"@
    &&& t.empty_no_conflicts@ == "No repeated combos"@
    &&& t.empty_no_visible@ == "No bind visible with the active tags"@
    &&& t.field_all@ == "all"@
    &&& t.field_app@ == "app"@
    &&& t.field_key@ == "key"@
    &&& t.group_letters@ == "Letters"@
    &&& t.group_digits@ == "Digits"@
    &&& t.group_function@ == "Function"@
    &&& t.group_navigation@ == "Navigation"@
    &&& t.group_special@ == "Special"@
    &&& t.group_symbols@ == "Symbols"@
    &&& t.tags_title@ == " Tags {}/{} [t] "@
    &&& t.free_submap@ == " Submap: "@
    &&& t.free_modifiers@ == "   Modifiers: "@
    &&& t.legend_green@ == "green"@
    &&& t.legend_free@ == " free · "@
    &&& t.legend_gray@ == "gray strikethrough"@
    &&& t.legend_used@ == " used"@
    &&& t.free_used_with_combo@ == " Used with this combination:"@
    &&& t.free_other_keys@ == " Other used keys:"@
    &&& t.free_title@ == " Free keys · {} free of {} "@
    &&& t.combos_key@ == " Key: "@
    &&& t.combos_prompt@ == " Type a key (q, F5, Return, space, mouse:272...) and press Enter."@
    &&& t.combos_free@ == "free"@
    &&& t.combos_used@ == "used  "@
    &&& t.combos_note@ == " Lists the combinations already used in this submap plus the standard ones around SUPER."@
    &&& t.combos_title@ == " Free combos "@
    &&& t.combos_title_key@ == " Free combos for {} · {} free of {} "@
    &&& t.input_key_label@ == " Key: "@
    &&& t.input_key_hint@ == "   Enter done · Esc cancel"@
    &&& t.input_search_hint@ == "   Tab field: {}  · Enter done · Esc leave · Ctrl-u clear"@
    &&& t.hint_tags@ == " j/k move · space toggle · a all · n none · o only this · Esc back"@
    &&& t.hint_cheatsheet@ == " / search · f free keys · l combos for a key · c conflicts · t tags · m compact · Enter detail · r reload · ? help · q quit"@
    &&& t.hint_search@ == " i edit · Tab field ({}) · Enter detail · Esc cheatsheet · q quit"@
    &&& t.hint_free_keys@ == " ←/→ or n/p change combination · s submap · j/k scroll · l combos for a key · Esc cheatsheet"@
    &&& t.hint_free_combos@ == " l another key · s submap · Esc cheatsheet · q quit"@
    &&& t.hint_conflicts@ == " Enter detail · Esc cheatsheet · q quit"@
    &&& t.detail_title@ == " Detail · Esc closes "@
    &&& t.detail_combo@ == "Combination"@
    &&& t.detail_submap@ == "Submap"@
    &&& t.detail_dispatcher@ == "Dispatcher"@
    &&& t.detail_arg@ == "Argument"@
    &&& t.detail_flags@ == "Flags"@
    &&& t.detail_description@ == "Description"@
    &&& t.detail_tags@ == "Tags"@
    &&& t.detail_state@ == "State"@
    &&& t.detail_file@ == "File"@
    &&& t.flags_none@ == "none"@
    &&& t.state_loaded@ == "loaded in Hyprland"@
    &&& t.state_not_loaded@ == "in the file but NOT loaded (missing hyprctl reload?)"@
    &&& t.state_in_file@ == "in the file"@
    &&& t.state_live_only@ == "loaded but not in the file"@
    &&& t.help_title@ == " Help · any key closes "@
    &&& t.help_rows@ == seq![
        ("/", "search (Tab switches the field: all, app, key)"),
        ("f", "free keys for a modifier combination (←/→ or n/p changes it)"),
        ("l", "free combinations for a key"),
        ("c", "repeated combinations"),
        ("1 / Esc", "back to the cheatsheet"),
        ("t / Tab", "tags panel (space toggles, a all, n none, o only this)"),
        ("T", "show or hide the tags panel"),
        ("m", "compact mode (fewer columns)"),
        ("j/k ↑/↓", "move · g/G top/bottom · PgUp/PgDn jumps"),
        ("Enter", "detail of the selected bind"),
        ("r", "reload (also automatic when the file changes)"),
        ("q", "quit"),
        ("", ""),
        ("yellow", "bind in the file that Hyprland has not loaded"),
        ("gray", "loaded bind that is not in the file"),
        ("", ""),
        ("Key search", "type the combination: super shift t · super+t · f5"),
    ]
}

/// The Spanish table.
pub open spec fn is_spanish(t: Texts) -> bool {
    &&& t.view_cheatsheet@ == "Chuleta"@
    &&& t.view_search@ == "Buscar"@
    &&& t.view_free_keys@ == "Teclas libres"@
    &&& t.view_free_combos@ == "Combos libres"@
    &&& t.view_conflicts@ == "Conflictos"@
    &&& t.untagged@ == "(sin tag)"@
    &&& t.no_modifier@ == "sin modificador"@
    &&& t.global_submap@ == "global"@
    &&& t.status_reloaded@ == "Recargado"@
    &&& t.status_reload_error@ == "Error al recargar: {}"@
    &&& t.status_file_changed@ == "Config modificada, recargado"@
    &&& t.header_binds@ == " {}  {} binds"@
    &&& t.header_not_loaded@ == "  {} sin cargar"@
    &&& t.header_live_only@ == "  {} solo en hyprctl"@
    &&& t.header_warnings@ == "  {} avisos"@
    &&& t.live_ok@ == "  hyprctl ✓"@
    &&& t.live_disabled@ == "  sin hyprctl"@
    &&& t.live_not_running@ == "  Hyprland no activo"@
    &&& t.live_error@ == "  hyprctl error"@
    &&& t.col_mods@ == "Mods"@
    &&& t.col_key@ == "Tecla"@
    &&& t.col_submap@ == "Submap"@
    &&& t.col_action@ == "Acción"@
    &&& t.col_description@ == "Descripción"@
    &&& t.col_tags@ == "Tags"@
    &&& t.col_source@ == "Origen"@
    &&& t.title_search@ == " {} · {} resultados · campo: {} "@
    &&& t.title_conflicts@ == " {} · {} combinaciones repetidas "@
    &&& t.title_table@ == " {} · {} de {} "@
    &&& t.empty_type_to_search@ == "Escribe para buscar"@
    &&& t.empty_no_results@ == "Sin resultados"@
    &&& t.empty_no_conflicts@ == "Sin combinaciones repetidas"@
    &&& t.empty_no_visible@ == "Ningún bind visible con los tags activos"@
    &&& t.field_all@ == "todo"@
    &&& t.field_app@ == "aplicación"@
    &&& t.field_key@ == "tecla"@
    &&& t.group_letters@ == "Letras"@
    &&& t.group_digits@ == "Números"@
    &&& t.group_function@ == "Función"@
    &&& t.group_navigation@ == "Navegación"@
    &&& t.group_special@ == "Especiales"@
    &&& t.group_symbols@ == "Símbolos"@
    &&& t.tags_title@ == " Tags {}/{} [t] "@
    &&& t.free_submap@ == " Submap: "@
    &&& t.free_modifiers@ == "   Modificadores: "@
    &&& t.legend_green@ == "verde"@
    &&& t.legend_free@ == " libre · "@
    &&& t.legend_gray@ == "gris tachado"@
    &&& t.legend_used@ == " ocupada"@
    &&& t.free_used_with_combo@ == " Ocupadas con esta combinación:"@
    &&& t.free_other_keys@ == " Otras teclas ocupadas:"@
    &&& t.free_title@ == " Teclas libres · {} libres de {} "@
    &&& t.combos_key@ == " Tecla: "@
    &&& t.combos_prompt@ == " Escribe una tecla (q, F5, Return, space, mouse:272...) y pulsa Enter."@
    &&& t.combos_free@ == "libre"@
    &&& t.combos_used@ == "ocupada  "@
    &&& t.combos_note@ == " Se listan las combinaciones ya usadas en este submap y las estándar alrededor de SUPER."@
    &&& t.combos_title@ == " Combos libres "@
    &&& t.combos_title_key@ == " Combos libres para {} · {} libres de {} "@
    &&& t.input_key_label@ == " Tecla: "@
    &&& t.input_key_hint@ == "   Enter listo · Esc cancelar"@
    &&& t.input_search_hint@ == "   Tab campo: {}  · Enter listo · Esc salir · Ctrl-u borrar"@
    &&& t.hint_tags@ == " j/k mover · espacio alternar · a todos · n ninguno · o solo este · Esc volver"@
    &&& t.hint_cheatsheet@ == " / buscar · f teclas libres · l combos de una tecla · c conflictos · t tags · m compacto · Enter detalle · r recargar · ? ayuda · q salir"@
    &&& t.hint_search@ == " i editar · Tab campo ({}) · Enter detalle · Esc chuleta · q salir"@
    &&& t.hint_free_keys@ == " ←/→ o n/p cambiar combinación · s submap · j/k desplazar · l combos de una tecla · Esc chuleta"@
    &&& t.hint_free_combos@ == " l otra tecla · s submap · Esc chuleta · q salir"@
    &&& t.hint_conflicts@ == " Enter detalle · Esc chuleta · q salir"@
    &&& t.detail_title@ == " Detalle · Esc cierra "@
    &&& t.detail_combo@ == "Combinación"@
    &&& t.detail_submap@ == "Submap"@
    &&& t.detail_dispatcher@ == "Dispatcher"@
    &&& t.detail_arg@ == "Argumento"@
    &&& t.detail_flags@ == "Flags"@
    &&& t.detail_description@ == "Descripción"@
    &&& t.detail_tags@ == "Tags"@
    &&& t.detail_state@ == "Estado"@
    &&& t.detail_file@ == "Fichero"@
    &&& t.flags_none@ == "ninguno"@
    &&& t.state_loaded@ == "cargado en Hyprland"@
    &&& t.state_not_loaded@ == "en el fichero pero NO cargado (¿falta hyprctl reload?)"@
    &&& t.state_in_file@ == "en el fichero"@
    &&& t.state_live_only@ == "cargado pero no está en el fichero"@
    &&& t.help_title@ == " Ayuda · cualquier tecla cierra "@
    &&& t.help_rows@ == seq![
        ("/", "buscar (Tab cambia el campo: todo, aplicación, tecla)"),
        ("f", "teclas libres para una combinación de modificadores (←/→ o n/p cambia)"),
        ("l", "combinaciones libres para una tecla"),
        ("c", "combinaciones repetidas"),
        ("1 / Esc", "volver a la chuleta"),
        ("t / Tab", "ir al panel de tags (espacio alterna, a todos, n ninguno, o solo)"),
        ("T", "mostrar u ocultar el panel de tags"),
        ("m", "modo compacto (menos columnas)"),
        ("j/k ↑/↓", "moverse · g/G inicio/fin · PgUp/PgDn saltos"),
        ("Enter", "detalle del bind seleccionado"),
        ("r", "recargar (también automático al cambiar el fichero)"),
        ("q", "salir"),
        ("", ""),
        ("amarillo", "bind en el fichero que Hyprland no tiene cargado"),
        ("gris", "bind cargado que no está en el fichero"),
        ("", ""),
        ("Búsqueda por tecla", "escribe la combinación: super shift t · super+t · f5"),
    ]
}

/// Every text of the interface in one language.
pub struct Texts {
    /// The language of the table.
    pub lang: Lang,
    pub view_cheatsheet: &'static str,
    pub view_search: &'static str,
    pub view_free_keys: &'static str,
    pub view_free_combos: &'static str,
    pub view_conflicts: &'static str,
    pub untagged: &'static str,
    pub no_modifier: &'static str,
    pub global_submap: &'static str,
    pub status_reloaded: &'static str,
    pub status_reload_error: &'static str,
    pub status_file_changed: &'static str,
    pub header_binds: &'static str,
    pub header_not_loaded: &'static str,
    pub header_live_only: &'static str,
    pub header_warnings: &'static str,
    pub live_ok: &'static str,
    pub live_disabled: &'static str,
    pub live_not_running: &'static str,
    pub live_error: &'static str,
    pub col_mods: &'static str,
    pub col_key: &'static str,
    pub col_submap: &'static str,
    pub col_action: &'static str,
    pub col_description: &'static str,
    pub col_tags: &'static str,
    pub col_source: &'static str,
    pub title_search: &'static str,
    pub title_conflicts: &'static str,
    pub title_table: &'static str,
    pub empty_type_to_search: &'static str,
    pub empty_no_results: &'static str,
    pub empty_no_conflicts: &'static str,
    pub empty_no_visible: &'static str,
    pub field_all: &'static str,
    pub field_app: &'static str,
    pub field_key: &'static str,
    pub group_letters: &'static str,
    pub group_digits: &'static str,
    pub group_function: &'static str,
    pub group_navigation: &'static str,
    pub group_special: &'static str,
    pub group_symbols: &'static str,
    pub tags_title: &'static str,
    pub free_submap: &'static str,
    pub free_modifiers: &'static str,
    pub legend_green: &'static str,
    pub legend_free: &'static str,
    pub legend_gray: &'static str,
    pub legend_used: &'static str,
    pub free_used_with_combo: &'static str,
    pub free_other_keys: &'static str,
    pub free_title: &'static str,
    pub combos_key: &'static str,
    pub combos_prompt: &'static str,
    pub combos_free: &'static str,
    pub combos_used: &'static str,
    pub combos_note: &'static str,
    pub combos_title: &'static str,
    pub combos_title_key: &'static str,
    pub input_key_label: &'static str,
    pub input_key_hint: &'static str,
    pub input_search_hint: &'static str,
    pub hint_tags: &'static str,
    pub hint_cheatsheet: &'static str,
    pub hint_search: &'static str,
    pub hint_free_keys: &'static str,
    pub hint_free_combos: &'static str,
    pub hint_conflicts: &'static str,
    pub detail_title: &'static str,
    pub detail_combo: &'static str,
    pub detail_submap: &'static str,
    pub detail_dispatcher: &'static str,
    pub detail_arg: &'static str,
    pub detail_flags: &'static str,
    pub detail_description: &'static str,
    pub detail_tags: &'static str,
    pub detail_state: &'static str,
    pub detail_file: &'static str,
    pub flags_none: &'static str,
    pub state_loaded: &'static str,
    pub state_not_loaded: &'static str,
    pub state_in_file: &'static str,
    pub state_live_only: &'static str,
    pub help_title: &'static str,
    /// Key and meaning of each row of the help window.
    pub help_rows: Vec<(&'static str, &'static str)>,
}

/// The English table.
fn english() -> (t: Texts)
    ensures
        t.lang == Lang::En,
        is_english(t),
{
    Texts {
        lang: Lang::En,
        view_cheatsheet: "Cheatsheet",
        view_search: "Search",
        view_free_keys: "Free keys",
        view_free_combos: "Free combos",
        view_conflicts: "Conflicts",
        untagged: "(untagged)",
        no_modifier: "no modifier",
        global_submap: "global",
        status_reloaded: "Reloaded",
        status_reload_error: "Reload error: {}",
        status_file_changed: "Config changed, reloaded",
        header_binds: " {}  {} binds",
        header_not_loaded: "  {} not loaded",
        header_live_only: "  {} only in hyprctl",
        header_warnings: "  {} warnings",
        live_ok: "  hyprctl ✓",
        live_disabled: "  no hyprctl",
        live_not_running: "  Hyprland not running",
        live_error: "  hyprctl error",
        col_mods: "Mods",
        col_key: "Key",
        col_submap: "Submap",
        col_action: "Action",
        col_description: "Description",
        col_tags: "Tags",
        col_source: "Source",
        title_search: " {} · {} results · field: {} ",
        title_conflicts: " {} · {} repeated combos ",
        title_table: " {} · {} of {} ",
        empty_type_to_search: "Type to search",
        empty_no_results: "No results",
        empty_no_conflicts: "No repeated combos",
        empty_no_visible: "No bind visible with the active tags",
        field_all: "all",
        field_app: "app",
        field_key: "key",
        group_letters: "Letters",
        group_digits: "Digits",
        group_function: "Function",
        group_navigation: "Navigation",
        group_special: "Special",
        group_symbols: "Symbols",
        tags_title: " Tags {}/{} [t] ",
        free_submap: " Submap: ",
        free_modifiers: "   Modifiers: ",
        legend_green: "green",
        legend_free: " free · ",
        legend_gray: "gray strikethrough",
        legend_used: " used",
        free_used_with_combo: " Used with this combination:",
        free_other_keys: " Other used keys:",
        free_title: " Free keys · {} free of {} ",
        combos_key: " Key: ",
        combos_prompt: " Type a key (q, F5, Return, space, mouse:272...) and press Enter.",
        combos_free: "free",
        combos_used: "used  ",
        combos_note: " Lists the combinations already used in this submap plus the standard ones around SUPER.",
        combos_title: " Free combos ",
        combos_title_key: " Free combos for {} · {} free of {} ",
        input_key_label: " Key: ",
        input_key_hint: "   Enter done · Esc cancel",
        input_search_hint: "   Tab field: {}  · Enter done · Esc leave · Ctrl-u clear",
        hint_tags: " j/k move · space toggle · a all · n none · o only this · Esc back",
        hint_cheatsheet: " / search · f free keys · l combos for a key · c conflicts · t tags · m compact · Enter detail · r reload · ? help · q quit",
        hint_search: " i edit · Tab field ({}) · Enter detail · Esc cheatsheet · q quit",
        hint_free_keys: " ←/→ or n/p change combination · s submap · j/k scroll · l combos for a key · Esc cheatsheet",
        hint_free_combos: " l another key · s submap · Esc cheatsheet · q quit",
        hint_conflicts: " Enter detail · Esc cheatsheet · q quit",
        detail_title: " Detail · Esc closes ",
        detail_combo: "Combination",
        detail_submap: "Submap",
        detail_dispatcher: "Dispatcher",
        detail_arg: "Argument",
        detail_flags: "Flags",
        detail_description: "Description",
        detail_tags: "Tags",
        detail_state: "State",
        detail_file: "File",
        flags_none: "none",
        state_loaded: "loaded in Hyprland",
        state_not_loaded: "in the file but NOT loaded (missing hyprctl reload?)",
        state_in_file: "in the file",
        state_live_only: "loaded but not in the file",
        help_title: " Help · any key closes ",
        help_rows: vec![
            ("/", "search (Tab switches the field: all, app, key)"),
            ("f", "free keys for a modifier combination (←/→ or n/p changes it)"),
            ("l", "free combinations for a key"),
            ("c", "repeated combinations"),
            ("1 / Esc", "back to the cheatsheet"),
            ("t / Tab", "tags panel (space toggles, a all, n none, o only this)"),
            ("T", "show or hide the tags panel"),
            ("m", "compact mode (fewer columns)"),
            ("j/k ↑/↓", "move · g/G top/bottom · PgUp/PgDn jumps"),
            ("Enter", "detail of the selected bind"),
            ("r", "reload (also automatic when the file changes)"),
            ("q", "quit"),
            ("", ""),
            ("yellow", "bind in the file that Hyprland has not loaded"),
            ("gray", "loaded bind that is not in the file"),
            ("", ""),
            ("Key search", "type the combination: super shift t · super+t · f5"),
        ],
    }
}

/// The Spanish table.
fn spanish() -> (t: Texts)
    ensures
        t.lang == Lang::Es,
        is_spanish(t),
{
    Texts {
        lang: Lang::Es,
        view_cheatsheet: "Chuleta",
        view_search: "Buscar",
        view_free_keys: "Teclas libres",
        view_free_combos: "Combos libres",
        view_conflicts: "Conflictos",
        untagged: "(sin tag)",
        no_modifier: "sin modificador",
        global_submap: "global",
        status_reloaded: "Recargado",
        status_reload_error: "Error al recargar: {}",
        status_file_changed: "Config modificada, recargado",
        header_binds: " {}  {} binds",
        header_not_loaded: "  {} sin cargar",
        header_live_only: "  {} solo en hyprctl",
        header_warnings: "  {} avisos",
        live_ok: "  hyprctl ✓",
        live_disabled: "  sin hyprctl",
        live_not_running: "  Hyprland no activo",
        live_error: "  hyprctl error",
        col_mods: "Mods",
        col_key: "Tecla",
        col_submap: "Submap",
        col_action: "Acción",
        col_description: "Descripción",
        col_tags: "Tags",
        col_source: "Origen",
        title_search: " {} · {} resultados · campo: {} ",
        title_conflicts: " {} · {} combinaciones repetidas ",
        title_table: " {} · {} de {} ",
        empty_type_to_search: "Escribe para buscar",
        empty_no_results: "Sin resultados",
        empty_no_conflicts: "Sin combinaciones repetidas",
        empty_no_visible: "Ningún bind visible con los tags activos",
        field_all: "todo",
        field_app: "aplicación",
        field_key: "tecla",
        group_letters: "Letras",
        group_digits: "Números",
        group_function: "Función",
        group_navigation: "Navegación",
        group_special: "Especiales",
        group_symbols: "Símbolos",
        tags_title: " Tags {}/{} [t] ",
        free_submap: " Submap: ",
        free_modifiers: "   Modificadores: ",
        legend_green: "verde",
        legend_free: " libre · ",
        legend_gray: "gris tachado",
        legend_used: " ocupada",
        free_used_with_combo: " Ocupadas con esta combinación:",
        free_other_keys: " Otras teclas ocupadas:",
        free_title: " Teclas libres · {} libres de {} ",
        combos_key: " Tecla: ",
        combos_prompt: " Escribe una tecla (q, F5, Return, space, mouse:272...) y pulsa Enter.",
        combos_free: "libre",
        combos_used: "ocupada  ",
        combos_note: " Se listan las combinaciones ya usadas en este submap y las estándar alrededor de SUPER.",
        combos_title: " Combos libres ",
        combos_title_key: " Combos libres para {} · {} libres de {} ",
        input_key_label: " Tecla: ",
        input_key_hint: "   Enter listo · Esc cancelar",
        input_search_hint: "   Tab campo: {}  · Enter listo · Esc salir · Ctrl-u borrar",
        hint_tags: " j/k mover · espacio alternar · a todos · n ninguno · o solo este · Esc volver",
        hint_cheatsheet: " / buscar · f teclas libres · l combos de una tecla · c conflictos · t tags · m compacto · Enter detalle · r recargar · ? ayuda · q salir",
        hint_search: " i editar · Tab campo ({}) · Enter detalle · Esc chuleta · q salir",
        hint_free_keys: " ←/→ o n/p cambiar combinación · s submap · j/k desplazar · l combos de una tecla · Esc chuleta",
        hint_free_combos: " l otra tecla · s submap · Esc chuleta · q salir",
        hint_conflicts: " Enter detalle · Esc chuleta · q salir",
        detail_title: " Detalle · Esc cierra ",
        detail_combo: "Combinación",
        detail_submap: "Submap",
        detail_dispatcher: "Dispatcher",
        detail_arg: "Argumento",
        detail_flags: "Flags",
        detail_description: "Descripción",
        detail_tags: "Tags",
        detail_state: "Estado",
        detail_file: "Fichero",
        flags_none: "ninguno",
        state_loaded: "cargado en Hyprland",
        state_not_loaded: "en el fichero pero NO cargado (¿falta hyprctl reload?)",
        state_in_file: "en el fichero",
        state_live_only: "cargado pero no está en el fichero",
        help_title: " Ayuda · cualquier tecla cierra ",
        help_rows: vec![
            ("/", "buscar (Tab cambia el campo: todo, aplicación, tecla)"),
            ("f", "teclas libres para una combinación de modificadores (←/→ o n/p cambia)"),
            ("l", "combinaciones libres para una tecla"),
            ("c", "combinaciones repetidas"),
            ("1 / Esc", "volver a la chuleta"),
            ("t / Tab", "ir al panel de tags (espacio alterna, a todos, n ninguno, o solo)"),
            ("T", "mostrar u ocultar el panel de tags"),
            ("m", "modo compacto (menos columnas)"),
            ("j/k ↑/↓", "moverse · g/G inicio/fin · PgUp/PgDn saltos"),
            ("Enter", "detalle del bind seleccionado"),
            ("r", "recargar (también automático al cambiar el fichero)"),
            ("q", "salir"),
            ("", ""),
            ("amarillo", "bind en el fichero que Hyprland no tiene cargado"),
            ("gris", "bind cargado que no está en el fichero"),
            ("", ""),
            ("Búsqueda por tecla", "escribe la combinación: super shift t · super+t · f5"),
        ],
    }
}

} // verus!
