//! What the screen shows of the state, as plain values: labels, columns, titles
//! and messages. Drawing them is left to the program.

use vstd::prelude::*;
use vstd::view::View as _;
use crate::app::{view_title, App, Focus, View};
use crate::i18n::{fill, fill_spec, Texts};
use crate::model::{flag_letters, flag_names, mod_label, strings_view, BindFlags, ModMask, Origin};
use crate::query::{free_count_spec, ComboUsage, GroupReport, KeyUsage, SearchField};
use crate::snapshot::{count_origin, LiveStatus, Snapshot};
use crate::text::{chars_of, dec, dec_of, is_lit, join, join_of, push_all, string_lit, string_of, trim, trim_of};

verus! {

/// A combination of modifiers as shown; the text for none when there is none.
pub fn mods_label(t: &Texts, m: ModMask) -> (r: String)
    ensures
        r@ == if m.0 == 0 {
            t.no_modifier@
        } else {
            mod_label(m.0)
        },
{
    if m.is_empty() {
        string_lit(t.no_modifier)
    } else {
        m.label()
    }
}

/// A submap as shown; the text for the global one when it is empty.
pub fn submap_label(t: &Texts, submap: &str) -> (r: String)
    ensures
        r@ == if submap@.len() == 0 {
            t.global_submap@
        } else {
            submap@
        },
{
    if submap.is_empty() {
        string_lit(t.global_submap)
    } else {
        string_lit(submap)
    }
}

/// The name of a search field in the table of texts.
pub open spec fn field_text(t: Texts, f: SearchField) -> &'static str {
    match f {
        SearchField::All => t.field_all,
        SearchField::App => t.field_app,
        SearchField::Key => t.field_key,
    }
}

/// The name of a search field as shown.
pub fn field_label(t: &Texts, f: SearchField) -> (r: &'static str)
    ensures
        r == field_text(*t, f),
{
    match f {
        SearchField::All => t.field_all,
        SearchField::App => t.field_app,
        SearchField::Key => t.field_key,
    }
}

/// The name of a group of keys as shown: the texts are chosen by the English names
/// of the groups, any other name showing as the symbols group.
pub fn group_label(t: &Texts, name: &str) -> (r: &'static str)
    ensures
        r == if name@ == "Letters"@ {
            t.group_letters
        } else if name@ == "Digits"@ {
            t.group_digits
        } else if name@ == "Function"@ {
            t.group_function
        } else if name@ == "Navigation"@ {
            t.group_navigation
        } else if name@ == "Special"@ {
            t.group_special
        } else {
            t.group_symbols
        },
{
    let n = chars_of(name);
    if is_lit(&n, "Letters") {
        t.group_letters
    } else if is_lit(&n, "Digits") {
        t.group_digits
    } else if is_lit(&n, "Function") {
        t.group_function
    } else if is_lit(&n, "Navigation") {
        t.group_navigation
    } else if is_lit(&n, "Special") {
        t.group_special
    } else {
        t.group_symbols
    }
}

/// What the header says of `hyprctl`.
pub fn live_label(t: &Texts, l: &LiveStatus) -> (r: &'static str)
    ensures
        r == match l {
            LiveStatus::Answered => t.live_ok,
            LiveStatus::Disabled => t.live_disabled,
            LiveStatus::NotRunning => t.live_not_running,
            LiveStatus::Error(_) => t.live_error,
        },
{
    match l {
        LiveStatus::Answered => t.live_ok,
        LiveStatus::Disabled => t.live_disabled,
        LiveStatus::NotRunning => t.live_not_running,
        LiveStatus::Error(_) => t.live_error,
    }
}

/// The state of a bind in its detail: loaded, in the file but not loaded (only
/// known when `hyprctl` answered), in the file, or only loaded.
pub fn detail_state(t: &Texts, o: Origin, live_ok: bool) -> (r: &'static str)
    ensures
        r == match o {
            Origin::Both => t.state_loaded,
            Origin::Config => if live_ok {
                t.state_not_loaded
            } else {
                t.state_in_file
            },
            Origin::Live => t.state_live_only,
        },
{
    match o {
        Origin::Both => t.state_loaded,
        Origin::Config => if live_ok {
            t.state_not_loaded
        } else {
            t.state_in_file
        },
        Origin::Live => t.state_live_only,
    }
}

/// The flags of a bind in its detail: `le (locked, repeat)`, or the text for none.
pub fn flags_text(t: &Texts, f: &BindFlags) -> (r: String)
    ensures
        r@ == if flag_names(*f).len() == 0 {
            t.flags_none@
        } else {
            flag_letters(*f) + " ("@ + join(flag_names(*f), ", "@) + ")"@
        },
{
    let names = f.describe();
    if names.len() == 0 {
        return string_lit(t.flags_none);
    }
    let mut parts: Vec<Vec<char>> = Vec::new();
    for i in 0..names.len()
        invariant
            parts@.map_values(|p: Vec<char>| p@) == names@.map_values(|s: &str| s@).take(i as int),
    {
        let c = chars_of(names[i]);
        let ghost before = parts@.map_values(|p: Vec<char>| p@);
        parts.push(c);
        proof {
            assert(parts@.map_values(|p: Vec<char>| p@) =~= before.push(c@));
            assert(names@.map_values(|s: &str| s@).take(i + 1) =~= names@.map_values(|s: &str| s@).take(i as int).push(names@[i as int]@));
        }
    }
    proof {
        assert(names@.map_values(|s: &str| s@).take(names@.len() as int) =~= names@.map_values(|s: &str| s@));
    }
    let sep = chars_of(", ");
    let joined = join_of(&parts, &sep);
    let letters = f.letters();
    let mut out = chars_of(letters.as_str());
    let open = chars_of(" (");
    let close = chars_of(")");
    push_all(&mut out, &open);
    push_all(&mut out, &joined);
    push_all(&mut out, &close);
    string_of(&out)
}

/// Which optional columns the table shows.
pub struct Columns {
    /// The conflict group, in the conflicts view.
    pub group: bool,
    /// The submap, when a row is outside the global one.
    pub submap: bool,
    /// The description, when a row has one, except in compact mode.
    pub description: bool,
    pub tags: bool,
    pub source: bool,
}

/// Which optional columns the table shows for the visible rows.
pub fn table_columns(app: &App) -> (r: Columns)
    requires
        app.wf(),
    ensures
        r.group == (app.view == View::Conflicts),
        r.submap == exists|k: int| 0 <= k < app.rows@.len() && (#[trigger] app.snap.binds@[app.rows@[k] as int]@).submap.len() > 0,
        r.description == (!app.compact && exists|k: int|
            0 <= k < app.rows@.len() && (#[trigger] app.snap.binds@[app.rows@[k] as int]@).description.len() > 0),
        r.tags == !app.compact,
        r.source == !app.compact,
{
    let mut sub = false;
    let mut desc = false;
    for k in 0..app.rows.len()
        invariant
            app.wf(),
            sub == exists|j: int| 0 <= j < k && (#[trigger] app.snap.binds@[app.rows@[j] as int]@).submap.len() > 0,
            desc == exists|j: int| 0 <= j < k && (#[trigger] app.snap.binds@[app.rows@[j] as int]@).description.len() > 0,
    {
        let b = &app.snap.binds[app.rows[k]];
        proof {
            assert(b@ == app.snap.binds@[app.rows@[k as int] as int]@);
        }
        if !b.submap.as_str().is_empty() {
            sub = true;
        }
        if !b.description.as_str().is_empty() {
            desc = true;
        }
        proof {
            let x = app.snap.binds@[app.rows@[k as int] as int]@;
            assert(sub == (exists|j: int| 0 <= j < k && (#[trigger] app.snap.binds@[app.rows@[j] as int]@).submap.len() > 0) || x.submap.len() > 0);
            assert(desc == (exists|j: int| 0 <= j < k && (#[trigger] app.snap.binds@[app.rows@[j] as int]@).description.len() > 0) || x.description.len() > 0);
        }
    }
    Columns { group: app.view == View::Conflicts, submap: sub, description: !app.compact && desc, tags: !app.compact, source: !app.compact }
}

/// The widest of some texts, in characters.
pub open spec fn widest(ts: Seq<Seq<char>>) -> nat
    decreases ts.len(),
{
    if ts.len() == 0 {
        0
    } else {
        let w = widest(ts.drop_last());
        if ts.last().len() > w {
            ts.last().len()
        } else {
            w
        }
    }
}

/// The width of a column: its widest text, kept between `min` and `max`.
pub fn column_width(texts: &[String], min: usize, max: usize) -> (r: usize)
    requires
        min <= max,
    ensures
        r == if widest(strings_view(texts@)) < min {
            min as int
        } else if widest(strings_view(texts@)) > max {
            max as int
        } else {
            widest(strings_view(texts@)) as int
        },
{
    let ghost ts = strings_view(texts@);
    let mut w: usize = 0;
    for i in 0..texts.len()
        invariant
            ts == strings_view(texts@),
            w == widest(ts.take(i as int)),
    {
        let n = chars_of(texts[i].as_str()).len();
        proof {
            assert(ts.take(i + 1).drop_last() =~= ts.take(i as int));
            assert(ts.take(i + 1).last() == texts@[i as int]@);
        }
        if n > w {
            w = n;
        }
    }
    proof {
        assert(ts.take(ts.len() as int) =~= ts);
    }
    if w < min {
        min
    } else if w > max {
        max
    } else {
        w
    }
}

/// A count written in decimal.
fn count_text(n: usize) -> (r: String)
    ensures
        r@ == dec(n as nat),
{
    let d = dec_of(n as u64);
    string_of(&d)
}

/// A note of the header, by what it counts.
#[derive(Clone, Copy, Debug, PartialEq, Eq, Structural)]
pub enum HeaderNote {
    /// Binds of the file that `hyprctl` does not list.
    NotLoaded,
    /// Binds that only `hyprctl` lists.
    LiveOnly,
    /// Warnings of the parse.
    Warnings,
}

/// The notes of the header for counts of binds not loaded, binds only loaded and
/// warnings: one for each count that is not zero, in that order.
pub open spec fn header_notes_spec(t: Texts, not_loaded: nat, live_only: nat, warnings: nat) -> Seq<(Seq<char>, HeaderNote)> {
    (if not_loaded > 0 {
        seq![(fill_spec(t.header_not_loaded@, seq![dec(not_loaded)]), HeaderNote::NotLoaded)]
    } else {
        Seq::empty()
    }) + (if live_only > 0 {
        seq![(fill_spec(t.header_live_only@, seq![dec(live_only)]), HeaderNote::LiveOnly)]
    } else {
        Seq::empty()
    }) + (if warnings > 0 {
        seq![(fill_spec(t.header_warnings@, seq![dec(warnings)]), HeaderNote::Warnings)]
    } else {
        Seq::empty()
    })
}

/// One note of the header: its text with the count filled in.
fn header_note(template: &'static str, n: usize, kind: HeaderNote) -> (r: (String, HeaderNote))
    ensures
        r.0@ == fill_spec(template@, seq![dec(n as nat)]),
        r.1 == kind,
{
    let mut args: Vec<String> = Vec::new();
    args.push(count_text(n));
    let text = fill(template, args.as_slice());
    proof {
        assert(strings_view(args@) =~= seq![dec(n as nat)]);
    }
    (text, kind)
}

/// The notes that the header adds after the number of binds: binds not loaded
/// (only known when `hyprctl` answered), binds only loaded, and warnings.
pub fn header_notes(t: &Texts, snap: &Snapshot) -> (r: Vec<(String, HeaderNote)>)
    ensures
        r@.map_values(|p: (String, HeaderNote)| (p.0@, p.1)) == header_notes_spec(
            *t,
            if snap@.live is Answered { count_origin(snap@.binds, Origin::Config) } else { 0 },
            count_origin(snap@.binds, Origin::Live),
            snap.warnings@.len(),
        ),
{
    let mut r: Vec<(String, HeaderNote)> = Vec::new();
    let not_loaded = snap.not_loaded_count();
    if not_loaded > 0 {
        r.push(header_note(t.header_not_loaded, not_loaded, HeaderNote::NotLoaded));
    }
    let live_only = snap.live_only_count();
    if live_only > 0 {
        r.push(header_note(t.header_live_only, live_only, HeaderNote::LiveOnly));
    }
    let warnings = snap.warnings.len();
    if warnings > 0 {
        r.push(header_note(t.header_warnings, warnings, HeaderNote::Warnings));
    }
    proof {
        let spec = header_notes_spec(
            *t,
            not_loaded as nat,
            live_only as nat,
            warnings as nat,
        );
        assert(r@.map_values(|p: (String, HeaderNote)| (p.0@, p.1)) =~= spec);
    }
    r
}

/// The title of the table.
pub fn table_title(app: &App) -> (r: String)
    ensures
        r@ == match app.view {
            View::Search => fill_spec(
                app.t.title_search@,
                seq![view_title(app.view, app.t)@, dec(app.rows@.len()), field_text(app.t, app.field)@],
            ),
            View::Conflicts => fill_spec(app.t.title_conflicts@, seq![view_title(app.view, app.t)@, dec(app.conflicts@.len())]),
            _ => fill_spec(
                app.t.title_table@,
                seq![view_title(app.view, app.t)@, dec(app.rows@.len()), dec(app.snap.binds@.len())],
            ),
        },
{
    let t = &app.t;
    let title = string_lit(app.view.title(t));
    let mut args: Vec<String> = Vec::new();
    args.push(title);
    match app.view {
        View::Search => {
            args.push(count_text(app.rows.len()));
            args.push(string_lit(field_label(t, app.field)));
            let r = fill(t.title_search, args.as_slice());
            proof {
                assert(strings_view(args@) =~= seq![view_title(app.view, app.t)@, dec(app.rows@.len()), field_text(app.t, app.field)@]);
            }
            r
        },
        View::Conflicts => {
            args.push(count_text(app.conflicts.len()));
            let r = fill(t.title_conflicts, args.as_slice());
            proof {
                assert(strings_view(args@) =~= seq![view_title(app.view, app.t)@, dec(app.conflicts@.len())]);
            }
            r
        },
        _ => {
            args.push(count_text(app.rows.len()));
            args.push(count_text(app.snap.binds.len()));
            let r = fill(t.title_table, args.as_slice());
            proof {
                assert(strings_view(args@) =~= seq![view_title(app.view, app.t)@, dec(app.rows@.len()), dec(app.snap.binds@.len())]);
            }
            r
        },
    }
}

/// What an empty table says.
pub fn empty_message(app: &App) -> (r: &'static str)
    ensures
        r == match app.view {
            View::Search => if trim(app.query@).len() == 0 {
                app.t.empty_type_to_search
            } else {
                app.t.empty_no_results
            },
            View::Conflicts => app.t.empty_no_conflicts,
            _ => app.t.empty_no_visible,
        },
{
    match app.view {
        View::Search => {
            let q = chars_of(app.query.as_str());
            if trim_of(&q).len() == 0 {
                app.t.empty_type_to_search
            } else {
                app.t.empty_no_results
            }
        },
        View::Conflicts => app.t.empty_no_conflicts,
        _ => app.t.empty_no_visible,
    }
}

/// The hint of the footer outside text input; none while typing.
pub fn footer_hint(app: &App) -> (r: Option<String>)
    ensures
        r is None <==> app.focus == Focus::Input,
        r matches Some(h) ==> h@ == match app.focus {
            Focus::Tags => app.t.hint_tags@,
            _ => match app.view {
                View::Cheatsheet => app.t.hint_cheatsheet@,
                View::Search => fill_spec(app.t.hint_search@, seq![field_text(app.t, app.field)@]),
                View::FreeKeys => app.t.hint_free_keys@,
                View::FreeCombos => app.t.hint_free_combos@,
                View::Conflicts => app.t.hint_conflicts@,
            },
        },
{
    let t = &app.t;
    match app.focus {
        Focus::Input => None,
        Focus::Tags => Some(string_lit(t.hint_tags)),
        Focus::Main => match app.view {
            View::Cheatsheet => Some(string_lit(t.hint_cheatsheet)),
            View::Search => {
                let mut args: Vec<String> = Vec::new();
                args.push(string_lit(field_label(t, app.field)));
                proof {
                    assert(strings_view(args@) =~= seq![field_text(app.t, app.field)@]);
                }
                Some(fill(t.hint_search, args.as_slice()))
            },
            View::FreeKeys => Some(string_lit(t.hint_free_keys)),
            View::FreeCombos => Some(string_lit(t.hint_free_combos)),
            View::Conflicts => Some(string_lit(t.hint_conflicts)),
        },
    }
}

/// How a row of the table is marked.
#[derive(Clone, Copy, Debug, PartialEq, Eq, Structural)]
pub enum RowMark {
    Plain,
    /// In the file but not loaded, known when `hyprctl` answered.
    NotLoaded,
    /// Loaded but not in the file.
    LiveOnly,
}

/// The mark of a bind's row.
pub fn row_mark(o: Origin, live_ok: bool) -> (r: RowMark)
    ensures
        r == match o {
            Origin::Config => if live_ok {
                RowMark::NotLoaded
            } else {
                RowMark::Plain
            },
            Origin::Live => RowMark::LiveOnly,
            Origin::Both => RowMark::Plain,
        },
{
    match o {
        Origin::Config => if live_ok {
            RowMark::NotLoaded
        } else {
            RowMark::Plain
        },
        Origin::Live => RowMark::LiveOnly,
        Origin::Both => RowMark::Plain,
    }
}

/// Number of combinations no bind takes.
pub open spec fn free_combos_count(usage: Seq<ComboUsage>) -> nat
    decreases usage.len(),
{
    if usage.len() == 0 {
        0
    } else {
        free_combos_count(usage.drop_last()) + if usage.last().bound_by is None {
            1nat
        } else {
            0nat
        }
    }
}

/// How many of the combinations listed for a key are free.
pub fn free_combo_count(usage: &[ComboUsage]) -> (r: usize)
    ensures
        r == free_combos_count(usage@),
{
    let mut c: usize = 0;
    for i in 0..usage.len()
        invariant
            c == free_combos_count(usage@.take(i as int)),
            c <= i,
    {
        proof {
            assert(usage@.take(i + 1).drop_last() =~= usage@.take(i as int));
        }
        if usage[i].bound_by.is_none() {
            c = c + 1;
        }
    }
    proof {
        assert(usage@.take(usage@.len() as int) =~= usage@);
    }
    c
}

/// Number of keys of a report, and of free ones.
pub open spec fn keys_total(report: Seq<GroupReport>) -> nat
    decreases report.len(),
{
    if report.len() == 0 {
        0
    } else {
        keys_total(report.drop_last()) + report.last().keys@.len()
    }
}

pub open spec fn keys_free(report: Seq<GroupReport>) -> nat
    decreases report.len(),
{
    if report.len() == 0 {
        0
    } else {
        keys_free(report.drop_last()) + free_count_spec(report.last().keys@)
    }
}

proof fn lemma_free_count_le(keys: Seq<KeyUsage>)
    ensures
        free_count_spec(keys) <= keys.len(),
    decreases keys.len(),
{
    if keys.len() > 0 {
        lemma_free_count_le(keys.drop_last());
    }
}

proof fn lemma_keys_free_le(report: Seq<GroupReport>)
    ensures
        keys_free(report) <= keys_total(report),
    decreases report.len(),
{
    if report.len() > 0 {
        lemma_keys_free_le(report.drop_last());
        lemma_free_count_le(report.last().keys@);
    }
}

/// The free keys of a report and all its keys, counted.
pub fn key_totals(report: &[GroupReport]) -> (r: (usize, usize))
    requires
        keys_total(report@) <= usize::MAX,
    ensures
        r.0 == keys_free(report@),
        r.1 == keys_total(report@),
{
    let mut free: usize = 0;
    let mut total: usize = 0;
    for g in 0..report.len()
        invariant
            keys_total(report@) <= usize::MAX,
            free == keys_free(report@.take(g as int)),
            total == keys_total(report@.take(g as int)),
    {
        proof {
            let t = report@.take(g + 1);
            assert(t.drop_last() =~= report@.take(g as int));
            assert(t.last() == report@[g as int]);
            lemma_keys_total_prefix(report@, g + 1);
            lemma_keys_free_le(t);
        }
        let f = report[g].free_count();
        total = total + report[g].keys.len();
        free = free + f;
    }
    proof {
        assert(report@.take(report@.len() as int) =~= report@);
    }
    (free, total)
}

proof fn lemma_keys_total_prefix(report: Seq<GroupReport>, n: int)
    requires
        0 <= n <= report.len(),
    ensures
        keys_total(report.take(n)) <= keys_total(report),
    decreases report.len() - n,
{
    if n < report.len() {
        lemma_keys_total_prefix(report, n + 1);
        assert(report.take(n + 1).drop_last() =~= report.take(n));
    } else {
        assert(report.take(n) =~= report);
    }
}

} // verus!
