//! State of the terminal interface and what each key does to it. Nothing here
//! draws; the program around the library draws this state and reads the keys.

use vstd::prelude::*;
use vstd::view::View as _;
use crate::config::ConfigError;
use crate::i18n::{fill, fill_spec, Lang, Texts};
use crate::model::{strings_view, Bind, BindView, ModMask};
use crate::query::{
    combo_candidates, conflict_view, conflicts, conflicts_upto, filter_by_tags, indices_where, ints, search,
    search_ok, standard_combos_spec, tag_visible, used_ok, used_view, add_missing, Conflict, SearchField, next_field,
};
use crate::snapshot::{all_tags_ok, submaps_ok, LoadOptions, Snapshot};
use crate::query::{combo_members, first_of_combo, haystack_spec, lemma_indices_all, lemma_indices_where, literal_hit, same_combo};
use vstd::arithmetic::div_mod::{lemma_add_mod_noop_right, lemma_mod_multiples_vanish, lemma_small_mod};
use crate::text::{chars_of, is_lit, lowercase, string_of, tokens, trim};

verus! {

/// Name of the pseudo-tag that gathers the binds without `#TAGS:`. It is shown
/// translated, as `Texts::untagged`.
pub const UNTAGGED: &'static str = "\u{1}untagged";

#[derive(Clone, Copy, Debug, PartialEq, Eq, Structural)]
pub enum View {
    Cheatsheet,
    Search,
    FreeKeys,
    FreeCombos,
    Conflicts,
}

/// The name of a view in a table of texts.
pub open spec fn view_title(v: View, t: Texts) -> &'static str {
    match v {
        View::Cheatsheet => t.view_cheatsheet,
        View::Search => t.view_search,
        View::FreeKeys => t.view_free_keys,
        View::FreeCombos => t.view_free_combos,
        View::Conflicts => t.view_conflicts,
    }
}

impl View {
    /// The view's name in the table of texts.
    pub fn title(self, t: &Texts) -> (r: &'static str)
        ensures
            r == view_title(self, *t),
    {
        match self {
            View::Cheatsheet => t.view_cheatsheet,
            View::Search => t.view_search,
            View::FreeKeys => t.view_free_keys,
            View::FreeCombos => t.view_free_combos,
            View::Conflicts => t.view_conflicts,
        }
    }
}

#[derive(Clone, Copy, Debug, PartialEq, Eq, Structural)]
pub enum Focus {
    Main,
    Tags,
    Input,
}

pub struct TagState {
    pub name: String,
    pub active: bool,
}

/// The keys the interface reacts to; any other is `Other`.
#[derive(Clone, Copy, Debug, PartialEq, Eq, Structural)]
pub enum KeyCode {
    Char(char),
    Esc,
    Enter,
    Backspace,
    Tab,
    Up,
    Down,
    Left,
    Right,
    PageUp,
    PageDown,
    Home,
    End,
    Other,
}

/// A key press, with whether Control was held.
#[derive(Clone, Copy, Debug, PartialEq, Eq, Structural)]
pub struct KeyEvent {
    pub code: KeyCode,
    pub ctrl: bool,
}

impl KeyEvent {
    /// A press without Control.
    pub fn plain(code: KeyCode) -> (r: KeyEvent)
        ensures
            r == (KeyEvent { code: code, ctrl: false }),
    {
        KeyEvent { code: code, ctrl: false }
    }
}

/// What a key asks of the program around the library.
#[derive(Clone, Copy, Debug, PartialEq, Eq, Structural)]
pub enum Request {
    Nothing,
    /// Read the configuration again and hand the result to [`App::reloaded`].
    Reload,
}

pub struct App {
    pub t: Texts,
    pub opts: LoadOptions,
    pub snap: Snapshot,
    pub view: View,
    pub focus: Focus,
    pub tags: Vec<TagState>,
    pub tags_visible: bool,
    /// Cursor of the tags panel.
    pub tag_sel: Option<usize>,
    /// Indices in `snap.binds` of the table's visible rows.
    pub rows: Vec<usize>,
    /// Group number of each row, only in the conflicts view.
    pub row_groups: Vec<usize>,
    pub conflicts: Vec<Conflict>,
    /// Selected row of the table.
    pub table_sel: Option<usize>,
    /// First row the table shows; the drawing moves it to keep the selection visible.
    pub table_offset: usize,
    pub query: String,
    pub field: SearchField,
    pub letter: String,
    pub combos: Vec<ModMask>,
    pub combo_idx: usize,
    pub submaps: Vec<String>,
    pub submap_idx: usize,
    /// Vertical scroll of the text views.
    pub scroll: u16,
    pub compact: bool,
    pub detail: bool,
    pub help: bool,
    pub status: String,
    pub quit: bool,
}

// ---------------------------------------------------------------------------
// What the state means
// ---------------------------------------------------------------------------

/// The tag states as name and activity.
pub open spec fn tags_view(tags: Seq<TagState>) -> Seq<(Seq<char>, bool)> {
    tags.map_values(|t: TagState| (t.name@, t.active))
}

/// Names of the active tags, the pseudo-tag of untagged binds left out, in order.
pub open spec fn active_names(tags: Seq<(Seq<char>, bool)>) -> Seq<Seq<char>>
    decreases tags.len(),
{
    if tags.len() == 0 {
        seq![]
    } else {
        active_names(tags.drop_last()) + if tags.last().1 && tags.last().0 != UNTAGGED@ {
            seq![tags.last().0]
        } else {
            seq![]
        }
    }
}

/// The pseudo-tag of untagged binds is there and active.
pub open spec fn untagged_on(tags: Seq<(Seq<char>, bool)>) -> bool {
    exists|k: int| 0 <= k < tags.len() && (#[trigger] tags[k]).0 == UNTAGGED@ && tags[k].1
}

/// The binds of each conflict one after the other.
pub open spec fn conflict_rows(cs: Seq<(Seq<char>, Seq<char>, Seq<int>)>) -> Seq<int>
    decreases cs.len(),
{
    if cs.len() == 0 {
        seq![]
    } else {
        conflict_rows(cs.drop_last()) + cs.last().2
    }
}

/// For each row of [`conflict_rows`], the number of its conflict, from 1.
pub open spec fn conflict_groups(cs: Seq<(Seq<char>, Seq<char>, Seq<int>)>) -> Seq<int>
    decreases cs.len(),
{
    if cs.len() == 0 {
        seq![]
    } else {
        conflict_groups(cs.drop_last()) + Seq::new(cs.last().2.len(), |j: int| cs.len() as int)
    }
}

/// The selection of a table of `n` rows after it was `sel`: none when there is no
/// row, else the same one, the first when there was none, the last when past it.
pub open spec fn normalized(sel: Option<usize>, n: nat) -> Option<usize> {
    if n == 0 {
        None
    } else {
        let s = match sel {
            Some(s) => s as int,
            None => 0,
        };
        Some((if s < n - 1 { s } else { n - 1 }) as usize)
    }
}

/// An index kept below `n`, or 0 when there is nothing.
pub open spec fn clamped(i: usize, n: nat) -> usize {
    if n == 0 {
        0
    } else if i < n {
        i
    } else {
        (n - 1) as usize
    }
}

/// The combinations offered for a submap, as `combo_candidates` finds them.
pub open spec fn combos_ok(binds: Seq<Bind>, submap: Seq<char>, r: Seq<ModMask>) -> bool {
    exists|u: Seq<(ModMask, usize)>|
        used_ok(binds, submap, used_view(u)) && r.map_values(|m: ModMask| m.0) == add_missing(
            u.map_values(|p: (ModMask, usize)| p.0.0),
            standard_combos_spec(),
        )
}

impl App {
    /// The submap chosen in the text views; the global one when there is none.
    pub open spec fn submap_view(&self) -> Seq<char> {
        if self.submap_idx < self.submaps@.len() {
            self.submaps@[self.submap_idx as int]@
        } else {
            Seq::empty()
        }
    }

    /// The rows the current view shows, as indices, and their group numbers.
    pub open spec fn rows_ok(&self) -> bool {
        let binds = self.snap.binds@;
        let n = binds.len();
        match self.view {
            View::Cheatsheet => {
                let tv = tags_view(self.tags@);
                &&& ints(self.rows@) == indices_where(
                    n,
                    |i: int| tag_visible(binds[i]@, active_names(tv), untagged_on(tv)),
                )
                &&& self.row_groups@.len() == 0
            },
            View::Search => {
                &&& search_ok(binds, self.query@, self.field, ints(self.rows@))
                &&& self.row_groups@.len() == 0
            },
            View::Conflicts => {
                let cs = self.conflicts@.map_values(|c: Conflict| conflict_view(c));
                &&& ints(self.rows@) == conflict_rows(cs)
                &&& ints(self.row_groups@) == conflict_groups(cs)
            },
            View::FreeKeys | View::FreeCombos => self.rows@.len() == 0 && self.row_groups@.len() == 0,
        }
    }

    /// What holds of the state between two keys.
    pub open spec fn wf(&self) -> bool {
        let n = self.snap.binds@.len();
        &&& self.rows_ok()
        &&& forall|k: int| 0 <= k < self.rows@.len() ==> (#[trigger] self.rows@[k]) < n
        &&& self.table_sel == normalized(self.table_sel, self.rows@.len())
        &&& self.conflicts@.map_values(|c: Conflict| conflict_view(c)) == conflicts_upto(self.snap.binds@, n)
        &&& submaps_ok(self.snap@.binds, strings_view(self.submaps@))
        &&& self.submap_idx < self.submaps@.len()
        &&& combos_ok(self.snap.binds@, self.submap_view(), self.combos@)
        &&& self.combo_idx == clamped(self.combo_idx, self.combos@.len())
        &&& self.tag_sel matches Some(c) ==> (c < tags_view(self.tags@).len() || c == 0)
    }
}

/// The controls of the interface: everything in [`App`] that keys change.
pub ghost struct Ctl {
    pub view: View,
    pub focus: Focus,
    pub tags: Seq<(Seq<char>, bool)>,
    pub tags_visible: bool,
    pub tag_sel: Option<usize>,
    pub table_sel: Option<usize>,
    pub table_offset: usize,
    pub query: Seq<char>,
    pub field: SearchField,
    pub letter: Seq<char>,
    pub combo_idx: usize,
    pub submap_idx: usize,
    pub scroll: u16,
    pub compact: bool,
    pub detail: bool,
    pub help: bool,
    pub status: Seq<char>,
    pub quit: bool,
}

impl App {
    pub open spec fn ctl(&self) -> Ctl {
        Ctl {
            view: self.view,
            focus: self.focus,
            tags: tags_view(self.tags@),
            tags_visible: self.tags_visible,
            tag_sel: self.tag_sel,
            table_sel: self.table_sel,
            table_offset: self.table_offset,
            query: self.query@,
            field: self.field,
            letter: self.letter@,
            combo_idx: self.combo_idx,
            submap_idx: self.submap_idx,
            scroll: self.scroll,
            compact: self.compact,
            detail: self.detail,
            help: self.help,
            status: self.status@,
            quit: self.quit,
        }
    }

    /// The texts, the options, the snapshot and what is computed once from it are
    /// the same in both.
    pub open spec fn same_data(&self, other: &App) -> bool {
        &&& self.t == other.t
        &&& self.opts == other.opts
        &&& self.snap == other.snap
        &&& self.conflicts == other.conflicts
        &&& self.submaps == other.submaps
        &&& self.combos == other.combos
    }

    /// The submap chosen in the text views.
    pub fn submap(&self) -> (r: &str)
        ensures
            r@ == self.submap_view(),
    {
        if self.submap_idx < self.submaps.len() {
            self.submaps[self.submap_idx].as_str()
        } else {
            proof {
                reveal_strlit("");
            }
            ""
        }
    }

    /// The combination chosen in the free keys view; SUPER when there is none.
    pub fn current_combo(&self) -> (r: ModMask)
        ensures
            r.0 == if self.combo_idx < self.combos@.len() {
                self.combos@[self.combo_idx as int].0
            } else {
                64
            },
    {
        if self.combo_idx < self.combos.len() {
            self.combos[self.combo_idx]
        } else {
            ModMask::SUPER()
        }
    }

    /// The active tags, the pseudo-tag left out, and whether untagged binds show.
    pub fn active_tags(&self) -> (r: (Vec<String>, bool))
        ensures
            strings_view(r.0@) == active_names(tags_view(self.tags@)),
            r.1 == untagged_on(tags_view(self.tags@)),
    {
        let ghost tv = tags_view(self.tags@);
        let mut names: Vec<String> = Vec::new();
        let mut untagged = false;
        for i in 0..self.tags.len()
            invariant
                tv == tags_view(self.tags@),
                strings_view(names@) == active_names(tv.take(i as int)),
                untagged == untagged_on(tv.take(i as int)),
        {
            let t = &self.tags[i];
            let is_pseudo = is_lit(&chars_of(t.name.as_str()), UNTAGGED);
            let ghost before = strings_view(names@);
            proof {
                assert(tv[i as int] == (t.name@, t.active));
                assert(tv.take(i + 1).drop_last() =~= tv.take(i as int));
            }
            if t.active && !is_pseudo {
                let nm = t.name.clone();
                names.push(nm);
                proof {
                    assert(strings_view(names@) =~= before.push(nm@));
                }
            }
            if t.active && is_pseudo {
                untagged = true;
                proof {
                    assert(tv.take(i + 1)[i as int] == tv[i as int]);
                }
            }
            proof {
                assert(untagged == untagged_on(tv.take(i + 1))) by {
                    if untagged_on(tv.take(i + 1)) {
                        let k = choose|k: int| 0 <= k < tv.take(i + 1).len() && (#[trigger] tv.take(i + 1)[k]).0 == UNTAGGED@ && tv.take(i + 1)[k].1;
                        if k < i {
                            assert(tv.take(i as int)[k] == tv.take(i + 1)[k]);
                        }
                    }
                    if untagged_on(tv.take(i as int)) {
                        let k = choose|k: int| 0 <= k < tv.take(i as int).len() && (#[trigger] tv.take(i as int)[k]).0 == UNTAGGED@ && tv.take(i as int)[k].1;
                        assert(tv.take(i + 1)[k] == tv.take(i as int)[k]);
                    }
                }
            }
        }
        proof {
            assert(tv.take(tv.len() as int) =~= tv);
        }
        (names, untagged)
    }

    /// The bind of the selected row.
    pub fn current(&self) -> (r: Option<&Bind>)
        requires
            self.wf(),
        ensures
            r == match self.table_sel {
                Some(s) => Some(&self.snap.binds@[self.rows@[s as int] as int]),
                None => None,
            },
    {
        match self.table_sel {
            Some(s) => Some(&self.snap.binds[self.rows[s]]),
            None => None,
        }
    }
}

proof fn lemma_active_names_has(tags: Seq<(Seq<char>, bool)>, k: int)
    requires
        0 <= k < tags.len(),
        tags[k].1,
        tags[k].0 != UNTAGGED@,
    ensures
        active_names(tags).contains(tags[k].0),
    decreases tags.len(),
{
    let init = tags.drop_last();
    let add: Seq<Seq<char>> = if tags.last().1 && tags.last().0 != UNTAGGED@ { seq![tags.last().0] } else { seq![] };
    assert(active_names(tags) == active_names(init) + add);
    if k == tags.len() - 1 {
        assert((active_names(init) + add)[active_names(init).len() as int] == tags[k].0);
    } else {
        assert(init[k] == tags[k]);
        lemma_active_names_has(init, k);
        let j = choose|j: int| 0 <= j < active_names(init).len() && active_names(init)[j] == tags[k].0;
        assert((active_names(init) + add)[j] == tags[k].0);
    }
}

/// In the cheatsheet, when the panel lists every tag of the binds and every entry of
/// it is active, the pseudo-tag of untagged binds too when some bind has no tag,
/// every bind is a row, in order.
pub proof fn lemma_every_tag_active_shows_all(app: &App)
    requires
        app.wf(),
        app.view == View::Cheatsheet,
        forall|k: int| 0 <= k < tags_view(app.tags@).len() ==> (#[trigger] tags_view(app.tags@)[k]).1,
        forall|i: int, j: int|
            0 <= i < app.snap.binds@.len() && 0 <= j < app.snap.binds@[i]@.tags.len() ==> (#[trigger] app.snap.binds@[i]@.tags[j])
                != UNTAGGED@ && exists|k: int| 0 <= k < tags_view(app.tags@).len() && tags_view(app.tags@)[k].0 == app.snap.binds@[i]@.tags[j],
        (exists|i: int| 0 <= i < app.snap.binds@.len() && (#[trigger] app.snap.binds@[i]@).tags.len() == 0) ==> exists|k: int|
            0 <= k < tags_view(app.tags@).len() && (#[trigger] tags_view(app.tags@)[k]).0 == UNTAGGED@,
    ensures
        ints(app.rows@) == Seq::new(app.snap.binds@.len(), |i: int| i),
{
    let binds = app.snap.binds@;
    let n = binds.len();
    let tv = tags_view(app.tags@);
    let act = active_names(tv);
    let un = untagged_on(tv);
    let p = |i: int| tag_visible(binds[i]@, act, un);
    assert forall|i: int| 0 <= i < n implies #[trigger] p(i) by {
        if binds[i]@.tags.len() > 0 {
            let t = binds[i]@.tags[0];
            let k = choose|k: int| 0 <= k < tv.len() && tv[k].0 == t;
            lemma_active_names_has(tv, k);
            assert(act.contains(binds[i]@.tags[0]));
        } else {
            let k = choose|k: int| 0 <= k < tv.len() && (#[trigger] tv[k]).0 == UNTAGGED@;
            assert(tv[k].1);
        }
    }
    lemma_indices_all(n, p);
}

// ---------------------------------------------------------------------------
// The table's rows
// ---------------------------------------------------------------------------

proof fn lemma_conflict_rows_below(binds: Seq<Bind>, m: nat)
    requires
        m <= binds.len(),
    ensures
        forall|k: int|
            0 <= k < conflict_rows(conflicts_upto(binds, m)).len() ==> 0 <= #[trigger] conflict_rows(
                conflicts_upto(binds, m),
            )[k] < binds.len(),
    decreases m,
{
    if m > 0 {
        lemma_conflict_rows_below(binds, (m - 1) as nat);
        let prev = conflicts_upto(binds, (m - 1) as nat);
        let cur = conflicts_upto(binds, m);
        let i = m - 1;
        if first_of_combo(binds, i) && combo_members(binds, i).len() > 1 {
            assert(cur.drop_last() =~= prev);
            lemma_indices_where(binds.len(), |j: int| same_combo(binds[j]@, binds[i]@));
            let e = cur.last().2;
            assert(conflict_rows(cur) == conflict_rows(prev) + e);
            assert forall|k: int| 0 <= k < conflict_rows(cur).len() implies 0 <= #[trigger] conflict_rows(cur)[k] < binds.len() by {
                if k >= conflict_rows(prev).len() {
                    assert(conflict_rows(cur)[k] == e[k - conflict_rows(prev).len()]);
                } else {
                    assert(conflict_rows(cur)[k] == conflict_rows(prev)[k]);
                }
            }
        } else {
            assert(cur =~= prev);
        }
    }
}

proof fn lemma_search_below(binds: Seq<Bind>, query: Seq<char>, field: SearchField, r: Seq<int>)
    requires
        search_ok(binds, query, field, r),
    ensures
        forall|k: int| 0 <= k < r.len() ==> 0 <= #[trigger] r[k] < binds.len(),
{
    let q = trim(query);
    let n = binds.len();
    if q.len() == 0 {
    } else if field == SearchField::Key {
    } else {
        let words = tokens(q, false);
        let lower_words = words.map_values(|w: Seq<char>| lowercase(w));
        let lit = |i: int| literal_hit(haystack_spec(binds[i]@, field), lower_words);
        if exists|i: int| 0 <= i < n && #[trigger] lit(i) {
            lemma_indices_where(n, lit);
        }
    }
}

/// The rows and group numbers of the conflicts view.
fn conflict_table(cs: &Vec<Conflict>) -> (r: (Vec<usize>, Vec<usize>))
    ensures
        ints(r.0@) == conflict_rows(cs@.map_values(|c: Conflict| conflict_view(c))),
        ints(r.1@) == conflict_groups(cs@.map_values(|c: Conflict| conflict_view(c))),
{
    let ghost cv = cs@.map_values(|c: Conflict| conflict_view(c));
    let mut rows: Vec<usize> = Vec::new();
    let mut groups: Vec<usize> = Vec::new();
    for g in 0..cs.len()
        invariant
            cv == cs@.map_values(|c: Conflict| conflict_view(c)),
            ints(rows@) == conflict_rows(cv.take(g as int)),
            ints(groups@) == conflict_groups(cv.take(g as int)),
    {
        let members = &cs[g].members;
        let ghost r0 = ints(rows@);
        let ghost g0 = ints(groups@);
        proof {
            assert(cv[g as int].2 == ints(members@));
        }
        for j in 0..members.len()
            invariant
                cv == cs@.map_values(|c: Conflict| conflict_view(c)),
                g < cs.len(),
                members == &cs@[g as int].members,
                cv[g as int].2 == ints(members@),
                ints(rows@) == r0 + cv[g as int].2.take(j as int),
                ints(groups@) == g0 + Seq::new(j as nat, |x: int| g + 1),
        {
            let ghost rb = ints(rows@);
            let ghost gb = ints(groups@);
            rows.push(members[j]);
            groups.push(g + 1);
            proof {
                assert(ints(rows@) =~= rb.push(members@[j as int] as int));
                assert(cv[g as int].2.take(j + 1) =~= cv[g as int].2.take(j as int).push(members@[j as int] as int));
                assert(ints(groups@) =~= gb.push(g + 1));
                assert(Seq::new((j + 1) as nat, |x: int| g + 1) =~= Seq::new(j as nat, |x: int| g + 1).push(g + 1));
            }
        }
        proof {
            let t = cv.take(g + 1);
            assert(t.drop_last() =~= cv.take(g as int));
            assert(t.last() == cv[g as int]);
            assert(cv[g as int].2.take(members@.len() as int) =~= cv[g as int].2);
            assert(t.len() as int == g + 1);
            assert(Seq::new(members@.len(), |x: int| g + 1) =~= Seq::new(t.last().2.len(), |x: int| t.len() as int));
        }
    }
    proof {
        assert(cv.take(cv.len() as int) =~= cv);
    }
    (rows, groups)
}

impl App {
    /// Computes the visible rows for the view and keeps the selection within them.
    pub fn refresh_rows(&mut self)
        requires
            old(self).conflicts@.map_values(|c: Conflict| conflict_view(c)) == conflicts_upto(
                old(self).snap.binds@,
                old(self).snap.binds@.len(),
            ),
        ensures
            final(self).rows_ok(),
            forall|k: int| 0 <= k < final(self).rows@.len() ==> (#[trigger] final(self).rows@[k]) < final(self).snap.binds@.len(),
            final(self).table_sel == normalized(old(self).table_sel, final(self).rows@.len()),
            final(self).ctl() == (Ctl { table_sel: final(self).table_sel, ..old(self).ctl() }),
            final(self).same_data(old(self)),
    {
        let ghost n = self.snap.binds@.len();
        let (rows, groups) = match self.view {
            View::Cheatsheet => {
                let (active, untagged) = self.active_tags();
                let r = filter_by_tags(self.snap.binds.as_slice(), active.as_slice(), untagged);
                proof {
                    lemma_indices_where(n, |i: int| tag_visible(self.snap.binds@[i]@, active@.map_values(|t: String| t@), untagged));
                    assert(active@.map_values(|t: String| t@) == strings_view(active@));
                }
                (r, Vec::new())
            },
            View::Search => {
                let r = search(self.snap.binds.as_slice(), self.query.as_str(), self.field);
                proof {
                    lemma_search_below(self.snap.binds@, self.query@, self.field, ints(r@));
                }
                (r, Vec::new())
            },
            View::Conflicts => {
                let t = conflict_table(&self.conflicts);
                proof {
                    lemma_conflict_rows_below(self.snap.binds@, n);
                }
                t
            },
            View::FreeKeys | View::FreeCombos => (Vec::new(), Vec::new()),
        };
        proof {
            assert forall|k: int| 0 <= k < rows@.len() implies (#[trigger] rows@[k]) < n by {
                assert(ints(rows@)[k] == rows@[k] as int);
            }
        }
        self.rows = rows;
        self.row_groups = groups;
        if self.rows.len() == 0 {
            self.table_sel = None;
        } else {
            let cur = match self.table_sel {
                Some(s) => s,
                None => 0,
            };
            let last = self.rows.len() - 1;
            self.table_sel = Some(if cur < last { cur } else { last });
        }
    }
}

// ---------------------------------------------------------------------------
// Rebuilding after a load
// ---------------------------------------------------------------------------

/// The activity last recorded for a tag name, if any.
pub open spec fn lookup(tags: Seq<(Seq<char>, bool)>, name: Seq<char>) -> Option<bool>
    decreases tags.len(),
{
    if tags.len() == 0 {
        None
    } else if tags.last().0 == name {
        Some(tags.last().1)
    } else {
        lookup(tags.drop_last(), name)
    }
}

/// The activity a tag keeps across a reload: what it had, active when it is new.
pub open spec fn kept(tags: Seq<(Seq<char>, bool)>, name: Seq<char>) -> bool {
    match lookup(tags, name) {
        Some(a) => a,
        None => true,
    }
}

/// The tags panel of a snapshot: its distinct tags, sorted, then the pseudo-tag
/// when some bind has none; each with the activity it had in `before`, active when
/// it is new.
pub open spec fn tags_for(before: Seq<(Seq<char>, bool)>, binds: Seq<BindView>, tv: Seq<(Seq<char>, bool)>) -> bool {
    let names = tv.map_values(|p: (Seq<char>, bool)| p.0);
    &&& tv == names.map_values(|n: Seq<char>| (n, kept(before, n)))
    &&& if exists|k: int| 0 <= k < binds.len() && (#[trigger] binds[k]).tags.len() == 0 {
        names.len() > 0 && names.last() == UNTAGGED@ && all_tags_ok(binds, names.drop_last())
    } else {
        all_tags_ok(binds, names)
    }
}

fn lookup_tag(tags: &Vec<TagState>, name: &String) -> (r: Option<bool>)
    ensures
        r == lookup(tags_view(tags@), name@),
{
    let ghost tv = tags_view(tags@);
    let mut i = tags.len();
    proof {
        assert(tv.take(tv.len() as int) =~= tv);
    }
    while i > 0
        invariant
            i <= tags.len(),
            tv == tags_view(tags@),
            lookup(tv, name@) == lookup(tv.take(i as int), name@),
        decreases i,
    {
        let t = &tags[i - 1];
        proof {
            assert(tv.take(i as int).drop_last() =~= tv.take(i - 1));
            assert(tv.take(i as int).last() == (t.name@, t.active));
        }
        if t.name == *name {
            return Some(t.active);
        }
        i = i - 1;
    }
    proof {
        assert(tv.take(0) =~= Seq::<(Seq<char>, bool)>::empty());
    }
    None
}

/// The tags of a new snapshot: its distinct tags, sorted, then the pseudo-tag when
/// some bind has none; each keeps the activity it had in `old_tags`.
fn tags_after_load(old_tags: &Vec<TagState>, snap: &Snapshot) -> (tags: Vec<TagState>)
    ensures
        tags_for(tags_view(old_tags@), snap@.binds, tags_view(tags@)),
{
    let ghost old_tv = tags_view(old_tags@);
    let ghost sb = snap@.binds;
    let names = snap.all_tags();
    let mut tags: Vec<TagState> = Vec::new();
    for i in 0..names.len()
        invariant
            old_tv == tags_view(old_tags@),
            tags_view(tags@) == strings_view(names@.take(i as int)).map_values(|n: Seq<char>| (n, kept(old_tv, n))),
    {
        let a = lookup_tag(old_tags, &names[i]);
        let nm = names[i].clone();
        let active = match a {
            Some(x) => x,
            None => true,
        };
        let ghost before = tags_view(tags@);
        tags.push(TagState { name: nm, active: active });
        proof {
            assert(tags_view(tags@) =~= before.push((nm@, active)));
            assert(strings_view(names@.take(i + 1)) =~= strings_view(names@.take(i as int)).push(nm@));
            assert(strings_view(names@.take(i + 1)).map_values(|n: Seq<char>| (n, kept(old_tv, n))) =~= strings_view(names@.take(i as int)).map_values(|n: Seq<char>| (n, kept(old_tv, n))).push((nm@, active)));
        }
    }
    proof {
        assert(names@.take(names@.len() as int) =~= names@);
    }
    let ghost base = strings_view(names@);
    if snap.has_untagged() {
        let u = crate::text::string_lit(UNTAGGED);
        let a = lookup_tag(old_tags, &u);
        let active = match a {
            Some(x) => x,
            None => true,
        };
        let ghost before = tags_view(tags@);
        let ghost uv = u@;
        tags.push(TagState { name: u, active: active });
        proof {
            assert(tags_view(tags@) =~= before.push((uv, active)));
            assert(base.push(uv).map_values(|n: Seq<char>| (n, kept(old_tv, n))) =~= base.map_values(|n: Seq<char>| (n, kept(old_tv, n))).push((uv, active)));
            assert(tags_view(tags@).map_values(|p: (Seq<char>, bool)| p.0) =~= base.push(uv));
            assert(base.push(uv).drop_last() =~= base);
        }
    } else {
        proof {
            assert(tags_view(tags@).map_values(|p: (Seq<char>, bool)| p.0) =~= base);
        }
    }
    tags
}

impl App {
    /// Recomputes the combinations offered for the chosen submap.
    fn rebuild_combos(&mut self)
        ensures
            combos_ok(final(self).snap.binds@, old(self).submap_view(), final(self).combos@),
            final(self).combo_idx == clamped(old(self).combo_idx, final(self).combos@.len()),
            final(self).ctl() == (Ctl { combo_idx: final(self).combo_idx, ..old(self).ctl() }),
            final(self).t == old(self).t,
            final(self).opts == old(self).opts,
            final(self).snap == old(self).snap,
            final(self).conflicts == old(self).conflicts,
            final(self).submaps == old(self).submaps,
            final(self).rows == old(self).rows,
            final(self).row_groups == old(self).row_groups,
    {
        let combos = combo_candidates(self.snap.binds.as_slice(), self.submap());
        self.combos = combos;
        if self.combos.len() == 0 {
            self.combo_idx = 0;
        } else if self.combo_idx >= self.combos.len() {
            self.combo_idx = self.combos.len() - 1;
        }
    }

    /// Switches to a view, at its top, with the first row selected.
    pub fn set_view(&mut self, v: View)
        requires
            old(self).wf(),
        ensures
            final(self).wf(),
            final(self).ctl() == (Ctl {
                view: v,
                scroll: 0,
                table_offset: 0,
                table_sel: normalized(Some(0), final(self).rows@.len()),
                ..old(self).ctl()
            }),
            final(self).same_data(old(self)),
    {
        self.view = v;
        self.scroll = 0;
        self.table_sel = Some(0);
        self.table_offset = 0;
        self.refresh_rows();
    }

    /// Recomputes everything derived from the snapshot; tags keep their activity.
    fn rebuild(&mut self)
        ensures
            final(self).wf(),
            tags_for(tags_view(old(self).tags@), old(self).snap@.binds, tags_view(final(self).tags@)),
            final(self).ctl() == (Ctl {
                tags: tags_view(final(self).tags@),
                tag_sel: normalized(old(self).tag_sel, final(self).tags@.len()),
                submap_idx: clamped(old(self).submap_idx, final(self).submaps@.len()),
                combo_idx: clamped(old(self).combo_idx, final(self).combos@.len()),
                table_sel: normalized(old(self).table_sel, final(self).rows@.len()),
                ..old(self).ctl()
            }),
            final(self).t == old(self).t,
            final(self).opts == old(self).opts,
            final(self).snap == old(self).snap,
    {
        let tags = tags_after_load(&self.tags, &self.snap);
        self.tags = tags;
        if self.tags.len() == 0 {
            self.tag_sel = None;
        } else {
            let cur = match self.tag_sel {
                Some(c) => c,
                None => 0,
            };
            let last = self.tags.len() - 1;
            self.tag_sel = Some(if cur < last { cur } else { last });
        }
        self.rederive();
    }

    /// Recomputes the submaps, the conflicts, the combinations and the rows.
    fn rederive(&mut self)
        requires
            old(self).tag_sel matches Some(c) ==> (c < tags_view(old(self).tags@).len() || c == 0),
        ensures
            final(self).wf(),
            final(self).ctl() == (Ctl {
                submap_idx: clamped(old(self).submap_idx, final(self).submaps@.len()),
                combo_idx: clamped(old(self).combo_idx, final(self).combos@.len()),
                table_sel: normalized(old(self).table_sel, final(self).rows@.len()),
                ..old(self).ctl()
            }),
            final(self).t == old(self).t,
            final(self).opts == old(self).opts,
            final(self).snap == old(self).snap,
    {
        self.submaps = self.snap.submaps();
        if self.submap_idx >= self.submaps.len() {
            self.submap_idx = self.submaps.len() - 1;
        }
        self.conflicts = conflicts(self.snap.binds.as_slice());
        self.rebuild_combos();
        self.refresh_rows();
    }

    /// The interface's state for a snapshot, in a view and a language.
    pub fn new(opts: LoadOptions, snap: Snapshot, compact: bool, view: View, lang: Lang) -> (r: App)
        ensures
            r.wf(),
            r.t.lang == lang,
            r.opts == opts,
            r.snap == snap,
            r.view == view,
            r.focus == (if view == View::Search || view == View::FreeCombos {
                Focus::Input
            } else {
                Focus::Main
            }),
            r.compact == compact,
            r.tags_visible,
            r.table_sel == normalized(Some(0), r.rows@.len()),
            r.query@.len() == 0,
            r.letter@.len() == 0,
            r.field == SearchField::All,
            r.combo_idx == 0,
            r.submap_idx == 0,
            r.scroll == 0,
            r.table_offset == 0,
            !r.detail && !r.help && !r.quit,
            r.status@.len() == 0,
            tags_for(Seq::empty(), r.snap@.binds, tags_view(r.tags@)),
            r.tag_sel == normalized(None, tags_view(r.tags@).len()),
    {
        let mut app = App {
            t: lang.texts(),
            opts: opts,
            snap: snap,
            view: View::Cheatsheet,
            focus: Focus::Main,
            tags: Vec::new(),
            tags_visible: true,
            tag_sel: None,
            rows: Vec::new(),
            row_groups: Vec::new(),
            conflicts: Vec::new(),
            table_sel: None,
            table_offset: 0,
            query: String::new(),
            field: SearchField::All,
            letter: String::new(),
            combos: Vec::new(),
            combo_idx: 0,
            submaps: Vec::new(),
            submap_idx: 0,
            scroll: 0,
            compact: compact,
            detail: false,
            help: false,
            status: String::new(),
            quit: false,
        };
        proof {
            assert(tags_view(app.tags@) =~= Seq::<(Seq<char>, bool)>::empty());
        }
        app.rebuild();
        proof {
            assert(tags_view(app.tags@).len() == app.tags@.len());
        }
        app.set_view(view);
        if view == View::Search || view == View::FreeCombos {
            app.focus = Focus::Input;
        }
        app
    }

    /// Takes the result of a reload the program made on [`Request::Reload`]: the new
    /// snapshot, or the error shown in the status line.
    pub fn reloaded(&mut self, r: Result<Snapshot, ConfigError>)
        requires
            old(self).wf(),
        ensures
            final(self).wf(),
            final(self).t == old(self).t,
            final(self).opts == old(self).opts,
            match r {
                Ok(s) => final(self).snap == s && final(self).status@ == old(self).t.status_reloaded@
                    && tags_for(tags_view(old(self).tags@), s@.binds, tags_view(final(self).tags@))
                    && final(self).ctl() == (Ctl {
                        tags: tags_view(final(self).tags@),
                        tag_sel: normalized(old(self).tag_sel, tags_view(final(self).tags@).len()),
                        submap_idx: clamped(old(self).submap_idx, final(self).submaps@.len()),
                        combo_idx: clamped(old(self).combo_idx, final(self).combos@.len()),
                        table_sel: normalized(old(self).table_sel, final(self).rows@.len()),
                        status: final(self).status@,
                        ..old(self).ctl()
                    }),
                Err(e) => final(self).status@ == fill_spec(old(self).t.status_reload_error@, seq![e.text()])
                    && final(self).ctl() == (Ctl { status: final(self).status@, ..old(self).ctl() })
                    && final(self).same_data(old(self)),
            },
    {
        match r {
            Ok(s) => {
                self.snap = s;
                self.rebuild();
                self.status = crate::text::string_lit(self.t.status_reloaded);
            },
            Err(e) => {
                let mut args: Vec<String> = Vec::new();
                args.push(e.message());
                let st = fill(self.t.status_reload_error, args.as_slice());
                proof {
                    assert(strings_view(args@) =~= seq![e.text()]);
                }
                self.status = st;
            },
        }
    }
}

// ---------------------------------------------------------------------------
// Keys
// ---------------------------------------------------------------------------

/// The text being typed: the key in the free combos view, the query elsewhere.
pub open spec fn with_buffer(c: Ctl, b: Seq<char>) -> Ctl {
    if c.view == View::FreeCombos {
        Ctl { letter: b, ..c }
    } else {
        Ctl { query: b, ..c }
    }
}

/// A key while typing a query or a key.
pub open spec fn input_step(c: Ctl, k: KeyEvent) -> Ctl {
    let buf = if c.view == View::FreeCombos {
        c.letter
    } else {
        c.query
    };
    match k.code {
        KeyCode::Esc | KeyCode::Enter => Ctl { focus: Focus::Main, ..c },
        KeyCode::Backspace => with_buffer(c, if buf.len() > 0 { buf.drop_last() } else { buf }),
        KeyCode::Tab => if c.view == View::FreeCombos {
            c
        } else {
            Ctl { field: next_field(c.field), ..c }
        },
        KeyCode::Char(ch) => if ch == 'u' && k.ctrl {
            with_buffer(c, Seq::empty())
        } else {
            with_buffer(c, buf.push(ch))
        },
        _ => c,
    }
}

/// A key in the tags panel.
pub open spec fn tags_step(c: Ctl, k: KeyEvent) -> Ctl {
    let cur: int = match c.tag_sel {
        Some(s) => s as int,
        None => 0,
    };
    let n = c.tags.len();
    let last: int = if n > 0 { n - 1 } else { 0 };
    let code = k.code;
    if code == KeyCode::Char('j') || code == KeyCode::Down {
        Ctl { tag_sel: Some((if cur < last { cur + 1 } else { last }) as usize), ..c }
    } else if code == KeyCode::Char('k') || code == KeyCode::Up {
        Ctl { tag_sel: Some((if cur > 0 { cur - 1 } else { 0 }) as usize), ..c }
    } else if code == KeyCode::Char(' ') || code == KeyCode::Enter {
        if cur < n {
            Ctl { tags: c.tags.update(cur, (c.tags[cur].0, !c.tags[cur].1)), ..c }
        } else {
            c
        }
    } else if code == KeyCode::Char('a') {
        Ctl { tags: c.tags.map_values(|p: (Seq<char>, bool)| (p.0, true)), ..c }
    } else if code == KeyCode::Char('n') {
        Ctl { tags: c.tags.map_values(|p: (Seq<char>, bool)| (p.0, false)), ..c }
    } else if code == KeyCode::Char('o') {
        Ctl { tags: Seq::new(n, |i: int| (c.tags[i].0, i == cur)), ..c }
    } else if code == KeyCode::Esc || code == KeyCode::Tab || code == KeyCode::Char('t') {
        Ctl { focus: Focus::Main, ..c }
    } else if code == KeyCode::Char('q') {
        Ctl { quit: true, ..c }
    } else {
        c
    }
}

/// A view switched to, at its top, its first row selected.
pub open spec fn switched(c: Ctl, v: View) -> Ctl {
    Ctl { view: v, scroll: 0, table_sel: Some(0), table_offset: 0, ..c }
}

/// The selection moved by `delta` rows within a table of `n`.
pub open spec fn moved(c: Ctl, delta: int, n: nat) -> Ctl {
    if n == 0 {
        c
    } else {
        let cur: int = match c.table_sel {
            Some(s) => s as int,
            None => 0,
        };
        let t = cur + delta;
        Ctl { table_sel: Some((if t < 0 { 0 } else if t > n - 1 { n - 1 } else { t }) as usize), ..c }
    }
}

/// Row `i` selected in a table of `n`, the last one when past it.
pub open spec fn selected_at(c: Ctl, i: int, n: nat) -> Ctl {
    if n == 0 {
        c
    } else {
        Ctl { table_sel: Some((if i < n - 1 { i } else { n - 1 }) as usize), ..c }
    }
}

/// A key in the main panel, with the number of rows, combinations and submaps.
pub open spec fn main_step(c: Ctl, k: KeyEvent, n_rows: nat, n_combos: nat, n_submaps: nat) -> (Ctl, Request) {
    let text_view = c.view == View::FreeKeys || c.view == View::FreeCombos;
    let stay = Request::Nothing;
    match k.code {
        KeyCode::Char('q') => (Ctl { quit: true, ..c }, stay),
        KeyCode::Esc => (if c.view != View::Cheatsheet { switched(c, View::Cheatsheet) } else { c }, stay),
        KeyCode::Char('?') => (Ctl { help: true, ..c }, stay),
        KeyCode::Char('r') => (c, Request::Reload),
        KeyCode::Char('m') => (Ctl { compact: !c.compact, ..c }, stay),
        KeyCode::Char('T') => (Ctl { tags_visible: !c.tags_visible, ..c }, stay),
        KeyCode::Char('1') => (switched(c, View::Cheatsheet), stay),
        KeyCode::Char('/') => (Ctl { focus: Focus::Input, ..switched(c, View::Search) }, stay),
        KeyCode::Char('i') => (if c.view == View::Search { Ctl { focus: Focus::Input, ..c } } else { c }, stay),
        KeyCode::Tab | KeyCode::Char('t') => if k.code == KeyCode::Tab && c.view == View::Search {
            (Ctl { field: next_field(c.field), ..c }, stay)
        } else {
            (
                Ctl {
                    tags_visible: true,
                    tag_sel: if c.tag_sel is None && c.tags.len() > 0 { Some(0) } else { c.tag_sel },
                    focus: Focus::Tags,
                    ..c
                },
                stay,
            )
        },
        KeyCode::Char('f') => (switched(c, View::FreeKeys), stay),
        KeyCode::Char('c') => (switched(c, View::Conflicts), stay),
        KeyCode::Char('p') | KeyCode::Left => (
            if c.view == View::FreeKeys {
                Ctl {
                    combo_idx: if c.combo_idx == 0 {
                        (if n_combos > 0 { n_combos - 1 } else { 0 }) as usize
                    } else {
                        (c.combo_idx - 1) as usize
                    },
                    ..c
                }
            } else {
                c
            },
            stay,
        ),
        KeyCode::Char('n') | KeyCode::Right => (
            if c.view == View::FreeKeys && n_combos > 0 {
                Ctl { combo_idx: ((c.combo_idx + 1) % (n_combos as int)) as usize, ..c }
            } else {
                c
            },
            stay,
        ),
        KeyCode::Char('l') => (Ctl { focus: Focus::Input, ..switched(c, View::FreeCombos) }, stay),
        KeyCode::Char('s') => (
            if text_view {
                Ctl { submap_idx: ((c.submap_idx + 1) % (if n_submaps > 0 { n_submaps as int } else { 1 })) as usize, ..c }
            } else {
                c
            },
            stay,
        ),
        KeyCode::Char('j') | KeyCode::Down => (
            if text_view {
                Ctl { scroll: (if c.scroll < 65535 { c.scroll + 1 } else { 65535 }) as u16, ..c }
            } else {
                moved(c, 1, n_rows)
            },
            stay,
        ),
        KeyCode::Char('k') | KeyCode::Up => (
            if text_view {
                Ctl { scroll: (if c.scroll > 0 { c.scroll - 1 } else { 0 }) as u16, ..c }
            } else {
                moved(c, -1, n_rows)
            },
            stay,
        ),
        KeyCode::PageDown => (moved(c, 10, n_rows), stay),
        KeyCode::PageUp => (moved(c, -10, n_rows), stay),
        KeyCode::Char('g') | KeyCode::Home => (selected_at(c, 0, n_rows), stay),
        KeyCode::Char('G') | KeyCode::End => (selected_at(c, usize::MAX as int, n_rows), stay),
        KeyCode::Enter => (if c.table_sel is Some { Ctl { detail: true, ..c } } else { c }, stay),
        _ => (c, stay),
    }
}

/// What a key does to the controls, and what it asks of the program. The status
/// line is cleared first; the help window closes on any key; the detail window on
/// Esc, Enter or `q`; otherwise the focused panel takes the key.
pub open spec fn key_step(c0: Ctl, k: KeyEvent, n_rows: nat, n_combos: nat, n_submaps: nat) -> (Ctl, Request) {
    let c = Ctl { status: Seq::empty(), ..c0 };
    if c.help {
        (Ctl { help: false, ..c }, Request::Nothing)
    } else if c.detail {
        (
            if k.code == KeyCode::Esc || k.code == KeyCode::Enter || k.code == KeyCode::Char('q') {
                Ctl { detail: false, ..c }
            } else {
                c
            },
            Request::Nothing,
        )
    } else {
        match c.focus {
            Focus::Input => (input_step(c, k), Request::Nothing),
            Focus::Tags => (tags_step(c, k), Request::Nothing),
            Focus::Main => main_step(c, k, n_rows, n_combos, n_submaps),
        }
    }
}

/// The controls after the same key is pressed `times` times, the numbers of rows,
/// combinations and submaps staying as they are.
pub open spec fn pressed(c: Ctl, k: KeyEvent, times: nat, n_rows: nat, n_combos: nat, n_submaps: nat) -> Ctl
    decreases times,
{
    if times == 0 {
        c
    } else {
        key_step(pressed(c, k, (times - 1) as nat, n_rows, n_combos, n_submaps), k, n_rows, n_combos, n_submaps).0
    }
}

/// Next (`n`, →) or previous (`p`, ←) combination.
pub open spec fn is_next_key(k: KeyEvent) -> bool {
    k.code == KeyCode::Right || k.code == KeyCode::Char('n')
}

pub open spec fn is_prev_key(k: KeyEvent) -> bool {
    k.code == KeyCode::Left || k.code == KeyCode::Char('p')
}

/// Where the chosen combination is after `times` presses from `start`, among `n`.
pub open spec fn combo_after(start: int, k: KeyEvent, times: nat, n: nat) -> int {
    if is_next_key(k) {
        (start + times) % (n as int)
    } else {
        (start + times * (n - 1)) % (n as int)
    }
}

proof fn lemma_pressed_combo(c: Ctl, k: KeyEvent, times: nat, n_rows: nat, n_combos: nat, n_submaps: nat)
    requires
        c.focus == Focus::Main,
        c.view == View::FreeKeys,
        !c.help,
        !c.detail,
        1 <= n_combos <= usize::MAX,
        c.combo_idx < n_combos,
        is_next_key(k) || is_prev_key(k),
    ensures
        ({
            let r = pressed(c, k, times, n_rows, n_combos, n_submaps);
            &&& r.combo_idx == combo_after(c.combo_idx as int, k, times, n_combos)
            &&& r.combo_idx < n_combos
            &&& r == (Ctl { combo_idx: r.combo_idx, status: r.status, ..c })
            &&& times > 0 ==> r.status.len() == 0
        }),
    decreases times,
{
    let n = n_combos as int;
    let i = c.combo_idx as int;
    if times == 0 {
        lemma_small_mod(c.combo_idx as nat, n_combos);
        assert(times * (n - 1) == 0) by (nonlinear_arith)
            requires
                times == 0,
        ;
    } else {
        lemma_pressed_combo(c, k, (times - 1) as nat, n_rows, n_combos, n_submaps);
        let p = pressed(c, k, (times - 1) as nat, n_rows, n_combos, n_submaps);
        let x = p.combo_idx as int;
        let r = pressed(c, k, times, n_rows, n_combos, n_submaps);
        let q = Ctl { status: Seq::empty(), ..p };
        assert(r == main_step(q, k, n_rows, n_combos, n_submaps).0);
        lemma_mod_bound(x + 1, n);
        if is_next_key(k) {
            assert(r.combo_idx == (x + 1) % n);
            lemma_add_mod_noop_right(1, i + (times - 1), n);
        } else {
            assert(r.combo_idx == if x == 0 { n - 1 } else { x - 1 });
            if x == 0 {
                lemma_small_mod((n - 1) as nat, n as nat);
            } else {
                lemma_mod_multiples_vanish(1, x - 1, n);
                lemma_small_mod((x - 1) as nat, n as nat);
            }
            assert((x + (n - 1)) % n == if x == 0 { n - 1 } else { x - 1 });
            let a = i + (times - 1) * (n - 1);
            lemma_add_mod_noop_right(n - 1, a, n);
            assert(a + (n - 1) == i + times * (n - 1)) by (nonlinear_arith)
                requires
                    a == i + (times - 1) * (n - 1),
                    times >= 1,
            ;
        }
        lemma_mod_bound(r.combo_idx as int, n);
    }
}

proof fn lemma_combo_step(c: Ctl, k: KeyEvent, n_rows: nat, n_combos: nat, n_submaps: nat)
    requires
        c.focus == Focus::Main,
        c.view == View::FreeKeys,
        !c.help,
        !c.detail,
        1 <= n_combos <= usize::MAX,
        c.combo_idx < n_combos,
        is_next_key(k) || is_prev_key(k),
    ensures
        ({
            let r = key_step(c, k, n_rows, n_combos, n_submaps).0;
            &&& r.view == View::FreeKeys
            &&& r.tags == c.tags
            &&& r.combo_idx < n_combos
            &&& is_next_key(k) ==> r.combo_idx == (c.combo_idx + 1) % (n_combos as int)
            &&& is_prev_key(k) ==> r.combo_idx == (c.combo_idx + n_combos - 1) % (n_combos as int)
        }),
{
    lemma_mod_bound(c.combo_idx + 1, n_combos as int);
    lemma_prev_index(c.combo_idx as int, n_combos as int);
}

proof fn lemma_prev_index(i: int, n: int)
    requires
        0 <= i < n,
    ensures
        (i + n - 1) % n == (if i == 0 { n - 1 } else { i - 1 }),
{
    if i == 0 {
        lemma_small_mod((n - 1) as nat, n as nat);
    } else {
        lemma_mod_multiples_vanish(1, i - 1, n);
        lemma_small_mod((i - 1) as nat, n as nat);
    }
}

proof fn lemma_mod_bound(x: int, n: int)
    requires
        n > 0,
    ensures
        0 <= x % n < n,
{
}

/// In the free keys view, `n` or → chooses the next combination and `p` or ← the
/// previous one, round the list: after `times` presses the choice has moved that
/// many places, so as many presses as there are combinations come back to the
/// start. Nothing else changes but the status line, which is cleared.
pub proof fn lemma_combo_cycle(c: Ctl, k: KeyEvent, times: nat, n_rows: nat, n_combos: nat, n_submaps: nat)
    requires
        c.focus == Focus::Main,
        c.view == View::FreeKeys,
        !c.help,
        !c.detail,
        1 <= n_combos <= usize::MAX,
        c.combo_idx < n_combos,
        is_next_key(k) || is_prev_key(k),
    ensures
        pressed(c, k, times, n_rows, n_combos, n_submaps).combo_idx == combo_after(c.combo_idx as int, k, times, n_combos),
        pressed(c, k, times, n_rows, n_combos, n_submaps) == (Ctl {
            combo_idx: pressed(c, k, times, n_rows, n_combos, n_submaps).combo_idx,
            status: pressed(c, k, times, n_rows, n_combos, n_submaps).status,
            ..c
        }),
        pressed(c, k, n_combos, n_rows, n_combos, n_submaps).combo_idx == c.combo_idx,
{
    lemma_pressed_combo(c, k, times, n_rows, n_combos, n_submaps);
    lemma_pressed_combo(c, k, n_combos, n_rows, n_combos, n_submaps);
    let n = n_combos as int;
    let i = c.combo_idx as int;
    lemma_small_mod(c.combo_idx as nat, n_combos);
    if is_next_key(k) {
        lemma_mod_multiples_vanish(1, i, n);
    } else {
        lemma_mod_multiples_vanish(n - 1, i, n);
        assert(n_combos * (n - 1) == n * (n - 1));
    }
}

impl App {
    /// Replaces the text being typed.
    fn set_buffer(&mut self, b: String)
        ensures
            final(self).ctl() == with_buffer(old(self).ctl(), b@),
            final(self).same_data(old(self)),
            final(self).rows == old(self).rows,
            final(self).row_groups == old(self).row_groups,
    {
        if self.view == View::FreeCombos {
            self.letter = b;
        } else {
            self.query = b;
        }
    }

    fn key_input(&mut self, k: KeyEvent)
        requires
            old(self).wf(),
        ensures
            final(self).wf(),
            final(self).ctl() == ({
                let c = input_step(old(self).ctl(), k);
                Ctl { table_sel: normalized(c.table_sel, final(self).rows@.len()), ..c }
            }),
            final(self).same_data(old(self)),
    {
        let is_letter = self.view == View::FreeCombos;
        let buf = if is_letter {
            chars_of(self.letter.as_str())
        } else {
            chars_of(self.query.as_str())
        };
        match k.code {
            KeyCode::Esc | KeyCode::Enter => {
                self.focus = Focus::Main;
            },
            KeyCode::Backspace => {
                let mut b = buf;
                if b.len() > 0 {
                    b.pop();
                }
                self.set_buffer(string_of(&b));
            },
            KeyCode::Tab => {
                if !is_letter {
                    self.field = self.field.next();
                }
            },
            KeyCode::Char(ch) => {
                if ch == 'u' && k.ctrl {
                    self.set_buffer(String::new());
                } else {
                    let mut b = buf;
                    b.push(ch);
                    self.set_buffer(string_of(&b));
                }
            },
            _ => {},
        }
        if !is_letter {
            self.refresh_rows();
        }
    }
}

/// The same tags with new activities: all `value`, or, with `only`, only tag `only`.
fn tags_set(tags: &Vec<TagState>, value: bool, only: Option<usize>) -> (r: Vec<TagState>)
    ensures
        tags_view(r@) == Seq::new(
            tags@.len(),
            |i: int| (tags_view(tags@)[i].0, match only {
                Some(c) => i == c,
                None => value,
            }),
        ),
{
    let ghost tv = tags_view(tags@);
    let ghost want = Seq::new(
        tags@.len(),
        |i: int| (tv[i].0, match only {
            Some(c) => i == c,
            None => value,
        }),
    );
    let mut r: Vec<TagState> = Vec::new();
    for i in 0..tags.len()
        invariant
            tv == tags_view(tags@),
            want == Seq::new(
                tags@.len(),
                |i: int| (tv[i].0, match only {
                    Some(c) => i == c,
                    None => value,
                }),
            ),
            tags_view(r@) == want.take(i as int),
    {
        let a = match only {
            Some(c) => i == c,
            None => value,
        };
        let nm = tags[i].name.clone();
        let ghost before = tags_view(r@);
        r.push(TagState { name: nm, active: a });
        proof {
            assert(tags_view(r@) =~= before.push((nm@, a)));
            assert(want.take(i + 1) =~= want.take(i as int).push(want[i as int]));
        }
    }
    proof {
        assert(want.take(want.len() as int) =~= want);
    }
    r
}

/// The same tags with tag `cur` switched.
fn tags_toggled(tags: &Vec<TagState>, cur: usize) -> (r: Vec<TagState>)
    requires
        cur < tags@.len(),
    ensures
        tags_view(r@) == tags_view(tags@).update(cur as int, (tags_view(tags@)[cur as int].0, !tags_view(tags@)[cur as int].1)),
{
    let ghost tv = tags_view(tags@);
    let ghost want = tv.update(cur as int, (tv[cur as int].0, !tv[cur as int].1));
    let mut r: Vec<TagState> = Vec::new();
    for i in 0..tags.len()
        invariant
            tv == tags_view(tags@),
            cur < tv.len(),
            want == tv.update(cur as int, (tv[cur as int].0, !tv[cur as int].1)),
            tags_view(r@) == want.take(i as int),
    {
        let a = if i == cur { !tags[i].active } else { tags[i].active };
        let nm = tags[i].name.clone();
        let ghost before = tags_view(r@);
        r.push(TagState { name: nm, active: a });
        proof {
            assert(tags_view(r@) =~= before.push((nm@, a)));
            assert(want.take(i + 1) =~= want.take(i as int).push(want[i as int]));
        }
    }
    proof {
        assert(want.take(want.len() as int) =~= want);
    }
    r
}

impl App {
    /// What a key in the tags panel changes, before the rows follow.
    #[verifier::rlimit(40)]
    fn tags_effect(&mut self, k: KeyEvent)
        requires
            old(self).wf(),
        ensures
            final(self).ctl() == tags_step(old(self).ctl(), k),
            final(self).same_data(old(self)),
            final(self).tag_sel matches Some(c) ==> (c < tags_view(final(self).tags@).len() || c == 0),
    {
        let cur = match self.tag_sel {
            Some(c) => c,
            None => 0,
        };
        let n = self.tags.len();
        let last = if n > 0 { n - 1 } else { 0 };
        let down = if cur < last { cur + 1 } else { last };
        proof {
            assert(tags_view(self.tags@).len() == n);
        }
        let code = k.code;
        if code == KeyCode::Char('j') || code == KeyCode::Down {
            self.tag_sel = Some(down);
        } else if code == KeyCode::Char('k') || code == KeyCode::Up {
            self.tag_sel = Some(if cur > 0 { cur - 1 } else { 0 });
        } else if code == KeyCode::Char(' ') || code == KeyCode::Enter {
            if cur < n {
                let t = tags_toggled(&self.tags, cur);
                self.tags = t;
            }
        } else if code == KeyCode::Char('a') {
            let t = tags_set(&self.tags, true, None);
            self.tags = t;
            proof {
                assert(tags_view(self.tags@) =~= tags_view(old(self).tags@).map_values(|p: (Seq<char>, bool)| (p.0, true)));
            }
        } else if code == KeyCode::Char('n') {
            let t = tags_set(&self.tags, false, None);
            self.tags = t;
            proof {
                assert(tags_view(self.tags@) =~= tags_view(old(self).tags@).map_values(|p: (Seq<char>, bool)| (p.0, false)));
            }
        } else if code == KeyCode::Char('o') {
            let t = tags_set(&self.tags, false, Some(cur));
            self.tags = t;
            proof {
                let ov = tags_view(old(self).tags@);
                assert(tags_view(self.tags@) =~= Seq::new(ov.len(), |i: int| (ov[i].0, i == cur)));
            }
        } else if code == KeyCode::Esc || code == KeyCode::Tab || code == KeyCode::Char('t') {
            self.focus = Focus::Main;
        } else if code == KeyCode::Char('q') {
            self.quit = true;
        }
        proof {
            assert(tags_view(self.tags@).len() == self.tags@.len());
            assert(self.tags@.len() == n);
        }
    }

    fn key_tags(&mut self, k: KeyEvent)
        requires
            old(self).wf(),
        ensures
            final(self).wf(),
            final(self).ctl() == ({
                let c = tags_step(old(self).ctl(), k);
                Ctl { table_sel: normalized(c.table_sel, final(self).rows@.len()), ..c }
            }),
            final(self).same_data(old(self)),
    {
        self.tags_effect(k);
        self.refresh_rows();
    }
}

impl App {
    /// Moves the selection by `delta` rows, within the table.
    fn move_sel(&mut self, delta: i64)
        requires
            old(self).wf(),
        ensures
            final(self).wf(),
            final(self).ctl() == moved(old(self).ctl(), delta as int, old(self).rows@.len()),
            final(self).same_data(old(self)),
            final(self).rows == old(self).rows,
    {
        let n = self.rows.len();
        if n == 0 {
            return;
        }
        let cur = match self.table_sel {
            Some(s) => s,
            None => 0,
        };
        let last = n - 1;
        let next = if delta >= 0 {
            let d = delta as u64;
            if (cur as u64) < (last as u64) && d < (last - cur) as u64 {
                cur + (d as usize)
            } else {
                last
            }
        } else {
            let d = (0 - (delta as i128)) as u128;
            if d > (cur as u128) {
                0
            } else {
                cur - (d as usize)
            }
        };
        self.table_sel = Some(next);
    }

    /// Selects row `i`, or the last one when past it.
    fn select_abs(&mut self, i: usize)
        requires
            old(self).wf(),
        ensures
            final(self).wf(),
            final(self).ctl() == selected_at(old(self).ctl(), i as int, old(self).rows@.len()),
            final(self).same_data(old(self)),
            final(self).rows == old(self).rows,
    {
        let n = self.rows.len();
        if n == 0 {
            return;
        }
        self.table_sel = Some(if i < n - 1 { i } else { n - 1 });
    }
}

impl App {
    /// Moves the focus to another panel.
    fn set_focus(&mut self, f: Focus)
        requires
            old(self).wf(),
        ensures
            final(self).wf(),
            final(self).ctl() == (Ctl { focus: f, ..old(self).ctl() }),
            final(self).same_data(old(self)),
    {
        self.focus = f;
    }
}

/// Keys of the main panel that switch the view, or the search field.
pub open spec fn switches_view(c: Ctl, k: KeyEvent) -> bool {
    ||| k.code == KeyCode::Esc
    ||| k.code == KeyCode::Char('1')
    ||| k.code == KeyCode::Char('/')
    ||| k.code == KeyCode::Char('f')
    ||| k.code == KeyCode::Char('c')
    ||| k.code == KeyCode::Char('l')
    ||| (k.code == KeyCode::Tab && c.view == View::Search)
}

/// Keys of the main panel that move in the table or the text, or change submap.
pub open spec fn moves(k: KeyEvent) -> bool {
    ||| k.code == KeyCode::Char('j')
    ||| k.code == KeyCode::Down
    ||| k.code == KeyCode::Char('k')
    ||| k.code == KeyCode::Up
    ||| k.code == KeyCode::PageDown
    ||| k.code == KeyCode::PageUp
    ||| k.code == KeyCode::Char('g')
    ||| k.code == KeyCode::Home
    ||| k.code == KeyCode::Char('G')
    ||| k.code == KeyCode::End
    ||| k.code == KeyCode::Char('s')
}

impl App {
    #[verifier::rlimit(40)]
    fn main_switch(&mut self, k: KeyEvent) -> (r: Request)
        requires
            old(self).wf(),
            switches_view(old(self).ctl(), k),
        ensures
            final(self).wf(),
            ({
                let (c, req) = main_step(old(self).ctl(), k, old(self).rows@.len(), old(self).combos@.len(), old(self).submaps@.len());
                &&& r == req
                &&& final(self).ctl() == (Ctl {
                    table_sel: normalized(c.table_sel, final(self).rows@.len()),
                    combo_idx: clamped(c.combo_idx, final(self).combos@.len()),
                    ..c
                })
            }),
            final(self).t == old(self).t,
            final(self).opts == old(self).opts,
            final(self).snap == old(self).snap,
            final(self).conflicts == old(self).conflicts,
            final(self).submaps == old(self).submaps,
            k.code != KeyCode::Char('s') ==> final(self).combos == old(self).combos,
    {
        let code = k.code;
        if code == KeyCode::Esc {
            if self.view != View::Cheatsheet {
                self.set_view(View::Cheatsheet);
            }
        } else if code == KeyCode::Char('1') {
            self.set_view(View::Cheatsheet);
        } else if code == KeyCode::Char('/') {
            self.set_view(View::Search);
            self.set_focus(Focus::Input);
        } else if code == KeyCode::Char('f') {
            self.set_view(View::FreeKeys);
        } else if code == KeyCode::Char('c') {
            self.set_view(View::Conflicts);
        } else if code == KeyCode::Char('l') {
            self.set_view(View::FreeCombos);
            self.set_focus(Focus::Input);
        } else {
            self.field = self.field.next();
            self.refresh_rows();
        }
        Request::Nothing
    }

    #[verifier::rlimit(40)]
    fn main_move(&mut self, k: KeyEvent) -> (r: Request)
        requires
            old(self).wf(),
            moves(k),
        ensures
            final(self).wf(),
            ({
                let (c, req) = main_step(old(self).ctl(), k, old(self).rows@.len(), old(self).combos@.len(), old(self).submaps@.len());
                &&& r == req
                &&& final(self).ctl() == (Ctl {
                    table_sel: normalized(c.table_sel, final(self).rows@.len()),
                    combo_idx: clamped(c.combo_idx, final(self).combos@.len()),
                    ..c
                })
            }),
            final(self).t == old(self).t,
            final(self).opts == old(self).opts,
            final(self).snap == old(self).snap,
            final(self).conflicts == old(self).conflicts,
            final(self).submaps == old(self).submaps,
            k.code != KeyCode::Char('s') ==> final(self).combos == old(self).combos,
    {
        let code = k.code;
        let text_view = self.view == View::FreeKeys || self.view == View::FreeCombos;
        if code == KeyCode::Char('s') {
            if text_view {
                proof {
                    assert(strings_view(self.submaps@).len() == self.submaps@.len());
                }
                let m = if self.submaps.len() > 0 { self.submaps.len() } else { 1 };
                self.submap_idx = (self.submap_idx + 1) % m;
                self.rebuild_combos();
            }
        } else if code == KeyCode::Char('j') || code == KeyCode::Down {
            if text_view {
                self.scroll = if self.scroll < 65535 { self.scroll + 1 } else { 65535 };
            } else {
                self.move_sel(1);
            }
        } else if code == KeyCode::Char('k') || code == KeyCode::Up {
            if text_view {
                self.scroll = if self.scroll > 0 { self.scroll - 1 } else { 0 };
            } else {
                self.move_sel(-1);
            }
        } else if code == KeyCode::PageDown {
            self.move_sel(10);
        } else if code == KeyCode::PageUp {
            self.move_sel(-10);
        } else if code == KeyCode::Char('g') || code == KeyCode::Home {
            self.select_abs(0);
        } else {
            self.select_abs(usize::MAX);
        }
        Request::Nothing
    }

    #[verifier::rlimit(40)]
    fn main_other(&mut self, k: KeyEvent) -> (r: Request)
        requires
            old(self).wf(),
            !switches_view(old(self).ctl(), k),
            !moves(k),
        ensures
            final(self).wf(),
            ({
                let (c, req) = main_step(old(self).ctl(), k, old(self).rows@.len(), old(self).combos@.len(), old(self).submaps@.len());
                &&& r == req
                &&& final(self).ctl() == (Ctl {
                    table_sel: normalized(c.table_sel, final(self).rows@.len()),
                    combo_idx: clamped(c.combo_idx, final(self).combos@.len()),
                    ..c
                })
            }),
            final(self).t == old(self).t,
            final(self).opts == old(self).opts,
            final(self).snap == old(self).snap,
            final(self).conflicts == old(self).conflicts,
            final(self).submaps == old(self).submaps,
            k.code != KeyCode::Char('s') ==> final(self).combos == old(self).combos,
    {
        let code = k.code;
        if code == KeyCode::Char('q') {
            self.quit = true;
        } else if code == KeyCode::Char('?') {
            self.help = true;
        } else if code == KeyCode::Char('r') {
            return Request::Reload;
        } else if code == KeyCode::Char('m') {
            self.compact = !self.compact;
        } else if code == KeyCode::Char('T') {
            self.tags_visible = !self.tags_visible;
        } else if code == KeyCode::Char('i') {
            if self.view == View::Search {
                self.focus = Focus::Input;
            }
        } else if code == KeyCode::Tab || code == KeyCode::Char('t') {
            self.tags_visible = true;
            if self.tag_sel.is_none() && self.tags.len() > 0 {
                self.tag_sel = Some(0);
            }
            self.focus = Focus::Tags;
        } else if code == KeyCode::Char('p') || code == KeyCode::Left {
            if self.view == View::FreeKeys {
                self.combo_idx = if self.combo_idx == 0 {
                    if self.combos.len() > 0 { self.combos.len() - 1 } else { 0 }
                } else {
                    self.combo_idx - 1
                };
            }
        } else if code == KeyCode::Char('n') || code == KeyCode::Right {
            if self.view == View::FreeKeys && self.combos.len() > 0 {
                self.combo_idx = (self.combo_idx + 1) % self.combos.len();
            }
        } else if code == KeyCode::Enter {
            if self.table_sel.is_some() {
                self.detail = true;
            }
        }
        Request::Nothing
    }

    fn key_main(&mut self, k: KeyEvent) -> (r: Request)
        requires
            old(self).wf(),
        ensures
            final(self).wf(),
            ({
                let (c, req) = main_step(old(self).ctl(), k, old(self).rows@.len(), old(self).combos@.len(), old(self).submaps@.len());
                &&& r == req
                &&& final(self).ctl() == (Ctl {
                    table_sel: normalized(c.table_sel, final(self).rows@.len()),
                    combo_idx: clamped(c.combo_idx, final(self).combos@.len()),
                    ..c
                })
            }),
            final(self).t == old(self).t,
            final(self).opts == old(self).opts,
            final(self).snap == old(self).snap,
            final(self).conflicts == old(self).conflicts,
            final(self).submaps == old(self).submaps,
            k.code != KeyCode::Char('s') ==> final(self).combos == old(self).combos,
    {
        let code = k.code;
        let sw = code == KeyCode::Esc || code == KeyCode::Char('1') || code == KeyCode::Char('/')
            || code == KeyCode::Char('f') || code == KeyCode::Char('c') || code == KeyCode::Char('l')
            || (code == KeyCode::Tab && self.view == View::Search);
        let mv = code == KeyCode::Char('j') || code == KeyCode::Down || code == KeyCode::Char('k')
            || code == KeyCode::Up || code == KeyCode::PageDown || code == KeyCode::PageUp
            || code == KeyCode::Char('g') || code == KeyCode::Home || code == KeyCode::Char('G')
            || code == KeyCode::End || code == KeyCode::Char('s');
        if sw {
            self.main_switch(k)
        } else if mv {
            self.main_move(k)
        } else {
            self.main_other(k)
        }
    }

    /// Takes a key: updates the state as the key asks and says whether the program
    /// must reload the configuration.
    pub fn handle_key(&mut self, k: KeyEvent) -> (r: Request)
        requires
            old(self).wf(),
        ensures
            final(self).wf(),
            ({
                let (c, req) = key_step(old(self).ctl(), k, old(self).rows@.len(), old(self).combos@.len(), old(self).submaps@.len());
                &&& r == req
                &&& final(self).ctl() == (Ctl {
                    table_sel: normalized(c.table_sel, final(self).rows@.len()),
                    combo_idx: clamped(c.combo_idx, final(self).combos@.len()),
                    ..c
                })
            }),
            final(self).t == old(self).t,
            final(self).opts == old(self).opts,
            final(self).snap == old(self).snap,
            final(self).conflicts == old(self).conflicts,
            final(self).submaps == old(self).submaps,
            k.code != KeyCode::Char('s') ==> final(self).combos == old(self).combos,
            (old(self).focus == Focus::Main && old(self).view == View::FreeKeys && !old(self).help
                && !old(self).detail && old(self).combos@.len() >= 1 && is_next_key(k)) ==> {
                &&& final(self).combo_idx == (old(self).combo_idx + 1) % (old(self).combos@.len() as int)
                &&& final(self).combos == old(self).combos
                &&& final(self).view == old(self).view
                &&& final(self).rows@ == old(self).rows@
                &&& tags_view(final(self).tags@) == tags_view(old(self).tags@)
            },
            (old(self).focus == Focus::Main && old(self).view == View::FreeKeys && !old(self).help
                && !old(self).detail && old(self).combos@.len() >= 1 && is_prev_key(k)) ==> {
                &&& final(self).combo_idx == (old(self).combo_idx + old(self).combos@.len() - 1) % (old(self).combos@.len() as int)
                &&& final(self).combos == old(self).combos
                &&& final(self).view == old(self).view
                &&& final(self).rows@ == old(self).rows@
                &&& tags_view(final(self).tags@) == tags_view(old(self).tags@)
            },
    {
        self.status = String::new();
        if self.help {
            self.help = false;
            return Request::Nothing;
        }
        if self.detail {
            if k.code == KeyCode::Esc || k.code == KeyCode::Enter || k.code == KeyCode::Char('q') {
                self.detail = false;
            }
            return Request::Nothing;
        }
        let ghost before = *self;
        let r = self.dispatch(k);
        proof {
            let n = before.combos@.len();
            if before.focus == Focus::Main && before.view == View::FreeKeys && n >= 1
                && (is_next_key(k) || is_prev_key(k)) {
                assert(n == before.combos.len());
                lemma_combo_step(old(self).ctl(), k, old(self).rows@.len(), n, old(self).submaps@.len());
                assert(self.rows@ =~= before.rows@);
            }
        }
        r
    }

    /// Hands a key to the focused panel.
    fn dispatch(&mut self, k: KeyEvent) -> (r: Request)
        requires
            old(self).wf(),
        ensures
            final(self).wf(),
            ({
                let c0 = old(self).ctl();
                let (c, req) = match c0.focus {
                    Focus::Input => (input_step(c0, k), Request::Nothing),
                    Focus::Tags => (tags_step(c0, k), Request::Nothing),
                    Focus::Main => main_step(c0, k, old(self).rows@.len(), old(self).combos@.len(), old(self).submaps@.len()),
                };
                &&& r == req
                &&& final(self).ctl() == (Ctl {
                    table_sel: normalized(c.table_sel, final(self).rows@.len()),
                    combo_idx: clamped(c.combo_idx, final(self).combos@.len()),
                    ..c
                })
            }),
            final(self).t == old(self).t,
            final(self).opts == old(self).opts,
            final(self).snap == old(self).snap,
            final(self).conflicts == old(self).conflicts,
            final(self).submaps == old(self).submaps,
            k.code != KeyCode::Char('s') ==> final(self).combos == old(self).combos,
    {
        match self.focus {
            Focus::Input => {
                self.key_input(k);
                Request::Nothing
            },
            Focus::Tags => {
                self.key_tags(k);
                Request::Nothing
            },
            Focus::Main => self.key_main(k),
        }
    }
}

} // verus!
