//! Queries over a list of binds: filtering by tags, search, free keys, free
//! combinations for a key and conflicts.
//!
//! They all return indices into the list they are given, so that the interface can
//! map rows to binds without copying.

use vstd::prelude::*;
use crate::model::{
    mask_contains, mod_bit, names_mask, names_of, parse_key, parse_key_of, unknown_names, Bind,
    BindView, Key, KeyView, ModMask,
};
use crate::text::{
    chars_of, eq_ignore_ascii_case, eq_ignore_case, join, join_of, lowercase, starts_with,
    starts_with_of, string_of, to_lowercase_of, tokens, tokens_of, trim, trim_of,
};

verus! {

// ---------------------------------------------------------------------------
// Index sets
// ---------------------------------------------------------------------------

/// The indices below `n` where `p` holds, in increasing order.
pub open spec fn indices_where(n: nat, p: spec_fn(int) -> bool) -> Seq<int>
    decreases n,
{
    if n == 0 {
        seq![]
    } else {
        indices_where((n - 1) as nat, p) + if p(n - 1) {
            seq![n - 1]
        } else {
            seq![]
        }
    }
}

/// Indices as integers.
pub open spec fn ints(s: Seq<usize>) -> Seq<int> {
    s.map_values(|x: usize| x as int)
}

/// An optional index as an integer.
pub open spec fn opt_int(o: Option<usize>) -> Option<int> {
    match o {
        Some(i) => Some(i as int),
        None => None,
    }
}

/// The first index below `n` where `p` holds.
pub open spec fn first_where(n: nat, p: spec_fn(int) -> bool) -> Option<int>
    decreases n,
{
    if n == 0 {
        None
    } else {
        match first_where((n - 1) as nat, p) {
            Some(i) => Some(i),
            None => if p(n - 1) {
                Some(n - 1)
            } else {
                None
            },
        }
    }
}

pub proof fn lemma_first_where(n: nat, p: spec_fn(int) -> bool)
    ensures
        first_where(n, p) matches Some(i) ==> 0 <= i < n && p(i) && forall|j: int| 0 <= j < i ==> !#[trigger] p(j),
        first_where(n, p) is None ==> forall|j: int| 0 <= j < n ==> !#[trigger] p(j),
    decreases n,
{
    if n > 0 {
        lemma_first_where((n - 1) as nat, p);
    }
}

pub proof fn lemma_first_where_found(n: nat, p: spec_fn(int) -> bool, i: int)
    requires
        0 <= i < n,
        p(i),
        forall|j: int| 0 <= j < i ==> !#[trigger] p(j),
    ensures
        first_where(n, p) == Some(i),
    decreases n,
{
    if n - 1 > i {
        lemma_first_where_found((n - 1) as nat, p, i);
    } else {
        lemma_first_where((n - 1) as nat, p);
        if first_where((n - 1) as nat, p) is Some {
            let k = first_where((n - 1) as nat, p)->0;
            assert(!p(k));
        }
    }
}

pub proof fn lemma_first_where_none(n: nat, p: spec_fn(int) -> bool)
    requires
        forall|j: int| 0 <= j < n ==> !#[trigger] p(j),
    ensures
        first_where(n, p) is None,
    decreases n,
{
    if n > 0 {
        lemma_first_where_none((n - 1) as nat, p);
    }
}

pub proof fn lemma_indices_where(n: nat, p: spec_fn(int) -> bool)
    ensures
        forall|k: int| 0 <= k < indices_where(n, p).len() ==> 0 <= #[trigger] indices_where(n, p)[k] < n
            && p(indices_where(n, p)[k]),
        forall|i: int| 0 <= i < n && #[trigger] p(i) ==> indices_where(n, p).contains(i),
        forall|k: int, l: int| 0 <= k < l < indices_where(n, p).len() ==> indices_where(n, p)[k] < indices_where(n, p)[l],
    decreases n,
{
    if n > 0 {
        lemma_indices_where((n - 1) as nat, p);
        let prev = indices_where((n - 1) as nat, p);
        let cur = indices_where(n, p);
        if p(n - 1) {
            assert(cur == prev.push(n - 1));
            assert forall|i: int| 0 <= i < n && #[trigger] p(i) implies cur.contains(i) by {
                if i < n - 1 {
                    let k = choose|k: int| 0 <= k < prev.len() && prev[k] == i;
                    assert(cur[k] == i);
                } else {
                    assert(cur[cur.len() - 1] == i);
                }
            }
        } else {
            assert(cur =~= prev);
        }
    }
}

/// Every index below `n`.
pub open spec fn all_indices(n: nat) -> Seq<usize> {
    Seq::new(n, |i: int| i as usize)
}

/// The views of a list of binds.
pub open spec fn views(binds: Seq<Bind>) -> Seq<BindView> {
    binds.map_values(|b: Bind| b@)
}

// ---------------------------------------------------------------------------
// Search fields
// ---------------------------------------------------------------------------

/// Which fields [`search`] looks at.
#[derive(Clone, Copy, Debug, PartialEq, Eq, Structural)]
pub enum SearchField {
    /// Combination, action, description, tags and submap.
    All,
    /// Only the command or argument and the description: "which shortcut opens X".
    App,
    /// Only the key combination, written `super shift t`.
    Key,
}

pub open spec fn next_field(f: SearchField) -> SearchField {
    match f {
        SearchField::All => SearchField::App,
        SearchField::App => SearchField::Key,
        SearchField::Key => SearchField::All,
    }
}

/// Switching the search field three times comes back to the same field.
pub proof fn lemma_field_cycle(f: SearchField)
    ensures
        next_field(next_field(next_field(f))) == f,
        next_field(f) != f,
{
}

impl SearchField {
    pub fn next(self) -> (r: SearchField)
        ensures
            r == next_field(self),
    {
        match self {
            SearchField::All => SearchField::App,
            SearchField::App => SearchField::Key,
            SearchField::Key => SearchField::All,
        }
    }

    pub fn label(self) -> (r: &'static str)
        ensures
            r@ == match self {
                SearchField::All => "todo"@,
                SearchField::App => "aplicación"@,
                SearchField::Key => "tecla"@,
            },
    {
        match self {
            SearchField::All => "todo",
            SearchField::App => "aplicación",
            SearchField::Key => "tecla",
        }
    }
}

// ---------------------------------------------------------------------------
// Tags
// ---------------------------------------------------------------------------

/// A bind is shown under the active tags: one of its tags is active, or it has no
/// tag and untagged binds are shown.
pub open spec fn tag_visible(b: BindView, active: Seq<Seq<char>>, untagged: bool) -> bool {
    if b.tags.len() == 0 {
        untagged
    } else {
        exists|k: int| 0 <= k < b.tags.len() && active.contains(#[trigger] b.tags[k])
    }
}

fn contains_string(set: &[String], s: &String) -> (r: bool)
    ensures
        r == set@.map_values(|t: String| t@).contains(s@),
{
    let ghost sv = set@.map_values(|t: String| t@);
    for i in 0..set.len()
        invariant
            sv == set@.map_values(|t: String| t@),
            forall|j: int| 0 <= j < i ==> sv[j] != s@,
    {
        if set[i] == *s {
            proof {
                assert(sv[i as int] == s@);
            }
            return true;
        }
    }
    false
}

fn visible(b: &Bind, active: &[String], untagged: bool) -> (r: bool)
    ensures
        r == tag_visible(b@, active@.map_values(|t: String| t@), untagged),
{
    if b.tags.len() == 0 {
        return untagged;
    }
    let ghost act = active@.map_values(|t: String| t@);
    for k in 0..b.tags.len()
        invariant
            act == active@.map_values(|t: String| t@),
            forall|j: int| 0 <= j < k ==> !act.contains(b@.tags[j]),
    {
        if contains_string(active, &b.tags[k]) {
            proof {
                assert(act.contains(b@.tags[k as int]));
            }
            return true;
        }
    }
    false
}

/// With every tag of the binds active and untagged binds shown, every bind shows,
/// in order.
pub proof fn lemma_all_tags_show_all(binds: Seq<Bind>, active: Seq<Seq<char>>)
    requires
        forall|i: int, k: int|
            0 <= i < binds.len() && 0 <= k < binds[i]@.tags.len() ==> active.contains(#[trigger] binds[i]@.tags[k]),
    ensures
        indices_where(binds.len(), |i: int| tag_visible(binds[i]@, active, true)) == Seq::new(binds.len(), |i: int| i),
{
    let p = |i: int| tag_visible(binds[i]@, active, true);
    assert forall|i: int| 0 <= i < binds.len() implies #[trigger] p(i) by {
        if binds[i]@.tags.len() > 0 {
            assert(active.contains(binds[i]@.tags[0]));
        }
    }
    lemma_indices_all(binds.len(), p);
}

/// Where `p` holds everywhere below `n`, every index below `n` is selected, in order.
pub proof fn lemma_indices_all(n: nat, p: spec_fn(int) -> bool)
    requires
        forall|i: int| 0 <= i < n ==> #[trigger] p(i),
    ensures
        indices_where(n, p) == Seq::new(n, |i: int| i),
    decreases n,
{
    if n > 0 {
        lemma_indices_all((n - 1) as nat, p);
        assert(p(n - 1));
        assert(Seq::new(n, |i: int| i) =~= Seq::new((n - 1) as nat, |i: int| i).push(n - 1));
    } else {
        assert(Seq::new(n, |i: int| i) =~= Seq::<int>::empty());
    }
}

/// Binds visible under the active tags; untagged ones are included when
/// `untagged` holds.
pub fn filter_by_tags(binds: &[Bind], active: &[String], untagged: bool) -> (r: Vec<usize>)
    ensures
        ints(r@) == indices_where(
            binds@.len(),
            |i: int| tag_visible(binds@[i]@, active@.map_values(|t: String| t@), untagged),
        ),
        forall|i: int, k: int|
            0 <= i < binds@.len() && 0 <= k < binds@[i]@.tags.len() && active@.map_values(|t: String| t@).contains(
                #[trigger] binds@[i]@.tags[k],
            ) ==> ints(r@).contains(i),
        forall|i: int|
            0 <= i < binds@.len() && #[trigger] binds@[i]@.tags.len() == 0 ==> (ints(r@).contains(i) <==> untagged),
        forall|x: int|
            #[trigger] ints(r@).contains(x) ==> 0 <= x < binds@.len() && (if binds@[x]@.tags.len() == 0 {
                untagged
            } else {
                exists|k: int| 0 <= k < binds@[x]@.tags.len() && active@.map_values(|t: String| t@).contains(binds@[x]@.tags[k])
            }),
{
    let ghost p = |i: int| tag_visible(binds@[i]@, active@.map_values(|t: String| t@), untagged);
    let mut r: Vec<usize> = Vec::new();
    for i in 0..binds.len()
        invariant
            ints(r@) == indices_where(i as nat, p),
            p == (|i: int| tag_visible(binds@[i]@, active@.map_values(|t: String| t@), untagged)),
    {
        if visible(&binds[i], active, untagged) {
            let ghost before = ints(r@);
            r.push(i);
            proof {
                assert(ints(r@) =~= before.push(i as int));
                assert(indices_where((i + 1) as nat, p) =~= indices_where(i as nat, p).push(i as int));
            }
        } else {
            proof {
                assert(indices_where((i + 1) as nat, p) =~= indices_where(i as nat, p));
            }
        }
    }
    proof {
        let act = active@.map_values(|t: String| t@);
        assert forall|i: int, k: int|
            0 <= i < binds@.len() && 0 <= k < binds@[i]@.tags.len() && act.contains(
                #[trigger] binds@[i]@.tags[k],
            ) implies ints(r@).contains(i) by {
            lemma_tag_filter(binds@, act, untagged, ints(r@), i);
        }
        assert forall|i: int|
            0 <= i < binds@.len() && #[trigger] binds@[i]@.tags.len() == 0 implies (ints(r@).contains(i) <==> untagged) by {
            lemma_tag_filter(binds@, act, untagged, ints(r@), i);
        }
        assert forall|x: int| #[trigger] ints(r@).contains(x) implies 0 <= x < binds@.len() && (if binds@[x]@.tags.len() == 0 {
            untagged
        } else {
            exists|k: int| 0 <= k < binds@[x]@.tags.len() && act.contains(binds@[x]@.tags[k])
        }) by {
            lemma_tag_filter_members(binds@, act, untagged, ints(r@), x);
        }
    }
    r
}

/// Under the active tags, a bind is listed when any one of its tags is active, and an
/// untagged bind exactly when untagged binds are shown.
pub proof fn lemma_tag_filter(binds: Seq<Bind>, active: Seq<Seq<char>>, untagged: bool, r: Seq<int>, i: int)
    requires
        r == indices_where(binds.len(), |i: int| tag_visible(binds[i]@, active, untagged)),
        0 <= i < binds.len(),
    ensures
        (exists|k: int| 0 <= k < binds[i]@.tags.len() && active.contains(#[trigger] binds[i]@.tags[k])) ==> r.contains(i),
        binds[i]@.tags.len() == 0 ==> (r.contains(i) <==> untagged),
{
    let p = |i: int| tag_visible(binds[i]@, active, untagged);
    lemma_indices_where(binds.len(), p);
    assert(p(i) == tag_visible(binds[i]@, active, untagged));
    if p(i) {
        assert(r.contains(i));
    }
    if r.contains(i) {
        let k = choose|k: int| 0 <= k < r.len() && r[k] == i;
        assert(p(r[k]));
    }
}

/// Every bind listed under the active tags has an active tag, or has none and
/// untagged binds are shown.
pub proof fn lemma_tag_filter_members(binds: Seq<Bind>, active: Seq<Seq<char>>, untagged: bool, r: Seq<int>, x: int)
    requires
        r == indices_where(binds.len(), |i: int| tag_visible(binds[i]@, active, untagged)),
        r.contains(x),
    ensures
        0 <= x < binds.len(),
        if binds[x]@.tags.len() == 0 {
            untagged
        } else {
            exists|k: int| 0 <= k < binds[x]@.tags.len() && active.contains(binds[x]@.tags[k])
        },
{
    let p = |i: int| tag_visible(binds[i]@, active, untagged);
    lemma_indices_where(binds.len(), p);
    let k = choose|k: int| 0 <= k < r.len() && r[k] == x;
    assert(p(r[k]));
}

// ---------------------------------------------------------------------------
// Free keys
// ---------------------------------------------------------------------------

/// A group of keys of the set considered for free keys.
pub struct KeyGroup {
    pub name: &'static str,
    pub keys: Vec<&'static str>,
}

/// The groups of keys considered for free keys, with their names.
pub open spec fn key_groups_spec() -> Seq<(Seq<char>, Seq<Seq<char>>)> {
    seq![
        ("Letras"@, seq!["a"@, "b"@, "c"@, "d"@, "e"@, "f"@, "g"@, "h"@, "i"@, "j"@, "k"@, "l"@, "m"@, "n"@, "o"@, "p"@, "q"@, "r"@, "s"@, "t"@, "u"@, "v"@, "w"@, "x"@, "y"@, "z"@]),
        ("Números"@, seq!["1"@, "2"@, "3"@, "4"@, "5"@, "6"@, "7"@, "8"@, "9"@, "0"@]),
        ("Función"@, seq!["F1"@, "F2"@, "F3"@, "F4"@, "F5"@, "F6"@, "F7"@, "F8"@, "F9"@, "F10"@, "F11"@, "F12"@]),
        ("Navegación"@, seq!["up"@, "down"@, "left"@, "right"@, "Home"@, "End"@, "Prior"@, "Next"@, "Insert"@, "Delete"@]),
        ("Especiales"@, seq!["Return"@, "space"@, "Tab"@, "Escape"@, "BackSpace"@, "Print"@]),
        ("Símbolos"@, seq!["grave"@, "minus"@, "equal"@, "bracketleft"@, "bracketright"@, "backslash"@, "semicolon"@, "apostrophe"@, "comma"@, "period"@, "slash"@])
    ]
}

pub open spec fn groups_view(g: Seq<KeyGroup>) -> Seq<(Seq<char>, Seq<Seq<char>>)> {
    g.map_values(|x: KeyGroup| (x.name@, x.keys@.map_values(|k: &str| k@)))
}

/// The groups of keys considered for free keys.
pub fn key_groups() -> (r: Vec<KeyGroup>)
    ensures
        groups_view(r@) == key_groups_spec(),
{
    let mut r: Vec<KeyGroup> = Vec::new();
    let mut k0: Vec<&'static str> = Vec::new();
    k0.push("a");
    k0.push("b");
    k0.push("c");
    k0.push("d");
    k0.push("e");
    k0.push("f");
    k0.push("g");
    k0.push("h");
    k0.push("i");
    k0.push("j");
    k0.push("k");
    k0.push("l");
    k0.push("m");
    k0.push("n");
    k0.push("o");
    k0.push("p");
    k0.push("q");
    k0.push("r");
    k0.push("s");
    k0.push("t");
    k0.push("u");
    k0.push("v");
    k0.push("w");
    k0.push("x");
    k0.push("y");
    k0.push("z");
    proof {
        assert(k0@.map_values(|k: &str| k@) =~= seq!["a"@, "b"@, "c"@, "d"@, "e"@, "f"@, "g"@, "h"@, "i"@, "j"@, "k"@, "l"@, "m"@, "n"@, "o"@, "p"@, "q"@, "r"@, "s"@, "t"@, "u"@, "v"@, "w"@, "x"@, "y"@, "z"@]);
    }
    r.push(KeyGroup { name: "Letras", keys: k0 });
    let mut k1: Vec<&'static str> = Vec::new();
    k1.push("1");
    k1.push("2");
    k1.push("3");
    k1.push("4");
    k1.push("5");
    k1.push("6");
    k1.push("7");
    k1.push("8");
    k1.push("9");
    k1.push("0");
    proof {
        assert(k1@.map_values(|k: &str| k@) =~= seq!["1"@, "2"@, "3"@, "4"@, "5"@, "6"@, "7"@, "8"@, "9"@, "0"@]);
    }
    r.push(KeyGroup { name: "Números", keys: k1 });
    let mut k2: Vec<&'static str> = Vec::new();
    k2.push("F1");
    k2.push("F2");
    k2.push("F3");
    k2.push("F4");
    k2.push("F5");
    k2.push("F6");
    k2.push("F7");
    k2.push("F8");
    k2.push("F9");
    k2.push("F10");
    k2.push("F11");
    k2.push("F12");
    proof {
        assert(k2@.map_values(|k: &str| k@) =~= seq!["F1"@, "F2"@, "F3"@, "F4"@, "F5"@, "F6"@, "F7"@, "F8"@, "F9"@, "F10"@, "F11"@, "F12"@]);
    }
    r.push(KeyGroup { name: "Función", keys: k2 });
    let mut k3: Vec<&'static str> = Vec::new();
    k3.push("up");
    k3.push("down");
    k3.push("left");
    k3.push("right");
    k3.push("Home");
    k3.push("End");
    k3.push("Prior");
    k3.push("Next");
    k3.push("Insert");
    k3.push("Delete");
    proof {
        assert(k3@.map_values(|k: &str| k@) =~= seq!["up"@, "down"@, "left"@, "right"@, "Home"@, "End"@, "Prior"@, "Next"@, "Insert"@, "Delete"@]);
    }
    r.push(KeyGroup { name: "Navegación", keys: k3 });
    let mut k4: Vec<&'static str> = Vec::new();
    k4.push("Return");
    k4.push("space");
    k4.push("Tab");
    k4.push("Escape");
    k4.push("BackSpace");
    k4.push("Print");
    proof {
        assert(k4@.map_values(|k: &str| k@) =~= seq!["Return"@, "space"@, "Tab"@, "Escape"@, "BackSpace"@, "Print"@]);
    }
    r.push(KeyGroup { name: "Especiales", keys: k4 });
    let mut k5: Vec<&'static str> = Vec::new();
    k5.push("grave");
    k5.push("minus");
    k5.push("equal");
    k5.push("bracketleft");
    k5.push("bracketright");
    k5.push("backslash");
    k5.push("semicolon");
    k5.push("apostrophe");
    k5.push("comma");
    k5.push("period");
    k5.push("slash");
    proof {
        assert(k5@.map_values(|k: &str| k@) =~= seq!["grave"@, "minus"@, "equal"@, "bracketleft"@, "bracketright"@, "backslash"@, "semicolon"@, "apostrophe"@, "comma"@, "period"@, "slash"@]);
    }
    r.push(KeyGroup { name: "Símbolos", keys: k5 });
    proof {
        assert(groups_view(r@) =~= key_groups_spec());
    }
    r
}

/// The key is one of the keys of some group, ignoring ASCII case.
pub open spec fn in_universe_spec(key: Seq<char>) -> bool {
    exists|g: int, j: int|
        0 <= g < key_groups_spec().len() && 0 <= j < key_groups_spec()[g].1.len() && eq_ignore_case(
            #[trigger] key_groups_spec()[g].1[j],
            key,
        )
}

/// `true` if the key belongs to some group of the set.
pub fn in_universe(key_lower: &str) -> (r: bool)
    ensures
        r == in_universe_spec(key_lower@),
{
    let k = chars_of(key_lower);
    let groups = key_groups();
    let ghost gs = groups_view(groups@);
    for g in 0..groups.len()
        invariant
            gs == groups_view(groups@),
            gs == key_groups_spec(),
            k@ == key_lower@,
            forall|a: int, j: int| 0 <= a < g && 0 <= j < gs[a].1.len() ==> !eq_ignore_case(#[trigger] gs[a].1[j], k@),
    {
        let keys = &groups[g].keys;
        for j in 0..keys.len()
            invariant
                gs == groups_view(groups@),
                gs == key_groups_spec(),
                k@ == key_lower@,
                g < groups.len(),
                keys@ == groups@[g as int].keys@,
                forall|a: int, jj: int| 0 <= a < g && 0 <= jj < gs[a].1.len() ==> !eq_ignore_case(#[trigger] gs[a].1[jj], k@),
                forall|jj: int| 0 <= jj < j ==> !eq_ignore_case(#[trigger] gs[g as int].1[jj], k@),
        {
            let c = chars_of(keys[j]);
            proof {
                assert(gs[g as int].1 == keys@.map_values(|k: &str| k@));
                assert(gs[g as int].1[j as int] == c@);
            }
            if eq_ignore_ascii_case(&c, &k) {
                proof {
                    assert(eq_ignore_case(key_groups_spec()[g as int].1[j as int], key_lower@));
                }
                return true;
            }
        }
    }
    false
}

/// `b` takes `mods + key` in `submap`: a `catchall` bind with those modifiers takes
/// every key.
pub open spec fn occupies(b: BindView, mods: u32, key: Seq<char>, submap: Seq<char>) -> bool {
    b.submap == submap && b.mods == mods && (b.key is CatchAll || b.key.sym_name() == Some(key))
}

fn occupies_of(b: &Bind, mods: ModMask, key: &String, submap: &String) -> (r: bool)
    ensures
        r == occupies(b@, mods.0, key@, submap@),
{
    if !(b.submap == *submap) || b.mods.0 != mods.0 {
        return false;
    }
    match &b.key {
        Key::CatchAll => true,
        k => match k.sym_name() {
            Some(n) => n == *key,
            None => false,
        },
    }
}

/// Which bind takes a key: the first of the submap whose modifiers are exactly the
/// ones asked (a bind with more modifiers takes another combination) and whose key
/// is that key or the catch-all; none when no bind of the submap has exactly those
/// modifiers and that key.
pub proof fn lemma_taken_by_exact_mods(binds: Seq<Bind>, mods: u32, key: Seq<char>, submap: Seq<char>)
    ensures
        match first_where(binds.len(), |i: int| occupies(binds[i]@, mods, key, submap)) {
            Some(i) => {
                &&& 0 <= i < binds.len()
                &&& binds[i]@.submap == submap
                &&& binds[i]@.mods == mods
                &&& (binds[i]@.key is CatchAll || binds[i]@.key.sym_name() == Some(key))
                &&& forall|j: int|
                    0 <= j < i ==> !(#[trigger] binds[j]@.submap == submap && binds[j]@.mods == mods && (binds[j]@.key is CatchAll
                        || binds[j]@.key.sym_name() == Some(key)))
            },
            None => forall|j: int|
                0 <= j < binds.len() ==> !(#[trigger] binds[j]@.submap == submap && binds[j]@.mods == mods && (binds[j]@.key is CatchAll
                    || binds[j]@.key.sym_name() == Some(key))),
        },
{
    let p = |i: int| occupies(binds[i]@, mods, key, submap);
    lemma_first_where(binds.len(), p);
    match first_where(binds.len(), p) {
        Some(i) => {
            assert(p(i));
            assert forall|j: int| 0 <= j < i implies !(#[trigger] binds[j]@.submap == submap && binds[j]@.mods == mods && (binds[j]@.key is CatchAll
                || binds[j]@.key.sym_name() == Some(key))) by {
                assert(!p(j));
            }
        },
        None => {
            assert forall|j: int| 0 <= j < binds.len() implies !(#[trigger] binds[j]@.submap == submap && binds[j]@.mods == mods && (binds[j]@.key is CatchAll
                || binds[j]@.key.sym_name() == Some(key))) by {
                assert(!p(j));
            }
        },
    }
}

/// Index of the first bind that takes `mods + key_lower` in `submap`.
pub fn bound_by(binds: &[Bind], mods: ModMask, key_lower: &str, submap: &str) -> (r: Option<usize>)
    ensures
        opt_int(r) == first_where(binds@.len(), |i: int| occupies(binds@[i]@, mods.0, key_lower@, submap@)),
        r matches Some(i) ==> i < binds@.len() && binds@[i as int]@.submap == submap@ && binds@[i as int]@.mods == mods.0
            && (binds@[i as int]@.key is CatchAll || binds@[i as int]@.key.sym_name() == Some(key_lower@)),
        r is None ==> forall|j: int|
            0 <= j < binds@.len() ==> !(#[trigger] binds@[j]@.submap == submap@ && binds@[j]@.mods == mods.0 && (binds@[j]@.key is CatchAll
                || binds@[j]@.key.sym_name() == Some(key_lower@))),
{
    proof {
        lemma_taken_by_exact_mods(binds@, mods.0, key_lower@, submap@);
    }
    let key = crate::text::string_lit(key_lower);
    let sub = crate::text::string_lit(submap);
    let ghost p = |i: int| occupies(binds@[i]@, mods.0, key_lower@, submap@);
    for i in 0..binds.len()
        invariant
            key@ == key_lower@,
            sub@ == submap@,
            p == (|i: int| occupies(binds@[i]@, mods.0, key_lower@, submap@)),
            forall|j: int| 0 <= j < i ==> !#[trigger] p(j),
    {
        if occupies_of(&binds[i], mods, &key, &sub) {
            proof {
                lemma_first_where_found(binds@.len(), p, i as int);
            }
            return Some(i);
        }
    }
    proof {
        lemma_first_where_none(binds@.len(), p);
    }
    None
}

pub struct KeyUsage {
    pub key: &'static str,
    pub bound_by: Option<usize>,
}

pub struct GroupReport {
    pub name: &'static str,
    pub keys: Vec<KeyUsage>,
}

/// Number of keys of a report that no bind takes.
pub open spec fn free_count_spec(keys: Seq<KeyUsage>) -> nat
    decreases keys.len(),
{
    if keys.len() == 0 {
        0
    } else {
        free_count_spec(keys.drop_last()) + if keys.last().bound_by is None {
            1nat
        } else {
            0nat
        }
    }
}

impl GroupReport {
    pub fn free_count(&self) -> (r: usize)
        ensures
            r == free_count_spec(self.keys@),
    {
        let mut c: usize = 0;
        for i in 0..self.keys.len()
            invariant
                c == free_count_spec(self.keys@.take(i as int)),
                c <= i,
        {
            proof {
                assert(self.keys@.take(i + 1).drop_last() =~= self.keys@.take(i as int));
            }
            if self.keys[i].bound_by.is_none() {
                c = c + 1;
            }
        }
        proof {
            assert(self.keys@.take(self.keys@.len() as int) =~= self.keys@);
        }
        c
    }
}

/// The state of each key of the groups for a modifier combination: for each key,
/// the first bind of `submap` that takes it, with `key` lower-cased.
pub open spec fn key_report_ok(binds: Seq<Bind>, mods: u32, submap: Seq<char>, r: Seq<GroupReport>) -> bool {
    let gs = key_groups_spec();
    &&& r.len() == gs.len()
    &&& forall|g: int|
        0 <= g < r.len() ==> {
            &&& (#[trigger] r[g]).name@ == gs[g].0
            &&& r[g].keys.len() == gs[g].1.len()
            &&& forall|j: int|
                0 <= j < r[g].keys.len() ==> {
                    &&& (#[trigger] r[g].keys@[j]).key@ == gs[g].1[j]
                    &&& opt_int(r[g].keys@[j].bound_by) == first_where(
                        binds.len(),
                        |i: int| occupies(binds[i]@, mods, lowercase(gs[g].1[j]), submap),
                    )
                }
        }
}

/// In the report of free keys, a key is free exactly when no bind of the submap
/// has exactly the modifiers asked and that key (or the catch-all); a key reported
/// taken names a bind of the submap with exactly those modifiers.
pub proof fn lemma_free_key_means_no_exact_bind(
    binds: Seq<Bind>,
    mods: u32,
    submap: Seq<char>,
    r: Seq<GroupReport>,
    g: int,
    j: int,
)
    requires
        key_report_ok(binds, mods, submap, r),
        0 <= g < r.len(),
        0 <= j < r[g].keys.len(),
    ensures
        ({
            let key = lowercase(r[g].keys@[j].key@);
            &&& r[g].keys@[j].bound_by is None <==> forall|i: int|
                0 <= i < binds.len() ==> !(#[trigger] binds[i]@.submap == submap && binds[i]@.mods == mods && (binds[i]@.key is CatchAll
                    || binds[i]@.key.sym_name() == Some(key)))
            &&& r[g].keys@[j].bound_by matches Some(i) ==> i < binds.len() && binds[i as int]@.submap == submap
                && binds[i as int]@.mods == mods
        }),
{
    let gs = key_groups_spec();
    assert(r[g].keys@[j].key@ == gs[g].1[j]);
    let key = lowercase(gs[g].1[j]);
    lemma_taken_by_exact_mods(binds, mods, key, submap);
    let p = |i: int| occupies(binds[i]@, mods, key, submap);
    assert(opt_int(r[g].keys@[j].bound_by) == first_where(binds.len(), p));
    if first_where(binds.len(), p) is Some {
        let i = first_where(binds.len(), p)->0;
        assert(binds[i]@.submap == submap && binds[i]@.mods == mods && (binds[i]@.key is CatchAll
            || binds[i]@.key.sym_name() == Some(key)));
    }
}

/// State of each key of the groups for a modifier combination.
pub fn free_keys(binds: &[Bind], mods: ModMask, submap: &str) -> (r: Vec<GroupReport>)
    ensures
        key_report_ok(binds@, mods.0, submap@, r@),
        forall|g: int, j: int| #![trigger r@[g].keys@[j]]
            0 <= g < r@.len() && 0 <= j < r@[g].keys@.len() ==> {
                let key = lowercase(r@[g].keys@[j].key@);
                &&& r@[g].keys@[j].bound_by is None <==> forall|i: int|
                    0 <= i < binds@.len() ==> !(#[trigger] binds@[i]@.submap == submap@ && binds@[i]@.mods == mods.0 && (
                    binds@[i]@.key is CatchAll || binds@[i]@.key.sym_name() == Some(key)))
                &&& r@[g].keys@[j].bound_by matches Some(i) ==> i < binds@.len() && binds@[i as int]@.submap == submap@
                    && binds@[i as int]@.mods == mods.0
            },
{
    let groups = key_groups();
    let ghost gs = groups_view(groups@);
    let mut out: Vec<GroupReport> = Vec::new();
    for g in 0..groups.len()
        invariant
            gs == groups_view(groups@),
            gs == key_groups_spec(),
            out.len() == g,
            forall|a: int|
                0 <= a < g ==> {
                    &&& (#[trigger] out@[a]).name@ == gs[a].0
                    &&& out@[a].keys.len() == gs[a].1.len()
                    &&& forall|j: int|
                        0 <= j < out@[a].keys.len() ==> {
                            &&& (#[trigger] out@[a].keys@[j]).key@ == gs[a].1[j]
                            &&& opt_int(out@[a].keys@[j].bound_by) == first_where(
                                binds@.len(),
                                |i: int| occupies(binds@[i]@, mods.0, lowercase(gs[a].1[j]), submap@),
                            )
                        }
                },
    {
        let keys = &groups[g].keys;
        let mut usage: Vec<KeyUsage> = Vec::new();
        for j in 0..keys.len()
            invariant
                gs == groups_view(groups@),
                g < groups.len(),
                keys@ == groups@[g as int].keys@,
                usage.len() == j,
                forall|jj: int|
                    0 <= jj < j ==> {
                        &&& (#[trigger] usage@[jj]).key@ == gs[g as int].1[jj]
                        &&& opt_int(usage@[jj].bound_by) == first_where(
                            binds@.len(),
                            |i: int| occupies(binds@[i]@, mods.0, lowercase(gs[g as int].1[jj]), submap@),
                        )
                    },
        {
            let k = keys[j];
            let kc = chars_of(k);
            let lower = to_lowercase_of(&kc);
            let ls = string_of(&lower);
            let b = bound_by(binds, mods, ls.as_str(), submap);
            proof {
                assert(gs[g as int].1 == keys@.map_values(|k: &str| k@));
                assert(gs[g as int].1[j as int] == k@);
            }
            usage.push(KeyUsage { key: k, bound_by: b });
        }
        out.push(GroupReport { name: groups[g].name, keys: usage });
    }
    proof {
        assert forall|g: int, j: int| #![trigger out@[g].keys@[j]]
            0 <= g < out@.len() && 0 <= j < out@[g].keys@.len() implies {
                let key = lowercase(out@[g].keys@[j].key@);
                &&& out@[g].keys@[j].bound_by is None <==> forall|i: int|
                    0 <= i < binds@.len() ==> !(#[trigger] binds@[i]@.submap == submap@ && binds@[i]@.mods == mods.0 && (
                    binds@[i]@.key is CatchAll || binds@[i]@.key.sym_name() == Some(key)))
                &&& out@[g].keys@[j].bound_by matches Some(i) ==> i < binds@.len() && binds@[i as int]@.submap == submap@
                    && binds@[i as int]@.mods == mods.0
            } by {
            lemma_free_key_means_no_exact_bind(binds@, mods.0, submap@, out@, g, j);
        }
    }
    out
}

/// A bind of `submap` with those modifiers whose key is outside the groups
/// (media keys, mouse, unknown keycodes).
pub open spec fn other_key(b: BindView, mods: u32, submap: Seq<char>) -> bool {
    b.submap == submap && b.mods == mods && match b.key.sym_name() {
        Some(n) => !in_universe_spec(n),
        None => true,
    }
}

/// Binds of the submap with those modifiers whose key is outside the groups.
pub fn other_bound(binds: &[Bind], mods: ModMask, submap: &str) -> (r: Vec<usize>)
    ensures
        ints(r@) == indices_where(binds@.len(), |i: int| other_key(binds@[i]@, mods.0, submap@)),
        forall|i: int| #![trigger ints(r@).contains(i)]
            0 <= i < binds@.len() ==> (ints(r@).contains(i) <==> (binds@[i]@.submap == submap@ && binds@[i]@.mods == mods.0
                && match binds@[i]@.key.sym_name() {
                Some(n) => !in_universe_spec(n),
                None => true,
            })),
{
    let sub = crate::text::string_lit(submap);
    let ghost p = |i: int| other_key(binds@[i]@, mods.0, submap@);
    let mut r: Vec<usize> = Vec::new();
    for i in 0..binds.len()
        invariant
            sub@ == submap@,
            ints(r@) == indices_where(i as nat, p),
            p == (|i: int| other_key(binds@[i]@, mods.0, submap@)),
    {
        let b = &binds[i];
        let hit = if b.submap == sub && b.mods.0 == mods.0 {
            match b.key.sym_name() {
                Some(n) => !in_universe(n.as_str()),
                None => true,
            }
        } else {
            false
        };
        if hit {
            let ghost before = ints(r@);
            r.push(i);
            proof {
                assert(ints(r@) =~= before.push(i as int));
                assert(indices_where((i + 1) as nat, p) =~= indices_where(i as nat, p).push(i as int));
            }
        } else {
            proof {
                assert(indices_where((i + 1) as nat, p) =~= indices_where(i as nat, p));
            }
        }
    }
    proof {
        lemma_indices_where(binds@.len(), p);
        assert forall|i: int| #![trigger ints(r@).contains(i)]
            0 <= i < binds@.len() implies (ints(r@).contains(i) <==> (binds@[i]@.submap == submap@ && binds@[i]@.mods == mods.0
                && match binds@[i]@.key.sym_name() {
                Some(n) => !in_universe_spec(n),
                None => true,
            })) by {
            assert(p(i) == other_key(binds@[i]@, mods.0, submap@));
            if ints(r@).contains(i) {
                let k = choose|k: int| 0 <= k < ints(r@).len() && ints(r@)[k] == i;
                assert(p(ints(r@)[k]));
            }
        }
    }
    r
}

// ---------------------------------------------------------------------------
// Ranking
// ---------------------------------------------------------------------------

/// `a` comes before `b`: higher score first, then lower index.
pub open spec fn ranks_before(a: (int, int), b: (int, int)) -> bool {
    a.0 > b.0 || (a.0 == b.0 && a.1 < b.1)
}

pub open spec fn pair_view(p: (i128, usize)) -> (int, int) {
    (p.0 as int, p.1 as int)
}

/// Sorted by [`ranks_before`].
pub open spec fn ranked(s: Seq<(i128, usize)>) -> bool {
    forall|i: int, j: int| 0 <= i < j < s.len() ==> ranks_before(pair_view(#[trigger] s[i]), pair_view(#[trigger] s[j]))
}

/// `r` lists, best first, exactly the indices below `n` where `cand` holds, ranked
/// by `score`: higher score first, then lower index.
pub open spec fn ranked_by(r: Seq<int>, n: nat, cand: spec_fn(int) -> bool, score: spec_fn(int) -> int) -> bool {
    &&& forall|k: int| 0 <= k < r.len() ==> 0 <= #[trigger] r[k] < n && cand(r[k])
    &&& forall|i: int| 0 <= i < n && #[trigger] cand(i) ==> r.contains(i)
    &&& forall|k: int, l: int|
        0 <= k < l < r.len() ==> ranks_before((score(#[trigger] r[k]), r[k]), (score(#[trigger] r[l]), r[l]))
}

proof fn lemma_push_contains<T>(s: Seq<T>, e: T, x: T)
    ensures
        s.push(e).contains(x) <==> s.contains(x) || x == e,
{
    if s.contains(x) {
        let k = choose|k: int| 0 <= k < s.len() && s[k] == x;
        assert(s.push(e)[k] == x);
    }
    if x == e {
        assert(s.push(e)[s.len() as int] == x);
    }
    if s.push(e).contains(x) {
        let k = choose|k: int| 0 <= k < s.push(e).len() && s.push(e)[k] == x;
        if k < s.len() {
            assert(s[k] == x);
        }
    }
}

proof fn lemma_insert_contains<T>(s: Seq<T>, p: int, e: T, x: T)
    requires
        0 <= p <= s.len(),
    ensures
        s.insert(p, e).contains(x) <==> s.contains(x) || x == e,
{
    let t = s.insert(p, e);
    if s.contains(x) {
        let k = choose|k: int| 0 <= k < s.len() && s[k] == x;
        if k < p {
            assert(t[k] == x);
        } else {
            assert(t[k + 1] == x);
        }
    }
    if x == e {
        assert(t[p] == x);
    }
    if t.contains(x) {
        let k = choose|k: int| 0 <= k < t.len() && t[k] == x;
        if k < p {
            assert(s[k] == x);
        } else if k > p {
            assert(s[k - 1] == x);
        }
    }
}

/// The same entries, sorted by score (higher first), then by index.
fn rank(v: Vec<(i128, usize)>) -> (r: Vec<(i128, usize)>)
    requires
        forall|i: int, j: int| 0 <= i < j < v.len() ==> (#[trigger] v@[i]).1 != (#[trigger] v@[j]).1,
    ensures
        r.len() == v.len(),
        ranked(r@),
        forall|x: (i128, usize)| r@.contains(x) <==> v@.contains(x),
{
    let mut r: Vec<(i128, usize)> = Vec::new();
    for i in 0..v.len()
        invariant
            forall|a: int, b: int| 0 <= a < b < v.len() ==> (#[trigger] v@[a]).1 != (#[trigger] v@[b]).1,
            r.len() == i,
            ranked(r@),
            forall|x: (i128, usize)| r@.contains(x) <==> v@.take(i as int).contains(x),
    {
        let e = v[i];
        let mut p: usize = 0;
        while p < r.len() && !(e.0 > r[p].0 || (e.0 == r[p].0 && e.1 < r[p].1))
            invariant
                p <= r.len(),
                forall|q: int| 0 <= q < p ==> !ranks_before(pair_view(e), pair_view(#[trigger] r@[q])),
            decreases r.len() - p,
        {
            p = p + 1;
        }
        proof {
            assert forall|q: int| 0 <= q < r@.len() implies (#[trigger] r@[q]).1 != e.1 by {
                assert(r@.contains(r@[q]));
                assert(v@.take(i as int).contains(r@[q]));
                let k = choose|k: int| 0 <= k < i && v@.take(i as int)[k] == r@[q];
                assert(v@[k] == r@[q]);
            }
        }
        let ghost old_r = r@;
        r.insert(p, e);
        proof {
            assert(r@ =~= old_r.insert(p as int, e));
            assert forall|a: int, b: int| 0 <= a < b < r@.len() implies ranks_before(pair_view(#[trigger] r@[a]), pair_view(#[trigger] r@[b])) by {
                if a < p && b < p {
                    assert(r@[a] == old_r[a] && r@[b] == old_r[b]);
                } else if a < p && b == p {
                    assert(r@[a] == old_r[a]);
                    assert(!ranks_before(pair_view(e), pair_view(old_r[a])));
                    assert(old_r[a].1 != e.1);
                } else if a < p {
                    assert(r@[a] == old_r[a] && r@[b] == old_r[b - 1]);
                } else if a == p {
                    assert(r@[b] == old_r[b - 1]);
                    assert(ranks_before(pair_view(e), pair_view(old_r[p as int])));
                    if b - 1 > p {
                        assert(ranks_before(pair_view(old_r[p as int]), pair_view(old_r[b - 1])));
                    }
                } else {
                    assert(r@[a] == old_r[a - 1] && r@[b] == old_r[b - 1]);
                }
            }
            assert(v@.take(i + 1) =~= v@.take(i as int).push(e));
            assert forall|x: (i128, usize)| r@.contains(x) <==> v@.take(i + 1).contains(x) by {
                lemma_insert_contains(old_r, p as int, e, x);
                lemma_push_contains(v@.take(i as int), e, x);
            }
        }
    }
    proof {
        assert(v@.take(v@.len() as int) =~= v@);
    }
    r
}

/// The indices of a ranked list, checked against what they rank.
proof fn lemma_ranked_indices(
    v: Seq<(i128, usize)>,
    r: Seq<(i128, usize)>,
    n: nat,
    cand: spec_fn(int) -> bool,
    score: spec_fn(int) -> int,
)
    requires
        ranked(r),
        forall|x: (i128, usize)| r.contains(x) <==> v.contains(x),
        forall|k: int| 0 <= k < v.len() ==> (#[trigger] v[k]).1 < n && cand(v[k].1 as int) && v[k].0 == score(v[k].1 as int),
        forall|i: int| 0 <= i < n && #[trigger] cand(i) ==> exists|k: int| 0 <= k < v.len() && (#[trigger] v[k]).1 == i,
    ensures
        ranked_by(r.map_values(|p: (i128, usize)| p.1 as int), n, cand, score),
{
    let idx = r.map_values(|p: (i128, usize)| p.1 as int);
    assert forall|k: int| 0 <= k < idx.len() implies 0 <= #[trigger] idx[k] < n && cand(idx[k]) by {
        assert(r.contains(r[k]));
        let j = choose|j: int| 0 <= j < v.len() && v[j] == r[k];
    }
    assert forall|i: int| 0 <= i < n && #[trigger] cand(i) implies idx.contains(i) by {
        let k = choose|k: int| 0 <= k < v.len() && (#[trigger] v[k]).1 == i;
        assert(v.contains(v[k]));
        let j = choose|j: int| 0 <= j < r.len() && r[j] == v[k];
        assert(idx[j] == i);
    }
    assert forall|k: int, l: int| 0 <= k < l < idx.len() implies ranks_before((score(#[trigger] idx[k]), idx[k]), (score(#[trigger] idx[l]), idx[l])) by {
        assert(ranks_before(pair_view(r[k]), pair_view(r[l])));
        assert(r.contains(r[k]));
        assert(r.contains(r[l]));
        let a = choose|a: int| 0 <= a < v.len() && v[a] == r[k];
        let b = choose|b: int| 0 <= b < v.len() && v[b] == r[l];
    }
}

fn indices_of_ranked(r: &Vec<(i128, usize)>) -> (out: Vec<usize>)
    ensures
        ints(out@) == r@.map_values(|p: (i128, usize)| p.1 as int),
{
    let mut out: Vec<usize> = Vec::new();
    for i in 0..r.len()
        invariant
            ints(out@) == r@.take(i as int).map_values(|p: (i128, usize)| p.1 as int),
    {
        let ghost before = ints(out@);
        out.push(r[i].1);
        proof {
            assert(ints(out@) =~= before.push(r@[i as int].1 as int));
            assert(r@.take(i + 1).map_values(|p: (i128, usize)| p.1 as int) =~= r@.take(i as int).map_values(|p: (i128, usize)| p.1 as int).push(r@[i as int].1 as int));
        }
    }
    proof {
        assert(r@.take(r@.len() as int) =~= r@);
    }
    out
}

// ---------------------------------------------------------------------------
// Search by key combination
// ---------------------------------------------------------------------------

/// The modifiers and the lower-case key a key query names: `super shift t`,
/// `super+t`, `t`, `super`.
pub open spec fn key_query(q: Seq<char>) -> (u32, Seq<char>) {
    let toks = tokens(q, true);
    (names_mask(toks), join(unknown_names(toks).map_values(|t: Seq<char>| lowercase(t)), " "@))
}

/// Score of a bind for a key query, `None` when it does not match: the query's
/// modifiers must be among the bind's (10 points when they are all of them); the
/// key, when given, must be the bind's key (2 points) or a prefix of it (1 point).
pub open spec fn key_score(b: BindView, mods: u32, key: Seq<char>) -> Option<int> {
    if !mask_contains(b.mods, mods) {
        None
    } else {
        let base: int = if b.mods == mods {
            10
        } else {
            0
        };
        if key.len() == 0 {
            Some(base)
        } else if b.key.name() == key {
            Some(base + 2)
        } else if starts_with(b.key.name(), key) {
            Some(base + 1)
        } else {
            None
        }
    }
}

pub open spec fn key_search_ok(binds: Seq<Bind>, query: Seq<char>, r: Seq<int>) -> bool {
    let (mods, key) = key_query(query);
    ranked_by(
        r,
        binds.len(),
        |i: int| key_score(binds[i]@, mods, key) is Some,
        |i: int| key_score(binds[i]@, mods, key)->0,
    )
}

fn lower_all(v: &Vec<Vec<char>>) -> (r: Vec<Vec<char>>)
    ensures
        r@.map_values(|t: Vec<char>| t@) == v@.map_values(|t: Vec<char>| t@).map_values(|t: Seq<char>| lowercase(t)),
{
    let mut r: Vec<Vec<char>> = Vec::new();
    for i in 0..v.len()
        invariant
            r@.map_values(|t: Vec<char>| t@) == v@.map_values(|t: Vec<char>| t@).take(i as int).map_values(|t: Seq<char>| lowercase(t)),
    {
        let l = to_lowercase_of(&v[i]);
        let ghost before = r@.map_values(|t: Vec<char>| t@);
        r.push(l);
        proof {
            assert(r@.map_values(|t: Vec<char>| t@) =~= before.push(l@));
            assert(v@.map_values(|t: Vec<char>| t@).take(i + 1).map_values(|t: Seq<char>| lowercase(t)) =~= v@.map_values(|t: Vec<char>| t@).take(i as int).map_values(|t: Seq<char>| lowercase(t)).push(lowercase(v@[i as int]@)));
        }
    }
    proof {
        assert(v@.map_values(|t: Vec<char>| t@).take(v@.len() as int) =~= v@.map_values(|t: Vec<char>| t@));
    }
    r
}

fn key_score_of(b: &Bind, mods: u32, key: &Vec<char>) -> (r: Option<i32>)
    ensures
        match r {
            Some(s) => key_score(b@, mods, key@) == Some(s as int),
            None => key_score(b@, mods, key@) is None,
        },
{
    if b.mods.0 & mods != mods {
        return None;
    }
    let base: i32 = if b.mods.0 == mods {
        10
    } else {
        0
    };
    if key.len() == 0 {
        return Some(base);
    }
    let name = b.key.name_of();
    if crate::text::seq_eq(&name, key) {
        Some(base + 2)
    } else if starts_with_of(&name, key) {
        Some(base + 1)
    } else {
        None
    }
}

/// Search by combination: `super shift t`, `super+t`, `t`, `super`. The given
/// modifiers must be in the bind; the key, if given, must match or be a prefix.
/// Exact modifier matches come first.
pub fn key_search(binds: &[Bind], query: &str) -> (r: Vec<usize>)
    ensures
        key_search_ok(binds@, query@, ints(r@)),
        forall|k: int| #![trigger r@[k]]
            0 <= k < r@.len() ==> r@[k] < binds@.len() && mask_contains(binds@[r@[k] as int]@.mods, key_query(query@).0),
        forall|k: int, l: int| #![trigger r@[k], r@[l]]
            0 <= k < r@.len() && 0 <= l < r@.len() && binds@[r@[k] as int]@.mods == key_query(query@).0
                && binds@[r@[l] as int]@.mods != key_query(query@).0 ==> k < l,
        forall|i: int| #![trigger ints(r@).contains(i)]
            0 <= i < binds@.len() ==> (ints(r@).contains(i) <==> (mask_contains(binds@[i]@.mods, key_query(query@).0) && (
            key_query(query@).1.len() == 0 || starts_with(binds@[i]@.key.name(), key_query(query@).1)))),
{
    let q = chars_of(query);
    let toks = tokens_of(&q, true);
    let (mods, unknown) = names_of(&toks);
    let lowered = lower_all(&unknown);
    let sp = chars_of(" ");
    let key = join_of(&lowered, &sp);
    let ghost cand = |i: int| key_score(binds@[i]@, mods, key@) is Some;
    let ghost score = |i: int| key_score(binds@[i]@, mods, key@)->0;
    proof {
        assert(key_query(query@) == (mods, key@));
    }
    let mut v: Vec<(i128, usize)> = Vec::new();
    for i in 0..binds.len()
        invariant
            cand == (|i: int| key_score(binds@[i]@, mods, key@) is Some),
            score == (|i: int| key_score(binds@[i]@, mods, key@)->0),
            forall|k: int| 0 <= k < v.len() ==> (#[trigger] v@[k]).1 < i && cand(v@[k].1 as int) && v@[k].0 == score(v@[k].1 as int),
            forall|j: int| 0 <= j < i && #[trigger] cand(j) ==> exists|k: int| 0 <= k < v.len() && (#[trigger] v@[k]).1 == j,
            forall|a: int, b: int| 0 <= a < b < v.len() ==> (#[trigger] v@[a]).1 < (#[trigger] v@[b]).1,
    {
        match key_score_of(&binds[i], mods, &key) {
            Some(sc) => {
                let ghost before = v@;
                v.push((sc as i128, i));
                proof {
                    assert forall|j: int| 0 <= j < i + 1 && #[trigger] cand(j) implies exists|k: int| 0 <= k < v.len() && (#[trigger] v@[k]).1 == j by {
                        if j < i {
                            let k = choose|k: int| 0 <= k < before.len() && (#[trigger] before[k]).1 == j;
                            assert(v@[k] == before[k]);
                        } else {
                            assert(v@[before.len() as int].1 == j);
                        }
                    }
                }
            },
            None => {},
        }
    }
    let r = rank(v);
    proof {
        lemma_ranked_indices(v@, r@, binds@.len(), cand, score);
    }
    let out = indices_of_ranked(&r);
    proof {
        let ri = ints(out@);
        assert forall|k: int| #![trigger out@[k]]
            0 <= k < out@.len() implies out@[k] < binds@.len() && mask_contains(binds@[out@[k] as int]@.mods, key_query(query@).0) by {
            assert(ri[k] == out@[k] as int);
            lemma_key_search_matches(binds@, query@, ri, k);
        }
        assert forall|k: int, l: int| #![trigger out@[k], out@[l]]
            0 <= k < out@.len() && 0 <= l < out@.len() && binds@[out@[k] as int]@.mods == key_query(query@).0
                && binds@[out@[l] as int]@.mods != key_query(query@).0 implies k < l by {
            assert(ri[k] == out@[k] as int);
            assert(ri[l] == out@[l] as int);
            lemma_key_search_exact_first(binds@, query@, ri, k, l);
        }
        assert forall|i: int| #![trigger ints(out@).contains(i)]
            0 <= i < binds@.len() implies (ints(out@).contains(i) <==> (mask_contains(binds@[i]@.mods, key_query(query@).0) && (
            key_query(query@).1.len() == 0 || starts_with(binds@[i]@.key.name(), key_query(query@).1)))) by {
            lemma_key_search_finds(binds@, query@, ri, i);
        }
    }
    out
}

/// Every bind found by a search by combination has the query's modifiers among its
/// own.
pub proof fn lemma_key_search_matches(binds: Seq<Bind>, query: Seq<char>, r: Seq<int>, k: int)
    requires
        key_search_ok(binds, query, r),
        0 <= k < r.len(),
    ensures
        0 <= r[k] < binds.len(),
        mask_contains(binds[r[k]]@.mods, key_query(query).0),
{
    let (mods, key) = key_query(query);
    assert(0 <= r[k] < binds.len() && key_score(binds[r[k]]@, mods, key) is Some);
}

/// A search by combination finds exactly the binds that have the query's modifiers
/// among their own and, when the query names a key, whose key name begins with it.
pub proof fn lemma_key_search_finds(binds: Seq<Bind>, query: Seq<char>, r: Seq<int>, i: int)
    requires
        key_search_ok(binds, query, r),
        0 <= i < binds.len(),
    ensures
        r.contains(i) <==> (mask_contains(binds[i]@.mods, key_query(query).0) && (key_query(query).1.len() == 0
            || starts_with(binds[i]@.key.name(), key_query(query).1))),
{
    let (mods, key) = key_query(query);
    let name = binds[i]@.key.name();
    if name == key {
        assert(name.take(key.len() as int) =~= key);
    }
    if r.contains(i) {
        let k = choose|k: int| 0 <= k < r.len() && r[k] == i;
        assert(key_score(binds[r[k]]@, mods, key) is Some);
    }
    let cand = |i: int| key_score(binds[i]@, mods, key) is Some;
    if cand(i) {
        assert(r.contains(i));
    }
}

/// Order of a search by combination: binds with exactly the query's modifiers
/// first; among those alike in that, the ones whose key name is the query's key
/// before the ones where it is only a prefix; and binds alike in both in the order of
/// the file.
pub proof fn lemma_key_search_order(binds: Seq<Bind>, query: Seq<char>, r: Seq<int>, k: int, l: int)
    requires
        key_search_ok(binds, query, r),
        0 <= k < r.len(),
        0 <= l < r.len(),
        k != l,
    ensures
        ({
            let (mods, key) = key_query(query);
            let (a, b) = (binds[r[k]]@, binds[r[l]]@);
            &&& (a.mods == mods) == (b.mods == mods) && key.len() > 0 && a.key.name() == key && b.key.name() != key ==> k < l
            &&& (a.mods == mods) == (b.mods == mods) && (key.len() == 0 || (a.key.name() == key) == (b.key.name() == key))
                ==> (k < l <==> r[k] < r[l])
        }),
{
    let (mods, key) = key_query(query);
    let score = |i: int| key_score(binds[i]@, mods, key)->0;
    assert(0 <= r[k] < binds.len() && key_score(binds[r[k]]@, mods, key) is Some);
    assert(0 <= r[l] < binds.len() && key_score(binds[r[l]]@, mods, key) is Some);
    if k < l {
        assert(ranks_before((score(r[k]), r[k]), (score(r[l]), r[l])));
    } else {
        assert(ranks_before((score(r[l]), r[l]), (score(r[k]), r[k])));
    }
}

/// In a search by combination, the binds whose modifiers are exactly the ones the
/// query names come before those that have more.
pub proof fn lemma_key_search_exact_first(binds: Seq<Bind>, query: Seq<char>, r: Seq<int>, k: int, l: int)
    requires
        key_search_ok(binds, query, r),
        0 <= k < r.len(),
        0 <= l < r.len(),
        binds[r[k]]@.mods == key_query(query).0,
        binds[r[l]]@.mods != key_query(query).0,
    ensures
        k < l,
{
    let (mods, key) = key_query(query);
    let score = |i: int| key_score(binds[i]@, mods, key)->0;
    assert(0 <= r[k] < binds.len() && key_score(binds[r[k]]@, mods, key) is Some);
    assert(0 <= r[l] < binds.len() && key_score(binds[r[l]]@, mods, key) is Some);
    assert(score(r[k]) >= 10);
    assert(score(r[l]) <= 2);
    if l < k {
        assert(ranks_before((score(r[l]), r[l]), (score(r[k]), r[k])));
    }
}

// ---------------------------------------------------------------------------
// Text search
// ---------------------------------------------------------------------------

/// The text a search looks at, by field.
pub open spec fn haystack_spec(b: BindView, field: SearchField) -> Seq<char> {
    match field {
        SearchField::All => b.combo() + " "@ + b.dispatcher + " "@ + b.arg + " "@ + b.description + " "@
            + join(b.tags, " "@) + " "@ + b.submap,
        SearchField::App => b.arg + " "@ + b.description,
        SearchField::Key => b.combo(),
    }
}

/// The text a search looks at, by field.
pub fn haystack(b: &Bind, field: SearchField) -> (r: String)
    ensures
        r@ == haystack_spec(b@, field),
{
    match field {
        SearchField::All => {
            let sp = chars_of(" ");
            let mut v = chars_of(b.combo().as_str());
            let d = chars_of(b.dispatcher.as_str());
            let a = chars_of(b.arg.as_str());
            let de = chars_of(b.description.as_str());
            let mut tags: Vec<Vec<char>> = Vec::new();
            for k in 0..b.tags.len()
                invariant
                    tags@.map_values(|t: Vec<char>| t@) == b@.tags.take(k as int),
            {
                let t = chars_of(b.tags[k].as_str());
                let ghost before = tags@.map_values(|t: Vec<char>| t@);
                tags.push(t);
                proof {
                    assert(tags@.map_values(|t: Vec<char>| t@) =~= before.push(t@));
                    assert(b@.tags.take(k + 1) =~= b@.tags.take(k as int).push(b@.tags[k as int]));
                }
            }
            proof {
                assert(b@.tags.take(b@.tags.len() as int) =~= b@.tags);
            }
            let tj = join_of(&tags, &sp);
            let su = chars_of(b.submap.as_str());
            crate::text::push_all(&mut v, &sp);
            crate::text::push_all(&mut v, &d);
            crate::text::push_all(&mut v, &sp);
            crate::text::push_all(&mut v, &a);
            crate::text::push_all(&mut v, &sp);
            crate::text::push_all(&mut v, &de);
            crate::text::push_all(&mut v, &sp);
            crate::text::push_all(&mut v, &tj);
            crate::text::push_all(&mut v, &sp);
            crate::text::push_all(&mut v, &su);
            string_of(&v)
        },
        SearchField::App => {
            let mut v = chars_of(b.arg.as_str());
            let sp = chars_of(" ");
            let de = chars_of(b.description.as_str());
            crate::text::push_all(&mut v, &sp);
            crate::text::push_all(&mut v, &de);
            string_of(&v)
        },
        SearchField::Key => b.combo(),
    }
}

/// What the skim matcher of `fuzzy-matcher` (its default settings) scores a choice
/// against a pattern, `None` when the pattern does not match.
pub uninterp spec fn skim_score(choice: Seq<char>, pattern: Seq<char>) -> Option<i64>;

/// `SkimMatcherV2::default().fuzzy_match(choice, pattern)` of `fuzzy-matcher`.
/// Claimed: the result is `skim_score` of the two texts; how the score is computed
/// is not stated.
#[verifier::external_body]
fn fuzzy_match_of(choice: &str, pattern: &str) -> (r: Option<i64>)
    ensures
        r == skim_score(choice@, pattern@),
{
    fuzzy_matcher::FuzzyMatcher::fuzzy_match(
        &fuzzy_matcher::skim::SkimMatcherV2::default(),
        choice,
        pattern,
    )
}

/// Sum of the fuzzy scores of every word, `None` if one does not match.
pub open spec fn fuzzy_total(hay: Seq<char>, words: Seq<Seq<char>>) -> Option<int>
    decreases words.len(),
{
    if words.len() == 0 {
        Some(0)
    } else {
        match fuzzy_total(hay, words.drop_last()) {
            Some(t) => match skim_score(hay, words.last()) {
                Some(s) => Some(t + s),
                None => None,
            },
            None => None,
        }
    }
}

/// Every lower-case word occurs in the lower-cased text.
pub open spec fn literal_hit(hay: Seq<char>, lower_words: Seq<Seq<char>>) -> bool {
    forall|k: int| 0 <= k < lower_words.len() ==> crate::text::contains(lowercase(hay), #[trigger] lower_words[k])
}

/// What [`search`] returns for a query.
pub open spec fn search_ok(binds: Seq<Bind>, query: Seq<char>, field: SearchField, r: Seq<int>) -> bool {
    let q = trim(query);
    let n = binds.len();
    if q.len() == 0 {
        r == Seq::new(n, |i: int| i)
    } else if field == SearchField::Key {
        key_search_ok(binds, q, r)
    } else {
        let words = tokens(q, false);
        let lower_words = words.map_values(|w: Seq<char>| lowercase(w));
        let lit = |i: int| literal_hit(haystack_spec(binds[i]@, field), lower_words);
        if exists|i: int| 0 <= i < n && #[trigger] lit(i) {
            r == indices_where(n, lit)
        } else {
            ranked_by(
                r,
                n,
                |i: int| fuzzy_total(haystack_spec(binds[i]@, field), words) is Some,
                |i: int| fuzzy_total(haystack_spec(binds[i]@, field), words)->0,
            )
        }
    }
}

fn literal_of(hay: &Vec<char>, lower_words: &Vec<Vec<char>>) -> (r: bool)
    ensures
        r == literal_hit(hay@, lower_words@.map_values(|t: Vec<char>| t@)),
{
    let lh = to_lowercase_of(hay);
    let ghost lw = lower_words@.map_values(|t: Vec<char>| t@);
    for k in 0..lower_words.len()
        invariant
            lw == lower_words@.map_values(|t: Vec<char>| t@),
            lh@ == lowercase(hay@),
            forall|j: int| 0 <= j < k ==> crate::text::contains(lowercase(hay@), #[trigger] lw[j]),
    {
        if !crate::text::contains_of(&lh, &lower_words[k]) {
            proof {
                assert(lw[k as int] == lower_words@[k as int]@);
                assert(!crate::text::contains(lowercase(hay@), lw[k as int]));
            }
            return false;
        }
    }
    true
}

fn fuzzy_of(hay: &String, words: &Vec<Vec<char>>) -> (r: Option<i128>)
    ensures
        match r {
            Some(t) => fuzzy_total(hay@, words@.map_values(|t: Vec<char>| t@)) == Some(t as int),
            None => fuzzy_total(hay@, words@.map_values(|t: Vec<char>| t@)) is None,
        },
{
    let ghost ws = words@.map_values(|t: Vec<char>| t@);
    let mut total: i128 = 0;
    for k in 0..words.len()
        invariant
            ws == words@.map_values(|t: Vec<char>| t@),
            fuzzy_total(hay@, ws.take(k as int)) == Some(total as int),
            -(k as int) * 0x8000_0000_0000_0000 <= total <= (k as int) * 0x8000_0000_0000_0000,
            words.len() <= usize::MAX,
    {
        proof {
            assert(ws.take(k + 1).drop_last() =~= ws.take(k as int));
        }
        let w = string_of(&words[k]);
        match fuzzy_match_of(hay.as_str(), w.as_str()) {
            Some(s) => {
                total = total + s as i128;
            },
            None => {
                proof {
                    lemma_fuzzy_none(hay@, ws, (k + 1) as nat);
                }
                return None;
            },
        }
    }
    proof {
        assert(ws.take(words@.len() as int) =~= ws);
    }
    Some(total)
}

proof fn lemma_fuzzy_none(hay: Seq<char>, ws: Seq<Seq<char>>, k: nat)
    requires
        0 < k <= ws.len(),
        fuzzy_total(hay, ws.take(k as int)) is None,
    ensures
        fuzzy_total(hay, ws) is None,
    decreases ws.len() - k,
{
    if k < ws.len() {
        assert(ws.take(k as int + 1).drop_last() =~= ws.take(k as int));
        lemma_fuzzy_none(hay, ws, k + 1);
    } else {
        assert(ws.take(k as int) =~= ws);
    }
}

/// Text search. First, literal matches of every word (ignoring case), in file
/// order; when there is none, fuzzy search ordered by score. Empty query: every
/// bind, in order.
pub fn search(binds: &[Bind], query: &str, field: SearchField) -> (r: Vec<usize>)
    ensures
        search_ok(binds@, query@, field, ints(r@)),
{
    let qv = chars_of(query);
    let q = trim_of(&qv);
    let n = binds.len();
    if q.len() == 0 {
        let mut r: Vec<usize> = Vec::new();
        for i in 0..n
            invariant
                ints(r@) == Seq::new(i as nat, |j: int| j),
        {
            let ghost before = ints(r@);
            r.push(i);
            proof {
                assert(ints(r@) =~= before.push(i as int));
                assert(Seq::new((i + 1) as nat, |j: int| j) =~= Seq::new(i as nat, |j: int| j).push(i as int));
            }
        }
        return r;
    }
    if field == SearchField::Key {
        let qs = string_of(&q);
        return key_search(binds, qs.as_str());
    }
    let words = tokens_of(&q, false);
    let lower_words = lower_all(&words);
    let ghost wsv = words@.map_values(|t: Vec<char>| t@);
    let ghost lw = wsv.map_values(|w: Seq<char>| lowercase(w));
    let ghost lit = |i: int| literal_hit(haystack_spec(binds@[i]@, field), lw);
    proof {
        assert(lower_words@.map_values(|t: Vec<char>| t@) == lw);
    }
    let mut literal: Vec<usize> = Vec::new();
    for i in 0..n
        invariant
            n == binds@.len(),
            lower_words@.map_values(|t: Vec<char>| t@) == lw,
            lit == (|i: int| literal_hit(haystack_spec(binds@[i]@, field), lw)),
            ints(literal@) == indices_where(i as nat, lit),
    {
        let h = haystack(&binds[i], field);
        let hv = chars_of(h.as_str());
        if literal_of(&hv, &lower_words) {
            let ghost before = ints(literal@);
            literal.push(i);
            proof {
                assert(ints(literal@) =~= before.push(i as int));
                assert(indices_where((i + 1) as nat, lit) =~= indices_where(i as nat, lit).push(i as int));
            }
        } else {
            proof {
                assert(indices_where((i + 1) as nat, lit) =~= indices_where(i as nat, lit));
            }
        }
    }
    proof {
        lemma_indices_where(n as nat, lit);
    }
    if literal.len() > 0 {
        proof {
            let k = ints(literal@)[0];
            assert(lit(k));
        }
        return literal;
    }
    proof {
        assert forall|i: int| 0 <= i < n implies !#[trigger] lit(i) by {
            if lit(i) {
                assert(indices_where(n as nat, lit).contains(i));
            }
        }
    }
    let ghost cand = |i: int| fuzzy_total(haystack_spec(binds@[i]@, field), wsv) is Some;
    let ghost score = |i: int| fuzzy_total(haystack_spec(binds@[i]@, field), wsv)->0;
    let mut v: Vec<(i128, usize)> = Vec::new();
    for i in 0..n
        invariant
            n == binds@.len(),
            wsv == words@.map_values(|t: Vec<char>| t@),
            cand == (|i: int| fuzzy_total(haystack_spec(binds@[i]@, field), wsv) is Some),
            score == (|i: int| fuzzy_total(haystack_spec(binds@[i]@, field), wsv)->0),
            forall|k: int| 0 <= k < v.len() ==> (#[trigger] v@[k]).1 < i && cand(v@[k].1 as int) && v@[k].0 == score(v@[k].1 as int),
            forall|j: int| 0 <= j < i && #[trigger] cand(j) ==> exists|k: int| 0 <= k < v.len() && (#[trigger] v@[k]).1 == j,
            forall|a: int, b: int| 0 <= a < b < v.len() ==> (#[trigger] v@[a]).1 < (#[trigger] v@[b]).1,
    {
        let h = haystack(&binds[i], field);
        match fuzzy_of(&h, &words) {
            Some(t) => {
                let ghost before = v@;
                v.push((t, i));
                proof {
                    assert forall|j: int| 0 <= j < i + 1 && #[trigger] cand(j) implies exists|k: int| 0 <= k < v.len() && (#[trigger] v@[k]).1 == j by {
                        if j < i {
                            let k = choose|k: int| 0 <= k < before.len() && (#[trigger] before[k]).1 == j;
                            assert(v@[k] == before[k]);
                        } else {
                            assert(v@[before.len() as int].1 == j);
                        }
                    }
                }
            },
            None => {},
        }
    }
    let r = rank(v);
    proof {
        lemma_ranked_indices(v@, r@, n as nat, cand, score);
    }
    indices_of_ranked(&r)
}

// ---------------------------------------------------------------------------
// Modifier combinations
// ---------------------------------------------------------------------------

/// Number of binds of `submap` with modifiers `m`.
pub open spec fn mods_count(binds: Seq<Bind>, submap: Seq<char>, m: u32) -> nat {
    indices_where(binds.len(), |i: int| binds[i]@.submap == submap && binds[i]@.mods == m).len()
}

/// What [`used_modmasks`] returns: each combination used in the submap once, with
/// its number of binds, the most used first, then by increasing mask.
pub open spec fn used_ok(binds: Seq<Bind>, submap: Seq<char>, r: Seq<(u32, nat)>) -> bool {
    &&& forall|k: int| 0 <= k < r.len() ==> (#[trigger] r[k]).1 == mods_count(binds, submap, r[k].0) && r[k].1 > 0
    &&& forall|m: u32| mods_count(binds, submap, m) > 0 ==> exists|k: int| 0 <= k < r.len() && (#[trigger] r[k]).0 == m
    &&& forall|k: int, l: int|
        0 <= k < l < r.len() ==> ranks_before(((#[trigger] r[k]).1 as int, r[k].0 as int), ((#[trigger] r[l]).1 as int, r[l].0 as int))
}

pub open spec fn used_view(r: Seq<(ModMask, usize)>) -> Seq<(u32, nat)> {
    r.map_values(|p: (ModMask, usize)| (p.0.0, p.1 as nat))
}

fn count_mods(binds: &[Bind], submap: &String, m: u32) -> (r: usize)
    ensures
        r == mods_count(binds@, submap@, m),
{
    let ghost p = |i: int| binds@[i]@.submap == submap@ && binds@[i]@.mods == m;
    let mut c: usize = 0;
    for i in 0..binds.len()
        invariant
            p == (|i: int| binds@[i]@.submap == submap@ && binds@[i]@.mods == m),
            c == indices_where(i as nat, p).len(),
            c <= i,
    {
        if binds[i].submap == *submap && binds[i].mods.0 == m {
            c = c + 1;
            proof {
                assert(indices_where((i + 1) as nat, p) =~= indices_where(i as nat, p).push(i as int));
            }
        } else {
            proof {
                assert(indices_where((i + 1) as nat, p) =~= indices_where(i as nat, p));
            }
        }
    }
    c
}

/// Modifier combinations used in the submap with how often, most used first.
pub fn used_modmasks(binds: &[Bind], submap: &str) -> (r: Vec<(ModMask, usize)>)
    ensures
        used_ok(binds@, submap@, used_view(r@)),
{
    let sub = crate::text::string_lit(submap);
    // distinct masks of the submap, with their counts
    let mut v: Vec<(i128, usize)> = Vec::new();
    for i in 0..binds.len()
        invariant
            sub@ == submap@,
            forall|k: int| 0 <= k < v.len() ==> (#[trigger] v@[k]).1 <= u32::MAX && v@[k].0 == mods_count(binds@, submap@, v@[k].1 as u32) as int
                && v@[k].0 > 0,
            forall|a: int, b: int| 0 <= a < b < v.len() ==> (#[trigger] v@[a]).1 != (#[trigger] v@[b]).1,
            forall|j: int| 0 <= j < i && binds@[j]@.submap == submap@ ==> exists|k: int| 0 <= k < v.len() && (#[trigger] v@[k]).1 == binds@[j]@.mods as usize,
    {
        if binds[i].submap == sub {
            let m = binds[i].mods.0;
            let mut seen = false;
            for k in 0..v.len()
                invariant
                    seen ==> exists|q: int| 0 <= q < v.len() && (#[trigger] v@[q]).1 == m as usize,
                    !seen ==> forall|q: int| 0 <= q < k ==> (#[trigger] v@[q]).1 != m as usize,
            {
                if v[k].1 == m as usize {
                    seen = true;
                }
            }
            if !seen {
                let c = count_mods(binds, &sub, m);
                proof {
                    let p = |q: int| binds@[q]@.submap == submap@ && binds@[q]@.mods == m;
                    lemma_indices_where(binds@.len(), p);
                    assert(p(i as int));
                    assert(indices_where(binds@.len(), p).contains(i as int));
                }
                let ghost before = v@;
                v.push((c as i128, m as usize));
                proof {
                    assert(v@[before.len() as int].1 as u32 == m);
                    assert forall|j: int| 0 <= j < i + 1 && binds@[j]@.submap == submap@ implies exists|k: int| 0 <= k < v.len() && (#[trigger] v@[k]).1 == binds@[j]@.mods as usize by {
                        if j < i {
                            let k = choose|k: int| 0 <= k < before.len() && (#[trigger] before[k]).1 == binds@[j]@.mods as usize;
                            assert(v@[k] == before[k]);
                        } else {
                            assert(v@[before.len() as int].1 == binds@[j]@.mods as usize);
                        }
                    }
                }
            }
        }
    }
    let r = rank(v);
    let nb = binds.len();
    let mut out: Vec<(ModMask, usize)> = Vec::new();
    for k in 0..r.len()
        invariant
            nb == binds@.len(),
            r.len() == v.len(),
            ranked(r@),
            forall|x: (i128, usize)| r@.contains(x) <==> v@.contains(x),
            forall|q: int| 0 <= q < v.len() ==> (#[trigger] v@[q]).1 <= u32::MAX && v@[q].0 == mods_count(binds@, submap@, v@[q].1 as u32) as int
                && v@[q].0 > 0,
            out.len() == k,
            forall|q: int| 0 <= q < k ==> (#[trigger] out@[q]).0.0 as int == r@[q].1 as int && out@[q].1 as int == r@[q].0 as int,
    {
        let e = r[k];
        proof {
            assert(r@.contains(e));
            let q = choose|q: int| 0 <= q < v.len() && v@[q] == e;
            assert(v@[q].1 <= u32::MAX);
            let p = |i: int| binds@[i]@.submap == submap@ && binds@[i]@.mods == (e.1 as u32);
            lemma_indices_len(binds@.len(), p);
            assert(mods_count(binds@, submap@, e.1 as u32) <= binds@.len());
            assert(e.0 as int <= nb);
        }
        out.push((ModMask(e.1 as u32), e.0 as usize));
    }
    proof {
        let u = used_view(out@);
        assert forall|k: int| 0 <= k < u.len() implies (#[trigger] u[k]).1 == mods_count(binds@, submap@, u[k].0) && u[k].1 > 0 by {
            assert(r@.contains(r@[k]));
            let q = choose|q: int| 0 <= q < v.len() && v@[q] == r@[k];
        }
        assert forall|m: u32| mods_count(binds@, submap@, m) > 0 implies exists|k: int| 0 <= k < u.len() && (#[trigger] u[k]).0 == m by {
            let p = |i: int| binds@[i]@.submap == submap@ && binds@[i]@.mods == m;
            lemma_indices_where(binds@.len(), p);
            let j = indices_where(binds@.len(), p)[0];
            assert(p(j));
            let q = choose|q: int| 0 <= q < v.len() && (#[trigger] v@[q]).1 == binds@[j]@.mods as usize;
            assert(v@.contains(v@[q]));
            assert(r@.contains(v@[q]));
            let k = choose|k: int| 0 <= k < r@.len() && r@[k] == v@[q];
            assert(u[k].0 == m);
        }
        assert forall|k: int, l: int| 0 <= k < l < u.len() implies ranks_before(((#[trigger] u[k]).1 as int, u[k].0 as int), ((#[trigger] u[l]).1 as int, u[l].0 as int)) by {
            assert(ranks_before(pair_view(r@[k]), pair_view(r@[l])));
        }
    }
    out
}

proof fn lemma_indices_len(n: nat, p: spec_fn(int) -> bool)
    ensures
        indices_where(n, p).len() <= n,
    decreases n,
{
    if n > 0 {
        lemma_indices_len((n - 1) as nat, p);
    }
}

/// The usual combinations around SUPER.
pub open spec fn standard_combos_spec() -> Seq<u32> {
    seq![64u32, 65u32, 68u32, 72u32, 69u32, 76u32, 73u32]
}

/// The usual combinations around SUPER: SUPER, +SHIFT, +CTRL, +ALT, +CTRL+SHIFT,
/// +CTRL+ALT, +SHIFT+ALT.
pub fn standard_combos() -> (r: Vec<ModMask>)
    ensures
        r@.map_values(|m: ModMask| m.0) == standard_combos_spec(),
{
    let mut r: Vec<ModMask> = Vec::new();
    r.push(ModMask(64));
    r.push(ModMask(64 | 1));
    r.push(ModMask(64 | 4));
    r.push(ModMask(64 | 8));
    r.push(ModMask(64 | 4 | 1));
    r.push(ModMask(64 | 4 | 8));
    r.push(ModMask(64 | 1 | 8));
    proof {
        assert(64u32 | 1u32 == 65u32) by (bit_vector);
        assert(64u32 | 4u32 == 68u32) by (bit_vector);
        assert(64u32 | 8u32 == 72u32) by (bit_vector);
        assert((64u32 | 4u32) | 1u32 == 69u32) by (bit_vector);
        assert((64u32 | 4u32) | 8u32 == 76u32) by (bit_vector);
        assert((64u32 | 1u32) | 8u32 == 73u32) by (bit_vector);
        assert(r@.map_values(|m: ModMask| m.0) =~= standard_combos_spec());
    }
    r
}

/// `v` followed by the masks of `extra` it lacks, checked one after the other.
pub open spec fn add_missing(v: Seq<u32>, extra: Seq<u32>) -> Seq<u32>
    decreases extra.len(),
{
    if extra.len() == 0 {
        v
    } else {
        let w = add_missing(v, extra.drop_last());
        if w.contains(extra.last()) {
            w
        } else {
            w.push(extra.last())
        }
    }
}

/// Combinations to offer: those already used in the submap, by frequency, then
/// the standard ones that are missing.
pub fn combo_candidates(binds: &[Bind], submap: &str) -> (r: Vec<ModMask>)
    ensures
        exists|u: Seq<(ModMask, usize)>|
            used_ok(binds@, submap@, used_view(u)) && r@.map_values(|m: ModMask| m.0) == add_missing(
                u.map_values(|p: (ModMask, usize)| p.0.0),
                standard_combos_spec(),
            ),
{
    let used = used_modmasks(binds, submap);
    let mut v: Vec<ModMask> = Vec::new();
    for k in 0..used.len()
        invariant
            v@.map_values(|m: ModMask| m.0) == used@.take(k as int).map_values(|p: (ModMask, usize)| p.0.0),
    {
        let ghost before = v@.map_values(|m: ModMask| m.0);
        v.push(used[k].0);
        proof {
            assert(v@.map_values(|m: ModMask| m.0) =~= before.push(used@[k as int].0.0));
            assert(used@.take(k + 1).map_values(|p: (ModMask, usize)| p.0.0) =~= used@.take(k as int).map_values(|p: (ModMask, usize)| p.0.0).push(used@[k as int].0.0));
        }
    }
    proof {
        assert(used@.take(used@.len() as int) =~= used@);
    }
    let ghost base = v@.map_values(|m: ModMask| m.0);
    let std = standard_combos();
    let ghost sv = std@.map_values(|m: ModMask| m.0);
    proof {
        assert(add_missing(base, sv.take(0)) == base);
    }
    for k in 0..std.len()
        invariant
            sv == std@.map_values(|m: ModMask| m.0),
            v@.map_values(|m: ModMask| m.0) == add_missing(base, sv.take(k as int)),
    {
        let m = std[k];
        let ghost before = v@.map_values(|m: ModMask| m.0);
        proof {
            assert(sv.take(k + 1).drop_last() =~= sv.take(k as int));
            assert(sv.take(k + 1).last() == m.0);
        }
        let mut found = false;
        for j in 0..v.len()
            invariant
                before == v@.map_values(|m: ModMask| m.0),
                found == before.take(j as int).contains(m.0),
        {
            proof {
                lemma_push_contains(before.take(j as int), before[j as int], m.0);
                assert(before.take(j + 1) =~= before.take(j as int).push(before[j as int]));
            }
            if v[j].0 == m.0 {
                found = true;
            }
        }
        proof {
            assert(before.take(v@.len() as int) =~= before);
        }
        if !found {
            v.push(m);
            proof {
                assert(v@.map_values(|m: ModMask| m.0) =~= before.push(m.0));
            }
        }
    }
    proof {
        assert(sv.take(std@.len() as int) =~= sv);
    }
    v
}

pub struct ComboUsage {
    pub mods: ModMask,
    pub bound_by: Option<usize>,
}

/// The lower-case key name [`free_combos`] looks for.
pub open spec fn combo_key(key: Seq<char>) -> Seq<char> {
    match parse_key(key).sym_name() {
        Some(n) => n,
        None => lowercase(trim(key)),
    }
}

/// For a key, which combinations are free and which are taken.
pub fn free_combos(binds: &[Bind], key: &str, submap: &str, combos: &[ModMask]) -> (r: Vec<ComboUsage>)
    ensures
        r.len() == combos.len(),
        forall|j: int|
            0 <= j < r.len() ==> (#[trigger] r@[j]).mods == combos@[j] && opt_int(r@[j].bound_by)
                == first_where(binds@.len(), |i: int| occupies(binds@[i]@, combos@[j].0, combo_key(key@), submap@)),
{
    let kv = chars_of(key);
    let parsed = parse_key_of(&kv);
    let k: String = match parsed.sym_name() {
        Some(n) => n,
        None => {
            let t = trim_of(&kv);
            let l = to_lowercase_of(&t);
            string_of(&l)
        },
    };
    let mut r: Vec<ComboUsage> = Vec::new();
    for j in 0..combos.len()
        invariant
            k@ == combo_key(key@),
            r.len() == j,
            forall|jj: int|
                0 <= jj < j ==> (#[trigger] r@[jj]).mods == combos@[jj] && opt_int(r@[jj].bound_by)
                    == first_where(binds@.len(), |i: int| occupies(binds@[i]@, combos@[jj].0, combo_key(key@), submap@)),
    {
        let m = combos[j];
        let b = bound_by(binds, m, k.as_str(), submap);
        r.push(ComboUsage { mods: m, bound_by: b });
    }
    r
}

// ---------------------------------------------------------------------------
// Conflicts
// ---------------------------------------------------------------------------

/// Several binds on the same combination in the same submap. Hyprland runs them
/// all, so it may be on purpose, but it is worth seeing.
pub struct Conflict {
    pub label: String,
    pub submap: String,
    pub members: Vec<usize>,
}

/// Same submap, same modifiers and same key name.
pub open spec fn same_combo(a: BindView, b: BindView) -> bool {
    a.submap == b.submap && a.mods == b.mods && a.key.name() == b.key.name()
}

/// The binds on the same combination as bind `i`, in order.
pub open spec fn combo_members(binds: Seq<Bind>, i: int) -> Seq<int> {
    indices_where(binds.len(), |j: int| same_combo(binds[j]@, binds[i]@))
}

/// Bind `i` is the first on its combination.
pub open spec fn first_of_combo(binds: Seq<Bind>, i: int) -> bool {
    forall|j: int| 0 <= j < i ==> !same_combo(#[trigger] binds[j]@, binds[i]@)
}

/// The conflicts among the first `n` binds' combinations: label, submap and
/// members, in the order of their first bind.
pub open spec fn conflicts_upto(binds: Seq<Bind>, n: nat) -> Seq<(Seq<char>, Seq<char>, Seq<int>)>
    decreases n,
{
    if n == 0 {
        seq![]
    } else {
        let i = n - 1;
        conflicts_upto(binds, (n - 1) as nat) + if first_of_combo(binds, i) && combo_members(binds, i).len() > 1 {
            seq![(binds[i]@.combo(), binds[i]@.submap, combo_members(binds, i))]
        } else {
            seq![]
        }
    }
}

proof fn lemma_conflicts_upto_has(binds: Seq<Bind>, m: nat, i: int)
    requires
        0 <= i < m <= binds.len(),
        first_of_combo(binds, i),
        combo_members(binds, i).len() > 1,
    ensures
        conflicts_upto(binds, m).contains((binds[i]@.combo(), binds[i]@.submap, combo_members(binds, i))),
    decreases m,
{
    let e = (binds[i]@.combo(), binds[i]@.submap, combo_members(binds, i));
    let cur = conflicts_upto(binds, m);
    let prev = conflicts_upto(binds, (m - 1) as nat);
    if i == m - 1 {
        assert(cur[cur.len() - 1] == e);
    } else {
        lemma_conflicts_upto_has(binds, (m - 1) as nat, i);
        let g = choose|g: int| 0 <= g < prev.len() && prev[g] == e;
        assert(cur[g] == prev[g]);
    }
}

/// Two binds on the same combination are listed together in one of the conflicts.
pub proof fn lemma_twins_conflict(binds: Seq<Bind>, a: int, b: int)
    requires
        0 <= a < b < binds.len(),
        same_combo(binds[a]@, binds[b]@),
    ensures
        exists|g: int|
            0 <= g < conflicts_upto(binds, binds.len()).len() && (#[trigger] conflicts_upto(binds, binds.len())[g]).2.contains(a)
                && conflicts_upto(binds, binds.len())[g].2.contains(b),
{
    let n = binds.len();
    let q = |j: int| same_combo(binds[j]@, binds[a]@);
    lemma_first_where(((a + 1) as nat), q);
    assert(q(a));
    let i = first_where(((a + 1) as nat), q)->0;
    assert(first_of_combo(binds, i)) by {
        assert forall|j: int| 0 <= j < i implies !same_combo(#[trigger] binds[j]@, binds[i]@) by {
            assert(!q(j));
        }
    }
    let p = |j: int| same_combo(binds[j]@, binds[i]@);
    lemma_indices_where(n, p);
    assert(p(a));
    assert(p(b));
    let ms = combo_members(binds, i);
    assert(ms.contains(a));
    assert(ms.contains(b));
    assert(ms.len() > 1) by {
        let ka = choose|k: int| 0 <= k < ms.len() && ms[k] == a;
        let kb = choose|k: int| 0 <= k < ms.len() && ms[k] == b;
        assert(ka != kb);
    }
    lemma_conflicts_upto_has(binds, n, i);
    let e = (binds[i]@.combo(), binds[i]@.submap, ms);
    let cs = conflicts_upto(binds, n);
    let g = choose|g: int| 0 <= g < cs.len() && cs[g] == e;
    assert(cs[g].2.contains(a) && cs[g].2.contains(b));
}

proof fn lemma_conflict_entry(binds: Seq<Bind>, n: nat, g: int)
    requires
        n <= binds.len(),
        0 <= g < conflicts_upto(binds, n).len(),
    ensures
        exists|i: int|
            0 <= i < n && conflicts_upto(binds, n)[g] == (binds[i]@.combo(), binds[i]@.submap, #[trigger] combo_members(binds, i))
                && combo_members(binds, i).len() > 1 && first_of_combo(binds, i),
    decreases n,
{
    let prev = conflicts_upto(binds, (n - 1) as nat);
    if g < prev.len() {
        lemma_conflict_entry(binds, (n - 1) as nat, g);
        let i = choose|i: int|
            0 <= i < n - 1 && prev[g] == (binds[i]@.combo(), binds[i]@.submap, #[trigger] combo_members(binds, i))
                && combo_members(binds, i).len() > 1 && first_of_combo(binds, i);
        assert(conflicts_upto(binds, n)[g] == prev[g]);
    } else {
        let i = n - 1;
        assert(conflicts_upto(binds, n)[g] == (binds[i]@.combo(), binds[i]@.submap, combo_members(binds, i)));
    }
}

/// The first member of the conflict of a combination is its first bind.
proof fn lemma_first_member(binds: Seq<Bind>, i: int)
    requires
        0 <= i < binds.len(),
        first_of_combo(binds, i),
    ensures
        combo_members(binds, i).len() > 0,
        combo_members(binds, i)[0] == i,
{
    let n = binds.len();
    let p = |j: int| same_combo(binds[j]@, binds[i]@);
    lemma_indices_where(n, p);
    let ms = combo_members(binds, i);
    assert(p(i));
    assert(ms.contains(i));
    let t = choose|t: int| 0 <= t < ms.len() && ms[t] == i;
    assert(p(ms[0]));
    if ms[0] < i {
        assert(!same_combo(binds[ms[0]]@, binds[i]@));
    }
    if t > 0 {
        assert(ms[0] < ms[t]);
    }
}

proof fn lemma_conflict_firsts_ordered(binds: Seq<Bind>, n: nat, g1: int, g2: int)
    requires
        n <= binds.len(),
        0 <= g1 < g2 < conflicts_upto(binds, n).len(),
    ensures
        conflicts_upto(binds, n)[g1].2.len() > 0,
        conflicts_upto(binds, n)[g2].2.len() > 0,
        conflicts_upto(binds, n)[g1].2[0] < conflicts_upto(binds, n)[g2].2[0],
    decreases n,
{
    let prev = conflicts_upto(binds, (n - 1) as nat);
    let cur = conflicts_upto(binds, n);
    lemma_conflict_entry(binds, n, g1);
    lemma_conflict_entry(binds, n, g2);
    if g2 < prev.len() {
        lemma_conflict_firsts_ordered(binds, (n - 1) as nat, g1, g2);
        assert(cur[g1] == prev[g1]);
        assert(cur[g2] == prev[g2]);
    } else {
        let i2 = n - 1;
        assert(cur[g2] == (binds[i2]@.combo(), binds[i2]@.submap, combo_members(binds, i2)));
        assert(first_of_combo(binds, i2));
        lemma_first_member(binds, i2);
        lemma_conflict_entry(binds, (n - 1) as nat, g1);
        let i1 = choose|i: int|
            0 <= i < n - 1 && prev[g1] == (binds[i]@.combo(), binds[i]@.submap, #[trigger] combo_members(binds, i))
                && combo_members(binds, i).len() > 1 && first_of_combo(binds, i);
        lemma_first_member(binds, i1);
        assert(cur[g1] == prev[g1]);
    }
}

/// Each combination has one conflict at most: conflicts come in the order of their
/// first bind, and the first binds of two conflicts are on different combinations
/// (another submap, other modifiers or another key).
pub proof fn lemma_conflicts_distinct(binds: Seq<Bind>, g1: int, g2: int)
    requires
        0 <= g1 < g2 < conflicts_upto(binds, binds.len()).len(),
    ensures
        ({
            let cs = conflicts_upto(binds, binds.len());
            let (f1, f2) = (cs[g1].2[0], cs[g2].2[0]);
            &&& cs[g1].2.len() > 0 && cs[g2].2.len() > 0
            &&& f1 < f2
            &&& !(binds[f1]@.submap == binds[f2]@.submap && binds[f1]@.mods == binds[f2]@.mods
                && binds[f1]@.key.name() == binds[f2]@.key.name())
        }),
{
    let n = binds.len();
    let cs = conflicts_upto(binds, n);
    lemma_conflict_firsts_ordered(binds, n, g1, g2);
    lemma_conflict_entry(binds, n, g2);
    let i2 = choose|i: int|
        0 <= i < n && cs[g2] == (binds[i]@.combo(), binds[i]@.submap, #[trigger] combo_members(binds, i))
            && combo_members(binds, i).len() > 1 && first_of_combo(binds, i);
    lemma_first_member(binds, i2);
    let f1 = cs[g1].2[0];
    assert(0 <= f1) by {
        lemma_conflict_members_share_combo(binds, g1, 0, 0);
    }
    assert(!same_combo(binds[f1]@, binds[i2]@));
}

/// The binds of a reported conflict share one combination: the same submap (the
/// conflict's), the same modifiers and the same key; there are at least two of
/// them, in the order of the file. Binds of different submaps are never in one
/// conflict.
pub proof fn lemma_conflict_members_share_combo(binds: Seq<Bind>, g: int, a: int, b: int)
    requires
        0 <= g < conflicts_upto(binds, binds.len()).len(),
        0 <= a < conflicts_upto(binds, binds.len())[g].2.len(),
        0 <= b < conflicts_upto(binds, binds.len())[g].2.len(),
    ensures
        ({
            let c = conflicts_upto(binds, binds.len())[g];
            &&& c.2.len() >= 2
            &&& 0 <= c.2[a] < binds.len()
            &&& binds[c.2[a]]@.submap == c.1
            &&& binds[c.2[a]]@.submap == binds[c.2[b]]@.submap
            &&& binds[c.2[a]]@.mods == binds[c.2[b]]@.mods
            &&& binds[c.2[a]]@.key.name() == binds[c.2[b]]@.key.name()
            &&& a < b ==> c.2[a] < c.2[b]
        }),
{
    let n = binds.len();
    lemma_conflict_entry(binds, n, g);
    let i = choose|i: int|
        0 <= i < n && conflicts_upto(binds, n)[g] == (binds[i]@.combo(), binds[i]@.submap, #[trigger] combo_members(binds, i))
            && combo_members(binds, i).len() > 1;
    let p = |j: int| same_combo(binds[j]@, binds[i]@);
    lemma_indices_where(n, p);
    let ms = combo_members(binds, i);
    assert(p(ms[a]));
    assert(p(ms[b]));
}

pub open spec fn conflict_view(c: Conflict) -> (Seq<char>, Seq<char>, Seq<int>) {
    (c.label@, c.submap@, ints(c.members@))
}

fn same_combo_of(a: &Bind, an: &Vec<char>, b: &Bind, bn: &Vec<char>) -> (r: bool)
    requires
        an@ == a@.key.name(),
        bn@ == b@.key.name(),
    ensures
        r == same_combo(a@, b@),
{
    a.submap == b.submap && a.mods.0 == b.mods.0 && crate::text::seq_eq(an, bn)
}

/// Repeated combinations, in the order of their first bind.
pub fn conflicts(binds: &[Bind]) -> (r: Vec<Conflict>)
    ensures
        r@.map_values(|c: Conflict| conflict_view(c)) == conflicts_upto(binds@, binds@.len()),
        forall|g: int, a: int, b: int| #![trigger r@[g].members@[a], r@[g].members@[b]]
            0 <= g < r@.len() && 0 <= a < r@[g].members@.len() && 0 <= b < r@[g].members@.len() ==> {
                &&& r@[g].members@.len() >= 2
                &&& r@[g].members@[a] < binds@.len()
                &&& binds@[r@[g].members@[a] as int]@.submap == r@[g].submap@
                &&& binds@[r@[g].members@[a] as int]@.submap == binds@[r@[g].members@[b] as int]@.submap
                &&& binds@[r@[g].members@[a] as int]@.mods == binds@[r@[g].members@[b] as int]@.mods
                &&& binds@[r@[g].members@[a] as int]@.key.name() == binds@[r@[g].members@[b] as int]@.key.name()
            },
        forall|g1: int, g2: int| #![trigger r@[g1], r@[g2]]
            0 <= g1 < g2 < r@.len() ==> {
                let (f1, f2) = (r@[g1].members@[0] as int, r@[g2].members@[0] as int);
                &&& f1 < f2
                &&& !(binds@[f1]@.submap == binds@[f2]@.submap && binds@[f1]@.mods == binds@[f2]@.mods
                    && binds@[f1]@.key.name() == binds@[f2]@.key.name())
            },
{
    let n = binds.len();
    let mut names: Vec<Vec<char>> = Vec::new();
    for i in 0..n
        invariant
            n == binds@.len(),
            names.len() == i,
            forall|k: int| 0 <= k < i ==> (#[trigger] names@[k])@ == binds@[k]@.key.name(),
    {
        names.push(binds[i].key.name_of());
    }
    let mut out: Vec<Conflict> = Vec::new();
    for i in 0..n
        invariant
            n == binds@.len(),
            names.len() == n,
            forall|k: int| 0 <= k < n ==> (#[trigger] names@[k])@ == binds@[k]@.key.name(),
            out@.map_values(|c: Conflict| conflict_view(c)) == conflicts_upto(binds@, i as nat),
    {
        let mut first = true;
        for j in 0..i
            invariant
                n == binds@.len(),
                names.len() == n,
                i < n,
                forall|k: int| 0 <= k < n ==> (#[trigger] names@[k])@ == binds@[k]@.key.name(),
                first == forall|q: int| 0 <= q < j ==> !same_combo(#[trigger] binds@[q]@, binds@[i as int]@),
        {
            if same_combo_of(&binds[j], &names[j], &binds[i], &names[i]) {
                first = false;
            }
        }
        let ghost p = |j: int| same_combo(binds@[j]@, binds@[i as int]@);
        let ghost before = out@.map_values(|c: Conflict| conflict_view(c));
        if first {
            let mut members: Vec<usize> = Vec::new();
            for j in 0..n
                invariant
                    n == binds@.len(),
                    names.len() == n,
                    i < n,
                    forall|k: int| 0 <= k < n ==> (#[trigger] names@[k])@ == binds@[k]@.key.name(),
                    p == (|j: int| same_combo(binds@[j]@, binds@[i as int]@)),
                    ints(members@) == indices_where(j as nat, p),
            {
                if same_combo_of(&binds[j], &names[j], &binds[i], &names[i]) {
                    let ghost mb = ints(members@);
                    members.push(j);
                    proof {
                        assert(ints(members@) =~= mb.push(j as int));
                        assert(indices_where((j + 1) as nat, p) =~= indices_where(j as nat, p).push(j as int));
                    }
                } else {
                    proof {
                        assert(indices_where((j + 1) as nat, p) =~= indices_where(j as nat, p));
                    }
                }
            }
            if members.len() > 1 {
                let c = Conflict { label: binds[i].combo(), submap: binds[i].submap.clone(), members: members };
                out.push(c);
                proof {
                    assert(out@.map_values(|c: Conflict| conflict_view(c)) =~= before.push(conflict_view(c)));
                    assert(conflicts_upto(binds@, (i + 1) as nat) =~= conflicts_upto(binds@, i as nat).push(conflict_view(c)));
                }
            } else {
                proof {
                    assert(conflicts_upto(binds@, (i + 1) as nat) =~= conflicts_upto(binds@, i as nat));
                }
            }
        } else {
            proof {
                assert(conflicts_upto(binds@, (i + 1) as nat) =~= conflicts_upto(binds@, i as nat));
            }
        }
    }
    proof {
        let cs = conflicts_upto(binds@, binds@.len());
        let ov = out@.map_values(|c: Conflict| conflict_view(c));
        assert forall|g: int, a: int, b: int| #![trigger out@[g].members@[a], out@[g].members@[b]]
            0 <= g < out@.len() && 0 <= a < out@[g].members@.len() && 0 <= b < out@[g].members@.len() implies {
                &&& out@[g].members@.len() >= 2
                &&& out@[g].members@[a] < binds@.len()
                &&& binds@[out@[g].members@[a] as int]@.submap == out@[g].submap@
                &&& binds@[out@[g].members@[a] as int]@.submap == binds@[out@[g].members@[b] as int]@.submap
                &&& binds@[out@[g].members@[a] as int]@.mods == binds@[out@[g].members@[b] as int]@.mods
                &&& binds@[out@[g].members@[a] as int]@.key.name() == binds@[out@[g].members@[b] as int]@.key.name()
            } by {
            assert(ov[g] == conflict_view(out@[g]));
            let ms = ints(out@[g].members@);
            assert(ms[a] == out@[g].members@[a] as int);
            assert(ms[b] == out@[g].members@[b] as int);
            lemma_conflict_members_share_combo(binds@, g, a, b);
        }
        assert forall|g1: int, g2: int| #![trigger out@[g1], out@[g2]]
            0 <= g1 < g2 < out@.len() implies {
                let (f1, f2) = (out@[g1].members@[0] as int, out@[g2].members@[0] as int);
                &&& f1 < f2
                &&& !(binds@[f1]@.submap == binds@[f2]@.submap && binds@[f1]@.mods == binds@[f2]@.mods
                    && binds@[f1]@.key.name() == binds@[f2]@.key.name())
            } by {
            assert(ov[g1] == conflict_view(out@[g1]));
            assert(ov[g2] == conflict_view(out@[g2]));
            lemma_conflicts_distinct(binds@, g1, g2);
            assert(ints(out@[g1].members@)[0] == out@[g1].members@[0] as int);
            assert(ints(out@[g2].members@)[0] == out@[g2].members@[0] as int);
        }
    }
    out
}

} // verus!
