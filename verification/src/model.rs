//! Domain types: modifiers, key, flags and the bind itself.

use vstd::prelude::*;
use crate::text::{chars_of, dec, dec_of, eq_ignore_ascii_case, eq_ignore_case, lowercase, parse_u32, parse_u32_of, push_all, strip_prefix, strip_prefix_lit, string_lit, to_lowercase_of, trim, trim_of, is_lit, join, join_of, slice_of, string_of, tokens, tokens_of, upper, upper_of, lemma_dec, lemma_parse_dec, lemma_trim_plain, is_digit, lower_char, is_sep, lemma_tokens_join, tokens_from};

verus! {

// ---------------------------------------------------------------------------
// Modifiers
// ---------------------------------------------------------------------------

/// Modifier mask with the bits Hyprland uses (`modmask` in `hyprctl binds -j`).
#[derive(Clone, Copy, Debug, PartialEq, Eq, Structural, Hash, PartialOrd, Ord)]
pub struct ModMask(pub u32);

/// The bit of a modifier name, with the aliases Hyprland accepts, in any case.
pub open spec fn mod_bit(name: Seq<char>) -> Option<u32> {
    let u = upper(name);
    if u == "SHIFT"@ {
        Some(1u32)
    } else if u == "CAPS"@ {
        Some(2u32)
    } else if u == "CTRL"@ || u == "CONTROL"@ {
        Some(4u32)
    } else if u == "ALT"@ || u == "MOD1"@ {
        Some(8u32)
    } else if u == "MOD2"@ {
        Some(16u32)
    } else if u == "MOD3"@ {
        Some(32u32)
    } else if u == "SUPER"@ || u == "WIN"@ || u == "LOGO"@ || u == "MOD4"@ {
        Some(64u32)
    } else if u == "MOD5"@ {
        Some(128u32)
    } else {
        None
    }
}

/// The union of the bits of the recognised names.
pub open spec fn names_mask(toks: Seq<Seq<char>>) -> u32
    decreases toks.len(),
{
    if toks.len() == 0 {
        0
    } else {
        names_mask(toks.drop_last()) | match mod_bit(toks.last()) {
            Some(b) => b,
            None => 0u32,
        }
    }
}

/// The names that are not modifiers, in order.
pub open spec fn unknown_names(toks: Seq<Seq<char>>) -> Seq<Seq<char>>
    decreases toks.len(),
{
    if toks.len() == 0 {
        seq![]
    } else {
        unknown_names(toks.drop_last()) + if mod_bit(toks.last()) is None {
            seq![toks.last()]
        } else {
            seq![]
        }
    }
}

/// Whether `m` holds every bit of `o`.
pub open spec fn mask_contains(m: u32, o: u32) -> bool {
    m & o == o
}

/// Names of the modifiers of a mask, in the order SUPER, CTRL, ALT, SHIFT, CAPS,
/// MOD2, MOD3, MOD5.
pub open spec fn mod_names(m: u32) -> Seq<Seq<char>> {
    (if mask_contains(m, 64) { seq!["SUPER"@] } else { seq![] })
    + (if mask_contains(m, 4) { seq!["CTRL"@] } else { seq![] })
    + (if mask_contains(m, 8) { seq!["ALT"@] } else { seq![] })
    + (if mask_contains(m, 1) { seq!["SHIFT"@] } else { seq![] })
    + (if mask_contains(m, 2) { seq!["CAPS"@] } else { seq![] })
    + (if mask_contains(m, 16) { seq!["MOD2"@] } else { seq![] })
    + (if mask_contains(m, 32) { seq!["MOD3"@] } else { seq![] })
    + (if mask_contains(m, 128) { seq!["MOD5"@] } else { seq![] })
}

/// `"SUPER+SHIFT"`; empty when there is no modifier.
pub open spec fn mod_label(m: u32) -> Seq<char> {
    join(mod_names(m), "+"@)
}

proof fn lemma_names_mask_concat(a: Seq<Seq<char>>, b: Seq<Seq<char>>)
    ensures
        names_mask(a + b) == names_mask(a) | names_mask(b),
        unknown_names(a + b) == unknown_names(a) + unknown_names(b),
    decreases b.len(),
{
    let x = names_mask(a);
    if b.len() == 0 {
        assert(a + b =~= a);
        assert(x | 0u32 == x) by (bit_vector);
        assert(unknown_names(a) + unknown_names(b) =~= unknown_names(a));
    } else {
        lemma_names_mask_concat(a, b.drop_last());
        assert((a + b).drop_last() =~= a + b.drop_last());
        assert((a + b).last() == b.last());
        let y = names_mask(b.drop_last());
        let z: u32 = match mod_bit(b.last()) {
            Some(v) => v,
            None => 0u32,
        };
        assert((x | y) | z == x | (y | z)) by (bit_vector);
        let ua = unknown_names(a);
        let ub = unknown_names(b.drop_last());
        let uz: Seq<Seq<char>> = if mod_bit(b.last()) is None { seq![b.last()] } else { seq![] };
        assert((ua + ub) + uz =~= ua + (ub + uz));
    }
}

proof fn lemma_mod_bit_names()
    ensures
        mod_bit("SUPER"@) == Some(64u32),
        mod_bit("CTRL"@) == Some(4u32),
        mod_bit("ALT"@) == Some(8u32),
        mod_bit("SHIFT"@) == Some(1u32),
        mod_bit("CAPS"@) == Some(2u32),
        mod_bit("MOD2"@) == Some(16u32),
        mod_bit("MOD3"@) == Some(32u32),
        mod_bit("MOD5"@) == Some(128u32),
{
    reveal_strlit("SUPER");
    reveal_strlit("CTRL");
    reveal_strlit("ALT");
    reveal_strlit("SHIFT");
    reveal_strlit("CAPS");
    reveal_strlit("MOD2");
    reveal_strlit("MOD3");
    reveal_strlit("MOD5");
    reveal_strlit("CONTROL");
    reveal_strlit("MOD1");
    reveal_strlit("WIN");
    reveal_strlit("LOGO");
    reveal_strlit("MOD4");
    assert("SUPER"@[1] != "SHIFT"@[1]);
    assert("CTRL"@[1] != "CAPS"@[1]);
    assert("MOD2"@[0] != "CAPS"@[0] && "MOD2"@[0] != "CTRL"@[0] && "MOD2"@[3] != "MOD1"@[3]);
    assert("MOD3"@[0] != "CAPS"@[0] && "MOD3"@[0] != "CTRL"@[0] && "MOD3"@[3] != "MOD1"@[3] && "MOD3"@[3] != "MOD2"@[3]);
    assert("MOD5"@[0] != "CAPS"@[0] && "MOD5"@[0] != "CTRL"@[0] && "MOD5"@[3] != "MOD1"@[3] && "MOD5"@[3] != "MOD2"@[3]);
    assert("MOD5"@[3] != "MOD3"@[3] && "MOD5"@[3] != "MOD4"@[3] && "MOD5"@[0] != "LOGO"@[0]);
    assert(upper("SUPER"@) =~= "SUPER"@);
    assert(upper("CTRL"@) =~= "CTRL"@);
    assert(upper("ALT"@) =~= "ALT"@);
    assert(upper("SHIFT"@) =~= "SHIFT"@);
    assert(upper("CAPS"@) =~= "CAPS"@);
    assert(upper("MOD2"@) =~= "MOD2"@);
    assert(upper("MOD3"@) =~= "MOD3"@);
    assert(upper("MOD5"@) =~= "MOD5"@);
}

/// The mask and unknown names of one optional name.
proof fn lemma_piece(on: bool, name: Seq<char>, bit: u32)
    requires
        mod_bit(name) == Some(bit),
    ensures
        names_mask(if on { seq![name] } else { seq![] }) == if on { bit } else { 0u32 },
        unknown_names(if on { seq![name] } else { seq![] }) == Seq::<Seq<char>>::empty(),
{
    let e = Seq::<Seq<char>>::empty();
    assert(names_mask(e) == 0);
    assert(unknown_names(e) == e);
    if on {
        let s = seq![name];
        assert(s.drop_last() =~= e);
        assert(s.last() == name);
        assert(0u32 | bit == bit) by (bit_vector);
        assert(names_mask(s) == names_mask(e) | bit);
        assert(unknown_names(s) == unknown_names(e) + Seq::<Seq<char>>::empty());
        assert(unknown_names(e) + Seq::<Seq<char>>::empty() =~= e);
    }
}

/// The names of a mask of the eight modifier bits give back the mask, all known.
proof fn lemma_mod_names_mask(m: u32)
    requires
        m < 256,
    ensures
        names_mask(mod_names(m)) == m,
        unknown_names(mod_names(m)) == Seq::<Seq<char>>::empty(),
{
    lemma_mod_bit_names();
    let b64 = mask_contains(m, 64);
    let b4 = mask_contains(m, 4);
    let b8 = mask_contains(m, 8);
    let b1 = mask_contains(m, 1);
    let b2 = mask_contains(m, 2);
    let b16 = mask_contains(m, 16);
    let b32 = mask_contains(m, 32);
    let b128 = mask_contains(m, 128);
    let p1: Seq<Seq<char>> = if b64 { seq!["SUPER"@] } else { seq![] };
    let p2: Seq<Seq<char>> = if b4 { seq!["CTRL"@] } else { seq![] };
    let p3: Seq<Seq<char>> = if b8 { seq!["ALT"@] } else { seq![] };
    let p4: Seq<Seq<char>> = if b1 { seq!["SHIFT"@] } else { seq![] };
    let p5: Seq<Seq<char>> = if b2 { seq!["CAPS"@] } else { seq![] };
    let p6: Seq<Seq<char>> = if b16 { seq!["MOD2"@] } else { seq![] };
    let p7: Seq<Seq<char>> = if b32 { seq!["MOD3"@] } else { seq![] };
    let p8: Seq<Seq<char>> = if b128 { seq!["MOD5"@] } else { seq![] };
    assert(mod_names(m) == p1 + p2 + p3 + p4 + p5 + p6 + p7 + p8);
    lemma_piece(b64, "SUPER"@, 64u32);
    lemma_piece(b4, "CTRL"@, 4u32);
    lemma_piece(b8, "ALT"@, 8u32);
    lemma_piece(b1, "SHIFT"@, 1u32);
    lemma_piece(b2, "CAPS"@, 2u32);
    lemma_piece(b16, "MOD2"@, 16u32);
    lemma_piece(b32, "MOD3"@, 32u32);
    lemma_piece(b128, "MOD5"@, 128u32);
    lemma_names_mask_concat(p1, p2);
    lemma_names_mask_concat(p1 + p2, p3);
    lemma_names_mask_concat(p1 + p2 + p3, p4);
    lemma_names_mask_concat(p1 + p2 + p3 + p4, p5);
    lemma_names_mask_concat(p1 + p2 + p3 + p4 + p5, p6);
    lemma_names_mask_concat(p1 + p2 + p3 + p4 + p5 + p6, p7);
    lemma_names_mask_concat(p1 + p2 + p3 + p4 + p5 + p6 + p7, p8);
    assert((m < 256) ==> ((((((((if m & 64 == 64 { 64u32 } else { 0u32 }) | (if m & 4 == 4 { 4u32 } else { 0u32 }))
        | (if m & 8 == 8 { 8u32 } else { 0u32 })) | (if m & 1 == 1 { 1u32 } else { 0u32 })) | (if m & 2 == 2 { 2u32 } else { 0u32 }))
        | (if m & 16 == 16 { 16u32 } else { 0u32 })) | (if m & 32 == 32 { 32u32 } else { 0u32 })) | (if m & 128 == 128 { 128u32 } else { 0u32 })) == m) by (bit_vector);
    let e = Seq::<Seq<char>>::empty();
    assert(e + e =~= e);
}

/// Non-empty words without separators.
spec fn plain_words(parts: Seq<Seq<char>>) -> bool {
    &&& forall|k: int| 0 <= k < parts.len() ==> (#[trigger] parts[k]).len() > 0
    &&& forall|k: int, i: int| 0 <= k < parts.len() && 0 <= i < parts[k].len() ==> !is_sep(#[trigger] parts[k][i], true)
}

proof fn lemma_plain_concat(a: Seq<Seq<char>>, b: Seq<Seq<char>>)
    requires
        plain_words(a),
        plain_words(b),
    ensures
        plain_words(a + b),
{
    assert forall|k: int| 0 <= k < (a + b).len() implies (#[trigger] (a + b)[k]).len() > 0 by {
        if k >= a.len() {
            assert((a + b)[k] == b[k - a.len()]);
        }
    }
    assert forall|k: int, i: int| 0 <= k < (a + b).len() && 0 <= i < (a + b)[k].len() implies !is_sep(#[trigger] (a + b)[k][i], true) by {
        if k >= a.len() {
            assert((a + b)[k] == b[k - a.len()]);
        } else {
            assert((a + b)[k] == a[k]);
        }
    }
}

/// One optional modifier name is a plain word.
proof fn lemma_plain_piece(on: bool, name: Seq<char>)
    requires
        name.len() > 0,
        forall|i: int| 0 <= i < name.len() ==> !is_sep(#[trigger] name[i], true),
    ensures
        plain_words(if on { seq![name] } else { seq![] }),
{
    if on {
        assert(seq![name][0] == name);
    }
}

proof fn lemma_name_chars()
    ensures
        forall|i: int| 0 <= i < "SUPER"@.len() ==> !is_sep(#[trigger] "SUPER"@[i], true),
        forall|i: int| 0 <= i < "CTRL"@.len() ==> !is_sep(#[trigger] "CTRL"@[i], true),
        forall|i: int| 0 <= i < "ALT"@.len() ==> !is_sep(#[trigger] "ALT"@[i], true),
        forall|i: int| 0 <= i < "SHIFT"@.len() ==> !is_sep(#[trigger] "SHIFT"@[i], true),
        forall|i: int| 0 <= i < "CAPS"@.len() ==> !is_sep(#[trigger] "CAPS"@[i], true),
        forall|i: int| 0 <= i < "MOD2"@.len() ==> !is_sep(#[trigger] "MOD2"@[i], true),
        forall|i: int| 0 <= i < "MOD3"@.len() ==> !is_sep(#[trigger] "MOD3"@[i], true),
        forall|i: int| 0 <= i < "MOD5"@.len() ==> !is_sep(#[trigger] "MOD5"@[i], true),
        "SUPER"@.len() > 0 && "CTRL"@.len() > 0 && "ALT"@.len() > 0 && "SHIFT"@.len() > 0,
        "CAPS"@.len() > 0 && "MOD2"@.len() > 0 && "MOD3"@.len() > 0 && "MOD5"@.len() > 0,
{
    reveal_strlit("SUPER");
    reveal_strlit("CTRL");
    reveal_strlit("ALT");
    reveal_strlit("SHIFT");
    reveal_strlit("CAPS");
    reveal_strlit("MOD2");
    reveal_strlit("MOD3");
    reveal_strlit("MOD5");
}

/// The label of a mask splits back into its names.
proof fn lemma_label_tokens(m: u32)
    ensures
        tokens(mod_label(m), true) == mod_names(m),
{
    let ns = mod_names(m);
    lemma_name_chars();
    let p1: Seq<Seq<char>> = if mask_contains(m, 64) { seq!["SUPER"@] } else { seq![] };
    let p2: Seq<Seq<char>> = if mask_contains(m, 4) { seq!["CTRL"@] } else { seq![] };
    let p3: Seq<Seq<char>> = if mask_contains(m, 8) { seq!["ALT"@] } else { seq![] };
    let p4: Seq<Seq<char>> = if mask_contains(m, 1) { seq!["SHIFT"@] } else { seq![] };
    let p5: Seq<Seq<char>> = if mask_contains(m, 2) { seq!["CAPS"@] } else { seq![] };
    let p6: Seq<Seq<char>> = if mask_contains(m, 16) { seq!["MOD2"@] } else { seq![] };
    let p7: Seq<Seq<char>> = if mask_contains(m, 32) { seq!["MOD3"@] } else { seq![] };
    let p8: Seq<Seq<char>> = if mask_contains(m, 128) { seq!["MOD5"@] } else { seq![] };
    assert(ns == p1 + p2 + p3 + p4 + p5 + p6 + p7 + p8);
    lemma_plain_piece(mask_contains(m, 64), "SUPER"@);
    lemma_plain_piece(mask_contains(m, 4), "CTRL"@);
    lemma_plain_piece(mask_contains(m, 8), "ALT"@);
    lemma_plain_piece(mask_contains(m, 1), "SHIFT"@);
    lemma_plain_piece(mask_contains(m, 2), "CAPS"@);
    lemma_plain_piece(mask_contains(m, 16), "MOD2"@);
    lemma_plain_piece(mask_contains(m, 32), "MOD3"@);
    lemma_plain_piece(mask_contains(m, 128), "MOD5"@);
    lemma_plain_concat(p1, p2);
    lemma_plain_concat(p1 + p2, p3);
    lemma_plain_concat(p1 + p2 + p3, p4);
    lemma_plain_concat(p1 + p2 + p3 + p4, p5);
    lemma_plain_concat(p1 + p2 + p3 + p4 + p5, p6);
    lemma_plain_concat(p1 + p2 + p3 + p4 + p5 + p6, p7);
    lemma_plain_concat(p1 + p2 + p3 + p4 + p5 + p6 + p7, p8);
    if ns.len() == 0 {
        assert(mod_label(m) == Seq::<char>::empty());
        assert(tokens(Seq::<char>::empty(), true) == Seq::<Seq<char>>::empty());
    } else {
        lemma_tokens_join(ns, Seq::<char>::empty());
        assert(mod_label(m) + Seq::<char>::empty() =~= mod_label(m));
        assert(tokens_from(Seq::<char>::empty(), true, seq![]) == Seq::<Seq<char>>::empty());
        assert(ns + Seq::<Seq<char>>::empty() =~= ns);
    }
}

/// Reading back the label of a mask of the eight modifier bits gives the same mask
/// and no unknown name.
pub proof fn lemma_label_roundtrip(m: u32)
    requires
        m < 256,
    ensures
        names_mask(tokens(mod_label(m), true)) == m,
        unknown_names(tokens(mod_label(m), true)) == Seq::<Seq<char>>::empty(),
{
    lemma_label_tokens(m);
    lemma_mod_names_mask(m);
}

fn push_name(v: &mut Vec<&'static str>, on: bool, name: &'static str)
    ensures
        final(v)@.map_values(|s: &str| s@) == old(v)@.map_values(|s: &str| s@) + if on {
            seq![name@]
        } else {
            seq![]
        },
{
    let ghost before = v@.map_values(|s: &str| s@);
    if on {
        v.push(name);
        proof {
            assert(v@.map_values(|s: &str| s@) =~= before + seq![name@]);
        }
    } else {
        proof {
            assert(v@.map_values(|s: &str| s@) =~= before + Seq::<Seq<char>>::empty());
        }
    }
}

pub(crate) fn mod_bit_of(v: &Vec<char>) -> (r: Option<u32>)
    ensures
        r == mod_bit(v@),
{
    let u = upper_of(v);
    if is_lit(&u, "SHIFT") {
        Some(1)
    } else if is_lit(&u, "CAPS") {
        Some(2)
    } else if is_lit(&u, "CTRL") || is_lit(&u, "CONTROL") {
        Some(4)
    } else if is_lit(&u, "ALT") || is_lit(&u, "MOD1") {
        Some(8)
    } else if is_lit(&u, "MOD2") {
        Some(16)
    } else if is_lit(&u, "MOD3") {
        Some(32)
    } else if is_lit(&u, "SUPER") || is_lit(&u, "WIN") || is_lit(&u, "LOGO") || is_lit(&u, "MOD4") {
        Some(64)
    } else if is_lit(&u, "MOD5") {
        Some(128)
    } else {
        None
    }
}

/// The mask and the unknown names of a list of modifier names.
pub(crate) fn names_of(toks: &Vec<Vec<char>>) -> (r: (u32, Vec<Vec<char>>))
    ensures
        r.0 == names_mask(toks@.map_values(|t: Vec<char>| t@)),
        r.1@.map_values(|t: Vec<char>| t@) == unknown_names(toks@.map_values(|t: Vec<char>| t@)),
{
    let ghost ts = toks@.map_values(|t: Vec<char>| t@);
    let mut mask: u32 = 0;
    let mut unknown: Vec<Vec<char>> = Vec::new();
    for i in 0..toks.len()
        invariant
            ts == toks@.map_values(|t: Vec<char>| t@),
            mask == names_mask(ts.take(i as int)),
            unknown@.map_values(|t: Vec<char>| t@) == unknown_names(ts.take(i as int)),
    {
        proof {
            assert(ts.take(i + 1).drop_last() =~= ts.take(i as int));
            assert(ts.take(i + 1).last() == toks@[i as int]@);
        }
        let ghost before = unknown@.map_values(|t: Vec<char>| t@);
        match mod_bit_of(&toks[i]) {
            Some(b) => {
                mask = mask | b;
                proof {
                    assert(before + Seq::<Seq<char>>::empty() =~= before);
                }
            },
            None => {
                let t = slice_of(&toks[i], 0, toks[i].len());
                proof {
                    assert(t@ =~= toks@[i as int]@);
                    assert(mask | 0u32 == mask) by (bit_vector);
                }
                unknown.push(t);
                proof {
                    assert(unknown@.map_values(|t: Vec<char>| t@) =~= before + seq![t@]);
                }
            },
        }
    }
    proof {
        assert(ts.take(toks@.len() as int) =~= ts);
    }
    (mask, unknown)
}

impl ModMask {
    #[allow(non_snake_case)]
    pub fn NONE() -> (r: ModMask)
        ensures
            r.0 == 0,
    {
        ModMask(0)
    }

    #[allow(non_snake_case)]
    pub fn SHIFT() -> (r: ModMask)
        ensures
            r.0 == 1,
    {
        ModMask(1)
    }

    #[allow(non_snake_case)]
    pub fn CAPS() -> (r: ModMask)
        ensures
            r.0 == 2,
    {
        ModMask(2)
    }

    #[allow(non_snake_case)]
    pub fn CTRL() -> (r: ModMask)
        ensures
            r.0 == 4,
    {
        ModMask(4)
    }

    #[allow(non_snake_case)]
    pub fn ALT() -> (r: ModMask)
        ensures
            r.0 == 8,
    {
        ModMask(8)
    }

    #[allow(non_snake_case)]
    pub fn MOD2() -> (r: ModMask)
        ensures
            r.0 == 16,
    {
        ModMask(16)
    }

    #[allow(non_snake_case)]
    pub fn MOD3() -> (r: ModMask)
        ensures
            r.0 == 32,
    {
        ModMask(32)
    }

    #[allow(non_snake_case)]
    pub fn SUPER() -> (r: ModMask)
        ensures
            r.0 == 64,
    {
        ModMask(64)
    }

    #[allow(non_snake_case)]
    pub fn MOD5() -> (r: ModMask)
        ensures
            r.0 == 128,
    {
        ModMask(128)
    }


    /// Recognises one modifier name with the aliases Hyprland accepts.
    pub fn parse_one(name: &str) -> (r: Option<ModMask>)
        ensures
            r matches Some(m) ==> mod_bit(name@) == Some(m.0),
            r is None <==> mod_bit(name@) is None,
    {
        let v = chars_of(name);
        match mod_bit_of(&v) {
            Some(b) => Some(ModMask(b)),
            None => None,
        }
    }

    /// Reads `"SUPER SHIFT"` or `"SUPER+SHIFT"`: the mask and the names that are
    /// not modifiers.
    pub fn from_names(s: &str) -> (r: (ModMask, Vec<String>))
        ensures
            r.0.0 == names_mask(tokens(s@, true)),
            r.1@.map_values(|t: String| t@) == unknown_names(tokens(s@, true)),
    {
        let v = chars_of(s);
        let toks = tokens_of(&v, true);
        let (mask, unknown) = names_of(&toks);
        let names = strings_of(&unknown);
        (ModMask(mask), names)
    }

    pub fn bits(self) -> (r: u32)
        ensures
            r == self.0,
    {
        self.0
    }

    pub fn contains(self, other: ModMask) -> (r: bool)
        ensures
            r == mask_contains(self.0, other.0),
    {
        self.0 & other.0 == other.0
    }

    pub fn is_empty(self) -> (r: bool)
        ensures
            r == (self.0 == 0),
    {
        self.0 == 0
    }

    /// Names of the modifiers, in the canonical order of presentation.
    pub fn names(self) -> (r: Vec<&'static str>)
        ensures
            r@.map_values(|s: &str| s@) == mod_names(self.0),
    {
        let m = self.0;
        let mut v: Vec<&'static str> = Vec::new();
        proof {
            assert(v@.map_values(|s: &str| s@) =~= Seq::<Seq<char>>::empty());
        }
        push_name(&mut v, m & 64 == 64, "SUPER");
        push_name(&mut v, m & 4 == 4, "CTRL");
        push_name(&mut v, m & 8 == 8, "ALT");
        push_name(&mut v, m & 1 == 1, "SHIFT");
        push_name(&mut v, m & 2 == 2, "CAPS");
        push_name(&mut v, m & 16 == 16, "MOD2");
        push_name(&mut v, m & 32 == 32, "MOD3");
        push_name(&mut v, m & 128 == 128, "MOD5");
        proof {
            assert(forall|a: Seq<Seq<char>>, b: Seq<Seq<char>>, c: Seq<Seq<char>>| #![auto] (a + b) + c =~= a + (b + c));
            assert(Seq::<Seq<char>>::empty() + (if mask_contains(m, 64) { seq!["SUPER"@] } else { seq![] }) =~= (if mask_contains(m, 64) { seq!["SUPER"@] } else { seq![] }));
        }
        v
    }

    /// `"SUPER+SHIFT"`; empty when there is no modifier.
    pub fn label(self) -> (r: String)
        ensures
            r@ == mod_label(self.0),
    {
        let names = self.names();
        let mut parts: Vec<Vec<char>> = Vec::new();
        for i in 0..names.len()
            invariant
                parts@.map_values(|t: Vec<char>| t@) == names@.map_values(|s: &str| s@).take(i as int),
        {
            let c = chars_of(names[i]);
            let ghost before = parts@.map_values(|t: Vec<char>| t@);
            parts.push(c);
            proof {
                assert(parts@.map_values(|t: Vec<char>| t@) =~= before.push(c@));
                assert(names@.map_values(|s: &str| s@).take(i + 1) =~= names@.map_values(|s: &str| s@).take(i as int).push(names@[i as int]@));
            }
        }
        proof {
            assert(names@.map_values(|s: &str| s@).take(names@.len() as int) =~= names@.map_values(|s: &str| s@));
        }
        let plus = chars_of("+");
        let j = join_of(&parts, &plus);
        string_of(&j)
    }
}

impl std::ops::BitOr for ModMask {
    type Output = ModMask;

    fn bitor(self, rhs: ModMask) -> ModMask {
        ModMask(self.0 | rhs.0)
    }
}

impl vstd::std_specs::ops::BitOrSpecImpl for ModMask {
    open spec fn obeys_bitor_spec() -> bool {
        true
    }

    open spec fn bitor_req(self, rhs: ModMask) -> bool {
        true
    }

    open spec fn bitor_spec(self, rhs: ModMask) -> ModMask {
        ModMask(self.0 | rhs.0)
    }
}

impl Default for ModMask {
    fn default() -> (r: ModMask)
        ensures
            r.0 == 0,
    {
        ModMask(0)
    }
}

/// Strings made from character vectors.
pub(crate) fn strings_of(v: &Vec<Vec<char>>) -> (r: Vec<String>)
    ensures
        r@.map_values(|t: String| t@) == v@.map_values(|t: Vec<char>| t@),
{
    let mut r: Vec<String> = Vec::new();
    for i in 0..v.len()
        invariant
            r@.map_values(|t: String| t@) == v@.map_values(|t: Vec<char>| t@).take(i as int),
    {
        let s = string_of(&v[i]);
        let ghost before = r@.map_values(|t: String| t@);
        r.push(s);
        proof {
            assert(r@.map_values(|t: String| t@) =~= before.push(s@));
            assert(v@.map_values(|t: Vec<char>| t@).take(i + 1) =~= v@.map_values(|t: Vec<char>| t@).take(i as int).push(v@[i as int]@));
        }
    }
    proof {
        assert(v@.map_values(|t: Vec<char>| t@).take(v@.len() as int) =~= v@.map_values(|t: Vec<char>| t@));
    }
    r
}

// ---------------------------------------------------------------------------
// Keys
// ---------------------------------------------------------------------------

/// The key of a bind as Hyprland understands it.
#[derive(Clone, Debug, PartialEq, Eq, Hash)]
pub enum Key {
    /// Keysym name (`Q`, `F1`, `mouse:272`, `XF86AudioMute`).
    Sym(String),
    /// X11 keycode (`36`, `code:36`). Hyprland reads numbers above 9 as keycodes.
    Code(u32),
    /// `catchall`: takes any key with those modifiers.
    CatchAll,
}

/// The mathematical value of a [`Key`].
pub ghost enum KeyView {
    Sym(Seq<char>),
    Code(u32),
    CatchAll,
}

impl View for Key {
    type V = KeyView;

    open spec fn view(&self) -> KeyView {
        match self {
            Key::Sym(s) => KeyView::Sym(s@),
            Key::Code(c) => KeyView::Code(*c),
            Key::CatchAll => KeyView::CatchAll,
        }
    }
}

/// How a key written in the configuration is read.
pub open spec fn parse_key(s0: Seq<char>) -> KeyView {
    let s = trim(s0);
    if eq_ignore_case(s, "catchall"@) {
        KeyView::CatchAll
    } else if strip_prefix(s, "code:"@) is Some && parse_u32(trim(strip_prefix(s, "code:"@)->0)) is Some {
        KeyView::Code(parse_u32(trim(strip_prefix(s, "code:"@)->0))->0)
    } else if parse_u32(s) is Some && parse_u32(s)->0 > 9 {
        KeyView::Code(parse_u32(s)->0)
    } else {
        KeyView::Sym(s)
    }
}

impl KeyView {
    /// Normalised form used to compare identities.
    pub open spec fn norm(self) -> Seq<char> {
        match self {
            KeyView::Sym(s) => lowercase(s),
            KeyView::Code(c) => "code:"@ + dec(c as nat),
            KeyView::CatchAll => "catchall"@,
        }
    }

    /// Lower-case keysym name, known keycodes translated.
    pub open spec fn sym_name(self) -> Option<Seq<char>> {
        match self {
            KeyView::Sym(s) => Some(lowercase(s)),
            KeyView::Code(c) => match keycode_name(c) {
                Some(n) => Some(lowercase(n)),
                None => None,
            },
            KeyView::CatchAll => None,
        }
    }

    /// Text shown for a key: `Return [36]` for known keycodes.
    pub open spec fn display(self) -> Seq<char> {
        match self {
            KeyView::Sym(s) => s,
            KeyView::Code(c) => match keycode_name(c) {
                Some(n) => n + " ["@ + dec(c as nat) + "]"@,
                None => "code:"@ + dec(c as nat),
            },
            KeyView::CatchAll => "catchall"@,
        }
    }

    /// `sym_name`, or `norm` where there is none.
    pub open spec fn name(self) -> Seq<char> {
        match self.sym_name() {
            Some(n) => n,
            None => self.norm(),
        }
    }
}

pub(crate) fn parse_key_of(s0: &Vec<char>) -> (k: Key)
    ensures
        k@ == parse_key(s0@),
{
    let s = trim_of(s0);
    let catchall = chars_of("catchall");
    if eq_ignore_ascii_case(&s, &catchall) {
        return Key::CatchAll;
    }
    match strip_prefix_lit(&s, "code:") {
        Some(rest) => {
            let r = trim_of(&rest);
            match parse_u32_of(&r) {
                Some(c) => {
                    return Key::Code(c);
                },
                None => {},
            }
        },
        None => {},
    }
    match parse_u32_of(&s) {
        Some(n) => {
            if n > 9 {
                return Key::Code(n);
            }
        },
        None => {},
    }
    Key::Sym(string_of(&s))
}

/// The normal form of a keycode, `code:<n>`, reads back as that keycode; that of
/// `catchall` reads back as `catchall`.
pub proof fn lemma_code_norm_roundtrip(c: u32)
    ensures
        parse_key(KeyView::Code(c).norm()) == KeyView::Code(c),
        parse_key(KeyView::CatchAll.norm()) == KeyView::CatchAll,
{
    reveal_strlit("code:");
    reveal_strlit("catchall");
    let d = dec(c as nat);
    let s = "code:"@ + d;
    lemma_parse_dec(c);
    lemma_dec(c as nat);
    assert(is_digit(d.last()));
    assert(s.last() == d.last());
    lemma_trim_plain(s);
    assert(s[1] == 'o');
    assert(!eq_ignore_case(s, "catchall"@)) by {
        if s.len() == "catchall"@.len() {
            assert(lower_char(s[1]) != lower_char("catchall"@[1]));
        }
    }
    assert(s.take(5) =~= "code:"@);
    assert(s.skip(5) =~= d);
    lemma_trim_plain("catchall"@);
    assert(eq_ignore_case("catchall"@, "catchall"@));
}

/// `"code:"` followed by the decimal keycode.
fn code_text(c: u32) -> (r: Vec<char>)
    ensures
        r@ == "code:"@ + dec(c as nat),
{
    let mut v = chars_of("code:");
    let d = dec_of(c as u64);
    push_all(&mut v, &d);
    v
}

impl Key {
    pub fn parse(s: &str) -> (k: Key)
        ensures
            k@ == parse_key(s@),
    {
        let v = chars_of(s);
        parse_key_of(&v)
    }

    /// A copy with the same value.
    pub fn duplicate(&self) -> (k: Key)
        ensures
            k@ == self@,
    {
        match self {
            Key::Sym(s) => Key::Sym(s.clone()),
            Key::Code(c) => Key::Code(*c),
            Key::CatchAll => Key::CatchAll,
        }
    }

    /// Normalised form used to compare identities.
    pub fn norm(&self) -> (r: String)
        ensures
            r@ == self@.norm(),
    {
        match self {
            Key::Sym(s) => {
                let v = chars_of(s.as_str());
                let l = to_lowercase_of(&v);
                string_of(&l)
            },
            Key::Code(c) => {
                let v = code_text(*c);
                string_of(&v)
            },
            Key::CatchAll => string_lit("catchall"),
        }
    }

    /// Lower-case keysym name, known keycodes translated.
    pub fn sym_name(&self) -> (r: Option<String>)
        ensures
            r matches Some(n) ==> self@.sym_name() == Some(n@),
            r is None <==> self@.sym_name() is None,
    {
        match self {
            Key::Sym(s) => {
                let v = chars_of(s.as_str());
                let l = to_lowercase_of(&v);
                Some(string_of(&l))
            },
            Key::Code(c) => match keycode_to_sym(*c) {
                Some(n) => {
                    let v = chars_of(n);
                    let l = to_lowercase_of(&v);
                    Some(string_of(&l))
                },
                None => None,
            },
            Key::CatchAll => None,
        }
    }

    /// `sym_name`, or `norm` where there is none.
    pub(crate) fn name_of(&self) -> (r: Vec<char>)
        ensures
            r@ == self@.name(),
    {
        match self.sym_name() {
            Some(n) => chars_of(n.as_str()),
            None => {
                let n = self.norm();
                chars_of(n.as_str())
            },
        }
    }

    /// Text to show: `Return [36]` for known keycodes.
    pub fn display(&self) -> (r: String)
        ensures
            r@ == self@.display(),
    {
        match self {
            Key::Sym(s) => s.clone(),
            Key::Code(c) => match keycode_to_sym(*c) {
                Some(n) => {
                    let mut v = chars_of(n);
                    let open = chars_of(" [");
                    let d = dec_of(*c as u64);
                    let close = chars_of("]");
                    push_all(&mut v, &open);
                    push_all(&mut v, &d);
                    push_all(&mut v, &close);
                    string_of(&v)
                },
                None => {
                    let v = code_text(*c);
                    string_of(&v)
                },
            },
            Key::CatchAll => string_lit("catchall"),
        }
    }
}

/// The keysym name of a known X11 keycode of a standard US keyboard.
pub open spec fn keycode_name(code: u32) -> Option<Seq<char>> {
    match code {
        9 => Some("Escape"@),
        10 => Some("1"@),
        11 => Some("2"@),
        12 => Some("3"@),
        13 => Some("4"@),
        14 => Some("5"@),
        15 => Some("6"@),
        16 => Some("7"@),
        17 => Some("8"@),
        18 => Some("9"@),
        19 => Some("0"@),
        20 => Some("minus"@),
        21 => Some("equal"@),
        22 => Some("BackSpace"@),
        23 => Some("Tab"@),
        24 => Some("q"@),
        25 => Some("w"@),
        26 => Some("e"@),
        27 => Some("r"@),
        28 => Some("t"@),
        29 => Some("y"@),
        30 => Some("u"@),
        31 => Some("i"@),
        32 => Some("o"@),
        33 => Some("p"@),
        34 => Some("bracketleft"@),
        35 => Some("bracketright"@),
        36 => Some("Return"@),
        37 => Some("Control_L"@),
        38 => Some("a"@),
        39 => Some("s"@),
        40 => Some("d"@),
        41 => Some("f"@),
        42 => Some("g"@),
        43 => Some("h"@),
        44 => Some("j"@),
        45 => Some("k"@),
        46 => Some("l"@),
        47 => Some("semicolon"@),
        48 => Some("apostrophe"@),
        49 => Some("grave"@),
        50 => Some("Shift_L"@),
        51 => Some("backslash"@),
        52 => Some("z"@),
        53 => Some("x"@),
        54 => Some("c"@),
        55 => Some("v"@),
        56 => Some("b"@),
        57 => Some("n"@),
        58 => Some("m"@),
        59 => Some("comma"@),
        60 => Some("period"@),
        61 => Some("slash"@),
        62 => Some("Shift_R"@),
        63 => Some("KP_Multiply"@),
        64 => Some("Alt_L"@),
        65 => Some("space"@),
        66 => Some("Caps_Lock"@),
        67 => Some("F1"@),
        68 => Some("F2"@),
        69 => Some("F3"@),
        70 => Some("F4"@),
        71 => Some("F5"@),
        72 => Some("F6"@),
        73 => Some("F7"@),
        74 => Some("F8"@),
        75 => Some("F9"@),
        76 => Some("F10"@),
        77 => Some("Num_Lock"@),
        78 => Some("Scroll_Lock"@),
        79 => Some("KP_7"@),
        80 => Some("KP_8"@),
        81 => Some("KP_9"@),
        82 => Some("KP_Subtract"@),
        83 => Some("KP_4"@),
        84 => Some("KP_5"@),
        85 => Some("KP_6"@),
        86 => Some("KP_Add"@),
        87 => Some("KP_1"@),
        88 => Some("KP_2"@),
        89 => Some("KP_3"@),
        90 => Some("KP_0"@),
        91 => Some("KP_Decimal"@),
        94 => Some("less"@),
        95 => Some("F11"@),
        96 => Some("F12"@),
        104 => Some("KP_Enter"@),
        105 => Some("Control_R"@),
        106 => Some("KP_Divide"@),
        107 => Some("Print"@),
        108 => Some("Alt_R"@),
        110 => Some("Home"@),
        111 => Some("Up"@),
        112 => Some("Prior"@),
        113 => Some("Left"@),
        114 => Some("Right"@),
        115 => Some("End"@),
        116 => Some("Down"@),
        117 => Some("Next"@),
        118 => Some("Insert"@),
        119 => Some("Delete"@),
        121 => Some("XF86AudioMute"@),
        122 => Some("XF86AudioLowerVolume"@),
        123 => Some("XF86AudioRaiseVolume"@),
        127 => Some("Pause"@),
        133 => Some("Super_L"@),
        134 => Some("Super_R"@),
        135 => Some("Menu"@),
        _ => None,
    }
}

/// X11 keycodes (evdev + 8) of a standard US keyboard.
pub fn keycode_to_sym(code: u32) -> (r: Option<&'static str>)
    ensures
        r matches Some(n) ==> keycode_name(code) == Some(n@),
        r is None <==> keycode_name(code) is None,
{
    match code {
        9 => Some("Escape"),
        10 => Some("1"),
        11 => Some("2"),
        12 => Some("3"),
        13 => Some("4"),
        14 => Some("5"),
        15 => Some("6"),
        16 => Some("7"),
        17 => Some("8"),
        18 => Some("9"),
        19 => Some("0"),
        20 => Some("minus"),
        21 => Some("equal"),
        22 => Some("BackSpace"),
        23 => Some("Tab"),
        24 => Some("q"),
        25 => Some("w"),
        26 => Some("e"),
        27 => Some("r"),
        28 => Some("t"),
        29 => Some("y"),
        30 => Some("u"),
        31 => Some("i"),
        32 => Some("o"),
        33 => Some("p"),
        34 => Some("bracketleft"),
        35 => Some("bracketright"),
        36 => Some("Return"),
        37 => Some("Control_L"),
        38 => Some("a"),
        39 => Some("s"),
        40 => Some("d"),
        41 => Some("f"),
        42 => Some("g"),
        43 => Some("h"),
        44 => Some("j"),
        45 => Some("k"),
        46 => Some("l"),
        47 => Some("semicolon"),
        48 => Some("apostrophe"),
        49 => Some("grave"),
        50 => Some("Shift_L"),
        51 => Some("backslash"),
        52 => Some("z"),
        53 => Some("x"),
        54 => Some("c"),
        55 => Some("v"),
        56 => Some("b"),
        57 => Some("n"),
        58 => Some("m"),
        59 => Some("comma"),
        60 => Some("period"),
        61 => Some("slash"),
        62 => Some("Shift_R"),
        63 => Some("KP_Multiply"),
        64 => Some("Alt_L"),
        65 => Some("space"),
        66 => Some("Caps_Lock"),
        67 => Some("F1"),
        68 => Some("F2"),
        69 => Some("F3"),
        70 => Some("F4"),
        71 => Some("F5"),
        72 => Some("F6"),
        73 => Some("F7"),
        74 => Some("F8"),
        75 => Some("F9"),
        76 => Some("F10"),
        77 => Some("Num_Lock"),
        78 => Some("Scroll_Lock"),
        79 => Some("KP_7"),
        80 => Some("KP_8"),
        81 => Some("KP_9"),
        82 => Some("KP_Subtract"),
        83 => Some("KP_4"),
        84 => Some("KP_5"),
        85 => Some("KP_6"),
        86 => Some("KP_Add"),
        87 => Some("KP_1"),
        88 => Some("KP_2"),
        89 => Some("KP_3"),
        90 => Some("KP_0"),
        91 => Some("KP_Decimal"),
        94 => Some("less"),
        95 => Some("F11"),
        96 => Some("F12"),
        104 => Some("KP_Enter"),
        105 => Some("Control_R"),
        106 => Some("KP_Divide"),
        107 => Some("Print"),
        108 => Some("Alt_R"),
        110 => Some("Home"),
        111 => Some("Up"),
        112 => Some("Prior"),
        113 => Some("Left"),
        114 => Some("Right"),
        115 => Some("End"),
        116 => Some("Down"),
        117 => Some("Next"),
        118 => Some("Insert"),
        119 => Some("Delete"),
        121 => Some("XF86AudioMute"),
        122 => Some("XF86AudioLowerVolume"),
        123 => Some("XF86AudioRaiseVolume"),
        127 => Some("Pause"),
        133 => Some("Super_L"),
        134 => Some("Super_R"),
        135 => Some("Menu"),
        _ => None,
    }
}

// ---------------------------------------------------------------------------
// Flags
// ---------------------------------------------------------------------------

/// Flags of `bind[flags] =`. The letters are those of Hyprland's documentation.
#[derive(Clone, Copy, Debug, PartialEq, Eq, Structural, Hash)]
pub struct BindFlags {
    /// `l`: works with the screen locked.
    pub locked: bool,
    /// `r`: fires when the key is released.
    pub release: bool,
    /// `o`: long press.
    pub long_press: bool,
    /// `e`: repeats while held.
    pub repeat: bool,
    /// `n`: does not consume the key; the window gets it too.
    pub non_consuming: bool,
    /// `m`: mouse bind.
    pub mouse: bool,
    /// `t`: transparent, cannot be shadowed by other binds.
    pub transparent: bool,
    /// `i`: ignores modifiers.
    pub ignore_mods: bool,
    /// `s`: separates modifier combinations.
    pub separate: bool,
    /// `d`: carries a description (`bindd`).
    pub description: bool,
    /// `p`: bypasses the app's inhibit requests.
    pub bypass_inhibit: bool,
    /// `c`: click.
    pub click: bool,
    /// `g`: drag.
    pub drag: bool,
}

/// No flag set.
pub open spec fn no_flags() -> BindFlags {
    BindFlags { locked: false, release: false, long_press: false, repeat: false, non_consuming: false, mouse: false, transparent: false, ignore_mods: false, separate: false, description: false, bypass_inhibit: false, click: false, drag: false }
}

/// The flags with the one of letter `c` set, or `None` for an unknown letter.
pub open spec fn set_letter(f: BindFlags, c: char) -> Option<BindFlags> {
    match c {
        'l' => Some(BindFlags { locked: true, ..f }),
        'r' => Some(BindFlags { release: true, ..f }),
        'o' => Some(BindFlags { long_press: true, ..f }),
        'e' => Some(BindFlags { repeat: true, ..f }),
        'n' => Some(BindFlags { non_consuming: true, ..f }),
        'm' => Some(BindFlags { mouse: true, ..f }),
        't' => Some(BindFlags { transparent: true, ..f }),
        'i' => Some(BindFlags { ignore_mods: true, ..f }),
        's' => Some(BindFlags { separate: true, ..f }),
        'd' => Some(BindFlags { description: true, ..f }),
        'p' => Some(BindFlags { bypass_inhibit: true, ..f }),
        'c' => Some(BindFlags { click: true, ..f }),
        'g' => Some(BindFlags { drag: true, ..f }),
        _ => None,
    }
}

/// The flags of a run of letters and the letters that are not flags, in order.
pub open spec fn flags_of(s: Seq<char>) -> (BindFlags, Seq<char>)
    decreases s.len(),
{
    if s.len() == 0 {
        (no_flags(), seq![])
    } else {
        let (f, u) = flags_of(s.drop_last());
        match set_letter(f, s.last()) {
            Some(g) => (g, u),
            None => (f, u.push(s.last())),
        }
    }
}

pub open spec fn push_if(s: Seq<char>, on: bool, c: char) -> Seq<char> {
    if on {
        s.push(c)
    } else {
        s
    }
}

/// The letters of the flags that are set, in the order they are usually written.
pub open spec fn flag_letters(f: BindFlags) -> Seq<char> {
    push_if(push_if(push_if(push_if(push_if(push_if(push_if(push_if(push_if(push_if(push_if(push_if(push_if(seq![], f.locked, 'l'), f.release, 'r'), f.long_press, 'o'), f.repeat, 'e'), f.non_consuming, 'n'), f.mouse, 'm'), f.transparent, 't'), f.ignore_mods, 'i'), f.separate, 's'), f.description, 'd'), f.bypass_inhibit, 'p'), f.click, 'c'), f.drag, 'g')
}

/// Readable names of the flags that are set.
pub open spec fn flag_names(f: BindFlags) -> Seq<Seq<char>> {
    (if f.locked { seq!["locked"@] } else { seq![] }) + (if f.release { seq!["release"@] } else { seq![] }) + (if f.long_press { seq!["long press"@] } else { seq![] }) + (if f.repeat { seq!["repeat"@] } else { seq![] }) + (if f.non_consuming { seq!["non-consuming"@] } else { seq![] }) + (if f.mouse { seq!["mouse"@] } else { seq![] }) + (if f.transparent { seq!["transparent"@] } else { seq![] }) + (if f.ignore_mods { seq!["ignore mods"@] } else { seq![] }) + (if f.separate { seq!["separate"@] } else { seq![] }) + (if f.description { seq!["description"@] } else { seq![] }) + (if f.bypass_inhibit { seq!["bypass inhibit"@] } else { seq![] }) + (if f.click { seq!["click"@] } else { seq![] }) + (if f.drag { seq!["drag"@] } else { seq![] })
}

fn push_char_if(v: &mut Vec<char>, on: bool, c: char)
    ensures
        final(v)@ == push_if(old(v)@, on, c),
{
    if on {
        v.push(c);
    }
}

impl Default for BindFlags {
    fn default() -> (r: BindFlags)
        ensures
            r == no_flags(),
    {
        BindFlags { locked: false, release: false, long_press: false, repeat: false, non_consuming: false, mouse: false, transparent: false, ignore_mods: false, separate: false, description: false, bypass_inhibit: false, click: false, drag: false }
    }
}

proof fn lemma_flags_push_if(s: Seq<char>, g: BindFlags, on: bool, c: char)
    requires
        flags_of(s) == (g, Seq::<char>::empty()),
        set_letter(g, c) is Some,
    ensures
        flags_of(push_if(s, on, c)) == (if on { set_letter(g, c)->0 } else { g }, Seq::<char>::empty()),
{
    if on {
        assert(s.push(c).drop_last() =~= s);
    }
}

/// Reading back the letters of a set of flags gives the same flags and no unknown
/// letter.
#[verifier::rlimit(30)]
pub proof fn lemma_flags_roundtrip(f: BindFlags)
    ensures
        flags_of(flag_letters(f)) == (f, Seq::<char>::empty()),
{
    let e = Seq::<char>::empty();
    let g0 = no_flags();
    assert(flags_of(e) == (g0, e));
    let s1 = push_if(e, f.locked, 'l');
    let g1 = BindFlags { locked: f.locked, ..g0 };
    assert(flags_of(s1) == (g1, e)) by {
        lemma_flags_push_if(e, g0, f.locked, 'l');
    }
    let s2 = push_if(s1, f.release, 'r');
    let g2 = BindFlags { release: f.release, ..g1 };
    assert(flags_of(s2) == (g2, e)) by {
        lemma_flags_push_if(s1, g1, f.release, 'r');
    }
    let s3 = push_if(s2, f.long_press, 'o');
    let g3 = BindFlags { long_press: f.long_press, ..g2 };
    assert(flags_of(s3) == (g3, e)) by {
        lemma_flags_push_if(s2, g2, f.long_press, 'o');
    }
    let s4 = push_if(s3, f.repeat, 'e');
    let g4 = BindFlags { repeat: f.repeat, ..g3 };
    assert(flags_of(s4) == (g4, e)) by {
        lemma_flags_push_if(s3, g3, f.repeat, 'e');
    }
    let s5 = push_if(s4, f.non_consuming, 'n');
    let g5 = BindFlags { non_consuming: f.non_consuming, ..g4 };
    assert(flags_of(s5) == (g5, e)) by {
        lemma_flags_push_if(s4, g4, f.non_consuming, 'n');
    }
    let s6 = push_if(s5, f.mouse, 'm');
    let g6 = BindFlags { mouse: f.mouse, ..g5 };
    assert(flags_of(s6) == (g6, e)) by {
        lemma_flags_push_if(s5, g5, f.mouse, 'm');
    }
    let s7 = push_if(s6, f.transparent, 't');
    let g7 = BindFlags { transparent: f.transparent, ..g6 };
    assert(flags_of(s7) == (g7, e)) by {
        lemma_flags_push_if(s6, g6, f.transparent, 't');
    }
    let s8 = push_if(s7, f.ignore_mods, 'i');
    let g8 = BindFlags { ignore_mods: f.ignore_mods, ..g7 };
    assert(flags_of(s8) == (g8, e)) by {
        lemma_flags_push_if(s7, g7, f.ignore_mods, 'i');
    }
    let s9 = push_if(s8, f.separate, 's');
    let g9 = BindFlags { separate: f.separate, ..g8 };
    assert(flags_of(s9) == (g9, e)) by {
        lemma_flags_push_if(s8, g8, f.separate, 's');
    }
    let s10 = push_if(s9, f.description, 'd');
    let g10 = BindFlags { description: f.description, ..g9 };
    assert(flags_of(s10) == (g10, e)) by {
        lemma_flags_push_if(s9, g9, f.description, 'd');
    }
    let s11 = push_if(s10, f.bypass_inhibit, 'p');
    let g11 = BindFlags { bypass_inhibit: f.bypass_inhibit, ..g10 };
    assert(flags_of(s11) == (g11, e)) by {
        lemma_flags_push_if(s10, g10, f.bypass_inhibit, 'p');
    }
    let s12 = push_if(s11, f.click, 'c');
    let g12 = BindFlags { click: f.click, ..g11 };
    assert(flags_of(s12) == (g12, e)) by {
        lemma_flags_push_if(s11, g11, f.click, 'c');
    }
    lemma_flags_push_if(s12, g12, f.drag, 'g');
}

impl BindFlags {
    /// The flags and the letters that are not flags.
    pub fn from_letters(s: &str) -> (r: (BindFlags, Vec<char>))
        ensures
            (r.0, r.1@) == flags_of(s@),
    {
        let v = chars_of(s);
        flags_of_chars(&v)
    }

    /// Letters of the flags that are set, in the order they are usually written.
    pub fn letters(&self) -> (r: String)
        ensures
            r@ == flag_letters(*self),
    {
        let mut v: Vec<char> = Vec::new();
        proof {
            assert(v@ =~= Seq::<char>::empty());
        }
        push_char_if(&mut v, self.locked, 'l');
        push_char_if(&mut v, self.release, 'r');
        push_char_if(&mut v, self.long_press, 'o');
        push_char_if(&mut v, self.repeat, 'e');
        push_char_if(&mut v, self.non_consuming, 'n');
        push_char_if(&mut v, self.mouse, 'm');
        push_char_if(&mut v, self.transparent, 't');
        push_char_if(&mut v, self.ignore_mods, 'i');
        push_char_if(&mut v, self.separate, 's');
        push_char_if(&mut v, self.description, 'd');
        push_char_if(&mut v, self.bypass_inhibit, 'p');
        push_char_if(&mut v, self.click, 'c');
        push_char_if(&mut v, self.drag, 'g');
        string_of(&v)
    }

    /// Readable names of the flags that are set.
    pub fn describe(&self) -> (r: Vec<&'static str>)
        ensures
            r@.map_values(|s: &str| s@) == flag_names(*self),
    {
        let mut v: Vec<&'static str> = Vec::new();
        proof {
            assert(v@.map_values(|s: &str| s@) =~= Seq::<Seq<char>>::empty());
        }
        push_name(&mut v, self.locked, "locked");
        push_name(&mut v, self.release, "release");
        push_name(&mut v, self.long_press, "long press");
        push_name(&mut v, self.repeat, "repeat");
        push_name(&mut v, self.non_consuming, "non-consuming");
        push_name(&mut v, self.mouse, "mouse");
        push_name(&mut v, self.transparent, "transparent");
        push_name(&mut v, self.ignore_mods, "ignore mods");
        push_name(&mut v, self.separate, "separate");
        push_name(&mut v, self.description, "description");
        push_name(&mut v, self.bypass_inhibit, "bypass inhibit");
        push_name(&mut v, self.click, "click");
        push_name(&mut v, self.drag, "drag");
        proof {
            assert(forall|a: Seq<Seq<char>>, b: Seq<Seq<char>>, c: Seq<Seq<char>>| #![auto] (a + b) + c =~= a + (b + c));
            assert(Seq::<Seq<char>>::empty() + (if self.locked { seq!["locked"@] } else { seq![] }) =~= (if self.locked { seq!["locked"@] } else { seq![] }));
        }
        v
    }
}

fn set_letter_of(f: BindFlags, c: char) -> (r: Option<BindFlags>)
    ensures
        r == set_letter(f, c),
{
    match c {
        'l' => Some(BindFlags { locked: true, ..f }),
        'r' => Some(BindFlags { release: true, ..f }),
        'o' => Some(BindFlags { long_press: true, ..f }),
        'e' => Some(BindFlags { repeat: true, ..f }),
        'n' => Some(BindFlags { non_consuming: true, ..f }),
        'm' => Some(BindFlags { mouse: true, ..f }),
        't' => Some(BindFlags { transparent: true, ..f }),
        'i' => Some(BindFlags { ignore_mods: true, ..f }),
        's' => Some(BindFlags { separate: true, ..f }),
        'd' => Some(BindFlags { description: true, ..f }),
        'p' => Some(BindFlags { bypass_inhibit: true, ..f }),
        'c' => Some(BindFlags { click: true, ..f }),
        'g' => Some(BindFlags { drag: true, ..f }),
        _ => None,
    }
}

pub(crate) fn flags_of_chars(s: &Vec<char>) -> (r: (BindFlags, Vec<char>))
    ensures
        (r.0, r.1@) == flags_of(s@),
{
    let mut f = BindFlags::default();
    let mut unknown: Vec<char> = Vec::new();
    for i in 0..s.len()
        invariant
            (f, unknown@) == flags_of(s@.take(i as int)),
    {
        proof {
            assert(s@.take(i + 1).drop_last() =~= s@.take(i as int));
        }
        let c = s[i];
        match set_letter_of(f, c) {
            Some(g) => {
                f = g;
            },
            None => {
                unknown.push(c);
            },
        }
    }
    proof {
        assert(s@.take(s@.len() as int) =~= s@);
    }
    (f, unknown)
}

// ---------------------------------------------------------------------------
// Binds
// ---------------------------------------------------------------------------

/// Where a bind is written.
#[derive(Clone, Debug)]
pub struct SourceRef {
    pub file: String,
    pub line: usize,
    /// The line as written in the file, trailing white space removed.
    pub raw: String,
}

pub ghost struct SourceView {
    pub file: Seq<char>,
    pub line: nat,
    pub raw: Seq<char>,
}

impl View for SourceRef {
    type V = SourceView;

    open spec fn view(&self) -> SourceView {
        SourceView { file: self.file@, line: self.line as nat, raw: self.raw@ }
    }
}

/// Where a bind comes from once the file and `hyprctl` are merged.
#[derive(Clone, Copy, Debug, PartialEq, Eq, Structural)]
pub enum Origin {
    /// In the file. When `hyprctl` answered, it is not loaded.
    Config,
    /// Reported by `hyprctl` but not in the file.
    Live,
    /// In the file and loaded.
    Both,
}

/// Identity of a bind: submap, modifiers and normalised key.
pub type BindId = (String, ModMask, String);

/// The value of an identity.
pub open spec fn id_view(d: BindId) -> (Seq<char>, u32, Seq<char>) {
    (d.0@, (d.1).0, d.2@)
}

#[derive(Clone, Debug)]
pub struct Bind {
    pub mods: ModMask,
    pub key: Key,
    pub dispatcher: String,
    pub arg: String,
    /// Submap it belongs to; empty for the global one.
    pub submap: String,
    pub flags: BindFlags,
    pub description: String,
    pub tags: Vec<String>,
    pub source: Option<SourceRef>,
    pub origin: Origin,
}

/// The mathematical value of a [`Bind`].
pub ghost struct BindView {
    pub mods: u32,
    pub key: KeyView,
    pub dispatcher: Seq<char>,
    pub arg: Seq<char>,
    pub submap: Seq<char>,
    pub flags: BindFlags,
    pub description: Seq<char>,
    pub tags: Seq<Seq<char>>,
    pub source: Option<SourceView>,
    pub origin: Origin,
}

pub open spec fn strings_view(v: Seq<String>) -> Seq<Seq<char>> {
    v.map_values(|t: String| t@)
}

impl View for Bind {
    type V = BindView;

    open spec fn view(&self) -> BindView {
        BindView {
            mods: self.mods.0,
            key: self.key@,
            dispatcher: self.dispatcher@,
            arg: self.arg@,
            submap: self.submap@,
            flags: self.flags,
            description: self.description@,
            tags: strings_view(self.tags@),
            source: match self.source {
                Some(s) => Some(s@),
                None => None,
            },
            origin: self.origin,
        }
    }
}

/// What `Path::file_name` returns for a path written as text: its last component,
/// if that is a name.
pub uninterp spec fn path_file_name(p: Seq<char>) -> Option<Seq<char>>;

/// `std::path::Path::file_name`, the name read back as text. Claimed: the result is
/// `path_file_name` of the path; how components are split is not stated.
#[verifier::external_body]
fn file_name_of(p: &str) -> (r: Option<String>)
    ensures
        r matches Some(n) ==> path_file_name(p@) == Some(n@),
        r is None <==> path_file_name(p@) is None,
{
    std::path::Path::new(p).file_name().map(|n| n.to_string_lossy().into_owned())
}

impl BindView {
    /// Identity: submap, modifiers and normalised key.
    pub open spec fn id(self) -> (Seq<char>, u32, Seq<char>) {
        (self.submap, self.mods, self.key.norm())
    }

    /// `SUPER+SHIFT+T`.
    pub open spec fn combo(self) -> Seq<char> {
        let m = mod_label(self.mods);
        if m.len() == 0 {
            self.key.display()
        } else {
            m + "+"@ + self.key.display()
        }
    }

    /// Dispatcher and argument in one string.
    pub open spec fn action(self) -> Seq<char> {
        if self.arg.len() == 0 {
            self.dispatcher
        } else {
            self.dispatcher + " "@ + self.arg
        }
    }

    /// `file:line` with only the name of the file, or `hyprctl`.
    pub open spec fn location(self) -> Seq<char> {
        match self.source {
            Some(s) => (match path_file_name(s.file) {
                Some(n) => n,
                None => s.file,
            }) + ":"@ + dec(s.line),
            None => "hyprctl"@,
        }
    }
}

/// A copy of a list of strings.
pub fn clone_strings(v: &Vec<String>) -> (r: Vec<String>)
    ensures
        strings_view(r@) == strings_view(v@),
{
    let mut r: Vec<String> = Vec::new();
    for i in 0..v.len()
        invariant
            strings_view(r@) == strings_view(v@.take(i as int)),
    {
        let s = v[i].clone();
        let ghost before = strings_view(r@);
        r.push(s);
        proof {
            assert(strings_view(r@) =~= before.push(s@));
            assert(strings_view(v@.take(i + 1)) =~= strings_view(v@.take(i as int)).push(v@[i as int]@));
        }
    }
    proof {
        assert(v@.take(v@.len() as int) =~= v@);
    }
    r
}

/// `a + b` as a string.
pub(crate) fn concat2(a: &str, b: &str) -> (r: Vec<char>)
    ensures
        r@ == a@ + b@,
{
    let mut v = chars_of(a);
    let w = chars_of(b);
    push_all(&mut v, &w);
    v
}

impl Bind {
    /// A copy with the same value.
    pub fn duplicate(&self) -> (r: Bind)
        ensures
            r@ == self@,
    {
        Bind {
            mods: self.mods,
            key: self.key.duplicate(),
            dispatcher: self.dispatcher.clone(),
            arg: self.arg.clone(),
            submap: self.submap.clone(),
            flags: self.flags,
            description: self.description.clone(),
            tags: clone_strings(&self.tags),
            source: match &self.source {
                Some(s) => Some(SourceRef { file: s.file.clone(), line: s.line, raw: s.raw.clone() }),
                None => None,
            },
            origin: self.origin,
        }
    }

    pub fn id(&self) -> (r: BindId)
        ensures
            id_view(r) == self@.id(),
    {
        (self.submap.clone(), self.mods, self.key.norm())
    }

    /// `SUPER+SHIFT+T`.
    pub fn combo(&self) -> (r: String)
        ensures
            r@ == self@.combo(),
    {
        let m = self.mods.label();
        let k = self.key.display();
        if m.as_str().is_empty() {
            k
        } else {
            let mut v = concat2(m.as_str(), "+");
            let kv = chars_of(k.as_str());
            push_all(&mut v, &kv);
            string_of(&v)
        }
    }

    /// Dispatcher and argument in one string.
    pub fn action(&self) -> (r: String)
        ensures
            r@ == self@.action(),
    {
        if self.arg.as_str().is_empty() {
            self.dispatcher.clone()
        } else {
            let mut v = concat2(self.dispatcher.as_str(), " ");
            let a = chars_of(self.arg.as_str());
            push_all(&mut v, &a);
            string_of(&v)
        }
    }

    /// `file:line` with only the name of the file.
    pub fn location(&self) -> (r: String)
        ensures
            r@ == self@.location(),
    {
        match &self.source {
            Some(s) => {
                let name = match file_name_of(s.file.as_str()) {
                    Some(n) => n,
                    None => s.file.clone(),
                };
                let mut v = concat2(name.as_str(), ":");
                let d = dec_of(s.line as u64);
                push_all(&mut v, &d);
                string_of(&v)
            },
            None => string_lit("hyprctl"),
        }
    }
}

} // verus!
