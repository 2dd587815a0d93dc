//! Character-level text operations, each with the meaning of the std method of the
//! same name stated as a spec function over `Seq<char>`.

use vstd::prelude::*;

verus! {

// ---------------------------------------------------------------------------
// Characters
// ---------------------------------------------------------------------------

/// `char::is_whitespace`: the Unicode `White_Space` property.
pub open spec fn is_ws(c: char) -> bool {
    let u = c as u32;
    ||| u == 0x09 || u == 0x0A || u == 0x0B || u == 0x0C || u == 0x0D || u == 0x20
    ||| u == 0x85 || u == 0xA0 || u == 0x1680
    ||| (0x2000 <= u && u <= 0x200A)
    ||| u == 0x2028 || u == 0x2029 || u == 0x202F || u == 0x205F || u == 0x3000
}

pub fn is_whitespace(c: char) -> (b: bool)
    ensures
        b == is_ws(c),
{
    let u = c as u32;
    u == 0x09 || u == 0x0A || u == 0x0B || u == 0x0C || u == 0x0D || u == 0x20 || u == 0x85
        || u == 0xA0 || u == 0x1680 || (0x2000 <= u && u <= 0x200A) || u == 0x2028 || u
        == 0x2029 || u == 0x202F || u == 0x205F || u == 0x3000
}

/// `char::to_ascii_uppercase`.
pub open spec fn upper_char(c: char) -> char {
    if 'a' <= c && c <= 'z' {
        ((c as u32) - 32) as char
    } else {
        c
    }
}

/// `char::to_ascii_lowercase`.
pub open spec fn lower_char(c: char) -> char {
    if 'A' <= c && c <= 'Z' {
        ((c as u32) + 32) as char
    } else {
        c
    }
}

pub fn to_ascii_upper(c: char) -> (r: char)
    ensures
        r == upper_char(c),
{
    if 'a' <= c && c <= 'z' {
        let u: u32 = (c as u32) - 32;
        proof {
            assert(0x41 <= u <= 0x5A);
        }
        char_from_ascii(u)
    } else {
        c
    }
}

pub fn to_ascii_lower(c: char) -> (r: char)
    ensures
        r == lower_char(c),
{
    if 'A' <= c && c <= 'Z' {
        let u: u32 = (c as u32) + 32;
        char_from_ascii(u)
    } else {
        c
    }
}

/// The character with an ASCII code.
fn char_from_ascii(u: u32) -> (c: char)
    requires
        u < 128,
    ensures
        c == u as char,
        c as u32 == u,
{
    let b: u8 = u as u8;
    b as char
}

/// `str::to_ascii_uppercase`.
pub open spec fn upper(s: Seq<char>) -> Seq<char> {
    s.map_values(|c: char| upper_char(c))
}

pub fn upper_of(s: &Vec<char>) -> (r: Vec<char>)
    ensures
        r@ == upper(s@),
{
    let mut r: Vec<char> = Vec::new();
    for i in 0..s.len()
        invariant
            r@ == upper(s@.take(i as int)),
    {
        let c = to_ascii_upper(s[i]);
        r.push(c);
        proof {
            assert(s@.take(i + 1) =~= s@.take(i as int).push(s@[i as int]));
            assert(upper(s@.take(i + 1)) =~= upper(s@.take(i as int)).push(c));
        }
    }
    proof {
        assert(s@.take(s@.len() as int) =~= s@);
    }
    r
}

/// `str::eq_ignore_ascii_case`.
pub open spec fn eq_ignore_case(a: Seq<char>, b: Seq<char>) -> bool {
    a.len() == b.len() && forall|i: int| 0 <= i < a.len() ==> lower_char(#[trigger] a[i]) == lower_char(b[i])
}

pub fn eq_ignore_ascii_case(a: &Vec<char>, b: &Vec<char>) -> (r: bool)
    ensures
        r == eq_ignore_case(a@, b@),
{
    if a.len() != b.len() {
        return false;
    }
    for i in 0..a.len()
        invariant
            a.len() == b.len(),
            forall|j: int| 0 <= j < i ==> lower_char(#[trigger] a@[j]) == lower_char(b@[j]),
    {
        if to_ascii_lower(a[i]) != to_ascii_lower(b[i]) {
            return false;
        }
    }
    true
}

// ---------------------------------------------------------------------------
// Conversions between strings and character vectors
// ---------------------------------------------------------------------------

/// The characters of a string slice, in order.
pub fn chars_of(s: &str) -> (v: Vec<char>)
    ensures
        v@ == s@,
{
    let mut v: Vec<char> = Vec::new();
    for c in it: s.chars()
        invariant
            it.seq() == s@,
            v@ == it.seq().take(it.index() as int),
    {
        v.push(c);
    }
    v
}

/// `String::push`: appends one character at the end.
#[verifier::external_body]
fn push_char(s: &mut String, c: char)
    ensures
        final(s)@ == old(s)@.push(c),
{
    s.push(c);
}

/// The string made of these characters.
pub fn string_of(v: &Vec<char>) -> (s: String)
    ensures
        s@ == v@,
{
    let mut s = String::new();
    for i in 0..v.len()
        invariant
            s@ == v@.take(i as int),
    {
        push_char(&mut s, v[i]);
        proof {
            assert(v@.take(i + 1) =~= v@.take(i as int).push(v@[i as int]));
        }
    }
    proof {
        assert(v@.take(v@.len() as int) =~= v@);
    }
    s
}

/// The string whose characters are those of a literal.
pub fn string_lit(s: &str) -> (r: String)
    ensures
        r@ == s@,
{
    let v = chars_of(s);
    string_of(&v)
}

/// A copy of `v[a..b]`.
pub fn slice_of(v: &Vec<char>, a: usize, b: usize) -> (r: Vec<char>)
    requires
        a <= b <= v.len(),
    ensures
        r@ == v@.subrange(a as int, b as int),
{
    let mut r: Vec<char> = Vec::new();
    let mut i = a;
    while i < b
        invariant
            a <= i <= b <= v.len(),
            r@ == v@.subrange(a as int, i as int),
        decreases b - i,
    {
        r.push(v[i]);
        proof {
            assert(v@.subrange(a as int, i + 1) =~= v@.subrange(a as int, i as int).push(
                v@[i as int],
            ));
        }
        i = i + 1;
    }
    r
}

/// Appends the characters of `src` to `dst`.
pub fn push_all(dst: &mut Vec<char>, src: &Vec<char>)
    ensures
        final(dst)@ == old(dst)@ + src@,
{
    for i in 0..src.len()
        invariant
            dst@ == old(dst)@ + src@.take(i as int),
    {
        dst.push(src[i]);
        proof {
            assert(src@.take(i + 1) =~= src@.take(i as int).push(src@[i as int]));
            assert(old(dst)@ + src@.take(i + 1) =~= (old(dst)@ + src@.take(i as int)).push(
                src@[i as int],
            ));
        }
    }
    proof {
        assert(src@.take(src@.len() as int) =~= src@);
    }
}

/// Character-wise equality.
pub fn seq_eq(a: &Vec<char>, b: &Vec<char>) -> (r: bool)
    ensures
        r == (a@ == b@),
{
    if a.len() != b.len() {
        return false;
    }
    for i in 0..a.len()
        invariant
            a.len() == b.len(),
            forall|j: int| 0 <= j < i ==> a@[j] == b@[j],
    {
        if a[i] != b[i] {
            return false;
        }
    }
    proof {
        assert(a@ =~= b@);
    }
    true
}

/// Whether a character vector spells a literal.
pub fn is_lit(a: &Vec<char>, lit: &str) -> (r: bool)
    ensures
        r == (a@ == lit@),
{
    let b = chars_of(lit);
    seq_eq(a, &b)
}

// ---------------------------------------------------------------------------
// Trimming
// ---------------------------------------------------------------------------

/// `str::trim_start`.
pub open spec fn trim_start(s: Seq<char>) -> Seq<char>
    decreases s.len(),
{
    if s.len() > 0 && is_ws(s[0]) {
        trim_start(s.drop_first())
    } else {
        s
    }
}

/// `str::trim_end`.
pub open spec fn trim_end(s: Seq<char>) -> Seq<char>
    decreases s.len(),
{
    if s.len() > 0 && is_ws(s.last()) {
        trim_end(s.drop_last())
    } else {
        s
    }
}

/// `str::trim`.
pub open spec fn trim(s: Seq<char>) -> Seq<char> {
    trim_end(trim_start(s))
}

proof fn lemma_trim_start_skip(s: Seq<char>, i: int)
    requires
        0 <= i < s.len(),
        is_ws(s[i]),
    ensures
        trim_start(s.skip(i)) == trim_start(s.skip(i + 1)),
{
    assert(s.skip(i).drop_first() =~= s.skip(i + 1));
}

proof fn lemma_trim_end_take(s: Seq<char>, j: int)
    requires
        0 < j <= s.len(),
        is_ws(s[j - 1]),
    ensures
        trim_end(s.take(j)) == trim_end(s.take(j - 1)),
{
    assert(s.take(j).drop_last() =~= s.take(j - 1));
}

/// Index of the first character that is not white space (or the length).
fn start_index(v: &Vec<char>) -> (i: usize)
    ensures
        i <= v.len(),
        trim_start(v@) == v@.skip(i as int),
{
    let mut i: usize = 0;
    proof {
        assert(v@.skip(0) =~= v@);
    }
    while i < v.len() && is_whitespace(v[i])
        invariant
            i <= v.len(),
            trim_start(v@) == trim_start(v@.skip(i as int)),
        decreases v.len() - i,
    {
        proof {
            lemma_trim_start_skip(v@, i as int);
        }
        i = i + 1;
    }
    proof {
        if i < v.len() {
            assert(v@.skip(i as int)[0] == v@[i as int]);
        }
    }
    i
}

/// One past the index of the last character that is not white space (or 0).
fn end_index(v: &Vec<char>) -> (j: usize)
    ensures
        j <= v.len(),
        trim_end(v@) == v@.take(j as int),
{
    let mut j: usize = v.len();
    proof {
        assert(v@.take(j as int) =~= v@);
    }
    while j > 0 && is_whitespace(v[j - 1])
        invariant
            j <= v.len(),
            trim_end(v@) == trim_end(v@.take(j as int)),
        decreases j,
    {
        proof {
            lemma_trim_end_take(v@, j as int);
        }
        j = j - 1;
    }
    j
}

pub fn trim_start_of(v: &Vec<char>) -> (r: Vec<char>)
    ensures
        r@ == trim_start(v@),
{
    let i = start_index(v);
    let r = slice_of(v, i, v.len());
    proof {
        assert(v@.skip(i as int) =~= v@.subrange(i as int, v@.len() as int));
    }
    r
}

pub fn trim_end_of(v: &Vec<char>) -> (r: Vec<char>)
    ensures
        r@ == trim_end(v@),
{
    let j = end_index(v);
    let r = slice_of(v, 0, j);
    proof {
        assert(v@.take(j as int) =~= v@.subrange(0, j as int));
    }
    r
}

pub fn trim_of(v: &Vec<char>) -> (r: Vec<char>)
    ensures
        r@ == trim(v@),
{
    let a = trim_start_of(v);
    trim_end_of(&a)
}

// ---------------------------------------------------------------------------
// Prefixes and searching
// ---------------------------------------------------------------------------

/// `str::starts_with`.
pub open spec fn starts_with(s: Seq<char>, p: Seq<char>) -> bool {
    p.len() <= s.len() && s.take(p.len() as int) == p
}

pub fn starts_with_of(s: &Vec<char>, p: &Vec<char>) -> (r: bool)
    ensures
        r == starts_with(s@, p@),
{
    if p.len() > s.len() {
        return false;
    }
    for i in 0..p.len()
        invariant
            p.len() <= s.len(),
            forall|j: int| 0 <= j < i ==> s@[j] == p@[j],
    {
        if s[i] != p[i] {
            proof {
                assert(s@.take(p@.len() as int)[i as int] != p@[i as int]);
            }
            return false;
        }
    }
    proof {
        assert(s@.take(p@.len() as int) =~= p@);
    }
    true
}

pub fn starts_with_lit(s: &Vec<char>, lit: &str) -> (r: bool)
    ensures
        r == starts_with(s@, lit@),
{
    let p = chars_of(lit);
    starts_with_of(s, &p)
}

/// `str::strip_prefix`.
pub open spec fn strip_prefix(s: Seq<char>, p: Seq<char>) -> Option<Seq<char>> {
    if starts_with(s, p) {
        Some(s.skip(p.len() as int))
    } else {
        None
    }
}

pub fn strip_prefix_lit(s: &Vec<char>, lit: &str) -> (r: Option<Vec<char>>)
    ensures
        r matches Some(v) ==> strip_prefix(s@, lit@) == Some(v@),
        r is None ==> strip_prefix(s@, lit@) is None,
{
    let p = chars_of(lit);
    if starts_with_of(s, &p) {
        let rest = slice_of(s, p.len(), s.len());
        proof {
            assert(s@.skip(p@.len() as int) =~= s@.subrange(p@.len() as int, s@.len() as int));
        }
        Some(rest)
    } else {
        None
    }
}

/// Index of the first occurrence of `c`, if any.
pub open spec fn find_char(s: Seq<char>, c: char) -> Option<int>
    decreases s.len(),
{
    if s.len() == 0 {
        None
    } else if s[0] == c {
        Some(0)
    } else {
        match find_char(s.drop_first(), c) {
            Some(i) => Some(i + 1),
            None => None,
        }
    }
}

pub proof fn lemma_find_char(s: Seq<char>, c: char)
    ensures
        find_char(s, c) matches Some(i) ==> 0 <= i < s.len() && s[i] == c && forall|j: int|
            0 <= j < i ==> s[j] != c,
        find_char(s, c) is None ==> forall|j: int| 0 <= j < s.len() ==> s[j] != c,
    decreases s.len(),
{
    if s.len() > 0 {
        lemma_find_char(s.drop_first(), c);
        if s[0] != c {
            assert forall|j: int| 1 <= j < s.len() implies s[j] == s.drop_first()[j - 1] by {}
        }
    }
}

pub proof fn lemma_find_char_unique(s: Seq<char>, c: char, i: int)
    requires
        0 <= i < s.len(),
        s[i] == c,
        forall|j: int| 0 <= j < i ==> s[j] != c,
    ensures
        find_char(s, c) == Some(i),
{
    lemma_find_char(s, c);
    match find_char(s, c) {
        Some(k) => {
            if k < i {
                assert(s[k] != c);
            }
            if k > i {
                assert(s[i] != c);
            }
        },
        None => {
            assert(s[i] != c);
        },
    }
}

pub fn find_char_of(s: &Vec<char>, c: char) -> (r: Option<usize>)
    ensures
        r matches Some(i) ==> find_char(s@, c) == Some(i as int),
        r is None ==> find_char(s@, c) is None,
{
    for i in 0..s.len()
        invariant
            forall|j: int| 0 <= j < i ==> s@[j] != c,
    {
        if s[i] == c {
            proof {
                lemma_find_char_unique(s@, c, i as int);
            }
            return Some(i);
        }
    }
    proof {
        lemma_find_char(s@, c);
        if find_char(s@, c) is Some {
            let k = find_char(s@, c)->0;
            assert(s@[k] != c);
        }
    }
    None
}

/// `str::contains(char)`.
pub open spec fn has_char(s: Seq<char>, c: char) -> bool {
    exists|i: int| 0 <= i < s.len() && s[i] == c
}

pub fn has_char_of(s: &Vec<char>, c: char) -> (r: bool)
    ensures
        r == has_char(s@, c),
{
    let f = find_char_of(s, c);
    proof {
        lemma_find_char(s@, c);
    }
    f.is_some()
}

/// `str::split_once(char)`.
pub open spec fn split_once(s: Seq<char>, c: char) -> Option<(Seq<char>, Seq<char>)> {
    match find_char(s, c) {
        Some(i) => Some((s.take(i), s.skip(i + 1))),
        None => None,
    }
}

pub fn split_once_of(s: &Vec<char>, c: char) -> (r: Option<(Vec<char>, Vec<char>)>)
    ensures
        r matches Some(p) ==> split_once(s@, c) == Some((p.0@, p.1@)),
        r is None ==> split_once(s@, c) is None,
{
    match find_char_of(s, c) {
        Some(i) => {
            proof {
                lemma_find_char(s@, c);
                assert(find_char(s@, c) == Some(i as int));
                assert(i < s@.len());
            }
            let n = s.len();
            let a = slice_of(s, 0, i);
            let b = slice_of(s, i + 1, n);
            proof {
                assert(s@.take(i as int) =~= s@.subrange(0, i as int));
                assert(s@.skip(i + 1) =~= s@.subrange(i + 1, s@.len() as int));
            }
            Some((a, b))
        },
        None => None,
    }
}

/// `str::contains(&str)`: `p` occurs somewhere in `s`.
pub open spec fn contains_at(s: Seq<char>, p: Seq<char>, i: int) -> bool {
    0 <= i && i + p.len() <= s.len() && s.subrange(i, i + p.len()) == p
}

pub open spec fn contains(s: Seq<char>, p: Seq<char>) -> bool {
    exists|i: int| contains_at(s, p, i)
}

fn matches_at(s: &Vec<char>, p: &Vec<char>, i: usize) -> (r: bool)
    requires
        i + p.len() <= s.len(),
    ensures
        r == contains_at(s@, p@, i as int),
{
    for k in 0..p.len()
        invariant
            i + p.len() <= s.len(),
            forall|j: int| 0 <= j < k ==> s@[i + j] == p@[j],
    {
        if s[i + k] != p[k] {
            proof {
                assert(s@.subrange(i as int, i + p@.len())[k as int] != p@[k as int]);
            }
            return false;
        }
    }
    proof {
        assert(s@.subrange(i as int, i + p@.len()) =~= p@);
    }
    true
}

pub fn contains_of(s: &Vec<char>, p: &Vec<char>) -> (r: bool)
    ensures
        r == contains(s@, p@),
{
    if p.len() > s.len() {
        return false;
    }
    let last = s.len() - p.len();
    for i in 0..last
        invariant
            last + p.len() == s.len(),
            forall|j: int| 0 <= j < i ==> !contains_at(s@, p@, j),
    {
        if matches_at(s, p, i) {
            return true;
        }
    }
    if matches_at(s, p, last) {
        return true;
    }
    proof {
        assert forall|j: int| !contains_at(s@, p@, j) by {
            if 0 <= j && j + p@.len() <= s@.len() {
                assert(j <= last);
            }
        }
    }
    false
}

// ---------------------------------------------------------------------------
// Splitting
// ---------------------------------------------------------------------------

/// Separator of tokens: white space, and `+` too when `plus` holds.
pub open spec fn is_sep(c: char, plus: bool) -> bool {
    is_ws(c) || (plus && c == '+')
}

/// Tokens of `s` (maximal runs of non-separators), `cur` being the run read so far.
pub open spec fn tokens_from(s: Seq<char>, plus: bool, cur: Seq<char>) -> Seq<Seq<char>>
    decreases s.len(),
{
    if s.len() == 0 {
        if cur.len() > 0 {
            seq![cur]
        } else {
            seq![]
        }
    } else if is_sep(s[0], plus) {
        (if cur.len() > 0 {
            seq![cur]
        } else {
            seq![]
        }) + tokens_from(s.drop_first(), plus, seq![])
    } else {
        tokens_from(s.drop_first(), plus, cur.push(s[0]))
    }
}

/// `str::split_whitespace` (`plus == false`), or the split on white space and `+`
/// with empty pieces dropped (`plus == true`).
pub open spec fn tokens(s: Seq<char>, plus: bool) -> Seq<Seq<char>> {
    tokens_from(s, plus, seq![])
}

fn is_separator(c: char, plus: bool) -> (b: bool)
    ensures
        b == is_sep(c, plus),
{
    is_whitespace(c) || (plus && c == '+')
}

/// A word without separators joins the run being read.
pub proof fn lemma_tokens_word(w: Seq<char>, rest: Seq<char>, plus: bool, cur: Seq<char>)
    requires
        forall|i: int| 0 <= i < w.len() ==> !is_sep(#[trigger] w[i], plus),
    ensures
        tokens_from(w + rest, plus, cur) == tokens_from(rest, plus, cur + w),
    decreases w.len(),
{
    if w.len() > 0 {
        assert((w + rest).drop_first() =~= w.drop_first() + rest);
        assert((w + rest)[0] == w[0]);
        assert forall|i: int| 0 <= i < w.drop_first().len() implies !is_sep(#[trigger] w.drop_first()[i], plus) by {
            assert(w.drop_first()[i] == w[i + 1]);
        }
        lemma_tokens_word(w.drop_first(), rest, plus, cur.push(w[0]));
        assert(cur.push(w[0]) + w.drop_first() =~= cur + w);
    } else {
        assert(w + rest =~= rest);
        assert(cur + w =~= cur);
    }
}

/// Non-empty words without separators, joined by `+`, split back into the same words.
pub proof fn lemma_tokens_join(parts: Seq<Seq<char>>, rest: Seq<char>)
    requires
        parts.len() > 0,
        forall|k: int| 0 <= k < parts.len() ==> (#[trigger] parts[k]).len() > 0,
        forall|k: int, i: int| 0 <= k < parts.len() && 0 <= i < parts[k].len() ==> !is_sep(#[trigger] parts[k][i], true),
        rest.len() == 0 || is_sep(rest[0], true),
    ensures
        tokens_from(join(parts, "+"@) + rest, true, seq![]) == parts + tokens_from(rest, true, seq![]),
    decreases parts.len(),
{
    reveal_strlit("+");
    let last = parts.last();
    assert forall|i: int| 0 <= i < last.len() implies !is_sep(#[trigger] last[i], true) by {
        assert(last[i] == parts[parts.len() - 1][i]);
    }
    let tail = tokens_from(rest, true, seq![]);
    // reading the last word, then what follows it
    lemma_tokens_word(last, rest, true, seq![]);
    assert(Seq::<char>::empty() + last =~= last);
    let after_last = tokens_from(last + rest, true, seq![]);
    if rest.len() == 0 {
        assert(after_last == seq![last]);
        assert(tail == Seq::<Seq<char>>::empty());
    } else {
        assert(rest.drop_first() == rest.drop_first());
        assert(after_last == seq![last] + tokens_from(rest.drop_first(), true, seq![]));
        assert(tail == Seq::<Seq<char>>::empty() + tokens_from(rest.drop_first(), true, seq![]));
        assert(Seq::<Seq<char>>::empty() + tokens_from(rest.drop_first(), true, seq![]) =~= tokens_from(rest.drop_first(), true, seq![]));
    }
    assert(after_last =~= seq![last] + tail);
    if parts.len() == 1 {
        assert(join(parts, "+"@) == last);
        assert(parts =~= seq![last]);
    } else {
        let init = parts.drop_last();
        let rest2 = "+"@ + last + rest;
        assert(join(parts, "+"@) + rest =~= join(init, "+"@) + rest2);
        assert(rest2[0] == '+');
        lemma_tokens_join(init, rest2);
        assert(rest2.drop_first() =~= last + rest);
        assert(tokens_from(rest2, true, seq![]) == Seq::<Seq<char>>::empty() + after_last);
        assert(Seq::<Seq<char>>::empty() + after_last =~= after_last);
        assert(init + (seq![last] + tail) =~= parts + tail);
    }
}

pub fn tokens_of(s: &Vec<char>, plus: bool) -> (r: Vec<Vec<char>>)
    ensures
        r@.map_values(|t: Vec<char>| t@) == tokens(s@, plus),
{
    let mut out: Vec<Vec<char>> = Vec::new();
    let mut cur: Vec<char> = Vec::new();
    proof {
        assert(s@.skip(0) =~= s@);
        assert(out@.map_values(|t: Vec<char>| t@) =~= Seq::<Seq<char>>::empty());
        assert(Seq::<Seq<char>>::empty() + tokens_from(s@, plus, seq![]) =~= tokens_from(s@, plus, seq![]));
    }
    for i in 0..s.len()
        invariant
            tokens(s@, plus) == out@.map_values(|t: Vec<char>| t@) + tokens_from(
                s@.skip(i as int),
                plus,
                cur@,
            ),
    {
        let ghost rest = s@.skip(i as int);
        proof {
            assert(rest[0] == s@[i as int]);
            assert(rest.drop_first() =~= s@.skip(i + 1));
        }
        let c = s[i];
        if is_separator(c, plus) {
            if cur.len() > 0 {
                let ghost before = out@.map_values(|t: Vec<char>| t@);
                out.push(cur);
                proof {
                    assert(out@.map_values(|t: Vec<char>| t@) =~= before + seq![cur@]);
                }
            }
            cur = Vec::new();
        } else {
            cur.push(c);
        }
        proof {
            assert(tokens(s@, plus) == out@.map_values(|t: Vec<char>| t@) + tokens_from(
                s@.skip(i + 1),
                plus,
                cur@,
            )) by {
                assert(forall|a: Seq<Seq<char>>, b: Seq<Seq<char>>, c: Seq<Seq<char>>| #![auto] (a + b) + c =~= a + (b + c));
            }
        }
    }
    proof {
        assert(s@.skip(s@.len() as int) =~= Seq::<char>::empty());
    }
    if cur.len() > 0 {
        let ghost before = out@.map_values(|t: Vec<char>| t@);
        out.push(cur);
        proof {
            assert(out@.map_values(|t: Vec<char>| t@) =~= before + seq![cur@]);
        }
    } else {
        proof {
            assert(out@.map_values(|t: Vec<char>| t@) + Seq::<Seq<char>>::empty() =~= out@.map_values(|t: Vec<char>| t@));
        }
    }
    out
}

/// Removes one `\r` at the end, if there is one.
pub open spec fn strip_cr(s: Seq<char>) -> Seq<char> {
    if s.len() > 0 && s.last() == '\r' {
        s.drop_last()
    } else {
        s
    }
}

/// `str::lines`, `cur` being the current line read so far.
pub open spec fn lines_from(s: Seq<char>, cur: Seq<char>) -> Seq<Seq<char>>
    decreases s.len(),
{
    if s.len() == 0 {
        if cur.len() > 0 {
            seq![cur]
        } else {
            seq![]
        }
    } else if s[0] == '\n' {
        seq![strip_cr(cur)] + lines_from(s.drop_first(), seq![])
    } else {
        lines_from(s.drop_first(), cur.push(s[0]))
    }
}

/// `str::lines`: split at `\n` or `\r\n`; the last line ending is optional.
pub open spec fn lines(s: Seq<char>) -> Seq<Seq<char>> {
    lines_from(s, seq![])
}

fn strip_cr_of(v: Vec<char>) -> (r: Vec<char>)
    ensures
        r@ == strip_cr(v@),
{
    let mut v = v;
    if v.len() > 0 && v[v.len() - 1] == '\r' {
        v.pop();
    }
    v
}

pub fn lines_of(s: &Vec<char>) -> (r: Vec<Vec<char>>)
    ensures
        r@.map_values(|t: Vec<char>| t@) == lines(s@),
{
    let mut out: Vec<Vec<char>> = Vec::new();
    let mut cur: Vec<char> = Vec::new();
    proof {
        assert(s@.skip(0) =~= s@);
        assert(out@.map_values(|t: Vec<char>| t@) =~= Seq::<Seq<char>>::empty());
        assert(Seq::<Seq<char>>::empty() + lines_from(s@, seq![]) =~= lines_from(s@, seq![]));
    }
    for i in 0..s.len()
        invariant
            lines(s@) == out@.map_values(|t: Vec<char>| t@) + lines_from(s@.skip(i as int), cur@),
    {
        let ghost rest = s@.skip(i as int);
        proof {
            assert(rest[0] == s@[i as int]);
            assert(rest.drop_first() =~= s@.skip(i + 1));
        }
        let c = s[i];
        if c == '\n' {
            let ghost before = out@.map_values(|t: Vec<char>| t@);
            let line = strip_cr_of(cur);
            out.push(line);
            proof {
                assert(out@.map_values(|t: Vec<char>| t@) =~= before + seq![line@]);
            }
            cur = Vec::new();
        } else {
            cur.push(c);
        }
        proof {
            assert(forall|a: Seq<Seq<char>>, b: Seq<Seq<char>>, c: Seq<Seq<char>>| #![auto] (a + b) + c =~= a + (b + c));
        }
    }
    proof {
        assert(s@.skip(s@.len() as int) =~= Seq::<char>::empty());
    }
    if cur.len() > 0 {
        let ghost before = out@.map_values(|t: Vec<char>| t@);
        out.push(cur);
        proof {
            assert(out@.map_values(|t: Vec<char>| t@) =~= before + seq![cur@]);
        }
    } else {
        proof {
            assert(out@.map_values(|t: Vec<char>| t@) + Seq::<Seq<char>>::empty() =~= out@.map_values(|t: Vec<char>| t@));
        }
    }
    out
}

/// `str::splitn(n, c)`: at most `n` pieces, the last one holding the rest.
pub open spec fn splitn(s: Seq<char>, n: nat, c: char) -> Seq<Seq<char>>
    decreases s.len(),
{
    if n <= 1 {
        seq![s]
    } else {
        match find_char(s, c) {
            Some(i) => if 0 <= i < s.len() {
                seq![s.take(i)] + splitn(s.skip(i + 1), (n - 1) as nat, c)
            } else {
                seq![s]
            },
            None => seq![s],
        }
    }
}

pub fn splitn_of(s: &Vec<char>, n: usize, c: char) -> (r: Vec<Vec<char>>)
    requires
        n >= 1,
    ensures
        r@.map_values(|t: Vec<char>| t@) == splitn(s@, n as nat, c),
{
    let mut out: Vec<Vec<char>> = Vec::new();
    let mut rest: Vec<char> = slice_of(s, 0, s.len());
    let mut left: usize = n;
    proof {
        assert(s@.subrange(0, s@.len() as int) =~= s@);
    }
    while left > 1
        invariant
            left >= 1,
            splitn(s@, n as nat, c) == out@.map_values(|t: Vec<char>| t@) + splitn(
                rest@,
                left as nat,
                c,
            ),
        decreases rest@.len(),
    {
        match find_char_of(&rest, c) {
            Some(i) => {
                proof {
                    lemma_find_char(rest@, c);
                }
                let len = rest.len();
                let head = slice_of(&rest, 0, i);
                let tail = slice_of(&rest, i + 1, len);
                proof {
                    assert(rest@.take(i as int) =~= head@);
                    assert(rest@.skip(i + 1) =~= tail@);
                }
                let ghost before = out@.map_values(|t: Vec<char>| t@);
                out.push(head);
                proof {
                    assert(out@.map_values(|t: Vec<char>| t@) =~= before + seq![head@]);
                    assert(forall|a: Seq<Seq<char>>, b: Seq<Seq<char>>, c: Seq<Seq<char>>| #![auto] (a + b) + c =~= a + (b + c));
                }
                rest = tail;
                left = left - 1;
            },
            None => {
                let ghost before = out@.map_values(|t: Vec<char>| t@);
                out.push(rest);
                proof {
                    assert(out@.map_values(|t: Vec<char>| t@) =~= before + seq![rest@]);
                }
                return out;
            },
        }
    }
    let ghost before = out@.map_values(|t: Vec<char>| t@);
    out.push(rest);
    proof {
        assert(out@.map_values(|t: Vec<char>| t@) =~= before + seq![rest@]);
    }
    out
}

// ---------------------------------------------------------------------------
// Comments, replacement, joining
// ---------------------------------------------------------------------------

/// The text before the first `#` that is not doubled, with each `##` read as `#`.
pub open spec fn uncomment(s: Seq<char>) -> Seq<char>
    decreases s.len(),
{
    if s.len() == 0 {
        seq![]
    } else if s[0] == '#' {
        if s.len() > 1 && s[1] == '#' {
            seq!['#'] + uncomment(s.skip(2))
        } else {
            seq![]
        }
    } else {
        seq![s[0]] + uncomment(s.drop_first())
    }
}

pub fn uncomment_of(s: &Vec<char>) -> (r: Vec<char>)
    ensures
        r@ == uncomment(s@),
{
    let mut out: Vec<char> = Vec::new();
    let mut i: usize = 0;
    proof {
        assert(s@.skip(0) =~= s@);
    }
    while i < s.len()
        invariant
            i <= s.len(),
            uncomment(s@) == out@ + uncomment(s@.skip(i as int)),
        decreases s.len() - i,
    {
        let ghost rest = s@.skip(i as int);
        if s[i] == '#' {
            if i + 1 < s.len() && s[i + 1] == '#' {
                out.push('#');
                proof {
                    assert(rest.skip(2) =~= s@.skip(i + 2));
                    assert(rest[1] == s@[i + 1]);
                }
                i = i + 2;
            } else {
                proof {
                    assert(uncomment(rest) =~= Seq::<char>::empty());
                    assert(out@ + Seq::<char>::empty() =~= out@);
                }
                return out;
            }
        } else {
            out.push(s[i]);
            proof {
                assert(rest.drop_first() =~= s@.skip(i + 1));
            }
            i = i + 1;
        }
    }
    proof {
        assert(s@.skip(i as int) =~= Seq::<char>::empty());
        assert(out@ + Seq::<char>::empty() =~= out@);
    }
    out
}

/// `str::replace(p, r)` for a non-empty pattern: every match, left to right, without overlap.
pub open spec fn replace(s: Seq<char>, p: Seq<char>, r: Seq<char>) -> Seq<char>
    decreases s.len(),
{
    if p.len() == 0 || s.len() == 0 {
        s
    } else if contains_at(s, p, 0) {
        r + replace(s.skip(p.len() as int), p, r)
    } else {
        seq![s[0]] + replace(s.drop_first(), p, r)
    }
}

pub fn replace_of(s: &Vec<char>, p: &Vec<char>, r: &Vec<char>) -> (out: Vec<char>)
    requires
        p.len() > 0,
    ensures
        out@ == replace(s@, p@, r@),
{
    let mut out: Vec<char> = Vec::new();
    let mut i: usize = 0;
    proof {
        assert(s@.skip(0) =~= s@);
    }
    while i < s.len()
        invariant
            i <= s.len(),
            p.len() > 0,
            replace(s@, p@, r@) == out@ + replace(s@.skip(i as int), p@, r@),
        decreases s.len() - i,
    {
        let ghost rest = s@.skip(i as int);
        let n = s.len();
        let hit = if p.len() <= n - i {
            let h = matches_at(s, p, i);
            proof {
                if h {
                    assert(rest.subrange(0, p@.len() as int) =~= s@.subrange(i as int, i + p@.len()));
                } else {
                    assert(rest.subrange(0, p@.len() as int) =~= s@.subrange(i as int, i + p@.len()));
                }
            }
            h
        } else {
            false
        };
        if hit {
            push_all(&mut out, r);
            proof {
                assert(rest.skip(p@.len() as int) =~= s@.skip(i + p@.len()));
                assert(forall|a: Seq<char>, b: Seq<char>, c: Seq<char>| #![auto] (a + b) + c =~= a + (b + c));
            }
            i = i + p.len();
        } else {
            out.push(s[i]);
            proof {
                assert(rest.drop_first() =~= s@.skip(i + 1));
                assert(forall|a: Seq<char>, b: Seq<char>, c: Seq<char>| #![auto] (a + b) + c =~= a + (b + c));
            }
            i = i + 1;
        }
    }
    proof {
        assert(s@.skip(i as int) =~= Seq::<char>::empty());
        assert(out@ + Seq::<char>::empty() =~= out@);
    }
    out
}

/// `[..].join(sep)`.
pub open spec fn join(parts: Seq<Seq<char>>, sep: Seq<char>) -> Seq<char>
    decreases parts.len(),
{
    if parts.len() == 0 {
        seq![]
    } else if parts.len() == 1 {
        parts[0]
    } else {
        join(parts.drop_last(), sep) + sep + parts.last()
    }
}

pub fn join_of(parts: &Vec<Vec<char>>, sep: &Vec<char>) -> (r: Vec<char>)
    ensures
        r@ == join(parts@.map_values(|t: Vec<char>| t@), sep@),
{
    let ghost ps = parts@.map_values(|t: Vec<char>| t@);
    let mut r: Vec<char> = Vec::new();
    for i in 0..parts.len()
        invariant
            ps == parts@.map_values(|t: Vec<char>| t@),
            r@ == join(ps.take(i as int), sep@),
    {
        proof {
            assert(ps.take(i + 1).drop_last() =~= ps.take(i as int));
        }
        if i > 0 {
            push_all(&mut r, sep);
        }
        push_all(&mut r, &parts[i]);
        proof {
            if i == 0 {
                assert(Seq::<char>::empty() + parts@[0]@ =~= parts@[0]@);
            }
        }
    }
    proof {
        assert(ps.take(parts@.len() as int) =~= ps);
    }
    r
}

// ---------------------------------------------------------------------------
// Numbers
// ---------------------------------------------------------------------------

pub open spec fn is_digit(c: char) -> bool {
    '0' <= c && c <= '9'
}

pub open spec fn digit_val(c: char) -> nat {
    ((c as u32) - ('0' as u32)) as nat
}

/// The value of a sequence of decimal digits.
pub open spec fn digits_val(s: Seq<char>) -> nat
    decreases s.len(),
{
    if s.len() == 0 {
        0
    } else {
        digits_val(s.drop_last()) * 10 + digit_val(s.last())
    }
}

pub open spec fn all_digits(s: Seq<char>) -> bool {
    forall|i: int| 0 <= i < s.len() ==> is_digit(#[trigger] s[i])
}

/// `str::parse::<u32>`: an optional `+` and at least one digit, the value fitting in `u32`.
pub open spec fn parse_u32(s: Seq<char>) -> Option<u32> {
    let d = if s.len() > 0 && s[0] == '+' {
        s.drop_first()
    } else {
        s
    };
    if d.len() > 0 && all_digits(d) && digits_val(d) <= u32::MAX {
        Some(digits_val(d) as u32)
    } else {
        None
    }
}

proof fn lemma_digits_val_grows(s: Seq<char>, k: int)
    requires
        0 <= k <= s.len(),
        all_digits(s),
    ensures
        digits_val(s.take(k)) <= digits_val(s),
    decreases s.len() - k,
{
    if k < s.len() {
        lemma_digits_val_grows(s, k + 1);
        assert(s.take(k + 1).drop_last() =~= s.take(k));
    } else {
        assert(s.take(k) =~= s);
    }
}

pub fn parse_u32_of(s: &Vec<char>) -> (r: Option<u32>)
    ensures
        r == parse_u32(s@),
{
    let start: usize = if s.len() > 0 && s[0] == '+' {
        1
    } else {
        0
    };
    let ghost d = s@.skip(start as int);
    if start >= s.len() {
        return None;
    }
    proof {
        if start == 1 {
            assert(d =~= s@.drop_first());
        } else {
            assert(d =~= s@);
        }
    }
    let mut acc: u64 = 0;
    let mut i = start;
    proof {
        assert(d.take(0) =~= Seq::<char>::empty());
    }
    while i < s.len()
        invariant
            start <= i <= s.len(),
            d == s@.skip(start as int),
            acc == digits_val(d.take(i - start)),
            acc <= u32::MAX,
            d.len() > 0,
            start as int == (if s@.len() > 0 && s@[0] == '+' { 1int } else { 0int }),
            forall|j: int| 0 <= j < i - start ==> is_digit(#[trigger] d[j]),
        decreases s.len() - i,
    {
        let c = s[i];
        if !('0' <= c && c <= '9') {
            proof {
                assert(d[i - start] == c);
                assert(!all_digits(d));
                if start == 1 {
                    assert(d =~= s@.drop_first());
                } else {
                    assert(d =~= s@);
                }
            }
            return None;
        }
        let dv: u64 = ((c as u32) - ('0' as u32)) as u64;
        proof {
            assert(d.take(i - start + 1).drop_last() =~= d.take(i - start));
            assert(d[i - start] == c);
        }
        acc = acc * 10 + dv;
        i = i + 1;
        if acc > 0xFFFF_FFFF {
            return parse_rest_none(s, i, start, Ghost(d));
        }
    }
    proof {
        assert(d.take(i - start) =~= d);
        if start == 1 {
            assert(d =~= s@.drop_first());
        } else {
            assert(d =~= s@);
        }
    }
    Some(acc as u32)
}

/// Finishes a parse whose value already exceeds `u32::MAX`: the result is `None`
/// whatever the rest holds.
fn parse_rest_none(s: &Vec<char>, i: usize, start: usize, Ghost(d): Ghost<Seq<char>>) -> (r: Option<u32>)
    requires
        start <= i <= s.len(),
        d == s@.skip(start as int),
        d.len() > 0,
        start as int == (if s@.len() > 0 && s@[0] == '+' { 1int } else { 0int }),
        digits_val(d.take(i - start)) > u32::MAX,
        forall|j: int| 0 <= j < i - start ==> is_digit(#[trigger] d[j]),
    ensures
        r == parse_u32(s@),
{
    proof {
        if all_digits(d) {
            lemma_digits_val_grows(d, i - start);
        }
        if start == 1 {
            assert(d =~= s@.drop_first());
        } else {
            assert(d =~= s@);
        }
    }
    None
}

/// Decimal digit for a value below ten.
pub open spec fn digit_char(d: nat) -> char {
    (('0' as u32) + d) as char
}

/// Decimal representation without leading zeros (`Display` for unsigned integers).
pub open spec fn dec(n: nat) -> Seq<char>
    decreases n,
{
    if n < 10 {
        seq![digit_char(n)]
    } else {
        dec(n / 10).push(digit_char(n % 10))
    }
}

/// The decimal representation is a non-empty run of digits with the number's value.
pub proof fn lemma_dec(n: nat)
    ensures
        dec(n).len() > 0,
        all_digits(dec(n)),
        digits_val(dec(n)) == n,
    decreases n,
{
    if n < 10 {
        assert(digit_val(digit_char(n)) == n);
        assert(dec(n).drop_last() =~= Seq::<char>::empty());
        assert(dec(n).last() == digit_char(n));
        assert(digits_val(dec(n)) == digits_val(Seq::<char>::empty()) * 10 + digit_val(digit_char(n)));
    } else {
        lemma_dec(n / 10);
        let d = dec(n);
        assert(d.drop_last() =~= dec(n / 10));
        assert(digit_val(digit_char(n % 10)) == n % 10);
        assert(d.last() == digit_char(n % 10));
        assert((n / 10) * 10 + n % 10 == n) by (nonlinear_arith);
        assert(digits_val(d) == digits_val(dec(n / 10)) * 10 + digit_val(d.last()));
        assert forall|i: int| 0 <= i < d.len() implies is_digit(#[trigger] d[i]) by {
            if i < d.len() - 1 {
                assert(d[i] == dec(n / 10)[i]);
            }
        }
    }
}

/// A text that neither starts nor ends with white space is its own trim.
pub proof fn lemma_trim_plain(s: Seq<char>)
    requires
        s.len() > 0,
        !is_ws(s[0]),
        !is_ws(s.last()),
    ensures
        trim(s) == s,
{
}

/// A decimal representation reads back as its number.
pub proof fn lemma_parse_dec(n: u32)
    ensures
        parse_u32(dec(n as nat)) == Some(n),
        trim(dec(n as nat)) == dec(n as nat),
{
    lemma_dec(n as nat);
    let d = dec(n as nat);
    assert(is_digit(d[0]));
    assert(is_digit(d.last()));
    lemma_trim_plain(d);
}

pub fn dec_of(n: u64) -> (r: Vec<char>)
    ensures
        r@ == dec(n as nat),
    decreases n,
{
    if n < 10 {
        let c = char_from_ascii((48 + n) as u32);
        let mut v: Vec<char> = Vec::new();
        v.push(c);
        v
    } else {
        let mut v = dec_of(n / 10);
        let c = char_from_ascii((48 + n % 10) as u32);
        v.push(c);
        v
    }
}

// ---------------------------------------------------------------------------
// Lower case (Unicode)
// ---------------------------------------------------------------------------

/// What `str::to_lowercase` returns for a string: the Unicode lower-case mapping of
/// each character, context included.
pub uninterp spec fn lowercase(s: Seq<char>) -> Seq<char>;

/// `str::to_lowercase`. Claimed: the result is `lowercase` of the argument; the
/// Unicode tables it applies are not stated.
#[verifier::external_body]
pub(crate) fn to_lowercase_of(s: &Vec<char>) -> (r: Vec<char>)
    ensures
        r@ == lowercase(s@),
{
    let text: String = s.iter().collect();
    text.to_lowercase().chars().collect()
}

// ---------------------------------------------------------------------------
// Order
// ---------------------------------------------------------------------------

/// Order of characters by code point.
pub open spec fn char_lt(x: char, y: char) -> bool {
    (x as int) < (y as int)
}

fn char_lt_of(x: char, y: char) -> (r: bool)
    ensures
        r == char_lt(x, y),
{
    (x as u32) < (y as u32)
}

/// Length in bytes of the UTF-8 encoding of `s`: what `str::len` gives.
pub open spec fn utf8_len(s: Seq<char>) -> nat {
    vstd::utf8::encode_utf8(s).len()
}

/// Number of bytes that the UTF-8 encoding of `c` takes.
fn char_utf8_width(c: char) -> (r: u128)
    ensures
        r == vstd::utf8::encode_scalar(c as u32).len(),
{
    proof {
        vstd::utf8::char_is_scalar(c);
    }
    let u = c as u32;
    if u < 0x80 {
        1
    } else if u < 0x800 {
        2
    } else if u < 0x10000 {
        3
    } else {
        4
    }
}

/// [`utf8_len`], computed.
pub fn utf8_len_of(v: &Vec<char>) -> (r: u128)
    ensures
        r == utf8_len(v@),
{
    let mut total: u128 = 0;
    let mut i: usize = v.len();
    proof {
        assert(v@.skip(v@.len() as int) =~= Seq::<char>::empty());
    }
    while i > 0
        invariant
            i <= v.len(),
            total == vstd::utf8::encode_utf8(v@.skip(i as int)).len(),
            total <= 4 * (v.len() - i),
        decreases i,
    {
        let w = char_utf8_width(v[i - 1]);
        proof {
            let t = v@.skip(i - 1);
            assert(t[0] == v@[i - 1]);
            assert(t.drop_first() =~= v@.skip(i as int));
        }
        total = total + w;
        i = i - 1;
    }
    proof {
        assert(v@.skip(0) =~= v@);
    }
    total
}

/// Lexicographic order by code point: the order of `str` and `String`.
pub open spec fn lex_lt(a: Seq<char>, b: Seq<char>) -> bool
    decreases a.len(),
{
    if a.len() == 0 {
        b.len() > 0
    } else if b.len() == 0 {
        false
    } else if a[0] == b[0] {
        lex_lt(a.drop_first(), b.drop_first())
    } else {
        char_lt(a[0], b[0])
    }
}

pub fn lex_lt_of(a: &Vec<char>, b: &Vec<char>) -> (r: bool)
    ensures
        r == lex_lt(a@, b@),
{
    let mut i: usize = 0;
    proof {
        assert(a@.skip(0) =~= a@);
        assert(b@.skip(0) =~= b@);
    }
    while i < a.len() && i < b.len()
        invariant
            i <= a.len(),
            i <= b.len(),
            lex_lt(a@, b@) == lex_lt(a@.skip(i as int), b@.skip(i as int)),
        decreases a.len() - i,
    {
        proof {
            assert(a@.skip(i as int)[0] == a@[i as int]);
            assert(b@.skip(i as int)[0] == b@[i as int]);
        }
        if a[i] != b[i] {
            return char_lt_of(a[i], b[i]);
        }
        proof {
            assert(a@.skip(i as int).drop_first() =~= a@.skip(i + 1));
            assert(b@.skip(i as int).drop_first() =~= b@.skip(i + 1));
        }
        i = i + 1;
    }
    a.len() - i < b.len() - i
}

pub proof fn lemma_lex_irrefl(a: Seq<char>)
    ensures
        !lex_lt(a, a),
    decreases a.len(),
{
    if a.len() > 0 {
        lemma_lex_irrefl(a.drop_first());
    }
}

pub proof fn lemma_lex_trans(a: Seq<char>, b: Seq<char>, c: Seq<char>)
    requires
        lex_lt(a, b),
        lex_lt(b, c),
    ensures
        lex_lt(a, c),
    decreases a.len(),
{
    if a.len() > 0 && b.len() > 0 && c.len() > 0 {
        if a[0] == b[0] && b[0] == c[0] {
            lemma_lex_trans(a.drop_first(), b.drop_first(), c.drop_first());
        }
    }
}

pub proof fn lemma_lex_total(a: Seq<char>, b: Seq<char>)
    ensures
        a == b || lex_lt(a, b) || lex_lt(b, a),
    decreases a.len(),
{
    if a.len() > 0 && b.len() > 0 && a[0] == b[0] {
        lemma_lex_total(a.drop_first(), b.drop_first());
        if a.drop_first() == b.drop_first() {
            assert(a =~= seq![a[0]] + a.drop_first());
            assert(b =~= seq![b[0]] + b.drop_first());
        }
    } else if a.len() == 0 && b.len() == 0 {
        assert(a =~= b);
    }
}

pub proof fn lemma_lex_asym(a: Seq<char>, b: Seq<char>)
    requires
        lex_lt(a, b),
    ensures
        !lex_lt(b, a),
    decreases a.len(),
{
    if a.len() > 0 && b.len() > 0 && a[0] == b[0] {
        lemma_lex_asym(a.drop_first(), b.drop_first());
    }
}

} // verus!
