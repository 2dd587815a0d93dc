//! Reader of the Hyprland configuration file.
//!
//! Only what affects binds matters: variables `$x = ...`, `source = ...`,
//! `submap = ...`, `bind[flags] = ...` and the `#TAGS: a b c` comments that group
//! shortcuts. [`Parser`] reads one line at a time; a `source` line is handed back to
//! whoever holds a file system, which reads the files and feeds their lines in turn.

use vstd::prelude::*;
use crate::model::{
    clone_strings, flags_of, flags_of_chars, names_mask, names_of, parse_key, parse_key_of,
    strings_of, strings_view, unknown_names, Bind, BindFlags, BindView, Key, ModMask, Origin,
    SourceRef, SourceView,
};
use crate::text::{
    chars_of, dec, seq_eq, string_lit, dec_of, has_char, has_char_of, utf8_len, utf8_len_of, is_lit, join, join_of, lex_lt, lex_lt_of,
    lines, lines_of, push_all, replace, replace_of, slice_of, split_once, split_once_of,
    splitn, splitn_of, starts_with, starts_with_lit, string_of, strip_prefix, strip_prefix_lit,
    tokens, tokens_of, trim, trim_end, trim_end_of, trim_of, uncomment, uncomment_of,
};

verus! {

/// Marker of tags inside comments of the configuration.
pub const TAGS_MARKER: &'static str = "#TAGS:";

/// Deepest nesting of `source` that is followed.
pub const MAX_SOURCE_DEPTH: usize = 16;

// ---------------------------------------------------------------------------
// Result of a parse
// ---------------------------------------------------------------------------

pub struct ParsedConfig {
    pub binds: Vec<Bind>,
    /// Files read, in order, `source`d ones included.
    pub files: Vec<String>,
    pub warnings: Vec<String>,
    /// Variables by name, in the order they were first set; a name occurs once.
    pub variables: Vec<(String, String)>,
}

pub ghost struct ConfigView {
    pub binds: Seq<BindView>,
    pub files: Seq<Seq<char>>,
    pub warnings: Seq<Seq<char>>,
    pub variables: Seq<(Seq<char>, Seq<char>)>,
}

pub open spec fn binds_view(v: Seq<Bind>) -> Seq<BindView> {
    v.map_values(|b: Bind| b@)
}

pub open spec fn vars_view(v: Seq<(String, String)>) -> Seq<(Seq<char>, Seq<char>)> {
    v.map_values(|p: (String, String)| (p.0@, p.1@))
}

impl View for ParsedConfig {
    type V = ConfigView;

    open spec fn view(&self) -> ConfigView {
        ConfigView {
            binds: binds_view(self.binds@),
            files: strings_view(self.files@),
            warnings: strings_view(self.warnings@),
            variables: vars_view(self.variables@),
        }
    }
}

/// Error of reading the configuration file itself.
#[derive(Debug)]
pub enum ConfigError {
    /// The path and the reason given by the system.
    Read(String, String),
}

impl ConfigError {
    /// `cannot read <path>: <reason>`.
    pub open spec fn text(&self) -> Seq<char> {
        match self {
            ConfigError::Read(p, e) => "cannot read "@ + p@ + ": "@ + e@,
        }
    }

    /// The error as the user reads it: `cannot read <path>: <reason>`.
    pub fn message(&self) -> (r: String)
        ensures
            r@ == self.text(),
    {
        match self {
            ConfigError::Read(p, e) => {
                let mut v = chars_of("cannot read ");
                let pv = chars_of(p.as_str());
                let sep = chars_of(": ");
                let ev = chars_of(e.as_str());
                push_all(&mut v, &pv);
                push_all(&mut v, &sep);
                push_all(&mut v, &ev);
                string_of(&v)
            },
        }
    }
}

// ---------------------------------------------------------------------------
// Comments
// ---------------------------------------------------------------------------

/// What is left of a line once its comment is removed: `##` is a literal `#`,
/// as in Hyprland, and trailing white space goes.
pub open spec fn strip_comment_spec(s: Seq<char>) -> Seq<char> {
    trim_end(uncomment(s))
}

/// Removes the trailing comment of a line. `##` is a literal `#`, as in Hyprland.
pub fn strip_comment(s: &str) -> (r: String)
    ensures
        r@ == strip_comment_spec(s@),
{
    let v = chars_of(s);
    let u = uncomment_of(&v);
    let t = trim_end_of(&u);
    string_of(&t)
}

// ---------------------------------------------------------------------------
// Variables
// ---------------------------------------------------------------------------

/// Index of the variable called `name`.
pub open spec fn var_index(vars: Seq<(Seq<char>, Seq<char>)>, name: Seq<char>) -> Option<int>
    decreases vars.len(),
{
    if vars.len() == 0 {
        None
    } else if vars[0].0 == name {
        Some(0)
    } else {
        match var_index(vars.drop_first(), name) {
            Some(i) => Some(i + 1),
            None => None,
        }
    }
}

/// The variables once `name` is set to `value`.
pub open spec fn set_var(vars: Seq<(Seq<char>, Seq<char>)>, name: Seq<char>, value: Seq<char>) -> Seq<
    (Seq<char>, Seq<char>),
> {
    match var_index(vars, name) {
        Some(i) => vars.update(i, (name, value)),
        None => vars.push((name, value)),
    }
}

/// `a` is replaced before `b`: names longer in bytes first, then in the order of
/// strings.
pub open spec fn name_before(a: Seq<char>, b: Seq<char>) -> bool {
    utf8_len(a) > utf8_len(b) || (utf8_len(a) == utf8_len(b) && lex_lt(a, b))
}

/// Index of the variable replaced first.
pub open spec fn first_var(vars: Seq<(Seq<char>, Seq<char>)>) -> int
    decreases vars.len(),
{
    if vars.len() <= 1 {
        0
    } else {
        let b = first_var(vars.drop_last());
        if name_before(vars.last().0, vars[b].0) {
            vars.len() - 1
        } else {
            b
        }
    }
}

/// Every `$name` replaced by its value, names taken longest first.
pub open spec fn expand_with(vars: Seq<(Seq<char>, Seq<char>)>, s: Seq<char>) -> Seq<char>
    decreases vars.len(),
{
    let i = first_var(vars);
    if vars.len() == 0 || !(0 <= i < vars.len()) {
        s
    } else {
        expand_with(vars.remove(i), replace(s, seq!['$'] + vars[i].0, vars[i].1))
    }
}

/// Value of a right-hand side with its `$variables` replaced.
pub open spec fn expand(vars: Seq<(Seq<char>, Seq<char>)>, s: Seq<char>) -> Seq<char> {
    if !has_char(s, '$') || vars.len() == 0 {
        s
    } else {
        expand_with(vars, s)
    }
}

proof fn lemma_first_var_bounds(vars: Seq<(Seq<char>, Seq<char>)>)
    requires
        vars.len() > 0,
    ensures
        0 <= first_var(vars) < vars.len(),
    decreases vars.len(),
{
    if vars.len() > 1 {
        lemma_first_var_bounds(vars.drop_last());
    }
}

/// Index of the variable replaced first, computed.
fn first_var_of(vars: &Vec<(Vec<char>, Vec<char>)>) -> (r: usize)
    requires
        vars.len() > 0,
    ensures
        r == first_var(vars@.map_values(|p: (Vec<char>, Vec<char>)| (p.0@, p.1@))),
        r < vars.len(),
{
    let ghost vs = vars@.map_values(|p: (Vec<char>, Vec<char>)| (p.0@, p.1@));
    let mut best: usize = 0;
    proof {
        assert(vs.take(1).len() == 1);
    }
    for j in 1..vars.len()
        invariant
            vs == vars@.map_values(|p: (Vec<char>, Vec<char>)| (p.0@, p.1@)),
            vars.len() > 0,
            best < j,
            best == first_var(vs.take(j as int)),
    {
        proof {
            assert(vs.take(j + 1).drop_last() =~= vs.take(j as int));
            assert(vs.take(j + 1).last() == vs[j as int]);
            assert(vs.take(j + 1)[best as int] == vs[best as int]);
        }
        let a = &vars[j].0;
        let b = &vars[best].0;
        let la = utf8_len_of(a);
        let lb = utf8_len_of(b);
        let before = la > lb || (la == lb && lex_lt_of(a, b));
        if before {
            best = j;
        }
    }
    proof {
        assert(vs.take(vars@.len() as int) =~= vs);
    }
    best
}

/// Value of a right-hand side with its `$variables` replaced.
fn expand_of(vars: &Vec<(String, String)>, s: &Vec<char>) -> (r: Vec<char>)
    ensures
        r@ == expand(vars_view(vars@), s@),
{
    if !has_char_of(s, '$') || vars.len() == 0 {
        let r = slice_of(s, 0, s.len());
        proof {
            assert(r@ =~= s@);
        }
        return r;
    }
    let mut rest: Vec<(Vec<char>, Vec<char>)> = Vec::new();
    for i in 0..vars.len()
        invariant
            rest@.map_values(|p: (Vec<char>, Vec<char>)| (p.0@, p.1@)) == vars_view(vars@.take(i as int)),
    {
        let n = chars_of(vars[i].0.as_str());
        let v = chars_of(vars[i].1.as_str());
        let ghost before = rest@.map_values(|p: (Vec<char>, Vec<char>)| (p.0@, p.1@));
        rest.push((n, v));
        proof {
            assert(rest@.map_values(|p: (Vec<char>, Vec<char>)| (p.0@, p.1@)) =~= before.push((n@, v@)));
            assert(vars_view(vars@.take(i + 1)) =~= vars_view(vars@.take(i as int)).push((vars@[i as int].0@, vars@[i as int].1@)));
        }
    }
    proof {
        assert(vars@.take(vars@.len() as int) =~= vars@);
    }
    let mut out = slice_of(s, 0, s.len());
    proof {
        assert(out@ =~= s@);
    }
    while rest.len() > 0
        invariant
            expand_with(vars_view(vars@), s@) == expand_with(
                rest@.map_values(|p: (Vec<char>, Vec<char>)| (p.0@, p.1@)),
                out@,
            ),
        decreases rest.len(),
    {
        let ghost rs = rest@.map_values(|p: (Vec<char>, Vec<char>)| (p.0@, p.1@));
        let i = first_var_of(&rest);
        let (name, value) = rest.remove(i);
        let mut pat: Vec<char> = Vec::new();
        pat.push('$');
        push_all(&mut pat, &name);
        proof {
            assert(pat@ =~= seq!['$'] + name@);
            assert(rs[i as int] == (name@, value@));
            assert(rest@.map_values(|p: (Vec<char>, Vec<char>)| (p.0@, p.1@)) =~= rs.remove(i as int));
        }
        out = replace_of(&out, &pat, &value);
    }
    out
}

// ---------------------------------------------------------------------------
// The parser
// ---------------------------------------------------------------------------

/// What a line asks of the reader.
pub enum LineAction {
    /// Nothing more: the line is taken into account.
    Done,
    /// A `source` line: the files it names, once read, are fed in turn. Holds the
    /// value with its variables replaced.
    Source(String),
}

/// State of a parse: what has been read so far, the tags in force and the current
/// submap.
pub struct Parser {
    pub out: ParsedConfig,
    pub tags: Vec<String>,
    pub submap: String,
}

pub ghost struct ParserView {
    pub binds: Seq<BindView>,
    pub files: Seq<Seq<char>>,
    pub warnings: Seq<Seq<char>>,
    pub vars: Seq<(Seq<char>, Seq<char>)>,
    pub tags: Seq<Seq<char>>,
    pub submap: Seq<char>,
}

impl View for Parser {
    type V = ParserView;

    open spec fn view(&self) -> ParserView {
        ParserView {
            binds: binds_view(self.out.binds@),
            files: strings_view(self.out.files@),
            warnings: strings_view(self.out.warnings@),
            vars: vars_view(self.out.variables@),
            tags: strings_view(self.tags@),
            submap: self.submap@,
        }
    }
}

/// Text of a warning about a line.
pub open spec fn warning(path: Seq<char>, line: nat, msg: Seq<char>) -> Seq<char> {
    path + ":"@ + dec(line) + ": "@ + msg
}

impl ParserView {
    /// Nothing read yet.
    pub open spec fn init() -> ParserView {
        ParserView {
            binds: seq![],
            files: seq![],
            warnings: seq![],
            vars: seq![],
            tags: seq![],
            submap: seq![],
        }
    }

    pub open spec fn warn(self, path: Seq<char>, line: nat, msg: Seq<char>) -> ParserView {
        ParserView { warnings: self.warnings.push(warning(path, line, msg)), ..self }
    }

    /// The result of the parse.
    pub open spec fn result(self) -> ConfigView {
        ConfigView {
            binds: self.binds,
            files: self.files,
            warnings: self.warnings,
            variables: self.vars,
        }
    }
}

/// The bind a `bind` line defines, or the warnings that it is incomplete.
/// `letters` are the characters after `bind` in the key, `value` the right-hand side.
pub open spec fn bind_step(
    st: ParserView,
    letters: Seq<char>,
    value: Seq<char>,
    path: Seq<char>,
    line: nat,
    raw: Seq<char>,
) -> ParserView {
    let flags = flags_of(letters).0;
    let unk = flags_of(letters).1;
    let st1 = if unk.len() > 0 {
        st.warn(path, line, "unknown bind flags: "@ + unk)
    } else {
        st
    };
    let n: nat = if flags.description {
        5
    } else {
        4
    };
    let parts = splitn(value, n, ',').map_values(|p: Seq<char>| trim(p));
    if parts.len() < n - 1 {
        st1.warn(path, line, "incomplete bind, missing fields"@)
    } else {
        let desc = if flags.description {
            parts[2]
        } else {
            seq![]
        };
        let disp = if flags.description {
            parts[3]
        } else {
            parts[2]
        };
        let arg = if flags.description {
            if parts.len() > 4 {
                parts[4]
            } else {
                seq![]
            }
        } else {
            if parts.len() > 3 {
                parts[3]
            } else {
                seq![]
            }
        };
        let toks = tokens(parts[0], true);
        let unknown = unknown_names(toks);
        let st2 = if unknown.len() > 0 {
            st1.warn(path, line, "unknown modifiers: "@ + join(unknown, " "@))
        } else {
            st1
        };
        let st3 = if disp.len() == 0 {
            st2.warn(path, line, "bind without dispatcher"@)
        } else {
            st2
        };
        ParserView {
            binds: st3.binds.push(
                BindView {
                    mods: names_mask(toks),
                    key: parse_key(parts[1]),
                    dispatcher: disp,
                    arg: arg,
                    submap: st.submap,
                    flags: flags,
                    description: desc,
                    tags: st.tags,
                    source: Some(SourceView { file: path, line: line, raw: trim_end(raw) }),
                    origin: Origin::Config,
                },
            ),
            ..st3
        }
    }
}

/// What one line of a file does to the parse, and the value of a `source` line.
pub open spec fn line_step(st: ParserView, path: Seq<char>, line: nat, raw: Seq<char>) -> (
    ParserView,
    Option<Seq<char>>,
) {
    let t = trim(raw);
    if strip_prefix(t, "#TAGS:"@) is Some {
        (ParserView { tags: tokens(strip_prefix(t, "#TAGS:"@)->0, false), ..st }, None)
    } else if t.len() == 0 || t[0] == '#' {
        (st, None)
    } else {
        let code = strip_comment_spec(t);
        match split_once(code, '=') {
            None => (st, None),
            Some(kv) => {
                let k = trim(kv.0);
                let v = trim(kv.1);
                if k.len() > 0 && k[0] == '$' {
                    (ParserView { vars: set_var(st.vars, k.drop_first(), expand(st.vars, v)), ..st }, None)
                } else {
                    let value = expand(st.vars, v);
                    if k == "source"@ {
                        (st, Some(value))
                    } else if k == "submap"@ {
                        (
                            ParserView {
                                submap: if value == "reset"@ {
                                    seq![]
                                } else {
                                    value
                                },
                                ..st
                            },
                            None,
                        )
                    } else if strip_prefix(k, "bind"@) is Some {
                        (bind_step(st, strip_prefix(k, "bind"@)->0, value, path, line, raw), None)
                    } else {
                        (st, None)
                    }
                }
            },
        }
    }
}

/// Warning text of a line, built.
fn warning_of(path: &Vec<char>, line: usize, msg: &Vec<char>) -> (r: String)
    ensures
        r@ == warning(path@, line as nat, msg@),
{
    let mut v = slice_of(path, 0, path.len());
    let colon = chars_of(":");
    let d = dec_of(line as u64);
    let sep = chars_of(": ");
    proof {
        assert(v@ =~= path@);
    }
    push_all(&mut v, &colon);
    push_all(&mut v, &d);
    push_all(&mut v, &sep);
    push_all(&mut v, msg);
    string_of(&v)
}

/// `prefix` followed by `rest`.
fn prefixed(prefix: &str, rest: &Vec<char>) -> (r: Vec<char>)
    ensures
        r@ == prefix@ + rest@,
{
    let mut v = chars_of(prefix);
    push_all(&mut v, rest);
    v
}

/// Index of the variable called `name`, computed.
fn var_index_of(vars: &Vec<(String, String)>, name: &Vec<char>) -> (r: Option<usize>)
    ensures
        r matches Some(i) ==> var_index(vars_view(vars@), name@) == Some(i as int) && i < vars.len(),
        r is None ==> var_index(vars_view(vars@), name@) is None,
{
    let ghost vs = vars_view(vars@);
    proof {
        assert(vs.skip(0) =~= vs);
    }
    for i in 0..vars.len()
        invariant
            vs == vars_view(vars@),
            var_index(vs, name@) == match var_index(vs.skip(i as int), name@) {
                Some(k) => Some(k + i),
                None => None::<int>,
            },
    {
        let n = chars_of(vars[i].0.as_str());
        proof {
            assert(vs.skip(i as int)[0] == vs[i as int]);
            assert(vs.skip(i as int).drop_first() =~= vs.skip(i + 1));
        }
        if seq_eq_lit(&n, name) {
            return Some(i);
        }
    }
    proof {
        assert(vs.skip(vars@.len() as int) =~= Seq::<(Seq<char>, Seq<char>)>::empty());
    }
    None
}

fn seq_eq_lit(a: &Vec<char>, b: &Vec<char>) -> (r: bool)
    ensures
        r == (a@ == b@),
{
    crate::text::seq_eq(a, b)
}

impl Parser {
    /// Nothing read yet.
    pub fn new() -> (p: Parser)
        ensures
            p@ == ParserView::init(),
    {
        let p = Parser {
            out: ParsedConfig {
                binds: Vec::new(),
                files: Vec::new(),
                warnings: Vec::new(),
                variables: Vec::new(),
            },
            tags: Vec::new(),
            submap: String::new(),
        };
        proof {
            assert(p@.binds =~= Seq::<BindView>::empty());
            assert(p@.files =~= Seq::<Seq<char>>::empty());
            assert(p@.warnings =~= Seq::<Seq<char>>::empty());
            assert(p@.vars =~= Seq::<(Seq<char>, Seq<char>)>::empty());
            assert(p@.tags =~= Seq::<Seq<char>>::empty());
        }
        p
    }

    /// Adds a warning about a line of a file.
    pub fn warn(&mut self, path: &str, line: usize, msg: &str)
        ensures
            final(self)@ == old(self)@.warn(path@, line as nat, msg@),
    {
        let p = chars_of(path);
        let m = chars_of(msg);
        self.warn_chars(&p, line, &m);
    }

    fn warn_chars(&mut self, path: &Vec<char>, line: usize, msg: &Vec<char>)
        ensures
            final(self)@ == old(self)@.warn(path@, line as nat, msg@),
    {
        let w = warning_of(path, line, msg);
        let ghost before = strings_view(self.out.warnings@);
        self.out.warnings.push(w);
        proof {
            assert(strings_view(self.out.warnings@) =~= before.push(w@));
        }
    }

    /// A file starts being read.
    pub fn begin_file(&mut self, path: &str)
        ensures
            final(self)@ == (ParserView { files: old(self)@.files.push(path@), ..old(self)@ }),
    {
        let ghost before = strings_view(self.out.files@);
        let p = string_lit(path);
        self.out.files.push(p);
        proof {
            assert(strings_view(self.out.files@) =~= before.push(path@));
        }
    }

    /// The tags in force when a `source`d file starts: none. Returns those to put
    /// back once it is read.
    pub fn enter_source(&mut self) -> (saved: Vec<String>)
        ensures
            strings_view(saved@) == old(self)@.tags,
            final(self)@ == (ParserView { tags: seq![], ..old(self)@ }),
    {
        let mut saved: Vec<String> = Vec::new();
        std::mem::swap(&mut saved, &mut self.tags);
        proof {
            assert(strings_view(self.tags@) =~= Seq::<Seq<char>>::empty());
        }
        saved
    }

    /// Puts back the tags in force before a `source`d file was read.
    pub fn leave_source(&mut self, saved: Vec<String>)
        ensures
            final(self)@ == (ParserView { tags: strings_view(saved@), ..old(self)@ }),
    {
        self.tags = saved;
    }

    /// The parse so far.
    pub fn finish(self) -> (r: ParsedConfig)
        ensures
            r@ == self@.result(),
    {
        self.out
    }

    fn set_variable(&mut self, name: &Vec<char>, value: &Vec<char>)
        ensures
            final(self)@ == (ParserView { vars: set_var(old(self)@.vars, name@, value@), ..old(self)@ }),
    {
        let ghost before = vars_view(self.out.variables@);
        let n = string_of(name);
        let v = string_of(value);
        match var_index_of(&self.out.variables, name) {
            Some(i) => {
                self.out.variables.set(i, (n, v));
                proof {
                    assert(vars_view(self.out.variables@) =~= before.update(i as int, (name@, value@)));
                }
            },
            None => {
                self.out.variables.push((n, v));
                proof {
                    assert(vars_view(self.out.variables@) =~= before.push((name@, value@)));
                }
            },
        }
    }

    /// Reads one line of the file `path`; `line` is its number, from 1.
    pub fn feed_line(&mut self, path: &str, line: usize, raw: &str) -> (act: LineAction)
        ensures
            final(self)@ == line_step(old(self)@, path@, line as nat, raw@).0,
            match act {
                LineAction::Done => line_step(old(self)@, path@, line as nat, raw@).1 is None,
                LineAction::Source(v) => line_step(old(self)@, path@, line as nat, raw@).1 == Some(v@),
            },
    {
        let p = chars_of(path);
        let r = chars_of(raw);
        self.feed_chars(&p, line, &r)
    }

    pub(crate) fn feed_chars(&mut self, path: &Vec<char>, line: usize, raw: &Vec<char>) -> (act: LineAction)
        ensures
            final(self)@ == line_step(old(self)@, path@, line as nat, raw@).0,
            match act {
                LineAction::Done => line_step(old(self)@, path@, line as nat, raw@).1 is None,
                LineAction::Source(v) => line_step(old(self)@, path@, line as nat, raw@).1 == Some(v@),
            },
    {
        let t = trim_of(raw);
        match strip_prefix_lit(&t, "#TAGS:") {
            Some(rest) => {
                let toks = tokens_of(&rest, false);
                self.tags = strings_of(&toks);
                return LineAction::Done;
            },
            None => {},
        }
        if t.len() == 0 || t[0] == '#' {
            return LineAction::Done;
        }
        let u = uncomment_of(&t);
        let code = trim_end_of(&u);
        let (k0, v0) = match split_once_of(&code, '=') {
            Some(kv) => kv,
            None => {
                return LineAction::Done;
            },
        };
        let k = trim_of(&k0);
        let v = trim_of(&v0);
        if k.len() > 0 && k[0] == '$' {
            let name = slice_of(&k, 1, k.len());
            let value = expand_of(&self.out.variables, &v);
            proof {
                assert(name@ =~= k@.drop_first());
            }
            self.set_variable(&name, &value);
            return LineAction::Done;
        }
        let value = expand_of(&self.out.variables, &v);
        if is_lit(&k, "source") {
            return LineAction::Source(string_of(&value));
        }
        if is_lit(&k, "submap") {
            if is_lit(&value, "reset") {
                self.submap = String::new();
            } else {
                self.submap = string_of(&value);
            }
            return LineAction::Done;
        }
        match strip_prefix_lit(&k, "bind") {
            Some(letters) => {
                self.handle_bind(&letters, &value, path, line, raw);
            },
            None => {},
        }
        LineAction::Done
    }

    fn handle_bind(
        &mut self,
        letters: &Vec<char>,
        value: &Vec<char>,
        path: &Vec<char>,
        line: usize,
        raw: &Vec<char>,
    )
        ensures
            final(self)@ == bind_step(old(self)@, letters@, value@, path@, line as nat, raw@),
    {
        let ghost st = self@;
        let (flags, unk) = flags_of_chars(letters);
        if unk.len() > 0 {
            let msg = prefixed("unknown bind flags: ", &unk);
            self.warn_chars(path, line, &msg);
        }
        let ghost st1 = self@;
        proof {
            assert(st1 == (if unk@.len() > 0 { st.warn(path@, line as nat, "unknown bind flags: "@ + unk@) } else { st }));
        }
        let n: usize = if flags.description {
            5
        } else {
            4
        };
        let pieces = splitn_of(value, n, ',');
        let parts = trim_all(&pieces);
        if parts.len() < n - 1 {
            let msg = chars_of("incomplete bind, missing fields");
            self.warn_chars(path, line, &msg);
            return;
        }
        let empty: Vec<char> = Vec::new();
        let desc = if flags.description {
            slice_of(&parts[2], 0, parts[2].len())
        } else {
            slice_of(&empty, 0, 0)
        };
        let disp = if flags.description {
            slice_of(&parts[3], 0, parts[3].len())
        } else {
            slice_of(&parts[2], 0, parts[2].len())
        };
        let arg = if flags.description {
            if parts.len() > 4 {
                slice_of(&parts[4], 0, parts[4].len())
            } else {
                slice_of(&empty, 0, 0)
            }
        } else {
            if parts.len() > 3 {
                slice_of(&parts[3], 0, parts[3].len())
            } else {
                slice_of(&empty, 0, 0)
            }
        };
        let ghost ps = splitn(value@, n as nat, ',').map_values(|p: Seq<char>| trim(p));
        proof {
            assert(ps == parts@.map_values(|t: Vec<char>| t@));
            assert(desc@ == (if flags.description { ps[2] } else { seq![] }));
            assert(disp@ == (if flags.description { ps[3] } else { ps[2] }));
            assert(arg@ == (if flags.description { if ps.len() > 4 { ps[4] } else { seq![] } } else { if ps.len() > 3 { ps[3] } else { seq![] } }));
        }
        let toks = tokens_of(&parts[0], true);
        let (mask, unknown) = names_of(&toks);
        if unknown.len() > 0 {
            let sp = chars_of(" ");
            let j = join_of(&unknown, &sp);
            let msg = prefixed("unknown modifiers: ", &j);
            self.warn_chars(path, line, &msg);
        }
        let ghost st2 = self@;
        if disp.len() == 0 {
            let msg = chars_of("bind without dispatcher");
            self.warn_chars(path, line, &msg);
        }
        let ghost st3 = self@;
        let raw_end = trim_end_of(raw);
        let b = Bind {
            mods: ModMask(mask),
            key: parse_key_of(&parts[1]),
            dispatcher: string_of(&disp),
            arg: string_of(&arg),
            submap: self.submap.clone(),
            flags: flags,
            description: string_of(&desc),
            tags: clone_strings(&self.tags),
            source: Some(SourceRef { file: string_of(path), line: line, raw: string_of(&raw_end) }),
            origin: Origin::Config,
        };
        let ghost before = binds_view(self.out.binds@);
        self.out.binds.push(b);
        proof {
            assert(binds_view(self.out.binds@) =~= before.push(b@));
            assert(b@.tags == st.tags);
            assert(b@.submap == st.submap);
            assert(b@.key == parse_key(ps[1]));
            assert(b@.mods == names_mask(tokens(ps[0], true)));
        }
    }
}

/// Each piece trimmed.
fn trim_all(v: &Vec<Vec<char>>) -> (r: Vec<Vec<char>>)
    ensures
        r@.map_values(|t: Vec<char>| t@) == v@.map_values(|t: Vec<char>| t@).map_values(|p: Seq<char>| trim(p)),
{
    let mut r: Vec<Vec<char>> = Vec::new();
    for i in 0..v.len()
        invariant
            r@.map_values(|t: Vec<char>| t@) == v@.map_values(|t: Vec<char>| t@).take(i as int).map_values(|p: Seq<char>| trim(p)),
    {
        let t = trim_of(&v[i]);
        let ghost before = r@.map_values(|t: Vec<char>| t@);
        r.push(t);
        proof {
            assert(r@.map_values(|t: Vec<char>| t@) =~= before.push(t@));
            assert(v@.map_values(|t: Vec<char>| t@).take(i + 1).map_values(|p: Seq<char>| trim(p)) =~= v@.map_values(|t: Vec<char>| t@).take(i as int).map_values(|p: Seq<char>| trim(p)).push(trim(v@[i as int]@)));
        }
    }
    proof {
        assert(v@.map_values(|t: Vec<char>| t@).take(v@.len() as int) =~= v@.map_values(|t: Vec<char>| t@));
    }
    r
}

// ---------------------------------------------------------------------------
// Whole texts
// ---------------------------------------------------------------------------

/// The lines of a text one after the other, each `source` line left unfollowed
/// with a warning; `n` lines taken.
pub open spec fn text_steps(st0: ParserView, path: Seq<char>, ls: Seq<Seq<char>>, n: nat) -> ParserView
    decreases n,
{
    if n == 0 || n > ls.len() {
        st0
    } else {
        let prev = text_steps(st0, path, ls, (n - 1) as nat);
        let r = line_step(prev, path, n, ls[n - 1]);
        match r.1 {
            Some(v) => r.0.warn(path, n, "source not followed: "@ + v),
            None => r.0,
        }
    }
}

/// The parse of a text read on its own, without the files it sources.
pub open spec fn parse_alone_spec(text: Seq<char>, path: Seq<char>) -> ConfigView {
    let st0 = ParserView { files: seq![path], ..ParserView::init() };
    text_steps(st0, path, lines(text), lines(text).len()).result()
}

/// The tags of the last `#TAGS:` line among the first `n` lines; none before the first.
pub open spec fn marker_tags(ls: Seq<Seq<char>>, n: nat) -> Seq<Seq<char>>
    decreases n,
{
    if n == 0 || n > ls.len() {
        seq![]
    } else {
        match strip_prefix(trim(ls[n - 1]), "#TAGS:"@) {
            Some(r) => tokens(r, false),
            None => marker_tags(ls, (n - 1) as nat),
        }
    }
}

/// The binds after `old` in `new` all come from line `line` and carry `tags`.
pub open spec fn added_at(old: Seq<BindView>, new: Seq<BindView>, line: nat, tags: Seq<Seq<char>>) -> bool {
    &&& old.len() <= new.len()
    &&& new.take(old.len() as int) == old
    &&& forall|k: int|
        old.len() <= k < new.len() ==> (#[trigger] new[k]).tags == tags && new[k].source is Some
            && new[k].source->0.line == line && new[k].origin == Origin::Config
}

proof fn lemma_bind_step_tags(st: ParserView, letters: Seq<char>, value: Seq<char>, path: Seq<char>, line: nat, raw: Seq<char>)
    ensures
        bind_step(st, letters, value, path, line, raw).tags == st.tags,
        added_at(st.binds, bind_step(st, letters, value, path, line, raw).binds, line, st.tags),
{
    let r = bind_step(st, letters, value, path, line, raw);
    if r.binds.len() == st.binds.len() {
        assert(r.binds.take(st.binds.len() as int) =~= st.binds);
    } else {
        assert(r.binds.take(st.binds.len() as int) =~= st.binds);
    }
}

proof fn lemma_line_step_tags(st: ParserView, path: Seq<char>, line: nat, raw: Seq<char>)
    ensures
        line_step(st, path, line, raw).0.tags == match strip_prefix(trim(raw), "#TAGS:"@) {
            Some(r) => tokens(r, false),
            None => st.tags,
        },
        added_at(st.binds, line_step(st, path, line, raw).0.binds, line, st.tags),
{
    let t = trim(raw);
    assert(st.binds.take(st.binds.len() as int) =~= st.binds);
    if strip_prefix(t, "#TAGS:"@) is None && !(t.len() == 0 || t[0] == '#') {
        let code = strip_comment_spec(t);
        match split_once(code, '=') {
            None => {},
            Some(kv) => {
                let k = trim(kv.0);
                let v = trim(kv.1);
                if !(k.len() > 0 && k[0] == '$') && k != "source"@ && k != "submap"@ && strip_prefix(k, "bind"@) is Some {
                    lemma_bind_step_tags(st, strip_prefix(k, "bind"@)->0, expand(st.vars, v), path, line, raw);
                }
            },
        }
    }
}

proof fn lemma_text_steps_tags(st0: ParserView, path: Seq<char>, ls: Seq<Seq<char>>, n: nat)
    requires
        st0.tags == Seq::<Seq<char>>::empty(),
        st0.binds == Seq::<BindView>::empty(),
        n <= ls.len(),
    ensures
        text_steps(st0, path, ls, n).tags == marker_tags(ls, n),
        forall|k: int|
            0 <= k < text_steps(st0, path, ls, n).binds.len() ==> {
                let b = #[trigger] text_steps(st0, path, ls, n).binds[k];
                &&& b.source is Some
                &&& 1 <= b.source->0.line <= n
                &&& b.tags == marker_tags(ls, (b.source->0.line - 1) as nat)
                &&& b.origin == Origin::Config
            },
    decreases n,
{
    if n > 0 {
        lemma_text_steps_tags(st0, path, ls, (n - 1) as nat);
        let prev = text_steps(st0, path, ls, (n - 1) as nat);
        lemma_line_step_tags(prev, path, n, ls[n - 1]);
        let cur = text_steps(st0, path, ls, n);
        let st2 = line_step(prev, path, n, ls[n - 1]).0;
        assert(cur.binds == st2.binds && cur.tags == st2.tags);
        assert forall|k: int| 0 <= k < cur.binds.len() implies {
            let b = #[trigger] cur.binds[k];
            &&& b.source is Some
            &&& 1 <= b.source->0.line <= n
            &&& b.tags == marker_tags(ls, (b.source->0.line - 1) as nat)
            &&& b.origin == Origin::Config
        } by {
            if k < prev.binds.len() {
                assert(cur.binds[k] == cur.binds.take(prev.binds.len() as int)[k]);
            }
        }
    }
}

/// Binds inherit the tags of the last `#TAGS:` line above them, until the next
/// one; an empty `#TAGS:` line clears them; before the first there are none.
pub proof fn lemma_tags_follow_markers(text: Seq<char>, path: Seq<char>)
    ensures
        forall|k: int|
            0 <= k < parse_alone_spec(text, path).binds.len() ==> {
                let b = #[trigger] parse_alone_spec(text, path).binds[k];
                &&& b.source is Some
                &&& 1 <= b.source->0.line <= lines(text).len()
                &&& b.tags == marker_tags(lines(text), (b.source->0.line - 1) as nat)
            },
{
    let st0 = ParserView { files: seq![path], ..ParserView::init() };
    lemma_text_steps_tags(st0, path, lines(text), lines(text).len());
}

/// Every bind of a text read on its own comes from the file: its origin is
/// `Config` and it records its line.
pub proof fn lemma_parsed_binds_from_file(text: Seq<char>, path: Seq<char>)
    ensures
        forall|k: int|
            0 <= k < parse_alone_spec(text, path).binds.len() ==> (#[trigger] parse_alone_spec(text, path).binds[k]).origin
                == Origin::Config && parse_alone_spec(text, path).binds[k].source is Some,
{
    let st0 = ParserView { files: seq![path], ..ParserView::init() };
    lemma_text_steps_tags(st0, path, lines(text), lines(text).len());
}

/// The lines of a text, as the parser takes them (`str::lines`).
pub fn lines_in(text: &str) -> (r: Vec<String>)
    ensures
        strings_view(r@) == lines(text@),
{
    let t = chars_of(text);
    let ls = lines_of(&t);
    strings_of(&ls)
}

/// Parses a text on its own; `path` is the origin of its binds. The files named by
/// `source` lines are not read: each such line gives the warning `source not
/// followed: <value>`. A reader with files follows them by driving [`Parser`] one
/// line at a time.
pub fn parse_alone(text: &str, path: &str) -> (r: ParsedConfig)
    ensures
        r@ == parse_alone_spec(text@, path@),
{
    let mut p = Parser::new();
    p.begin_file(path);
    let ghost st0 = p@;
    proof {
        assert(st0 == (ParserView { files: seq![path@], ..ParserView::init() }));
    }
    let pv = chars_of(path);
    let tv = chars_of(text);
    let ls = lines_of(&tv);
    let ghost lsv = ls@.map_values(|t: Vec<char>| t@);
    for i in 0..ls.len()
        invariant
            lsv == ls@.map_values(|t: Vec<char>| t@),
            lsv == lines(text@),
            pv@ == path@,
            p@ == text_steps(st0, path@, lsv, i as nat),
    {
        let line = i + 1;
        match p.feed_chars(&pv, line, &ls[i]) {
            LineAction::Source(v) => {
                let vv = chars_of(v.as_str());
                let msg = prefixed("source not followed: ", &vv);
                p.warn_chars(&pv, line, &msg);
            },
            LineAction::Done => {},
        }
    }
    p.finish()
}

// ---------------------------------------------------------------------------
// Following `source`
// ---------------------------------------------------------------------------

/// `~` at the start of a path replaced by the home directory, when there is one.
pub open spec fn expand_home_spec(s: Seq<char>, home: Option<Seq<char>>) -> Seq<char> {
    if s.len() > 0 && s[0] == '~' && home is Some {
        home->0 + s.drop_first()
    } else {
        s
    }
}

/// Expands `~` at the start of a path; `home` is the home directory, if known.
pub fn expand_home(s: &str, home: Option<&str>) -> (r: String)
    ensures
        r@ == expand_home_spec(s@, match home {
            Some(h) => Some(h@),
            None => None,
        }),
{
    let v = chars_of(s);
    if v.len() > 0 && v[0] == '~' {
        match home {
            Some(h) => {
                let mut out = chars_of(h);
                let rest = slice_of(&v, 1, v.len());
                push_all(&mut out, &rest);
                proof {
                    assert(rest@ =~= v@.drop_first());
                }
                return string_of(&out);
            },
            None => {},
        }
    }
    string_of(&v)
}

/// Whether a `source` value is a glob pattern.
pub open spec fn is_glob_spec(p: Seq<char>) -> bool {
    has_char(p, '*') || has_char(p, '?') || has_char(p, '[')
}

pub fn is_glob(p: &str) -> (r: bool)
    ensures
        r == is_glob_spec(p@),
{
    let v = chars_of(p);
    has_char_of(&v, '*') || has_char_of(&v, '?') || has_char_of(&v, '[')
}

/// What `Path::parent` gives for a path written as text.
pub uninterp spec fn path_parent(p: Seq<char>) -> Option<Seq<char>>;

/// A path written as text is relative when it does not start with the root `/`
/// (Unix, where a path is absolute exactly when it has a root).
pub open spec fn path_is_relative(p: Seq<char>) -> bool {
    !(p.len() > 0 && p[0] == '/')
}

/// What `Path::join` gives for two paths written as text.
pub uninterp spec fn path_join(base: Seq<char>, p: Seq<char>) -> Seq<char>;

/// `std::path::Path::parent`, read back as text. Claimed: the result is
/// `path_parent` of the path; how components are split is not stated.
#[verifier::external_body]
fn parent_of(p: &str) -> (r: Option<String>)
    ensures
        r matches Some(q) ==> path_parent(p@) == Some(q@),
        r is None <==> path_parent(p@) is None,
{
    std::path::Path::new(p).parent().map(|q| q.to_string_lossy().into_owned())
}

/// `std::path::Path::is_relative`. Claimed: the path is relative exactly when it
/// does not start with `/`, as std documents for Unix.
#[verifier::external_body]
fn is_relative_of(p: &str) -> (r: bool)
    ensures
        r == path_is_relative(p@),
{
    std::path::Path::new(p).is_relative()
}

/// `std::path::Path::join`, read back as text. Claimed: the result is `path_join` of
/// the two paths; where separators go is not stated.
#[verifier::external_body]
fn join_path(base: &str, p: &str) -> (r: String)
    ensures
        r@ == path_join(base@, p@),
{
    std::path::Path::new(base).join(p).to_string_lossy().into_owned()
}

/// The path or pattern a `source` value names, read from the file `from`: `~`
/// expanded, and relative to the directory of `from`.
pub open spec fn source_pattern_spec(value: Seq<char>, from: Seq<char>, home: Option<Seq<char>>) -> Seq<char> {
    let expanded = expand_home_spec(value, home);
    let base = match path_parent(from) {
        Some(b) => b,
        None => seq![],
    };
    if path_is_relative(expanded) {
        path_join(base, expanded)
    } else {
        expanded
    }
}

impl Parser {
    /// Whether a `source` at this depth is too deep to follow; if so, says so.
    pub fn source_too_deep(&mut self, from: &str, line: usize, depth: usize) -> (r: bool)
        ensures
            r == (depth >= MAX_SOURCE_DEPTH),
            final(self)@ == if r {
                old(self)@.warn(from@, line as nat, "too many nested source levels"@)
            } else {
                old(self)@
            },
    {
        if depth >= MAX_SOURCE_DEPTH {
            self.warn(from, line, "too many nested source levels");
            true
        } else {
            false
        }
    }

    /// The path or pattern a `source` value names.
    pub fn source_pattern(value: &str, from: &str, home: Option<&str>) -> (r: String)
        ensures
            r@ == source_pattern_spec(value@, from@, match home {
                Some(h) => Some(h@),
                None => None,
            }),
    {
        let expanded = expand_home(value, home);
        let base = match parent_of(from) {
            Some(b) => b,
            None => String::new(),
        };
        if is_relative_of(expanded.as_str()) {
            join_path(base.as_str(), expanded.as_str())
        } else {
            expanded
        }
    }

    /// Records how many files a `source` value matched; none is worth a warning.
    pub fn sources_found(&mut self, from: &str, line: usize, value: &str, count: usize)
        ensures
            final(self)@ == if count == 0 {
                old(self)@.warn(from@, line as nat, "source matches nothing: "@ + value@)
            } else {
                old(self)@
            },
    {
        if count == 0 {
            let f = chars_of(from);
            let v = chars_of(value);
            let msg = prefixed("source matches nothing: ", &v);
            self.warn_chars(&f, line, &msg);
        }
    }
}

} // verus!
