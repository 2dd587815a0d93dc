//! The two sources combined: the configuration file and `hyprctl`.

use vstd::prelude::*;
use crate::config::{binds_view, lemma_parsed_binds_from_file, parse_alone_spec, ConfigError, ConfigView, ParsedConfig};
use crate::hyprctl::live_error_text;
use crate::hyprctl::LiveError;
use crate::model::{id_view, strings_view, Bind, BindId, BindView, Origin};
use crate::text::{chars_of, lex_lt, lex_lt_of, lemma_lex_asym, lemma_lex_irrefl, lemma_lex_total, lemma_lex_trans, push_all, string_of};

verus! {

// ---------------------------------------------------------------------------
// Identities and their order
// ---------------------------------------------------------------------------

/// Order of identities: submap, then modifiers, then key, as tuples compare.
pub open spec fn id_lt(a: (Seq<char>, u32, Seq<char>), b: (Seq<char>, u32, Seq<char>)) -> bool {
    lex_lt(a.0, b.0) || (a.0 == b.0 && (a.1 < b.1 || (a.1 == b.1 && lex_lt(a.2, b.2))))
}

pub proof fn lemma_id_order(a: (Seq<char>, u32, Seq<char>), b: (Seq<char>, u32, Seq<char>), c: (Seq<char>, u32, Seq<char>))
    ensures
        !id_lt(a, a),
        id_lt(a, b) ==> !id_lt(b, a),
        a == b || id_lt(a, b) || id_lt(b, a),
        id_lt(a, b) && id_lt(b, c) ==> id_lt(a, c),
{
    lemma_lex_irrefl(a.0);
    lemma_lex_irrefl(a.2);
    lemma_lex_total(a.0, b.0);
    lemma_lex_total(a.2, b.2);
    if lex_lt(a.0, b.0) {
        lemma_lex_asym(a.0, b.0);
    }
    if lex_lt(a.2, b.2) {
        lemma_lex_asym(a.2, b.2);
    }
    if lex_lt(a.0, b.0) && lex_lt(b.0, c.0) {
        lemma_lex_trans(a.0, b.0, c.0);
    }
    if lex_lt(a.2, b.2) && lex_lt(b.2, c.2) {
        lemma_lex_trans(a.2, b.2, c.2);
    }
    if a.0 == b.0 && a.1 == b.1 && a.2 == b.2 {
        assert(a == b);
    }
}

fn id_lt_of(a: &BindId, b: &BindId) -> (r: bool)
    ensures
        r == id_lt(id_view(*a), id_view(*b)),
{
    let a0 = chars_of(a.0.as_str());
    let b0 = chars_of(b.0.as_str());
    if lex_lt_of(&a0, &b0) {
        return true;
    }
    if !(a.0 == b.0) {
        return false;
    }
    if (a.1).0 < (b.1).0 {
        return true;
    }
    if (a.1).0 != (b.1).0 {
        return false;
    }
    let a2 = chars_of(a.2.as_str());
    let b2 = chars_of(b.2.as_str());
    lex_lt_of(&a2, &b2)
}

fn id_eq_of(a: &BindId, b: &BindId) -> (r: bool)
    ensures
        r == (id_view(*a) == id_view(*b)),
{
    a.0 == b.0 && (a.1).0 == (b.1).0 && a.2 == b.2
}

/// Number of binds among the first `n` with identity `d`.
pub open spec fn count_id(s: Seq<BindView>, n: int, d: (Seq<char>, u32, Seq<char>)) -> nat
    decreases n,
{
    if n <= 0 || n > s.len() {
        0
    } else {
        count_id(s, n - 1, d) + if s[n - 1].id() == d {
            1nat
        } else {
            0nat
        }
    }
}

/// The binds with identity `d`, in order.
pub open spec fn with_id(s: Seq<BindView>, d: (Seq<char>, u32, Seq<char>)) -> Seq<BindView>
    decreases s.len(),
{
    if s.len() == 0 {
        seq![]
    } else {
        with_id(s.drop_last(), d) + if s.last().id() == d {
            seq![s.last()]
        } else {
            seq![]
        }
    }
}

pub proof fn lemma_with_id_take(s: Seq<BindView>, n: int, d: (Seq<char>, u32, Seq<char>))
    requires
        0 <= n <= s.len(),
    ensures
        with_id(s.take(n), d).len() == count_id(s, n, d),
        forall|k: int| 0 <= k < with_id(s.take(n), d).len() ==> (#[trigger] with_id(s.take(n), d)[k]).id() == d,
    decreases n,
{
    if n > 0 {
        lemma_with_id_take(s, n - 1, d);
        assert(s.take(n).drop_last() =~= s.take(n - 1));
    } else {
        assert(s.take(n) =~= Seq::<BindView>::empty());
    }
}

pub proof fn lemma_with_id_at(s: Seq<BindView>, j: int, d: (Seq<char>, u32, Seq<char>))
    requires
        0 <= j < s.len(),
        s[j].id() == d,
    ensures
        count_id(s, j, d) < with_id(s, d).len(),
        with_id(s, d)[count_id(s, j, d) as int] == s[j],
        with_id(s.take(j + 1), d) == with_id(s.take(j), d).push(s[j]),
{
    assert(s.take(j + 1).drop_last() =~= s.take(j));
    lemma_with_id_take(s, j, d);
    lemma_with_id_concat(s.take(j + 1), s.skip(j + 1), d);
    assert(s.take(j + 1) + s.skip(j + 1) =~= s);
}

pub proof fn lemma_with_id_concat(a: Seq<BindView>, b: Seq<BindView>, d: (Seq<char>, u32, Seq<char>))
    ensures
        with_id(a + b, d) == with_id(a, d) + with_id(b, d),
    decreases b.len(),
{
    if b.len() == 0 {
        assert(a + b =~= a);
        assert(with_id(a, d) + with_id(b, d) =~= with_id(a, d));
    } else {
        lemma_with_id_concat(a, b.drop_last(), d);
        assert((a + b).drop_last() =~= a + b.drop_last());
        assert((a + b).last() == b.last());
        assert(with_id(a, d) + with_id(b.drop_last(), d) + (if b.last().id() == d { seq![b.last()] } else { seq![] }) =~= with_id(a, d) + (with_id(b.drop_last(), d) + (if b.last().id() == d { seq![b.last()] } else { seq![] })));
    }
}

pub proof fn lemma_with_id_none(s: Seq<BindView>, d: (Seq<char>, u32, Seq<char>))
    requires
        forall|k: int| 0 <= k < s.len() ==> (#[trigger] s[k]).id() != d,
    ensures
        with_id(s, d) == Seq::<BindView>::empty(),
    decreases s.len(),
{
    if s.len() > 0 {
        lemma_with_id_none(s.drop_last(), d);
    }
}

// ---------------------------------------------------------------------------
// Merging
// ---------------------------------------------------------------------------

/// The loaded bind that file bind `i` is paired with: binds with the same identity
/// are paired the first in the file with the last reported, and so on.
pub open spec fn partner(c: Seq<BindView>, l: Seq<BindView>, i: int) -> Option<BindView> {
    let d = c[i].id();
    let rank = count_id(c, i, d);
    let avail = with_id(l, d);
    if rank < avail.len() {
        Some(avail[avail.len() - 1 - rank])
    } else {
        None
    }
}

/// A file bind once merged: `Both` when it is paired, its description taken from
/// its pair when it has none.
pub open spec fn merged_bind(b: BindView, p: Option<BindView>) -> BindView {
    match p {
        Some(q) => BindView {
            origin: Origin::Both,
            description: if b.description.len() == 0 {
                q.description
            } else {
                b.description
            },
            ..b
        },
        None => b,
    }
}

/// How many loaded binds with identity `d` stay unpaired.
pub open spec fn unpaired(c: Seq<BindView>, l: Seq<BindView>, d: (Seq<char>, u32, Seq<char>)) -> int {
    let live_n = count_id(l, l.len() as int, d);
    let file_n = count_id(c, c.len() as int, d);
    if live_n <= file_n {
        0
    } else {
        live_n - file_n
    }
}

/// The loaded binds that no file bind is paired with, in the order reported:
/// for each identity, the first ones.
pub open spec fn leftover(c: Seq<BindView>, l: Seq<BindView>, n: int) -> Seq<BindView>
    decreases n,
{
    if n <= 0 || n > l.len() {
        seq![]
    } else {
        leftover(c, l, n - 1) + if count_id(l, n - 1, l[n - 1].id()) < unpaired(c, l, l[n - 1].id()) {
            seq![l[n - 1]]
        } else {
            seq![]
        }
    }
}

/// `s` is ordered by identity, binds of equal identity in any order.
pub open spec fn sorted_by_id(s: Seq<BindView>) -> bool {
    forall|a: int, b: int| 0 <= a < b < s.len() ==> !id_lt((#[trigger] s[b]).id(), (#[trigger] s[a]).id())
}

/// The result of a merge: the file binds in their order, paired ones marked, then
/// the unpaired loaded binds ordered by identity, those of one identity in the
/// order reported.
pub open spec fn merge_ok(c: Seq<BindView>, l: Seq<BindView>, r: Seq<BindView>) -> bool {
    let rest = r.skip(c.len() as int);
    let lo = leftover(c, l, l.len() as int);
    &&& r.len() == c.len() + lo.len()
    &&& forall|i: int| 0 <= i < c.len() ==> #[trigger] r[i] == merged_bind(c[i], partner(c, l, i))
    &&& sorted_by_id(rest)
    &&& forall|d: (Seq<char>, u32, Seq<char>)| #[trigger] with_id(rest, d) == with_id(lo, d)
}

// ---------------------------------------------------------------------------
// What a merge keeps
// ---------------------------------------------------------------------------

/// How many of the first `m` file binds with identity `d` are paired.
pub open spec fn paired_upto(c: Seq<BindView>, l: Seq<BindView>, d: (Seq<char>, u32, Seq<char>), m: int) -> nat
    decreases m,
{
    if m <= 0 || m > c.len() {
        0
    } else {
        paired_upto(c, l, d, m - 1) + if c[m - 1].id() == d && partner(c, l, m - 1) is Some {
            1nat
        } else {
            0nat
        }
    }
}

proof fn lemma_count_same_ids(a: Seq<BindView>, b: Seq<BindView>, n: int, d: (Seq<char>, u32, Seq<char>))
    requires
        0 <= n <= a.len(),
        n <= b.len(),
        forall|i: int| 0 <= i < n ==> (#[trigger] a[i]).id() == b[i].id(),
    ensures
        count_id(a, n, d) == count_id(b, n, d),
    decreases n,
{
    if n > 0 {
        lemma_count_same_ids(a, b, n - 1, d);
        assert(a[n - 1].id() == b[n - 1].id());
    }
}

proof fn lemma_leftover_count(c: Seq<BindView>, l: Seq<BindView>, n: int, d: (Seq<char>, u32, Seq<char>))
    requires
        0 <= n <= l.len(),
    ensures
        with_id(leftover(c, l, n), d).len() == if count_id(l, n, d) < unpaired(c, l, d) {
            count_id(l, n, d) as int
        } else {
            unpaired(c, l, d)
        },
    decreases n,
{
    if n > 0 {
        lemma_leftover_count(c, l, n - 1, d);
        let prev = leftover(c, l, n - 1);
        let x = l[n - 1];
        let add: Seq<BindView> = if count_id(l, n - 1, x.id()) < unpaired(c, l, x.id()) {
            seq![x]
        } else {
            seq![]
        };
        assert(leftover(c, l, n) == prev + add);
        lemma_with_id_concat(prev, add, d);
        assert(with_id(Seq::<BindView>::empty(), d) == Seq::<BindView>::empty());
        if add.len() == 1 {
            assert(add.drop_last() =~= Seq::<BindView>::empty());
            assert(add.last() == x);
            assert(with_id(add, d).len() == if x.id() == d { 1int } else { 0int });
        } else {
            assert(add =~= Seq::<BindView>::empty());
            assert(with_id(add, d).len() == 0);
        }
        assert(count_id(l, n, d) == count_id(l, n - 1, d) + if x.id() == d { 1nat } else { 0nat });
    }
}

proof fn lemma_paired_upto(c: Seq<BindView>, l: Seq<BindView>, d: (Seq<char>, u32, Seq<char>), m: int)
    requires
        0 <= m <= c.len(),
    ensures
        paired_upto(c, l, d, m) == if count_id(c, m, d) < count_id(l, l.len() as int, d) {
            count_id(c, m, d) as int
        } else {
            count_id(l, l.len() as int, d) as int
        },
    decreases m,
{
    lemma_with_id_take(l, l.len() as int, d);
    assert(l.take(l.len() as int) =~= l);
    if m > 0 {
        lemma_paired_upto(c, l, d, m - 1);
    }
}

/// A merge loses nothing and pairs as much as it can: for each identity, as many
/// file binds are paired as the smaller of the file's and `hyprctl`'s counts, and
/// the merged list holds the larger count.
pub proof fn lemma_merge_counts(c: Seq<BindView>, l: Seq<BindView>, r: Seq<BindView>, d: (Seq<char>, u32, Seq<char>))
    requires
        merge_ok(c, l, r),
    ensures
        paired_upto(c, l, d, c.len() as int) == if count_id(c, c.len() as int, d) < count_id(l, l.len() as int, d) {
            count_id(c, c.len() as int, d)
        } else {
            count_id(l, l.len() as int, d)
        },
        count_id(r, r.len() as int, d) == if count_id(c, c.len() as int, d) < count_id(l, l.len() as int, d) {
            count_id(l, l.len() as int, d)
        } else {
            count_id(c, c.len() as int, d)
        },
{
    lemma_paired_upto(c, l, d, c.len() as int);
    let n = c.len() as int;
    let rest = r.skip(n);
    let lo = leftover(c, l, l.len() as int);
    assert forall|i: int| 0 <= i < n implies (#[trigger] r[i]).id() == c[i].id() by {
        assert(r[i] == merged_bind(c[i], partner(c, l, i)));
    }
    lemma_count_same_ids(r, c, n, d);
    lemma_with_id_take(r, n, d);
    lemma_with_id_take(r, r.len() as int, d);
    assert(r.take(r.len() as int) =~= r);
    assert(r.take(n) + rest =~= r);
    lemma_with_id_concat(r.take(n), rest, d);
    assert(with_id(rest, d) == with_id(lo, d));
    lemma_leftover_count(c, l, l.len() as int, d);
}

/// Number of binds among the first `n` with this identity, computed.
fn count_ids(ids: &Vec<BindId>, n: usize, d: &BindId, Ghost(s): Ghost<Seq<BindView>>) -> (r: usize)
    requires
        n <= ids.len(),
        ids.len() == s.len(),
        forall|k: int| 0 <= k < ids.len() ==> id_view(#[trigger] ids@[k]) == s[k].id(),
    ensures
        r == count_id(s, n as int, id_view(*d)),
{
    let ghost dv = id_view(*d);
    let mut c: usize = 0;
    for j in 0..n
        invariant
            n <= ids.len(),
            ids.len() == s.len(),
            forall|k: int| 0 <= k < ids.len() ==> id_view(#[trigger] ids@[k]) == s[k].id(),
            dv == id_view(*d),
            c == count_id(s, j as int, dv),
            c <= j,
    {
        proof {
            assert(id_view(ids@[j as int]) == s[j as int].id());
            assert(count_id(s, j + 1, dv) == count_id(s, j as int, dv) + if s[j as int].id() == dv { 1nat } else { 0nat });
        }
        let e = id_eq_of(&ids[j], d);
        if e {
            c = c + 1;
        }
    }
    c
}

fn ids_of(binds: &Vec<Bind>) -> (r: Vec<BindId>)
    ensures
        r.len() == binds.len(),
        forall|k: int| 0 <= k < r.len() ==> id_view(#[trigger] r@[k]) == binds@[k]@.id(),
{
    let mut r: Vec<BindId> = Vec::new();
    for i in 0..binds.len()
        invariant
            r.len() == i,
            forall|k: int| 0 <= k < i ==> id_view(#[trigger] r@[k]) == binds@[k]@.id(),
    {
        r.push(binds[i].id());
    }
    r
}

/// Pairs each file bind with a loaded one by identity. File binds without a pair
/// stay `Config`; loaded binds without a pair are appended as `Live`, ordered by
/// identity.
pub fn merge(config: Vec<Bind>, live: Vec<Bind>) -> (r: Vec<Bind>)
    ensures
        merge_ok(binds_view(config@), binds_view(live@), binds_view(r@)),
{
    let ghost c = binds_view(config@);
    let ghost l = binds_view(live@);
    let cids = ids_of(&config);
    let lids = ids_of(&live);
    let mut out: Vec<Bind> = Vec::new();
    // the file binds, paired or not
    for i in 0..config.len()
        invariant
            c == binds_view(config@),
            l == binds_view(live@),
            cids.len() == c.len(),
            lids.len() == l.len(),
            forall|k: int| 0 <= k < cids.len() ==> id_view(#[trigger] cids@[k]) == c[k].id(),
            forall|k: int| 0 <= k < lids.len() ==> id_view(#[trigger] lids@[k]) == l[k].id(),
            out.len() == i,
            forall|k: int| 0 <= k < i ==> (#[trigger] out@[k])@ == merged_bind(c[k], partner(c, l, k)),
    {
        let d = &cids[i];
        let ghost dv = id_view(*d);
        let rank = count_ids(&cids, i, d, Ghost(c));
        let avail = count_ids(&lids, live.len(), d, Ghost(l));
        proof {
            lemma_with_id_take(l, l.len() as int, dv);
            assert(l.take(l.len() as int) =~= l);
        }
        let mut b = config[i].duplicate();
        if rank < avail {
            let target = avail - 1 - rank;
            // the loaded bind of that identity at position `target` among them
            let mut seen: usize = 0;
            let mut found: usize = 0;
            let mut done = false;
            let mut j: usize = 0;
            while j < live.len() && !done
                invariant
                    l == binds_view(live@),
                    lids.len() == l.len(),
                    forall|k: int| 0 <= k < lids.len() ==> id_view(#[trigger] lids@[k]) == l[k].id(),
                    j <= live.len(),
                    dv == id_view(*d),
                    !done ==> seen == count_id(l, j as int, dv),
                    !done ==> seen <= target,
                    target < with_id(l, dv).len(),
                    with_id(l, dv).len() == count_id(l, l.len() as int, dv),
                    done ==> found < live.len() && l[found as int].id() == dv && count_id(l, found as int, dv) == target,
                decreases live.len() - j + (if done { 0int } else { 1int }),
            {
                proof {
                    assert(id_view(lids@[j as int]) == l[j as int].id());
                }
                if id_eq_of(&lids[j], d) {
                    if seen == target {
                        found = j;
                        done = true;
                    } else {
                        seen = seen + 1;
                        j = j + 1;
                    }
                } else {
                    j = j + 1;
                }
            }
            proof {
                if !done {
                    assert(false);
                }
                lemma_with_id_at(l, found as int, dv);
            }
            b.origin = Origin::Both;
            if b.description.as_str().is_empty() {
                b.description = live[found].description.clone();
            }
        }
        out.push(b);
    }
    let ghost head = binds_view(out@);
    // the loaded binds left unpaired, in the order reported
    let mut lo: Vec<Bind> = Vec::new();
    for j in 0..live.len()
        invariant
            c == binds_view(config@),
            l == binds_view(live@),
            cids.len() == c.len(),
            lids.len() == l.len(),
            forall|k: int| 0 <= k < cids.len() ==> id_view(#[trigger] cids@[k]) == c[k].id(),
            forall|k: int| 0 <= k < lids.len() ==> id_view(#[trigger] lids@[k]) == l[k].id(),
            binds_view(lo@) == leftover(c, l, j as int),
    {
        let d = &lids[j];
        let before = count_ids(&lids, j, d, Ghost(l));
        let live_n = count_ids(&lids, live.len(), d, Ghost(l));
        let file_n = count_ids(&cids, config.len(), d, Ghost(c));
        let un = if live_n <= file_n {
            0
        } else {
            live_n - file_n
        };
        let ghost prev = binds_view(lo@);
        if before < un {
            let b = live[j].duplicate();
            lo.push(b);
            proof {
                assert(binds_view(lo@) =~= prev.push(b@));
            }
        }
        proof {
            assert(leftover(c, l, j + 1) =~= binds_view(lo@));
        }
    }
    let ghost lov = binds_view(lo@);
    // ordered by identity, equal identities in the order reported
    let mut rest: Vec<Bind> = Vec::new();
    let mut rids: Vec<BindId> = Vec::new();
    for k in 0..lo.len()
        invariant
            lov == binds_view(lo@),
            rids.len() == rest.len(),
            rest.len() == k,
            forall|q: int| 0 <= q < rids.len() ==> id_view(#[trigger] rids@[q]) == binds_view(rest@)[q].id(),
            sorted_by_id(binds_view(rest@)),
            forall|d: (Seq<char>, u32, Seq<char>)| #[trigger] with_id(binds_view(rest@), d) == with_id(lov.take(k as int), d),
    {
        let x = lo[k].duplicate();
        let xid = x.id();
        let ghost xd = id_view(xid);
        let mut p: usize = 0;
        while p < rest.len() && !id_lt_of(&xid, &rids[p])
            invariant
                p <= rest.len(),
                xd == id_view(xid),
                rids.len() == rest.len(),
                forall|q: int| 0 <= q < rids.len() ==> id_view(#[trigger] rids@[q]) == binds_view(rest@)[q].id(),
                forall|q: int| 0 <= q < p ==> !id_lt(xd, (#[trigger] binds_view(rest@)[q]).id()),
            decreases rest.len() - p,
        {
            proof {
                assert(id_view(rids@[p as int]) == binds_view(rest@)[p as int].id());
            }
            p = p + 1;
        }
        let ghost old_rest = binds_view(rest@);
        proof {
            assert forall|q: int| p <= q < old_rest.len() implies id_lt(xd, (#[trigger] old_rest[q]).id()) by {
                assert(id_lt(xd, old_rest[p as int].id()));
                if q > p {
                    assert(!id_lt(old_rest[q].id(), old_rest[p as int].id()));
                    lemma_id_order(xd, old_rest[p as int].id(), old_rest[q].id());
                    lemma_id_order(old_rest[p as int].id(), old_rest[q].id(), xd);
                }
            }
        }
        rest.insert(p, x);
        rids.insert(p, xid);
        proof {
            let nr = binds_view(rest@);
            assert(nr =~= old_rest.insert(p as int, x@));
            assert(x@ == lov[k as int]);
            assert forall|a: int, b: int| 0 <= a < b < nr.len() implies !id_lt((#[trigger] nr[b]).id(), (#[trigger] nr[a]).id()) by {
                if a < p && b == p {
                    lemma_id_order(xd, old_rest[a].id(), xd);
                    lemma_id_order(old_rest[a].id(), xd, xd);
                } else if a == p && b > p {
                    lemma_id_order(xd, old_rest[b - 1].id(), xd);
                } else if a < p && b > p {
                    assert(nr[a] == old_rest[a] && nr[b] == old_rest[b - 1]);
                } else if a < p {
                    assert(nr[a] == old_rest[a] && nr[b] == old_rest[b]);
                } else {
                    assert(nr[a] == old_rest[a - 1] && nr[b] == old_rest[b - 1]);
                }
            }
            assert forall|q: int| 0 <= q < rids.len() implies id_view(#[trigger] rids@[q]) == nr[q].id() by {
                if q < p {
                    assert(nr[q] == old_rest[q]);
                } else if q > p {
                    assert(nr[q] == old_rest[q - 1]);
                }
            }
            assert(lov.take(k + 1) =~= lov.take(k as int).push(x@));
            assert(old_rest.insert(p as int, x@) =~= old_rest.take(p as int) + seq![x@] + old_rest.skip(p as int));
            assert(old_rest =~= old_rest.take(p as int) + old_rest.skip(p as int));
            assert forall|d: (Seq<char>, u32, Seq<char>)| #[trigger] with_id(nr, d) == with_id(lov.take(k + 1), d) by {
                let t = old_rest.take(p as int);
                let u = old_rest.skip(p as int);
                assert(with_id(old_rest, d) == with_id(lov.take(k as int), d));
                lemma_with_id_concat(t + seq![x@], u, d);
                lemma_with_id_concat(t, seq![x@], d);
                lemma_with_id_concat(t, u, d);
                lemma_with_id_concat(lov.take(k as int), seq![x@], d);
                assert(nr == t + seq![x@] + u);
                assert(old_rest == t + u);
                assert(lov.take(k + 1) == lov.take(k as int) + seq![x@]);
                assert(with_id(seq![x@], d) =~= (if x@.id() == d { seq![x@] } else { seq![] })) by {
                    assert(seq![x@].drop_last() =~= Seq::<BindView>::empty());
                    assert(with_id(Seq::<BindView>::empty(), d) =~= Seq::<BindView>::empty());
                    assert(seq![x@].last() == x@);
                }
                if x@.id() == d {
                    assert forall|q: int| 0 <= q < u.len() implies (#[trigger] u[q]).id() != d by {
                        assert(u[q] == old_rest[p + q]);
                        lemma_id_order(xd, u[q].id(), xd);
                    }
                    lemma_with_id_none(u, d);
                    assert(with_id(t, d) + with_id(u, d) =~= with_id(t, d));
                    assert(with_id(nr, d) =~= with_id(t, d) + seq![x@]);
                    assert(with_id(lov.take(k + 1), d) =~= with_id(lov.take(k as int), d) + seq![x@]);
                } else {
                    assert(with_id(t, d) + Seq::<BindView>::empty() =~= with_id(t, d));
                    assert(with_id(lov.take(k as int), d) + Seq::<BindView>::empty() =~= with_id(lov.take(k as int), d));
                    assert(with_id(nr, d) =~= with_id(t, d) + with_id(u, d));
                }
            }
        }
    }
    proof {
        assert(lov.take(lo@.len() as int) =~= lov);
    }
    let ghost tail = binds_view(rest@);
    let mut all = out;
    let mut rest = rest;
    let mut k: usize = 0;
    while k < rest.len()
        invariant
            k <= rest.len(),
            binds_view(rest@) == tail,
            binds_view(all@) == head + tail.take(k as int),
        decreases rest.len() - k,
    {
        let b = rest[k].duplicate();
        let ghost before = binds_view(all@);
        all.push(b);
        proof {
            assert(binds_view(all@) =~= before.push(b@));
            assert(tail.take(k + 1) =~= tail.take(k as int).push(tail[k as int]));
            assert(head + tail.take(k + 1) =~= (head + tail.take(k as int)).push(tail[k as int]));
        }
        k = k + 1;
    }
    proof {
        let r = binds_view(all@);
        assert(tail.take(tail.len() as int) =~= tail);
        assert(r.skip(c.len() as int) =~= tail);
        assert forall|i: int| 0 <= i < c.len() implies #[trigger] r[i] == merged_bind(c[i], partner(c, l, i)) by {
            assert(r[i] == head[i]);
        }
    }
    all
}

// ---------------------------------------------------------------------------
// The snapshot
// ---------------------------------------------------------------------------

#[derive(Clone, Debug)]
pub struct LoadOptions {
    pub config: String,
    /// Ask `hyprctl binds -j` besides reading the file.
    pub use_live: bool,
}

/// State of the query to `hyprctl`.
#[derive(Clone, Debug, PartialEq, Eq)]
pub enum LiveStatus {
    /// The user asked not to query `hyprctl`.
    Disabled,
    /// Not inside a Hyprland session.
    NotRunning,
    /// `hyprctl` failed.
    Error(String),
    /// `hyprctl` answered.
    Answered,
}

pub ghost enum LiveStatusView {
    Disabled,
    NotRunning,
    Error(Seq<char>),
    /// `hyprctl` answered.
    Answered,
}

impl View for LiveStatus {
    type V = LiveStatusView;

    open spec fn view(&self) -> LiveStatusView {
        match self {
            LiveStatus::Disabled => LiveStatusView::Disabled,
            LiveStatus::NotRunning => LiveStatusView::NotRunning,
            LiveStatus::Error(e) => LiveStatusView::Error(e@),
            LiveStatus::Answered => LiveStatusView::Answered,
        }
    }
}

impl LiveStatus {
    /// Whether `hyprctl` answered.
    pub fn is_ok(&self) -> (r: bool)
        ensures
            r == (self@ is Answered),
    {
        match self {
            LiveStatus::Answered => true,
            _ => false,
        }
    }
}

pub struct Snapshot {
    pub config_path: String,
    /// Binds of the file in their order, then those only `hyprctl` knows.
    pub binds: Vec<Bind>,
    pub files: Vec<String>,
    pub warnings: Vec<String>,
    pub live: LiveStatus,
}

pub ghost struct SnapshotView {
    pub config_path: Seq<char>,
    pub binds: Seq<BindView>,
    pub files: Seq<Seq<char>>,
    pub warnings: Seq<Seq<char>>,
    pub live: LiveStatusView,
}

impl View for Snapshot {
    type V = SnapshotView;

    open spec fn view(&self) -> SnapshotView {
        SnapshotView {
            config_path: self.config_path@,
            binds: binds_view(self.binds@),
            files: strings_view(self.files@),
            warnings: strings_view(self.warnings@),
            live: self.live@,
        }
    }
}

/// Strictly increasing in the order of strings.
pub open spec fn strictly_sorted(s: Seq<Seq<char>>) -> bool {
    forall|a: int, b: int| 0 <= a < b < s.len() ==> lex_lt(#[trigger] s[a], #[trigger] s[b])
}

/// Some bind has tag `t`.
pub open spec fn has_tag(binds: Seq<BindView>, t: Seq<char>) -> bool {
    exists|k: int| 0 <= k < binds.len() && binds[k].tags.contains(t)
}

/// Some bind belongs to submap `m`.
pub open spec fn has_submap(binds: Seq<BindView>, m: Seq<char>) -> bool {
    exists|k: int| 0 <= k < binds.len() && (#[trigger] binds[k]).submap == m
}

/// Number of binds of an origin.
pub open spec fn count_origin(binds: Seq<BindView>, o: Origin) -> nat
    decreases binds.len(),
{
    if binds.len() == 0 {
        0
    } else {
        count_origin(binds.drop_last(), o) + if binds.last().origin == o {
            1nat
        } else {
            0nat
        }
    }
}

/// Puts `x` in a strictly sorted list, unless it is there already.
fn insert_sorted(v: &mut Vec<String>, x: String)
    requires
        strictly_sorted(strings_view(old(v)@)),
    ensures
        strictly_sorted(strings_view(final(v)@)),
        forall|t: Seq<char>| strings_view(final(v)@).contains(t) <==> (strings_view(old(v)@).contains(t) || t == x@),
{
    let ghost old_v = strings_view(v@);
    let xc = chars_of(x.as_str());
    let mut p: usize = 0;
    let mut present = false;
    let mut stop = false;
    while p < v.len() && !stop
        invariant
            p <= v.len(),
            strings_view(v@) == old_v,
            xc@ == x@,
            present ==> stop,
            stop ==> p < v.len(),
            present ==> old_v[p as int] == x@,
            stop && !present ==> lex_lt(x@, old_v[p as int]),
            forall|q: int| 0 <= q < p ==> lex_lt(#[trigger] old_v[q], x@),
        decreases v.len() - p + (if stop { 0int } else { 1int }),
    {
        let y = chars_of(v[p].as_str());
        proof {
            assert(old_v[p as int] == y@);
        }
        if lex_lt_of(&y, &xc) {
            p = p + 1;
        } else {
            stop = true;
            if crate::text::seq_eq(&y, &xc) {
                present = true;
            } else {
                proof {
                    lemma_lex_total(y@, x@);
                }
            }
        }
    }
    if present {
        proof {
            assert forall|t: Seq<char>| strings_view(v@).contains(t) <==> (old_v.contains(t) || t == x@) by {
                if t == x@ {
                    assert(old_v[p as int] == t);
                }
            }
        }
        return;
    }
    proof {
        // every later element is greater than `x`
        assert forall|q: int| p <= q < old_v.len() implies lex_lt(x@, #[trigger] old_v[q]) by {
            if q > p {
                lemma_lex_trans(x@, old_v[p as int], old_v[q]);
            }
        }
    }
    v.insert(p, x);
    proof {
        let nv = strings_view(v@);
        assert(nv =~= old_v.insert(p as int, x@));
        assert forall|a: int, b: int| 0 <= a < b < nv.len() implies lex_lt(#[trigger] nv[a], #[trigger] nv[b]) by {
            if a < p && b == p {
            } else if a == p {
                assert(nv[b] == old_v[b - 1]);
            } else if b < p {
                assert(nv[a] == old_v[a] && nv[b] == old_v[b]);
            } else if a < p {
                assert(nv[a] == old_v[a] && nv[b] == old_v[b - 1]);
                lemma_lex_trans(old_v[a], x@, old_v[b - 1]);
            } else {
                assert(nv[a] == old_v[a - 1] && nv[b] == old_v[b - 1]);
            }
        }
        assert forall|t: Seq<char>| nv.contains(t) <==> (old_v.contains(t) || t == x@) by {
            if nv.contains(t) {
                let k = choose|k: int| 0 <= k < nv.len() && #[trigger] nv[k] == t;
                if k < p {
                    assert(old_v[k] == t);
                } else if k > p {
                    assert(old_v[k - 1] == t);
                }
            }
            if old_v.contains(t) {
                let k = choose|k: int| 0 <= k < old_v.len() && #[trigger] old_v[k] == t;
                if k < p {
                    assert(nv[k] == t);
                } else {
                    assert(nv[k + 1] == t);
                }
            }
            if t == x@ {
                assert(nv[p as int] == t);
            }
        }
    }
}

/// The distinct tags of the binds, sorted.
pub open spec fn all_tags_ok(binds: Seq<BindView>, r: Seq<Seq<char>>) -> bool {
    &&& strictly_sorted(r)
    &&& forall|t: Seq<char>|
        #![trigger r.contains(t)]
        #![trigger has_tag(binds, t)]
        r.contains(t) <==> has_tag(binds, t)
}

/// The submaps of the binds: the global one (empty) first, then the others sorted.
pub open spec fn submaps_ok(binds: Seq<BindView>, r: Seq<Seq<char>>) -> bool {
    &&& r.len() > 0
    &&& r[0].len() == 0
    &&& strictly_sorted(r.skip(1))
    &&& forall|t: Seq<char>|
        #![trigger r.skip(1).contains(t)]
        #![trigger has_submap(binds, t)]
        r.skip(1).contains(t) <==> (t.len() > 0 && has_submap(binds, t))
}

impl Snapshot {
    /// Distinct tags, sorted.
    pub fn all_tags(&self) -> (r: Vec<String>)
        ensures
            all_tags_ok(self@.binds, strings_view(r@)),
    {
        let ghost bs = self@.binds;
        let mut r: Vec<String> = Vec::new();
        for i in 0..self.binds.len()
            invariant
                bs == self@.binds,
                strictly_sorted(strings_view(r@)),
                forall|t: Seq<char>| strings_view(r@).contains(t) <==> has_tag(bs.take(i as int), t),
        {
            let b = &self.binds[i];
            proof {
                assert(bs[i as int] == b@);
            }
            for k in 0..b.tags.len()
                invariant
                    bs == self@.binds,
                    i < bs.len(),
                    bs[i as int] == b@,
                    strictly_sorted(strings_view(r@)),
                    forall|t: Seq<char>| strings_view(r@).contains(t) <==> (has_tag(bs.take(i as int), t) || b@.tags.take(k as int).contains(t)),
            {
                let ghost before = strings_view(r@);
                let tg = b.tags[k].clone();
                proof {
                    assert(tg@ == b@.tags[k as int]);
                }
                insert_sorted(&mut r, tg);
                proof {
                    assert(b@.tags.take(k + 1) =~= b@.tags.take(k as int).push(b@.tags[k as int]));
                    assert forall|t: Seq<char>| b@.tags.take(k + 1).contains(t) <==> (b@.tags.take(k as int).contains(t) || t == b@.tags[k as int]) by {
                        if b@.tags.take(k + 1).contains(t) {
                            let q = choose|q: int| 0 <= q < b@.tags.take(k + 1).len() && #[trigger] b@.tags.take(k + 1)[q] == t;
                            if q < k {
                                assert(b@.tags.take(k as int)[q] == t);
                            }
                        }
                        if b@.tags.take(k as int).contains(t) {
                            let q = choose|q: int| 0 <= q < b@.tags.take(k as int).len() && #[trigger] b@.tags.take(k as int)[q] == t;
                            assert(b@.tags.take(k + 1)[q] == t);
                        }
                        if t == b@.tags[k as int] {
                            assert(b@.tags.take(k + 1)[k as int] == t);
                        }
                    }
                    assert forall|t: Seq<char>| strings_view(r@).contains(t) <==> (has_tag(bs.take(i as int), t) || b@.tags.take(k + 1).contains(t)) by {
                        assert(strings_view(r@).contains(t) <==> (before.contains(t) || t == tg@));
                        assert(b@.tags.take(k + 1).contains(t) <==> (b@.tags.take(k as int).contains(t) || t == b@.tags[k as int]));
                    }
                }
            }
            proof {
                assert(b@.tags.take(b@.tags.len() as int) =~= b@.tags);
                assert forall|t: Seq<char>| has_tag(bs.take(i + 1), t) <==> (has_tag(bs.take(i as int), t) || b@.tags.contains(t)) by {
                    if has_tag(bs.take(i + 1), t) {
                        let q = choose|q: int| 0 <= q < bs.take(i + 1).len() && (#[trigger] bs.take(i + 1)[q]).tags.contains(t);
                        if q < i {
                            assert(bs.take(i as int)[q] == bs.take(i + 1)[q]);
                        }
                    }
                    if has_tag(bs.take(i as int), t) {
                        let q = choose|q: int| 0 <= q < bs.take(i as int).len() && (#[trigger] bs.take(i as int)[q]).tags.contains(t);
                        assert(bs.take(i + 1)[q] == bs.take(i as int)[q]);
                    }
                    if b@.tags.contains(t) {
                        assert(bs.take(i + 1)[i as int] == b@);
                    }
                }
            }
        }
        proof {
            assert(bs.take(bs.len() as int) =~= bs);
        }
        r
    }

    /// Whether some bind has no tag.
    pub fn has_untagged(&self) -> (r: bool)
        ensures
            r == exists|k: int| 0 <= k < self@.binds.len() && (#[trigger] self@.binds[k]).tags.len() == 0,
    {
        for i in 0..self.binds.len()
            invariant
                forall|k: int| 0 <= k < i ==> (#[trigger] self@.binds[k]).tags.len() != 0,
        {
            if self.binds[i].tags.len() == 0 {
                proof {
                    assert(self@.binds[i as int].tags.len() == 0);
                }
                return true;
            }
        }
        false
    }

    /// Submaps present; the global one (empty) always first.
    pub fn submaps(&self) -> (r: Vec<String>)
        ensures
            submaps_ok(self@.binds, strings_view(r@)),
    {
        let ghost bs = self@.binds;
        let mut set: Vec<String> = Vec::new();
        for i in 0..self.binds.len()
            invariant
                bs == self@.binds,
                strictly_sorted(strings_view(set@)),
                forall|t: Seq<char>| strings_view(set@).contains(t) <==> (t.len() > 0 && has_submap(bs.take(i as int), t)),
        {
            let b = &self.binds[i];
            proof {
                assert(bs[i as int] == b@);
            }
            let ghost before = strings_view(set@);
            if !b.submap.as_str().is_empty() {
                let m = b.submap.clone();
                proof {
                    assert(m@ == b@.submap);
                }
                insert_sorted(&mut set, m);
            }
            proof {
                assert forall|t: Seq<char>| has_submap(bs.take(i + 1), t) <==> (has_submap(bs.take(i as int), t) || b@.submap == t) by {
                    if has_submap(bs.take(i + 1), t) {
                        let q = choose|q: int| 0 <= q < bs.take(i + 1).len() && (#[trigger] bs.take(i + 1)[q]).submap == t;
                        if q < i {
                            assert(bs.take(i as int)[q] == bs.take(i + 1)[q]);
                        }
                    }
                    if has_submap(bs.take(i as int), t) {
                        let q = choose|q: int| 0 <= q < bs.take(i as int).len() && (#[trigger] bs.take(i as int)[q]).submap == t;
                        assert(bs.take(i + 1)[q] == bs.take(i as int)[q]);
                    }
                    if b@.submap == t {
                        assert(bs.take(i + 1)[i as int] == b@);
                    }
                }
                assert forall|t: Seq<char>| strings_view(set@).contains(t) <==> (t.len() > 0 && has_submap(bs.take(i + 1), t)) by {
                    assert(has_submap(bs.take(i + 1), t) <==> (has_submap(bs.take(i as int), t) || b@.submap == t));
                    if b@.submap.len() > 0 {
                        assert(strings_view(set@).contains(t) <==> (before.contains(t) || t == b@.submap));
                    } else {
                        assert(strings_view(set@) == before);
                    }
                }
            }
        }
        proof {
            assert(bs.take(bs.len() as int) =~= bs);
        }
        let mut r: Vec<String> = Vec::new();
        r.push(String::new());
        for k in 0..set.len()
            invariant
                r@.len() == k + 1,
                r@[0]@.len() == 0,
                strings_view(r@.skip(1)) == strings_view(set@.take(k as int)),
        {
            let ghost before = r@;
            let e = set[k].clone();
            proof {
                assert(e@ == set@[k as int]@);
            }
            r.push(e);
            proof {
                assert(strings_view(before.skip(1)) == strings_view(set@.take(k as int)));
                assert(strings_view(r@.skip(1)).len() == k + 1);
                assert forall|q: int| 0 <= q < k + 1 implies strings_view(r@.skip(1))[q] == strings_view(set@.take(k + 1))[q] by {
                    if q < k {
                        assert(r@.skip(1)[q] == before.skip(1)[q]);
                        assert(strings_view(before.skip(1))[q] == strings_view(set@.take(k as int))[q]);
                    }
                }
                assert(r@.skip(1) =~= before.skip(1).push(set@[k as int]));
                assert(set@.take(k + 1) =~= set@.take(k as int).push(set@[k as int]));
                assert(strings_view(r@.skip(1)) =~= strings_view(set@.take(k + 1)));
            }
        }
        proof {
            assert(set@.take(set@.len() as int) =~= set@);
            assert(strings_view(r@.skip(1)) =~= strings_view(r@).skip(1));
        }
        r
    }

    /// File binds that Hyprland has not loaded. Only meaningful when `hyprctl` answered.
    pub fn not_loaded_count(&self) -> (r: usize)
        ensures
            r == if self@.live is Answered {
                count_origin(self@.binds, Origin::Config)
            } else {
                0
            },
    {
        if !self.live.is_ok() {
            return 0;
        }
        self.count_of(Origin::Config)
    }

    /// Binds only `hyprctl` reports.
    pub fn live_only_count(&self) -> (r: usize)
        ensures
            r == count_origin(self@.binds, Origin::Live),
    {
        self.count_of(Origin::Live)
    }

    fn count_of(&self, o: Origin) -> (r: usize)
        ensures
            r == count_origin(self@.binds, o),
    {
        let ghost bs = self@.binds;
        let mut c: usize = 0;
        for i in 0..self.binds.len()
            invariant
                bs == self@.binds,
                c == count_origin(bs.take(i as int), o),
                c <= i,
        {
            proof {
                assert(bs.take(i + 1).drop_last() =~= bs.take(i as int));
                assert(bs[i as int] == self.binds@[i as int]@);
            }
            if self.binds[i].origin == o {
                c = c + 1;
            }
        }
        proof {
            assert(bs.take(bs.len() as int) =~= bs);
        }
        c
    }
}

/// What [`build`] makes of the file and of `hyprctl`'s answer.
pub open spec fn build_ok(
    path: Seq<char>,
    parsed: ConfigView,
    live: Option<Result<Vec<Bind>, LiveError>>,
    s: SnapshotView,
) -> bool {
    &&& s.config_path == path
    &&& s.files == parsed.files
    &&& match live {
        None => s.binds == parsed.binds && s.warnings == parsed.warnings && s.live == LiveStatusView::Disabled,
        Some(Err(e)) => s.binds == parsed.binds && if e is NotRunning {
            s.warnings == parsed.warnings && s.live == LiveStatusView::NotRunning
        } else {
            s.warnings == parsed.warnings.push("hyprctl: "@ + crate::hyprctl::live_error_text(e))
                && s.live == LiveStatusView::Error(crate::hyprctl::live_error_text(e))
        },
        Some(Ok(l)) => merge_ok(parsed.binds, binds_view(l@), s.binds) && s.warnings == parsed.warnings
            && s.live == LiveStatusView::Answered,
    }
}

proof fn lemma_count_origin_none(binds: Seq<BindView>, o: Origin)
    requires
        forall|k: int| 0 <= k < binds.len() ==> (#[trigger] binds[k]).origin != o,
    ensures
        count_origin(binds, o) == 0,
    decreases binds.len(),
{
    if binds.len() > 0 {
        assert forall|k: int| 0 <= k < binds.drop_last().len() implies (#[trigger] binds.drop_last()[k]).origin != o by {
            assert(binds.drop_last()[k] == binds[k]);
        }
        lemma_count_origin_none(binds.drop_last(), o);
    }
}

/// Without an answer from `hyprctl`, the snapshot of a text holds the file's binds
/// as read: each one from the file, none loaded nor only in `hyprctl`, and the
/// status is not an answer, so none counts as not loaded.
pub proof fn lemma_without_live_all_from_file(
    config_path: Seq<char>,
    text: Seq<char>,
    file: Seq<char>,
    live: Option<Result<Vec<Bind>, LiveError>>,
    s: SnapshotView,
)
    requires
        build_ok(config_path, parse_alone_spec(text, file), live, s),
        !(live is Some && live->0 is Ok),
    ensures
        s.binds == parse_alone_spec(text, file).binds,
        forall|k: int| 0 <= k < s.binds.len() ==> (#[trigger] s.binds[k]).origin == Origin::Config,
        count_origin(s.binds, Origin::Live) == 0,
        count_origin(s.binds, Origin::Both) == 0,
        !(s.live is Answered),
{
    lemma_parsed_binds_from_file(text, file);
    lemma_count_origin_none(s.binds, Origin::Live);
    lemma_count_origin_none(s.binds, Origin::Both);
}

/// Builds the snapshot from the pieces already read.
pub fn build(config_path: &str, parsed: ParsedConfig, live: Option<Result<Vec<Bind>, LiveError>>) -> (r: Snapshot)
    ensures
        build_ok(config_path@, parsed@, live, r@),
{
    let ghost pv = parsed@;
    let ghost lv = live;
    let ParsedConfig { binds, files, warnings, variables: _ } = parsed;
    let mut warnings = warnings;
    let (binds, status) = match live {
        None => (binds, LiveStatus::Disabled),
        Some(Err(e)) => {
            if e.is_not_running() {
                (binds, LiveStatus::NotRunning)
            } else {
                let m = e.message();
                let mut w = chars_of("hyprctl: ");
                let mv = chars_of(m.as_str());
                push_all(&mut w, &mv);
                let ghost before = strings_view(warnings@);
                let ws = string_of(&w);
                warnings.push(ws);
                proof {
                    assert(strings_view(warnings@) =~= before.push(ws@));
                }
                (binds, LiveStatus::Error(m))
            }
        },
        Some(Ok(l)) => (merge(binds, l), LiveStatus::Answered),
    };
    Snapshot {
        config_path: crate::text::string_lit(config_path),
        binds: binds,
        files: files,
        warnings: warnings,
        live: status,
    }
}

/// Combines what was read for a load: the file's parse, or the error that stopped
/// it, and `hyprctl`'s answer, which counts only when the options ask for it.
pub fn load(
    opts: &LoadOptions,
    parsed: Result<ParsedConfig, ConfigError>,
    live: Option<Result<Vec<Bind>, LiveError>>,
) -> (r: Result<Snapshot, ConfigError>)
    ensures
        parsed matches Err(e) ==> r == Err::<Snapshot, ConfigError>(e),
        parsed matches Ok(p) ==> (r matches Ok(s) && build_ok(
            opts.config@,
            p@,
            if opts.use_live { live } else { None },
            s@,
        )),
{
    match parsed {
        Err(e) => Err(e),
        Ok(p) => {
            let asked = if opts.use_live { live } else { None };
            Ok(build(opts.config.as_str(), p, asked))
        },
    }
}

} // verus!
