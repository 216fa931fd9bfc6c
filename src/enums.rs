//! Synthesis of enum-like groups out of integer constants whose names carry
//! the name of their type alias as a prefix.
use vstd::prelude::*;

use crate::model::{AliasDecl, ConstDecl, DeclSet, TypeRef};
use crate::render::{lit_text, render_lit};
use crate::text::{compare_str, lex_lt, lemma_lex_asymmetric, lemma_lex_irreflexive, lemma_lex_total, lemma_lex_transitive, str_eq};

verus! {

/// Index of the last alias declared under the name `t`.
pub open spec fn last_alias(aliases: Seq<AliasDecl>, t: Seq<char>) -> Option<int>
    decreases aliases.len(),
{
    if aliases.len() == 0 {
        None
    } else if aliases.last().name@ == t {
        Some(aliases.len() - 1)
    } else {
        last_alias(aliases.drop_last(), t)
    }
}

/// The type name of a constant declared with a single unqualified name.
pub open spec fn const_owner(c: ConstDecl) -> Option<Seq<char>> {
    match c.ty {
        TypeRef::Named(p) => if p@.len() == 1 {
            Some(p@[0]@)
        } else {
            None
        },
        _ => None,
    }
}

/// The variant named by `name` under the owner `t`: what follows `t` and one
/// underscore, when that is not empty.
pub open spec fn variant_of(name: Seq<char>, t: Seq<char>) -> Option<Seq<char>> {
    if name.len() > t.len() + 1 && name.take(t.len() as int) == t && name[t.len() as int] == '_' {
        Some(name.skip(t.len() as int + 1))
    } else {
        None
    }
}

/// Owner and variant name of a constant that belongs to an enum group.
pub open spec fn membership(c: ConstDecl, aliases: Seq<AliasDecl>) -> Option<(Seq<char>, Seq<char>)> {
    match const_owner(c) {
        Some(t) => if last_alias(aliases, t) is Some {
            match variant_of(c.name@, t) {
                Some(v) => Some((t, v)),
                None => None,
            }
        } else {
            None
        },
        None => None,
    }
}

/// Variant name to rendered value for the owner `t`; a later constant with
/// the same variant name replaces an earlier one.
pub open spec fn variant_map(cs: Seq<ConstDecl>, aliases: Seq<AliasDecl>, t: Seq<char>) -> Map<Seq<char>, Seq<char>>
    decreases cs.len(),
{
    if cs.len() == 0 {
        Map::empty()
    } else {
        let m = variant_map(cs.drop_last(), aliases, t);
        match membership(cs.last(), aliases) {
            Some(p) => if p.0 == t {
                m.insert(p.1, lit_text(cs.last().value))
            } else {
                m
            },
            None => m,
        }
    }
}

pub open spec fn is_enum_owner(d: DeclSet, t: Seq<char>) -> bool {
    variant_map(d.constants@, d.aliases@, t).dom() != Set::<Seq<char>>::empty()
}

/// Order of variants: by rendered value, then by name.
pub open spec fn pair_lt(a: (Seq<char>, Seq<char>), b: (Seq<char>, Seq<char>)) -> bool {
    lex_lt(a.1, b.1) || (a.1 == b.1 && lex_lt(a.0, b.0))
}

pub open spec fn pair_views(v: Seq<(String, String)>) -> Seq<(Seq<char>, Seq<char>)> {
    v.map_values(|p: (String, String)| (p.0@, p.1@))
}

/// `ps` lists the entries of `m`, one per key.
pub open spec fn listing_of(ps: Seq<(Seq<char>, Seq<char>)>, m: Map<Seq<char>, Seq<char>>) -> bool {
    &&& forall|i: int, j: int| 0 <= i < j < ps.len() ==> (#[trigger] ps[i]).0 != (#[trigger] ps[j]).0
    &&& forall|i: int| 0 <= i < ps.len() ==> m.contains_key((#[trigger] ps[i]).0) && m[ps[i].0] == ps[i].1
    &&& forall|k: Seq<char>| #[trigger] m.contains_key(k) ==> exists|i: int| 0 <= i < ps.len() && (#[trigger] ps[i]).0 == k
}

pub open spec fn pairs_sorted(ps: Seq<(Seq<char>, Seq<char>)>) -> bool {
    forall|i: int, j: int| 0 <= i < j < ps.len() ==> pair_lt(#[trigger] ps[i], #[trigger] ps[j])
}

/// The entries of `m` in variant order.
pub open spec fn variant_listing(m: Map<Seq<char>, Seq<char>>) -> Seq<(Seq<char>, Seq<char>)> {
    choose|ps: Seq<(Seq<char>, Seq<char>)>| pairs_sorted(ps) && listing_of(ps, m)
}

/// An enum group found in a declaration set.
pub struct EnumGroup {
    pub owner: String,
    /// Index of the alias that gives the underlying type.
    pub alias: usize,
    /// Variant names and rendered values.
    pub variants: Vec<(String, String)>,
}

pub proof fn lemma_pair_asymmetric(a: (Seq<char>, Seq<char>), b: (Seq<char>, Seq<char>))
    ensures
        !(pair_lt(a, b) && pair_lt(b, a)),
        !pair_lt(a, a),
{
    lemma_lex_asymmetric(a.1, b.1);
    lemma_lex_asymmetric(a.0, b.0);
    lemma_lex_irreflexive(a.0);
    lemma_lex_irreflexive(a.1);
}

pub proof fn lemma_pair_transitive(a: (Seq<char>, Seq<char>), b: (Seq<char>, Seq<char>), c: (Seq<char>, Seq<char>))
    requires
        pair_lt(a, b),
        pair_lt(b, c),
    ensures
        pair_lt(a, c),
{
    if lex_lt(a.1, b.1) && lex_lt(b.1, c.1) {
        lemma_lex_transitive(a.1, b.1, c.1);
    } else if lex_lt(a.0, b.0) && lex_lt(b.0, c.0) {
        lemma_lex_transitive(a.0, b.0, c.0);
    }
}

/// A sorted listing of a map's entries is unique.
pub proof fn lemma_listing_unique(a: Seq<(Seq<char>, Seq<char>)>, b: Seq<(Seq<char>, Seq<char>)>, m: Map<Seq<char>, Seq<char>>)
    requires
        pairs_sorted(a),
        pairs_sorted(b),
        listing_of(a, m),
        listing_of(b, m),
    ensures
        a == b,
    decreases a.len(),
{
    if a.len() == 0 {
        if b.len() > 0 {
            assert(m.contains_key(b[0].0));
        }
        assert(a =~= b);
    } else {
        assert(m.contains_key(a[0].0));
        let j = choose|j: int| 0 <= j < b.len() && (#[trigger] b[j]).0 == a[0].0;
        assert(b[j] == a[0]);
        assert(m.contains_key(b[0].0));
        let i = choose|i: int| 0 <= i < a.len() && (#[trigger] a[i]).0 == b[0].0;
        assert(a[i] == b[0]);
        if a[0] != b[0] {
            assert(i != 0 && j != 0);
            assert(pair_lt(a[0], a[i]));
            assert(pair_lt(b[0], b[j]));
            lemma_pair_asymmetric(a[0], b[0]);
        }
        let m2 = m.remove(a[0].0);
        let a2 = a.drop_first();
        let b2 = b.drop_first();
        assert(listing_of(a2, m2)) by {
            assert forall|k: Seq<char>| #[trigger] m2.contains_key(k) implies exists|x: int| 0 <= x < a2.len() && (#[trigger] a2[x]).0 == k by {
                let x = choose|x: int| 0 <= x < a.len() && (#[trigger] a[x]).0 == k;
                assert(x != 0);
                assert(a2[x - 1].0 == k);
            }
            assert forall|x: int| 0 <= x < a2.len() implies m2.contains_key((#[trigger] a2[x]).0) && m2[a2[x].0] == a2[x].1 by {
                assert(a[x + 1].0 != a[0].0);
            }
            assert forall|x: int, y: int| 0 <= x < y < a2.len() implies (#[trigger] a2[x]).0 != (#[trigger] a2[y]).0 by {
                assert(a[x + 1].0 != a[y + 1].0);
            }
        }
        assert(listing_of(b2, m2)) by {
            assert forall|k: Seq<char>| #[trigger] m2.contains_key(k) implies exists|x: int| 0 <= x < b2.len() && (#[trigger] b2[x]).0 == k by {
                let x = choose|x: int| 0 <= x < b.len() && (#[trigger] b[x]).0 == k;
                assert(x != 0);
                assert(b2[x - 1].0 == k);
            }
            assert forall|x: int| 0 <= x < b2.len() implies m2.contains_key((#[trigger] b2[x]).0) && m2[b2[x].0] == b2[x].1 by {
                assert(b[x + 1].0 != b[0].0);
            }
            assert forall|x: int, y: int| 0 <= x < y < b2.len() implies (#[trigger] b2[x]).0 != (#[trigger] b2[y]).0 by {
                assert(b[x + 1].0 != b[y + 1].0);
            }
        }
        assert(pairs_sorted(a2)) by {
            assert forall|x: int, y: int| 0 <= x < y < a2.len() implies pair_lt(#[trigger] a2[x], #[trigger] a2[y]) by {
                assert(pair_lt(a[x + 1], a[y + 1]));
            }
        }
        assert(pairs_sorted(b2)) by {
            assert forall|x: int, y: int| 0 <= x < y < b2.len() implies pair_lt(#[trigger] b2[x], #[trigger] b2[y]) by {
                assert(pair_lt(b[x + 1], b[y + 1]));
            }
        }
        lemma_listing_unique(a2, b2, m2);
        assert(a =~= seq![a[0]] + a2);
        assert(b =~= seq![b[0]] + b2);
    }
}

pub proof fn lemma_last_alias(aliases: Seq<AliasDecl>, t: Seq<char>)
    ensures
        last_alias(aliases, t) matches Some(i) ==> 0 <= i < aliases.len() && aliases[i].name@ == t,
    decreases aliases.len(),
{
    if aliases.len() > 0 {
        lemma_last_alias(aliases.drop_last(), t);
    }
}

/// Finds the last alias declared under the name `t`.
pub fn find_alias(aliases: &Vec<AliasDecl>, t: &str) -> (r: Option<usize>)
    ensures
        match r {
            Some(i) => last_alias(aliases@, t@) == Some(i as int),
            None => last_alias(aliases@, t@) is None,
        },
{
    let mut found: Option<usize> = None;
    let mut i: usize = 0;
    while i < aliases.len()
        invariant
            0 <= i <= aliases.len(),
            match found {
                Some(x) => last_alias(aliases@.take(i as int), t@) == Some(x as int),
                None => last_alias(aliases@.take(i as int), t@) is None,
            },
        decreases aliases.len() - i,
    {
        assert(aliases@.take(i + 1).drop_last() =~= aliases@.take(i as int));
        if str_eq(aliases[i].name.as_str(), t) {
            found = Some(i);
        }
        i = i + 1;
    }
    assert(aliases@.take(aliases.len() as int) =~= aliases@);
    found
}

/// The variant name that `name` carries under the owner `t`, if any.
pub fn variant_name(name: &str, t: &str) -> (r: Option<String>)
    ensures
        match r {
            Some(v) => variant_of(name@, t@) == Some(v@),
            None => variant_of(name@, t@) is None,
        },
{
    let nl = name.unicode_len();
    let tl = t.unicode_len();
    if nl > tl && nl - tl > 1 {
        let pre = name.substring_char(0, tl);
        if str_eq(pre, t) && name.get_char(tl) == '_' {
            return Some(String::from_str(name.substring_char(tl + 1, nl)));
        }
    }
    None
}

/// Owner and variant name of a constant that belongs to an enum group.
pub fn const_membership(c: &ConstDecl, aliases: &Vec<AliasDecl>) -> (r: Option<(String, String)>)
    ensures
        match r {
            Some(p) => membership(*c, aliases@) == Some((p.0@, p.1@)),
            None => membership(*c, aliases@) is None,
        },
{
    match &c.ty {
        TypeRef::Named(p) => {
            if p.len() != 1 {
                return None;
            }
            let t = &p[0];
            match find_alias(aliases, t.as_str()) {
                None => None,
                Some(_) => match variant_name(c.name.as_str(), t.as_str()) {
                    Some(v) => Some((t.clone(), v)),
                    None => None,
                },
            }
        },
        _ => None,
    }
}

fn pair_less(a: &(String, String), b: &(String, String)) -> (r: bool)
    ensures
        r == pair_lt((a.0@, a.1@), (b.0@, b.1@)),
{
    let c = compare_str(a.1.as_str(), b.1.as_str());
    if c < 0 {
        true
    } else if c > 0 {
        false
    } else {
        compare_str(a.0.as_str(), b.0.as_str()) < 0
    }
}

/// Sorts variants by rendered value, then by name.
fn sort_variants(v: Vec<(String, String)>, m: Ghost<Map<Seq<char>, Seq<char>>>) -> (r: Vec<(String, String)>)
    requires
        listing_of(pair_views(v@), m@),
    ensures
        pairs_sorted(pair_views(r@)),
        listing_of(pair_views(r@), m@),
        pair_views(r@) == variant_listing(m@),
{
    let mut out: Vec<(String, String)> = Vec::new();
    let mut i: usize = 0;
    while i < v.len()
        invariant
            0 <= i <= v.len(),
            listing_of(pair_views(v@), m@),
            pairs_sorted(pair_views(out@)),
            pair_views(out@).to_set() == pair_views(v@.take(i as int)).to_set(),
            out@.len() == i,
        decreases v.len() - i,
    {
        let x = (v[i].0.clone(), v[i].1.clone());
        let ghost xv = (x.0@, x.1@);
        assert(xv == pair_views(v@)[i as int]);
        let mut j: usize = 0;
        let mut go = true;
        while go && j < out.len()
            invariant
                0 <= j <= out.len(),
                xv == (x.0@, x.1@),
                pairs_sorted(pair_views(out@)),
                forall|k: int| 0 <= k < j ==> pair_lt(#[trigger] pair_views(out@)[k], xv),
                !go ==> j < out.len() && !pair_lt(pair_views(out@)[j as int], xv),
            decreases out.len() - j + (if go { 1int } else { 0int }),
        {
            assert(pair_views(out@)[j as int] == (out@[j as int].0@, out@[j as int].1@));
            if pair_less(&out[j], &x) {
                j = j + 1;
            } else {
                go = false;
            }
        }
        let ghost old_out = pair_views(out@);
        proof {
            if j < out.len() {
                let y = old_out[j as int];
                assert(y == pair_views(out@)[j as int]);
                assert(old_out.to_set().contains(y));
                let tk = pair_views(v@.take(i as int));
                assert(tk.to_set().contains(y));
                let q = choose|q: int| 0 <= q < tk.len() && tk[q] == y;
                assert(tk[q] == pair_views(v@)[q]);
                assert(pair_views(v@)[q].0 != pair_views(v@)[i as int].0);
                lemma_lex_total(xv.1, y.1);
                lemma_lex_total(xv.0, y.0);
                assert(pair_lt(xv, y));
            }
        }
        out.insert(j, x);
        proof {
            let nv = pair_views(out@);
            assert(nv =~= old_out.insert(j as int, xv));
            assert forall|p: int, q: int| 0 <= p < q < nv.len() implies pair_lt(#[trigger] nv[p], #[trigger] nv[q]) by {
                if q == j {
                    assert(pair_lt(old_out[p], xv));
                } else if p == j {
                    if q - 1 > j {
                        assert(pair_lt(old_out[j as int], old_out[q - 1]));
                        lemma_pair_transitive(xv, old_out[j as int], old_out[q - 1]);
                    }
                } else if p < j && q > j {
                    assert(pair_lt(old_out[p], xv));
                    if q - 1 > j {
                        assert(pair_lt(old_out[j as int], old_out[q - 1]));
                        lemma_pair_transitive(xv, old_out[j as int], old_out[q - 1]);
                    }
                    lemma_pair_transitive(old_out[p], xv, old_out[q - 1]);
                } else if q < j {
                    assert(pair_lt(old_out[p], old_out[q]));
                } else {
                    assert(pair_lt(old_out[p - 1], old_out[q - 1]));
                }
            }
            let t0 = pair_views(v@.take(i as int));
            let t1 = pair_views(v@.take(i + 1));
            assert(t1 =~= t0.push(xv));
            assert(t1.to_set() =~= t0.to_set().insert(xv)) by {
                assert forall|e| t1.to_set().contains(e) <==> t0.to_set().insert(xv).contains(e) by {
                    if t1.to_set().contains(e) {
                        let k = choose|k: int| 0 <= k < t1.len() && t1[k] == e;
                        if k < i {
                            assert(t0[k] == e);
                        }
                    }
                    if t0.to_set().contains(e) {
                        let k = choose|k: int| 0 <= k < t0.len() && t0[k] == e;
                        assert(t1[k] == e);
                    }
                    if e == xv {
                        assert(t1[i as int] == e);
                    }
                }
            }
            assert(nv.to_set() =~= old_out.to_set().insert(xv)) by {
                assert forall|e| nv.to_set().contains(e) <==> old_out.to_set().insert(xv).contains(e) by {
                    if nv.to_set().contains(e) {
                        let k = choose|k: int| 0 <= k < nv.len() && nv[k] == e;
                        if k < j {
                            assert(old_out[k] == e);
                        } else if k > j {
                            assert(old_out[k - 1] == e);
                        }
                    }
                    if old_out.to_set().contains(e) {
                        let k = choose|k: int| 0 <= k < old_out.len() && old_out[k] == e;
                        if k < j {
                            assert(nv[k] == e);
                        } else {
                            assert(nv[k + 1] == e);
                        }
                    }
                    if e == xv {
                        assert(nv[j as int] == e);
                    }
                }
            }
        }
        i = i + 1;
    }
    proof {
        let a = pair_views(v@);
        let r = pair_views(out@);
        assert(a.take(v.len() as int) =~= a);
        assert(v@.take(v.len() as int) =~= v@);
        assert(listing_of(r, m@)) by {
            assert forall|x: int| 0 <= x < r.len() implies m@.contains_key((#[trigger] r[x]).0) && m@[r[x].0] == r[x].1 by {
                assert(r.to_set().contains(r[x]));
                let k = choose|k: int| 0 <= k < a.len() && a[k] == r[x];
            }
            assert forall|k: Seq<char>| #[trigger] m@.contains_key(k) implies exists|x: int| 0 <= x < r.len() && (#[trigger] r[x]).0 == k by {
                let y = choose|y: int| 0 <= y < a.len() && (#[trigger] a[y]).0 == k;
                assert(a.to_set().contains(a[y]));
                let x = choose|x: int| 0 <= x < r.len() && r[x] == a[y];
                assert(r[x].0 == k);
            }
            assert forall|x: int, y: int| 0 <= x < y < r.len() implies (#[trigger] r[x]).0 != (#[trigger] r[y]).0 by {
                assert(pair_lt(r[x], r[y]));
                if r[x].0 == r[y].0 {
                    assert(r.to_set().contains(r[x]));
                    assert(r.to_set().contains(r[y]));
                    let kx = choose|k: int| 0 <= k < a.len() && a[k] == r[x];
                    let ky = choose|k: int| 0 <= k < a.len() && a[k] == r[y];
                    if kx != ky {
                        assert(a[kx].0 != a[ky].0 || kx == ky);
                    }
                    lemma_pair_asymmetric(r[x], r[y]);
                }
            }
        }
        lemma_listing_unique(r, variant_listing(m@), m@);
    }
    out
}

fn upsert_variant(vs: &mut Vec<(String, String)>, k: String, val: String, m: Ghost<Map<Seq<char>, Seq<char>>>)
    requires
        listing_of(pair_views(old(vs)@), m@),
    ensures
        listing_of(pair_views(final(vs)@), m@.insert(k@, val@)),
        final(vs)@.len() > 0,
{
    let ghost m2 = m@.insert(k@, val@);
    let mut j: usize = 0;
    while j < vs.len()
        invariant
            0 <= j <= vs.len(),
            vs@ == old(vs)@,
            m2 == m@.insert(k@, val@),
            listing_of(pair_views(vs@), m@),
            forall|q: int| 0 <= q < j ==> (#[trigger] pair_views(vs@)[q]).0 != k@,
        decreases vs.len() - j,
    {
        assert(pair_views(vs@)[j as int].0 == vs@[j as int].0@);
        if str_eq(vs[j].0.as_str(), k.as_str()) {
            let ghost old_v = pair_views(vs@);
            vs.set(j, (k, val));
            proof {
                let nv = pair_views(vs@);
                assert(nv =~= old_v.update(j as int, (k@, val@)));
                assert forall|kk: Seq<char>| #[trigger] m2.contains_key(kk) implies exists|x: int| 0 <= x < nv.len() && (#[trigger] nv[x]).0 == kk by {
                    if kk != k@ {
                        assert(m@.contains_key(kk));
                        let x = choose|x: int| 0 <= x < old_v.len() && (#[trigger] old_v[x]).0 == kk;
                        assert(old_v[j as int].0 == k@);
                        assert(nv[x].0 == kk);
                    } else {
                        assert(nv[j as int].0 == kk);
                    }
                }
                assert forall|x: int, y: int| 0 <= x < y < nv.len() implies (#[trigger] nv[x]).0 != (#[trigger] nv[y]).0 by {
                    assert(old_v[x].0 != old_v[y].0);
                }
            }
            return;
        }
        j = j + 1;
    }
    let ghost old_v = pair_views(vs@);
    vs.push((k, val));
    proof {
        let nv = pair_views(vs@);
        assert(nv =~= old_v.push((k@, val@)));
        assert forall|kk: Seq<char>| #[trigger] m2.contains_key(kk) implies exists|x: int| 0 <= x < nv.len() && (#[trigger] nv[x]).0 == kk by {
            if kk != k@ {
                assert(m@.contains_key(kk));
                let x = choose|x: int| 0 <= x < old_v.len() && (#[trigger] old_v[x]).0 == kk;
                assert(nv[x].0 == kk);
            } else {
                assert(nv[old_v.len() as int].0 == kk);
            }
        }
        assert forall|x: int, y: int| 0 <= x < y < nv.len() implies (#[trigger] nv[x]).0 != (#[trigger] nv[y]).0 by {
            if y < old_v.len() {
                assert(old_v[x].0 != old_v[y].0);
            } else {
                assert(old_v[x].0 != k@);
            }
        }
    }
}

/// What a list of enum groups states of the declarations it was found in.
pub open spec fn groups_of(d: DeclSet, gs: Seq<EnumGroup>) -> bool {
    &&& forall|x: int, y: int| 0 <= x < y < gs.len() ==> (#[trigger] gs[x]).owner@ != (#[trigger] gs[y]).owner@
    &&& forall|x: int| #![trigger gs[x]] 0 <= x < gs.len() ==> {
        &&& last_alias(d.aliases@, gs[x].owner@) == Some(gs[x].alias as int)
        &&& is_enum_owner(d, gs[x].owner@)
        &&& pair_views(gs[x].variants@) == variant_listing(variant_map(d.constants@, d.aliases@, gs[x].owner@))
    }
    &&& forall|t: Seq<char>| #[trigger] is_enum_owner(d, t) ==> exists|x: int| 0 <= x < gs.len() && (#[trigger] gs[x]).owner@ == t
}

proof fn lemma_listing_nonempty(ps: Seq<(Seq<char>, Seq<char>)>, m: Map<Seq<char>, Seq<char>>)
    requires
        listing_of(ps, m),
    ensures
        (ps.len() > 0) == (m.dom() != Set::<Seq<char>>::empty()),
{
    if ps.len() > 0 {
        assert(m.dom().contains(ps[0].0));
    }
    if m.dom() != Set::<Seq<char>>::empty() {
        if !(exists|k: Seq<char>| m.dom().contains(k)) {
            assert(m.dom() =~= Set::<Seq<char>>::empty());
        }
        let k = choose|k: Seq<char>| m.dom().contains(k);
        assert(m.contains_key(k));
    } else {
        if ps.len() > 0 {
            assert(m.dom().contains(ps[0].0));
        }
    }
}

/// Finds the enum groups of a declaration set, each with its variants in
/// variant order.
pub fn find_enums(d: &DeclSet) -> (r: Vec<EnumGroup>)
    ensures
        groups_of(*d, r@),
{
    let cs = &d.constants;
    let als = &d.aliases;
    let mut groups: Vec<EnumGroup> = Vec::new();
    let mut i: usize = 0;
    while i < cs.len()
        invariant
            0 <= i <= cs.len(),
            cs == &d.constants,
            als == &d.aliases,
            forall|x: int, y: int| 0 <= x < y < groups@.len() ==> (#[trigger] groups@[x]).owner@ != (#[trigger] groups@[y]).owner@,
            forall|x: int| #![trigger groups@[x]] 0 <= x < groups@.len() ==> {
                &&& last_alias(als@, groups@[x].owner@) == Some(groups@[x].alias as int)
                &&& groups@[x].variants@.len() > 0
                &&& listing_of(pair_views(groups@[x].variants@), variant_map(cs@.take(i as int), als@, groups@[x].owner@))
            },
            forall|t: Seq<char>| variant_map(cs@.take(i as int), als@, t).dom() != Set::<Seq<char>>::empty()
                ==> exists|x: int| 0 <= x < groups@.len() && (#[trigger] groups@[x]).owner@ == t,
        decreases cs.len() - i,
    {
        let ghost pre = cs@.take(i as int);
        let ghost post = cs@.take(i + 1);
        assert(post.drop_last() =~= pre);
        assert(post.last() == cs@[i as int]);
        match const_membership(&cs[i], als) {
            None => {
                assert forall|t: Seq<char>| variant_map(post, als@, t) == variant_map(pre, als@, t) by {}
            },
            Some((t, v)) => {
                let value = render_lit(cs[i].value);
                let mut gi: usize = 0;
                let mut found = false;
                while !found && gi < groups.len()
                    invariant
                        0 <= gi <= groups.len(),
                        forall|x: int| 0 <= x < gi ==> (#[trigger] groups@[x]).owner@ != t@,
                        found ==> gi < groups.len() && groups@[gi as int].owner@ == t@,
                    decreases groups.len() - gi + (if found { 0int } else { 1int }),
                {
                    if str_eq(groups[gi].owner.as_str(), t.as_str()) {
                        found = true;
                    } else {
                        gi = gi + 1;
                    }
                }
                let ghost old_groups = groups@;
                assert forall|u: Seq<char>| u != t@ implies variant_map(post, als@, u) == variant_map(pre, als@, u) by {}
                assert(variant_map(post, als@, t@) == variant_map(pre, als@, t@).insert(v@, value@));
                if found {
                    let mut g = groups.remove(gi);
                    upsert_variant(&mut g.variants, v, value, Ghost(variant_map(pre, als@, t@)));
                    groups.insert(gi, g);
                    proof {
                        assert(groups@ =~= old_groups.update(gi as int, groups@[gi as int]));
                        assert(groups@[gi as int].owner@ == old_groups[gi as int].owner@);
                        assert forall|x: int, y: int| 0 <= x < y < groups@.len() implies (#[trigger] groups@[x]).owner@ != (#[trigger] groups@[y]).owner@ by {
                            assert(old_groups[x].owner@ != old_groups[y].owner@);
                        }
                        assert forall|u: Seq<char>| variant_map(post, als@, u).dom() != Set::<Seq<char>>::empty()
                            implies exists|x: int| 0 <= x < groups@.len() && (#[trigger] groups@[x]).owner@ == u by {
                            if u != t@ {
                                let x = choose|x: int| 0 <= x < old_groups.len() && (#[trigger] old_groups[x]).owner@ == u;
                                assert(groups@[x].owner@ == u);
                            } else {
                                assert(groups@[gi as int].owner@ == u);
                            }
                        }
                    }
                } else {
                    let alias = match find_alias(als, t.as_str()) {
                        Some(a) => a,
                        None => {
                            assert(false);
                            0
                        },
                    };
                    let mut vs: Vec<(String, String)> = Vec::new();
                    assert(gi == groups.len());
                    proof {
                        if variant_map(pre, als@, t@).dom() != Set::<Seq<char>>::empty() {
                            let x = choose|x: int| 0 <= x < groups@.len() && (#[trigger] groups@[x]).owner@ == t@;
                            assert(groups@[x].owner@ != t@);
                        }
                    }
                    assert(listing_of(pair_views(vs@), variant_map(pre, als@, t@)));
                    upsert_variant(&mut vs, v, value, Ghost(variant_map(pre, als@, t@)));
                    groups.push(EnumGroup { owner: t, alias, variants: vs });
                    proof {
                        let n = old_groups.len() as int;
                        assert(groups@ =~= old_groups.push(groups@[n]));
                        assert forall|x: int, y: int| 0 <= x < y < groups@.len() implies (#[trigger] groups@[x]).owner@ != (#[trigger] groups@[y]).owner@ by {
                            if y == n {
                                assert(old_groups[x].owner@ != t@);
                            } else {
                                assert(old_groups[x].owner@ != old_groups[y].owner@);
                            }
                        }
                        assert forall|u: Seq<char>| variant_map(post, als@, u).dom() != Set::<Seq<char>>::empty()
                            implies exists|x: int| 0 <= x < groups@.len() && (#[trigger] groups@[x]).owner@ == u by {
                            if u != t@ {
                                let x = choose|x: int| 0 <= x < old_groups.len() && (#[trigger] old_groups[x]).owner@ == u;
                                assert(groups@[x].owner@ == u);
                            } else {
                                assert(groups@[n].owner@ == u);
                            }
                        }
                    }
                }
            },
        }
        i = i + 1;
    }
    assert(cs@.take(cs.len() as int) =~= cs@);
    let mut out: Vec<EnumGroup> = Vec::new();
    let n = groups.len();
    let ghost all = groups@;
    while groups.len() > 0
        invariant
            groups@.len() <= n,
            all.len() == n,
            cs == &d.constants,
            als == &d.aliases,
            groups@ == all.take(groups@.len() as int),
            out@.len() == n - groups@.len(),
            forall|x: int| 0 <= x < out@.len() ==> #[trigger] out@[x].owner@ == all[n - 1 - x].owner@
                && out@[x].alias == all[n - 1 - x].alias
                && pair_views(out@[x].variants@) == variant_listing(variant_map(cs@, als@, out@[x].owner@)),
            forall|x: int| #![trigger all[x]] 0 <= x < all.len() ==> {
                &&& all[x].variants@.len() > 0
                &&& listing_of(pair_views(all[x].variants@), variant_map(cs@, als@, all[x].owner@))
            },
        decreases groups@.len(),
    {
        let ghost k = groups@.len() - 1;
        let g = groups.pop().unwrap();
        assert(g == all[k]);
        let ghost m = variant_map(cs@, als@, g.owner@);
        let variants = sort_variants(g.variants, Ghost(m));
        out.push(EnumGroup { owner: g.owner, alias: g.alias, variants });
        assert(groups@ =~= all.take(k));
    }
    proof {
        assert forall|x: int| #![trigger out@[x]] 0 <= x < out@.len() implies is_enum_owner(*d, out@[x].owner@) by {
            lemma_listing_nonempty(pair_views(all[n - 1 - x].variants@), variant_map(cs@, als@, all[n - 1 - x].owner@));
        }
        assert forall|t: Seq<char>| #[trigger] is_enum_owner(*d, t) implies exists|x: int| 0 <= x < out@.len() && (#[trigger] out@[x]).owner@ == t by {
            let y = choose|y: int| 0 <= y < all.len() && (#[trigger] all[y]).owner@ == t;
            assert(out@[n - 1 - y].owner@ == t);
        }
        assert forall|x: int, y: int| 0 <= x < y < out@.len() implies (#[trigger] out@[x]).owner@ != (#[trigger] out@[y]).owner@ by {
            assert(all[n - 1 - y].owner@ != all[n - 1 - x].owner@);
        }
    }
    out
}

} // verus!
