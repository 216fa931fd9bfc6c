//! Validation of references between definitions, reachability from entry
//! types, and assembly of the output text.
use vstd::prelude::*;

use crate::entities::{build_entities, entities_of, entity_map, entity_view, ignored, is_ignored, Entity, EntityModel};
use crate::model::DeclSet;
use crate::text::{sort_strings, sorted_lex, str_eq, views};

verus! {

broadcast use vstd::seq_lib::group_to_multiset_ensures;

/// A name that a definition depends on, that no definition has, and that is
/// not one of the ignored helper types.
pub open spec fn is_unresolved(m: Map<Seq<char>, EntityModel>, n: Seq<char>) -> bool {
    &&& !m.contains_key(n)
    &&& !is_ignored(n)
    &&& exists|k: Seq<char>| #[trigger] m.contains_key(k) && m[k].1.contains(n)
}

pub open spec fn unresolved(m: Map<Seq<char>, EntityModel>) -> Set<Seq<char>> {
    Set::new(|n: Seq<char>| is_unresolved(m, n))
}

/// Looks up a definition by name.
pub fn find_entity(es: &Vec<Entity>, name: &str) -> (r: Option<usize>)
    ensures
        match r {
            Some(i) => i < es@.len() && es@[i as int].name@ == name@,
            None => forall|i: int| 0 <= i < es@.len() ==> (#[trigger] es@[i]).name@ != name@,
        },
{
    let mut i: usize = 0;
    while i < es.len()
        invariant
            0 <= i <= es.len(),
            forall|q: int| 0 <= q < i ==> (#[trigger] es@[q]).name@ != name@,
        decreases es.len() - i,
    {
        if str_eq(es[i].name.as_str(), name) {
            return Some(i);
        }
        i = i + 1;
    }
    None
}

fn contains_str(v: &Vec<String>, s: &str) -> (r: bool)
    ensures
        r == views(v@).contains(s@),
{
    let mut i: usize = 0;
    while i < v.len()
        invariant
            0 <= i <= v.len(),
            forall|q: int| 0 <= q < i ==> (#[trigger] v@[q])@ != s@,
        decreases v.len() - i,
    {
        if str_eq(v[i].as_str(), s) {
            assert(views(v@)[i as int] == s@);
            return true;
        }
        i = i + 1;
    }
    assert forall|q: int| 0 <= q < views(v@).len() implies views(v@)[q] != s@ by {
        assert(views(v@)[q] == v@[q]@);
    }
    false
}

/// Lists, sorted and once each, the names that the definitions depend on
/// but that are neither defined nor ignored.
fn unresolved_names(es: &Vec<Entity>, m: Ghost<Map<Seq<char>, EntityModel>>) -> (r: Vec<String>)
    requires
        entities_of(es@, m@),
    ensures
        sorted_lex(views(r@)),
        views(r@).no_duplicates(),
        views(r@).to_set() == unresolved(m@),
{
    let mut missing: Vec<String> = Vec::new();
    let mut i: usize = 0;
    while i < es.len()
        invariant
            0 <= i <= es.len(),
            entities_of(es@, m@),
            views(missing@).no_duplicates(),
            forall|n: Seq<char>| #[trigger] views(missing@).contains(n) ==> is_unresolved(m@, n),
            forall|x: int, n: Seq<char>| 0 <= x < i && #[trigger] views(es@[x].deps@).contains(n)
                && is_unresolved(m@, n) ==> views(missing@).contains(n),
        decreases es.len() - i,
    {
        let deps = &es[i].deps;
        let mut j: usize = 0;
        while j < deps.len()
            invariant
                0 <= j <= deps.len(),
                i < es.len(),
                deps == &es@[i as int].deps,
                entities_of(es@, m@),
                views(missing@).no_duplicates(),
                forall|n: Seq<char>| #[trigger] views(missing@).contains(n) ==> is_unresolved(m@, n),
                forall|x: int, n: Seq<char>| 0 <= x < i && #[trigger] views(es@[x].deps@).contains(n)
                    && is_unresolved(m@, n) ==> views(missing@).contains(n),
                forall|y: int| 0 <= y < j && is_unresolved(m@, (#[trigger] deps@[y])@) ==> views(missing@).contains(deps@[y]@),
            decreases deps.len() - j,
        {
            let dn = &deps[j];
            assert(views(deps@)[j as int] == dn@);
            assert(m@.contains_key(es@[i as int].name@));
            assert(m@[es@[i as int].name@].1.contains(dn@));
            let defined = find_entity(es, dn.as_str());
            if defined.is_none() && !ignored(dn.as_str()) && !contains_str(&missing, dn.as_str()) {
                proof {
                    if m@.contains_key(dn@) {
                        let q = choose|q: int| 0 <= q < es@.len() && (#[trigger] es@[q]).name@ == dn@;
                    }
                    assert(is_unresolved(m@, dn@));
                }
                let ghost old_m = views(missing@);
                missing.push(dn.clone());
                proof {
                    assert(views(missing@) =~= old_m.push(dn@));
                    assert forall|n: Seq<char>| #[trigger] old_m.contains(n) implies views(missing@).contains(n) by {
                        let q = choose|q: int| 0 <= q < old_m.len() && old_m[q] == n;
                        assert(views(missing@)[q] == n);
                    }
                    assert(views(missing@)[old_m.len() as int] == dn@);
                    assert forall|n: Seq<char>| #[trigger] views(missing@).contains(n) implies is_unresolved(m@, n) by {
                        let q = choose|q: int| 0 <= q < views(missing@).len() && views(missing@)[q] == n;
                        if q < old_m.len() {
                            assert(old_m[q] == n);
                            assert(old_m.contains(n));
                        }
                    }
                }
            } else {
                proof {
                    if defined.is_some() {
                        assert(m@.contains_key(dn@));
                    }
                }
            }
            j = j + 1;
        }
        proof {
            assert forall|x: int, n: Seq<char>| 0 <= x < i + 1 && #[trigger] views(es@[x].deps@).contains(n)
                && is_unresolved(m@, n) implies views(missing@).contains(n) by {
                if x == i {
                    let y = choose|y: int| 0 <= y < views(deps@).len() && views(deps@)[y] == n;
                    assert(deps@[y]@ == n);
                }
            }
        }
        i = i + 1;
    }
    proof {
        assert forall|n: Seq<char>| is_unresolved(m@, n) implies views(missing@).contains(n) by {
            let k = choose|k: Seq<char>| #[trigger] m@.contains_key(k) && m@[k].1.contains(n);
            let x = choose|x: int| 0 <= x < es@.len() && (#[trigger] es@[x]).name@ == k;
            assert(views(es@[x].deps@).contains(n));
        }
        assert(views(missing@).to_set() =~= unresolved(m@));
    }
    let ghost before = views(missing@);
    let r = sort_strings(missing);
    proof {
        let after = views(r@);
        before.lemma_multiset_has_no_duplicates();
        assert forall|x: Seq<char>| after.to_multiset().contains(x) implies after.to_multiset().count(x) == 1 by {
        }
        after.lemma_multiset_has_no_duplicates_conv();
        assert forall|x: Seq<char>| after.contains(x) <==> before.contains(x) by {
            assert(after.to_multiset().count(x) == before.to_multiset().count(x));
        }
        assert(after.to_set() =~= before.to_set());
    }
    r
}

/// `p` follows dependencies from an entry name: each name but the last has a
/// definition that depends on the next.
pub open spec fn is_walk(m: Map<Seq<char>, EntityModel>, entries: Seq<Seq<char>>, p: Seq<Seq<char>>) -> bool {
    &&& p.len() > 0
    &&& entries.contains(p[0])
    &&& forall|k: int| 0 <= k < p.len() - 1 ==> m.contains_key(#[trigger] p[k]) && m[p[k]].1.contains(p[k + 1])
}

pub open spec fn walkable(m: Map<Seq<char>, EntityModel>, entries: Seq<Seq<char>>, n: Seq<char>) -> bool {
    exists|p: Seq<Seq<char>>| #[trigger] is_walk(m, entries, p) && p.last() == n
}

/// The defined names that a walk from the entry names reaches.
pub open spec fn reachable(m: Map<Seq<char>, EntityModel>, entries: Seq<Seq<char>>) -> Set<Seq<char>> {
    Set::new(|n: Seq<char>| m.contains_key(n) && walkable(m, entries, n))
}

spec fn pending(es: Seq<Entity>, ex: Seq<bool>, k: int) -> nat
    decreases k,
{
    if k <= 0 {
        0
    } else {
        pending(es, ex, k - 1) + if !ex[k - 1] {
            es[k - 1].deps@.len()
        } else {
            0
        }
    }
}

proof fn lemma_pending_update(es: Seq<Entity>, ex: Seq<bool>, i: int, k: int)
    requires
        0 <= i < ex.len(),
        !ex[i],
        0 <= k <= ex.len(),
    ensures
        pending(es, ex.update(i, true), k) + (if i < k { es[i].deps@.len() } else { 0 }) == pending(es, ex, k),
    decreases k,
{
    if k > 0 {
        lemma_pending_update(es, ex, i, k - 1);
    }
}

spec fn covered(es: Seq<Entity>, ex: Seq<bool>, stack: Seq<Seq<char>>, m: Map<Seq<char>, EntityModel>, n: Seq<char>) -> bool {
    stack.contains(n) || !m.contains_key(n) || exists|i: int| 0 <= i < es.len() && ex[i] && (#[trigger] es[i]).name@ == n
}

proof fn lemma_closed(es: Seq<Entity>, ex: Seq<bool>, m: Map<Seq<char>, EntityModel>, entries: Seq<Seq<char>>, p: Seq<Seq<char>>, k: int)
    requires
        entities_of(es, m),
        ex.len() == es.len(),
        is_walk(m, entries, p),
        m.contains_key(p.last()),
        0 <= k < p.len(),
        forall|n: Seq<char>| #[trigger] entries.contains(n) ==> covered(es, ex, Seq::empty(), m, n),
        forall|i: int, n: Seq<char>| 0 <= i < es.len() && ex[i] && #[trigger] views(es[i].deps@).contains(n) ==> covered(es, ex, Seq::empty(), m, n),
    ensures
        exists|i: int| 0 <= i < es.len() && ex[i] && (#[trigger] es[i]).name@ == p[k],
    decreases k,
{
    let empty = Seq::<Seq<char>>::empty();
    if k == 0 {
        assert(covered(es, ex, empty, m, p[0]));
        assert(m.contains_key(p[0]));
    } else {
        lemma_closed(es, ex, m, entries, p, k - 1);
        let i = choose|i: int| 0 <= i < es.len() && ex[i] && (#[trigger] es[i]).name@ == p[k - 1];
        assert(m.contains_key(p[k - 1]) && m[p[k - 1]].1.contains(p[k]));
        assert(m[es[i].name@] == entity_view(es[i]));
        assert(views(es[i].deps@).contains(p[k]));
        assert(covered(es, ex, empty, m, p[k]));
        if k < p.len() - 1 {
            assert(m.contains_key(p[k]));
        }
    }
}

/// Walks dependencies from the entry names, last pushed first, and collects
/// the code of each defined name reached, once.
fn reach(es: &Vec<Entity>, entries: &Vec<String>, m: Ghost<Map<Seq<char>, EntityModel>>) -> (r: (Vec<String>, Ghost<Seq<int>>))
    requires
        entities_of(es@, m@),
    ensures
        r.1@.no_duplicates(),
        forall|x: int| 0 <= x < r.1@.len() ==> 0 <= #[trigger] r.1@[x] < es@.len(),
        views(r.0@) == r.1@.map_values(|i: int| es@[i].code@),
        r.1@.map_values(|i: int| es@[i].name@).to_set() == reachable(m@, views(entries@)),
{
    let ghost ents = views(entries@);
    let mut stack: Vec<String> = Vec::new();
    let mut k: usize = 0;
    while k < entries.len()
        invariant
            0 <= k <= entries.len(),
            ents == views(entries@),
            views(stack@) == ents.take(k as int),
        decreases entries.len() - k,
    {
        let ghost old_s = views(stack@);
        let e = entries[k].clone();
        assert(ents[k as int] == entries@[k as int]@);
        stack.push(e);
        assert(views(stack@) =~= old_s.push(ents[k as int]));
        assert(ents.take(k + 1) =~= ents.take(k as int).push(ents[k as int]));
        k = k + 1;
    }
    assert(ents.take(entries.len() as int) =~= ents);
    let mut expanded: Vec<bool> = Vec::new();
    let mut k: usize = 0;
    while k < es.len()
        invariant
            0 <= k <= es.len(),
            expanded@.len() == k,
            forall|q: int| 0 <= q < k ==> !(#[trigger] expanded@[q]),
        decreases es.len() - k,
    {
        expanded.push(false);
        k = k + 1;
    }
    let mut codes: Vec<String> = Vec::new();
    let ghost mut idxs: Seq<int> = Seq::empty();
    proof {
        assert forall|n: Seq<char>| #[trigger] ents.contains(n) implies walkable(m@, ents, n) by {
            let p = seq![n];
            assert(is_walk(m@, ents, p));
        }
        assert forall|n: Seq<char>| #[trigger] ents.contains(n) implies covered(es@, expanded@, views(stack@), m@, n) by {
        }
    }
    while stack.len() > 0
        invariant
            entities_of(es@, m@),
            ents == views(entries@),
            expanded@.len() == es@.len(),
            idxs.no_duplicates(),
            forall|x: int| 0 <= x < idxs.len() ==> 0 <= #[trigger] idxs[x] < es@.len() && expanded@[idxs[x]],
            forall|i: int| 0 <= i < es@.len() && #[trigger] expanded@[i] ==> idxs.contains(i),
            views(codes@) == idxs.map_values(|i: int| es@[i].code@),
            forall|n: Seq<char>| #[trigger] views(stack@).contains(n) ==> walkable(m@, ents, n),
            forall|i: int| 0 <= i < es@.len() && #[trigger] expanded@[i] ==> walkable(m@, ents, es@[i].name@),
            forall|n: Seq<char>| #[trigger] ents.contains(n) ==> covered(es@, expanded@, views(stack@), m@, n),
            forall|i: int, n: Seq<char>| 0 <= i < es@.len() && expanded@[i] && #[trigger] views(es@[i].deps@).contains(n)
                ==> covered(es@, expanded@, views(stack@), m@, n),
        decreases pending(es@, expanded@, es@.len() as int) + stack@.len(),
    {
        let ghost s0 = views(stack@);
        let ghost ex0 = expanded@;
        let name = stack.pop().unwrap();
        let ghost s1 = views(stack@);
        assert(s1 =~= s0.drop_last());
        assert(name@ == s0.last());
        assert(s0.contains(name@));
        proof {
            assert forall|n: Seq<char>| #[trigger] s1.contains(n) implies s0.contains(n) by {
                let q = choose|q: int| 0 <= q < s1.len() && s1[q] == n;
                assert(s0[q] == n);
            }
            assert forall|n: Seq<char>| n != name@ && #[trigger] s0.contains(n) implies s1.contains(n) by {
                let q = choose|q: int| 0 <= q < s0.len() && s0[q] == n;
                assert(s1[q] == n);
            }
        }
        match find_entity(es, name.as_str()) {
            None => {
                proof {
                    assert(!m@.contains_key(name@)) by {
                        if m@.contains_key(name@) {
                            let q = choose|q: int| 0 <= q < es@.len() && (#[trigger] es@[q]).name@ == name@;
                        }
                    }
                    assert forall|n: Seq<char>| covered(es@, ex0, s0, m@, n) implies covered(es@, expanded@, s1, m@, n) by {
                    }
                }
            },
            Some(i) => {
                if expanded[i] {
                    proof {
                        assert forall|n: Seq<char>| covered(es@, ex0, s0, m@, n) implies covered(es@, expanded@, s1, m@, n) by {
                            if n == name@ {
                                assert(es@[i as int].name@ == n);
                            }
                        }
                    }
                } else {
                    proof {
                        lemma_pending_update(es@, ex0, i as int, es@.len() as int);
                    }
                    expanded.set(i, true);
                    let ghost old_codes = views(codes@);
                    let c = es[i].code.clone();
                    assert(c@ == es@[i as int].code@);
                    codes.push(c);
                    proof {
                        let old_idxs = idxs;
                        idxs = idxs.push(i as int);
                        assert(!old_idxs.contains(i as int));
                        assert(views(codes@) =~= old_codes.push(es@[i as int].code@));
                        assert(views(codes@) =~= idxs.map_values(|i: int| es@[i].code@));
                        assert forall|x: int, y: int| 0 <= x < y < idxs.len() implies idxs[x] != idxs[y] by {
                            if y == old_idxs.len() {
                                assert(old_idxs.contains(old_idxs[x]));
                            }
                        }
                        assert forall|q: int| 0 <= q < es@.len() && #[trigger] expanded@[q] implies idxs.contains(q) by {
                            if q == i {
                                assert(idxs[old_idxs.len() as int] == q);
                            } else {
                                assert(ex0[q]);
                                let x = choose|x: int| 0 <= x < old_idxs.len() && old_idxs[x] == q;
                                assert(idxs[x] == q);
                            }
                        }
                        assert forall|x: int| 0 <= x < idxs.len() implies 0 <= #[trigger] idxs[x] < es@.len() && expanded@[idxs[x]] by {
                            if x < old_idxs.len() {
                                assert(old_idxs[x] == idxs[x]);
                            }
                        }
                    }
                    let deps = &es[i].deps;
                    let ghost s_mid = views(stack@);
                    let ghost pn = choose|p: Seq<Seq<char>>| #[trigger] is_walk(m@, ents, p) && p.last() == name@;
                    proof {
                        assert(walkable(m@, ents, name@));
                    }
                    let mut j: usize = 0;
                    while j < deps.len()
                        invariant
                            0 <= j <= deps.len(),
                            i < es@.len(),
                            deps == &es@[i as int].deps,
                            is_walk(m@, ents, pn),
                            pn.last() == name@,
                            es@[i as int].name@ == name@,
                            entities_of(es@, m@),
                            views(stack@) == s_mid + views(deps@).take(j as int),
                            forall|n: Seq<char>| #[trigger] s_mid.contains(n) ==> walkable(m@, ents, n),
                        decreases deps.len() - j,
                    {
                        let dj = deps[j].clone();
                        assert(views(deps@)[j as int] == dj@);
                        let ghost sj = views(stack@);
                        stack.push(dj);
                        assert(views(stack@) =~= sj.push(dj@));
                        assert(views(stack@) =~= s_mid + views(deps@).take(j + 1));
                        j = j + 1;
                    }
                    proof {
                        let s2 = views(stack@);
                        let dv = views(deps@);
                        assert(dv.take(deps@.len() as int) =~= dv);
                        assert(s2 =~= s_mid + dv);
                        assert(m@[name@] == entity_view(es@[i as int]));
                        assert forall|n: Seq<char>| #[trigger] s2.contains(n) implies walkable(m@, ents, n) by {
                            let q = choose|q: int| 0 <= q < s2.len() && s2[q] == n;
                            if q < s_mid.len() {
                                assert(s_mid[q] == n);
                                assert(s_mid.contains(n));
                            } else {
                                assert(dv[q - s_mid.len()] == n);
                                assert(dv.contains(n));
                                let p2 = pn.push(n);
                                assert forall|k: int| 0 <= k < p2.len() - 1 implies m@.contains_key(#[trigger] p2[k]) && m@[p2[k]].1.contains(p2[k + 1]) by {
                                    if k < pn.len() - 1 {
                                        assert(p2[k] == pn[k] && p2[k + 1] == pn[k + 1]);
                                    } else {
                                        assert(p2[k] == name@);
                                    }
                                }
                                assert(is_walk(m@, ents, p2));
                                assert(p2.last() == n);
                            }
                        }
                        assert forall|n: Seq<char>| #[trigger] s_mid.contains(n) implies s2.contains(n) by {
                            let q = choose|q: int| 0 <= q < s_mid.len() && s_mid[q] == n;
                            assert(s2[q] == n);
                        }
                        assert forall|n: Seq<char>| #[trigger] dv.contains(n) implies s2.contains(n) by {
                            let q = choose|q: int| 0 <= q < dv.len() && dv[q] == n;
                            assert(s2[s_mid.len() + q] == n);
                        }
                        assert forall|n: Seq<char>| covered(es@, ex0, s0, m@, n) implies covered(es@, expanded@, s2, m@, n) by {
                            if n == name@ {
                                assert(es@[i as int].name@ == n && expanded@[i as int]);
                            } else if s0.contains(n) {
                                assert(s1.contains(n));
                            } else if m@.contains_key(n) {
                                let q = choose|q: int| 0 <= q < es@.len() && ex0[q] && (#[trigger] es@[q]).name@ == n;
                                assert(expanded@[q]);
                            }
                        }
                        assert forall|q: int, n: Seq<char>| 0 <= q < es@.len() && expanded@[q] && #[trigger] views(es@[q].deps@).contains(n)
                            implies covered(es@, expanded@, s2, m@, n) by {
                            if q == i {
                                assert(dv.contains(n));
                            } else {
                                assert(covered(es@, ex0, s0, m@, n));
                            }
                        }
                        assert forall|q: int| 0 <= q < es@.len() && #[trigger] expanded@[q] implies walkable(m@, ents, es@[q].name@) by {
                            if q != i {
                                assert(ex0[q]);
                            }
                        }
                    }
                }
            },
        }
    }
    proof {
        let names = idxs.map_values(|i: int| es@[i].name@);
        let empty = Seq::<Seq<char>>::empty();
        assert(views(stack@) =~= empty);
        assert forall|n: Seq<char>| names.to_set().contains(n) <==> reachable(m@, ents).contains(n) by {
            if names.to_set().contains(n) {
                let x = choose|x: int| 0 <= x < names.len() && names[x] == n;
                assert(expanded@[idxs[x]]);
                assert(m@.contains_key(es@[idxs[x]].name@));
            }
            if reachable(m@, ents).contains(n) {
                let p = choose|p: Seq<Seq<char>>| #[trigger] is_walk(m@, ents, p) && p.last() == n;
                lemma_closed(es@, expanded@, m@, ents, p, p.len() - 1);
                let i = choose|i: int| 0 <= i < es@.len() && expanded@[i] && (#[trigger] es@[i]).name@ == p[p.len() - 1];
                assert(idxs.contains(i));
                let x = choose|x: int| 0 <= x < idxs.len() && idxs[x] == i;
                assert(names[x] == n);
            }
        }
        assert(names.to_set() =~= reachable(m@, ents));
    }
    (codes, Ghost(idxs))
}

/// The line that opens every output.
pub open spec fn preamble() -> Seq<char> {
    "import * as __typ from 'typed-cstruct';"@
}

/// The preamble followed by each part on a line of its own.
pub open spec fn joined(parts: Seq<Seq<char>>) -> Seq<char>
    decreases parts.len(),
{
    if parts.len() == 0 {
        preamble()
    } else {
        joined(parts.drop_last()) + "\n"@ + parts.last()
    }
}

pub fn join_output(parts: &Vec<String>) -> (r: String)
    ensures
        r@ == joined(views(parts@)),
{
    let mut out = String::from_str("import * as __typ from 'typed-cstruct';");
    let ghost pv = views(parts@);
    let mut i: usize = 0;
    assert(pv.take(0) =~= Seq::<Seq<char>>::empty());
    while i < parts.len()
        invariant
            0 <= i <= parts.len(),
            pv == views(parts@),
            out@ == joined(pv.take(i as int)),
        decreases parts.len() - i,
    {
        out.append("\n");
        out.append(parts[i].as_str());
        assert(pv.take(i + 1).drop_last() =~= pv.take(i as int));
        assert(pv[i as int] == parts@[i as int]@);
        i = i + 1;
    }
    assert(pv.take(parts.len() as int) =~= pv);
    out
}

/// The names whose definitions are emitted: all of them, or those reached
/// from the entry names when there are any.
pub open spec fn emitted_names(m: Map<Seq<char>, EntityModel>, entries: Seq<Seq<char>>) -> Set<Seq<char>> {
    if entries.len() == 0 {
        m.dom()
    } else {
        reachable(m, entries)
    }
}

/// `out` holds the preamble and then the code of each name of `names`, once,
/// the codes in ascending lexicographic order.
pub open spec fn is_output(m: Map<Seq<char>, EntityModel>, names: Set<Seq<char>>, out: Seq<char>) -> bool {
    exists|ns: Seq<Seq<char>>, parts: Seq<Seq<char>>|
        #![trigger ns.to_set(), joined(parts)]
        {
            &&& ns.no_duplicates()
            &&& ns.to_set() == names
            &&& sorted_lex(parts)
            &&& parts.to_multiset() == ns.map_values(|n: Seq<char>| m[n].0).to_multiset()
            &&& out == joined(parts)
        }
}

/// Why no code could be generated for a declaration set.
pub enum TranspileError {
    /// Names that definitions depend on but that nothing defines, sorted.
    Unresolved(Vec<String>),
}

/// Names separated by a comma and a space.
pub open spec fn names_text(ns: Seq<Seq<char>>) -> Seq<char>
    decreases ns.len(),
{
    if ns.len() == 0 {
        Seq::empty()
    } else if ns.len() == 1 {
        ns[0]
    } else {
        names_text(ns.drop_last()) + ", "@ + ns.last()
    }
}

impl TranspileError {
    /// A description that names every unresolved type.
    pub fn message(&self) -> (r: String)
        ensures
            match self {
                TranspileError::Unresolved(ns) => r@ == "used but not created: "@ + names_text(views(ns@)),
            },
    {
        match self {
            TranspileError::Unresolved(ns) => {
                let mut list = String::new();
                let ghost nv = views(ns@);
                let mut i: usize = 0;
                assert(list@ =~= names_text(nv.take(0)));
                while i < ns.len()
                    invariant
                        0 <= i <= ns.len(),
                        nv == views(ns@),
                        list@ == names_text(nv.take(i as int)),
                    decreases ns.len() - i,
                {
                    if i > 0 {
                        list.append(", ");
                    } else {
                        assert(list@ =~= Seq::<char>::empty());
                    }
                    list.append(ns[i].as_str());
                    assert(nv.take(i + 1).drop_last() =~= nv.take(i as int));
                    assert(nv[i as int] == ns@[i as int]@);
                    i = i + 1;
                }
                assert(nv.take(ns.len() as int) =~= nv);
                let mut r = String::from_str("used but not created: ");
                r.append(list.as_str());
                r
            },
        }
    }
}

/// What `transpile` returns: the unresolved names when there are any,
/// else the output.
pub open spec fn transpile_result(d: DeclSet, entries: Seq<Seq<char>>, r: Result<String, TranspileError>) -> bool {
    let m = entity_map(d);
    if unresolved(m) != Set::<Seq<char>>::empty() {
        &&& r is Err
        &&& r->Err_0 matches TranspileError::Unresolved(ns)
        &&& sorted_lex(views(ns@))
        &&& views(ns@).no_duplicates()
        &&& views(ns@).to_set() == unresolved(m)
    } else {
        &&& r is Ok
        &&& is_output(m, emitted_names(m, entries), r->Ok_0@)
    }
}

/// Generates the output text for a declaration set. With entry names, only
/// the definitions reachable from them are emitted.
pub fn transpile(d: &DeclSet, entries: &Vec<String>) -> (r: Result<String, TranspileError>)
    ensures
        transpile_result(*d, views(entries@), r),
{
    let ghost m = entity_map(*d);
    let es = build_entities(d);
    let missing = unresolved_names(&es, Ghost(m));
    if missing.len() > 0 {
        assert(views(missing@).to_set().contains(views(missing@)[0]));
        return Err(TranspileError::Unresolved(missing));
    }
    assert(unresolved(m) =~= Set::<Seq<char>>::empty()) by {
        assert forall|n: Seq<char>| !unresolved(m).contains(n) by {
            if unresolved(m).contains(n) {
                assert(views(missing@).to_set().contains(n));
            }
        }
    }
    let ghost ns: Seq<Seq<char>>;
    let codes: Vec<String>;
    if entries.len() == 0 {
        let mut all: Vec<String> = Vec::new();
        let mut i: usize = 0;
        while i < es.len()
            invariant
                0 <= i <= es.len(),
                views(all@) == es@.take(i as int).map_values(|e: Entity| e.code@),
            decreases es.len() - i,
        {
            let c = es[i].code.clone();
            let ghost prev = views(all@);
            all.push(c);
            assert(views(all@) =~= prev.push(es@[i as int].code@));
            assert(es@.take(i + 1).map_values(|e: Entity| e.code@) =~= es@.take(i as int).map_values(|e: Entity| e.code@).push(es@[i as int].code@));
            i = i + 1;
        }
        assert(es@.take(es@.len() as int) =~= es@);
        proof {
            ns = es@.map_values(|e: Entity| e.name@);
            assert(ns.map_values(|n: Seq<char>| m[n].0) =~= views(all@)) by {
                assert forall|x: int| 0 <= x < ns.len() implies m[ns[x]].0 == views(all@)[x] by {
                    assert(m[es@[x].name@] == entity_view(es@[x]));
                }
            }
            assert forall|x: int, y: int| 0 <= x < y < ns.len() implies ns[x] != ns[y] by {
                assert(es@[x].name@ != es@[y].name@);
            }
            assert forall|n: Seq<char>| ns.to_set().contains(n) <==> m.dom().contains(n) by {
                if m.dom().contains(n) {
                    assert(m.contains_key(n));
                    let x = choose|x: int| 0 <= x < es@.len() && (#[trigger] es@[x]).name@ == n;
                    assert(ns[x] == n);
                }
                if ns.to_set().contains(n) {
                    let x = choose|x: int| 0 <= x < ns.len() && ns[x] == n;
                    assert(m.contains_key(es@[x].name@));
                }
            }
            assert(ns.to_set() =~= m.dom());
        }
        codes = all;
    } else {
        let (found, idxs) = reach(&es, entries, Ghost(m));
        proof {
            ns = idxs@.map_values(|i: int| es@[i].name@);
            assert(ns.map_values(|n: Seq<char>| m[n].0) =~= views(found@)) by {
                assert forall|x: int| 0 <= x < ns.len() implies m[ns[x]].0 == views(found@)[x] by {
                    let i = idxs@[x];
                    assert(0 <= i < es@.len());
                    assert(m[es@[i].name@] == entity_view(es@[i]));
                }
            }
            assert forall|x: int, y: int| 0 <= x < y < ns.len() implies ns[x] != ns[y] by {
                assert(0 <= idxs@[x] < es@.len());
                assert(0 <= idxs@[y] < es@.len());
                assert(idxs@[x] != idxs@[y]);
                if idxs@[x] < idxs@[y] {
                    assert(es@[idxs@[x]].name@ != es@[idxs@[y]].name@);
                } else {
                    assert(es@[idxs@[y]].name@ != es@[idxs@[x]].name@);
                }
            }
        }
        codes = found;
    }
    let sorted = sort_strings(codes);
    let out = join_output(&sorted);
    assert(ns.to_set() == emitted_names(m, views(entries@)));
    assert(is_output(m, emitted_names(m, views(entries@)), out@)) by {
        let parts = views(sorted@);
        assert(parts.to_multiset() == ns.map_values(|n: Seq<char>| m[n].0).to_multiset());
        assert(out@ == joined(parts));
    }
    Ok(out)
}

} // verus!
