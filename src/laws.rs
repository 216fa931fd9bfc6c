//! Properties of code generation as a whole.
use vstd::prelude::*;

use crate::emit::{emitted_names, is_output, joined, transpile_result, unresolved, TranspileError};
use crate::entities::{
    alias_entities, entity_map, fields_deps, is_ignored, struct_code, struct_entities, EntityModel,
};
use crate::enums::{const_owner, is_enum_owner, last_alias, membership, variant_map};
use crate::model::{AliasDecl, ConstDecl, DeclSet, FieldDecl, StructDecl};
use crate::render::type_deps;
use crate::text::{lemma_sorted_unique, sorted_lex, views};

verus! {

broadcast use vstd::seq_lib::group_to_multiset_ensures;

/// The names that a declaration set defines: its structs, except the ignored
/// helper types, and its type aliases.
pub open spec fn declared_names(d: DeclSet) -> Set<Seq<char>> {
    Set::new(
        |n: Seq<char>|
            (!is_ignored(n) && exists|i: int| 0 <= i < d.structs@.len() && (#[trigger] d.structs@[i]).name@ == n)
                || exists|i: int| 0 <= i < d.aliases@.len() && (#[trigger] d.aliases@[i]).name@ == n,
    )
}

proof fn lemma_struct_entities(ss: Seq<StructDecl>, n: Seq<char>)
    ensures
        struct_entities(ss).contains_key(n) <==> !is_ignored(n) && exists|i: int| 0 <= i < ss.len() && (#[trigger] ss[i]).name@ == n,
    decreases ss.len(),
{
    if ss.len() > 0 {
        lemma_struct_entities(ss.drop_last(), n);
        if exists|i: int| 0 <= i < ss.len() && (#[trigger] ss[i]).name@ == n {
            let i = choose|i: int| 0 <= i < ss.len() && (#[trigger] ss[i]).name@ == n;
            if i < ss.len() - 1 {
                assert(ss.drop_last()[i].name@ == n);
            }
        }
        if exists|i: int| 0 <= i < ss.len() - 1 && (#[trigger] ss.drop_last()[i]).name@ == n {
            let i = choose|i: int| 0 <= i < ss.len() - 1 && (#[trigger] ss.drop_last()[i]).name@ == n;
            assert(ss[i].name@ == n);
        }
    }
}

proof fn lemma_struct_entity_last(ss: Seq<StructDecl>, i: int)
    requires
        0 <= i < ss.len(),
        !is_ignored(ss[i].name@),
        forall|j: int| i < j < ss.len() ==> (#[trigger] ss[j]).name@ != ss[i].name@,
    ensures
        struct_entities(ss).contains_key(ss[i].name@),
        struct_entities(ss)[ss[i].name@] == (struct_code(ss[i]), fields_deps(ss[i].fields@)),
    decreases ss.len(),
{
    if i < ss.len() - 1 {
        let s2 = ss.drop_last();
        assert(s2[i] == ss[i]);
        assert forall|j: int| i < j < s2.len() implies (#[trigger] s2[j]).name@ != s2[i].name@ by {
            assert(ss[j].name@ != ss[i].name@);
        }
        lemma_struct_entity_last(s2, i);
        assert(ss.last().name@ != ss[i].name@);
    }
}

proof fn lemma_alias_entities(base: Map<Seq<char>, EntityModel>, als: Seq<AliasDecl>, n: Seq<char>)
    ensures
        alias_entities(base, als).contains_key(n) <==> base.contains_key(n) || exists|i: int| 0 <= i < als.len() && (#[trigger] als[i]).name@ == n,
        (forall|i: int| 0 <= i < als.len() ==> (#[trigger] als[i]).name@ != n) ==> alias_entities(base, als)[n] == base[n],
    decreases als.len(),
{
    if als.len() > 0 {
        lemma_alias_entities(base, als.drop_last(), n);
        if exists|i: int| 0 <= i < als.len() && (#[trigger] als[i]).name@ == n {
            let i = choose|i: int| 0 <= i < als.len() && (#[trigger] als[i]).name@ == n;
            if i < als.len() - 1 {
                assert(als.drop_last()[i].name@ == n);
            }
        }
        if exists|i: int| 0 <= i < als.len() - 1 && (#[trigger] als.drop_last()[i]).name@ == n {
            let i = choose|i: int| 0 <= i < als.len() - 1 && (#[trigger] als.drop_last()[i]).name@ == n;
            assert(als[i].name@ == n);
        }
        if forall|i: int| 0 <= i < als.len() ==> (#[trigger] als[i]).name@ != n {
            assert forall|i: int| 0 <= i < als.len() - 1 implies (#[trigger] als.drop_last()[i]).name@ != n by {
                assert(als[i].name@ != n);
            }
            assert(als.last().name@ != n);
        }
    }
}

proof fn lemma_last_alias_found(als: Seq<AliasDecl>, t: Seq<char>)
    requires
        last_alias(als, t) is Some,
    ensures
        exists|i: int| 0 <= i < als.len() && (#[trigger] als[i]).name@ == t,
    decreases als.len(),
{
    if als.last().name@ == t {
        assert(als[als.len() - 1].name@ == t);
    } else {
        lemma_last_alias_found(als.drop_last(), t);
        let i = choose|i: int| 0 <= i < als.len() - 1 && (#[trigger] als.drop_last()[i]).name@ == t;
        assert(als[i].name@ == t);
    }
}

proof fn lemma_owner_has_alias(cs: Seq<ConstDecl>, als: Seq<AliasDecl>, t: Seq<char>)
    requires
        variant_map(cs, als, t).dom() != Set::<Seq<char>>::empty(),
    ensures
        last_alias(als, t) is Some,
    decreases cs.len(),
{
    if cs.len() == 0 {
        assert(variant_map(cs, als, t).dom() =~= Set::<Seq<char>>::empty());
    } else {
        match membership(cs.last(), als) {
            Some(p) => {
                if p.0 != t {
                    lemma_owner_has_alias(cs.drop_last(), als, t);
                }
            },
            None => {
                lemma_owner_has_alias(cs.drop_last(), als, t);
            },
        }
    }
}

proof fn lemma_entity_names(d: DeclSet)
    ensures
        entity_map(d).dom() == declared_names(d),
{
    let m = entity_map(d);
    assert forall|n: Seq<char>| m.dom().contains(n) <==> declared_names(d).contains(n) by {
        lemma_struct_entities(d.structs@, n);
        lemma_alias_entities(struct_entities(d.structs@), d.aliases@, n);
        if is_enum_owner(d, n) {
            lemma_owner_has_alias(d.constants@, d.aliases@, n);
            lemma_last_alias_found(d.aliases@, n);
        }
    }
    assert(m.dom() =~= declared_names(d));
}

/// Generating with no entry names, when every referenced name is defined,
/// succeeds, and the output holds exactly one definition for each struct
/// (other than the ignored helper types) and each type alias, the enum form
/// standing for an alias whose constants form a group.
pub proof fn law_one_definition_per_name(d: DeclSet, r: Result<String, TranspileError>)
    requires
        transpile_result(d, Seq::empty(), r),
        unresolved(entity_map(d)) == Set::<Seq<char>>::empty(),
    ensures
        r is Ok,
        is_output(entity_map(d), declared_names(d), r->Ok_0@),
{
    lemma_entity_names(d);
}

proof fn lemma_nodup_multiset<A>(a: Seq<A>, b: Seq<A>)
    requires
        a.no_duplicates(),
        b.no_duplicates(),
        a.to_set() == b.to_set(),
    ensures
        a.to_multiset() == b.to_multiset(),
{
    a.lemma_multiset_has_no_duplicates();
    b.lemma_multiset_has_no_duplicates();
    assert forall|x: A| a.to_multiset().count(x) == b.to_multiset().count(x) by {
        if a.contains(x) {
            assert(a.to_set().contains(x));
            assert(b.to_set().contains(x));
        }
        if b.contains(x) {
            assert(b.to_set().contains(x));
            assert(a.to_set().contains(x));
        }
    }
    assert(a.to_multiset() =~= b.to_multiset());
}

proof fn lemma_map_multiset<A, B>(a: Seq<A>, b: Seq<A>, f: spec_fn(A) -> B)
    requires
        a.to_multiset() == b.to_multiset(),
    ensures
        a.map_values(f).to_multiset() == b.map_values(f).to_multiset(),
    decreases a.len(),
{
    assert(a.to_multiset().len() == a.len());
    assert(b.to_multiset().len() == b.len());
    if a.len() == 0 {
        assert(a.map_values(f) =~= b.map_values(f));
    } else {
        let x = a.last();
        let a2 = a.drop_last();
        assert(a =~= a2.push(x));
        assert(a.to_multiset() == a2.to_multiset().insert(x));
        assert(a.contains(x)) by {
            assert(a[a.len() - 1] == x);
        }
        assert(b.to_multiset().count(x) > 0);
        assert(b.contains(x));
        let j = choose|j: int| 0 <= j < b.len() && b[j] == x;
        let b2 = b.remove(j);
        assert(b2.to_multiset() == b.to_multiset().remove(x));
        assert(a2.to_multiset() =~= b2.to_multiset());
        lemma_map_multiset(a2, b2, f);
        let fb = b.map_values(f);
        assert(fb.remove(j) =~= b2.map_values(f));
        assert(fb.remove(j).to_multiset() == fb.to_multiset().remove(f(x)));
        assert(fb[j] == f(x));
        assert(fb.contains(f(x)));
        assert(fb.to_multiset().count(f(x)) > 0);
        assert(a.map_values(f) =~= a2.map_values(f).push(f(x)));
        assert(a.map_values(f).to_multiset() == a2.map_values(f).to_multiset().insert(f(x)));
        assert(fb.to_multiset() =~= fb.to_multiset().remove(f(x)).insert(f(x)));
    }
}

/// Generating code for the same declarations with the same entry names twice gives
/// the same output, or the same list of unresolved names.
pub proof fn law_deterministic(
    d: DeclSet,
    entries: Seq<Seq<char>>,
    r1: Result<String, TranspileError>,
    r2: Result<String, TranspileError>,
)
    requires
        transpile_result(d, entries, r1),
        transpile_result(d, entries, r2),
    ensures
        r1 is Ok <==> r2 is Ok,
        r1 is Ok ==> r1->Ok_0@ == r2->Ok_0@,
        r1 is Err ==> (match (r1->Err_0, r2->Err_0) {
            (TranspileError::Unresolved(a), TranspileError::Unresolved(b)) => views(a@) == views(b@),
        }),
{
    let m = entity_map(d);
    if unresolved(m) != Set::<Seq<char>>::empty() {
        let TranspileError::Unresolved(a) = r1->Err_0;
        let TranspileError::Unresolved(b) = r2->Err_0;
        lemma_nodup_multiset(views(a@), views(b@));
        lemma_sorted_unique(views(a@), views(b@));
    } else {
        let names = emitted_names(m, entries);
        let (ns1, p1) = choose|ns: Seq<Seq<char>>, parts: Seq<Seq<char>>|
            #![trigger ns.to_set(), joined(parts)]
            {
                &&& ns.no_duplicates()
                &&& ns.to_set() == names
                &&& sorted_lex(parts)
                &&& parts.to_multiset() == ns.map_values(|n: Seq<char>| m[n].0).to_multiset()
                &&& r1->Ok_0@ == joined(parts)
            };
        let (ns2, p2) = choose|ns: Seq<Seq<char>>, parts: Seq<Seq<char>>|
            #![trigger ns.to_set(), joined(parts)]
            {
                &&& ns.no_duplicates()
                &&& ns.to_set() == names
                &&& sorted_lex(parts)
                &&& parts.to_multiset() == ns.map_values(|n: Seq<char>| m[n].0).to_multiset()
                &&& r2->Ok_0@ == joined(parts)
            };
        lemma_nodup_multiset(ns1, ns2);
        lemma_map_multiset(ns1, ns2, |n: Seq<char>| m[n].0);
        lemma_sorted_unique(p1, p2);
    }
}

/// A constant named exactly as its type, or as its type followed by an
/// underscore alone, belongs to no enum group; nor does a constant whose type
/// is no alias.
pub proof fn law_no_spurious_variant(c: ConstDecl, aliases: Seq<AliasDecl>)
    requires
        const_owner(c) matches Some(t) && (c.name@ == t || c.name@ == t.push('_') || last_alias(aliases, t) is None),
    ensures
        membership(c, aliases) is None,
{
}

proof fn lemma_fields_deps(fs: Seq<FieldDecl>, k: int, n: Seq<char>)
    requires
        0 <= k < fs.len(),
        type_deps(fs[k].ty).contains(n),
    ensures
        fields_deps(fs).contains(n),
    decreases fs.len(),
{
    let a = fields_deps(fs.drop_last());
    let b = type_deps(fs.last().ty);
    if k == fs.len() - 1 {
        let q = choose|q: int| 0 <= q < b.len() && b[q] == n;
        assert((a + b)[a.len() + q] == n);
    } else {
        assert(fs.drop_last()[k] == fs[k]);
        lemma_fields_deps(fs.drop_last(), k, n);
        let q = choose|q: int| 0 <= q < a.len() && a[q] == n;
        assert((a + b)[q] == n);
    }
}

/// A field of a struct that references a name that nothing defines (and that
/// is not an ignored helper type) makes generation fail, naming it.
/// The struct must be the one that defines its name: no later struct and no
/// type alias share that name.
pub proof fn law_unresolved_field_fails(
    d: DeclSet,
    entries: Seq<Seq<char>>,
    r: Result<String, TranspileError>,
    i: int,
    k: int,
    n: Seq<char>,
)
    requires
        transpile_result(d, entries, r),
        0 <= i < d.structs@.len(),
        !is_ignored(d.structs@[i].name@),
        forall|j: int| i < j < d.structs@.len() ==> (#[trigger] d.structs@[j]).name@ != d.structs@[i].name@,
        forall|j: int| 0 <= j < d.aliases@.len() ==> (#[trigger] d.aliases@[j]).name@ != d.structs@[i].name@,
        0 <= k < d.structs@[i].fields@.len(),
        type_deps(d.structs@[i].fields@[k].ty).contains(n),
        !entity_map(d).contains_key(n),
        !is_ignored(n),
    ensures
        r is Err,
        match r->Err_0 {
            TranspileError::Unresolved(ns) => views(ns@).contains(n),
        },
{
    let m = entity_map(d);
    let s = d.structs@[i];
    lemma_struct_entity_last(d.structs@, i);
    lemma_alias_entities(struct_entities(d.structs@), d.aliases@, s.name@);
    if is_enum_owner(d, s.name@) {
        lemma_owner_has_alias(d.constants@, d.aliases@, s.name@);
        lemma_last_alias_found(d.aliases@, s.name@);
    }
    assert(m.contains_key(s.name@));
    assert(m[s.name@].1 == fields_deps(s.fields@));
    lemma_fields_deps(s.fields@, k, n);
    assert(unresolved(m).contains(n));
    let TranspileError::Unresolved(ns) = r->Err_0;
    assert(views(ns@).to_set().contains(n));
}

} // verus!
