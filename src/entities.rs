//! Generated definitions: one per struct, type alias and enum group.
use vstd::prelude::*;

use crate::enums::{
    find_enums, groups_of, is_enum_owner, last_alias, lemma_last_alias, pair_views, variant_listing, variant_map,
    EnumGroup,
};
use crate::model::{AliasDecl, DeclSet, FieldDecl, StructDecl, TypeRef};
use crate::render::{render_type, type_deps, type_expr};
use crate::text::{str_eq, views};

verus! {

/// Code and dependencies of a generated definition.
pub type EntityModel = (Seq<char>, Seq<Seq<char>>);

/// A generated definition: its name, its code and the names of the
/// definitions that the code calls.
pub struct Entity {
    pub name: String,
    pub code: String,
    pub deps: Vec<String>,
}

pub open spec fn entity_view(e: Entity) -> EntityModel {
    (e.code@, views(e.deps@))
}

/// Helper types of the frontend that are never emitted and never reported
/// as missing.
pub open spec fn is_ignored(n: Seq<char>) -> bool {
    n == "__BindgenBitfieldUnit"@ || n == "__BindgenUnionField"@
}

pub fn ignored(n: &str) -> (r: bool)
    ensures
        r == is_ignored(n@),
{
    str_eq(n, "__BindgenBitfieldUnit") || str_eq(n, "__BindgenUnionField")
}

pub open spec fn field_line(f: FieldDecl) -> Seq<char> {
    "    .field('"@ + f.name@ + "', "@ + type_expr(f.ty) + ")\n"@
}

pub open spec fn fields_text(fs: Seq<FieldDecl>) -> Seq<char>
    decreases fs.len(),
{
    if fs.len() == 0 {
        Seq::empty()
    } else {
        fields_text(fs.drop_last()) + field_line(fs.last())
    }
}

pub open spec fn fields_deps(fs: Seq<FieldDecl>) -> Seq<Seq<char>>
    decreases fs.len(),
{
    if fs.len() == 0 {
        Seq::empty()
    } else {
        fields_deps(fs.drop_last()) + type_deps(fs.last().ty)
    }
}

pub open spec fn struct_code(s: StructDecl) -> Seq<char> {
    "export function "@ + s.name@ + "() {\n"@ + "  return new __typ.Struct()\n"@ + fields_text(
        s.fields@,
    ) + "}"@
}

pub open spec fn alias_code(a: AliasDecl) -> Seq<char> {
    "export function "@ + a.name@ + "() {\n  return "@ + type_expr(a.ty) + ";\n}"@
}

pub open spec fn variant_line(p: (Seq<char>, Seq<char>)) -> Seq<char> {
    "    "@ + p.0 + ": "@ + p.1 + ",\n"@
}

pub open spec fn variants_text(ps: Seq<(Seq<char>, Seq<char>)>) -> Seq<char>
    decreases ps.len(),
{
    if ps.len() == 0 {
        Seq::empty()
    } else {
        variants_text(ps.drop_last()) + variant_line(ps.last())
    }
}

pub open spec fn enum_code(name: Seq<char>, ty: TypeRef, ps: Seq<(Seq<char>, Seq<char>)>) -> Seq<char> {
    "export function "@ + name + "() {\n"@ + "  return __typ.enumLike("@ + type_expr(ty) + ", {\n"@
        + variants_text(ps) + "  })\n"@ + "}"@
}

/// Builds the definition of a struct: one field registration per field, in
/// layout order.
pub fn build_struct(s: &StructDecl) -> (e: Entity)
    ensures
        e.name@ == s.name@,
        entity_view(e) == (struct_code(*s), fields_deps(s.fields@)),
{
    let mut code = String::from_str("export function ");
    code.append(s.name.as_str());
    code.append("() {\n");
    code.append("  return new __typ.Struct()\n");
    let ghost head = code@;
    let mut deps: Vec<String> = Vec::new();
    let mut i: usize = 0;
    assert(s.fields@.take(0) =~= Seq::<FieldDecl>::empty());
    assert(code@ =~= head + fields_text(s.fields@.take(0)));
    assert(views(deps@) =~= fields_deps(s.fields@.take(0)));
    while i < s.fields.len()
        invariant
            0 <= i <= s.fields.len(),
            code@ == head + fields_text(s.fields@.take(i as int)),
            views(deps@) == fields_deps(s.fields@.take(i as int)),
        decreases s.fields.len() - i,
    {
        let f = &s.fields[i];
        let (ty, mut used) = render_type(&f.ty);
        code.append("    .field('");
        code.append(f.name.as_str());
        code.append("', ");
        code.append(ty.as_str());
        code.append(")\n");
        let ghost old_deps = views(deps@);
        let ghost used_v = views(used@);
        deps.append(&mut used);
        proof {
            let t1 = s.fields@.take(i + 1);
            assert(t1.drop_last() =~= s.fields@.take(i as int));
            assert(t1.last() == *f);
            assert(code@ =~= head + fields_text(t1));
            assert(views(deps@) =~= old_deps + used_v);
        }
        i = i + 1;
    }
    code.append("}");
    assert(s.fields@.take(s.fields.len() as int) =~= s.fields@);
    assert(code@ =~= struct_code(*s));
    Entity { name: s.name.clone(), code, deps }
}

/// Builds the definition of a type alias: it returns the aliased type.
pub fn build_alias(a: &AliasDecl) -> (e: Entity)
    ensures
        e.name@ == a.name@,
        entity_view(e) == (alias_code(*a), type_deps(a.ty)),
{
    let (ty, deps) = render_type(&a.ty);
    let mut code = String::from_str("export function ");
    code.append(a.name.as_str());
    code.append("() {\n  return ");
    code.append(ty.as_str());
    code.append(";\n}");
    Entity { name: a.name.clone(), code, deps }
}

/// Builds the definition of an enum group over its underlying type.
pub fn build_enum(name: &String, ty: &TypeRef, variants: &Vec<(String, String)>) -> (e: Entity)
    ensures
        e.name@ == name@,
        entity_view(e) == (enum_code(name@, *ty, pair_views(variants@)), type_deps(*ty)),
{
    let (tyx, deps) = render_type(ty);
    let mut code = String::from_str("export function ");
    code.append(name.as_str());
    code.append("() {\n");
    code.append("  return __typ.enumLike(");
    code.append(tyx.as_str());
    code.append(", {\n");
    let ghost head = code@;
    let ghost pv = pair_views(variants@);
    let mut i: usize = 0;
    assert(code@ =~= head + variants_text(pv.take(0)));
    while i < variants.len()
        invariant
            0 <= i <= variants.len(),
            pv == pair_views(variants@),
            code@ == head + variants_text(pv.take(i as int)),
        decreases variants.len() - i,
    {
        let p = &variants[i];
        code.append("    ");
        code.append(p.0.as_str());
        code.append(": ");
        code.append(p.1.as_str());
        code.append(",\n");
        proof {
            let t1 = pv.take(i + 1);
            assert(t1.drop_last() =~= pv.take(i as int));
            assert(t1.last() == (p.0@, p.1@));
            assert(code@ =~= head + variants_text(t1));
        }
        i = i + 1;
    }
    code.append("  })\n");
    code.append("}");
    assert(pv.take(variants.len() as int) =~= pv);
    assert(code@ =~= enum_code(name@, *ty, pv));
    Entity { name: name.clone(), code, deps }
}

pub open spec fn struct_entities(ss: Seq<StructDecl>) -> Map<Seq<char>, EntityModel>
    decreases ss.len(),
{
    if ss.len() == 0 {
        Map::empty()
    } else {
        let m = struct_entities(ss.drop_last());
        let s = ss.last();
        if is_ignored(s.name@) {
            m
        } else {
            m.insert(s.name@, (struct_code(s), fields_deps(s.fields@)))
        }
    }
}

pub open spec fn alias_entities(base: Map<Seq<char>, EntityModel>, als: Seq<AliasDecl>) -> Map<Seq<char>, EntityModel>
    decreases als.len(),
{
    if als.len() == 0 {
        base
    } else {
        alias_entities(base, als.drop_last()).insert(als.last().name@, (alias_code(als.last()), type_deps(als.last().ty)))
    }
}

/// The definition of the enum group owned by `t`.
pub open spec fn enum_entity(d: DeclSet, t: Seq<char>) -> EntityModel {
    let a = d.aliases@[last_alias(d.aliases@, t)->0];
    (enum_code(t, a.ty, variant_listing(variant_map(d.constants@, d.aliases@, t))), type_deps(a.ty))
}

/// Every generated definition by name. Structs come first, aliases replace a
/// struct of the same name, and an enum group replaces its alias.
pub open spec fn entity_map(d: DeclSet) -> Map<Seq<char>, EntityModel> {
    alias_entities(struct_entities(d.structs@), d.aliases@).union_prefer_right(
        Map::new(|t: Seq<char>| is_enum_owner(d, t), |t: Seq<char>| enum_entity(d, t)),
    )
}

/// `es` holds the entries of `m`, one entity per name.
pub open spec fn entities_of(es: Seq<Entity>, m: Map<Seq<char>, EntityModel>) -> bool {
    &&& forall|i: int, j: int| 0 <= i < j < es.len() ==> (#[trigger] es[i]).name@ != (#[trigger] es[j]).name@
    &&& forall|i: int| 0 <= i < es.len() ==> m.contains_key((#[trigger] es[i]).name@) && m[es[i].name@] == entity_view(es[i])
    &&& forall|k: Seq<char>| #[trigger] m.contains_key(k) ==> exists|i: int| 0 <= i < es.len() && (#[trigger] es[i]).name@ == k
}

/// Adds an entity, replacing one of the same name.
fn put_entity(es: &mut Vec<Entity>, e: Entity, m: Ghost<Map<Seq<char>, EntityModel>>)
    requires
        entities_of(old(es)@, m@),
    ensures
        entities_of(final(es)@, m@.insert(e.name@, entity_view(e))),
{
    let ghost m2 = m@.insert(e.name@, entity_view(e));
    let mut j: usize = 0;
    while j < es.len()
        invariant
            0 <= j <= es.len(),
            es@ == old(es)@,
            m2 == m@.insert(e.name@, entity_view(e)),
            entities_of(es@, m@),
            forall|q: int| 0 <= q < j ==> (#[trigger] es@[q]).name@ != e.name@,
        decreases es.len() - j,
    {
        if str_eq(es[j].name.as_str(), e.name.as_str()) {
            let ghost old_v = es@;
            let ghost ev = e;
            es.set(j, e);
            proof {
                let nv = es@;
                assert(nv =~= old_v.update(j as int, ev));
                assert forall|kk: Seq<char>| #[trigger] m2.contains_key(kk) implies exists|x: int| 0 <= x < nv.len() && (#[trigger] nv[x]).name@ == kk by {
                    if kk != ev.name@ {
                        assert(m@.contains_key(kk));
                        let x = choose|x: int| 0 <= x < old_v.len() && (#[trigger] old_v[x]).name@ == kk;
                        assert(nv[x].name@ == kk);
                    } else {
                        assert(nv[j as int].name@ == kk);
                    }
                }
                assert forall|x: int, y: int| 0 <= x < y < nv.len() implies (#[trigger] nv[x]).name@ != (#[trigger] nv[y]).name@ by {
                    assert(old_v[x].name@ != old_v[y].name@);
                }
            }
            return;
        }
        j = j + 1;
    }
    let ghost old_v = es@;
    let ghost ev = e;
    es.push(e);
    proof {
        let nv = es@;
        assert(nv =~= old_v.push(ev));
        assert forall|kk: Seq<char>| #[trigger] m2.contains_key(kk) implies exists|x: int| 0 <= x < nv.len() && (#[trigger] nv[x]).name@ == kk by {
            if kk != ev.name@ {
                assert(m@.contains_key(kk));
                let x = choose|x: int| 0 <= x < old_v.len() && (#[trigger] old_v[x]).name@ == kk;
                assert(nv[x].name@ == kk);
            } else {
                assert(nv[old_v.len() as int].name@ == kk);
            }
        }
        assert forall|x: int, y: int| 0 <= x < y < nv.len() implies (#[trigger] nv[x]).name@ != (#[trigger] nv[y]).name@ by {
            if y < old_v.len() {
                assert(old_v[x].name@ != old_v[y].name@);
            } else {
                assert(old_v[x].name@ != ev.name@);
            }
        }
    }
}

/// Builds every definition of a declaration set, one per name.
pub fn build_entities(d: &DeclSet) -> (r: Vec<Entity>)
    ensures
        entities_of(r@, entity_map(*d)),
{
    let mut es: Vec<Entity> = Vec::new();
    let mut i: usize = 0;
    assert(entities_of(es@, Map::empty()));
    assert(d.structs@.take(0) =~= Seq::<StructDecl>::empty());
    while i < d.structs.len()
        invariant
            0 <= i <= d.structs.len(),
            entities_of(es@, struct_entities(d.structs@.take(i as int))),
        decreases d.structs.len() - i,
    {
        let ghost t1 = d.structs@.take(i + 1);
        assert(t1.drop_last() =~= d.structs@.take(i as int));
        assert(t1.last() == d.structs@[i as int]);
        let s = &d.structs[i];
        if !ignored(s.name.as_str()) {
            let e = build_struct(s);
            put_entity(&mut es, e, Ghost(struct_entities(d.structs@.take(i as int))));
        }
        i = i + 1;
    }
    assert(d.structs@.take(d.structs.len() as int) =~= d.structs@);
    let ghost base = struct_entities(d.structs@);
    let mut i: usize = 0;
    assert(d.aliases@.take(0) =~= Seq::<AliasDecl>::empty());
    while i < d.aliases.len()
        invariant
            0 <= i <= d.aliases.len(),
            base == struct_entities(d.structs@),
            entities_of(es@, alias_entities(base, d.aliases@.take(i as int))),
        decreases d.aliases.len() - i,
    {
        let ghost t1 = d.aliases@.take(i + 1);
        assert(t1.drop_last() =~= d.aliases@.take(i as int));
        assert(t1.last() == d.aliases@[i as int]);
        let e = build_alias(&d.aliases[i]);
        put_entity(&mut es, e, Ghost(alias_entities(base, d.aliases@.take(i as int))));
        i = i + 1;
    }
    assert(d.aliases@.take(d.aliases.len() as int) =~= d.aliases@);
    let ghost plain = alias_entities(base, d.aliases@);
    let ghost enums_all = Map::new(|t: Seq<char>| is_enum_owner(*d, t), |t: Seq<char>| enum_entity(*d, t));
    let groups = find_enums(d);
    let mut i: usize = 0;
    assert(plain.union_prefer_right(enums_all.restrict(Set::empty())) =~= plain);
    while i < groups.len()
        invariant
            0 <= i <= groups.len(),
            groups_of(*d, groups@),
            plain == alias_entities(struct_entities(d.structs@), d.aliases@),
            enums_all == Map::new(|t: Seq<char>| is_enum_owner(*d, t), |t: Seq<char>| enum_entity(*d, t)),
            entities_of(es@, plain.union_prefer_right(enums_all.restrict(
                Set::new(|t: Seq<char>| exists|x: int| 0 <= x < i && (#[trigger] groups@[x]).owner@ == t),
            ))),
        decreases groups.len() - i,
    {
        let g = &groups[i];
        let ghost before = Set::new(|t: Seq<char>| exists|x: int| 0 <= x < i && (#[trigger] groups@[x]).owner@ == t);
        let ghost after = Set::new(|t: Seq<char>| exists|x: int| 0 <= x < i + 1 && (#[trigger] groups@[x]).owner@ == t);
        assert(groups@[i as int] == *g);
        proof {
            lemma_last_alias(d.aliases@, g.owner@);
        }
        let e = build_enum(&g.owner, &d.aliases[g.alias].ty, &g.variants);
        put_entity(&mut es, e, Ghost(plain.union_prefer_right(enums_all.restrict(before))));
        proof {
            assert(after =~= before.insert(g.owner@)) by {
                assert forall|t: Seq<char>| after.contains(t) <==> before.insert(g.owner@).contains(t) by {
                    if after.contains(t) && t != g.owner@ {
                        let x = choose|x: int| 0 <= x < i + 1 && (#[trigger] groups@[x]).owner@ == t;
                        assert(x < i);
                    }
                    if t == g.owner@ {
                        assert(groups@[i as int].owner@ == t);
                    }
                }
            }
            assert(is_enum_owner(*d, g.owner@));
            assert(enums_all.contains_key(g.owner@));
            assert(enums_all[g.owner@] == enum_entity(*d, g.owner@));
            assert(plain.union_prefer_right(enums_all.restrict(after)) =~= plain.union_prefer_right(
                enums_all.restrict(before),
            ).insert(g.owner@, enum_entity(*d, g.owner@)));
        }
        i = i + 1;
    }
    proof {
        let owners = Set::new(|t: Seq<char>| exists|x: int| 0 <= x < groups@.len() && (#[trigger] groups@[x]).owner@ == t);
        assert(enums_all.restrict(owners) =~= enums_all) by {
            assert forall|t: Seq<char>| enums_all.dom().contains(t) implies owners.contains(t) by {
                assert(is_enum_owner(*d, t));
            }
        }
    }
    es
}

} // verus!
