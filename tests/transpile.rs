use generator::emit::{transpile, TranspileError};
use generator::model::{AliasDecl, ConstDecl, DeclSet, FieldDecl, IntLit, StructDecl, TypeRef};

const PRE: &str = "import * as __typ from 'typed-cstruct';";

fn named(path: &[&str]) -> TypeRef {
    TypeRef::Named(path.iter().map(|s| s.to_string()).collect())
}

fn arr(elem: TypeRef, len: u64) -> TypeRef {
    TypeRef::Array(Box::new(elem), len)
}

fn ptr(elem: TypeRef) -> TypeRef {
    TypeRef::Pointer(Box::new(elem))
}

fn strukt(name: &str, fields: Vec<(&str, TypeRef)>) -> StructDecl {
    StructDecl {
        name: name.to_string(),
        fields: fields
            .into_iter()
            .map(|(n, ty)| FieldDecl { name: n.to_string(), ty })
            .collect(),
    }
}

fn alias(name: &str, ty: TypeRef) -> AliasDecl {
    AliasDecl { name: name.to_string(), ty }
}

fn constant(name: &str, ty: TypeRef, value: i64) -> ConstDecl {
    ConstDecl {
        name: name.to_string(),
        ty,
        value: IntLit { negative: value < 0, magnitude: value.unsigned_abs() as u128 },
    }
}

fn decls(structs: Vec<StructDecl>, aliases: Vec<AliasDecl>, constants: Vec<ConstDecl>) -> DeclSet {
    DeclSet { structs, aliases, constants }
}

fn run(d: &DeclSet, entries: &[&str]) -> Result<String, TranspileError> {
    let entries: Vec<String> = entries.iter().map(|s| s.to_string()).collect();
    transpile(d, &entries)
}

fn out(parts: &[&str]) -> String {
    let mut v = vec![PRE.to_string()];
    v.extend(parts.iter().map(|s| s.to_string()));
    v.join("\n")
}

fn single_field_struct(ty: TypeRef) -> String {
    run(&decls(vec![strukt("A", vec![("a", ty)])], vec![], vec![]), &[]).ok().unwrap()
}

fn abc() -> DeclSet {
    decls(
        vec![
            strukt("A", vec![("a", named(&["i32"])), ("b", named(&["B"]))]),
            strukt("B", vec![("c", named(&["C"]))]),
        ],
        vec![alias("C", named(&["i32"]))],
        vec![],
    )
}

const A_DEF: &str = "export function A() {\n  return new __typ.Struct()\n    .field('a', __typ.i32)\n    .field('b', B())\n}";
const B_DEF: &str = "export function B() {\n  return new __typ.Struct()\n    .field('c', C())\n}";
const C_DEF: &str = "export function C() {\n  return __typ.i32;\n}";

#[test]
fn basic() {
    let ts = run(&abc(), &[]).ok().unwrap();
    assert_eq!(ts, out(&[A_DEF, B_DEF, C_DEF]));
}

#[test]
fn array() {
    let ts = single_field_struct(arr(named(&["i32"]), 3));
    assert_eq!(
        ts,
        out(&["export function A() {\n  return new __typ.Struct()\n    .field('a', __typ.sizedArray(__typ.i32,3))\n}"])
    );
}

#[test]
fn enum_like() {
    let d = decls(
        vec![],
        vec![alias("E", named(&["u32"])), alias("E2", named(&["i32"]))],
        vec![
            constant("NOT_E", named(&["u32"]), 0),
            constant("E_A", named(&["E"]), 0),
            constant("E_B", named(&["E"]), 1),
            constant("E2_A", named(&["E2"]), -1),
            constant("E2_B", named(&["E2"]), 0),
            constant("E2_C", named(&["E2"]), 1),
        ],
    );
    let ts = run(&d, &[]).ok().unwrap();
    assert_eq!(
        ts,
        out(&[
            "export function E() {\n  return __typ.enumLike(__typ.u32, {\n    A: 0,\n    B: 1,\n  })\n}",
            "export function E2() {\n  return __typ.enumLike(__typ.i32, {\n    A: -1,\n    B: 0,\n    C: 1,\n  })\n}",
        ])
    );
}

#[test]
fn pointer() {
    let ts = single_field_struct(ptr(named(&["i32"])));
    assert_eq!(
        ts,
        out(&["export function A() {\n  return new __typ.Struct()\n    .field('a', __typ.ptr(__typ.i32))\n}"])
    );
}

#[test]
fn pointer_array() {
    let ts = single_field_struct(arr(ptr(named(&["i32"])), 3));
    assert_eq!(
        ts,
        out(&["export function A() {\n  return new __typ.Struct()\n    .field('a', __typ.sizedArray(__typ.ptr(__typ.i32),3))\n}"])
    );
}

#[test]
fn array_pointer() {
    let ts = single_field_struct(ptr(arr(named(&["i32"]), 3)));
    assert_eq!(
        ts,
        out(&["export function A() {\n  return new __typ.Struct()\n    .field('a', __typ.ptr(__typ.sizedArray(__typ.i32,3)))\n}"])
    );
}

#[test]
fn nested_array() {
    let ts = single_field_struct(arr(arr(named(&["i32"]), 3), 3));
    assert_eq!(
        ts,
        out(&["export function A() {\n  return new __typ.Struct()\n    .field('a', __typ.sizedArray(__typ.sizedArray(__typ.i32,3),3))\n}"])
    );
}

#[test]
fn not_enum() {
    let d = decls(
        vec![],
        vec![alias("_bindgen_ty_1", named(&["core", "ffi", "c_uint"]))],
        vec![constant("FP_NAN", named(&["_bindgen_ty_1"]), 0)],
    );
    let ts = run(&d, &[]).ok().unwrap();
    assert_eq!(ts, out(&["export function _bindgen_ty_1() {\n  return __typ.u32;\n}"]));
}

#[test]
fn ignore() {
    let ts = run(&abc(), &["B"]).ok().unwrap();
    assert_eq!(ts, out(&[B_DEF, C_DEF]));
}
