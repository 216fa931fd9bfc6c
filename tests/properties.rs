use generator::emit::{transpile, TranspileError};
use generator::model::{AliasDecl, ConstDecl, DeclSet, FieldDecl, IntLit, StructDecl, TypeRef};
use generator::render::{render_lit, render_type};
use generator::text::{compare_str, decimal_string, sort_strings};

const PRE: &str = "import * as __typ from 'typed-cstruct';";

fn named(path: &[&str]) -> TypeRef {
    TypeRef::Named(path.iter().map(|s| s.to_string()).collect())
}

fn strukt(name: &str, fields: Vec<(&str, TypeRef)>) -> StructDecl {
    StructDecl {
        name: name.to_string(),
        fields: fields
            .into_iter()
            .map(|(n, ty)| FieldDecl { name: n.to_string(), ty })
            .collect(),
    }
}

fn alias(name: &str, ty: TypeRef) -> AliasDecl {
    AliasDecl { name: name.to_string(), ty }
}

fn constant(name: &str, ty: TypeRef, negative: bool, magnitude: u128) -> ConstDecl {
    ConstDecl { name: name.to_string(), ty, value: IntLit { negative, magnitude } }
}

fn run(d: &DeclSet, entries: &[&str]) -> Result<String, TranspileError> {
    let entries: Vec<String> = entries.iter().map(|s| s.to_string()).collect();
    transpile(d, &entries)
}

fn unresolved(r: Result<String, TranspileError>) -> Vec<String> {
    match r {
        Err(TranspileError::Unresolved(v)) => v,
        Ok(s) => panic!("expected a failure, got {s}"),
    }
}

#[test]
fn empty_declarations_give_the_preamble_alone() {
    let d = DeclSet { structs: vec![], aliases: vec![], constants: vec![] };
    assert_eq!(run(&d, &[]).ok().unwrap(), PRE);
}

#[test]
fn unresolved_field_fails_naming_the_type() {
    let d = DeclSet {
        structs: vec![strukt("A", vec![("x", named(&["Missing"])), ("y", named(&["Gone"])), ("z", named(&["Missing"]))])],
        aliases: vec![],
        constants: vec![],
    };
    assert_eq!(unresolved(run(&d, &[])), vec!["Gone".to_string(), "Missing".to_string()]);
    assert_eq!(unresolved(run(&d, &["A"])), vec!["Gone".to_string(), "Missing".to_string()]);
    match run(&d, &[]) {
        Err(e) => assert_eq!(e.message(), "used but not created: Gone, Missing"),
        Ok(_) => panic!("expected a failure"),
    }
}

#[test]
fn ignored_helpers_are_neither_emitted_nor_reported() {
    let d = DeclSet {
        structs: vec![
            strukt("__BindgenBitfieldUnit", vec![("storage", named(&["u8"]))]),
            strukt("S", vec![("bits", named(&["__BindgenBitfieldUnit"])), ("u", named(&["__BindgenUnionField"]))]),
        ],
        aliases: vec![],
        constants: vec![],
    };
    let ts = run(&d, &[]).ok().unwrap();
    assert_eq!(
        ts,
        format!(
            "{PRE}\nexport function S() {{\n  return new __typ.Struct()\n    .field('bits', __BindgenBitfieldUnit())\n    .field('u', __BindgenUnionField())\n}}"
        )
    );
}

#[test]
fn alias_replaces_struct_and_enum_replaces_alias() {
    let d = DeclSet {
        structs: vec![strukt("T", vec![])],
        aliases: vec![alias("T", named(&["u8"])), alias("K", named(&["u16"]))],
        constants: vec![constant("K_X", named(&["K"]), false, 7)],
    };
    let ts = run(&d, &[]).ok().unwrap();
    assert_eq!(
        ts,
        format!(
            "{PRE}\nexport function K() {{\n  return __typ.enumLike(__typ.u16, {{\n    X: 7,\n  }})\n}}\nexport function T() {{\n  return __typ.u8;\n}}"
        )
    );
}

#[test]
fn later_constant_replaces_variant_and_values_sort_as_text() {
    let d = DeclSet {
        structs: vec![],
        aliases: vec![alias("E", named(&["i32"]))],
        constants: vec![
            constant("E_A", named(&["E"]), false, 5),
            constant("E_B", named(&["E"]), false, 10),
            constant("E_C", named(&["E"]), false, 9),
            constant("E_A", named(&["E"]), false, 2),
            constant("E", named(&["E"]), false, 3),
            constant("E_", named(&["E"]), false, 4),
        ],
    };
    let ts = run(&d, &[]).ok().unwrap();
    assert_eq!(
        ts,
        format!("{PRE}\nexport function E() {{\n  return __typ.enumLike(__typ.i32, {{\n    B: 10,\n    A: 2,\n    C: 9,\n  }})\n}}")
    );
}

#[test]
fn equal_values_order_by_name() {
    let d = DeclSet {
        structs: vec![],
        aliases: vec![alias("E", named(&["u8"]))],
        constants: vec![constant("E_Z", named(&["E"]), false, 1), constant("E_M", named(&["E"]), false, 1)],
    };
    let ts = run(&d, &[]).ok().unwrap();
    assert_eq!(ts, format!("{PRE}\nexport function E() {{\n  return __typ.enumLike(__typ.u8, {{\n    M: 1,\n    Z: 1,\n  }})\n}}"));
}

#[test]
fn qualified_constant_type_makes_no_group() {
    let d = DeclSet {
        structs: vec![],
        aliases: vec![alias("E", named(&["u8"]))],
        constants: vec![constant("E_A", named(&["m", "E"]), false, 1)],
    };
    let ts = run(&d, &[]).ok().unwrap();
    assert_eq!(ts, format!("{PRE}\nexport function E() {{\n  return __typ.u8;\n}}"));
}

#[test]
fn entry_names_without_definition_are_dropped() {
    let d = DeclSet {
        structs: vec![strukt("A", vec![("p", named(&["B"]))]), strukt("B", vec![("q", named(&["A"]))]), strukt("C", vec![])],
        aliases: vec![],
        constants: vec![],
    };
    let ts = run(&d, &["nothing", "B", "B"]).ok().unwrap();
    assert_eq!(
        ts,
        format!(
            "{PRE}\nexport function A() {{\n  return new __typ.Struct()\n    .field('p', B())\n}}\nexport function B() {{\n  return new __typ.Struct()\n    .field('q', A())\n}}"
        )
    );
    assert_eq!(run(&d, &["nothing"]).ok().unwrap(), PRE);
}

#[test]
fn translation_is_repeatable() {
    let d = DeclSet {
        structs: vec![strukt("Z", vec![("a", named(&["Y"]))]), strukt("Y", vec![])],
        aliases: vec![alias("X", named(&["Z"]))],
        constants: vec![],
    };
    let first = run(&d, &[]).ok().unwrap();
    let second = run(&d, &[]).ok().unwrap();
    assert_eq!(first, second);
    assert!(first.starts_with(&format!("{PRE}\nexport function X()")));
}

#[test]
fn scoped_names_join_with_double_underscore() {
    let (code, deps) = render_type(&named(&["a", "b", "c"]));
    assert_eq!(code, "a__b__c()");
    assert_eq!(deps, vec!["a__b__c".to_string()]);
    let (code, deps) = render_type(&named(&["core", "ffi", "c_longlong"]));
    assert_eq!(code, "__typ.i64");
    assert!(deps.is_empty());
    let (code, _) = render_type(&named(&["core", "option", "Option"]));
    assert_eq!(code, "__typ.u32");
    let (code, _) = render_type(&named(&["usize"]));
    assert_eq!(code, "__typ.u32");
}

#[test]
fn composite_of_well_known_has_no_dependencies() {
    let t = TypeRef::Array(Box::new(TypeRef::Pointer(Box::new(named(&["i32"])))), 3);
    let (code, deps) = render_type(&t);
    assert_eq!(code, "__typ.sizedArray(__typ.ptr(__typ.i32),3)");
    assert!(deps.is_empty());
    let t = TypeRef::Pointer(Box::new(TypeRef::Array(Box::new(named(&["Node"])), 0)));
    let (code, deps) = render_type(&t);
    assert_eq!(code, "__typ.ptr(__typ.sizedArray(Node(),0))");
    assert_eq!(deps, vec!["Node".to_string()]);
}

#[test]
fn literals_render_in_base_ten() {
    assert_eq!(decimal_string(0), "0");
    assert_eq!(decimal_string(1234567890), "1234567890");
    assert_eq!(decimal_string(u128::MAX), u128::MAX.to_string());
    assert_eq!(render_lit(IntLit { negative: true, magnitude: 42 }), "-42");
    assert_eq!(render_lit(IntLit { negative: false, magnitude: 18446744073709551615 }), "18446744073709551615");
}

#[test]
fn strings_compare_by_code_point() {
    assert!(compare_str("-1", "0") < 0);
    assert!(compare_str("E(", "E2") < 0);
    assert!(compare_str("ab", "a") > 0);
    assert_eq!(compare_str("same", "same"), 0);
    let sorted = sort_strings(vec!["b".to_string(), "a".to_string(), "ab".to_string(), "a".to_string()]);
    assert_eq!(sorted, vec!["a", "a", "ab", "b"]);
}
