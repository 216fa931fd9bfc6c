//! Rendering of type references and literals into descriptor expressions.
use vstd::prelude::*;

use crate::model::{IntLit, TypeRef};
use crate::text::{decimal, decimal_string, str_eq, views};

verus! {

/// The descriptor expression of a primitive that never needs a generated
/// definition, looked up by its flattened name.
pub open spec fn well_known(k: Seq<char>) -> Option<Seq<char>> {
    if k == "core__ffi__c_char"@ {
        Some("__typ.u8"@)
    } else if k == "core__ffi__c_double"@ {
        Some("__typ.f64"@)
    } else if k == "core__ffi__c_float"@ {
        Some("__typ.f32"@)
    } else if k == "core__ffi__c_int"@ {
        Some("__typ.i32"@)
    } else if k == "core__ffi__c_long"@ {
        Some("__typ.i64"@)
    } else if k == "core__ffi__c_longlong"@ {
        Some("__typ.i64"@)
    } else if k == "core__ffi__c_schar"@ {
        Some("__typ.i8"@)
    } else if k == "core__ffi__c_short"@ {
        Some("__typ.i16"@)
    } else if k == "core__ffi__c_uchar"@ {
        Some("__typ.u8"@)
    } else if k == "core__ffi__c_uint"@ {
        Some("__typ.u32"@)
    } else if k == "core__ffi__c_ulong"@ {
        Some("__typ.u64"@)
    } else if k == "core__ffi__c_ulonglong"@ {
        Some("__typ.u64"@)
    } else if k == "core__ffi__c_ushort"@ {
        Some("__typ.u16"@)
    } else if k == "core__ffi__c_void"@ {
        Some("__typ.u32"@)
    } else if k == "core__option__Option"@ {
        Some("__typ.u32"@)
    } else if k == "bool"@ {
        Some("__typ.bool"@)
    } else if k == "char"@ {
        Some("__typ.u8"@)
    } else if k == "f32"@ {
        Some("__typ.f32"@)
    } else if k == "f64"@ {
        Some("__typ.f64"@)
    } else if k == "i8"@ {
        Some("__typ.i8"@)
    } else if k == "i16"@ {
        Some("__typ.i16"@)
    } else if k == "i32"@ {
        Some("__typ.i32"@)
    } else if k == "i64"@ {
        Some("__typ.i64"@)
    } else if k == "i128"@ {
        Some("__typ.i128"@)
    } else if k == "u8"@ {
        Some("__typ.u8"@)
    } else if k == "u16"@ {
        Some("__typ.u16"@)
    } else if k == "u32"@ {
        Some("__typ.u32"@)
    } else if k == "u64"@ {
        Some("__typ.u64"@)
    } else if k == "u128"@ {
        Some("__typ.u128"@)
    } else if k == "isize"@ {
        Some("__typ.i32"@)
    } else if k == "usize"@ {
        Some("__typ.u32"@)
    } else {
        None
    }
}

pub fn well_known_expr(k: &str) -> (r: Option<&'static str>)
    ensures
        match r {
            Some(e) => well_known(k@) == Some(e@),
            None => well_known(k@) is None,
        },
{
    if str_eq(k, "core__ffi__c_char") {
        return Some("__typ.u8");
    }
    if str_eq(k, "core__ffi__c_double") {
        return Some("__typ.f64");
    }
    if str_eq(k, "core__ffi__c_float") {
        return Some("__typ.f32");
    }
    if str_eq(k, "core__ffi__c_int") {
        return Some("__typ.i32");
    }
    if str_eq(k, "core__ffi__c_long") {
        return Some("__typ.i64");
    }
    if str_eq(k, "core__ffi__c_longlong") {
        return Some("__typ.i64");
    }
    if str_eq(k, "core__ffi__c_schar") {
        return Some("__typ.i8");
    }
    if str_eq(k, "core__ffi__c_short") {
        return Some("__typ.i16");
    }
    if str_eq(k, "core__ffi__c_uchar") {
        return Some("__typ.u8");
    }
    if str_eq(k, "core__ffi__c_uint") {
        return Some("__typ.u32");
    }
    if str_eq(k, "core__ffi__c_ulong") {
        return Some("__typ.u64");
    }
    if str_eq(k, "core__ffi__c_ulonglong") {
        return Some("__typ.u64");
    }
    if str_eq(k, "core__ffi__c_ushort") {
        return Some("__typ.u16");
    }
    if str_eq(k, "core__ffi__c_void") {
        return Some("__typ.u32");
    }
    if str_eq(k, "core__option__Option") {
        return Some("__typ.u32");
    }
    if str_eq(k, "bool") {
        return Some("__typ.bool");
    }
    if str_eq(k, "char") {
        return Some("__typ.u8");
    }
    if str_eq(k, "f32") {
        return Some("__typ.f32");
    }
    if str_eq(k, "f64") {
        return Some("__typ.f64");
    }
    if str_eq(k, "i8") {
        return Some("__typ.i8");
    }
    if str_eq(k, "i16") {
        return Some("__typ.i16");
    }
    if str_eq(k, "i32") {
        return Some("__typ.i32");
    }
    if str_eq(k, "i64") {
        return Some("__typ.i64");
    }
    if str_eq(k, "i128") {
        return Some("__typ.i128");
    }
    if str_eq(k, "u8") {
        return Some("__typ.u8");
    }
    if str_eq(k, "u16") {
        return Some("__typ.u16");
    }
    if str_eq(k, "u32") {
        return Some("__typ.u32");
    }
    if str_eq(k, "u64") {
        return Some("__typ.u64");
    }
    if str_eq(k, "u128") {
        return Some("__typ.u128");
    }
    if str_eq(k, "isize") {
        return Some("__typ.i32");
    }
    if str_eq(k, "usize") {
        return Some("__typ.u32");
    }
    None
}

/// Path segments joined by a double underscore.
pub open spec fn join_path(segs: Seq<Seq<char>>) -> Seq<char>
    decreases segs.len(),
{
    if segs.len() == 0 {
        Seq::empty()
    } else if segs.len() == 1 {
        segs[0]
    } else {
        join_path(segs.drop_last()) + "__"@ + segs.last()
    }
}

pub fn flatten_path(segs: &Vec<String>) -> (r: String)
    ensures
        r@ == join_path(views(segs@)),
{
    let mut r = String::new();
    let mut i: usize = 0;
    while i < segs.len()
        invariant
            0 <= i <= segs.len(),
            r@ == join_path(views(segs@).take(i as int)),
        decreases segs.len() - i,
    {
        let ghost pre = views(segs@).take(i as int);
        let ghost next = views(segs@).take(i + 1);
        assert(next.drop_last() =~= pre);
        if i > 0 {
            r.append("__");
        } else {
            assert(r@ =~= Seq::<char>::empty());
        }
        r.append(segs[i].as_str());
        i = i + 1;
    }
    assert(views(segs@).take(segs.len() as int) =~= views(segs@));
    r
}

/// Source text of an integer literal.
pub open spec fn lit_text(v: IntLit) -> Seq<char> {
    if v.negative {
        "-"@ + decimal(v.magnitude as nat)
    } else {
        decimal(v.magnitude as nat)
    }
}

pub fn render_lit(v: IntLit) -> (r: String)
    ensures
        r@ == lit_text(v),
{
    let digits = decimal_string(v.magnitude);
    if v.negative {
        let mut r = String::from_str("-");
        r.append(digits.as_str());
        r
    } else {
        digits
    }
}

/// The expression that builds the descriptor of a type.
pub open spec fn type_expr(t: TypeRef) -> Seq<char>
    decreases t,
{
    match t {
        TypeRef::Named(p) => {
            let k = join_path(views(p@));
            match well_known(k) {
                Some(e) => e,
                None => k + "()"@,
            }
        },
        TypeRef::Array(e, n) => "__typ.sizedArray("@ + type_expr(*e) + ","@ + decimal(n as nat)
            + ")"@,
        TypeRef::Pointer(e) => "__typ.ptr("@ + type_expr(*e) + ")"@,
    }
}

/// The generated definitions that the expression of a type calls.
pub open spec fn type_deps(t: TypeRef) -> Seq<Seq<char>>
    decreases t,
{
    match t {
        TypeRef::Named(p) => {
            let k = join_path(views(p@));
            if well_known(k) is Some {
                Seq::empty()
            } else {
                seq![k]
            }
        },
        TypeRef::Array(e, _) => type_deps(*e),
        TypeRef::Pointer(e) => type_deps(*e),
    }
}

/// Renders a type reference into its descriptor expression and the names
/// of the definitions that expression depends on.
pub fn render_type(t: &TypeRef) -> (r: (String, Vec<String>))
    ensures
        r.0@ == type_expr(*t),
        views(r.1@) == type_deps(*t),
    decreases t,
{
    match t {
        TypeRef::Named(p) => {
            let k = flatten_path(p);
            match well_known_expr(k.as_str()) {
                Some(e) => {
                    let ghost d: Seq<Seq<char>> = Seq::empty();
                    let deps: Vec<String> = Vec::new();
                    assert(views(deps@) =~= d);
                    (String::from_str(e), deps)
                },
                None => {
                    let mut code = k.clone();
                    code.append("()");
                    let mut deps: Vec<String> = Vec::new();
                    deps.push(k);
                    assert(views(deps@) =~= seq![join_path(views(p@))]);
                    (code, deps)
                },
            }
        },
        TypeRef::Array(e, n) => {
            let (inner, deps) = render_type(e);
            let mut code = String::from_str("__typ.sizedArray(");
            code.append(inner.as_str());
            code.append(",");
            let len = decimal_string(*n as u128);
            code.append(len.as_str());
            code.append(")");
            (code, deps)
        },
        TypeRef::Pointer(e) => {
            let (inner, deps) = render_type(e);
            let mut code = String::from_str("__typ.ptr(");
            code.append(inner.as_str());
            code.append(")");
            (code, deps)
        },
    }
}

} // verus!
