//! Tests for the type resolver.

use tql::attribute::{field_ty_to_type, fields_vec_to_hashmap, PathSegment, StructField, TypeExpr};
use tql::state::Type;

fn simple(name: &str) -> TypeExpr {
    TypeExpr::Path {
        segments: vec![PathSegment { name: name.to_string(), args: vec![] }],
    }
}

fn wrapper(name: &str, args: Vec<TypeExpr>) -> TypeExpr {
    TypeExpr::Path {
        segments: vec![PathSegment { name: name.to_string(), args }],
    }
}

#[test]
fn string_name_resolves_to_string() {
    assert_eq!(field_ty_to_type(simple("String")), Type::String);
}

#[test]
fn i32_name_resolves_to_i32() {
    assert_eq!(field_ty_to_type(simple("i32")), Type::I32);
}

#[test]
fn u32_name_resolves_to_u32() {
    assert_eq!(field_ty_to_type(simple("u32")), Type::U32);
}

#[test]
fn primary_key_resolves_to_i32() {
    assert_eq!(field_ty_to_type(simple("PrimaryKey")), Type::I32);
}

#[test]
fn foreign_key_resolves_to_custom() {
    let expr = wrapper("ForeignKey", vec![simple("Foo")]);
    assert_eq!(field_ty_to_type(expr), Type::Custom("Foo".to_string()));
}

#[test]
fn foreign_key_without_parameter_resolves_to_dummy() {
    let expr = wrapper("ForeignKey", vec![]);
    assert_eq!(field_ty_to_type(expr), Type::Dummy);
}

#[test]
fn foreign_key_with_two_parameters_resolves_to_dummy() {
    let expr = wrapper("ForeignKey", vec![simple("Foo"), simple("Bar")]);
    assert_eq!(field_ty_to_type(expr), Type::Dummy);
}

#[test]
fn foreign_key_with_qualified_parameter_resolves_to_dummy() {
    let qualified = TypeExpr::Path {
        segments: vec![
            PathSegment { name: "posts".to_string(), args: vec![] },
            PathSegment { name: "Post".to_string(), args: vec![] },
        ],
    };
    let expr = wrapper("ForeignKey", vec![qualified]);
    assert_eq!(field_ty_to_type(expr), Type::Dummy);
}

#[test]
fn foreign_key_with_other_parameter_resolves_to_dummy() {
    let expr = wrapper("ForeignKey", vec![TypeExpr::Other]);
    assert_eq!(field_ty_to_type(expr), Type::Dummy);
}

#[test]
fn unrecognized_name_resolves_to_dummy() {
    assert_eq!(field_ty_to_type(simple("Bar")), Type::Dummy);
}

#[test]
fn qualified_name_resolves_to_dummy() {
    let expr = TypeExpr::Path {
        segments: vec![
            PathSegment { name: "mymod".to_string(), args: vec![] },
            PathSegment { name: "Bar".to_string(), args: vec![] },
        ],
    };
    assert_eq!(field_ty_to_type(expr), Type::Dummy);
}

#[test]
fn non_path_type_resolves_to_dummy() {
    assert_eq!(field_ty_to_type(TypeExpr::Other), Type::Dummy);
}

#[test]
fn fields_are_classified_and_sorted() {
    let fields = vec![
        StructField { name: Some("title".to_string()), ty: simple("String") },
        StructField { name: Some("id".to_string()), ty: simple("PrimaryKey") },
        StructField { name: Some("author".to_string()), ty: wrapper("ForeignKey", vec![simple("User")]) },
    ];
    let collection = fields_vec_to_hashmap(fields);
    let entries: Vec<(String, Type)> = collection.fields;
    assert_eq!(entries.len(), 3);
    assert_eq!(entries[0], ("author".to_string(), Type::Custom("User".to_string())));
    assert_eq!(entries[1], ("id".to_string(), Type::I32));
    assert_eq!(entries[2], ("title".to_string(), Type::String));
}

#[test]
fn unnamed_fields_are_skipped() {
    let fields = vec![
        StructField { name: None, ty: simple("i32") },
        StructField { name: Some("name".to_string()), ty: simple("String") },
    ];
    let collection = fields_vec_to_hashmap(fields);
    assert_eq!(collection.fields.len(), 1);
    assert_eq!(collection.fields[0], ("name".to_string(), Type::String));
}

#[test]
fn later_duplicate_field_wins() {
    let fields = vec![
        StructField { name: Some("x".to_string()), ty: simple("i32") },
        StructField { name: Some("x".to_string()), ty: simple("String") },
    ];
    let collection = fields_vec_to_hashmap(fields);
    assert_eq!(collection.fields.len(), 1);
    assert_eq!(collection.fields[0], ("x".to_string(), Type::String));
}

#[test]
fn type_text_spellings() {
    assert_eq!(Type::Bool.to_text(), "bool");
    assert_eq!(Type::ByteString.to_text(), "Vec<u8>");
    assert_eq!(Type::Char.to_text(), "char");
    assert_eq!(Type::Custom("User".to_string()).to_text(), "User");
    assert_eq!(Type::Dummy.to_text(), "");
    assert_eq!(Type::F32.to_text(), "f32");
    assert_eq!(Type::F64.to_text(), "f64");
    assert_eq!(Type::I32.to_text(), "i32");
    assert_eq!(Type::I64.to_text(), "i64");
    assert_eq!(Type::String.to_text(), "String");
    assert_eq!(Type::U8.to_text(), "u8");
    assert_eq!(Type::U32.to_text(), "u32");
}
