//! Classification of declared field types.
//!
//! An annotated data-type declaration supplies, for each field, the declared
//! type expression: a path of named segments, each possibly carrying
//! angle-bracketed type parameters, or some other form of type. The resolver
//! classifies each such expression into a canonical [`Type`]; it is total and
//! degrades to [`Type::Dummy`] instead of failing on anything it does not
//! recognize.

use crate::state::{SqlFields, Type};
use crate::order::str_eq;
use vstd::prelude::*;

verus! {

/// A declared type expression: a plain, unqualified path of segments, or any
/// other form (a qualified path, a reference, a tuple, ...), which the
/// resolver never inspects.
#[derive(Debug, PartialEq, Eq)]
pub enum TypeExpr {
    Path { segments: Vec<PathSegment> },
    Other,
}

/// One segment of a type path: its name and its angle-bracketed type
/// parameters, if any.
#[derive(Debug, PartialEq, Eq)]
pub struct PathSegment {
    pub name: std::string::String,
    pub args: Vec<TypeExpr>,
}

/// One field of an annotated data-type declaration: the field's name, or
/// `None` for a positional field, and its declared type.
#[derive(Debug, PartialEq, Eq)]
pub struct StructField {
    pub name: Option<std::string::String>,
    pub ty: TypeExpr,
}

/// Whether a type expression is a simple name: a single unqualified segment
/// without type parameters.
pub open spec fn is_simple_name(e: TypeExpr) -> bool {
    match e {
        TypeExpr::Path { segments } => segments@.len() == 1 && segments@[0].args@.len() == 0,
        TypeExpr::Other => false,
    }
}

/// The simple name of a type expression, when [`is_simple_name`] holds.
pub open spec fn simple_name(e: TypeExpr) -> std::string::String
    recommends
        is_simple_name(e),
{
    match e {
        TypeExpr::Path { segments } => segments@[0].name,
        TypeExpr::Other => arbitrary(),
    }
}

/// The classification of a single-segment type name.
pub open spec fn spec_resolve_segment(seg: PathSegment) -> Type {
    if seg.name@ == "String"@ {
        Type::String
    } else if seg.name@ == "i32"@ {
        Type::I32
    } else if seg.name@ == "u32"@ {
        Type::U32
    } else if seg.name@ == "ForeignKey"@ {
        if seg.args@.len() == 1 && is_simple_name(seg.args@[0]) {
            Type::Custom(simple_name(seg.args@[0]))
        } else {
            Type::Dummy
        }
    } else if seg.name@ == "PrimaryKey"@ {
        Type::I32
    } else {
        Type::Dummy
    }
}

/// The canonical classification of a declared type expression.
///
/// Only single-segment, unqualified names are inspected; a fixed set of
/// literal names maps to scalar kinds, the primary-key wrapper collapses to
/// `I32`, and the foreign-key wrapper with exactly one simple-name parameter
/// resolves to a `Custom` reference carrying that name. Everything else is
/// `Dummy`.
pub open spec fn spec_resolve(e: TypeExpr) -> Type {
    match e {
        TypeExpr::Path { segments } => {
            if segments@.len() == 1 {
                spec_resolve_segment(segments@[0])
            } else {
                Type::Dummy
            }
        },
        TypeExpr::Other => Type::Dummy,
    }
}

/// Classifies a declared field type into its canonical [`Type`]. Total:
/// every expression resolves to exactly one type, malformed ones to
/// [`Type::Dummy`] rather than an error.
pub fn field_ty_to_type(ty: TypeExpr) -> (typ: Type)
    ensures
        typ == spec_resolve(ty),
{
    match ty {
        TypeExpr::Other => Type::Dummy,
        TypeExpr::Path { mut segments } => {
            if segments.len() != 1 {
                return Type::Dummy;
            }
            let seg = segments.remove(0);
            let PathSegment { name, mut args } = seg;
            if str_eq(name.as_str(), "String") {
                Type::String
            } else if str_eq(name.as_str(), "i32") {
                Type::I32
            } else if str_eq(name.as_str(), "u32") {
                Type::U32
            } else if str_eq(name.as_str(), "ForeignKey") {
                if args.len() != 1 {
                    return Type::Dummy;
                }
                match args.remove(0) {
                    TypeExpr::Path { mut segments } => {
                        if segments.len() != 1 {
                            return Type::Dummy;
                        }
                        let target = segments.remove(0);
                        if target.args.len() == 0 {
                            Type::Custom(target.name)
                        } else {
                            Type::Dummy
                        }
                    },
                    TypeExpr::Other => Type::Dummy,
                }
            } else if str_eq(name.as_str(), "PrimaryKey") {
                Type::I32
            } else {
                Type::Dummy
            }
        },
    }
}

/// The field collection described by a sequence of declared fields: every
/// named field is bound to the classification of its declared type, a later
/// binding of the same name replacing an earlier one; positional fields are
/// skipped.
pub open spec fn spec_fields_map(fields: Seq<StructField>) -> Map<Seq<char>, Type>
    decreases fields.len(),
{
    if fields.len() == 0 {
        Map::empty()
    } else {
        let rest = spec_fields_map(fields.drop_last());
        match fields.last().name {
            Some(n) => rest.insert(n@, spec_resolve(fields.last().ty)),
            None => rest,
        }
    }
}

/// Converts the declared fields of an annotated data type to a field
/// collection, classifying each declared type.
pub fn fields_vec_to_hashmap(fields: Vec<StructField>) -> (r: SqlFields)
    ensures
        r.wf(),
        r.as_map() == spec_fields_map(fields@),
{
    let ghost all = fields@;
    let mut fields = fields;
    let mut sql_fields = SqlFields::new();
    let ghost k: int = 0;
    proof {
        assert(all.take(0) =~= Seq::<StructField>::empty());
        assert(sql_fields.as_map() =~= spec_fields_map(all.take(0)));
    }
    while fields.len() > 0
        invariant
            0 <= k <= all.len(),
            fields@ =~= all.skip(k),
            sql_fields.wf(),
            sql_fields.as_map() == spec_fields_map(all.take(k)),
        decreases fields@.len(),
    {
        let field = fields.remove(0);
        proof {
            assert(field == all[k]);
            assert(fields@ =~= all.skip(k + 1));
        }
        match field {
            StructField { name: Some(ident), ty } => {
                let typ = field_ty_to_type(ty);
                sql_fields.insert(ident, typ);
            },
            StructField { name: None, ty: _ } => {},
        }
        proof {
            assert(all.take(k + 1).drop_last() =~= all.take(k));
            assert(all.take(k + 1).last() == all[k]);
            k = k + 1;
        }
    }
    proof {
        assert(all.take(k) =~= all);
    }
    sql_fields
}

} // verus!
