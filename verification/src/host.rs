//! Values of the host evaluator, as the plugins see them: opaque handles,
//! and the kinds of value the host tells apart.
use vstd::prelude::*;

verus! {

/// A value held by the host, known to the plugin by its handle.
#[derive(Clone, Copy, Debug, PartialEq, Eq, Hash)]
pub struct Value(pub u32);

/// The kinds of value of the host.
#[derive(Clone, Copy, Debug, PartialEq, Eq)]
pub enum Type {
    Int,
    Float,
    Bool,
    String,
    Path,
    Null,
    Attrs,
    List,
    Function,
}

/// The number by which the host names each kind of value.
pub open spec fn type_code(t: Type) -> u32 {
    match t {
        Type::Int => 1,
        Type::Float => 2,
        Type::Bool => 3,
        Type::String => 4,
        Type::Path => 5,
        Type::Null => 6,
        Type::Attrs => 7,
        Type::List => 8,
        Type::Function => 9,
    }
}

/// The kind of value the host names by `code`; `None` for a number that
/// names none.
pub fn type_of_code(code: u32) -> (r: Option<Type>)
    ensures
        match r {
            Some(t) => type_code(t) == code,
            None => !(1 <= code <= 9),
        },
{
    match code {
        1 => Some(Type::Int),
        2 => Some(Type::Float),
        3 => Some(Type::Bool),
        4 => Some(Type::String),
        5 => Some(Type::Path),
        6 => Some(Type::Null),
        7 => Some(Type::Attrs),
        8 => Some(Type::List),
        9 => Some(Type::Function),
        _ => None,
    }
}

} // verus!
