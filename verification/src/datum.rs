//! Typed values of table columns and their byte format.

pub mod serialize;

use vstd::prelude::*;

verus! {

/// The type of a column.
#[derive(Debug, PartialEq, Eq, Structural, Clone, Copy)]
pub enum Type {
    /// Text.
    String,
    /// A signed integer of eight bytes.
    Int8,
    /// A truth value.
    Bool,
}

/// Whether a column may hold nulls.
#[derive(Debug, PartialEq, Eq, Structural, Clone, Copy)]
pub enum Nullability {
    /// The column may hold nulls.
    Nullable,
    /// The column holds no nulls.
    NotNull,
}

/// A value of a column.
#[derive(Debug, PartialEq, Eq, Clone)]
pub enum Datum {
    /// Text.
    String(String),
    /// A signed integer of eight bytes.
    Int8(i64),
    /// A truth value.
    Bool(bool),
    /// No value.
    Null,
}

/// What a datum holds.
pub enum DatumView {
    /// Text.
    String(Seq<char>),
    /// A signed integer of eight bytes.
    Int8(i64),
    /// A truth value.
    Bool(bool),
    /// No value.
    Null,
}

impl View for Datum {
    type V = DatumView;

    open spec fn view(&self) -> DatumView {
        match self {
            Datum::String(text) => DatumView::String(text@),
            Datum::Int8(value) => DatumView::Int8(*value),
            Datum::Bool(value) => DatumView::Bool(*value),
            Datum::Null => DatumView::Null,
        }
    }
}

impl DatumView {
    /// The type of the datum, or `None` for null.
    pub open spec fn ty(self) -> Option<Type> {
        match self {
            DatumView::String(_) => Some(Type::String),
            DatumView::Int8(_) => Some(Type::Int8),
            DatumView::Bool(_) => Some(Type::Bool),
            DatumView::Null => None,
        }
    }
}

impl Datum {
    /// The type of the datum, or `None` for null.
    pub fn ty(&self) -> (ty: Option<Type>)
        ensures
            ty == self@.ty(),
    {
        match self {
            Datum::String(_) => Some(Type::String),
            Datum::Int8(_) => Some(Type::Int8),
            Datum::Bool(_) => Some(Type::Bool),
            Datum::Null => None,
        }
    }
}

} // verus!
