//! Typed property values.

use vstd::prelude::*;

verus! {

/// What a property value is: a boolean, a number written as its literal
/// text, or a string.
pub enum FieldModel {
    Boolean(bool),
    Number(Seq<char>),
    Text(Seq<char>),
}

/// A property value. A number keeps the literal text it was written with,
/// so that it can be shown and written back unchanged.
#[derive(Debug, PartialEq)]
pub enum FieldValue {
    Boolean(bool),
    Number(String),
    Text(String),
}

impl View for FieldValue {
    type V = FieldModel;

    open spec fn view(&self) -> FieldModel {
        match self {
            FieldValue::Boolean(b) => FieldModel::Boolean(*b),
            FieldValue::Number(n) => FieldModel::Number(n@),
            FieldValue::Text(t) => FieldModel::Text(t@),
        }
    }
}

/// The texts of a list of strings.
pub open spec fn texts(v: Seq<String>) -> Seq<Seq<char>> {
    v.map_values(|s: String| s@)
}

/// The texts of an optional list of strings.
pub open spec fn opt_texts(o: Option<Vec<String>>) -> Option<Seq<Seq<char>>> {
    match o {
        Some(v) => Some(texts(v@)),
        None => None,
    }
}

/// A packaged default: its value and, when the defaults enumerate them,
/// the legal choices for it.
#[derive(Debug, PartialEq)]
pub struct DefaultEntry {
    pub value: FieldValue,
    pub options: Option<Vec<String>>,
}

/// What a packaged default is.
pub struct DefaultModel {
    pub value: FieldModel,
    pub options: Option<Seq<Seq<char>>>,
}

impl View for DefaultEntry {
    type V = DefaultModel;

    open spec fn view(&self) -> DefaultModel {
        DefaultModel { value: self.value@, options: opt_texts(self.options) }
    }
}

} // verus!
