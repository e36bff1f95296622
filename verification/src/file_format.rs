//! The contents of a project file: circuits as they are drawn, with positions, wires and
//! hierarchy.
//!
//! Which component types exist and which attributes they take is not decided here: `type_` and
//! `attrs` are interpreted by [`crate::compile`].
use vstd::prelude::*;
use crate::name_map::NameMap;

verus! {

/// An attribute's value: what a JSON value can be, as far as attributes are read. Of a list it
/// holds for each entry the integer that it is, if it is one. A number that is not an integer
/// in the range of `i64`, and an object, are `Other`.
#[derive(Debug, Clone)]
pub enum AttrValue {
    Null,
    Bool(bool),
    Int(i64),
    Str(String),
    Array(Vec<Option<i64>>),
    Other,
}

impl AttrValue {
    /// The integer that the value is, if it is one.
    pub fn as_i64(&self) -> (r: Option<i64>)
        ensures
            r == (match *self {
                AttrValue::Int(i) => Some(i),
                _ => None,
            }),
    {
        match self {
            AttrValue::Int(i) => Some(*i),
            _ => None,
        }
    }

    /// The text that the value is, if it is one.
    pub fn as_str(&self) -> (r: Option<&str>)
        ensures
            match (r, *self) {
                (Some(a), AttrValue::Str(b)) => a@ == b@,
                (None, AttrValue::Str(_)) => false,
                (None, _) => true,
                _ => false,
            },
    {
        match self {
            AttrValue::Str(s) => Some(s.as_str()),
            _ => None,
        }
    }

    /// The truth value that the value is, if it is one.
    pub fn as_bool(&self) -> (r: Option<bool>)
        ensures
            r == (match *self {
                AttrValue::Bool(b) => Some(b),
                _ => None,
            }),
    {
        match self {
            AttrValue::Bool(b) => Some(*b),
            _ => None,
        }
    }

    /// The list that the value is, if it is one.
    pub fn as_array(&self) -> (r: Option<&Vec<Option<i64>>>)
        ensures
            match (r, *self) {
                (Some(a), AttrValue::Array(b)) => *a == b,
                (None, AttrValue::Array(_)) => false,
                (None, _) => true,
                _ => false,
            },
    {
        match self {
            AttrValue::Array(v) => Some(v),
            _ => None,
        }
    }
}

/// A project: circuits, and which of them is the main one.
#[derive(Debug, Clone)]
pub struct ProjectFile {
    pub schema_version: u32,
    pub main_circuit: String,
    pub circuits: Vec<Circuit>,
}

/// A circuit as drawn.
#[derive(Debug, Clone)]
pub struct Circuit {
    pub name: String,
    pub components: Vec<ComponentInstance>,
    pub wires: Vec<WireSegment>,
    pub annotations: Vec<Annotation>,
}

/// A placed component: one of the built-in types (`core:...`), or an instance of another
/// circuit (`core:circuit/<name>`).
#[derive(Debug, Clone)]
pub struct ComponentInstance {
    pub id: String,
    pub type_: String,
    pub x: i32,
    pub y: i32,
    pub facing: Facing,
    pub attrs: NameMap<AttrValue>,
}

/// The direction that a component faces.
#[derive(Debug, Clone, Copy, PartialEq, Eq, Structural)]
pub enum Facing {
    East,
    West,
    North,
    South,
}

impl Default for Facing {
    fn default() -> (r: Self)
        ensures
            r == Facing::East,
    {
        Facing::East
    }
}

/// A wire between two points. Wires meet where they share an end point.
#[derive(Debug, Clone, PartialEq)]
pub struct WireSegment {
    pub id: String,
    pub from: [i32; 2],
    pub to: [i32; 2],
}

/// A note on the drawing. It has no pins and no part in the simulation.
#[derive(Debug, Clone, PartialEq)]
pub struct Annotation {
    pub id: String,
    pub kind: String,
    pub x: i32,
    pub y: i32,
    pub text: Option<String>,
}

} // verus!
