//! Payload types for context graphs: data, space, time and space-time nodes,
//! and the kinds of relation between them. The reasoning engine treats them as
//! opaque values.
use vstd::prelude::*;
use std::marker::PhantomData;
use crate::text::{push_str, string_from_chars};

verus! {

/// The unit a time value is counted in.
#[derive(Debug, Clone, Copy, PartialEq, Eq, Structural, Hash)]
pub enum TimeScale {
    NoScale,
    Nanoseconds,
    Microseconds,
    Milliseconds,
    Second,
    Minute,
    Hour,
    Day,
    Week,
    Month,
    Quarter,
    Year,
}

/// The kind of relation between two context nodes.
#[derive(Debug, Clone, Copy, PartialEq, Eq, Structural, Hash)]
pub enum RelationKind {
    /// Between data nodes.
    Datial,
    /// Between time nodes.
    Temporal,
    /// Between space nodes.
    Spatial,
    /// Between space-time nodes.
    SpaceTemporal,
}

/// The root of a context graph.
#[derive(Debug, Clone, Copy, PartialEq, Eq, Structural, Hash)]
pub struct Root {
    pub id: u64,
}

/// A data payload.
#[derive(Debug, Clone, Copy, PartialEq, Eq, Structural, Hash)]
pub struct Data<T> {
    pub id: u64,
    pub data: T,
}

/// A point in space.
#[derive(Debug, Clone, Copy, PartialEq, Eq, Structural, Hash)]
pub struct Space<T> {
    pub id: u64,
    pub x: T,
    pub y: T,
    pub z: T,
}

/// A point in time.
#[derive(Debug, Clone, Copy, PartialEq, Eq, Structural, Hash)]
pub struct Time<T> {
    pub id: u64,
    pub time_scale: TimeScale,
    pub time_unit: T,
}

/// A point in space and time.
#[derive(Debug, Clone, Copy, PartialEq, Eq, Structural, Hash)]
pub struct SpaceTime<T> {
    pub id: u64,
    pub time_scale: TimeScale,
    pub time_unit: T,
    pub x: T,
    pub y: T,
    pub z: T,
}

/// A data payload whose value may be adjusted.
#[derive(Debug, Clone, Copy, PartialEq, Eq, Structural, Hash)]
pub struct AdjustableData<T> {
    pub id: u64,
    pub data: T,
}

/// A point in space whose coordinates may be adjusted.
#[derive(Debug, Clone, Copy, PartialEq, Eq, Structural, Hash)]
pub struct AdjustableSpace<T> {
    pub id: u64,
    pub x: T,
    pub y: T,
    pub z: T,
}

/// A point in time whose value may be adjusted.
#[derive(Debug, Clone, Copy, PartialEq, Eq, Structural, Hash)]
pub struct AdjustableTime<T> {
    pub id: u64,
    pub time_scale: TimeScale,
    pub time_unit: T,
}

/// A point in space and time whose values may be adjusted.
#[derive(Debug, Clone, Copy, PartialEq, Eq, Structural, Hash)]
pub struct AdjustableSpaceTime<T> {
    pub id: u64,
    pub time_scale: TimeScale,
    pub time_unit: T,
    pub x: T,
    pub y: T,
    pub z: T,
}

impl<T: Copy> AdjustableSpaceTime<T> {
    /// The x coordinate.
    pub fn x(&self) -> (r: &T)
        ensures
            *r == self.x,
    {
        &self.x
    }

    /// The y coordinate.
    pub fn y(&self) -> (r: &T)
        ensures
            *r == self.y,
    {
        &self.y
    }

    /// The z coordinate.
    pub fn z(&self) -> (r: &T)
        ensures
            *r == self.z,
    {
        &self.z
    }
}

impl<T: Copy> SpaceTime<T> {
    /// The time value.
    pub fn t(&self) -> (r: &T)
        ensures
            *r == self.time_unit,
    {
        &self.time_unit
    }
}

/// What a context node holds: data, time, the root, space or space-time.
pub enum ContextoidType<D, S, T, ST, V> {
    Datoid(D),
    Tempoid(T),
    Root(Root),
    Spaceoid(S),
    SpaceTempoid(ST),
    Unreachable(PhantomData<V>),
}

impl<D, S, T, ST, V> ContextoidType<D, S, T, ST, V> {
    /// The root, when this is the root.
    pub fn root(&self) -> (r: Option<&Root>)
        ensures
            r is Some <==> self is Root,
            r matches Some(x) ==> self == &ContextoidType::<D, S, T, ST, V>::Root(*x),
    {
        if let ContextoidType::Root(b) = self {
            Some(b)
        } else {
            None
        }
    }

    /// The data, when this is a data node.
    pub fn dataoid(&self) -> (r: Option<&D>)
        ensures
            r is Some <==> self is Datoid,
            r matches Some(x) ==> self == &ContextoidType::<D, S, T, ST, V>::Datoid(*x),
    {
        if let ContextoidType::Datoid(b) = self {
            Some(b)
        } else {
            None
        }
    }

    /// The time, when this is a time node.
    pub fn tempoid(&self) -> (r: Option<&T>)
        ensures
            r is Some <==> self is Tempoid,
            r matches Some(x) ==> self == &ContextoidType::<D, S, T, ST, V>::Tempoid(*x),
    {
        if let ContextoidType::Tempoid(b) = self {
            Some(b)
        } else {
            None
        }
    }

    /// The space, when this is a space node.
    pub fn spaceiod(&self) -> (r: Option<&S>)
        ensures
            r is Some <==> self is Spaceoid,
            r matches Some(x) ==> self == &ContextoidType::<D, S, T, ST, V>::Spaceoid(*x),
    {
        if let ContextoidType::Spaceoid(b) = self {
            Some(b)
        } else {
            None
        }
    }

    /// The space-time, when this is a space-time node.
    pub fn space_tempoid(&self) -> (r: Option<&ST>)
        ensures
            r is Some <==> self is SpaceTempoid,
            r matches Some(x) ==> self == &ContextoidType::<D, S, T, ST, V>::SpaceTempoid(*x),
    {
        if let ContextoidType::SpaceTempoid(b) = self {
            Some(b)
        } else {
            None
        }
    }
}

/// A node of a context graph: an identifier and what it holds.
pub struct Contextoid<D, S, T, ST, V> {
    pub id: u64,
    pub vertex_type: ContextoidType<D, S, T, ST, V>,
}

impl<D, S, T, ST, V> Contextoid<D, S, T, ST, V> {
    /// A node with the given identifier and content.
    pub fn new(id: u64, vertex_type: ContextoidType<D, S, T, ST, V>) -> (r: Self)
        ensures
            r.id == id,
            r.vertex_type == vertex_type,
    {
        Contextoid { id, vertex_type }
    }
}

/// An error about an index, with its message.
#[derive(Debug, Clone)]
pub struct IndexError(pub String);

impl IndexError {
    /// An error with the given message.
    pub fn new(message: String) -> (r: Self)
        ensures
            r.0@ == message@,
    {
        IndexError(message)
    }

    /// The error as text: `IndexError: ` followed by the message.
    pub fn to_string(&self) -> (r: String)
        ensures
            r@ == "IndexError: "@ + self.0@,
    {
        let mut out: Vec<char> = Vec::new();
        push_str(&mut out, "IndexError: ");
        push_str(&mut out, self.0.as_str());
        string_from_chars(&out)
    }
}

} // verus!
