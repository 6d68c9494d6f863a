//! The typed value universe that operation nodes exchange, and the
//! compatibility rules between value types.
//!
//! Scalar and vector payloads are carried as raw bit patterns of the host's
//! floating-point encoding: the compiler never computes with them, it only
//! threads them from a literal binding to an emitted argument, so an opaque
//! bit pattern is the exact amount of information it needs. Rotations are
//! kept in a singularity-free quaternion form; converting to and from Euler
//! angles is the business of the boundary that displays or edits them.

use vstd::prelude::*;

verus! {

/// The declared type of a value slot.
#[derive(Clone, Copy, Debug, PartialEq, Eq, Structural)]
pub enum ValueType {
    /// A floating-point scalar.
    Scalar,
    /// An integral scalar, assignable to `Scalar` by widening.
    Integer,
    /// A 3-component vector.
    Vector3,
    /// A full transform: translation, rotation and scale.
    Transform,
    /// A text string.
    Text,
    /// A tag drawn from an operation-defined set of alternatives.
    Enum,
    /// An opaque handle to a mesh held by the external operation library.
    MeshRef,
}

/// The bit patterns of a 3-component vector.
#[derive(Clone, Copy, Debug, PartialEq, Eq, Structural)]
pub struct Vector3Bits {
    pub x: u32,
    pub y: u32,
    pub z: u32,
}

/// The bit patterns of a rotation quaternion.
#[derive(Clone, Copy, Debug, PartialEq, Eq, Structural)]
pub struct QuatBits {
    pub x: u32,
    pub y: u32,
    pub z: u32,
    pub w: u32,
}

/// One value travelling between nodes: either held by a literal input
/// binding or produced by an operation at run time.
#[derive(Clone, Debug, PartialEq)]
pub enum Value {
    /// A floating-point scalar, as the bit pattern of its encoding.
    Scalar { bits: u64 },
    /// An integral scalar.
    Integer { value: i64 },
    /// A 3-component vector, as bit patterns.
    Vector3 { vector: Vector3Bits },
    /// A transform with the rotation kept as a quaternion.
    Transform { translation: Vector3Bits, rotation: QuatBits, scale: Vector3Bits },
    /// A text string.
    Text { text: String },
    /// An enumeration tag.
    Enum { tag: String },
    /// An opaque mesh handle.
    MeshRef { handle: u64 },
}

/// The type of a value.
pub open spec fn value_type_of(v: Value) -> ValueType {
    match v {
        Value::Scalar { .. } => ValueType::Scalar,
        Value::Integer { .. } => ValueType::Integer,
        Value::Vector3 { .. } => ValueType::Vector3,
        Value::Transform { .. } => ValueType::Transform,
        Value::Text { .. } => ValueType::Text,
        Value::Enum { .. } => ValueType::Enum,
        Value::MeshRef { .. } => ValueType::MeshRef,
    }
}

/// Whether a value of type `from` may be bound to a slot of type `to`:
/// exact match, or the one whitelisted numeric widening `Integer` to
/// `Scalar`. There is no implicit conversion between meshes and scalars,
/// nor any other pair.
pub open spec fn is_assignable(from: ValueType, to: ValueType) -> bool {
    from == to || (from == ValueType::Integer && to == ValueType::Scalar)
}

impl Value {
    /// The declared type this value inhabits.
    pub fn value_type(&self) -> (t: ValueType)
        ensures
            t == value_type_of(*self),
    {
        match self {
            Value::Scalar { .. } => ValueType::Scalar,
            Value::Integer { .. } => ValueType::Integer,
            Value::Vector3 { .. } => ValueType::Vector3,
            Value::Transform { .. } => ValueType::Transform,
            Value::Text { .. } => ValueType::Text,
            Value::Enum { .. } => ValueType::Enum,
            Value::MeshRef { .. } => ValueType::MeshRef,
        }
    }

    /// An exact copy of this value.
    pub fn duplicate(&self) -> (r: Value)
        ensures
            r == *self,
    {
        match self {
            Value::Scalar { bits } => Value::Scalar { bits: *bits },
            Value::Integer { value } => Value::Integer { value: *value },
            Value::Vector3 { vector } => Value::Vector3 { vector: *vector },
            Value::Transform { translation, rotation, scale } => Value::Transform {
                translation: *translation,
                rotation: *rotation,
                scale: *scale,
            },
            Value::Text { text } => Value::Text { text: text.clone() },
            Value::Enum { tag } => Value::Enum { tag: tag.clone() },
            Value::MeshRef { handle } => Value::MeshRef { handle: *handle },
        }
    }
}

/// Executable form of [`is_assignable`].
pub fn assignable(from: ValueType, to: ValueType) -> (r: bool)
    ensures
        r == is_assignable(from, to),
{
    from == to || (from == ValueType::Integer && to == ValueType::Scalar)
}

} // verus!
