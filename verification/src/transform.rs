use vstd::prelude::*;

verus! {

/// Bit pattern of the IEEE 754 single-precision number 0.0.
pub const F32_ZERO_BITS: u32 = 0;

/// Bit pattern of the IEEE 754 single-precision number 1.0.
pub const F32_ONE_BITS: u32 = 0x3F800000;

/// A three-component vector, each component the raw bit pattern of an IEEE
/// 754 single-precision number.
///
/// The transform store never interprets these numbers: it moves, stores and
/// persists them bit-exactly. Numeric work — composing a child's local
/// transform with its parent's world transform — is done by the embedding
/// application, which reads and writes the same bit patterns.
#[derive(Clone, Copy, PartialEq, Eq, Structural, Debug)]
pub struct Vec3Bits {
    pub x: u32,
    pub y: u32,
    pub z: u32,
}

/// A quaternion (scalar part first), each component the raw bit pattern of
/// an IEEE 754 single-precision number.
#[derive(Clone, Copy, PartialEq, Eq, Structural, Debug)]
pub struct QuatBits {
    pub s: u32,
    pub x: u32,
    pub y: u32,
    pub z: u32,
}

/// The zero vector.
pub open spec fn spec_vec3_zero() -> Vec3Bits {
    Vec3Bits { x: F32_ZERO_BITS, y: F32_ZERO_BITS, z: F32_ZERO_BITS }
}

/// The identity rotation.
pub open spec fn spec_quat_identity() -> QuatBits {
    QuatBits { s: F32_ONE_BITS, x: F32_ZERO_BITS, y: F32_ZERO_BITS, z: F32_ZERO_BITS }
}

impl Vec3Bits {
    /// A vector from three component bit patterns.
    pub fn new(x: u32, y: u32, z: u32) -> (r: Vec3Bits)
        ensures
            r == (Vec3Bits { x, y, z }),
    {
        Vec3Bits { x, y, z }
    }

    /// The zero vector.
    pub fn zero() -> (r: Vec3Bits)
        ensures
            r == spec_vec3_zero(),
    {
        Vec3Bits { x: F32_ZERO_BITS, y: F32_ZERO_BITS, z: F32_ZERO_BITS }
    }
}

impl QuatBits {
    /// A quaternion from four component bit patterns, scalar part first.
    pub fn new(s: u32, x: u32, y: u32, z: u32) -> (r: QuatBits)
        ensures
            r == (QuatBits { s, x, y, z }),
    {
        QuatBits { s, x, y, z }
    }

    /// The identity rotation.
    pub fn identity() -> (r: QuatBits)
        ensures
            r == spec_quat_identity(),
    {
        QuatBits { s: F32_ONE_BITS, x: F32_ZERO_BITS, y: F32_ZERO_BITS, z: F32_ZERO_BITS }
    }
}

} // verus!
