//! Names for the attributes of a point.

use vstd::prelude::*;

verus! {

/// A number type that an attribute can be stored in.
#[derive(Debug, Clone)]
pub struct PointAttributeType {
    pub ordinal: usize,
    pub name: &'static str,
    /// Bytes of one number of this type.
    pub size: u16,
}

/// A group of attributes that form one vector.
#[derive(Debug, Clone)]
pub struct PointVector {
    pub name: String,
    pub attributes: Vec<String>,
}

} // verus!
