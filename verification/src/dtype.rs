//! The numeric representations that matrices may arrive in, by name.
//!
//! A caller names the element type of its arrays once, at the boundary. The
//! name is resolved here to one of a closed set of supported types, and a
//! name outside that set is rejected.

use vstd::prelude::*;
use crate::text::reads;
use crate::similarity::SimilarityError;

verus! {

/// The integer types in which the positions of a sparsity pattern may be
/// stored.
#[derive(Debug, Clone, Copy, PartialEq, Eq, Structural)]
pub enum IndexWidth {
    Int32,
    Int64,
}

/// The floating-point types in which the values of a dense matrix may be
/// stored.
#[derive(Debug, Clone, Copy, PartialEq, Eq, Structural)]
pub enum FloatWidth {
    Float32,
    Float64,
}

/// The element types from which the arrays of a sparse matrix may be
/// converted.
#[derive(Debug, Clone, Copy, PartialEq, Eq, Structural)]
pub enum ElementType {
    UInt32,
    Int32,
    UInt64,
    Int64,
    Float32,
    Float64,
}

/// The index type that `name` names.
pub open spec fn index_width_of(name: Seq<char>) -> Result<IndexWidth, SimilarityError> {
    if name == "int32"@ {
        Ok(IndexWidth::Int32)
    } else if name == "int64"@ {
        Ok(IndexWidth::Int64)
    } else {
        Err(SimilarityError::UnsupportedType)
    }
}

/// The floating-point type that `name` names.
pub open spec fn float_width_of(name: Seq<char>) -> Result<FloatWidth, SimilarityError> {
    if name == "float32"@ {
        Ok(FloatWidth::Float32)
    } else if name == "float64"@ {
        Ok(FloatWidth::Float64)
    } else {
        Err(SimilarityError::UnsupportedType)
    }
}

/// The element type that `name` names.
pub open spec fn element_type_of(name: Seq<char>) -> Result<ElementType, SimilarityError> {
    if name == "uint32"@ {
        Ok(ElementType::UInt32)
    } else if name == "int32"@ {
        Ok(ElementType::Int32)
    } else if name == "uint64"@ {
        Ok(ElementType::UInt64)
    } else if name == "int64"@ {
        Ok(ElementType::Int64)
    } else if name == "float32"@ {
        Ok(ElementType::Float32)
    } else if name == "float64"@ {
        Ok(ElementType::Float64)
    } else {
        Err(SimilarityError::UnsupportedType)
    }
}

/// Resolves the name of an index type: `int32` or `int64`.
pub fn index_width(name: &String) -> (r: Result<IndexWidth, SimilarityError>)
    ensures
        r == index_width_of(name@),
{
    if reads(name, "int32") {
        Ok(IndexWidth::Int32)
    } else if reads(name, "int64") {
        Ok(IndexWidth::Int64)
    } else {
        Err(SimilarityError::UnsupportedType)
    }
}

/// Resolves the name of a floating-point type: `float32` or `float64`.
pub fn float_width(name: &String) -> (r: Result<FloatWidth, SimilarityError>)
    ensures
        r == float_width_of(name@),
{
    if reads(name, "float32") {
        Ok(FloatWidth::Float32)
    } else if reads(name, "float64") {
        Ok(FloatWidth::Float64)
    } else {
        Err(SimilarityError::UnsupportedType)
    }
}

/// Resolves the name of an element type: `uint32`, `int32`, `uint64`,
/// `int64`, `float32` or `float64`.
pub fn element_type(name: &String) -> (r: Result<ElementType, SimilarityError>)
    ensures
        r == element_type_of(name@),
{
    if reads(name, "uint32") {
        Ok(ElementType::UInt32)
    } else if reads(name, "int32") {
        Ok(ElementType::Int32)
    } else if reads(name, "uint64") {
        Ok(ElementType::UInt64)
    } else if reads(name, "int64") {
        Ok(ElementType::Int64)
    } else if reads(name, "float32") {
        Ok(ElementType::Float32)
    } else if reads(name, "float64") {
        Ok(ElementType::Float64)
    } else {
        Err(SimilarityError::UnsupportedType)
    }
}

} // verus!
