//! The error taxonomy of the codec.

use vstd::prelude::*;

verus! {

/// Everything that can go wrong while registering a type or while
/// encoding or decoding a value.
///
/// Registration errors (`DuplicateTypeId`, `TypeIdTooLarge`,
/// `MultipleDefaultVariants`, `InvalidSchema`) are reported synchronously by
/// `register`, which then leaves the registry unchanged. The remaining
/// variants are decode-time (or, for `ValueMismatch`, encode-time) failures:
/// they abort the enclosing call without touching the registry.
#[derive(Clone, Copy, Debug, PartialEq, Eq, Structural)]
pub enum CodecError {
    /// `register` was given a type id that is already bound.
    DuplicateTypeId,
    /// `register` was given a type id too large to share the wire word
    /// with the internal type tag.
    TypeIdTooLarge,
    /// An enum declaration marks more than one variant as the default.
    MultipleDefaultVariants,
    /// A declaration breaks some other registration-time rule: an enum with
    /// no variants or a skip-marked default variant, a struct with repeated
    /// field names or too many fields, or a non-composite root type.
    InvalidSchema,
    /// A decode referenced a type id with no matching registration.
    UnknownTypeId,
    /// The type information on the wire does not match the expected type.
    TypeInfoMismatch,
    /// A decoded enum ordinal matches no entry of the variant table.
    UnknownEnumValue,
    /// The input is truncated or holds an out-of-range encoding.
    MalformedData,
    /// The value handed to `serialize` does not have the registered shape.
    ValueMismatch,
}

impl CodecError {
    /// A short stable diagnostic name for the error.
    pub fn describe(&self) -> (r: &'static str)
        ensures
            r@ == self.spec_describe(),
    {
        match self {
            CodecError::DuplicateTypeId => "type id is already bound",
            CodecError::TypeIdTooLarge => "type id is too large",
            CodecError::MultipleDefaultVariants => "more than one default variant",
            CodecError::InvalidSchema => "invalid type declaration",
            CodecError::UnknownTypeId => "unknown type id",
            CodecError::TypeInfoMismatch => "type info does not match",
            CodecError::UnknownEnumValue => "unknown enum value",
            CodecError::MalformedData => "malformed data",
            CodecError::ValueMismatch => "value does not match its schema",
        }
    }

    /// What `describe` returns, as a sequence of characters.
    pub open spec fn spec_describe(&self) -> Seq<char> {
        match self {
            CodecError::DuplicateTypeId => "type id is already bound"@,
            CodecError::TypeIdTooLarge => "type id is too large"@,
            CodecError::MultipleDefaultVariants => "more than one default variant"@,
            CodecError::InvalidSchema => "invalid type declaration"@,
            CodecError::UnknownTypeId => "unknown type id"@,
            CodecError::TypeInfoMismatch => "type info does not match"@,
            CodecError::UnknownEnumValue => "unknown enum value"@,
            CodecError::MalformedData => "malformed data"@,
            CodecError::ValueMismatch => "value does not match its schema"@,
        }
    }
}

} // verus!
