//! Error values of the binding layer.

use vstd::prelude::*;

verus! {

/// Why an endpoint definition was refused. Definition errors are found once,
/// when the endpoint is defined, and are never worth retrying.
#[derive(Clone, Copy, Debug, PartialEq, Eq, Structural)]
pub enum DefinitionError {
    /// None of the unstable, r0 and stable path templates is present.
    NoPath,
    /// The lifecycle markers that are present are not in ascending order.
    InvalidLifecycle,
    /// More than one raw body field, or a raw body field beside body fields.
    ConflictingBodyPlacement,
    /// A placement stands where it has no meaning: on the error type, or a
    /// second catch-all query map in one message.
    UnsupportedPlacement,
    /// A path field has no placeholder of its name in some path template.
    UnboundPathField,
}

/// Why a piece of text could not be read as a scalar.
#[derive(Clone, Copy, Debug, PartialEq, Eq, Structural)]
pub enum ScalarFault {
    /// The text is empty.
    Empty,
    /// The text holds a character that is not a decimal digit where one is
    /// needed, or a sign with nothing behind it.
    InvalidDigit,
    /// The number is above the largest value of the target type.
    PosOverflow,
    /// The number is below the smallest value of the target type.
    NegOverflow,
    /// The text is neither `true` nor `false`.
    NotBoolean,
}

/// Why a wire message or a query string could not be decoded. Each call
/// fails as a whole and leaves nothing behind, so the caller may go on.
#[derive(Clone, Copy, Debug, PartialEq, Eq, Structural)]
pub enum DecodingError {
    /// A percent escape is incomplete or the unescaped bytes are not UTF-8.
    Malformed,
    /// A value could not be parsed as the scalar that the target asks for.
    InvalidScalar(ScalarFault),
    /// The value names a variant that carries data.
    ExpectedUnitVariant,
    /// A field that the target requires is not in the input.
    MissingField,
    /// Entries are present where the target takes none.
    UnexpectedData,
    /// The data does not have the shape that the target asks for: repeated
    /// values for a scalar, or a name that is no variant of the target.
    StructuralMismatch,
}

/// Why a value could not be written to the wire.
#[derive(Clone, Copy, Debug, PartialEq, Eq, Structural)]
pub enum EncodingError {
    /// The value has no representation in the place it is bound to.
    Unrepresentable,
    /// The chosen path template has no placeholder for some path field.
    UnboundPathField,
}

} // verus!
