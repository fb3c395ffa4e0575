use vstd::prelude::*;

verus! {

#[verifier::external_type_specification]
#[verifier::external_body]
pub struct ExParseIntError(std::num::ParseIntError);

#[verifier::external_type_specification]
#[verifier::external_body]
pub struct ExIoError(std::io::Error);

/// Everything that can go wrong while parsing slices or selecting fields.
#[derive(Debug)]
pub enum Error {
    /// Reading the input failed.
    IO(std::io::Error),
    /// A bound or the step of `slice` is not an integer that fits in `isize`.
    ParseIntError { slice: String, source: std::num::ParseIntError },
    /// The slice is malformed: more than two colons, or a step of zero.
    ParseRangeError(ParseRangeError),
    /// The range at position `range` selects a field outside `0..fields`.
    IndexOutOfBounds { range: usize, fields: usize },
}

/// A slice expression whose shape is invalid.
#[derive(Debug)]
pub struct ParseRangeError {
    pub slice: String,
}

/// The kind of a parse failure, as the contracts speak of it.
#[derive(Debug, Clone, Copy, PartialEq, Eq, Structural)]
pub enum Fault {
    /// A part is not an integer.
    Number,
    /// Too many parts, or a step of zero.
    Shape,
}

impl Error {
    /// The slice text and kind of a parse error; `None` for the other errors.
    pub open spec fn parse_fault(self) -> Option<(Seq<char>, Fault)> {
        match self {
            Error::ParseIntError { slice, .. } => Some((slice@, Fault::Number)),
            Error::ParseRangeError(e) => Some((e.slice@, Fault::Shape)),
            _ => None,
        }
    }
}

} // verus!
