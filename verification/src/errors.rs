//! The library's error taxonomy and the exact report each error carries.
use vstd::prelude::*;
use crate::ranges::RangeParseError;

verus! {

/// Everything the rendering core can refuse: a malformed range token, a bad
/// context field (with its format class), filename overrides that do not
/// match the inputs one to one, and bytes that do not decode in their
/// announced encoding.
#[derive(Clone, Copy, PartialEq, Eq, Structural, Debug)]
pub enum KitError {
    InvalidRangeSyntax,
    InvalidContext { bounded: bool },
    AmbiguousFilenameOverride,
    DecodeFault,
}

/// The range-parse error as a library error.
pub open spec fn from_range_error_spec(e: RangeParseError) -> KitError {
    match e {
        RangeParseError::Syntax => KitError::InvalidRangeSyntax,
        RangeParseError::Context { bounded } => KitError::InvalidContext { bounded },
    }
}

pub fn from_range_error(e: RangeParseError) -> (r: KitError)
    ensures
        r == from_range_error_spec(e),
{
    match e {
        RangeParseError::Syntax => KitError::InvalidRangeSyntax,
        RangeParseError::Context { bounded } => KitError::InvalidContext { bounded },
    }
}

/// The words each error is reported with.
pub open spec fn error_message_spec(e: KitError) -> Seq<char> {
    match e {
        KitError::InvalidRangeSyntax => "Invalid line range format"@,
        KitError::InvalidContext { bounded } => if bounded {
            "Invalid context number in N:M:C format"@
        } else {
            "Invalid context number in N::C format"@
        },
        KitError::AmbiguousFilenameOverride => "Must be one file name per input file"@,
        KitError::DecodeFault => "Input could not be decoded in its announced encoding"@,
    }
}

/// Render the report for an error.
pub fn error_message(e: &KitError) -> (r: String)
    ensures
        r@ == error_message_spec(*e),
{
    match e {
        KitError::InvalidRangeSyntax => "Invalid line range format".to_owned(),
        KitError::InvalidContext { bounded } => if *bounded {
            "Invalid context number in N:M:C format".to_owned()
        } else {
            "Invalid context number in N::C format".to_owned()
        },
        KitError::AmbiguousFilenameOverride => "Must be one file name per input file".to_owned(),
        KitError::DecodeFault => "Input could not be decoded in its announced encoding".to_owned(),
    }
}

} // verus!
