//! The ways in which an expansion or a rendering can fail.

use vstd::prelude::*;
use vstd::string::*;

verus! {

/// Why a pattern could not be expanded, or a template not rendered.
#[derive(Debug, PartialEq, Eq)]
pub enum ExpandError {
    /// A bracket was opened inside a bracket group.
    NestedBrackets,
    /// The two ends of a range are not written with the same number of
    /// characters.
    MismatchedWidth,
    /// An end of a range is not a number. The token is kept as written.
    InvalidNumber(String),
    /// A template was given that has no placeholder in it.
    MissingPlaceholder,
}

/// An `ExpandError` as contracts see it.
pub enum Failure {
    NestedBrackets,
    MismatchedWidth,
    InvalidNumber(Seq<char>),
    MissingPlaceholder,
}

impl View for ExpandError {
    type V = Failure;

    open spec fn view(&self) -> Failure {
        match self {
            ExpandError::NestedBrackets => Failure::NestedBrackets,
            ExpandError::MismatchedWidth => Failure::MismatchedWidth,
            ExpandError::InvalidNumber(token) => Failure::InvalidNumber(token@),
            ExpandError::MissingPlaceholder => Failure::MissingPlaceholder,
        }
    }
}

/// The text that tells a user of a failure.
pub open spec fn message_text(failure: Failure) -> Seq<char> {
    match failure {
        Failure::NestedBrackets => "Cannot nest brackets in pattern"@,
        Failure::MismatchedWidth =>
            "Numbers used in range must be the same character length. E.g. You cannot use [0-09], you must use [00,09] or [0,9]."@,
        Failure::InvalidNumber(token) => "Invalid number '"@ + token
            + "' in hostname pattern"@,
        Failure::MissingPlaceholder =>
            "If pattern is used, it must contain at least one instance of '{}' for interpolation"@,
    }
}

impl ExpandError {
    /// The message for the user.
    pub fn message(&self) -> (text: String)
        ensures
            text@ == message_text(self@),
    {
        match self {
            ExpandError::NestedBrackets => String::from_str("Cannot nest brackets in pattern"),
            ExpandError::MismatchedWidth => String::from_str(
                "Numbers used in range must be the same character length. E.g. You cannot use [0-09], you must use [00,09] or [0,9].",
            ),
            ExpandError::InvalidNumber(token) => {
                let mut text = String::from_str("Invalid number '");
                text.append(token.as_str());
                text.append("' in hostname pattern");
                text
            },
            ExpandError::MissingPlaceholder => String::from_str(
                "If pattern is used, it must contain at least one instance of '{}' for interpolation",
            ),
        }
    }
}

} // verus!
