use vstd::prelude::*;

verus! {

use vstd::string::StringExecFns;
use crate::text::dec_text;
use crate::text::u64_to_string;

/// Every failure the metadata engine reports.
///
/// Format errors (`SyntaxError`, `DuplicateProperty`, `DuplicateBranch`,
/// `OrphanedPatch`, `NotParseable`, `UnrecognizedFormat`) and the
/// consistency error `OutOfSync` are fatal to loading a snapshot;
/// `Precondition` marks an operation invoked against a patch or branch
/// not in the required state.
#[derive(Debug)]
pub enum Error {
    /// A flag read found the name bound to a value.
    PropertyIsValue { name: String },
    /// A value read found the name bound as a bare flag.
    PropertyIsFlag { name: String },
    /// A stored value could not be converted to the requested type.
    NotParseable { name: String },
    /// A line that matches no directive, with its 0-based line number.
    SyntaxError { line: usize, text: String },
    /// A property name repeated within one scope.
    DuplicateProperty { line: usize, name: String },
    /// A branch section name repeated within one body.
    DuplicateBranch { line: usize, name: String },
    /// A patch directive outside any branch section.
    OrphanedPatch { line: usize, id: String },
    /// A patch identifier that is not a hexadecimal hash.
    InvalidId { line: usize, id: String },
    /// A commit whose summary is not this engine's magic string.
    UnrecognizedFormat,
    /// Metadata disagrees with the real commit ancestry of a branch.
    OutOfSync,
    /// The revision counter cannot be increased further.
    RevisionOverflow,
    /// An operation's state precondition does not hold.
    Precondition { message: String },
}

/// Whether `e` is the flag-read failure for property `name`.
pub open spec fn is_property_is_value(e: Error, name: Seq<char>) -> bool {
    match e {
        Error::PropertyIsValue { name: n } => n@ == name,
        _ => false,
    }
}

/// Whether `e` is the value-read failure for property `name`.
pub open spec fn is_property_is_flag(e: Error, name: Seq<char>) -> bool {
    match e {
        Error::PropertyIsFlag { name: n } => n@ == name,
        _ => false,
    }
}

/// Whether `e` is the conversion failure for property `name`.
pub open spec fn is_not_parseable(e: Error, name: Seq<char>) -> bool {
    match e {
        Error::NotParseable { name: n } => n@ == name,
        _ => false,
    }
}

/// Whether `e` is a precondition failure carrying exactly `message`.
pub open spec fn is_precondition(e: Error, message: Seq<char>) -> bool {
    match e {
        Error::Precondition { message: m } => m@ == message,
        _ => false,
    }
}

impl Error {
    /// The error's report text, as the command boundary prints it.
    pub fn message(&self) -> (r: String)
        ensures
            match self {
                Error::PropertyIsValue { name } => r@ == "property '"@ + name@
                    + "' is a value, not a flag"@,
                Error::PropertyIsFlag { name } => r@ == "property '"@ + name@
                    + "' is a flag, not a value"@,
                Error::NotParseable { name } => r@ == "property '"@ + name@
                    + "' is not parseable"@,
                Error::SyntaxError { line, text } => r@ == "syntax error in metadata (line "@
                    + dec_text(*line as int) + ", '"@ + text@ + "')"@,
                Error::DuplicateProperty { line, name } => r@
                    == "duplicate property in metadata (line "@ + dec_text(*line as int) + ", '"@
                    + name@ + "')"@,
                Error::DuplicateBranch { line, name } => r@
                    == "duplicate branch in metadata (line "@ + dec_text(*line as int) + ", '"@
                    + name@ + "')"@,
                Error::OrphanedPatch { line, id } => r@ == "orphaned patch in metadata (line "@
                    + dec_text(*line as int) + ", '"@ + id@ + "')"@,
                Error::InvalidId { line, id } => r@ == "invalid patch id in metadata (line "@
                    + dec_text(*line as int) + ", '"@ + id@ + "')"@,
                Error::UnrecognizedFormat => r@ == "metadata format not recognized"@,
                Error::OutOfSync => r@ == "metadata out of sync (use 'pk fsck' to repair)"@,
                Error::RevisionOverflow => r@ == "revision counter overflow"@,
                Error::Precondition { message } => r@ == message@,
            },
    {
        match self {
            Error::PropertyIsValue { name } => {
                let mut m = "property '".to_owned();
                m.append(name.as_str());
                m.append("' is a value, not a flag");
                m
            },
            Error::PropertyIsFlag { name } => {
                let mut m = "property '".to_owned();
                m.append(name.as_str());
                m.append("' is a flag, not a value");
                m
            },
            Error::NotParseable { name } => {
                let mut m = "property '".to_owned();
                m.append(name.as_str());
                m.append("' is not parseable");
                m
            },
            Error::SyntaxError { line, text } => {
                let mut m = "syntax error in metadata (line ".to_owned();
                let nr = u64_to_string(*line as u64);
                m.append(nr.as_str());
                m.append(", '");
                m.append(text.as_str());
                m.append("')");
                m
            },
            Error::DuplicateProperty { line, name } => {
                let mut m = "duplicate property in metadata (line ".to_owned();
                let nr = u64_to_string(*line as u64);
                m.append(nr.as_str());
                m.append(", '");
                m.append(name.as_str());
                m.append("')");
                m
            },
            Error::DuplicateBranch { line, name } => {
                let mut m = "duplicate branch in metadata (line ".to_owned();
                let nr = u64_to_string(*line as u64);
                m.append(nr.as_str());
                m.append(", '");
                m.append(name.as_str());
                m.append("')");
                m
            },
            Error::OrphanedPatch { line, id } => {
                let mut m = "orphaned patch in metadata (line ".to_owned();
                let nr = u64_to_string(*line as u64);
                m.append(nr.as_str());
                m.append(", '");
                m.append(id.as_str());
                m.append("')");
                m
            },
            Error::InvalidId { line, id } => {
                let mut m = "invalid patch id in metadata (line ".to_owned();
                let nr = u64_to_string(*line as u64);
                m.append(nr.as_str());
                m.append(", '");
                m.append(id.as_str());
                m.append("')");
                m
            },
            Error::UnrecognizedFormat => "metadata format not recognized".to_owned(),
            Error::OutOfSync => "metadata out of sync (use 'pk fsck' to repair)".to_owned(),
            Error::RevisionOverflow => "revision counter overflow".to_owned(),
            Error::Precondition { message } => message.clone(),
        }
    }
}

} // verus!
