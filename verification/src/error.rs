//! The error taxonomy of the formatter.
//!
//! Every stage fails fast on its first error; no partial output is ever
//! returned.  Callers receive either a complete, idempotence-checked result
//! or one typed error with a human-readable message.

use vstd::prelude::*;

verus! {

/// A subtype of `FormatterError::Reading`: the input could not be read.
#[derive(Debug)]
pub enum ReadingError {
    /// The underlying input source failed; carries a description.
    Io(String),
    /// The input bytes are not valid text in the expected encoding.
    Utf8(String),
}

/// A subtype of `FormatterError::Writing`: the output could not be written.
#[derive(Debug)]
pub enum WritingError {
    Fmt(String),
    IntoInner(String),
    Io(String),
    FromUtf8(String),
}

/// The various errors the formatter may return.
#[derive(Debug)]
pub enum FormatterError {
    /// The input produced output that is not idempotent: formatting the
    /// output again made further changes.  Carries both generations of
    /// output for diffing.
    Idempotence(String, String),
    /// An invariant was violated inside the pipeline.  This is a defect in
    /// a pattern document or in the tree handed to the pipeline.
    Internal(String),
    /// The pattern document is malformed or references unsupported capture
    /// semantics; the whole job fails before matching starts.
    Query(String),
    /// Could not read the input.
    Reading(ReadingError),
    /// Could not write the formatted output.
    Writing(WritingError),
    /// No supported language matches the given path or name token; carries
    /// the offending path and the extension that was found, if any.
    LanguageDetection(String, Option<String>),
}

/// Mathematical image of a `ReadingError`: the same variants over
/// character sequences.
pub enum ReadingErrorV {
    Io(Seq<char>),
    Utf8(Seq<char>),
}

/// Mathematical image of a `WritingError`.
pub enum WritingErrorV {
    Fmt(Seq<char>),
    IntoInner(Seq<char>),
    Io(Seq<char>),
    FromUtf8(Seq<char>),
}

/// Mathematical image of a `FormatterError`.
pub enum FormatterErrorV {
    Idempotence(Seq<char>, Seq<char>),
    Internal(Seq<char>),
    Query(Seq<char>),
    Reading(ReadingErrorV),
    Writing(WritingErrorV),
    LanguageDetection(Seq<char>, Option<Seq<char>>),
}

impl View for ReadingError {
    type V = ReadingErrorV;

    open spec fn view(&self) -> ReadingErrorV {
        match self {
            ReadingError::Io(m) => ReadingErrorV::Io(m@),
            ReadingError::Utf8(m) => ReadingErrorV::Utf8(m@),
        }
    }
}

impl View for WritingError {
    type V = WritingErrorV;

    open spec fn view(&self) -> WritingErrorV {
        match self {
            WritingError::Fmt(m) => WritingErrorV::Fmt(m@),
            WritingError::IntoInner(m) => WritingErrorV::IntoInner(m@),
            WritingError::Io(m) => WritingErrorV::Io(m@),
            WritingError::FromUtf8(m) => WritingErrorV::FromUtf8(m@),
        }
    }
}

impl View for FormatterError {
    type V = FormatterErrorV;

    open spec fn view(&self) -> FormatterErrorV {
        match self {
            FormatterError::Idempotence(a, b) => FormatterErrorV::Idempotence(a@, b@),
            FormatterError::Internal(m) => FormatterErrorV::Internal(m@),
            FormatterError::Query(m) => FormatterErrorV::Query(m@),
            FormatterError::Reading(e) => FormatterErrorV::Reading(e@),
            FormatterError::Writing(e) => FormatterErrorV::Writing(e@),
            FormatterError::LanguageDetection(p, ext) => FormatterErrorV::LanguageDetection(
                p@,
                match ext {
                    Some(x) => Some(x@),
                    None => None,
                },
            ),
        }
    }
}

/// The human-readable message of each error, as a function of its
/// mathematical image.
pub open spec fn message_spec(e: FormatterErrorV) -> Seq<char> {
    match e {
        FormatterErrorV::Idempotence(_, _) =>
            "The formatter is not idempotent on this input. Please log an error."@,
        FormatterErrorV::Internal(m) => m,
        FormatterErrorV::Query(m) => m,
        FormatterErrorV::Reading(ReadingErrorV::Io(m)) => m,
        FormatterErrorV::Reading(ReadingErrorV::Utf8(_)) => "Input is not UTF8"@,
        FormatterErrorV::Writing(_) => "Writing error"@,
        FormatterErrorV::LanguageDetection(p, _) =>
            "Could not detect a supported language for: "@ + p,
    }
}

impl FormatterError {
    /// The human-readable message carried to callers.
    pub fn message(&self) -> (r: String)
        ensures
            r@ == message_spec(self@),
    {
        match self {
            FormatterError::Idempotence(_, _) => String::from_str(
                "The formatter is not idempotent on this input. Please log an error.",
            ),
            FormatterError::Internal(m) => m.clone(),
            FormatterError::Query(m) => m.clone(),
            FormatterError::Reading(ReadingError::Io(m)) => m.clone(),
            FormatterError::Reading(ReadingError::Utf8(_)) => String::from_str(
                "Input is not UTF8",
            ),
            FormatterError::Writing(_) => String::from_str("Writing error"),
            FormatterError::LanguageDetection(p, _) => String::from_str(
                "Could not detect a supported language for: ",
            ).concat(p.as_str()),
        }
    }
}

} // verus!
