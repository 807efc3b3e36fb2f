//! The library's error type.

use vstd::prelude::*;

verus! {

/// `serde_json`'s error, carried through as it is.
#[verifier::external_type_specification]
#[verifier::external_body]
pub struct ExJsonError(serde_json::Error);

/// Why an operation was refused.
#[derive(Debug)]
pub enum FlipError {
    /// A configuration, or a request, that cannot be used.
    InvalidConfig(String),
    /// A quantized checkpoint in a format that cannot be decoded correctly.
    UnsupportedQuant(String),
    /// Text that cannot be encoded, or ids that cannot be decoded.
    Tokenizer(String),
    /// A document that is not the JSON it should be.
    Json { context: String, source: serde_json::Error },
    /// A tensor that the checkpoint lacks.
    UnknownTensor(String),
    /// A tensor that the checkpoint holds but that could not be read.
    Storage(String),
    /// A GPU operation in a build without GPU support.
    CudaUnavailable(&'static str),
    /// A GPU runtime call that failed.
    Cuda { api: &'static str, code: i32 },
}

/// What an error says: its kind and its text. What the JSON reader reported is left out.
pub enum ErrorView {
    InvalidConfig(Seq<char>),
    UnsupportedQuant(Seq<char>),
    Tokenizer(Seq<char>),
    Json(Seq<char>),
    UnknownTensor(Seq<char>),
    Storage(Seq<char>),
    CudaUnavailable(Seq<char>),
    Cuda(Seq<char>, i32),
}

impl View for FlipError {
    type V = ErrorView;

    open spec fn view(&self) -> ErrorView {
        match self {
            FlipError::InvalidConfig(m) => ErrorView::InvalidConfig(m@),
            FlipError::UnsupportedQuant(m) => ErrorView::UnsupportedQuant(m@),
            FlipError::Tokenizer(m) => ErrorView::Tokenizer(m@),
            FlipError::Json { context, .. } => ErrorView::Json(context@),
            FlipError::UnknownTensor(m) => ErrorView::UnknownTensor(m@),
            FlipError::Storage(m) => ErrorView::Storage(m@),
            FlipError::CudaUnavailable(api) => ErrorView::CudaUnavailable(api@),
            FlipError::Cuda { api, code } => ErrorView::Cuda(api@, *code),
        }
    }
}

/// The errors of a kind are those that say so, with that text.
pub proof fn kinds_of_errors_are_told_apart(error: FlipError, message: Seq<char>)
    ensures
        error.is_invalid_config(message) <==> error@ == ErrorView::InvalidConfig(message),
        error.is_tokenizer(message) <==> error@ == ErrorView::Tokenizer(message),
{
}

/// What an error says is its kind and the texts and numbers in it.
pub proof fn errors_say_what_they_hold(text: String, api: &'static str, code: i32)
    ensures
        FlipError::InvalidConfig(text)@ == ErrorView::InvalidConfig(text@),
        FlipError::UnsupportedQuant(text)@ == ErrorView::UnsupportedQuant(text@),
        FlipError::Tokenizer(text)@ == ErrorView::Tokenizer(text@),
        FlipError::UnknownTensor(text)@ == ErrorView::UnknownTensor(text@),
        FlipError::Storage(text)@ == ErrorView::Storage(text@),
        FlipError::CudaUnavailable(api)@ == ErrorView::CudaUnavailable(api@),
        (FlipError::Cuda { api, code })@ == ErrorView::Cuda(api@, code),
{
}

impl FlipError {
    /// An `InvalidConfig` with this message.
    pub open spec fn is_invalid_config(self, message: Seq<char>) -> bool {
        self matches FlipError::InvalidConfig(m) && m@ == message
    }

    /// A `Tokenizer` error with this message.
    pub open spec fn is_tokenizer(self, message: Seq<char>) -> bool {
        self matches FlipError::Tokenizer(m) && m@ == message
    }
}

} // verus!
