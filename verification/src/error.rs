//! Errors of the three stages: lexing, parsing and evaluation.
use vstd::prelude::*;

verus! {

/// An error of one of the stages, with a message where the stage gives one.
#[derive(Debug, Clone, PartialEq, Eq)]
pub enum Error {
    Lex(String),
    Parse(String),
    Type(String),
    Overflow,
}

/// The mathematical model of an [`Error`]: messages are sequences of characters.
pub enum ErrorView {
    Lex(Seq<char>),
    Parse(Seq<char>),
    Type(Seq<char>),
    Overflow,
}

impl View for Error {
    type V = ErrorView;

    open spec fn view(&self) -> ErrorView {
        match self {
            Error::Lex(m) => ErrorView::Lex(m@),
            Error::Parse(m) => ErrorView::Parse(m@),
            Error::Type(m) => ErrorView::Type(m@),
            Error::Overflow => ErrorView::Overflow,
        }
    }
}

/// A result whose error is taken by its model.
pub open spec fn outcome<T>(r: Result<T, Error>) -> Result<T, ErrorView> {
    match r {
        Ok(v) => Ok(v),
        Err(e) => Err(e@),
    }
}

/// Whether a reported error is present and has the model `e`.
pub open spec fn reports(reported: Option<Error>, e: ErrorView) -> bool {
    reported matches Some(x) && x@ == e
}

/// The text that describes an error to a reader: a prefix naming the stage,
/// then the stage's message.
pub open spec fn error_text(e: ErrorView) -> Seq<char> {
    match e {
        ErrorView::Lex(m) => "字句解析エラー: "@ + m,
        ErrorView::Parse(m) => "構文エラー: "@ + m,
        ErrorView::Type(m) => "型エラー: "@ + m,
        ErrorView::Overflow => "整数の範囲を超えました"@,
    }
}

impl Error {
    /// Describes the error to a reader, as `error_text` states.
    pub fn message(&self) -> (text: String)
        ensures
            text@ == error_text(self@),
    {
        match self {
            Error::Lex(m) => {
                let mut t = "字句解析エラー: ".to_owned();
                t.append(m.as_str());
                t
            },
            Error::Parse(m) => {
                let mut t = "構文エラー: ".to_owned();
                t.append(m.as_str());
                t
            },
            Error::Type(m) => {
                let mut t = "型エラー: ".to_owned();
                t.append(m.as_str());
                t
            },
            Error::Overflow => "整数の範囲を超えました".to_owned(),
        }
    }
}

} // verus!
