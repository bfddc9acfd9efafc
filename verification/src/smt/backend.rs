//! The errors of SMT backends.

use crate::span::Span;
use vstd::prelude::*;
use vstd::string::StringExecFns;

verus! {

/// How serious a backend error is.
#[derive(Clone, Copy, PartialEq, Eq, Structural, Hash, Debug)]
pub enum Level {
    /// An error in what was asked of the backend.
    Error,
    /// A failure inside the backend.
    Internal,
}

/// Which error a backend met.
#[derive(Debug)]
pub enum ErrorKind {
    /// Some request was unsupported; the message tells what, and the span, if any, where in
    /// the source the request comes from.
    Unsupported { msg: String, span: Option<Span> },
    /// The requested logic, by name, was unsupported.
    UnsupportedLogic(String),
    /// An external precondition was found not to hold.
    ViolatedPrecondition(String),
    /// An internal error occurred, with its description.
    Internal(String),
    /// An error of any other kind occurred, with its description.
    Other(String),
    /// An input/output error occurred, with its description.
    IO(String),
}

/// How an error of kind `kind` reads.
pub open spec fn kind_text(kind: ErrorKind) -> Seq<char> {
    match kind {
        ErrorKind::Unsupported { msg, .. } => "unsupported feature: "@ + msg@,
        ErrorKind::UnsupportedLogic(logic) => "unsupported logic: "@ + logic@,
        ErrorKind::ViolatedPrecondition(what) => "violated precondition: "@ + what@,
        ErrorKind::Internal(what) => what@,
        ErrorKind::Other(what) => what@,
        ErrorKind::IO(what) => "input/output error: "@ + what@,
    }
}

/// How an error of kind `kind` met by the backend named `backend` reads.
pub open spec fn error_text(backend: Seq<char>, kind: ErrorKind) -> Seq<char> {
    "SMT backend `"@ + backend + "`: "@ + kind_text(kind)
}

/// The error of a backend: what happened, and in which backend.
#[derive(Debug)]
pub struct Error {
    /// Which error occurred.
    pub kind: Box<ErrorKind>,
    /// The name of the backend that met the error.
    pub backend: String,
}

impl Error {
    /// The error `kind` met by the backend named `backend`.
    pub fn new(backend: &str, kind: ErrorKind) -> (r: Error)
        ensures
            r.backend@ == backend@,
            *r.kind == kind,
    {
        Error { kind: Box::new(kind), backend: backend.to_owned() }
    }

    /// The message of the error: the backend's name, then what happened.
    pub fn message(&self) -> (r: String)
        ensures
            r@ == error_text(self.backend@, *self.kind),
    {
        let mut out = String::from_str("SMT backend `");
        out.append(self.backend.as_str());
        out.append("`: ");
        let ghost head = out@;
        let (prefix, rest): (&str, &str) = match &*self.kind {
            ErrorKind::Unsupported { msg, .. } => ("unsupported feature: ", msg.as_str()),
            ErrorKind::UnsupportedLogic(logic) => ("unsupported logic: ", logic.as_str()),
            ErrorKind::ViolatedPrecondition(what) => ("violated precondition: ", what.as_str()),
            ErrorKind::Internal(what) => ("", what.as_str()),
            ErrorKind::Other(what) => ("", what.as_str()),
            ErrorKind::IO(what) => ("input/output error: ", what.as_str()),
        };
        out.append(prefix);
        out.append(rest);
        proof {
            reveal_strlit("");
            assert(out@ =~= head + kind_text(*self.kind));
        }
        out
    }

    /// Where in the source the error comes from: the span of an unsupported request, if it has
    /// one; errors of other kinds have none.
    pub fn span(&self) -> (r: Option<Span>)
        ensures
            r == match *self.kind {
                ErrorKind::Unsupported { span, .. } => span,
                _ => None,
            },
    {
        match &*self.kind {
            ErrorKind::Unsupported { span, .. } => *span,
            _ => None,
        }
    }

    /// How serious the error is: unsupported requests are the caller's errors, everything else
    /// is internal to the backend.
    pub fn level(&self) -> (r: Level)
        ensures
            r == if *self.kind is Unsupported {
                Level::Error
            } else {
                Level::Internal
            },
    {
        match &*self.kind {
            ErrorKind::Unsupported { .. } => Level::Error,
            _ => Level::Internal,
        }
    }
}

} // verus!
