//! The errors of the engine.
use vstd::prelude::*;
use vstd::string::*;

verus! {

/// What went wrong, by the part of the engine that noticed, with a message.
#[derive(Debug)]
pub enum AppError {
    Config(String),
    Ingestion(String),
    Storage(String),
    Query(String),
    Execution(String),
    Io(String),
}

/// An [`AppError`] with its message as a sequence of characters.
pub enum Fault {
    Config(Seq<char>),
    Ingestion(Seq<char>),
    Storage(Seq<char>),
    Query(Seq<char>),
    Execution(Seq<char>),
    Io(Seq<char>),
}

impl View for AppError {
    type V = Fault;

    open spec fn view(&self) -> Fault {
        match self {
            AppError::Config(m) => Fault::Config(m@),
            AppError::Ingestion(m) => Fault::Ingestion(m@),
            AppError::Storage(m) => Fault::Storage(m@),
            AppError::Query(m) => Fault::Query(m@),
            AppError::Execution(m) => Fault::Execution(m@),
            AppError::Io(m) => Fault::Io(m@),
        }
    }
}

impl Fault {
    /// The line that is shown for the error.
    pub open spec fn line(self) -> Seq<char> {
        match self {
            Fault::Config(m) => "config error: "@ + m,
            Fault::Ingestion(m) => "ingestion error: "@ + m,
            Fault::Storage(m) => "storage error: "@ + m,
            Fault::Query(m) => "query error: "@ + m,
            Fault::Execution(m) => "execution error: "@ + m,
            Fault::Io(m) => "io error: "@ + m,
        }
    }
}

pub type AppResult<T> = Result<T, AppError>;

/// A result with the error's message as a sequence of characters.
pub open spec fn outcome<T>(r: AppResult<T>) -> Result<T, Fault> {
    match r {
        Ok(t) => Ok(t),
        Err(e) => Err(e@),
    }
}

impl AppError {
    /// The line that is shown for the error.
    pub fn to_string(&self) -> (r: String)
        ensures
            r@ == self@.line(),
    {
        let mut line: String;
        match self {
            AppError::Config(m) => {
                line = "config error: ".to_owned();
                line.append(m.as_str());
            },
            AppError::Ingestion(m) => {
                line = "ingestion error: ".to_owned();
                line.append(m.as_str());
            },
            AppError::Storage(m) => {
                line = "storage error: ".to_owned();
                line.append(m.as_str());
            },
            AppError::Query(m) => {
                line = "query error: ".to_owned();
                line.append(m.as_str());
            },
            AppError::Execution(m) => {
                line = "execution error: ".to_owned();
                line.append(m.as_str());
            },
            AppError::Io(m) => {
                line = "io error: ".to_owned();
                line.append(m.as_str());
            },
        }
        line
    }
}

/// The line of an error ends with its message, and says which part of the engine
/// noticed it.
pub proof fn law_line_ends_with_the_message(m: Seq<char>)
    ensures
        Fault::Config(m).line() == "config error: "@ + m,
        Fault::Ingestion(m).line() == "ingestion error: "@ + m,
        Fault::Storage(m).line() == "storage error: "@ + m,
        Fault::Query(m).line() == "query error: "@ + m,
        Fault::Execution(m).line() == "execution error: "@ + m,
        Fault::Io(m).line() == "io error: "@ + m,
{
}

} // verus!
