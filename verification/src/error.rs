//! What can go wrong, in the words the user sees.
use crate::text;
use crate::text::{quoted, texts};
use vstd::prelude::*;
use vstd::string::*;

verus! {

#[derive(Debug, Clone, PartialEq, Eq)]
pub enum Error {
    InvalidInput(String),
    ModInvalid(String),
    ModFileNotFound,
    GamePathNotSet,
    Io(String),
    RollbackFailed(String),
    BackupCreationFailed(String),
    BackupRestoreFailed(String),
    BackupNotFound,
    UnauthorizedPath(String),
}

pub enum ErrorView {
    InvalidInput(Seq<char>),
    ModInvalid(Seq<char>),
    ModFileNotFound,
    GamePathNotSet,
    Io(Seq<char>),
    RollbackFailed(Seq<char>),
    BackupCreationFailed(Seq<char>),
    BackupRestoreFailed(Seq<char>),
    BackupNotFound,
    UnauthorizedPath(Seq<char>),
}

impl View for Error {
    type V = ErrorView;

    open spec fn view(&self) -> ErrorView {
        match self {
            Error::InvalidInput(m) => ErrorView::InvalidInput(m@),
            Error::ModInvalid(m) => ErrorView::ModInvalid(m@),
            Error::ModFileNotFound => ErrorView::ModFileNotFound,
            Error::GamePathNotSet => ErrorView::GamePathNotSet,
            Error::Io(m) => ErrorView::Io(m@),
            Error::RollbackFailed(m) => ErrorView::RollbackFailed(m@),
            Error::BackupCreationFailed(m) => ErrorView::BackupCreationFailed(m@),
            Error::BackupRestoreFailed(m) => ErrorView::BackupRestoreFailed(m@),
            Error::BackupNotFound => ErrorView::BackupNotFound,
            Error::UnauthorizedPath(m) => ErrorView::UnauthorizedPath(m@),
        }
    }
}

/// The outcome of an operation that returns nothing.
pub open spec fn unit_result(r: Result<(), Error>) -> Result<(), ErrorView> {
    match r {
        Ok(_) => Ok(()),
        Err(e) => Err(e@),
    }
}

/// The outcome of an operation that returns names.
pub open spec fn texts_result(r: Result<Vec<String>, Error>) -> Result<Seq<Seq<char>>, ErrorView> {
    match r {
        Ok(v) => Ok(texts(v@)),
        Err(e) => Err(e@),
    }
}

/// The text shown for an error.
pub open spec fn error_text(e: ErrorView) -> Seq<char> {
    match e {
        ErrorView::InvalidInput(m) => m,
        ErrorView::ModInvalid(m) => m,
        ErrorView::ModFileNotFound => "Mod file not found"@,
        ErrorView::GamePathNotSet => "Game path not set"@,
        ErrorView::Io(m) => m,
        ErrorView::RollbackFailed(m) => m,
        ErrorView::BackupCreationFailed(m) => m,
        ErrorView::BackupRestoreFailed(m) => m,
        ErrorView::BackupNotFound => "Backup not found"@,
        ErrorView::UnauthorizedPath(m) => m,
    }
}

/// The name of an error.
pub open spec fn error_name(e: ErrorView) -> Seq<char> {
    match e {
        ErrorView::InvalidInput(_) => "InvalidInput"@,
        ErrorView::ModInvalid(_) => "ModInvalid"@,
        ErrorView::ModFileNotFound => "ModFileNotFound"@,
        ErrorView::GamePathNotSet => "GamePathNotSet"@,
        ErrorView::Io(_) => "Io"@,
        ErrorView::RollbackFailed(_) => "RollbackFailed"@,
        ErrorView::BackupCreationFailed(_) => "BackupCreationFailed"@,
        ErrorView::BackupRestoreFailed(_) => "BackupRestoreFailed"@,
        ErrorView::BackupNotFound => "BackupNotFound"@,
        ErrorView::UnauthorizedPath(_) => "UnauthorizedPath"@,
    }
}

/// The text that an error holds, if it holds one.
pub open spec fn error_field(e: ErrorView) -> Option<Seq<char>> {
    match e {
        ErrorView::ModFileNotFound | ErrorView::GamePathNotSet | ErrorView::BackupNotFound => None,
        _ => Some(error_text(e)),
    }
}

/// An error by its name, and with `shown` for the text that it holds.
pub open spec fn named_with(e: ErrorView, shown: Seq<char>) -> Seq<char> {
    match error_field(e) {
        Some(_) => error_name(e) + "("@ + shown + ")"@,
        None => error_name(e),
    }
}

/// An error by its name, and with the text that it holds between quotes.
pub open spec fn error_named(e: ErrorView) -> Seq<char> {
    named_with(
        e,
        match error_field(e) {
            Some(m) => quoted(m),
            None => Seq::empty(),
        },
    )
}

/// The text that an error was made with is the text shown for it; an error without one has a
/// text of its own.
pub proof fn law_errors_show_their_text(m: Seq<char>)
    ensures
        error_text(ErrorView::InvalidInput(m)) == m,
        error_text(ErrorView::ModInvalid(m)) == m,
        error_text(ErrorView::Io(m)) == m,
        error_text(ErrorView::RollbackFailed(m)) == m,
        error_text(ErrorView::BackupCreationFailed(m)) == m,
        error_text(ErrorView::BackupRestoreFailed(m)) == m,
        error_text(ErrorView::UnauthorizedPath(m)) == m,
        error_text(ErrorView::ModFileNotFound) == "Mod file not found"@,
        error_text(ErrorView::GamePathNotSet) == "Game path not set"@,
        error_text(ErrorView::BackupNotFound) == "Backup not found"@,
{
}

/// An error goes by its name, with its text in quotes and brackets if it has one.
pub proof fn law_errors_are_named(m: Seq<char>)
    ensures
        error_named(ErrorView::InvalidInput(m)) == "InvalidInput"@ + "("@ + quoted(m) + ")"@,
        error_named(ErrorView::ModInvalid(m)) == "ModInvalid"@ + "("@ + quoted(m) + ")"@,
        error_named(ErrorView::Io(m)) == "Io"@ + "("@ + quoted(m) + ")"@,
        error_named(ErrorView::RollbackFailed(m)) == "RollbackFailed"@ + "("@ + quoted(m) + ")"@,
        error_named(ErrorView::BackupCreationFailed(m)) == "BackupCreationFailed"@ + "("@ + quoted(
            m,
        ) + ")"@,
        error_named(ErrorView::BackupRestoreFailed(m)) == "BackupRestoreFailed"@ + "("@ + quoted(m)
            + ")"@,
        error_named(ErrorView::UnauthorizedPath(m)) == "UnauthorizedPath"@ + "("@ + quoted(m)
            + ")"@,
        error_named(ErrorView::ModFileNotFound) == "ModFileNotFound"@,
        error_named(ErrorView::GamePathNotSet) == "GamePathNotSet"@,
        error_named(ErrorView::BackupNotFound) == "BackupNotFound"@,
{
}

impl Error {
    fn name(&self) -> (r: &'static str)
        ensures
            r@ == error_name(self@),
    {
        match self {
            Error::InvalidInput(_) => "InvalidInput",
            Error::ModInvalid(_) => "ModInvalid",
            Error::ModFileNotFound => "ModFileNotFound",
            Error::GamePathNotSet => "GamePathNotSet",
            Error::Io(_) => "Io",
            Error::RollbackFailed(_) => "RollbackFailed",
            Error::BackupCreationFailed(_) => "BackupCreationFailed",
            Error::BackupRestoreFailed(_) => "BackupRestoreFailed",
            Error::BackupNotFound => "BackupNotFound",
            Error::UnauthorizedPath(_) => "UnauthorizedPath",
        }
    }

    /// This error by its name, and with `shown` for the text that it holds.
    pub fn named_with(&self, shown: &str) -> (r: String)
        ensures
            r@ == named_with(self@, shown@),
    {
        let mut r: String = self.name().to_owned();
        match self {
            Error::ModFileNotFound | Error::GamePathNotSet | Error::BackupNotFound => {},
            _ => {
                r.append("(");
                r.append(shown);
                r.append(")");
            },
        }
        r
    }

    /// This error by its name, and with the text that it holds between quotes.
    pub fn named(&self) -> (r: String)
        ensures
            r@ == error_named(self@),
    {
        match self {
            Error::ModFileNotFound | Error::GamePathNotSet | Error::BackupNotFound => {
                self.named_with("")
            },
            _ => {
                let m = self.message();
                let shown = text::quote(m.as_str());
                self.named_with(shown.as_str())
            },
        }
    }

    /// The text shown for this error.
    pub fn message(&self) -> (r: String)
        ensures
            r@ == error_text(self@),
    {
        match self {
            Error::InvalidInput(m) => m.clone(),
            Error::ModInvalid(m) => m.clone(),
            Error::ModFileNotFound => "Mod file not found".to_owned(),
            Error::GamePathNotSet => "Game path not set".to_owned(),
            Error::Io(m) => m.clone(),
            Error::RollbackFailed(m) => m.clone(),
            Error::BackupCreationFailed(m) => m.clone(),
            Error::BackupRestoreFailed(m) => m.clone(),
            Error::BackupNotFound => "Backup not found".to_owned(),
            Error::UnauthorizedPath(m) => m.clone(),
        }
    }
}

} // verus!
