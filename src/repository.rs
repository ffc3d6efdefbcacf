//! Storing a `Finance` snapshot as JSON records in a file at one configured
//! path. Reading the setting and the file, and turning text into records,
//! happen around this module; it decides what each outcome means.
use vstd::prelude::*;

pub mod json;

use crate::finance::Finance;
use crate::repository::json::{finance_of_records, is_records_of, months_valid, JSONFinance};

verus! {

/// Why a load or a save failed.
#[derive(Debug, PartialEq, Eq)]
pub enum FinanceRepositoryError {
    /// The file path setting is absent.
    ConfigurationError,
    /// The file at this path could not be opened or read.
    FileReadError(String),
    /// The file at this path, or its directory, could not be written.
    FileWriteError(String),
    /// The content is not JSON, or not the records of a snapshot.
    ParseError,
    /// A record holds a month number outside 1..=12.
    ValidationError,
}


/// What reading the file and parsing its content as JSON records gave.
#[derive(Debug)]
pub enum FileContent {
    /// The file could not be opened or read.
    Unreadable,
    /// The content is not JSON, or not the records of a snapshot.
    Malformed,
    /// The records that the file holds.
    Records(JSONFinance),
}

/// A store of one snapshot, as JSON records in the file at a configured
/// path.
#[derive(Clone, Debug)]
pub struct EnvJSONFinanceRepository {
    json_path: Option<String>,
}

/// The plain value of an optional path.
pub open spec fn path_view(p: Option<String>) -> Option<Seq<char>> {
    match p {
        Some(s) => Some(s@),
        None => None,
    }
}

impl EnvJSONFinanceRepository {
    /// The configured file path, if the setting is present.
    pub closed spec fn path(self) -> Option<Seq<char>> {
        path_view(self.json_path)
    }

    /// A store at `json_path`, the value of the path setting (`None` where
    /// it is absent).
    pub fn new(json_path: Option<String>) -> (r: EnvJSONFinanceRepository)
        ensures
            r.path() == path_view(json_path),
    {
        EnvJSONFinanceRepository { json_path }
    }

    /// The file that a load reads and a save writes; `ConfigurationError`
    /// where the path setting is absent, before any file is touched.
    pub fn file_path(&self) -> (r: Result<String, FinanceRepositoryError>)
        ensures
            r is Err <==> self.path() is None,
            r matches Err(e) ==> e == FinanceRepositoryError::ConfigurationError,
            r matches Ok(p) ==> self.path() == Some(p@),
    {
        match &self.json_path {
            Some(p) => Ok(p.clone()),
            None => Err(FinanceRepositoryError::ConfigurationError),
        }
    }

    /// The outcome of a load, from what the file gave: `FileReadError` where
    /// it could not be read, `ParseError` where its content is not the records
    /// of a snapshot, `ValidationError` where a record's month number is
    /// outside 1..=12, and otherwise the snapshot that the records describe.
    pub fn load_from(&self, content: FileContent) -> (r: Result<Finance, FinanceRepositoryError>)
        ensures
            self.path() is None ==> r == Err::<Finance, FinanceRepositoryError>(
                FinanceRepositoryError::ConfigurationError,
            ),
            self.path() is Some ==> match content {
                FileContent::Unreadable => r matches Err(FinanceRepositoryError::FileReadError(p))
                    && self.path() == Some(p@),
                FileContent::Malformed => r == Err::<Finance, FinanceRepositoryError>(
                    FinanceRepositoryError::ParseError,
                ),
                FileContent::Records(j) => {
                    &&& r is Ok <==> months_valid(j@)
                    &&& r matches Ok(f) ==> f.wf() && f@ == finance_of_records(j@)
                    &&& r matches Err(e) ==> e == FinanceRepositoryError::ValidationError
                },
            },
    {
        let path = match self.file_path() {
            Ok(p) => p,
            Err(e) => {
                return Err(e);
            },
        };
        match content {
            FileContent::Unreadable => Err(FinanceRepositoryError::FileReadError(path)),
            FileContent::Malformed => Err(FinanceRepositoryError::ParseError),
            FileContent::Records(records) => records.to_finance(),
        }
    }

    /// What a save writes, and where: the records of `finance` and the file
    /// path; `ConfigurationError` where the path setting is absent.
    pub fn save_records(&self, finance: &Finance) -> (r: Result<
        (String, JSONFinance),
        FinanceRepositoryError,
    >)
        requires
            finance.wf(),
        ensures
            r is Err <==> self.path() is None,
            r matches Err(e) ==> e == FinanceRepositoryError::ConfigurationError,
            r matches Ok(w) ==> self.path() == Some(w.0@) && is_records_of(w.1@, finance@),
    {
        match self.file_path() {
            Ok(p) => Ok((p, JSONFinance::from_finance(finance))),
            Err(e) => Err(e),
        }
    }

    /// The outcome of a save, from whether the file was written:
    /// `FileWriteError` where it was not.
    pub fn save_result(&self, written: bool) -> (r: Result<(), FinanceRepositoryError>)
        ensures
            self.path() is None ==> r == Err::<(), FinanceRepositoryError>(
                FinanceRepositoryError::ConfigurationError,
            ),
            self.path() is Some ==> (r is Ok <==> written),
            self.path() is Some && !written ==> (r matches Err(
                FinanceRepositoryError::FileWriteError(p),
            ) && self.path() == Some(p@)),
    {
        let path = match self.file_path() {
            Ok(p) => p,
            Err(e) => {
                return Err(e);
            },
        };
        if written {
            Ok(())
        } else {
            Err(FinanceRepositoryError::FileWriteError(path))
        }
    }
}

} // verus!
