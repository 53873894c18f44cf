//! The errors of the datasource layer, of the ETL layer and of the orchestrator.

use vstd::prelude::*;

use crate::text;
use crate::text::{cat2, copy};

verus! {

/// Error type shared by the datasource layer and every datasource dialect.
#[derive(Debug)]
pub enum DatasourceError {
    /// Underlying database driver error.
    Database(String),
    /// Invalid SQL or invalid arguments passed to a driver call.
    InvalidArgument(String),
    /// Connection level failure (connect / ping / pool exhausted).
    Connection(String),
    /// Schema related failure (table not found, column mismatch, ...).
    Schema(String),
    /// Value cannot be represented in the target database type.
    Conversion(String),
    /// Feature not supported by this datasource implementation.
    Unsupported(String),
    /// Serialization failure at the plugin boundary.
    Serialize(String),
    /// Filesystem / IO failure (plugin file, state files, ...).
    Io(String),
    /// Any other error.
    Other(String),
}

/// What a [`DatasourceError`] says.
#[verifier::ext_equal]
pub enum DatasourceErrorV {
    Database(Seq<char>),
    InvalidArgument(Seq<char>),
    Connection(Seq<char>),
    Schema(Seq<char>),
    Conversion(Seq<char>),
    Unsupported(Seq<char>),
    Serialize(Seq<char>),
    Io(Seq<char>),
    Other(Seq<char>),
}

impl View for DatasourceError {
    type V = DatasourceErrorV;

    open spec fn view(&self) -> DatasourceErrorV {
        match self {
            DatasourceError::Database(s) => DatasourceErrorV::Database(s@),
            DatasourceError::InvalidArgument(s) => DatasourceErrorV::InvalidArgument(s@),
            DatasourceError::Connection(s) => DatasourceErrorV::Connection(s@),
            DatasourceError::Schema(s) => DatasourceErrorV::Schema(s@),
            DatasourceError::Conversion(s) => DatasourceErrorV::Conversion(s@),
            DatasourceError::Unsupported(s) => DatasourceErrorV::Unsupported(s@),
            DatasourceError::Serialize(s) => DatasourceErrorV::Serialize(s@),
            DatasourceError::Io(s) => DatasourceErrorV::Io(s@),
            DatasourceError::Other(s) => DatasourceErrorV::Other(s@),
        }
    }
}

impl DatasourceErrorV {
    /// The words that the error displays as.
    pub open spec fn words(self) -> Seq<char> {
        match self {
            DatasourceErrorV::Database(s) => "database error: "@ + s,
            DatasourceErrorV::InvalidArgument(s) => "invalid arguments: "@ + s,
            DatasourceErrorV::Connection(s) => "connection error: "@ + s,
            DatasourceErrorV::Schema(s) => "schema error: "@ + s,
            DatasourceErrorV::Conversion(s) => "value conversion error: "@ + s,
            DatasourceErrorV::Unsupported(s) => "unsupported: "@ + s,
            DatasourceErrorV::Serialize(s) => "serialization error: "@ + s,
            DatasourceErrorV::Io(s) => "io error: "@ + s,
            DatasourceErrorV::Other(s) => s,
        }
    }
}

impl DatasourceError {
    /// The words that the error displays as.
    pub fn message(&self) -> (out: String)
        ensures
            out@ == self@.words(),
    {
        match self {
            DatasourceError::Database(s) => cat2("database error: ", s.as_str()),
            DatasourceError::InvalidArgument(s) => cat2("invalid arguments: ", s.as_str()),
            DatasourceError::Connection(s) => cat2("connection error: ", s.as_str()),
            DatasourceError::Schema(s) => cat2("schema error: ", s.as_str()),
            DatasourceError::Conversion(s) => cat2("value conversion error: ", s.as_str()),
            DatasourceError::Unsupported(s) => cat2("unsupported: ", s.as_str()),
            DatasourceError::Serialize(s) => cat2("serialization error: ", s.as_str()),
            DatasourceError::Io(s) => cat2("io error: ", s.as_str()),
            DatasourceError::Other(s) => s.clone(),
        }
    }
}

impl DatasourceError {
    /// A driver error, from the words of its cause.
    pub fn db(e: &str) -> (out: Self)
        ensures
            out@ == DatasourceErrorV::Database(e@),
    {
        DatasourceError::Database(copy(e))
    }

    pub fn conn(e: &str) -> (out: Self)
        ensures
            out@ == DatasourceErrorV::Connection(e@),
    {
        DatasourceError::Connection(copy(e))
    }

    pub fn conversion(e: &str) -> (out: Self)
        ensures
            out@ == DatasourceErrorV::Conversion(e@),
    {
        DatasourceError::Conversion(copy(e))
    }
}

/// Error type for the ETL pipeline and processors.
#[derive(Debug)]
pub enum EtlError {
    Processing(String),
    Config(String),
    Expression(String),
    Lookup(String),
    Serialize(String),
    Io(String),
    Unsupported(String),
}

/// What a [`EtlError`] says.
#[verifier::ext_equal]
pub enum EtlErrorV {
    Processing(Seq<char>),
    Config(Seq<char>),
    Expression(Seq<char>),
    Lookup(Seq<char>),
    Serialize(Seq<char>),
    Io(Seq<char>),
    Unsupported(Seq<char>),
}

impl View for EtlError {
    type V = EtlErrorV;

    open spec fn view(&self) -> EtlErrorV {
        match self {
            EtlError::Processing(s) => EtlErrorV::Processing(s@),
            EtlError::Config(s) => EtlErrorV::Config(s@),
            EtlError::Expression(s) => EtlErrorV::Expression(s@),
            EtlError::Lookup(s) => EtlErrorV::Lookup(s@),
            EtlError::Serialize(s) => EtlErrorV::Serialize(s@),
            EtlError::Io(s) => EtlErrorV::Io(s@),
            EtlError::Unsupported(s) => EtlErrorV::Unsupported(s@),
        }
    }
}

impl EtlErrorV {
    /// The words that the error displays as.
    pub open spec fn words(self) -> Seq<char> {
        match self {
            EtlErrorV::Processing(s) => "etl processing error: "@ + s,
            EtlErrorV::Config(s) => "etl configuration error: "@ + s,
            EtlErrorV::Expression(s) => "etl expression error: "@ + s,
            EtlErrorV::Lookup(s) => "lookup error: "@ + s,
            EtlErrorV::Serialize(s) => "serialization error: "@ + s,
            EtlErrorV::Io(s) => "io error: "@ + s,
            EtlErrorV::Unsupported(s) => "unsupported: "@ + s,
        }
    }
}

impl EtlError {
    /// The words that the error displays as.
    pub fn message(&self) -> (out: String)
        ensures
            out@ == self@.words(),
    {
        match self {
            EtlError::Processing(s) => cat2("etl processing error: ", s.as_str()),
            EtlError::Config(s) => cat2("etl configuration error: ", s.as_str()),
            EtlError::Expression(s) => cat2("etl expression error: ", s.as_str()),
            EtlError::Lookup(s) => cat2("lookup error: ", s.as_str()),
            EtlError::Serialize(s) => cat2("serialization error: ", s.as_str()),
            EtlError::Io(s) => cat2("io error: ", s.as_str()),
            EtlError::Unsupported(s) => cat2("unsupported: ", s.as_str()),
        }
    }
}

impl EtlError {
    pub fn proc(e: &str) -> (out: Self)
        ensures
            out@ == EtlErrorV::Processing(e@),
    {
        EtlError::Processing(copy(e))
    }

    pub fn config(e: &str) -> (out: Self)
        ensures
            out@ == EtlErrorV::Config(e@),
    {
        EtlError::Config(copy(e))
    }

    /// A failed lookup, from the datasource error behind it.
    pub fn from_datasource(e: &DatasourceError) -> (out: Self)
        ensures
            out@ == EtlErrorV::Lookup(e@.words()),
    {
        EtlError::Lookup(e.message())
    }
}

/// Errors produced by the orchestrator.
#[derive(Debug)]
pub enum AppError {
    Config(String),
    Datasource(String),
    Etl(String),
    Template(String),
    State(String),
    Schedule(String),
    /// The words of the failed file operation.
    Io(String),
}

/// What a [`AppError`] says.
#[verifier::ext_equal]
pub enum AppErrorV {
    Config(Seq<char>),
    Datasource(Seq<char>),
    Etl(Seq<char>),
    Template(Seq<char>),
    State(Seq<char>),
    Schedule(Seq<char>),
    Io(Seq<char>),
}

impl View for AppError {
    type V = AppErrorV;

    open spec fn view(&self) -> AppErrorV {
        match self {
            AppError::Config(s) => AppErrorV::Config(s@),
            AppError::Datasource(s) => AppErrorV::Datasource(s@),
            AppError::Etl(s) => AppErrorV::Etl(s@),
            AppError::Template(s) => AppErrorV::Template(s@),
            AppError::State(s) => AppErrorV::State(s@),
            AppError::Schedule(s) => AppErrorV::Schedule(s@),
            AppError::Io(s) => AppErrorV::Io(s@),
        }
    }
}

impl AppErrorV {
    /// The words that the error displays as.
    pub open spec fn words(self) -> Seq<char> {
        match self {
            AppErrorV::Config(s) => "config error: "@ + s,
            AppErrorV::Datasource(s) => "datasource error: "@ + s,
            AppErrorV::Etl(s) => "etl error: "@ + s,
            AppErrorV::Template(s) => "template error: "@ + s,
            AppErrorV::State(s) => "state error: "@ + s,
            AppErrorV::Schedule(s) => "schedule error: "@ + s,
            AppErrorV::Io(s) => "io error: "@ + s,
        }
    }
}

impl AppError {
    /// The words that the error displays as.
    pub fn message(&self) -> (out: String)
        ensures
            out@ == self@.words(),
    {
        match self {
            AppError::Config(s) => cat2("config error: ", s.as_str()),
            AppError::Datasource(s) => cat2("datasource error: ", s.as_str()),
            AppError::Etl(s) => cat2("etl error: ", s.as_str()),
            AppError::Template(s) => cat2("template error: ", s.as_str()),
            AppError::State(s) => cat2("state error: ", s.as_str()),
            AppError::Schedule(s) => cat2("schedule error: ", s.as_str()),
            AppError::Io(s) => cat2("io error: ", s.as_str()),
        }
    }
}

impl AppError {
    pub fn from_datasource(e: &DatasourceError) -> (out: Self)
        ensures
            out@ == AppErrorV::Datasource(e@.words()),
    {
        AppError::Datasource(e.message())
    }

    pub fn from_etl(e: &EtlError) -> (out: Self)
        ensures
            out@ == AppErrorV::Etl(e@.words()),
    {
        AppError::Etl(e.message())
    }
}

pub type AppResult<T> = Result<T, AppError>;

/// Law: the words of an error end in its own message, and all but a bare message
/// say before it of what sort the error is.
pub proof fn law_errors_tell_their_message(s: Seq<char>)
    ensures
        text::ends_with(DatasourceErrorV::Database(s).words(), s) && text::ends_with(
            DatasourceErrorV::InvalidArgument(s).words(),
            s,
        ) && text::ends_with(DatasourceErrorV::Connection(s).words(), s) && text::ends_with(
            DatasourceErrorV::Schema(s).words(),
            s,
        ) && text::ends_with(DatasourceErrorV::Conversion(s).words(), s) && text::ends_with(
            DatasourceErrorV::Unsupported(s).words(),
            s,
        ) && text::ends_with(DatasourceErrorV::Serialize(s).words(), s) && text::ends_with(
            DatasourceErrorV::Io(s).words(),
            s,
        ) && DatasourceErrorV::Other(s).words() == s,
        text::ends_with(EtlErrorV::Processing(s).words(), s) && text::ends_with(EtlErrorV::Config(s).words(), s)
            && text::ends_with(EtlErrorV::Expression(s).words(), s) && text::ends_with(EtlErrorV::Lookup(s).words(), s)
            && text::ends_with(EtlErrorV::Serialize(s).words(), s) && text::ends_with(EtlErrorV::Io(s).words(), s)
            && text::ends_with(EtlErrorV::Unsupported(s).words(), s),
        text::ends_with(AppErrorV::Config(s).words(), s) && text::ends_with(AppErrorV::Datasource(s).words(), s)
            && text::ends_with(AppErrorV::Etl(s).words(), s) && text::ends_with(AppErrorV::Template(s).words(), s)
            && text::ends_with(AppErrorV::State(s).words(), s) && text::ends_with(AppErrorV::Schedule(s).words(), s)
            && text::ends_with(AppErrorV::Io(s).words(), s),
{
    assert forall|a: Seq<char>| text::ends_with(#[trigger] (a + s), s) by {
        text::law_parts_are_found(a, s, Seq::empty());
    }
}

} // verus!
