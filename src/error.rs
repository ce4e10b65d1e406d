//! The errors of parsing and resolution.

use vstd::prelude::*;

verus! {

/// Why a parse did not produce a resolved mapping.
#[derive(Debug, Clone)]
pub enum Error {
    /// A required argument was not provided.
    MissingRequired { name: String },
    /// An unknown flag was provided.
    UnknownFlag { flag: String },
    /// An argument expected a value but none was provided.
    MissingValue { name: String },
    /// Failed to coerce a value.
    InvalidValue { name: String, value: String, expected: String },
    /// Duplicate value for a non-array argument.
    DuplicateValue { name: String },
    /// A positional argument was missing.
    MissingPositional { name: String, position: usize },
    /// Too many positional arguments.
    TooManyPositional { max: usize, got: usize },
    /// A configuration file that was asked for is missing.
    MissingConfig { path: String },
    /// Help was requested; holds the help text.
    Help(String),
    /// Version was requested; holds the version text.
    Version(String),
    /// The configuration document could not be parsed; holds the reason.
    Toml(String),
    /// The configuration document could not be read; holds the reason.
    Io(String),
}

/// The model of an `Error`.
pub enum Fault {
    MissingRequired { name: Seq<char> },
    UnknownFlag { flag: Seq<char> },
    MissingValue { name: Seq<char> },
    InvalidValue { name: Seq<char>, value: Seq<char>, expected: Seq<char> },
    DuplicateValue { name: Seq<char> },
    MissingPositional { name: Seq<char>, position: nat },
    TooManyPositional { max: nat, got: nat },
    MissingConfig { path: Seq<char> },
    Help(Seq<char>),
    Version(Seq<char>),
    Toml(Seq<char>),
    Io(Seq<char>),
}

impl View for Error {
    type V = Fault;

    open spec fn view(&self) -> Fault {
        match self {
            Error::MissingRequired { name } => Fault::MissingRequired { name: name@ },
            Error::UnknownFlag { flag } => Fault::UnknownFlag { flag: flag@ },
            Error::MissingValue { name } => Fault::MissingValue { name: name@ },
            Error::InvalidValue { name, value, expected } => Fault::InvalidValue {
                name: name@,
                value: value@,
                expected: expected@,
            },
            Error::DuplicateValue { name } => Fault::DuplicateValue { name: name@ },
            Error::MissingPositional { name, position } => Fault::MissingPositional {
                name: name@,
                position: *position as nat,
            },
            Error::TooManyPositional { max, got } => Fault::TooManyPositional {
                max: *max as nat,
                got: *got as nat,
            },
            Error::MissingConfig { path } => Fault::MissingConfig { path: path@ },
            Error::Help(s) => Fault::Help(s@),
            Error::Version(s) => Fault::Version(s@),
            Error::Toml(s) => Fault::Toml(s@),
            Error::Io(s) => Fault::Io(s@),
        }
    }
}

impl Error {
    /// Returns true if this is a help request.
    pub fn is_help(&self) -> (r: bool)
        ensures
            r == (self is Help),
    {
        match self {
            Error::Help(_) => true,
            _ => false,
        }
    }

    /// Returns true if this is a version request.
    pub fn is_version(&self) -> (r: bool)
        ensures
            r == (self is Version),
    {
        match self {
            Error::Version(_) => true,
            _ => false,
        }
    }

    /// Returns true if this is a help or version request.
    pub fn is_info_request(&self) -> (r: bool)
        ensures
            r == (self is Help || self is Version),
    {
        self.is_help() || self.is_version()
    }
}

/// Result type for argument parsing.
pub type Result<T> = core::result::Result<T, Error>;

} // verus!
