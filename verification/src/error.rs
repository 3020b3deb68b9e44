//! The library's error type.
use vstd::prelude::*;

verus! {

/// What went wrong, with a message for people.
#[derive(Debug)]
pub enum HkError {
    /// The request itself is not acceptable.
    Validation(String),
    /// The request clashes with the current state.
    Conflict(String),
    /// Something named in the request does not exist.
    NotFound(String),
    /// A failure inside the library or below it.
    Internal(String),
    /// A configuration file does not have the expected shape.
    ConfigCorrupted(String),
}

/// The value an error stands for.
pub enum HkErrorV {
    Validation(Seq<char>),
    Conflict(Seq<char>),
    NotFound(Seq<char>),
    Internal(Seq<char>),
    ConfigCorrupted(Seq<char>),
}

impl View for HkError {
    type V = HkErrorV;

    open spec fn view(&self) -> HkErrorV {
        match self {
            HkError::Validation(m) => HkErrorV::Validation(m@),
            HkError::Conflict(m) => HkErrorV::Conflict(m@),
            HkError::NotFound(m) => HkErrorV::NotFound(m@),
            HkError::Internal(m) => HkErrorV::Internal(m@),
            HkError::ConfigCorrupted(m) => HkErrorV::ConfigCorrupted(m@),
        }
    }
}

/// The message an error carries.
pub open spec fn message_of(e: HkErrorV) -> Seq<char> {
    match e {
        HkErrorV::Validation(m) => m,
        HkErrorV::Conflict(m) => m,
        HkErrorV::NotFound(m) => m,
        HkErrorV::Internal(m) => m,
        HkErrorV::ConfigCorrupted(m) => m,
    }
}

impl HkError {
    /// The message this error carries.
    pub fn message(&self) -> (m: String)
        ensures
            m@ == message_of(self@),
    {
        match self {
            HkError::Validation(m) => m.clone(),
            HkError::Conflict(m) => m.clone(),
            HkError::NotFound(m) => m.clone(),
            HkError::Internal(m) => m.clone(),
            HkError::ConfigCorrupted(m) => m.clone(),
        }
    }

    /// A copy of this error.
    pub fn dup(&self) -> (e: Self)
        ensures
            e@ == self@,
    {
        match self {
            HkError::Validation(m) => HkError::Validation(m.clone()),
            HkError::Conflict(m) => HkError::Conflict(m.clone()),
            HkError::NotFound(m) => HkError::NotFound(m.clone()),
            HkError::Internal(m) => HkError::Internal(m.clone()),
            HkError::ConfigCorrupted(m) => HkError::ConfigCorrupted(m.clone()),
        }
    }
}

/// The view of a result that carries no value.
pub open spec fn unit_v(r: Result<(), HkError>) -> Result<(), HkErrorV> {
    match r {
        Ok(()) => Ok(()),
        Err(e) => Err(e@),
    }
}

} // verus!
