//! What goes wrong, and what the client is told about it.
//!
//! Two rules. The body carries a short machine-readable `error` and a sentence
//! for a log, never a stack trace and never anything about another account. And
//! nothing here distinguishes "no such account" from "wrong credential": a
//! server that answers differently is a server that answers questions nobody
//! asked.

use crate::text;
use vstd::prelude::*;
use vstd::string::StringExecFns;

verus! {

pub type Result<T> = std::result::Result<T, ApiError>;

#[derive(Debug)]
pub enum ApiError {
    Invalid(String),
    Unauthorized,
    RegistrationClosed,
    /// A proof of the master password that did not check out, from a device
    /// that is signed in. Not 401: that means "sign in again", and a device
    /// would do exactly that and ask a second time.
    WrongPassword,
    ServerFull,
    NotFound,
    TooLarge(String),
    RateLimited,
    Schema { found: u32, known: u32 },
    /// What the database said.
    Database(String),
    Internal(String),
}

/// An [`ApiError`] with its text as a sequence of characters.
pub enum Refusal {
    Invalid(Seq<char>),
    Unauthorized,
    RegistrationClosed,
    WrongPassword,
    ServerFull,
    NotFound,
    TooLarge(Seq<char>),
    RateLimited,
    Schema { found: u32, known: u32 },
    Database(Seq<char>),
    Internal(Seq<char>),
}

impl View for ApiError {
    type V = Refusal;

    open spec fn view(&self) -> Refusal {
        match self {
            ApiError::Invalid(what) => Refusal::Invalid(what@),
            ApiError::Unauthorized => Refusal::Unauthorized,
            ApiError::RegistrationClosed => Refusal::RegistrationClosed,
            ApiError::WrongPassword => Refusal::WrongPassword,
            ApiError::ServerFull => Refusal::ServerFull,
            ApiError::NotFound => Refusal::NotFound,
            ApiError::TooLarge(what) => Refusal::TooLarge(what@),
            ApiError::RateLimited => Refusal::RateLimited,
            ApiError::Schema { found, known } => Refusal::Schema { found: *found, known: *known },
            ApiError::Database(what) => Refusal::Database(what@),
            ApiError::Internal(what) => Refusal::Internal(what@),
        }
    }
}

/// What went wrong, where something did.
pub open spec fn refused<T>(outcome: Result<T>) -> Option<Refusal> {
    match outcome {
        Ok(_) => None,
        Err(error) => Some(error@),
    }
}

impl Refusal {
    /// The HTTP status of an answer.
    pub open spec fn status(self) -> u16 {
        match self {
            Refusal::Invalid(_) => 400,
            Refusal::Unauthorized => 401,
            Refusal::RegistrationClosed => 403,
            Refusal::WrongPassword => 403,
            Refusal::ServerFull => 403,
            Refusal::NotFound => 404,
            Refusal::TooLarge(_) => 413,
            Refusal::RateLimited => 429,
            Refusal::Schema { .. } => 400,
            Refusal::Database(_) => 500,
            Refusal::Internal(_) => 500,
        }
    }

    /// The short name of what went wrong.
    pub open spec fn name(self) -> Seq<char> {
        match self {
            Refusal::Invalid(_) => "invalid"@,
            Refusal::Unauthorized => "unauthorized"@,
            Refusal::RegistrationClosed => "registration-closed"@,
            Refusal::WrongPassword => "wrong-password"@,
            Refusal::ServerFull => "server-full"@,
            Refusal::NotFound => "not-found"@,
            Refusal::TooLarge(_) => "too-large"@,
            Refusal::RateLimited => "rate-limited"@,
            Refusal::Schema { .. } => "schema"@,
            Refusal::Database(_) => "internal"@,
            Refusal::Internal(_) => "internal"@,
        }
    }

    /// What went wrong, in a sentence.
    pub open spec fn sentence(self) -> Seq<char> {
        match self {
            Refusal::Invalid(what) => what,
            Refusal::Unauthorized => "not allowed"@,
            Refusal::RegistrationClosed => "registration is closed on this server"@,
            Refusal::WrongPassword => "that is not the master password"@,
            Refusal::ServerFull => "this server has as many accounts as it takes"@,
            Refusal::NotFound => "no such thing"@,
            Refusal::TooLarge(what) => "too large: "@ + what,
            Refusal::RateLimited => "too many requests, try again later"@,
            Refusal::Schema { found, known } => "this server speaks schema "@ + text::decimal_text(
                known as nat,
            ) + ", not "@ + text::decimal_text(found as nat),
            Refusal::Database(what) => "database error: "@ + what,
            Refusal::Internal(what) => what,
        }
    }

    /// What the client reads: the sentence, except where it would tell of
    /// something inside.
    pub open spec fn told(self) -> Seq<char> {
        match self {
            Refusal::Database(_) => "something went wrong"@,
            Refusal::Internal(_) => "something went wrong"@,
            _ => self.sentence(),
        }
    }
}

impl ApiError {
    /// The HTTP status and the short name of what went wrong.
    pub fn code(&self) -> (code: (u16, &'static str))
        ensures
            code.0 == self@.status(),
            code.1@ == self@.name(),
    {
        match self {
            ApiError::Invalid(_) => (400, "invalid"),
            ApiError::Unauthorized => (401, "unauthorized"),
            ApiError::RegistrationClosed => (403, "registration-closed"),
            ApiError::WrongPassword => (403, "wrong-password"),
            ApiError::ServerFull => (403, "server-full"),
            ApiError::NotFound => (404, "not-found"),
            ApiError::TooLarge(_) => (413, "too-large"),
            ApiError::RateLimited => (429, "rate-limited"),
            ApiError::Schema { .. } => (400, "schema"),
            ApiError::Database(_) => (500, "internal"),
            ApiError::Internal(_) => (500, "internal"),
        }
    }

    /// What went wrong, in a sentence for the log.
    pub fn sentence(&self) -> (sentence: String)
        ensures
            sentence@ == self@.sentence(),
    {
        match self {
            ApiError::Invalid(what) => what.clone(),
            ApiError::Unauthorized => "not allowed".to_owned(),
            ApiError::RegistrationClosed => "registration is closed on this server".to_owned(),
            ApiError::WrongPassword => "that is not the master password".to_owned(),
            ApiError::ServerFull => "this server has as many accounts as it takes".to_owned(),
            ApiError::NotFound => "no such thing".to_owned(),
            ApiError::TooLarge(what) => "too large: ".to_owned().concat(what.as_str()),
            ApiError::RateLimited => "too many requests, try again later".to_owned(),
            ApiError::Schema { found, known } => "this server speaks schema ".to_owned().concat(
                text::decimal(*known as u128).as_str(),
            ).concat(", not ").concat(text::decimal(*found as u128).as_str()),
            ApiError::Database(what) => "database error: ".to_owned().concat(what.as_str()),
            ApiError::Internal(what) => what.clone(),
        }
    }

    /// What the client is told. What went wrong inside stays inside: the
    /// client gets the kind of error, not the detail.
    pub fn message(&self) -> (message: String)
        ensures
            message@ == self@.told(),
    {
        match self {
            ApiError::Database(_) => "something went wrong".to_owned(),
            ApiError::Internal(_) => "something went wrong".to_owned(),
            other => other.sentence(),
        }
    }
}

/// The answer to something that went wrong inside is the same whatever it was.
pub proof fn nothing_internal_is_told(one: Refusal, other: Refusal)
    requires
        one is Database || one is Internal,
        other is Database || other is Internal,
    ensures
        one.status() == other.status() == 500,
        one.name() == other.name(),
        one.told() == other.told(),
{
}

} // verus!
