//! What a request can be refused with.
use vstd::prelude::*;

use crate::text::{option_view, views};

verus! {

/// A refusal, over the type that carries its texts.
#[derive(Debug)]
pub enum Failure<S> {
    /// The request is malformed; the text says how.
    BadRequest(S),
    /// The request is well formed and asks for something that is not offered.
    Unsupported { feature: S, hint: Option<S> },
    /// The request goes past a configured limit, named by its setting.
    LimitExceeded { limit: S, detail: S },
}

/// A refusal as it is handed to a caller.
pub type Error = Failure<String>;

/// A refusal as contracts speak of it.
pub type Fault = Failure<Seq<char>>;

impl View for Failure<String> {
    type V = Failure<Seq<char>>;

    open spec fn view(&self) -> Failure<Seq<char>> {
        match self {
            Failure::BadRequest(message) => Failure::BadRequest(message@),
            Failure::Unsupported { feature, hint } => Failure::Unsupported {
                feature: feature@,
                hint: option_view(*hint),
            },
            Failure::LimitExceeded { limit, detail } => Failure::LimitExceeded {
                limit: limit@,
                detail: detail@,
            },
        }
    }
}

/// A result as contracts speak of it.
pub open spec fn outcome<T: View>(r: Result<T, Error>) -> Result<T::V, Fault> {
    match r {
        Ok(value) => Ok(value@),
        Err(error) => Err(error@),
    }
}

/// A result with a list, as contracts speak of it.
pub open spec fn outcome_all<T: View>(r: Result<Vec<T>, Error>) -> Result<Seq<T::V>, Fault> {
    match r {
        Ok(list) => Ok(views(list@)),
        Err(error) => Err(error@),
    }
}

/// A refusal of a malformed request.
pub open spec fn refused(message: Seq<char>) -> Fault {
    Failure::BadRequest(message)
}

/// Where the supported subset is written down.
pub const COMPATIBILITY_DOCS: &'static str = "https://github.com/cboxdk/telemetryd/blob/main/COMPATIBILITY.md";

impl Failure<String> {
    /// A feature that is not offered.
    pub fn unsupported(feature: String) -> (error: Error)
        ensures
            error@ == (Failure::<Seq<char>>::Unsupported { feature: feature@, hint: None }),
    {
        Failure::Unsupported { feature, hint: None }
    }

    /// A feature that is not offered, with what to do instead.
    pub fn unsupported_with_hint(feature: String, hint: &str) -> (error: Error)
        ensures
            error@ == (Failure::<Seq<char>>::Unsupported {
                feature: feature@,
                hint: Some(hint@),
            }),
    {
        Failure::Unsupported { feature, hint: Some(hint.to_owned()) }
    }

    /// The stable name of the kind of refusal.
    pub fn code(&self) -> (code: &'static str)
        ensures
            code@ == fault_code(self@),
    {
        match self {
            Failure::BadRequest(_) => "bad_request",
            Failure::Unsupported { feature: _, hint: _ } => "unsupported_feature",
            Failure::LimitExceeded { limit: _, detail: _ } => "limit_exceeded",
        }
    }

    /// The refusal in words.
    pub fn message(&self) -> (message: String)
        ensures
            message@ == fault_message(self@),
    {
        match self {
            Failure::BadRequest(message) => message.clone(),
            Failure::Unsupported { feature, hint: _ } => {
                let mut message: String = feature.clone();
                message.append(" is not supported by telemetryd");
                message
            },
            Failure::LimitExceeded { limit, detail } => {
                let mut message: String = limit.clone();
                message.append(": ");
                message.append(detail.as_str());
                message
            },
        }
    }

    /// Where to read what is offered, for a feature that is not.
    pub fn docs(&self) -> (docs: Option<&'static str>)
        ensures
            docs is Some <==> self@ is Unsupported,
            docs is Some ==> docs->Some_0@ == COMPATIBILITY_DOCS@,
    {
        match self {
            Failure::Unsupported { feature: _, hint: _ } => Some(COMPATIBILITY_DOCS),
            _ => None,
        }
    }
}

pub open spec fn fault_code(fault: Fault) -> Seq<char> {
    match fault {
        Failure::BadRequest(_) => "bad_request"@,
        Failure::Unsupported { feature: _, hint: _ } => "unsupported_feature"@,
        Failure::LimitExceeded { limit: _, detail: _ } => "limit_exceeded"@,
    }
}

pub open spec fn fault_message(fault: Fault) -> Seq<char> {
    match fault {
        Failure::BadRequest(message) => message,
        Failure::Unsupported { feature, hint: _ } => feature + " is not supported by telemetryd"@,
        Failure::LimitExceeded { limit, detail } => limit + ": "@ + detail,
    }
}

} // verus!
