//! Error taxonomy of the broker and of the surrounding service.

use vstd::prelude::*;

verus! {

/// Error surfaced by the service around the broker (the persistence and
/// page-rendering layer). Rendering it as an HTTP response is the job of the
/// unverified edge; the status code it must use is fixed here.
#[derive(Debug)]
pub enum HovelError {
    NotFound,
    BadRequest,
    InternalServerError(String),
}

/// The message text a `HovelError` renders as.
pub open spec fn spec_message(e: HovelError) -> Seq<char> {
    match e {
        HovelError::NotFound => "Not Found"@,
        HovelError::BadRequest => "Bad Request"@,
        HovelError::InternalServerError(_) => "Internal Server Error"@,
    }
}

/// The HTTP status code a `HovelError` renders as.
pub open spec fn spec_status_code(e: HovelError) -> u16 {
    match e {
        HovelError::NotFound => 404,
        HovelError::BadRequest => 400,
        HovelError::InternalServerError(_) => 500,
    }
}

impl HovelError {
    /// The human-readable message of this error.
    pub fn message(&self) -> (m: String)
        ensures
            m@ == spec_message(*self),
    {
        match self {
            HovelError::NotFound => "Not Found".to_owned(),
            HovelError::BadRequest => "Bad Request".to_owned(),
            HovelError::InternalServerError(_) => "Internal Server Error".to_owned(),
        }
    }

    /// Status code of the response this error renders as.
    pub fn status_code(&self) -> (code: u16)
        ensures
            code == spec_status_code(*self),
    {
        match self {
            HovelError::NotFound => 404,
            HovelError::BadRequest => 400,
            HovelError::InternalServerError(_) => 500,
        }
    }
}

/// Faults of the broker core itself. Only a transport-level fault is fatal to
/// its connection; every other variant is absorbed locally after logging, and
/// none ever aborts the listening process.
#[derive(Clone, Copy, Debug, PartialEq, Eq, Structural)]
pub enum BrokerError {
    /// A credential was rejected; the connection may retry.
    AuthenticationRejected,
    /// The transport collaborator reported a fatal fault for one connection.
    TransportFault,
    /// A duplicate insert or a remove of an absent key: a programming defect,
    /// logged, never a crash.
    RegistryInvariantViolation,
    /// A best-effort delivery to one peer failed; swallowed per peer.
    RelayDeliveryFault,
    /// A forwarding task failed to open or write; swallowed.
    ForwardingFault,
}

/// Whether a broker fault terminates its connection.
pub open spec fn spec_is_fatal(e: BrokerError) -> bool {
    e is TransportFault
}

impl BrokerError {
    /// Only `TransportFault` is fatal to a connection; everything else is
    /// absorbed locally.
    pub fn is_fatal(&self) -> (b: bool)
        ensures
            b == spec_is_fatal(*self),
    {
        match self {
            BrokerError::TransportFault => true,
            _ => false,
        }
    }
}

} // verus!
