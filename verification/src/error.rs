//! The closed taxonomy of failure classes, with its stable integer mapping.

use vstd::prelude::*;

verus! {

/// The kind of a failed lookup attempt.
///
/// `Lock` is only ever produced by the cache itself, when a lookup that
/// would resolve over the network is attempted while the cache is being
/// iterated. The other kinds classify transport and protocol failures.
#[derive(Clone, Copy, Debug, PartialEq, Eq, Structural)]
pub enum ErrorKind {
    Io,
    Timeout,
    Protocol,
    Internal,
    Lock,
}

impl ErrorKind {
    /// The stable integer encoding of each kind; part of the external ABI.
    pub open spec fn spec_code(self) -> u16 {
        match self {
            ErrorKind::Internal => 1,
            ErrorKind::Io => 2,
            ErrorKind::Protocol => 3,
            ErrorKind::Timeout => 4,
            ErrorKind::Lock => 5,
        }
    }

    /// Maps each kind to its stable integer code.
    pub fn code(self) -> (r: u16)
        ensures
            r == self.spec_code(),
    {
        match self {
            ErrorKind::Internal => 1,
            ErrorKind::Io => 2,
            ErrorKind::Protocol => 3,
            ErrorKind::Timeout => 4,
            ErrorKind::Lock => 5,
        }
    }

    /// The inverse of [`ErrorKind::code`]: decodes a stable integer code.
    pub fn from_code(code: u16) -> (r: Option<ErrorKind>)
        ensures
            match r {
                Some(k) => k.spec_code() == code,
                None => forall|k: ErrorKind| k.spec_code() != code,
            },
    {
        match code {
            1 => Some(ErrorKind::Internal),
            2 => Some(ErrorKind::Io),
            3 => Some(ErrorKind::Protocol),
            4 => Some(ErrorKind::Timeout),
            5 => Some(ErrorKind::Lock),
            _ => None,
        }
    }
}

} // verus!
