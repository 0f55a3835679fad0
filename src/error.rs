use vstd::prelude::*;

verus! {

/// The errors that the proxy's configuration logic reports.
#[derive(Debug, Clone, PartialEq, Eq)]
pub enum Error {
    /// A port entry's name is empty or longer than the limit.
    InvalidName { name: String },
    /// A listener address could not be parsed or lacks a part.
    InvalidMultiaddr { addr: String },
}

/// `e` reports the listener address `addr` as invalid.
pub open spec fn is_invalid_multiaddr(e: Error, addr: Seq<char>) -> bool {
    match e {
        Error::InvalidMultiaddr { addr: a } => a@ == addr,
        _ => false,
    }
}

/// `e` reports the port name `name` as invalid.
pub open spec fn is_invalid_name(e: Error, name: Seq<char>) -> bool {
    match e {
        Error::InvalidName { name: n } => n@ == name,
        _ => false,
    }
}

} // verus!
