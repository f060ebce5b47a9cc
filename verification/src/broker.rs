//! Errors of the broker's listener.
use vstd::prelude::*;

verus! {

/// Why the broker stops accepting connections.
#[derive(Debug)]
pub enum BrokerError {
    Io(std::io::Error),
}

} // verus!
