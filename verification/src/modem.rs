//! Modems the client can drive. A modem opens connections to remote
//! stations; the VARA TNC is the one this crate models.

use vstd::prelude::*;
use crate::types::StationId;

pub mod vara;

verus! {

/// A modem that can open a connection to a remote station.
pub trait Modem {
    type Connection;

    type ConnectionError;

    fn connect(&mut self, station: &StationId) -> Result<Self::Connection, Self::ConnectionError>;
}

} // verus!
