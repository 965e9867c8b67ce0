//! Rig control: the transceiver sits behind a serial control port and
//! takes short `;`-terminated commands.

pub mod kx3;
