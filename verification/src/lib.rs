//! Locates an installed creative-suite application by abbreviation and
//! version selector, and builds the host command that makes it run a
//! script.
//!
//! The crate is a library of pure decision logic: parsing the user's
//! request, picking one installed candidate deterministically, checking
//! script/application compatibility, and assembling the exact command
//! line to hand to the host. Running the commands and reading the
//! host's metadata index are left to the calling program, which feeds
//! the raw results back in as plain values.

pub mod dispatch;
pub mod request;
pub mod resolve;
pub mod text;
