//! Discovery and remote control of network media players.
//!
//! The crate holds the protocol logic only: it frames the multicast search
//! request, reads the answers, parses the installed-application catalog and
//! builds the control requests. Sockets and HTTP connections belong to the
//! caller, which hands received bytes in and carries requests out.
//!
//! - `discovery`: the search request, the answers, the set of addresses.
//! - `catalog`: the applications that a device lists.
//! - `control`: key presses, literal text, the launch of an application.
//! - `text`: characters, white space, decimal numbers, dictionary order.
//! - `foreign`: the calls into other crates, with the contracts assumed of
//!   them.

pub mod catalog;
pub mod control;
pub mod discovery;
pub mod foreign;
pub mod text;
