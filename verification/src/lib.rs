//! A bidirectional codec between an abstract data model and the RESP2 wire
//! format. A client encodes a command invocation and decodes a reply; a
//! server decodes a command invocation and encodes a reply. The same value
//! model drives both directions, while a mode (command or reply) selects the
//! asymmetric framing rules.

pub mod de;
pub mod error;
pub mod laws;
pub mod parse;
pub mod ser;
pub mod value;
pub mod wire;

pub use error::Error;
pub use value::{Shape, Value, Variant};
