//! Verified core of a small duplex chat demo and of a line grep tool.
//!
//! * [`wire`]: big-endian 32-bit integers and UTF-8 text as bytes.
//! * [`message`]: the length-prefixed `RequestResponse` frame, its encoder and
//!   the incremental reader that decodes it.
//! * [`dialogue`]: who answers what in the conversation, and in which order
//!   each side speaks.
//! * [`grep`]: matching a line and rendering it with the matches highlighted.

pub mod wire;
pub mod message;
pub mod dialogue;
pub mod grep;
