//! A verified core for an LED-badge message application: a wire-code decoder
//! that turns the badge's fixed-width hex groups back into readable text, and
//! a message store that keeps serialized `Message` records under
//! timestamp-derived names.

pub mod codec;
pub mod decoder;
pub mod message;
pub mod store;
pub mod tables;
pub mod text;
