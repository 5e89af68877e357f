//! Serial protocol between the host and an Arduino controller: the messages,
//! their byte encoding, and an incremental parser that reads them back one
//! byte at a time.
pub mod protocol;
pub mod stream;
pub mod serial;
