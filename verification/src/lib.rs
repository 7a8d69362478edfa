//! Decoder for a Redis-style length-prefixed wire format, together with an
//! interpreter that turns decoded values into typed command requests.
//!
//! The decoder ([`resp`]) parses one self-describing wire value off the front
//! of a byte buffer and reports how many bytes it consumed, so a caller can
//! decode pipelined values one after another.  The command layer
//! ([`commands`]) validates an array-shaped value as a SET / GET / GETSET /
//! STRLEN / EXISTS / DEL invocation with its argument grammar.
//!
//! Text is held as validated UTF-8 bytes throughout: a decoded line or key is
//! a `Vec<u8>` that the decoder has checked, so the original input buffer
//! need not outlive the decoded values.

pub mod bytes;
pub mod commands;
pub mod decimal;
pub mod resp;
pub mod utf8;
