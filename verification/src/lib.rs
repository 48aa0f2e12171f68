//! `conststr` is a library for fixed-capacity, owning UTF-8 strings.
//!
//! The central type is [`String`], a string container whose maximum byte
//! capacity `N` is part of its type.  All content is kept in UTF-8, and every
//! mutating operation preserves two invariants: the length never exceeds the
//! capacity, and the bytes in use always form a well-formed UTF-8 sequence.

pub mod codec;
pub mod error;
mod string;
mod utf8;

pub use string::String;
pub use utf8::{decode_utf8, utf8_char_len};
