//! Three-word names for 32-bit identifiers.
//!
//! An identifier is cut into three bit fields, and each field selects one
//! word of a fixed vocabulary of 4096 words. The three words, joined by
//! hyphens, name the identifier; decoding looks the words up again and puts
//! the fields back together.
//!
//! The vocabulary is handed in as text, one word per line, and indexed once
//! by [`Words::new`]. [`encode`] and [`decode`] then work on that index.

pub mod bits;
pub mod codec;
pub mod text;
pub mod words;

pub use codec::{decode, encode, find_index, Error};
pub use words::Words;
