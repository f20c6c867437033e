//! Two small, independently usable text transforms: a reversible
//! random-symbol string obfuscator, and a Bacon-cipher steganographic codec
//! that hides a message in the letter casing of a cover text.

pub mod bacon;
pub mod obfuscation;
pub mod text;

