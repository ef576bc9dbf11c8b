//! A two-pass assembler for the Hack machine language. Program text is
//! normalized into instruction lines, labels are bound to the addresses of
//! the instructions they precede, and each instruction is encoded into a
//! 16-bit word, with new variables bound to addresses from 16 on.
pub mod encoder;
pub mod file_handler;
pub mod parse_handler;
pub mod source;
