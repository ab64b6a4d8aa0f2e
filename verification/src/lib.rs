//! Bit-field templates: decode a fixed-width binary value against an ordered
//! list of bit-level templates, and encode named field values back into a
//! fixed-width word.
//!
//! A template is written one character per bit, most significant bit first:
//! `0` and `1` are literal bits, `?` is a wildcard, and a letter names a
//! capture group. `_` and spaces may be used freely to group the bits.
//!
//! - `bits`: a number as a sequence of bits, the model of every contract;
//! - `template`: templates, their text notation, matching and capturing;
//! - `matcher`: first-match-wins decoding against a table of templates;
//! - `packer`: packing named values into one word or several;
//! - `splitter`: carving a byte into bit ranges;
//! - `instruction`: a small instruction set built on the engine;
//! - `world`, `ui`, `guess`: the state of three small interactive programs.

pub mod bits;
pub mod error;
pub mod field;
pub mod guess;
pub mod instruction;
pub mod matcher;
pub mod packer;
pub mod splitter;
pub mod template;
pub mod ui;
pub mod world;
