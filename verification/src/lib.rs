//! Line-oriented text input: a reader that looks for a delimiter in a byte
//! source which hands its bytes out in chunks, and a string value that is
//! taken apart into a fixed number of fields.

pub mod chunking;
pub mod concat;
pub mod decoding;
pub mod equality;
pub mod framing;
pub mod input_string;
pub mod parse;
pub mod reader;
pub mod text;
pub mod trusted;

pub use input_string::InputString;
pub use parse::FromText;
pub use reader::{
    into_line, BadInput, Lines, ReadError, ReadEvent, ReadResult, Scanner, Step, LINE_FEED,
};
