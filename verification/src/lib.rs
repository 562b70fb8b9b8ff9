//! Splits assembly source into blocks of code that hold at most one label,
//! one unconditional and one conditional jump, links the blocks by their jumps,
//! and reads and writes the text format that keeps each block's position.
pub mod text;
pub mod lines;
pub mod util;
pub mod codeblock;
pub mod linker;
pub mod splitter;
pub mod parser;
pub mod shape;
pub mod laws;
pub mod roundtrip;
pub mod keep;
pub mod meaning;
