//! The input side of a YAML parser, version 0.2.5: the reader, which detects
//! the encoding of the input and decodes and checks its characters, and the
//! memory, string, stack and queue primitives of the library's interface.
#![allow(non_camel_case_types)]

pub mod version;
pub mod utf;
pub mod memory;
pub mod reader;
pub mod buffer;
pub mod stack;
pub mod queue;
pub mod token;
