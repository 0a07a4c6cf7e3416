//! A compiler from a small turtle-graphics command language to a standalone
//! HTML page whose script issues the drawing commands against a turtle object.

pub mod matcher;
pub mod tokenizer;
pub mod compiler;
pub mod grammar;
