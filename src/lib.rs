//! Extracts the layout of global variables from a COFF object file and the
//! debugging information it carries.

pub mod coff;
pub mod mapfile;
pub mod mapper;
pub mod parse;
pub mod table;
pub mod text;
