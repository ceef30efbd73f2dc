//! Verified building blocks of a code protector: an MSVC symbol demangler and
//! the layout rules that decide where protected code is placed in an image.

pub mod cursor;
pub mod emit;
pub mod error;
pub mod function_name;
pub mod limits;
pub mod msvc;
pub mod probe;
pub mod text;
