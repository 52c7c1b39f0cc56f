//! Reading documents of the workflow language.
pub mod cursor;
pub mod document;
pub mod expr;
pub mod keys;
pub mod paths;
pub mod scalar;
pub mod spec;
pub mod strings;
pub mod table;
pub mod values;
