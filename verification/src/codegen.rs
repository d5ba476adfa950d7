//! What the macros of the library decide: the table of payload types that a program declares, and
//! the tracing code that is generated for a payload type.

pub mod derive;
pub mod syntax;
pub mod type_table;
