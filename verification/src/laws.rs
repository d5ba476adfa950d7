//! What holds of the heap as a whole.

pub mod barrier;
pub mod collection;
pub mod cycle;
pub mod derive;
pub mod edges;
pub mod effects;
pub mod give_up;
pub mod history;
pub mod holding;
pub mod idle;
pub mod layout;
pub mod limits;
pub mod marking;
pub mod meanings;
pub mod memory;
pub mod placement;
pub mod reach;
pub mod runs;
pub mod scopes;
pub mod sound;
pub mod steps;
pub mod table;
pub mod tracing;
pub mod traversal;
pub mod tricolor;
pub mod weak;
