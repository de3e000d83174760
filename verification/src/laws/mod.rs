//! What the operations of the library are for, said of their inputs and results alone.

pub mod averaging;
pub mod combining;
pub mod counting;
pub mod dealing;
pub mod memory;
pub mod merging;
pub mod ordering;
pub mod parsing;
pub mod printing;
pub mod stepping;
