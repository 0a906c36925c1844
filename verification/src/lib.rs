//! Core of an allocation-event tracker: it decodes a line-oriented event
//! stream describing allocations, frees and corruption notices, keeps the
//! live set of memory chunks those events imply together with a grid-line
//! spatial index for overlap detection, and answers point queries over it.
pub mod chunk;
pub mod event;
pub mod laws;
pub mod store;
pub mod widgets;
