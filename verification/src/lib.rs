//! A small single-threaded async runtime core: timers for sleeping futures
//! and the bookkeeping of the event loop that drives them.

pub mod wakers;
pub mod slots;
pub mod sleep;
pub mod runtime;
pub mod connect;
pub mod runs;
