//! Small verified programs: sorting, line search, number sequences, a
//! memoising cache, request routing, timers and a future table.

pub mod fibonacci;
pub mod order;
pub mod quicksort;
pub mod minigrep;
pub mod timers;
pub mod executor;
pub mod cacher;
pub mod workout;
pub mod guessing;
pub mod http;
pub mod counter;
pub mod rectangles;
pub mod threadpool;
