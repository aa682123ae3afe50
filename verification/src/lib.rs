//! Small shared utilities: textual rendering of numbers, content hashing,
//! identifier generation, input sanitising, JSON object merging and a
//! stopwatch.

pub mod clock;
pub mod endpoints;
pub mod hash_utils;
pub mod json_utils;
pub mod perf_utils;
pub mod string_utils;
pub mod text;
