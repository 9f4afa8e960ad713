//! Counting how often each shell command was typed, and ranking the commands
//! by that count.

pub mod text;
pub mod order;
pub mod frequency;
pub mod laws;
