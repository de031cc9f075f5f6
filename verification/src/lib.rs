//! Sorted, duplicate-free merging of text lines with bounded memory.

pub mod order;
pub mod sorted;
pub mod sort;
pub mod run;
pub mod heap;
pub mod merge;
pub mod pipeline;
