pub mod merge_lists;
pub mod longest_substring;
pub mod ring_buffer;
