pub mod order;
pub mod seqs;
pub mod random;
pub mod merge;
pub mod sort;
pub mod select;
pub mod dnc;
pub mod hash_heap;
pub mod linkedlists;
pub mod trees;
pub mod leet;
pub mod dp;
pub mod utils;
pub mod graphs;
pub mod greedy;
pub mod text;
