pub mod counting;
pub mod group;
pub mod permutation;
