pub mod micro_block;
pub mod block;
pub mod blockchain;
pub mod guarantees;
