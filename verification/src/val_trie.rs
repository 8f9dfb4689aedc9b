pub mod group;
pub mod hash_key;
pub mod node;
pub mod set;
