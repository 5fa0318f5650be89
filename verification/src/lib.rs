//! A log-structured, copy-on-write key–value store over a block device.

pub mod codec;
pub mod cow_btree;
pub mod descent;
pub mod device;
pub mod error;
pub mod insert_proofs;
pub mod laws;
pub mod merge_proofs;
pub mod node;
pub mod object;
pub mod object_pointer;
pub mod operations;
pub mod reactor;
pub mod remove_proofs;
pub mod serial;
pub mod sorted;
pub mod storage_proofs;
pub mod tree;
pub mod tree_edit;
pub mod tree_proofs;
pub mod tree_cut;
pub mod tree_put;
pub mod uberblock;

pub use cow_btree::{get, insert_in_btree, read_btree, remove};
pub use device::{BlockDevice, MemDevice, Request};
pub use error::Error;
pub use node::{
    is_sorted, InternalNode, InternalNodeEntry, LeafNode, LeafNodeEntry, Node, NodeEntry, BTREE_B,
    BTREE_DEGREE, BTREE_SPLIT,
};
pub use object::AnyObject;
pub use object_pointer::{ObjectPointer, ObjectType};
pub use operations::{
    apply_operations, raw_to_vec_of_operation, raw_to_vec_of_tuple_u16, raw_to_vec_of_tuple_u64,
    Operation,
};
pub use serial::Serializable;
pub use uberblock::{
    find_latest_uberblock, write_new_uberblock, Uberblock, BLOCK_SIZE, MAGIC_NUMBER,
};
