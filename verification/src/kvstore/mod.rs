//! The paged key-value layer and its codecs.

pub mod bptree;
pub mod disk;
pub mod disk_dict;
pub mod disk_memory;
pub mod disk_room;
pub mod heap;
pub mod ivarray;
pub mod join;
pub mod leaves;
pub mod node;
pub mod overflow;
pub mod pager;
pub mod prune;
pub mod removal;
pub mod shape;
pub mod small;
pub mod stock;
pub mod string_index;
pub mod tree;
pub mod vlist;
pub mod wal;
