//! A stratified hash tree: a list with a hash tree (Merkle tree) over it that keeps the complete
//! history of what was appended, in a form that suits storage devices. Values are appended and read
//! back by their index, and a very small amount of data tells whether a value, or the whole list,
//! was damaged or tampered with.
//!
//! ```
//! use slate::Slate;
//!
//! let mut slate = Slate::new_on_memory();
//! slate.append("first".as_bytes()).unwrap();
//! slate.append("second".as_bytes()).unwrap();
//! slate.append("third".as_bytes()).unwrap();
//!
//! let mut query = slate.snapshot().query().unwrap();
//! assert_eq!("first".as_bytes(), query.get(1).unwrap().unwrap());
//! assert_eq!("second".as_bytes(), query.get(2).unwrap().unwrap());
//! assert_eq!("third".as_bytes(), query.get(3).unwrap().unwrap());
//! ```
//!
//! The shape of the tree is in [`nodes`], [`model`] and [`distance`], in terms of numbers in
//! [`bits`], and computed by [`formula`];
//! the hash values of its nodes are in [`tree`]. The entries that it is stored as are in
//! [`ledger`], their serialized form is in [`serialize`], and the storages are in [`storage`],
//! [`block`] and [`memory`]. [`slate`] appends and truncates, with the entries of [`cache`] in
//! memory; [`query`] reads, by walks through the tree ([`walk`]); [`sample`] authenticates.
//! [`laws`] and [`evidence`] state what holds of all this together.
pub mod arith;
pub mod bits;
pub mod block;
pub mod cache;
pub mod distance;
pub mod entry;
pub mod error;
pub mod evidence;
pub mod formula;
pub mod growth;
pub mod hash;
pub mod inspect;
pub mod laws;
pub mod ledger;
pub mod memory;
pub mod model;
pub mod nodes;
pub mod query;
pub mod sample;
pub mod serialize;
mod shared;
pub mod slate;
pub mod storage;
pub mod text;
pub mod tree;
pub mod value;
pub mod walk;

pub use crate::block::{
    is_version_compatible, BlockDevice, BlockStorage, STORAGE_IDENTIFIER, STORAGE_VERSION,
};
pub use crate::entry::{
    Address, ENode, Entry, INode, MetaInfo, Position, MAX_PAYLOAD_SIZE,
};
pub use crate::error::Result;
pub use crate::formula::{Index, INDEX_SIZE};
pub use crate::memory::{MemKVS, MemoryDevice};
pub use crate::query::Query;
pub use crate::sample::{Prove, StratumSample, Witnesses};
pub use crate::slate::{Slate, Snapshot};
pub use crate::storage::{Collector, EntryVisitor, Reader, Storage};
pub use crate::value::{Node, Value, ValuesWithBranches};
pub use crate::walk::{Visitor, WalkDirection};

use vstd::prelude::*;

verus! {

/// A hash value of the tree.
#[derive(Copy, Clone, Debug)]
pub struct Hash {
    pub value: [u8; 32],
}

} // verus!
