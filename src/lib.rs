//! Read-path core of a log-structured merge-tree storage engine: the block
//! and sorted-table formats, their iterators, the in-memory table and the
//! k-way merge over many sources.

pub mod codec;
pub mod key;
pub mod block;
pub mod block_builder;
pub mod block_iterator;
pub mod iterators;
pub mod merge_iterator;
pub mod mem_table;
pub mod merge_laws;
pub mod table;
pub mod table_builder;
pub mod table_iterator;

pub use block::Block;
pub use block_builder::BlockBuilder;
pub use block_iterator::BlockIterator;
pub use iterators::StorageIterator;
pub use mem_table::{MemTable, MemTableIterator};
pub use merge_iterator::MergeIterator;
pub use table::{BlockMeta, FileObject, SsTable};
pub use table_builder::SsTableBuilder;
pub use table_iterator::SsTableIterator;

use vstd::prelude::*;

verus! {

/// Errors produced or propagated by the storage core.
#[derive(Debug, Clone, Copy, PartialEq, Eq, Structural)]
pub enum LsmError {
    /// A read fell outside the backing file.
    Io,
    /// Decoding a block or a block-meta section found inconsistent lengths.
    Corruption,
    /// A table would outgrow the `u32` offsets of its format.
    TooLarge,
}

} // verus!
