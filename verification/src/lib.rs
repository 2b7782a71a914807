//! Paged storage: a block-device abstraction, a fixed-capacity buffer pool
//! with CLOCK eviction, a slotted page layout and a B-tree built on them,
//! and beside them a heap of tuples and the byte format of typed values.
//!
//! The pool belongs to one owner at a time. A caller that shares it among
//! tasks puts it behind a lock of its own.

pub mod btree;
pub mod buffer_pool;
pub mod codec;
pub mod datum;
pub mod disk_manager;
pub mod disk_manager_mem;
pub mod internal_page;
pub mod key_order;
pub mod page;
pub mod ref_flags;
pub mod table_heap;
pub mod table_page;
pub mod tuple;
