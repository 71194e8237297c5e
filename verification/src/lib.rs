//! A slab allocator over an explicit, byte-addressed memory.
//!
//! Requests are rounded up to power-of-two size classes. Each class is served
//! by a [`cache::Cache`], which keeps one free list per processor; the links
//! of a free list are stored inside the idle objects themselves, and the word
//! in front of every allocation names the class it belongs to. Slabs are
//! requested from a lower-level [`heap::Allocator`] and carved into objects on
//! demand. [`slam::SlamAllocator`] owns the caches and dispatches on the size
//! class.
//!
//! Addresses are indices into a [`memory::Memory`], so that every read and
//! write of a header or a link is a checked access to bytes that the
//! allocator owns. The index of the running processor is an argument of each
//! operation. Every operation borrows the allocator exclusively: callers that
//! share one allocator put it behind a lock.

pub mod memory;
pub mod heap;
pub mod class;
pub mod node;
pub mod slab;
pub mod atomics;
pub mod list;
pub mod cache;
pub mod slam;
