//! A slab allocator for type-stable, fixed-size objects.
//!
//! Callers register allocation classes and then allocate and release
//! objects of a class.  An address that was once handed out for a class
//! is never handed out for another one.
//!
//! The library decides which address goes where; it never touches the
//! memory behind an address.  Address space is obtained from a `Mapper`,
//! and the process-wide state is held in explicit values that the caller
//! owns: one `Slitter` for the process, and one `Cache` for each thread.
pub mod cache;
pub mod chunks;
pub mod class;
pub mod individual;
pub mod layout;
pub mod ledger;
pub mod linear_ref;
pub mod magazine;
pub mod magazine_impl;
pub mod magazine_stack;
pub mod map;
pub mod mapper;
pub mod mill;
pub mod press;
pub mod rack;

pub use cache::Cache;
pub use class::Class;
pub use class::ClassConfig;
pub use class::Slitter;
pub use layout::Layout;
pub use mapper::register_mapper;
pub use mapper::Mapper;
