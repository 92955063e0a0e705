//! A verified object-graph transcoder for page extraction.
//!
//! The library re-materializes a subtree of document objects, expressed in a
//! source document's identifier space, inside a target document's identifier
//! space: primitives are copied by value, every indirection is resolved
//! exactly once, and fresh target identifiers are allocated on first
//! discovery.  Reading source bytes and serializing the target document are
//! left to external collaborators; the logic between them is verified here.

pub mod alloc_id;
pub mod model;
pub mod object;
pub mod page;
pub mod resolve;
pub mod table;
pub mod transcode;

pub use alloc_id::IdAllocator;
pub use alloc_id::TargetId;
pub use object::Object;
pub use object::SourceId;
pub use object::TargetObject;
