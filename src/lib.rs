//! A content-addressed object store: envelope codec, tree codec, object
//! addresses, and the pure parts of storing and loading objects.
pub mod address;
pub mod builder;
pub mod bytes;
pub mod envelope;
pub mod store;
pub mod tree;
