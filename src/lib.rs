//! Management of a directory of versioned mods: version identities, the
//! package index, the enablement store with its dependency-aware resolver, and
//! the binary settings tree codec.

pub mod version;
pub mod index;
pub mod settings;
pub mod directory;
pub mod resolver;
pub mod maintenance;
pub mod parse;

