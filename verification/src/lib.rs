//! Verified core of a Mojom language integration: the documentation and
//! name lookups behind editor hovers, and the decisions that pick the
//! language-server binary an editor extension launches.

pub mod bytes;
pub mod lines;
pub mod docs;
pub mod syntax;
pub mod hover;
pub mod launch;
