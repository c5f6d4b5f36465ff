//! Settings lifecycle and database-maintenance library: a versioned
//! configuration with a deterministic JSON codec, database path resolution,
//! database file validation, and timestamped backup naming.

pub mod backup;
pub mod json;
pub mod validate;
pub mod paths;
pub mod settings;
pub mod text;
