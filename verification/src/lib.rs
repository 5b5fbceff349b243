//! Foundation layer of an elastic hash table: a bucket layout that divides a
//! fixed-capacity backing store into geometrically shrinking regions, and a
//! probe encoding that pairs two hash values of a key into one large integer
//! from which a deterministic probe sequence can be derived.

pub mod bucket;
pub mod encoding;
pub mod hash;
pub mod layout;

pub use bucket::ConfigurationError;
pub use bucket::ElasticHashing;
