//! Persistent collections over a byte-addressed key-value store.
//!
//! The centrepiece is an ordered map ([`tree_map::TreeMap`]) kept as an
//! AVL-balanced binary search tree whose nodes live in a dense arena
//! ([`vector::Vector`]) and whose values live in a direct lookup map
//! ([`lookup_map::LookupMap`]); both are persisted through the byte store
//! ([`store::Store`]).

pub mod account;
pub mod error;
pub mod keys;
pub mod lookup_map;
pub mod lookup_set;
pub mod store;
pub mod test_env;
pub mod tree_map;
pub mod tree_spec;
pub mod types;
pub mod unordered_map;
pub mod vector;

pub use account::ValidAccountId;
pub use error::Error;
pub use lookup_map::LookupMap;
pub use lookup_set::LookupSet;
pub use store::Store;
pub use tree_map::Bound;
pub use tree_map::Cursor;
pub use tree_map::TreeMap;
pub use tree_spec::Node;
pub use types::AccountId;
pub use unordered_map::UnorderedMap;
pub use vector::Vector;
