//! Semantic-version ordering with a verified comparator and a boundary
//! contract for raw, possibly absent or malformed, version texts.

pub mod boundary;
pub mod precedence;
pub mod version;

pub use boundary::{version_compare, version_has_update};
