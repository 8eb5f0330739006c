//! A vector whose elements live one by one in a key-value store, each under a
//! key made of the vector's prefix and the element's index.
pub mod bytes;
pub mod codec;
pub mod le_bytes;
pub mod state;
pub mod vector;

pub use codec::Codec;
pub use state::State;
pub use vector::{LoadError, Vector};
