//! A path-addressable configuration tree.
//!
//! Every scalar is stored as its canonical text in an [`Entry`]; sequences
//! live in an [`Array`] and keyed data in a [`Table`].  Nested locations are
//! addressed by dotted paths such as `"server.ports.0"`, and containers are
//! created or promoted on demand by the shape of the keys written to them.

pub mod access;
pub mod codec;
pub mod config;
pub mod error;
pub mod file;
pub mod key;
pub mod path;
pub mod text;
pub mod value;
pub mod variant;

pub use self::codec::{from_value, to_value, Decode, Encode};
pub use self::config::Config;
pub use self::error::Error;
pub use self::key::{Key, PathLike};
pub use self::value::{Array, Entry, Node, Table, Value};
