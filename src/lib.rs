//! Visitor-style binary encoding: values describe how to emit themselves
//! into a byte sink and how to rebuild themselves from a byte source.
//! Collections encode as a compact count followed by their items.
pub mod codec;
pub mod error;
pub mod ordered_map;
pub mod sequence;
pub mod size;
pub mod stream;
pub mod unordered_map;
pub mod varint;

pub use codec::{Load, Readable, Writable};
pub use error::Error;
pub use ordered_map::{Key, KeyEq, OrderedMap};
pub use size::Size;
pub use stream::{Reader, Writer};
pub use unordered_map::UnorderedMap;
pub use varint::Varint;
