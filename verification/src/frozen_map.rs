//! The frozen map and the pieces it is built from.
//!
//! | Module   | Contents |
//! |----------|----------|
//! | `key`    | what keys and values must offer: copying, equality, order, hashing, text |
//! | `pairs`  | sequences of entries and the maps they describe |
//! | `runs`   | sorting entries by key, last write winning |
//! | `slot`   | the open-addressing probe table |
//! | `hashing`| `ahash` hashing and the aggregate map hash |
//! | `map`    | [`FrozenMap`]: construction, lookup, functional updates |
//! | `fmt`    | `Debug`, `Display` and `pretty_repr` texts |
//! | `ops`    | `Default`, `PartialEq`, `Eq`, `Clone`, `Hash` |
//! | `bytes`  | the byte order of strings |
//! | `text`   | decimal numerals and string `Debug` text |

pub mod bytes;
pub mod fmt;
pub mod hashing;
pub mod key;
pub mod laws;
pub mod map;
pub mod ops;
pub mod pairs;
pub mod runs;
pub mod slot;
pub mod text;

pub use key::{KeyOrder, MapKey, MapValue, TextDisplay};
pub use map::FrozenMap;
