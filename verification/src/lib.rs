//! In-process L2 order book state: sorted fixed-capacity price ladders, exact
//! fixed-point prices, and the sequence bookkeeping that tells a reader when a feed
//! dropped a message.
//!
//! A book is aggregated by price level: each level is a price and a total quantity.
//! Snapshots replace a book, deltas move it forward one sequence number at a time, and
//! a delta that skips a number is refused and flags the book as gapped until the next
//! snapshot.

pub mod book_state;
pub mod decimal;
pub mod error;
pub mod intern;
pub mod store;
pub mod text;
pub mod types;

pub use decimal::{scale9_to_string, str_to_scale9, Scale9, SCALE, SCALE9};
pub use error::Error;
pub use intern::InternedString;
pub use store::{BookStore, Stats};
pub use types::{Book, Insertion, Level, Side, MAX_LEVELS};
