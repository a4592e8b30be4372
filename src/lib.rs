//! A Library of Babel for the Kannada script.
//!
//! Every page of a fixed number of grapheme clusters has exactly one address,
//! and every address decodes to exactly one page.

pub mod alphabet;
pub mod bignum;
pub mod bijection;
pub mod constants;
pub mod library;
pub mod text;
pub mod types;

pub use alphabet::{GraphemeAlphabet, KannadaScript};
pub use bignum::BigNum;
pub use bijection::BijectionEngine;
pub use types::{HierarchicalAddress, Location, Page, SearchResult};
pub use library::LibraryOfBabel;
pub use constants::{
    BOOKS_PER_SHELF, CLUSTERS_PER_LINE, CLUSTERS_PER_PAGE, MULTIPLIER_SEED, PAGES_PER_BOOK,
    SHELVES_PER_WALL, WALLS_PER_ROOM,
};
