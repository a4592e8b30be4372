//! Fixed dimensions of the library.

use vstd::prelude::*;

verus! {

/// Number of grapheme clusters per page.
pub const CLUSTERS_PER_PAGE: usize = 400;

/// Clusters per line of a formatted page.
pub const CLUSTERS_PER_LINE: usize = 25;

/// Pages per book (ಪುಸ್ತಕ).
pub const PAGES_PER_BOOK: u32 = 410;

/// Books per shelf (ಪಟ್ಟಿ).
pub const BOOKS_PER_SHELF: u32 = 32;

/// Shelves per wall (ಗೋಡೆ).
pub const SHELVES_PER_WALL: u32 = 5;

/// Walls per room (ಮಂದಿರ).
pub const WALLS_PER_ROOM: u32 = 4;

/// The multiplier of the bijection is the least number from here on that is
/// coprime to the modulus. Changing it changes every page's address.
pub const MULTIPLIER_SEED: u128 = 314159265358979323846264338327950288419;

} // verus!
