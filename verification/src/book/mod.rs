pub mod check;
pub mod model;
pub mod order_book;
pub mod price_level;
pub mod snapshot;

pub use check::assert_book_invariants;
pub use order_book::{
    BookError, BookInvariantError, OrderBook, OrderLocation, RestingOrder,
};
pub use price_level::PriceLevel;
pub use snapshot::{BookSnapshot, PriceLevelSnapshot};

use vstd::prelude::*;

verus! {

pub type LevelSnapshot = PriceLevelSnapshot;

} // verus!
