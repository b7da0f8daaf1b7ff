//! Ordered map and set collections implemented as a B-link tree.
//!
//! [`BLinkMap`] and [`BLinkSet`] keep their entries in pages with two-sided
//! fences, right-sibling links and forwarding pages. Every change of a page is
//! a step of its own that needs only the page and the neighbours it touches;
//! the steps are generic over how pages point to each other, so that the same
//! steps serve a tree behind one exclusive borrow and a tree of latched pages.

pub mod anatomy;
pub mod array;
pub mod capacity;
pub mod check;
pub mod cursor;
pub mod findings;
pub mod handle;
pub mod history;
pub mod iter;
pub mod latched;
pub mod laws;
pub mod map;
pub mod meaning;
pub mod node;
pub mod order;
pub mod page;
pub mod records;
pub mod repair;
pub mod routing;
pub mod search;
pub mod set;
pub mod shape;
pub mod store;
pub mod surgery;
pub mod tree;

pub use handle::{EntryMut, EntryRef};
pub use iter::{Bound, Bounds, BoundsError, Iter, KeyRef, Keys, Range, ValueRef, Values};
pub use map::{BLinkMap, DEFAULT_PAGE_CAPACITY};
pub use set::{BLinkSet, SetIter, SetRange, SetRef};
