//! Sorted vectors.
//!
//! - `SortedVec`: sorted from least to greatest, may hold duplicates
//! - `SortedSet`: sorted from least to greatest, elements unique
//! - `ReverseSortedVec`: sorted from greatest to least, may hold duplicates
//! - `ReverseSortedSet`: sorted from greatest to least, elements unique
//!
//! The `partial` module holds sorted vectors of types that only implement
//! `PartialOrd`; comparing two incomparable elements is ruled out by the
//! contracts there.
use vstd::prelude::*;

pub mod dedup;
pub mod order;
pub mod partial;
pub mod range;
pub mod search;
pub mod select;
mod sorted_set;
mod sorted_vec;

pub use sorted_set::{lemma_found_where_inserted, SortedSet};
pub use sorted_vec::{is_reverse_sorted, search_spec, SortedVec};

verus! {

/// Outcome of `find_or_insert`.
#[derive(PartialEq, Eq, Structural, PartialOrd, Ord, Debug, Hash)]
pub enum FindOrInsert {
    /// An equal element was found at this index.
    Found(usize),
    /// No equal element was present; the new one was placed at this index.
    Inserted(usize),
}

impl FindOrInsert {
    /// The index carried by either variant.
    pub open spec fn spec_index(self) -> usize {
        match self {
            FindOrInsert::Found(i) => i,
            FindOrInsert::Inserted(i) => i,
        }
    }

    /// Index of the element that was either found or inserted.
    pub fn index(&self) -> (r: usize)
        ensures
            r == self.spec_index(),
    {
        match self {
            FindOrInsert::Found(value) => *value,
            FindOrInsert::Inserted(value) => *value,
        }
    }

    /// `Some` index if an equal element was found, else `None`.
    pub fn found(&self) -> (r: Option<usize>)
        ensures
            r == (match *self {
                FindOrInsert::Found(i) => Some(i),
                FindOrInsert::Inserted(_) => None::<usize>,
            }),
    {
        match self {
            FindOrInsert::Found(value) => Some(*value),
            FindOrInsert::Inserted(_) => None,
        }
    }

    /// `Some` index if the element was inserted, else `None`.
    pub fn inserted(&self) -> (r: Option<usize>)
        ensures
            r == (match *self {
                FindOrInsert::Found(_) => None::<usize>,
                FindOrInsert::Inserted(i) => Some(i),
            }),
    {
        match self {
            FindOrInsert::Found(_) => None,
            FindOrInsert::Inserted(value) => Some(*value),
        }
    }

    /// True if an equal element was found.
    pub fn is_found(&self) -> (r: bool)
        ensures
            r == (*self is Found),
    {
        matches!(self, FindOrInsert::Found(_))
    }

    /// True if the element was inserted.
    pub fn is_inserted(&self) -> (r: bool)
        ensures
            r == (*self is Inserted),
    {
        matches!(self, FindOrInsert::Inserted(_))
    }

    /// Applies `if_found` or `if_inserted` to the index, as the variant says.
    pub fn map<T, F: FnOnce(usize) -> T>(&self, if_found: F, if_inserted: F) -> (r: T)
        requires
            *self is Found ==> if_found.requires((self.spec_index(),)),
            *self is Inserted ==> if_inserted.requires((self.spec_index(),)),
        ensures
            *self is Found ==> if_found.ensures((self.spec_index(),), r),
            *self is Inserted ==> if_inserted.ensures((self.spec_index(),), r),
    {
        match self {
            FindOrInsert::Found(value) => if_found(*value),
            FindOrInsert::Inserted(value) => if_inserted(*value),
        }
    }
}

impl From<Result<usize, usize>> for FindOrInsert {
    /// `Ok` becomes `Found`, `Err` becomes `Inserted`, index kept.
    fn from(result: Result<usize, usize>) -> (r: Self) {
        match result {
            Ok(value) => FindOrInsert::Found(value),
            Err(value) => FindOrInsert::Inserted(value),
        }
    }
}

impl vstd::std_specs::convert::FromSpecImpl<Result<usize, usize>> for FindOrInsert {
    open spec fn obeys_from_spec() -> bool {
        true
    }

    open spec fn from_spec(result: Result<usize, usize>) -> Self {
        match result {
            Ok(value) => FindOrInsert::Found(value),
            Err(value) => FindOrInsert::Inserted(value),
        }
    }
}

/// Reverse sorted vector: elements run from greatest to least.
pub type ReverseSortedVec<T> = SortedVec<core::cmp::Reverse<T>>;

/// Reverse sorted set: elements run from greatest to least, no two equal.
pub type ReverseSortedSet<T> = SortedSet<core::cmp::Reverse<T>>;

} // verus!
