//! A table that may not have been allocated yet.

use crate::raw::table::{self, Bucket, TableRef};
use vstd::prelude::*;

verus! {

/// A hash table that is allocated when it is first needed.
pub struct RawTable<T> {
    current: Option<TableRef<T>>,
}

impl<T> RawTable<T> {
    /// The table, if it has been allocated.
    pub closed spec fn table(self) -> Option<TableRef<T>> {
        self.current
    }

    /// Whether the table is consistent.
    pub open spec fn wf(self) -> bool {
        self.table() matches Some(table) ==> table.wf()
    }

    /// Creates a table that has not been allocated.
    pub fn new() -> (r: Self)
        ensures
            r.wf(),
            r.table() is None,
    {
        RawTable { current: None }
    }

    /// Searches for an element in the table.
    pub fn find<F: Fn(&T) -> bool>(&self, hash: u64, eq: F) -> (r: Option<Bucket<T>>)
        requires
            self.wf(),
            forall|value: &T| call_requires(eq, (value,)),
        ensures
            match (self.table(), r) {
                (None, found) => found is None,
                (Some(table), Some(bucket)) => {
                    &&& table.holds(bucket.index())
                    &&& table.ctrl@[bucket.index()] == table::tag(hash)
                    &&& call_ensures(eq, (&table.item(bucket.index()),), true)
                },
                (Some(table), None) => forall|i: int| #[trigger]
                    table.holds(i) && table.hashes@[i] == hash ==> call_ensures(
                        eq,
                        (&table.item(i),),
                        false,
                    ),
            },
    {
        match &self.current {
            Some(table) => table.find(hash, eq),
            None => None,
        }
    }
}

} // verus!
