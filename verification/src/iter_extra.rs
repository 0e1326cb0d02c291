//! Taking a fixed number of items, with an error instead of a short read.

use vstd::prelude::*;
use vstd::string::StringExecFns;

use crate::error::SfwError;

verus! {

/// Carriers of a sequence of items from which a fixed number can be taken.
pub trait IterExtra<T>: Sized {
    /// The items this carrier yields, in order.
    spec fn items(self) -> Seq<T>;

    /// The first `nn` items exactly, or an error if fewer are there.
    fn safe_take(self, nn: usize) -> (r: Result<Vec<T>, SfwError>)
        ensures
            match r {
                Ok(v) => nn <= self.items().len() && v@ == self.items().take(nn as int),
                Err(_) => nn > self.items().len(),
            },
    ;
}

impl<T> IterExtra<T> for Vec<T> {
    open spec fn items(self) -> Seq<T> {
        self@
    }

    fn safe_take(self, nn: usize) -> (r: Result<Vec<T>, SfwError>)
        ensures
            match r {
                Ok(v) => nn <= self.items().len() && v@ == self.items().take(nn as int),
                Err(_) => nn > self.items().len(),
            },
    {
        if nn <= self.len() {
            let mut taken = self;
            taken.truncate(nn);
            Ok(taken)
        } else {
            Err(SfwError { message: String::from_str("safe_take: fewer elements than needed") })
        }
    }
}

} // verus!
