//! Fetch a batch of books by an ordered id list.

use vstd::prelude::*;

use crate::payload;

verus! {

/// The ordered id list, as it arrives.
#[derive(Debug)]
pub struct Payload {
    pub ids: Vec<u64>,
}

impl Payload {
    /// Reject batches of more than 100 ids.
    pub fn check(self) -> (r: Result<Self, crate::error::Error>)
        ensures
            match r {
                Ok(p) => self.ids@.len() <= 100 && p.ids@ == self.ids@,
                Err(e) => self.ids@.len() > 100 && e == crate::error::Error::Payload(
                    payload::Error::Custom("length of ids must be less than or equal 100"),
                ),
            },
    {
        if self.ids.len() > 100 {
            return Err(crate::error::Error::Payload(
                payload::Error::Custom("length of ids must be less than or equal 100"),
            ));
        }
        Ok(self)
    }
}

} // verus!
