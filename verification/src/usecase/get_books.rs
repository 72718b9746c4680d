//! List books by optional kind, page window and sort order.

use vstd::prelude::*;

use crate::payload;

verus! {

/// The listing request as it arrives, every field optional.
#[derive(Debug)]
pub struct Payload {
    pub kind: Option<payload::BookKind>,
    pub per_page: Option<usize>,
    pub page: Option<usize>,
    pub sort_by: Option<payload::BookSortBy>,
}

/// The page size asked for, after the default.
pub open spec fn requested_per_page(p: Payload) -> usize {
    match p.per_page {
        Some(v) => v,
        None => 25,
    }
}

/// The page number asked for, after the default.
pub open spec fn requested_page(p: Payload) -> usize {
    match p.page {
        Some(v) => v,
        None => 1,
    }
}

impl Payload {
    /// Fill the defaults and validate the window: the page size must
    /// lie in 1..=100 and the page number must be at least 1.
    pub fn check(self) -> (r: Result<Self, crate::error::Error>)
        ensures
            ({
                let pp = requested_per_page(self);
                let pg = requested_page(self);
                match r {
                    Ok(p) => {
                        &&& 1 <= pp <= 100
                        &&& pg >= 1
                        &&& p.per_page == Some(pp)
                        &&& p.page == Some(pg)
                        &&& p.kind == self.kind
                        &&& p.sort_by == Some(
                            match self.sort_by {
                                Some(s) => s,
                                None => payload::BookSortBy::IdDesc,
                            },
                        )
                    },
                    Err(e) => {
                        &&& !(1 <= pp <= 100) || pg < 1
                        &&& if !(1 <= pp <= 100) {
                            e == crate::error::Error::Payload(payload::Error::InvalidPerPage(pp))
                        } else {
                            e == crate::error::Error::Payload(payload::Error::InvalidPage(pg))
                        }
                    },
                }
            }),
    {
        let per_page = match self.per_page {
            Some(v) => v,
            None => 25,
        };
        if per_page < 1 || per_page > 100 {
            return Err(crate::error::Error::Payload(payload::Error::InvalidPerPage(per_page)));
        }
        let page = match self.page {
            Some(v) => v,
            None => 1,
        };
        if page < 1 {
            return Err(crate::error::Error::Payload(payload::Error::InvalidPage(page)));
        }
        let sort_by = match self.sort_by {
            Some(s) => s,
            None => payload::BookSortBy::IdDesc,
        };
        Ok(Payload { kind: self.kind, per_page: Some(per_page), page: Some(page), sort_by: Some(sort_by) })
    }
}

} // verus!
