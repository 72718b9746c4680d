//! The command layer. The catalog currently defines no commands; the
//! set is kept as the layer's anchor.

use vstd::prelude::*;

verus! {

pub struct CommandSet {}

} // verus!
