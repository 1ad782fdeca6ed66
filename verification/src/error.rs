//! The one way in which an attachment can fail.

use vstd::prelude::*;

verus! {

/// An attachment named a node that already has a parent. Nothing was changed.
#[derive(Debug)]
pub struct AlreadyAttached {
    /// The positions in the batch, in increasing order, of the candidates that
    /// already have a parent. A single attachment is a batch of one.
    pub positions: Vec<usize>,
}

} // verus!
