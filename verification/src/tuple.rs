//! A tuple as the table layer hands it around: its bytes.

use vstd::prelude::*;

verus! {

/// The bytes of one tuple.
pub struct Tuple<'a> {
    /// The bytes.
    pub data: &'a [u8],
}

impl<'a> Tuple<'a> {
    /// The tuple that holds `data`.
    pub fn new(data: &'a [u8]) -> (tuple: Self)
        ensures
            tuple.data@ == data@,
    {
        Tuple { data }
    }
}

} // verus!
