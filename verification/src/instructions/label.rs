//! A symbolic name bound to an optional address, as the machine-state
//! model records it.

use vstd::prelude::*;

verus! {

#[derive(Clone, Debug)]
pub struct Label {
    pub addr: Option<u32>,
    pub label: String,
}

impl Label {
    pub fn new(addr: Option<u32>, label: String) -> (r: Label)
        ensures
            r == (Label { addr, label }),
    {
        Label { addr, label }
    }
}

} // verus!
