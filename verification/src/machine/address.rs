//! A location that may not be fully known yet: an optional concrete
//! non-zero 32-bit address, and the symbolic names the location is known
//! by, if any.

use vstd::prelude::*;

verus! {

#[derive(Clone, Debug)]
pub struct Address {
    pub numeric: Option<u32>,
    pub label: Option<Vec<String>>,
}

impl Address {
    /// Zero denotes "no address" elsewhere, so a concrete address is
    /// never zero, and a label list is never empty.
    pub open spec fn wf(self) -> bool {
        &&& (self.numeric matches Some(n) ==> n != 0)
        &&& (self.label matches Some(ls) ==> ls.len() > 0)
    }

    /// The names this location is known by, as sequences of characters.
    pub open spec fn label_views(self) -> Seq<Seq<char>> {
        match self.label {
            Some(ls) => ls.deep_view(),
            None => Seq::empty(),
        }
    }

    pub fn new(numeric: Option<u32>, label: Option<Vec<String>>) -> (r: Address)
        requires
            numeric matches Some(n) ==> n != 0,
            label matches Some(ls) ==> ls.len() > 0,
        ensures
            r == (Address { numeric, label }),
            r.wf(),
    {
        Address { numeric, label }
    }

    /// An address known only numerically.
    pub fn from_numeric(n: u32) -> (r: Address)
        requires
            n != 0,
        ensures
            r == (Address { numeric: Some(n), label: None::<Vec<String>> }),
            r.wf(),
    {
        Address { numeric: Some(n), label: None }
    }

    /// An address known only by a single name.
    pub fn from_label(l: String) -> (r: Address)
        ensures
            r.numeric is None,
            r.label matches Some(ls) && ls@ == seq![l],
            r.wf(),
    {
        let mut ls: Vec<String> = Vec::new();
        ls.push(l);
        Address { numeric: None, label: Some(ls) }
    }
}

} // verus!
