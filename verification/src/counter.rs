//! A small counter widget for an interactive front end.

use vstd::prelude::*;

verus! {

#[derive(PartialEq, Eq, Structural, Debug)]
pub struct Counter {
    pub count: u8,
}

impl Counter {
    pub fn new() -> (c: Counter)
        ensures
            c.count == 0,
    {
        Counter { count: 0 }
    }

    pub fn set_count(&mut self, value: u8)
        ensures
            final(self).count == value,
    {
        self.count = value;
    }

    pub fn get_count(&self) -> (r: u8)
        ensures
            r == self.count,
    {
        self.count
    }
}

} // verus!
