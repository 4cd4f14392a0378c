//! A bare container for a run's midpoint prices, in the order they were
//! loaded.

use vstd::prelude::*;

use crate::price::Price;

verus! {

/// A series of midpoint prices.
#[derive(Clone, Debug, PartialEq)]
pub struct Mid {
    pub mid_price: Vec<Price>,
}

impl Mid {
    /// Append one midpoint price.
    pub fn push(&mut self, mid_price: Price)
        ensures
            final(self).mid_price@ == old(self).mid_price@.push(mid_price),
    {
        self.mid_price.push(mid_price);
    }
}

} // verus!
