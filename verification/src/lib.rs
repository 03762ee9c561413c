//! A small cryptocurrency portfolio tracker: holdings are read from a
//! line-oriented text file, a current USD quote is looked up for each one
//! through a price service, and a fixed-width table of per-asset and
//! aggregate profit is rendered. Prices are fixed-point integers in
//! hundred-millionths of a dollar, profits are signed amounts in
//! hundredths, and every computation from the input lines to the rendered
//! table is specified exactly.

pub mod num;
pub mod parse;
pub mod portfolio;
pub mod quote;
pub mod profit;
pub mod render;
pub mod symbols;

use vstd::prelude::*;

verus! {

/// One portfolio position: a fixed-point entry price and the capital invested.
pub struct Holding {
    /// Entry price in hundred-millionths of a dollar.
    pub entry_price: u64,
    /// Capital invested, in whole dollars.
    pub capital: u32,
}

impl Holding {
    pub fn new(price: u64, value: u32) -> (r: Holding)
        ensures
            r.entry_price == price,
            r.capital == value,
    {
        Holding { entry_price: price, capital: value }
    }
}

} // verus!
