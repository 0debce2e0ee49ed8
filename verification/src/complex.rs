//! Complex numbers with exact decimal parts, and their textual form.

use crate::dec::Dec;
use crate::parse::{parse_pair, parse_pair_spec, FromText};
use vstd::prelude::*;

verus! {

/// The complex number `re + im * i`, both parts exact decimals.
#[derive(Clone, Copy, Debug, PartialEq, Eq, Structural)]
pub struct Complex {
    pub re: Dec,
    pub im: Dec,
}

pub open spec fn parse_complex_spec(s: Seq<char>) -> Option<Complex> {
    match parse_pair_spec::<Dec>(s, ',') {
        None => None,
        Some((l, r)) => Some(Complex { re: l, im: r }),
    }
}

/// Parse `"A,B"` into the complex number with real part A and imaginary
/// part B, splitting on `','`; it fails exactly when the pair parser does.
pub fn parse_complex(s: &str) -> (r: Option<Complex>)
    ensures
        r == parse_complex_spec(s@),
{
    match parse_pair::<Dec>(s, ',') {
        None => None,
        Some((l, r)) => Some(Complex { re: l, im: r }),
    }
}

} // verus!
