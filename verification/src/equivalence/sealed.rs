//! Keeps `Equivalence` closed to other crates.

use vstd::prelude::*;

verus! {

pub trait Sealed {

}

} // verus!
