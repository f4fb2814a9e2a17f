//! The sealing supertrait of the value-type markers.
use vstd::prelude::*;

verus! {

/// Sealed supertrait; only this crate's markers implement it.
pub trait Sealed {}

} // verus!
