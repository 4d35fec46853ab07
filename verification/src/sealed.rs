//! Guards that keep the sets of input shapes closed.

use vstd::prelude::*;

verus! {

/// Guard of the traits that turn bound handles into edges.
pub trait Sealed {

}

/// Guard of the trait that lists the stable names of an input shape.
pub trait SealedInputs {

}

} // verus!
