// A small feed-forward neural network, generic over its scalar type, trained
// by gradient descent on finite-difference estimates of the gradient.
//
// - `scalar`: operations passed in as closures, and what they give in specs.
// - `matrix`: dense row-major matrices and their combinators.
// - `nn`: network parameters, forward pass, cost, gradient estimate, descent.
use vstd::prelude::*;

pub mod scalar;
pub mod matrix;
pub mod nn;

verus! {

} // verus!
