//! Output formats of the chain commands.
use vstd::prelude::*;

verus! {

/// How a listing of tipsets is printed.
#[derive(Clone, Copy, Debug, PartialEq, Eq, Structural)]
pub enum Format {
    Json,
    Text,
}

} // verus!
