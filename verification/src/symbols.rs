use vstd::prelude::*;

verus! {

/// A symbol of the expression language, by name.
#[derive(Debug, Clone)]
pub struct Symbol {
    pub name: String,
}

} // verus!
