use vstd::prelude::*;

verus! {

/// Names a value whose existence is claimed.
pub open spec fn some<T>(value: T) -> bool {
    true
}

} // verus!
