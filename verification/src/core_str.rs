//! Small string helpers.

use vstd::prelude::*;

verus! {

/// True when `value` holds no characters.
#[allow(non_snake_case)]
pub fn isEmpty(value: &str) -> (r: bool)
    ensures
        r == (value@.len() == 0),
{
    value.is_empty()
}

} // verus!
