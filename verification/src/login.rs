//! Who is asking.

use vstd::prelude::*;

verus! {

/// Identifier of a student.
#[derive(Copy, Clone, PartialEq, Eq, Structural, Hash, Debug)]
pub struct UserId(pub i64);

impl From<i64> for UserId {
    fn from(value: i64) -> (r: Self) {
        UserId(value)
    }
}

impl vstd::std_specs::convert::FromSpecImpl<i64> for UserId {
    open spec fn obeys_from_spec() -> bool {
        true
    }

    open spec fn from_spec(value: i64) -> Self {
        UserId(value)
    }
}

} // verus!
