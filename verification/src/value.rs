//! What a stored value must offer: a mathematical view, duplication and
//! comparison, both stated over that view.

use vstd::prelude::*;

verus! {

/// A value that the table can hold. Peers hand copies of a value to each other,
/// so the contracts of the whole library speak of a value's view only.
pub trait Value: View + Sized {
    /// A copy with the same view.
    fn duplicate(&self) -> (copy: Self)
        ensures
            copy@ == self@,
    ;

    /// Whether two values have the same view.
    fn same(&self, other: &Self) -> (b: bool)
        ensures
            b == (self@ == other@),
    ;
}

impl Value for String {
    fn duplicate(&self) -> (copy: String) {
        self.clone()
    }

    fn same(&self, other: &String) -> (b: bool) {
        *self == *other
    }
}

impl Value for u8 {
    fn duplicate(&self) -> (copy: u8) {
        *self
    }

    fn same(&self, other: &u8) -> (b: bool) {
        *self == *other
    }
}

impl Value for u32 {
    fn duplicate(&self) -> (copy: u32) {
        *self
    }

    fn same(&self, other: &u32) -> (b: bool) {
        *self == *other
    }
}

impl Value for u64 {
    fn duplicate(&self) -> (copy: u64) {
        *self
    }

    fn same(&self, other: &u64) -> (b: bool) {
        *self == *other
    }
}

impl Value for u128 {
    fn duplicate(&self) -> (copy: u128) {
        *self
    }

    fn same(&self, other: &u128) -> (b: bool) {
        *self == *other
    }
}

impl Value for bool {
    fn duplicate(&self) -> (copy: bool) {
        *self
    }

    fn same(&self, other: &bool) -> (b: bool) {
        *self == *other
    }
}

} // verus!
