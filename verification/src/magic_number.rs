//! A number that adds to another number, or to an optional one.
use vstd::prelude::*;
use vstd::std_specs::ops::AddSpecImpl;
use std::ops::Add;

verus! {

/// A number that can be added to another, or to an optional other (adding nothing when
/// there is none).
#[derive(Debug)]
pub struct MagicNumber {
    pub value: usize,
}

impl Add<MagicNumber> for MagicNumber {
    type Output = MagicNumber;

    fn add(self, rhs: MagicNumber) -> (r: MagicNumber) {
        MagicNumber { value: self.value + rhs.value }
    }
}

impl AddSpecImpl<MagicNumber> for MagicNumber {
    open spec fn obeys_add_spec() -> bool {
        true
    }

    open spec fn add_req(self, rhs: MagicNumber) -> bool {
        self.value + rhs.value <= usize::MAX
    }

    open spec fn add_spec(self, rhs: MagicNumber) -> MagicNumber {
        MagicNumber { value: (self.value + rhs.value) as usize }
    }
}

impl Add<Option<MagicNumber>> for MagicNumber {
    type Output = MagicNumber;

    fn add(self, rhs: Option<MagicNumber>) -> (r: MagicNumber) {
        if rhs.is_none() {
            return self;
        }
        self + rhs.unwrap()
    }
}

impl AddSpecImpl<Option<MagicNumber>> for MagicNumber {
    open spec fn obeys_add_spec() -> bool {
        true
    }

    open spec fn add_req(self, rhs: Option<MagicNumber>) -> bool {
        match rhs {
            None => true,
            Some(other) => self.value + other.value <= usize::MAX,
        }
    }

    open spec fn add_spec(self, rhs: Option<MagicNumber>) -> MagicNumber {
        match rhs {
            None => self,
            Some(other) => MagicNumber { value: (self.value + other.value) as usize },
        }
    }
}

} // verus!
