//! The freshness cell: a value together with a per-pass "seen" bit.
//!
//! A cell loaded from the relational store starts `stale`; it becomes `fresh`
//! when its key is re-observed during the current pass.  At the end of a pass
//! every cell still present is either fresh or slated for deletion.

use vstd::prelude::*;
use vstd::std_specs::cmp::PartialEqSpec;

verus! {

/// A value wrapped with a per-pass freshness bit.  Equality ignores the bit.
pub struct FreshValue<T> {
    pub fresh: bool,
    pub value: T,
}

impl<T> FreshValue<T> {
    /// A cell as loaded from the relational store: not yet observed this pass.
    pub fn stale(value: T) -> (r: Self)
        ensures
            r.fresh == false,
            r.value == value,
    {
        FreshValue { fresh: false, value }
    }
}

impl<T> core::convert::From<T> for FreshValue<T> {
    /// A cell built from an in-memory value: observed this pass.
    fn from(value: T) -> (r: Self) {
        FreshValue { fresh: true, value }
    }
}

impl<T> vstd::std_specs::convert::FromSpecImpl<T> for FreshValue<T> {
    open spec fn obeys_from_spec() -> bool {
        true
    }

    open spec fn from_spec(value: T) -> Self {
        FreshValue { fresh: true, value }
    }
}

impl PartialEq for FreshValue<Vec<u8>> {
    /// Cells are compared by value alone; the freshness bit is a per-pass
    /// marker, not part of the value.
    fn eq(&self, other: &Self) -> (r: bool) {
        let r = self.value == other.value;
        proof {
            if r {
                assert(self.value@ =~= other.value@);
            } else {
                if self.value@ == other.value@ {
                    assert(self.value.eq_spec(&other.value));
                }
            }
        }
        r
    }
}

impl vstd::std_specs::cmp::PartialEqSpecImpl for FreshValue<Vec<u8>> {
    open spec fn obeys_eq_spec() -> bool {
        true
    }

    open spec fn eq_spec(&self, other: &Self) -> bool {
        self.value@ == other.value@
    }
}

} // verus!
