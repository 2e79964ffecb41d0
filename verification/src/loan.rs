//! The scoped handle to a value checked out of a [`LendingLibrary`].

use vstd::prelude::*;

verus! {

/// Exclusive ownership of one value lent out of a store.
///
/// A `Loan` is produced only by `LendingLibrary::lend` and consumed only by
/// `LendingLibrary::checkin`: handing it back is a move, so a loan can be
/// returned exactly once, and the value inside cannot leave by any other path.
pub struct Loan<V> {
    key: i64,
    val: V,
}

impl<V> Loan<V> {
    /// The key this value was lent against.
    pub closed spec fn spec_key(self) -> i64 {
        self.key
    }

    /// The value currently carried by the loan.
    pub closed spec fn spec_value(self) -> V {
        self.val
    }

    /// The key this value was lent against.
    pub fn key(&self) -> (r: i64)
        ensures
            r == self.spec_key(),
    {
        self.key
    }

    /// Read access to the borrowed value.
    pub fn value(&self) -> (r: &V)
        ensures
            *r == self.spec_value(),
    {
        &self.val
    }

    /// Issue a fresh loan; only a store lending one of its values does this.
    pub(crate) fn issue(key: i64, val: V) -> (r: Loan<V>)
        ensures
            r.spec_key() == key,
            r.spec_value() == val,
    {
        Loan { key, val }
    }

    /// Surrender the loan to the store that is absorbing it.
    pub(crate) fn into_parts(self) -> (r: (i64, V))
        ensures
            r.0 == self.spec_key(),
            r.1 == self.spec_value(),
    {
        let Loan { key, val } = self;
        (key, val)
    }

    /// Write access to the borrowed value; changes made through it ride back
    /// into the store when the loan is checked in.
    pub fn value_mut(&mut self) -> (r: &mut V)
        ensures
            *r == old(self).spec_value(),
            final(self).spec_key() == old(self).spec_key(),
            final(self).spec_value() == *final(r),
    {
        &mut self.val
    }
}

} // verus!
