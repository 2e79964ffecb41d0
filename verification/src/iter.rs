//! Snapshot iteration over the `Present` entries of a `LendingLibrary`.

use vstd::prelude::*;

verus! {

use crate::Slot;
use crate::is_present;

/// `s` lists exactly the `Present` entries of `m`: every listed key is
/// present and paired with its stored value, no key is listed twice, and
/// every present key is listed.
pub open spec fn snapshot_of<V>(m: Map<i64, Slot<V>>, s: Seq<(i64, &V)>) -> bool {
    &&& forall|j: int|
        0 <= j < s.len() ==> is_present(m, (#[trigger] s[j]).0) && m[s[j].0] == Slot::Present(
            *s[j].1,
        )
    &&& forall|j1: int, j2: int| 0 <= j1 < j2 < s.len() ==> s[j1].0 != s[j2].0
    &&& forall|k: i64| is_present(m, k) ==> exists|j: int| 0 <= j < s.len() && (#[trigger] s[j]).0 == k
}

/// `s` lists exactly the `Present` keys of `m`, each once.
pub open spec fn key_snapshot_of<V>(m: Map<i64, Slot<V>>, s: Seq<i64>) -> bool {
    &&& forall|j: int| 0 <= j < s.len() ==> is_present(m, #[trigger] s[j])
    &&& s.no_duplicates()
    &&& forall|k: i64| is_present(m, k) ==> s.contains(k)
}

/// A snapshot of the `Present` entries of a store, handed out one at a time.
pub struct Iter<'a, V> {
    entries: Vec<(i64, &'a V)>,
}

impl<'a, V> Iter<'a, V> {
    /// The entries not yet handed out.
    pub closed spec fn remaining(self) -> Seq<(i64, &'a V)> {
        self.entries@
    }

    /// Wrap a finished snapshot; only a store building one does this.
    pub(crate) fn from_entries(entries: Vec<(i64, &'a V)>) -> (r: Self)
        ensures
            r.remaining() == entries@,
    {
        Iter { entries }
    }

    /// The next key/value pair, or `None` once all have been seen.
    pub fn next(&mut self) -> (r: Option<(i64, &'a V)>)
        ensures
            old(self).remaining().len() == 0 ==> r is None && final(self).remaining()
                == old(self).remaining(),
            old(self).remaining().len() > 0 ==> r == Some(old(self).remaining().last())
                && final(self).remaining() == old(self).remaining().drop_last(),
    {
        self.entries.pop()
    }
}

/// A snapshot of the `Present` keys of a store, handed out one at a time so
/// that the caller may lend, replace or mutate each value in turn.
pub struct IterMut {
    keys: Vec<i64>,
}

impl IterMut {
    /// The keys not yet handed out.
    pub closed spec fn remaining(self) -> Seq<i64> {
        self.keys@
    }

    /// Wrap a finished snapshot; only a store building one does this.
    pub(crate) fn from_keys(keys: Vec<i64>) -> (r: Self)
        ensures
            r.remaining() == keys@,
    {
        IterMut { keys }
    }

    /// The next key, or `None` once all have been seen.
    pub fn next(&mut self) -> (r: Option<i64>)
        ensures
            old(self).remaining().len() == 0 ==> r is None && final(self).remaining()
                == old(self).remaining(),
            old(self).remaining().len() > 0 ==> r == Some(old(self).remaining().last())
                && final(self).remaining() == old(self).remaining().drop_last(),
    {
        self.keys.pop()
    }
}

} // verus!
