//! A keyed store whose values can be checked out ("lent") one at a time.
//!
//! Each key owns a slot in one of three states: `Present` (the value sits in
//! the store), `Loaned` (the value has been moved out into a [`Loan`] and must
//! come back), and `AwaitingDrop` (removal was requested while the value was
//! out; the slot vanishes the moment the loan is checked back in).
//!
//! Misusing the store — lending a key twice, overwriting or clearing a loaned
//! slot, returning a loan into the wrong slot — is ruled out statically: every
//! such condition is a precondition, so verified callers cannot reach it.

use vstd::prelude::*;

pub mod iter;
pub mod laws;
pub mod loan;

pub use iter::Iter;
pub use iter::IterMut;
pub use loan::Loan;

verus! {

use std::collections::HashMap;

use crate::iter::key_snapshot_of;
use crate::iter::snapshot_of;

broadcast use vstd::std_specs::hash::group_hash_axioms;

/// The lifecycle state of one stored entry.
pub enum Slot<V> {
    /// The store owns the value; it can be lent, replaced or removed.
    Present(V),
    /// The value is out in a `Loan`; the key still counts as contained.
    Loaned,
    /// Removal was requested while the value was out; the slot disappears
    /// when the loan is checked back in and counts as gone meanwhile.
    AwaitingDrop,
}

/// Is `k` mapped to a `Present` slot?
pub open spec fn is_present<V>(m: Map<i64, Slot<V>>, k: i64) -> bool {
    m.dom().contains(k) && m[k] is Present
}

/// Is `k` mapped to a `Loaned` slot?
pub open spec fn is_loaned<V>(m: Map<i64, Slot<V>>, k: i64) -> bool {
    m.dom().contains(k) && m[k] is Loaned
}

/// Is `k` mapped to an `AwaitingDrop` slot?
pub open spec fn is_awaiting<V>(m: Map<i64, Slot<V>>, k: i64) -> bool {
    m.dom().contains(k) && m[k] is AwaitingDrop
}

/// The value held for `k`, when its slot is `Present`.
pub open spec fn value_at<V>(m: Map<i64, Slot<V>>, k: i64) -> V
    recommends
        is_present(m, k),
{
    m[k]->Present_0
}

/// A key is logically in the store while its slot is `Present` or `Loaned`;
/// a slot awaiting drop is already gone as far as membership is concerned.
pub open spec fn spec_contains<V>(m: Map<i64, Slot<V>>, k: i64) -> bool {
    m.dom().contains(k) && !(m[k] is AwaitingDrop)
}

/// The keys that count toward the store's length.
pub open spec fn live_keys<V>(m: Map<i64, Slot<V>>) -> Set<i64> {
    m.dom().filter(|k: i64| !(m[k] is AwaitingDrop))
}

/// The number of keys that are logically in the store.
pub open spec fn spec_len<V>(m: Map<i64, Slot<V>>) -> nat {
    live_keys(m).len()
}

/// The keys whose value is out in a loan: `Loaned` slots, and `AwaitingDrop`
/// slots (their loan has not come back yet either).
pub open spec fn busy_keys<V>(m: Map<i64, Slot<V>>) -> Set<i64> {
    m.dom().filter(|k: i64| !(m[k] is Present))
}

/// The number of loans currently outstanding against the store.
pub open spec fn spec_outstanding<V>(m: Map<i64, Slot<V>>) -> nat {
    busy_keys(m).len()
}

/// May `insert` be called for `k`? Overwriting a loaned or pending slot would
/// corrupt the outstanding loan, so only an absent or `Present` key may be
/// written.
pub open spec fn insert_allowed<V>(m: Map<i64, Slot<V>>, k: i64) -> bool {
    m.dom().contains(k) ==> m[k] is Present
}

/// The slot map after `insert(k, v)`.
pub open spec fn after_insert<V>(m: Map<i64, Slot<V>>, k: i64, v: V) -> Map<i64, Slot<V>> {
    m.insert(k, Slot::Present(v))
}

/// May `lend` be called for `k`? A key that is already loaned, or pending
/// removal, must not be lent again; an absent key merely yields no loan.
pub open spec fn lend_allowed<V>(m: Map<i64, Slot<V>>, k: i64) -> bool {
    m.dom().contains(k) ==> m[k] is Present
}

/// The slot map after `lend(k)`: a present key's slot becomes `Loaned`, an
/// absent key leaves the store untouched.
pub open spec fn after_lend<V>(m: Map<i64, Slot<V>>, k: i64) -> Map<i64, Slot<V>> {
    if m.dom().contains(k) {
        m.insert(k, Slot::Loaned)
    } else {
        m
    }
}

/// The slot map after `remove(k)`: a `Present` slot is deleted at once, a
/// `Loaned` slot is marked `AwaitingDrop`, and anything else is a no-op.
pub open spec fn after_remove<V>(m: Map<i64, Slot<V>>, k: i64) -> Map<i64, Slot<V>> {
    if is_present(m, k) {
        m.remove(k)
    } else if is_loaned(m, k) {
        m.insert(k, Slot::AwaitingDrop)
    } else {
        m
    }
}

/// May a loan on `k` be checked back in? Only into the slot it was lent from,
/// which is `Loaned` or `AwaitingDrop` for as long as the loan is out.
pub open spec fn checkin_allowed<V>(m: Map<i64, Slot<V>>, k: i64) -> bool {
    m.dom().contains(k) && !(m[k] is Present)
}

/// The slot map after a loan on `k` carrying `v` is checked back in: a
/// `Loaned` slot becomes `Present(v)` again, a slot awaiting drop is deleted.
pub open spec fn after_checkin<V>(m: Map<i64, Slot<V>>, k: i64, v: V) -> Map<i64, Slot<V>> {
    if is_loaned(m, k) {
        m.insert(k, Slot::Present(v))
    } else {
        m.remove(k)
    }
}

/// No slot is `Loaned`: nothing is checked out right now (slots awaiting
/// drop may still exist; their loans are gone from the caller's hands only
/// once checked in, but they cannot be reached by iteration anyway).
pub open spec fn no_loans<V>(m: Map<i64, Slot<V>>) -> bool {
    forall|k: i64| #[trigger] m.dom().contains(k) ==> !(m[k] is Loaned)
}

/// The keys whose slot is `AwaitingDrop`.
pub open spec fn awaiting_keys<V>(m: Map<i64, Slot<V>>) -> Set<i64> {
    m.dom().filter(|k: i64| m[k] is AwaitingDrop)
}

/// A keyed store that can lend its values out, one loan per key at a time.
pub struct LendingLibrary<V> {
    /// Key to slot; the underlying associative container.
    store: HashMap<i64, Slot<V>>,
    /// The keys of `store`, without duplicates, in no particular order.
    keys: Vec<i64>,
    /// Cached count of `Present` and `Loaned` slots.
    live: usize,
    /// Count of loans handed out and not yet checked back in.
    outstanding: usize,
}

/// What a lookup found for some key.
enum SlotKind {
    Absent,
    Present,
    Loaned,
    AwaitingDrop,
}

/// Both caches are bounded by the number of keys in the map.
proof fn lemma_counts_bounded<V>(m: Map<i64, Slot<V>>)
    requires
        m.dom().finite(),
    ensures
        live_keys(m).finite(),
        live_keys(m).len() <= m.dom().len(),
        busy_keys(m).finite(),
        busy_keys(m).len() <= m.dom().len(),
{
    m.dom().lemma_len_filter(|k: i64| !(m[k] is AwaitingDrop));
    m.dom().lemma_len_filter(|k: i64| !(m[k] is Present));
}

/// Appending an element that is not in the sequence keeps it duplicate-free.
proof fn lemma_push_keeps_no_duplicates(s: Seq<i64>, x: i64)
    requires
        s.no_duplicates(),
        !s.contains(x),
    ensures
        s.push(x).no_duplicates(),
{
    assert forall|i: int, j: int|
        0 <= i < j < s.push(x).len() implies s.push(x)[i] != s.push(x)[j] by {
        if j == s.len() {
            assert(s.push(x)[i] == s[i]);
        }
    }
}

/// Swapping the last element into place `idx` and dropping the tail deletes
/// exactly the element at `idx` from a duplicate-free sequence.
proof fn lemma_swap_remove_keys(s: Seq<i64>, idx: int)
    requires
        s.no_duplicates(),
        0 <= idx < s.len(),
    ensures
        ({
            let t = s.update(idx, s.last()).drop_last();
            &&& t.no_duplicates()
            &&& forall|k: i64| #[trigger] t.contains(k) <==> (s.contains(k) && k != s[idx])
        }),
{
    let t = s.update(idx, s.last()).drop_last();
    let n = s.len() as int;
    assert forall|i: int, j: int| 0 <= i < j < t.len() implies t[i] != t[j] by {
        assert(t[i] == (if i == idx { s[n - 1] } else { s[i] }));
        assert(t[j] == (if j == idx { s[n - 1] } else { s[j] }));
    }
    assert forall|k: i64| #[trigger] t.contains(k) implies s.contains(k) && k != s[idx] by {
        let i = choose|i: int| 0 <= i < t.len() && t[i] == k;
        if i == idx {
            assert(s[n - 1] == k);
        } else {
            assert(s[i] == k);
        }
    }
    assert forall|k: i64| s.contains(k) && k != s[idx] implies #[trigger] t.contains(k) by {
        let i = choose|i: int| 0 <= i < s.len() && s[i] == k;
        if i == n - 1 {
            assert(t[idx] == k);
        } else if i != idx {
            assert(t[i] == k);
        }
    }
}

/// The position of `key` in the list, if it is there.
fn find_key(keys: &Vec<i64>, key: i64) -> (r: Option<usize>)
    ensures
        (match r {
            Some(i) => i < keys@.len() && keys@[i as int] == key,
            None => !keys@.contains(key),
        }),
{
    let n = keys.len();
    let mut i: usize = 0;
    while i < n
        invariant
            i <= n,
            n == keys@.len(),
            forall|j: int| 0 <= j < i ==> keys@[j] != key,
        decreases n - i,
    {
        if keys[i] == key {
            return Some(i);
        }
        i = i + 1;
    }
    None
}

/// Delete `key` from a duplicate-free key list.
fn remove_key(keys: &mut Vec<i64>, key: i64)
    requires
        old(keys)@.no_duplicates(),
        old(keys)@.contains(key),
    ensures
        final(keys)@.no_duplicates(),
        forall|k: i64| #[trigger] final(keys)@.contains(k) <==> (old(keys)@.contains(k) && k
            != key),
{
    let idx = match find_key(keys, key) {
        Some(i) => i,
        None => {
            proof {
                assert(false);
            }
            0
        },
    };
    proof {
        lemma_swap_remove_keys(keys@, idx as int);
    }
    let _ = keys.swap_remove(idx);
}

impl<V> View for LendingLibrary<V> {
    type V = Map<i64, Slot<V>>;

    closed spec fn view(&self) -> Map<i64, Slot<V>> {
        self.store@
    }
}

impl<V> Default for LendingLibrary<V> {
    /// The same empty store that [`LendingLibrary::new`] builds.
    fn default() -> (r: Self)
        ensures
            r.wf(),
            r@ == Map::<i64, Slot<V>>::empty(),
            spec_len(r@) == 0,
            spec_outstanding(r@) == 0,
    {
        LendingLibrary::new()
    }
}

impl<V> LendingLibrary<V> {
    /// The store's internal bookkeeping agrees with its slot map.
    pub closed spec fn wf(self) -> bool {
        &&& self.keys@.no_duplicates()
        &&& (forall|k: i64| self.store@.dom().contains(k) <==> #[trigger] self.keys@.contains(k))
        &&& self.live == spec_len(self.store@)
        &&& self.outstanding == spec_outstanding(self.store@)
    }

    /// An empty store.
    pub fn new() -> (r: Self)
        ensures
            r.wf(),
            r@ == Map::<i64, Slot<V>>::empty(),
            spec_len(r@) == 0,
            spec_outstanding(r@) == 0,
    {
        let r = LendingLibrary { store: HashMap::new(), keys: Vec::new(), live: 0, outstanding: 0 };
        proof {
            assert(live_keys(r.store@) =~= Set::<i64>::empty());
            assert(busy_keys(r.store@) =~= Set::<i64>::empty());
        }
        r
    }

    /// An empty store with room reserved for at least `capacity` entries.
    pub fn with_capacity(capacity: usize) -> (r: Self)
        ensures
            r.wf(),
            r@ == Map::<i64, Slot<V>>::empty(),
            spec_len(r@) == 0,
            spec_outstanding(r@) == 0,
    {
        let r = LendingLibrary {
            store: HashMap::with_capacity(capacity),
            keys: Vec::new(),
            live: 0,
            outstanding: 0,
        };
        proof {
            assert(live_keys(r.store@) =~= Set::<i64>::empty());
            assert(busy_keys(r.store@) =~= Set::<i64>::empty());
        }
        r
    }

    /// The number of keys logically in the store: `Present` and `Loaned`
    /// slots count, slots awaiting drop do not.
    pub fn len(&self) -> (r: usize)
        requires
            self.wf(),
        ensures
            r == spec_len(self@),
    {
        self.live
    }

    /// Does the store hold nothing (not counting slots awaiting drop)?
    pub fn is_empty(&self) -> (r: bool)
        requires
            self.wf(),
        ensures
            r == (spec_len(self@) == 0),
    {
        self.len() == 0
    }

    /// The number of loans out against this store. Purely diagnostic: when it
    /// is nonzero the store must not be torn down yet.
    pub fn outstanding(&self) -> (r: usize)
        requires
            self.wf(),
        ensures
            r == spec_outstanding(self@),
    {
        self.outstanding
    }

    /// Is `key` logically in the store (`Present` or `Loaned`)?
    pub fn contains_key(&self, key: i64) -> (r: bool)
        requires
            self.wf(),
        ensures
            r == spec_contains(self@, key),
    {
        match self.store.get(&key) {
            Some(slot) => match slot {
                Slot::Present(_) => true,
                Slot::Loaned => true,
                Slot::AwaitingDrop => false,
            },
            None => false,
        }
    }

    /// Which state is `key`'s slot in?
    fn slot_kind(&self, key: i64) -> (r: SlotKind)
        ensures
            r is Absent <==> !self@.dom().contains(key),
            r is Present <==> is_present(self@, key),
            r is Loaned <==> is_loaned(self@, key),
            r is AwaitingDrop <==> is_awaiting(self@, key),
    {
        match self.store.get(&key) {
            None => SlotKind::Absent,
            Some(Slot::Present(_)) => SlotKind::Present,
            Some(Slot::Loaned) => SlotKind::Loaned,
            Some(Slot::AwaitingDrop) => SlotKind::AwaitingDrop,
        }
    }

    /// Store `val` under `key`. Returns the value previously present, if any.
    /// The key must not be loaned or awaiting drop: its live loan would lose
    /// the slot it has to return into.
    pub fn insert(&mut self, key: i64, val: V) -> (r: Option<V>)
        requires
            old(self).wf(),
            insert_allowed(old(self)@, key),
        ensures
            final(self).wf(),
            final(self)@ == after_insert(old(self)@, key, val),
            (match r {
                Some(v0) => is_present(old(self)@, key) && old(self)@[key] == Slot::Present(v0),
                None => !old(self)@.dom().contains(key),
            }),
            spec_len(final(self)@) == spec_len(old(self)@) + (if r is Some {
                0int
            } else {
                1int
            }),
            spec_outstanding(final(self)@) == spec_outstanding(old(self)@),
    {
        let ghost m1 = self.store@;
        let prev = self.store.insert(key, Slot::Present(val));
        let ghost m2 = self.store@;
        proof {
            lemma_counts_bounded::<V>(m1);
            lemma_counts_bounded::<V>(m2);
        }
        match prev {
            None => {
                proof {
                    broadcast use vstd::seq_lib::lemma_seq_contains_after_push;

                    assert(!self.keys@.contains(key));
                    lemma_push_keeps_no_duplicates(self.keys@, key);
                    assert(live_keys(m2) =~= live_keys(m1).insert(key));
                    assert(busy_keys(m2) =~= busy_keys(m1));
                    assert(spec_len(m2) <= m2.dom().len());
                    assert(m2.dom().len() == vstd::std_specs::hash::spec_hash_map_len(&self.store));
                }
                self.keys.push(key);
                self.live = self.live + 1;
                None
            },
            Some(slot) => {
                proof {
                    assert(m2.dom() =~= m1.dom());
                    assert(live_keys(m2) =~= live_keys(m1));
                    assert(busy_keys(m2) =~= busy_keys(m1));
                }
                match slot {
                    Slot::Present(v0) => Some(v0),
                    Slot::Loaned => {
                        proof {
                            assert(false);
                        }
                        None
                    },
                    Slot::AwaitingDrop => {
                        proof {
                            assert(false);
                        }
                        None
                    },
                }
            },
        }
    }

    /// Take `key` out of the store. A `Present` slot is deleted on the spot;
    /// a `Loaned` slot is marked `AwaitingDrop` and physically disappears
    /// only when its loan is checked back in. Returns whether the key was
    /// logically in the store, so removing an absent or already-removed key
    /// is a `false` no-op.
    pub fn remove(&mut self, key: i64) -> (r: bool)
        requires
            old(self).wf(),
        ensures
            final(self).wf(),
            final(self)@ == after_remove(old(self)@, key),
            r == spec_contains(old(self)@, key),
            spec_len(final(self)@) == spec_len(old(self)@) - (if r {
                1int
            } else {
                0int
            }),
            spec_outstanding(final(self)@) == spec_outstanding(old(self)@),
    {
        let ghost m1 = self.store@;
        proof {
            lemma_counts_bounded::<V>(m1);
        }
        match self.slot_kind(key) {
            SlotKind::Absent => false,
            SlotKind::AwaitingDrop => false,
            SlotKind::Present => {
                let _ = self.store.remove(&key);
                remove_key(&mut self.keys, key);
                proof {
                    assert(live_keys(self.store@) =~= live_keys(m1).remove(key));
                    assert(busy_keys(self.store@) =~= busy_keys(m1));
                }
                self.live = self.live - 1;
                true
            },
            SlotKind::Loaned => {
                let _ = self.store.insert(key, Slot::AwaitingDrop);
                proof {
                    assert(self.store@.dom() =~= m1.dom());
                    assert(live_keys(self.store@) =~= live_keys(m1).remove(key));
                    assert(busy_keys(self.store@) =~= busy_keys(m1));
                }
                self.live = self.live - 1;
                true
            },
        }
    }

    /// Remove every `Present` slot at one stroke. Nothing may be loaned:
    /// deleting a loaned slot would strand its live loan, so that is misuse.
    /// Slots awaiting drop are left alone; each still has a check-in coming
    /// that will delete it.
    pub fn clear(&mut self)
        requires
            old(self).wf(),
            no_loans(old(self)@),
        ensures
            final(self).wf(),
            final(self)@ == old(self)@.restrict(awaiting_keys(old(self)@)),
            spec_len(final(self)@) == 0,
            spec_outstanding(final(self)@) == spec_outstanding(old(self)@),
    {
        let mut walk: Vec<i64> = Vec::new();
        core::mem::swap(&mut walk, &mut self.keys);
        let ghost m0 = self.store@;
        let ghost ks = walk@;
        let n = walk.len();
        let mut i: usize = 0;
        while i < n
            invariant
                i <= n,
                n == ks.len(),
                walk@ == ks,
                ks.no_duplicates(),
                no_loans(m0),
                self.outstanding == spec_outstanding(m0),
                forall|k: i64| m0.dom().contains(k) <==> #[trigger] ks.contains(k),
                forall|k: i64| #[trigger]
                    self.store@.dom().contains(k) <==> (m0.dom().contains(k) && !(m0[k] is Present
                        && ks.take(i as int).contains(k))),
                forall|k: i64|
                    self.store@.dom().contains(k) ==> #[trigger] self.store@[k] == m0[k],
                self.keys@.no_duplicates(),
                forall|k: i64| #[trigger]
                    self.keys@.contains(k) <==> (ks.take(i as int).contains(k)
                        && m0.dom().contains(k) && m0[k] is AwaitingDrop),
            decreases n - i,
        {
            let k = walk[i];
            proof {
                broadcast use vstd::seq_lib::group_seq_properties;

                assert(ks[i as int] == k);
                assert(ks.contains(k));
                assert(!ks.take(i as int).contains(k));
                assert(ks.take(i as int + 1) =~= ks.take(i as int).push(k));
            }
            match self.slot_kind(k) {
                SlotKind::Present => {
                    let _ = self.store.remove(&k);
                },
                SlotKind::AwaitingDrop => {
                    proof {
                        lemma_push_keeps_no_duplicates(self.keys@, k);
                    }
                    self.keys.push(k);
                },
                SlotKind::Loaned => {
                    proof {
                        assert(false);
                    }
                },
                SlotKind::Absent => {
                    proof {
                        assert(false);
                    }
                },
            }
            i = i + 1;
            proof {
                broadcast use vstd::seq_lib::group_seq_properties;
            }
        }
        proof {
            broadcast use vstd::seq_lib::group_seq_properties;

            assert(ks.take(n as int) == ks);
            assert(self.store@ =~= m0.restrict(awaiting_keys(m0)));
            lemma_counts_bounded::<V>(m0);
            assert(live_keys(self.store@) =~= Set::<i64>::empty());
            assert(busy_keys(self.store@) =~= busy_keys(m0));
        }
        self.live = 0;
    }

    /// Check `key`'s value out of the store. The value moves into the
    /// returned [`Loan`], the slot stays behind as `Loaned`, and the key
    /// still counts as contained. An absent key yields no loan; a key that
    /// is already loaned, or awaiting drop, must not be lent at all.
    pub fn lend(&mut self, key: i64) -> (r: Option<Loan<V>>)
        requires
            old(self).wf(),
            lend_allowed(old(self)@, key),
        ensures
            final(self).wf(),
            final(self)@ == after_lend(old(self)@, key),
            (match r {
                Some(loan) => is_present(old(self)@, key) && loan.spec_key() == key
                    && old(self)@[key] == Slot::Present(loan.spec_value()),
                None => !old(self)@.dom().contains(key),
            }),
            spec_len(final(self)@) == spec_len(old(self)@),
            spec_outstanding(final(self)@) == spec_outstanding(old(self)@) + (if r is Some {
                1int
            } else {
                0int
            }),
    {
        let ghost m1 = self.store@;
        proof {
            lemma_counts_bounded::<V>(m1);
        }
        match self.slot_kind(key) {
            SlotKind::Absent => None,
            SlotKind::Present => {
                let prev = self.store.insert(key, Slot::Loaned);
                proof {
                    lemma_counts_bounded::<V>(self.store@);
                    assert(self.store@.dom() =~= m1.dom());
                    assert(live_keys(self.store@) =~= live_keys(m1));
                    assert(busy_keys(self.store@) =~= busy_keys(m1).insert(key));
                    assert(self.store@.dom().len() == vstd::std_specs::hash::spec_hash_map_len(
                        &self.store,
                    ));
                }
                self.outstanding = self.outstanding + 1;
                match prev {
                    Some(Slot::Present(val)) => Some(Loan::issue(key, val)),
                    _ => {
                        proof {
                            assert(false);
                        }
                        None
                    },
                }
            },
            SlotKind::Loaned => {
                proof {
                    assert(false);
                }
                None
            },
            SlotKind::AwaitingDrop => {
                proof {
                    assert(false);
                }
                None
            },
        }
    }

    /// A snapshot of every `Present` entry, to be walked pair by pair.
    /// Nothing may be loaned: a moved-out value must never be observed, so
    /// iterating a store with a loan outstanding is misuse. Slots awaiting
    /// drop are already logically gone and are simply not listed.
    pub fn iter<'a>(&'a self) -> (r: Iter<'a, V>)
        requires
            self.wf(),
            no_loans(self@),
        ensures
            snapshot_of(self@, r.remaining()),
    {
        let mut entries: Vec<(i64, &'a V)> = Vec::new();
        let n = self.keys.len();
        let mut i: usize = 0;
        while i < n
            invariant
                i <= n,
                n == self.keys@.len(),
                self.wf(),
                no_loans(self@),
                forall|j: int|
                    0 <= j < entries@.len() ==> is_present(self@, (#[trigger] entries@[j]).0)
                        && self@[entries@[j].0] == Slot::Present(*entries@[j].1),
                forall|j: int|
                    0 <= j < entries@.len() ==> self.keys@.take(i as int).contains(
                        (#[trigger] entries@[j]).0,
                    ),
                forall|j1: int, j2: int|
                    0 <= j1 < j2 < entries@.len() ==> entries@[j1].0 != entries@[j2].0,
                forall|k: i64|
                    is_present(self@, k) && self.keys@.take(i as int).contains(k) ==> exists|j: int|
                        0 <= j < entries@.len() && (#[trigger] entries@[j]).0 == k,
            decreases n - i,
        {
            let k = self.keys[i];
            proof {
                broadcast use vstd::seq_lib::group_seq_properties;

                assert(self.keys@[i as int] == k);
                assert(self.keys@.contains(k));
                assert(!self.keys@.take(i as int).contains(k));
                assert(self.keys@.take(i as int + 1) =~= self.keys@.take(i as int).push(k));
            }
            match self.store.get(&k) {
                Some(Slot::Present(v)) => {
                    let ghost es = entries@;
                    entries.push((k, v));
                    proof {
                        broadcast use vstd::seq_lib::group_seq_properties;

                        assert(entries@[es.len() as int].0 == k);
                        assert forall|kk: i64|
                            is_present(self@, kk) && self.keys@.take(i as int + 1).contains(
                                kk,
                            ) implies exists|j: int|
                            0 <= j < entries@.len() && (#[trigger] entries@[j]).0 == kk by {
                            if kk == k {
                                assert(entries@[es.len() as int].0 == kk);
                            } else {
                                assert(self.keys@.take(i as int).contains(kk));
                                let j = choose|j: int|
                                    0 <= j < es.len() && (#[trigger] es[j]).0 == kk;
                                assert(entries@[j].0 == kk);
                            }
                        }
                    }
                },
                Some(Slot::AwaitingDrop) => {
                    proof {
                        broadcast use vstd::seq_lib::group_seq_properties;

                        assert forall|kk: i64|
                            is_present(self@, kk) && self.keys@.take(i as int + 1).contains(
                                kk,
                            ) implies self.keys@.take(i as int).contains(kk) by {}
                    }
                },
                Some(Slot::Loaned) => {
                    proof {
                        assert(false);
                    }
                },
                None => {
                    proof {
                        assert(false);
                    }
                },
            }
            i = i + 1;
        }
        proof {
            assert(self.keys@.take(n as int) == self.keys@);
        }
        Iter::from_entries(entries)
    }

    /// A snapshot of every `Present` key, to be walked while lending,
    /// replacing or mutating the values one at a time. As with [`iter`],
    /// nothing may be loaned when the snapshot is taken.
    ///
    /// [`iter`]: LendingLibrary::iter
    pub fn iter_mut(&mut self) -> (r: IterMut)
        requires
            old(self).wf(),
            no_loans(old(self)@),
        ensures
            *final(self) == *old(self),
            key_snapshot_of(old(self)@, r.remaining()),
    {
        let mut found: Vec<i64> = Vec::new();
        let n = self.keys.len();
        let mut i: usize = 0;
        while i < n
            invariant
                i <= n,
                n == self.keys@.len(),
                self.wf(),
                no_loans(self@),
                forall|j: int| 0 <= j < found@.len() ==> is_present(self@, #[trigger] found@[j]),
                forall|j: int|
                    0 <= j < found@.len() ==> self.keys@.take(i as int).contains(
                        #[trigger] found@[j],
                    ),
                found@.no_duplicates(),
                forall|k: i64|
                    is_present(self@, k) && self.keys@.take(i as int).contains(k)
                        ==> found@.contains(k),
            decreases n - i,
        {
            let k = self.keys[i];
            proof {
                broadcast use vstd::seq_lib::group_seq_properties;

                assert(self.keys@[i as int] == k);
                assert(self.keys@.contains(k));
                assert(!self.keys@.take(i as int).contains(k));
                assert(self.keys@.take(i as int + 1) =~= self.keys@.take(i as int).push(k));
            }
            match self.slot_kind(k) {
                SlotKind::Present => {
                    proof {
                        lemma_push_keeps_no_duplicates(found@, k);
                    }
                    found.push(k);
                },
                SlotKind::AwaitingDrop => {},
                SlotKind::Loaned => {
                    proof {
                        assert(false);
                    }
                },
                SlotKind::Absent => {
                    proof {
                        assert(false);
                    }
                },
            }
            i = i + 1;
            proof {
                broadcast use vstd::seq_lib::group_seq_properties;
            }
        }
        proof {
            assert(self.keys@.take(n as int) == self.keys@);
        }
        IterMut::from_keys(found)
    }

    /// How many entries the underlying table can hold before it must grow.
    /// Relies on std's `HashMap::capacity`; pure delegation, nothing is
    /// promised of the number.
    #[verifier::external_body]
    pub fn capacity(&self) -> usize {
        self.store.capacity()
    }

    /// Make room for at least `additional` more entries.
    pub fn reserve(&mut self, additional: usize)
        requires
            old(self).wf(),
        ensures
            final(self).wf(),
            final(self)@ == old(self)@,
    {
        self.store.reserve(additional);
    }

    /// Give spare capacity back. Relies on std's `HashMap::shrink_to_fit`,
    /// which only changes capacity and keeps every entry, so the slots and
    /// the bookkeeping around them are untouched.
    #[verifier::external_body]
    pub fn shrink_to_fit(&mut self)
        requires
            old(self).wf(),
        ensures
            final(self).wf(),
            final(self)@ == old(self)@,
    {
        self.store.shrink_to_fit();
    }

    /// Tear the store down. Every loan must be checked back in first: a loan
    /// that outlives its store can never return its value, so destroying a
    /// store with a nonzero outstanding count is misuse and is refused.
    pub fn close(self)
        requires
            self.wf(),
            spec_outstanding(self@) == 0,
    {
    }

    /// Absorb a returned loan: the one path by which a lent value comes
    /// back. A slot still `Loaned` becomes `Present` with the loan's value
    /// (including whatever was written through the loan); a slot marked
    /// `AwaitingDrop` is deleted and the value is discarded. The loan must
    /// belong to this store: its key must hold a `Loaned` or `AwaitingDrop`
    /// slot, which is exactly the state `lend` left behind.
    pub fn checkin(&mut self, loan: Loan<V>)
        requires
            old(self).wf(),
            checkin_allowed(old(self)@, loan.spec_key()),
        ensures
            final(self).wf(),
            final(self)@ == after_checkin(old(self)@, loan.spec_key(), loan.spec_value()),
            spec_len(final(self)@) == spec_len(old(self)@),
            spec_outstanding(final(self)@) == spec_outstanding(old(self)@) - 1,
    {
        let (key, val) = loan.into_parts();
        let ghost m1 = self.store@;
        proof {
            lemma_counts_bounded::<V>(m1);
            assert(busy_keys(m1).contains(key));
        }
        match self.slot_kind(key) {
            SlotKind::Loaned => {
                let _ = self.store.insert(key, Slot::Present(val));
                proof {
                    assert(self.store@.dom() =~= m1.dom());
                    assert(live_keys(self.store@) =~= live_keys(m1));
                    assert(busy_keys(self.store@) =~= busy_keys(m1).remove(key));
                }
                self.outstanding = self.outstanding - 1;
            },
            SlotKind::AwaitingDrop => {
                let _ = self.store.remove(&key);
                remove_key(&mut self.keys, key);
                proof {
                    assert(live_keys(self.store@) =~= live_keys(m1));
                    assert(busy_keys(self.store@) =~= busy_keys(m1).remove(key));
                }
                self.outstanding = self.outstanding - 1;
            },
            SlotKind::Absent => {
                proof {
                    assert(false);
                }
            },
            SlotKind::Present => {
                proof {
                    assert(false);
                }
            },
        }
    }
}

} // verus!
