//! The lending discipline, stated once over the slot model.
//!
//! Every public operation describes its effect as a transform on the slot
//! map (`after_insert`, `after_lend`, `after_remove`, `after_checkin`). The
//! lemmas here compose those transforms and prove the guarantees a caller
//! gets from chaining the operations, independent of any particular store.

use vstd::prelude::*;

verus! {

use crate::Slot;
use crate::after_checkin;
use crate::after_insert;
use crate::after_lend;
use crate::after_remove;
use crate::checkin_allowed;
use crate::insert_allowed;
use crate::is_loaned;
use crate::is_present;
use crate::lend_allowed;
use crate::live_keys;
use crate::spec_contains;
use crate::spec_len;
use crate::value_at;

/// A key never inserted is not contained; removing it is a `false` no-op,
/// and lending it yields no loan and changes nothing.
pub proof fn lemma_absent_key<V>(m: Map<i64, Slot<V>>, k: i64)
    requires
        !m.dom().contains(k),
    ensures
        !spec_contains(m, k),
        after_remove(m, k) == m,
        after_lend(m, k) == m,
{
}

/// Inserting a value, lending it and checking the loan back in leaves the
/// key present and lendable again, carrying whatever value the loan carried
/// at check-in: mutations made through the loan persist, and the store as a
/// whole ends up exactly as if the final value had been inserted directly.
pub proof fn lemma_lend_round_trip<V>(m: Map<i64, Slot<V>>, k: i64, v: V, w: V)
    requires
        insert_allowed(m, k),
    ensures
        ({
            let stored = after_insert(m, k, v);
            let lent = after_lend(stored, k);
            let back = after_checkin(lent, k, w);
            &&& is_present(stored, k) && value_at(stored, k) == v
            &&& lend_allowed(stored, k)
            &&& is_loaned(lent, k) && spec_contains(lent, k)
            &&& checkin_allowed(lent, k)
            &&& back == after_insert(m, k, w)
            &&& is_present(back, k) && value_at(back, k) == w
            &&& lend_allowed(back, k)
            &&& spec_len(back) == spec_len(stored)
        }),
{
    let stored = after_insert(m, k, v);
    let lent = after_lend(stored, k);
    let back = after_checkin(lent, k, w);
    assert(back =~= after_insert(m, k, w));
    assert(live_keys(back) =~= live_keys(stored));
}

/// A second `lend` of a key, without the loan in between being checked in,
/// is refused: lending leaves the slot `Loaned`, and `lend` must never see
/// a `Loaned` slot.
pub proof fn lemma_no_double_lend<V>(m: Map<i64, Slot<V>>, k: i64)
    requires
        is_present(m, k),
    ensures
        is_loaned(after_lend(m, k), k),
        !lend_allowed(after_lend(m, k), k),
{
}

/// Removing a loaned key succeeds at once, but only logically: the slot
/// stays behind as `AwaitingDrop`, no longer contained and not lendable,
/// and disappears physically the moment its loan is checked back in.
pub proof fn lemma_remove_while_loaned<V>(m: Map<i64, Slot<V>>, k: i64, w: V)
    requires
        is_loaned(m, k),
    ensures
        ({
            let marked = after_remove(m, k);
            &&& spec_contains(m, k)
            &&& marked.dom().contains(k)
            &&& !spec_contains(marked, k)
            &&& !lend_allowed(marked, k)
            &&& checkin_allowed(marked, k)
            &&& !after_checkin(marked, k, w).dom().contains(k)
        }),
{
}

/// `remove` is idempotent: once a key has been removed — or never existed —
/// every further `remove` returns `false` and changes nothing.
pub proof fn lemma_remove_idempotent<V>(m: Map<i64, Slot<V>>, k: i64)
    ensures
        !spec_contains(after_remove(m, k), k),
        after_remove(after_remove(m, k), k) == after_remove(m, k),
{
}

} // verus!
