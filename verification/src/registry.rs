//! The completion registry.
//!
//! The registry holds the set of tile indices whose blocks have not yet
//! reached the total sample budget.  It starts holding every index of the
//! grid; an index is removed when its block is retired, and the render is
//! finished exactly when the registry is empty.  Removal is one-way: a
//! removed index is no longer contained, so it can never be removed a second
//! time with effect.

use vstd::prelude::*;
use vstd::set_lib::set_int_range;

verus! {

/// How many entries of `s` are still pending (hold `true`).
pub closed spec fn pending_count(s: Seq<bool>) -> nat
    decreases s.len(),
{
    if s.len() == 0 {
        0
    } else {
        pending_count(s.drop_last()) + if s.last() {
            1nat
        } else {
            0nat
        }
    }
}

/// The set of pending tiles, of bounded capacity, with a cached size.
pub struct Registry {
    slots: Vec<bool>,
    count: usize,
}

impl View for Registry {
    type V = Set<int>;

    /// The registry abstractly: the set of still-pending tile indices.
    closed spec fn view(&self) -> Set<int> {
        Set::new(|i: int| 0 <= i < self.slots@.len() && self.slots@[i])
    }
}

impl Registry {
    /// The number of tile indices the registry was created for.
    pub closed spec fn capacity(self) -> nat {
        self.slots@.len()
    }

    /// The cached size agrees with the slots.
    pub closed spec fn inv(self) -> bool {
        self.count == pending_count(self.slots@)
    }

    /// A fresh registry holding every tile index below `n`.
    pub fn new(n: usize) -> (r: Registry)
        ensures
            r.inv(),
            r.capacity() == n,
            r@ == set_int_range(0, n as int),
            r@.finite(),
            r@.len() == n,
    {
        let mut slots: Vec<bool> = Vec::new();
        let mut i: usize = 0;
        while i < n
            invariant
                i <= n,
                slots@.len() == i,
                forall|j: int| 0 <= j < i ==> slots@[j],
            decreases n - i,
        {
            slots.push(true);
            i = i + 1;
        }
        proof {
            lemma_pending_count_full(slots@);
        }
        let r = Registry { slots, count: n };
        proof {
            assert(r@ =~= set_int_range(0, n as int));
            lemma_pending_is_card(r.slots@);
        }
        r
    }

    /// Whether tile index `i` is still pending.
    pub fn contains(&self, i: usize) -> (r: bool)
        ensures
            r == self@.contains(i as int),
    {
        i < self.slots.len() && self.slots[i]
    }

    /// The number of still-pending tile indices.
    pub fn len(&self) -> (r: usize)
        requires
            self.inv(),
        ensures
            r == self@.len(),
    {
        proof {
            lemma_pending_is_card(self.slots@);
        }
        self.count
    }

    /// Whether every tile has been retired.
    pub fn is_empty(&self) -> (r: bool)
        requires
            self.inv(),
        ensures
            r == self@.is_empty(),
    {
        proof {
            lemma_pending_is_card(self.slots@);
            if self.count == 0 {
                assert(self@ =~= Set::empty());
            }
        }
        self.count == 0
    }

    /// Removes tile index `i`.  Reports whether it was still pending; a
    /// second removal of the same index finds nothing and changes nothing.
    pub fn remove(&mut self, i: usize) -> (was_pending: bool)
        requires
            old(self).inv(),
        ensures
            final(self).inv(),
            final(self).capacity() == old(self).capacity(),
            was_pending == old(self)@.contains(i as int),
            final(self)@ == old(self)@.remove(i as int),
            final(self)@.len() == old(self)@.len() - (if was_pending {
                1int
            } else {
                0int
            }),
    {
        proof {
            lemma_pending_is_card(old(self).slots@);
        }
        let was_pending = i < self.slots.len() && self.slots[i];
        if was_pending {
            proof {
                lemma_pending_count_update(self.slots@, i as int, false);
            }
            self.slots.set(i, false);
            self.count = self.count - 1;
        }
        proof {
            if was_pending {
                assert(self@ =~= old(self)@.remove(i as int));
            } else {
                assert(self@ =~= old(self)@.remove(i as int));
            }
            lemma_pending_is_card(self.slots@);
        }
        was_pending
    }
}

/// A tile leaves the registry at most once: after a removal the pending set
/// no longer contains the tile, and removing it again changes nothing.
pub proof fn lemma_retire_once(pending: Set<int>, c: int)
    ensures
        !pending.remove(c).contains(c),
        pending.remove(c).remove(c) == pending.remove(c),
{
    assert(pending.remove(c).remove(c) =~= pending.remove(c));
}

/// A slot sequence that is `true` everywhere has every entry pending.
proof fn lemma_pending_count_full(s: Seq<bool>)
    requires
        forall|j: int| 0 <= j < s.len() ==> s[j],
    ensures
        pending_count(s) == s.len(),
    decreases s.len(),
{
    if s.len() > 0 {
        lemma_pending_count_full(s.drop_last());
    }
}

/// Setting one slot changes the pending count by exactly that slot's change.
proof fn lemma_pending_count_update(s: Seq<bool>, i: int, v: bool)
    requires
        0 <= i < s.len(),
    ensures
        pending_count(s.update(i, v)) == pending_count(s) + (if v {
            1int
        } else {
            0int
        }) - (if s[i] {
            1int
        } else {
            0int
        }),
    decreases s.len(),
{
    let t = s.update(i, v);
    if i == s.len() - 1 {
        assert(t.drop_last() =~= s.drop_last());
    } else {
        assert(t.drop_last() =~= s.drop_last().update(i, v));
        lemma_pending_count_update(s.drop_last(), i, v);
    }
}

/// The pending count is the cardinality of the pending set, which is finite.
proof fn lemma_pending_is_card(s: Seq<bool>)
    ensures
        Set::new(|i: int| 0 <= i < s.len() && s[i]).finite(),
        Set::new(|i: int| 0 <= i < s.len() && s[i]).len() == pending_count(s),
    decreases s.len(),
{
    let v = Set::new(|i: int| 0 <= i < s.len() && s[i]);
    if s.len() == 0 {
        assert(v =~= Set::empty());
    } else {
        let n = s.len() - 1;
        let t = s.drop_last();
        let w = Set::new(|i: int| 0 <= i < t.len() && t[i]);
        lemma_pending_is_card(t);
        if s.last() {
            assert(v =~= w.insert(n));
            assert(!w.contains(n));
        } else {
            assert(v =~= w);
        }
    }
}

} // verus!
