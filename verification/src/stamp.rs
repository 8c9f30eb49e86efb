//! Sequence stamps: finite maps from an address to a ticket, merged by
//! pointwise maximum.

use std::collections::HashMap;
use vstd::prelude::*;
use vstd::std_specs::hash::spec_hash_map_iter;
use vstd::std_specs::iter::IteratorSpec;

verus! {

broadcast use vstd::std_specs::hash::group_hash_axioms;

/// The ticket that a stamp holds for an address: zero where it has no entry.
pub open spec fn stamp_at(m: Map<usize, usize>, a: usize) -> usize {
    if m.contains_key(a) {
        m[a]
    } else {
        0
    }
}

/// The merge of two stamps: every entry of either, and for an address that
/// both hold, the larger ticket.
pub open spec fn stamp_join(m: Map<usize, usize>, o: Map<usize, usize>) -> Map<usize, usize> {
    Map::new(
        |a: usize| m.contains_key(a) || o.contains_key(a),
        |a: usize|
            if !o.contains_key(a) {
                m[a]
            } else if !m.contains_key(a) {
                o[a]
            } else if m[a] >= o[a] {
                m[a]
            } else {
                o[a]
            },
    )
}

/// A stamp with the ticket for `a` raised to `t` where it is lower.
pub open spec fn stamp_raise(m: Map<usize, usize>, a: usize, t: usize) -> Map<usize, usize> {
    m.insert(
        a,
        if stamp_at(m, a) >= t {
            stamp_at(m, a)
        } else {
            t
        },
    )
}

/// `m` holds at least the ticket of `o` for every address.
pub open spec fn stamp_le(o: Map<usize, usize>, m: Map<usize, usize>) -> bool {
    forall|a: usize| stamp_at(o, a) <= stamp_at(m, a)
}

/// A sequence stamp: what is known of each address, as the ticket of a write
/// to it.
#[derive(Debug)]
pub struct MemorySequence {
    pub sequence: HashMap<usize, usize>,
}

impl View for MemorySequence {
    type V = Map<usize, usize>;

    open spec fn view(&self) -> Map<usize, usize> {
        self.sequence@
    }
}

impl Default for MemorySequence {
    /// The empty stamp.
    fn default() -> (r: Self)
        ensures
            r@ == Map::<usize, usize>::empty(),
    {
        MemorySequence { sequence: HashMap::new() }
    }
}

impl Clone for MemorySequence {
    fn clone(&self) -> (r: Self)
        ensures
            r@ == self@,
    {
        MemorySequence { sequence: self.sequence.clone() }
    }
}

impl MemorySequence {
    /// The ticket held for `addr`, zero where there is none.
    pub fn get(&self, addr: usize) -> (t: usize)
        ensures
            t == stamp_at(self@, addr),
    {
        match self.sequence.get(&addr) {
            Some(t) => *t,
            None => 0,
        }
    }

    /// Sets the ticket for `addr`.
    pub fn set(&mut self, addr: usize, ticket: usize)
        ensures
            final(self)@ == old(self)@.insert(addr, ticket),
    {
        self.sequence.insert(addr, ticket);
    }

    /// Raises the ticket for `addr` to `ticket` where it is lower.
    pub fn raise(&mut self, addr: usize, ticket: usize)
        ensures
            final(self)@ == stamp_raise(old(self)@, addr, ticket),
    {
        let held = self.get(addr);
        let next = if held >= ticket { held } else { ticket };
        self.sequence.insert(addr, next);
    }

    /// Merges `other` into this stamp.
    pub fn synchronize(&mut self, other: &MemorySequence)
        ensures
            final(self)@ == stamp_join(old(self)@, other@),
    {
        let ghost before = self@;
        let ghost items = spec_hash_map_iter(&other.sequence).remaining();
        let ghost mut done: Set<usize> = Set::empty();
        let ghost mut n: int = 0;
        for entry in it: other.sequence.iter()
            invariant
                it.seq() == items,
                it.index() == n,
                forall|j: int| 0 <= j < n ==> done.contains(*(#[trigger] items[j]).0),
                forall|a: usize| done.contains(a) ==> other@.contains_key(a),
                self@ =~= Map::new(
                    |a: usize| before.contains_key(a) || done.contains(a),
                    |a: usize|
                        if done.contains(a) {
                            stamp_join(before, other@)[a]
                        } else {
                            before[a]
                        },
                ),
        {
            let (k, v) = entry;
            let res = match self.sequence.get(k) {
                Some(ev) => if *ev >= *v { *ev } else { *v },
                None => *v,
            };
            self.sequence.insert(*k, res);
            proof {
                done = done.insert(*k);
                n = n + 1;
            }
        }
        assert forall|a: usize| other@.contains_key(a) implies done.contains(a) by {
            assert(items.contains((&a, &other@[a])));
        }
        assert(self@ =~= stamp_join(before, other@));
    }
}

/// The ticket of a merge is the larger of the two tickets.
pub proof fn lemma_join_at(m: Map<usize, usize>, o: Map<usize, usize>, a: usize)
    ensures
        stamp_at(stamp_join(m, o), a) == if stamp_at(m, a) >= stamp_at(o, a) {
            stamp_at(m, a)
        } else {
            stamp_at(o, a)
        },
{
}

/// A stamp holds at least what it holds.
pub proof fn lemma_le_reflexive(m: Map<usize, usize>)
    ensures
        stamp_le(m, m),
{
}

/// Holding at least as much carries over from stamp to stamp.
pub proof fn lemma_le_transitive(m: Map<usize, usize>, o: Map<usize, usize>, p: Map<usize, usize>)
    requires
        stamp_le(m, o),
        stamp_le(o, p),
    ensures
        stamp_le(m, p),
{
    assert forall|a: usize| stamp_at(m, a) <= stamp_at(p, a) by {
        assert(stamp_at(m, a) <= stamp_at(o, a));
        assert(stamp_at(o, a) <= stamp_at(p, a));
    }
}

/// A merge holds at least what each of the two stamps holds.
pub proof fn lemma_le_join(m: Map<usize, usize>, o: Map<usize, usize>)
    ensures
        stamp_le(m, stamp_join(m, o)),
        stamp_le(o, stamp_join(m, o)),
{
    assert forall|a: usize| stamp_at(m, a) <= stamp_at(stamp_join(m, o), a) by {
        lemma_join_at(m, o, a);
    }
    assert forall|a: usize| stamp_at(o, a) <= stamp_at(stamp_join(m, o), a) by {
        lemma_join_at(m, o, a);
    }
}

/// A stamp that holds at least what `p` holds still does so after a merge.
pub proof fn lemma_le_into_join(p: Map<usize, usize>, m: Map<usize, usize>, o: Map<usize, usize>)
    requires
        stamp_le(p, m) || stamp_le(p, o),
    ensures
        stamp_le(p, stamp_join(m, o)),
{
    lemma_le_join(m, o);
    if stamp_le(p, m) {
        lemma_le_transitive(p, m, stamp_join(m, o));
    } else {
        lemma_le_transitive(p, o, stamp_join(m, o));
    }
}

/// Raising a ticket loses nothing, and the ticket raised is held.
pub proof fn lemma_le_raise(m: Map<usize, usize>, a: usize, t: usize)
    ensures
        stamp_le(m, stamp_raise(m, a, t)),
        stamp_at(stamp_raise(m, a, t), a) >= t,
{
    assert forall|b: usize| stamp_at(m, b) <= stamp_at(stamp_raise(m, a, t), b) by {}
}

/// Setting a ticket to one that is no lower loses nothing.
pub proof fn lemma_le_insert(m: Map<usize, usize>, a: usize, t: usize)
    requires
        stamp_at(m, a) <= t,
    ensures
        stamp_le(m, m.insert(a, t)),
{
    assert forall|b: usize| stamp_at(m, b) <= stamp_at(m.insert(a, t), b) by {}
}

/// Merging is commutative.
pub proof fn law_join_commutes(m: Map<usize, usize>, o: Map<usize, usize>)
    ensures
        stamp_join(m, o) == stamp_join(o, m),
{
    assert(stamp_join(m, o) =~= stamp_join(o, m));
}

/// Merging is associative.
pub proof fn law_join_associates(
    m: Map<usize, usize>,
    o: Map<usize, usize>,
    p: Map<usize, usize>,
)
    ensures
        stamp_join(stamp_join(m, o), p) == stamp_join(m, stamp_join(o, p)),
{
    assert(stamp_join(stamp_join(m, o), p) =~= stamp_join(m, stamp_join(o, p)));
}

/// Merging a stamp into itself changes nothing.
pub proof fn law_join_idempotent(m: Map<usize, usize>)
    ensures
        stamp_join(m, m) == m,
{
    assert(stamp_join(m, m) =~= m);
}

/// The empty stamp is the identity of merging.
pub proof fn law_join_identity(m: Map<usize, usize>)
    ensures
        stamp_join(m, Map::empty()) == m,
        stamp_join(Map::empty(), m) == m,
{
    assert(stamp_join(m, Map::empty()) =~= m);
    assert(stamp_join(Map::empty(), m) =~= m);
}

} // verus!
