//! A deduplicating min-priority queue.
//!
//! The queue hands out queued items in non-decreasing priority order and
//! guarantees at most one live entry per item: pushing an item that is
//! already queued is a silent no-op, and the priority recorded at the first
//! push is kept (no decrease-key).  The abstract state is a finite map from
//! each queued item to its priority.

use vstd::prelude::*;

verus! {

/// The abstract contents of a queue built from its backing vector: every
/// entry's item mapped to that entry's priority.
pub open spec fn seq_to_map(s: Seq<(u64, u64)>) -> Map<u64, u64>
    decreases s.len(),
{
    if s.len() == 0 {
        Map::empty()
    } else {
        seq_to_map(s.drop_last()).insert(s.last().0, s.last().1)
    }
}

/// What `push` does to the abstract contents: insert the item unless it is
/// already queued, in which case nothing changes.
pub open spec fn spec_push(m: Map<u64, u64>, item: u64, priority: u64) -> Map<u64, u64> {
    if m.contains_key(item) {
        m
    } else {
        m.insert(item, priority)
    }
}

/// An item with minimal priority among the queued ones.
pub open spec fn is_min_of(m: Map<u64, u64>, item: u64) -> bool {
    &&& m.contains_key(item)
    &&& forall|other: u64| m.contains_key(other) ==> m[item] <= m[other]
}

proof fn lemma_seq_to_map_contains(s: Seq<(u64, u64)>, x: u64)
    ensures
        seq_to_map(s).contains_key(x) <==> exists|i: int| 0 <= i < s.len() && s[i].0 == x,
    decreases s.len(),
{
    if s.len() > 0 {
        lemma_seq_to_map_contains(s.drop_last(), x);
        if s.last().0 == x {
            assert(s[s.len() - 1].0 == x);
        } else if seq_to_map(s).contains_key(x) {
            let i = choose|i: int| 0 <= i < s.drop_last().len() && s.drop_last()[i].0 == x;
            assert(s[i].0 == x);
        } else if exists|i: int| 0 <= i < s.len() && s[i].0 == x {
            let i = choose|i: int| 0 <= i < s.len() && s[i].0 == x;
            assert(s.drop_last()[i].0 == x);
        }
    }
}

/// Uniqueness of items across the backing vector.
pub open spec fn uniq_items(s: Seq<(u64, u64)>) -> bool {
    forall|i: int, j: int| 0 <= i < j < s.len() ==> s[i].0 != s[j].0
}

proof fn lemma_seq_to_map_values(s: Seq<(u64, u64)>)
    requires
        uniq_items(s),
    ensures
        forall|i: int| 0 <= i < s.len() ==> seq_to_map(s).contains_key(s[i].0),
        forall|i: int| 0 <= i < s.len() ==> seq_to_map(s)[s[i].0] == s[i].1,
    decreases s.len(),
{
    if s.len() > 0 {
        assert(uniq_items(s.drop_last())) by {
            assert(forall|i: int, j: int|
                0 <= i < j < s.drop_last().len() ==> s[i] == s.drop_last()[i] && s[j]
                    == s.drop_last()[j]);
        }
        lemma_seq_to_map_values(s.drop_last());
        assert forall|i: int| 0 <= i < s.len() implies seq_to_map(s).contains_key(s[i].0)
            && seq_to_map(s)[s[i].0] == s[i].1 by {
            if i < s.len() - 1 {
                assert(s.drop_last()[i] == s[i]);
                assert(s[i].0 != s.last().0);
            }
        }
    }
}

proof fn lemma_seq_to_map_finite(s: Seq<(u64, u64)>)
    ensures
        seq_to_map(s).dom().finite(),
        seq_to_map(s).dom().len() <= s.len(),
    decreases s.len(),
{
    if s.len() > 0 {
        lemma_seq_to_map_finite(s.drop_last());
        vstd::set_lib::lemma_len_union::<u64>(
            seq_to_map(s.drop_last()).dom(),
            set![s.last().0],
        );
        assert(seq_to_map(s).dom() =~= seq_to_map(s.drop_last()).dom() + set![s.last().0]);
    }
}

proof fn lemma_seq_to_map_card(s: Seq<(u64, u64)>)
    requires
        uniq_items(s),
    ensures
        seq_to_map(s).dom().finite(),
        seq_to_map(s).dom().len() == s.len(),
    decreases s.len(),
{
    lemma_seq_to_map_finite(s);
    if s.len() > 0 {
        assert(uniq_items(s.drop_last())) by {
            assert(forall|i: int, j: int|
                0 <= i < j < s.drop_last().len() ==> s[i] == s.drop_last()[i] && s[j]
                    == s.drop_last()[j]);
        }
        lemma_seq_to_map_card(s.drop_last());
        lemma_seq_to_map_contains(s.drop_last(), s.last().0);
        assert(forall|i: int| 0 <= i < s.drop_last().len() ==> s.drop_last()[i] == s[i]);
        assert(!seq_to_map(s.drop_last()).contains_key(s.last().0));
    }
}

proof fn lemma_seq_to_map_remove(s: Seq<(u64, u64)>, i: int)
    requires
        uniq_items(s),
        0 <= i < s.len(),
    ensures
        seq_to_map(s.remove(i)) =~= seq_to_map(s).remove(s[i].0),
    decreases s.len(),
{
    lemma_seq_to_map_contains(s.drop_last(), s.last().0);
    assert(forall|k: int| 0 <= k < s.len() - 1 ==> s.drop_last()[k] == s[k]);
    if i == s.len() - 1 {
        assert(s.remove(i) =~= s.drop_last());
        assert(!seq_to_map(s.drop_last()).contains_key(s.last().0));
        assert(seq_to_map(s.drop_last()).insert(s.last().0, s.last().1).remove(s.last().0)
            =~= seq_to_map(s.drop_last()));
    } else {
        assert(uniq_items(s.drop_last()));
        lemma_seq_to_map_remove(s.drop_last(), i);
        assert(s.remove(i).drop_last() =~= s.drop_last().remove(i));
        assert(s.remove(i).last() == s.last());
        assert(s[i].0 != s.last().0);
        assert(seq_to_map(s.remove(i)) == seq_to_map(s.drop_last().remove(i)).insert(
            s.last().0,
            s.last().1,
        ));
    }
}

/// A min-priority queue over `u64` items with at most one live entry per
/// item.  `push` is insert-if-absent: it never updates the priority of an
/// item that is already queued.
pub struct PriorityQueue {
    entries: Vec<(u64, u64)>,
}

impl View for PriorityQueue {
    type V = Map<u64, u64>;

    closed spec fn view(&self) -> Map<u64, u64> {
        seq_to_map(self.entries@)
    }
}

impl PriorityQueue {
    /// Well-formed: the backing vector holds at most one entry per item.
    /// Established by `new` and preserved by every operation.
    pub closed spec fn wf(&self) -> bool {
        uniq_items(self.entries@)
    }

    /// An empty queue.
    pub fn new() -> (q: Self)
        ensures
            q@ == Map::<u64, u64>::empty(),
            q.wf(),
    {
        Self { entries: Vec::new() }
    }

    /// Whether `item` is currently queued: pushed, and not yet popped.
    pub fn contains(&self, item: u64) -> (r: bool)
        ensures
            r == self@.contains_key(item),
    {
        proof {
            lemma_seq_to_map_contains(self.entries@, item);
        }
        let n = self.entries.len();
        let mut k: usize = 0;
        while k < n
            invariant
                k <= n,
                n == self.entries@.len(),
                forall|j: int| 0 <= j < k ==> self.entries@[j].0 != item,
            decreases n - k,
        {
            if self.entries[k].0 == item {
                proof {
                    assert(self.entries@[k as int].0 == item);
                    lemma_seq_to_map_contains(self.entries@, item);
                }
                return true;
            }
            k = k + 1;
        }
        false
    }

    /// Queue `item` under `priority`, unless it is already queued, in which
    /// case nothing changes (the old priority is kept).
    pub fn push(&mut self, item: u64, priority: u64)
        requires
            old(self).wf(),
        ensures
            final(self).wf(),
            final(self)@ == spec_push(old(self)@, item, priority),
            final(self)@.dom().finite(),
    {
        proof {
            lemma_seq_to_map_contains(self.entries@, item);
            lemma_seq_to_map_finite(self.entries@);
        }
        if !self.contains(item) {
            self.entries.push((item, priority));
            proof {
                assert(self.entries@.drop_last() =~= old(self).entries@);
                lemma_seq_to_map_finite(self.entries@);
            }
        }
    }

    /// Remove and return a queued item of minimal priority; `None` exactly
    /// when the queue is empty.  Ties are broken arbitrarily.
    pub fn pop(&mut self) -> (r: Option<u64>)
        requires
            old(self).wf(),
        ensures
            final(self).wf(),
            match r {
                None => old(self)@ == Map::<u64, u64>::empty() && final(self)@ == old(self)@,
                Some(item) => {
                    &&& is_min_of(old(self)@, item)
                    &&& final(self)@ == old(self)@.remove(item)
                },
            },
            final(self)@.dom().finite(),
    {
        proof {
            lemma_seq_to_map_values(self.entries@);
            lemma_seq_to_map_finite(self.entries@);
        }
        let n = self.entries.len();
        if n == 0 {
            proof {
                assert(self@ =~= Map::<u64, u64>::empty());
            }
            return None;
        }
        let mut best: usize = 0;
        let mut k: usize = 1;
        while k < n
            invariant
                best < k <= n,
                n == self.entries@.len(),
                forall|j: int| 0 <= j < k ==> self.entries@[best as int].1 <= self.entries@[j].1,
            decreases n - k,
        {
            if self.entries[k].1 < self.entries[best].1 {
                best = k;
            }
            k = k + 1;
        }
        let (item, _priority) = self.entries.remove(best);
        proof {
            lemma_seq_to_map_remove(old(self).entries@, best as int);
            lemma_seq_to_map_contains(old(self).entries@, item);
            lemma_seq_to_map_finite(self.entries@);
            assert forall|other: u64| old(self)@.contains_key(other) implies old(self)@[item]
                <= old(self)@[other] by {
                lemma_seq_to_map_contains(old(self).entries@, other);
                let j = choose|j: int|
                    0 <= j < old(self).entries@.len() && old(self).entries@[j].0 == other;
                assert(old(self)@[other] == old(self).entries@[j].1);
            }
        }
        Some(item)
    }
}

/// Law: an item is queued from its first push on, under the priority of that
/// first push; any later push of the same item, under any priority, is a
/// no-op; and a push of some other item never removes it.
pub proof fn lemma_push_dedup(m: Map<u64, u64>, item: u64, p1: u64, p2: u64)
    ensures
        spec_push(m, item, p1).contains_key(item),
        spec_push(m, item, p1)[item] == if m.contains_key(item) {
            m[item]
        } else {
            p1
        },
        spec_push(spec_push(m, item, p1), item, p2) == spec_push(m, item, p1),
        forall|other: u64, q: u64|
            m.contains_key(item) ==> #[trigger] spec_push(m, other, q).contains_key(item),
{
}

/// Law: pushing the same `(item, priority)` pair twice in a row changes
/// nothing beyond the first push, and once the item is popped it is gone: a
/// second pop cannot return it again.
pub proof fn lemma_push_idempotent(m: Map<u64, u64>, item: u64, priority: u64)
    ensures
        spec_push(spec_push(m, item, priority), item, priority) == spec_push(m, item, priority),
        !spec_push(m, item, priority).remove(item).contains_key(item),
{
}

/// Law: pops come in non-decreasing priority order: whatever minimal item a
/// pop picks, a minimal item of the remaining queue has a priority at least
/// as large.
pub proof fn lemma_pop_order(m: Map<u64, u64>, first: u64, second: u64)
    requires
        is_min_of(m, first),
        is_min_of(m.remove(first), second),
    ensures
        m[first] <= m.remove(first)[second],
{
}

/// Law: pushing a fresh item grows the number of queued items by one, and a
/// repeated item leaves it unchanged.
pub proof fn lemma_push_card(m: Map<u64, u64>, item: u64, priority: u64)
    requires
        m.dom().finite(),
    ensures
        spec_push(m, item, priority).dom().finite(),
        spec_push(m, item, priority).dom().len() == m.dom().len() + if m.contains_key(item) {
            0int
        } else {
            1int
        },
{
    if !m.contains_key(item) {
        assert(spec_push(m, item, priority).dom() =~= m.dom() + set![item]);
        vstd::set_lib::lemma_len_union::<u64>(m.dom(), set![item]);
    }
}

/// The contents left after popping the items of `pops`, in order.
pub open spec fn after_pops(m: Map<u64, u64>, pops: Seq<u64>) -> Map<u64, u64>
    decreases pops.len(),
{
    if pops.len() == 0 {
        m
    } else {
        after_pops(m.remove(pops.first()), pops.drop_first())
    }
}

/// `pops` is a run of pops: each popped item is a minimal item of what the
/// queue holds just before it, as `pop`'s contract demands.
pub open spec fn valid_pops(m: Map<u64, u64>, pops: Seq<u64>) -> bool
    decreases pops.len(),
{
    if pops.len() == 0 {
        true
    } else {
        is_min_of(m, pops.first()) && valid_pops(m.remove(pops.first()), pops.drop_first())
    }
}

/// Law: popping as many times as the queue holds distinct items drains it:
/// afterwards nothing is contained, and one more pop returns `None` by
/// `pop`'s contract.
pub proof fn lemma_pop_until_empty(m: Map<u64, u64>, pops: Seq<u64>)
    requires
        m.dom().finite(),
        valid_pops(m, pops),
        pops.len() == m.dom().len(),
    ensures
        after_pops(m, pops) == Map::<u64, u64>::empty(),
        forall|x: u64| !after_pops(m, pops).contains_key(x),
    decreases pops.len(),
{
    if pops.len() == 0 {
        m.dom().lemma_len0_is_empty();
        assert(m =~= Map::<u64, u64>::empty());
    } else {
        lemma_pop_card(m, pops.first());
        lemma_pop_until_empty(m.remove(pops.first()), pops.drop_first());
    }
}

/// Law: each pop removes exactly one queued item, so after as many pops as
/// there are distinct queued items the queue is empty and `contains` is
/// false for every item.
pub proof fn lemma_pop_card(m: Map<u64, u64>, item: u64)
    requires
        m.dom().finite(),
        m.contains_key(item),
    ensures
        m.remove(item).dom().len() == m.dom().len() - 1,
        m.dom().len() == 0 ==> forall|x: u64| !m.contains_key(x),
{
    assert(m.remove(item).dom() =~= m.dom().remove(item));
}

} // verus!
