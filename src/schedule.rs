use vstd::prelude::*;
use crate::types::ScheduledGame;
use crate::text::str_eq;
use std::collections::VecDeque;
use vstd::std_specs::vecdeque::VecDequeAdditionalSpecFns;

verus! {

broadcast use vstd::std_specs::vecdeque::group_vec_dequeue_axioms;

/// A game waiting in the queue: its pairing (an index into the queue's
/// pairings), the 0-based ordinal of the game within that pairing, and the
/// engines that play white and black.
#[derive(Clone, Copy, Debug, PartialEq, Eq, Structural)]
pub struct ScheduleItem {
    pub id: usize,
    pub pairing: usize,
    pub idx_a: usize,
    pub idx_b: usize,
    pub game_idx: usize,
    pub white_idx: usize,
    pub black_idx: usize,
}

/// A pairing of two engines, the next ordinal to hand out for it, and how
/// many of its games have left the queue for play.
#[derive(Clone, Copy, Debug, PartialEq, Eq, Structural)]
pub struct PairingState {
    pub idx_a: usize,
    pub idx_b: usize,
    pub next_game_idx: usize,
    pub dispatched: u32,
}

/// Colors of game `ordinal` of the pairing (a, b): with swap-sides on, odd
/// ordinals play reversed.
pub open spec fn colors_spec(swap_sides: bool, a: usize, b: usize, ordinal: usize) -> (usize, usize) {
    if swap_sides && ordinal % 2 != 0 {
        (b, a)
    } else {
        (a, b)
    }
}

pub fn colors(swap_sides: bool, a: usize, b: usize, ordinal: usize) -> (r: (usize, usize))
    ensures
        r == colors_spec(swap_sides, a, b, ordinal),
{
    if swap_sides && ordinal % 2 != 0 {
        (b, a)
    } else {
        (a, b)
    }
}

/// Number of items of pairing `p` in `q`.
pub open spec fn count_in(q: Seq<ScheduleItem>, p: int) -> nat
    decreases q.len(),
{
    if q.len() == 0 {
        0
    } else {
        count_in(q.drop_last(), p) + if q.last().pairing == p { 1nat } else { 0nat }
    }
}

/// How many games of a pairing should wait in the queue so that waiting
/// plus dispatched games make `k`.
pub open spec fn target_pending(k: u32, dispatched: u32) -> nat {
    if k >= dispatched {
        (k - dispatched) as nat
    } else {
        0
    }
}

/// The items of `q` that a shrink keeps when `excess[p]` items of each pairing
/// `p` must go: an item stays exactly when at least `excess` items of its
/// pairing come after it, so the most recently enqueued ones leave.
pub open spec fn kept_spec(q: Seq<ScheduleItem>, excess: Seq<nat>) -> Seq<ScheduleItem>
    decreases q.len(),
{
    if q.len() == 0 {
        q
    } else {
        let rest = kept_spec(q.drop_first(), excess);
        if count_in(q.drop_first(), q[0].pairing as int) >= excess[q[0].pairing as int] {
            seq![q[0]] + rest
        } else {
            rest
        }
    }
}

/// The items of `q` that a shrink removes (the complement of `kept_spec`).
pub open spec fn removed_spec(q: Seq<ScheduleItem>, excess: Seq<nat>) -> Seq<ScheduleItem>
    decreases q.len(),
{
    if q.len() == 0 {
        q
    } else {
        let rest = removed_spec(q.drop_first(), excess);
        if count_in(q.drop_first(), q[0].pairing as int) >= excess[q[0].pairing as int] {
            rest
        } else {
            seq![q[0]] + rest
        }
    }
}

proof fn lemma_count_front(q: Seq<ScheduleItem>, p: int)
    requires
        q.len() > 0,
    ensures
        count_in(q, p) == count_in(q.drop_first(), p) + if q[0].pairing == p { 1nat } else { 0nat },
    decreases q.len(),
{
    if q.len() > 1 {
        lemma_count_front(q.drop_last(), p);
        assert(q.drop_last().drop_first() =~= q.drop_first().drop_last());
    } else {
        assert(q.drop_first() =~= Seq::<ScheduleItem>::empty());
        assert(q.drop_last() =~= Seq::<ScheduleItem>::empty());
    }
}

proof fn lemma_count_concat(a: Seq<ScheduleItem>, b: Seq<ScheduleItem>, p: int)
    ensures
        count_in(a + b, p) == count_in(a, p) + count_in(b, p),
    decreases b.len(),
{
    if b.len() == 0 {
        assert(a + b =~= a);
    } else {
        lemma_count_concat(a, b.drop_last(), p);
        assert((a + b).drop_last() =~= a + b.drop_last());
    }
}

proof fn lemma_kept_count(q: Seq<ScheduleItem>, excess: Seq<nat>, p: int)
    requires
        forall|i: int| 0 <= i < q.len() ==> 0 <= #[trigger] q[i].pairing < excess.len(),
        0 <= p < excess.len(),
    ensures
        count_in(kept_spec(q, excess), p) == if count_in(q, p) >= excess[p] { (count_in(q, p) - excess[p]) as nat } else { 0nat },
        kept_spec(q, excess).len() + removed_spec(q, excess).len() == q.len(),
    decreases q.len(),
{
    if q.len() > 0 {
        let r = q.drop_first();
        assert forall|i: int| 0 <= i < r.len() implies 0 <= #[trigger] r[i].pairing < excess.len() by {
            assert(r[i] == q[i + 1]);
        }
        lemma_kept_count(r, excess, p);
        lemma_count_front(q, p);
        let x = q[0];
        lemma_count_concat(seq![x], kept_spec(r, excess), p);
        assert(seq![x].drop_last() =~= Seq::<ScheduleItem>::empty());
        assert(count_in(Seq::<ScheduleItem>::empty(), p) == 0);
        assert(count_in(seq![x], p) == if x.pairing == p { 1nat } else { 0nat });
        if count_in(r, x.pairing as int) >= excess[x.pairing as int] {
            assert(kept_spec(q, excess) == seq![x] + kept_spec(r, excess));
        } else {
            assert(kept_spec(q, excess) == kept_spec(r, excess));
        }
    }
}

proof fn lemma_kept_sub(q: Seq<ScheduleItem>, excess: Seq<nat>)
    requires
        forall|a: int, b: int| 0 <= a < b < q.len() ==> q[a].id < q[b].id,
    ensures
        forall|i: int| 0 <= i < kept_spec(q, excess).len() ==> q.contains(#[trigger] kept_spec(q, excess)[i]),
        forall|i: int| 0 <= i < removed_spec(q, excess).len() ==> q.contains(#[trigger] removed_spec(q, excess)[i]),
        forall|a: int, b: int| 0 <= a < b < kept_spec(q, excess).len() ==> kept_spec(q, excess)[a].id < kept_spec(q, excess)[b].id,
    decreases q.len(),
{
    if q.len() > 0 {
        let r = q.drop_first();
        let x = q[0];
        assert forall|a: int, b: int| 0 <= a < b < r.len() implies r[a].id < r[b].id by {
            assert(r[a] == q[a + 1] && r[b] == q[b + 1]);
        }
        lemma_kept_sub(r, excess);
        assert forall|i: int| 0 <= i < kept_spec(q, excess).len() implies q.contains(#[trigger] kept_spec(q, excess)[i]) by {
            if count_in(r, x.pairing as int) >= excess[x.pairing as int] {
                if i == 0 {
                    assert(q[0] == kept_spec(q, excess)[i]);
                } else {
                    let y = kept_spec(r, excess)[i - 1];
                    assert(r.contains(y));
                    let t = choose|t: int| 0 <= t < r.len() && r[t] == y;
                    assert(q[t + 1] == y);
                }
            } else {
                let y = kept_spec(r, excess)[i];
                assert(r.contains(y));
                let t = choose|t: int| 0 <= t < r.len() && r[t] == y;
                assert(q[t + 1] == y);
            }
        }
        assert forall|i: int| 0 <= i < removed_spec(q, excess).len() implies q.contains(#[trigger] removed_spec(q, excess)[i]) by {
            if count_in(r, x.pairing as int) < excess[x.pairing as int] {
                if i == 0 {
                    assert(q[0] == removed_spec(q, excess)[i]);
                } else {
                    let y = removed_spec(r, excess)[i - 1];
                    assert(r.contains(y));
                    let t = choose|t: int| 0 <= t < r.len() && r[t] == y;
                    assert(q[t + 1] == y);
                }
            } else {
                let y = removed_spec(r, excess)[i];
                assert(r.contains(y));
                let t = choose|t: int| 0 <= t < r.len() && r[t] == y;
                assert(q[t + 1] == y);
            }
        }
        let k = kept_spec(q, excess);
        if count_in(r, x.pairing as int) >= excess[x.pairing as int] {
            assert forall|a: int, b: int| 0 <= a < b < k.len() implies k[a].id < k[b].id by {
                if a == 0 {
                    let y = kept_spec(r, excess)[b - 1];
                    assert(r.contains(y));
                    let t = choose|t: int| 0 <= t < r.len() && r[t] == y;
                    assert(q[t + 1] == y);
                } else {
                    assert(k[a] == kept_spec(r, excess)[a - 1]);
                }
            }
        }
    }
}

proof fn lemma_kept_all(q: Seq<ScheduleItem>, excess: Seq<nat>)
    requires
        forall|i: int| 0 <= i < q.len() ==> excess[#[trigger] q[i].pairing as int] == 0,
    ensures
        kept_spec(q, excess) == q,
        removed_spec(q, excess).len() == 0,
    decreases q.len(),
{
    if q.len() > 0 {
        let r = q.drop_first();
        assert forall|i: int| 0 <= i < r.len() implies excess[#[trigger] r[i].pairing as int] == 0 by {
            assert(r[i] == q[i + 1]);
        }
        lemma_kept_all(r, excess);
        assert(excess[q[0].pairing as int] == 0);
        assert(seq![q[0]] + r =~= q);
    }
}

/// The queue of games waiting to be played, with the state of each pairing.
/// `remaining_rounds` is the number of games each pairing should have,
/// counting those waiting and those already dispatched.
pub struct ScheduleQueue {
    pub items: VecDeque<ScheduleItem>,
    pub pairings: Vec<PairingState>,
    pub remaining_rounds: u32,
    pub next_game_id: usize,
    pub names: Vec<String>,
    pub swap_sides: bool,
}

/// `g` is the schedule entry of `it` in state `state`, without a result.
pub open spec fn describes(names: Seq<String>, g: ScheduledGame, it: ScheduleItem, state: Seq<char>) -> bool {
    &&& g.id == it.id
    &&& g.white_name@ == names[it.white_idx as int]@
    &&& g.black_name@ == names[it.black_idx as int]@
    &&& g.state@ == state
    &&& g.result.is_none()
}

/// How many waiting items of each pairing must go when the rounds change
/// from `old_k` to `k`.
pub open spec fn excess_spec(pairings: Seq<PairingState>, old_k: u32, k: u32) -> Seq<nat> {
    Seq::new(pairings.len(), |j: int| {
        let cur = target_pending(old_k, pairings[j].dispatched);
        let tgt = target_pending(k, pairings[j].dispatched);
        if cur > tgt { (cur - tgt) as nat } else { 0nat }
    })
}

/// `ps` is `prev` with possibly more ordinals handed out.
pub open spec fn grows_from(ps: PairingState, prev: PairingState) -> bool {
    &&& ps.idx_a == prev.idx_a
    &&& ps.idx_b == prev.idx_b
    &&& ps.dispatched == prev.dispatched
    &&& ps.next_game_idx >= prev.next_game_idx
}

fn target(k: u32, dispatched: u32) -> (r: u32)
    ensures
        r == target_pending(k, dispatched),
{
    if k >= dispatched {
        k - dispatched
    } else {
        0
    }
}

impl ScheduleQueue {
    pub open spec fn item_ok(&self, it: ScheduleItem) -> bool {
        &&& it.pairing < self.pairings.len()
        &&& it.idx_a == self.pairings[it.pairing as int].idx_a
        &&& it.idx_b == self.pairings[it.pairing as int].idx_b
        &&& 1 <= it.id <= self.next_game_id
        &&& it.game_idx < self.pairings[it.pairing as int].next_game_idx
        &&& (it.white_idx, it.black_idx) == colors_spec(self.swap_sides, it.idx_a, it.idx_b, it.game_idx)
    }

    pub open spec fn pairing_ok(&self, ps: PairingState) -> bool {
        &&& ps.idx_a < self.names.len()
        &&& ps.idx_b < self.names.len()
        &&& ps.next_game_idx <= self.next_game_id
    }

    /// Number of waiting games of pairing `p`.
    pub open spec fn pending(&self, p: int) -> nat {
        count_in(self.items@, p)
    }

    pub open spec fn wf(&self) -> bool {
        &&& forall|j: int| 0 <= j < self.pairings.len() ==> self.pairing_ok(#[trigger] self.pairings[j])
        &&& forall|i: int| 0 <= i < self.items.len() ==> self.item_ok(#[trigger] self.items[i])
        &&& forall|i: int, j: int| 0 <= i < j < self.items.len() ==> self.items[i].id < self.items[j].id
        &&& forall|j: int| 0 <= j < self.pairings.len() ==>
            #[trigger] count_in(self.items@, j) == target_pending(self.remaining_rounds, self.pairings[j].dispatched)
    }

    fn event(&self, it: &ScheduleItem, state: &str) -> (g: ScheduledGame)
        requires
            it.white_idx < self.names.len(),
            it.black_idx < self.names.len(),
        ensures
            describes(self.names@, g, *it, state@),
    {
        ScheduledGame {
            id: it.id,
            white_name: self.names[it.white_idx].clone(),
            black_name: self.names[it.black_idx].clone(),
            state: String::from_str(state),
            result: None,
        }
    }

    /// Sets the number of games each pairing should have, waiting plus
    /// dispatched, to `k`. Shrinking removes the most recently enqueued
    /// waiting games of a pairing; growing appends fresh games that continue
    /// the pairing's ordinals, pairing by pairing. Returns the schedule
    /// entries of the removed games and of the added ones.
    pub fn update_remaining_rounds(&mut self, k: u32) -> (r: (Vec<ScheduledGame>, Vec<ScheduledGame>))
        requires
            old(self).wf(),
            old(self).next_game_id + old(self).pairings.len() * k <= usize::MAX,
        ensures
            final(self).wf(),
            final(self).remaining_rounds == k,
            final(self).names == old(self).names,
            final(self).swap_sides == old(self).swap_sides,
            final(self).pairings.len() == old(self).pairings.len(),
            forall|j: int| 0 <= j < old(self).pairings.len() ==> grows_from(#[trigger] final(self).pairings[j], old(self).pairings[j]),
            forall|j: int| 0 <= j < old(self).pairings.len() ==>
                #[trigger] final(self).pending(j) + final(self).pairings[j].dispatched == if k >= old(self).pairings[j].dispatched { k as int } else { final(self).pairings[j].dispatched as int },
            ({
                let ex = excess_spec(old(self).pairings@, old(self).remaining_rounds, k);
                let kept = kept_spec(old(self).items@, ex);
                let removed = removed_spec(old(self).items@, ex);
                &&& final(self).items@.len() >= kept.len()
                &&& final(self).items@.subrange(0, kept.len() as int) == kept
                &&& final(self).next_game_id == old(self).next_game_id + (final(self).items@.len() - kept.len())
                &&& forall|m: int| kept.len() <= m < final(self).items@.len() ==>
                    (#[trigger] final(self).items[m]).id == old(self).next_game_id + 1 + (m - kept.len())
                &&& forall|m: int| kept.len() <= m < final(self).items@.len() ==>
                    (#[trigger] final(self).items[m]).game_idx == old(self).pairings[final(self).items[m].pairing as int].next_game_idx
                        + count_in(final(self).items@.subrange(kept.len() as int, m), final(self).items[m].pairing as int)
                &&& forall|j: int| 0 <= j < old(self).pairings.len() ==>
                    (#[trigger] final(self).pairings[j]).next_game_idx == old(self).pairings[j].next_game_idx
                        + count_in(final(self).items@.subrange(kept.len() as int, final(self).items@.len() as int), j)
                &&& r.0@.len() == removed.len()
                &&& forall|m: int| 0 <= m < removed.len() ==> describes(old(self).names@, #[trigger] r.0[m], removed[m], "Removed"@)
                &&& r.1@.len() == final(self).items@.len() - kept.len()
                &&& forall|m: int| 0 <= m < r.1@.len() ==> describes(old(self).names@, #[trigger] r.1[m], final(self).items[kept.len() + m], "Pending"@)
            }),
            old(self).remaining_rounds == k ==> {
                &&& final(self).items@ == old(self).items@
                &&& final(self).pairings@ == old(self).pairings@
                &&& final(self).next_game_id == old(self).next_game_id
                &&& r.0@.len() == 0
                &&& r.1@.len() == 0
            },
    {
        let ghost old_self = *self;
        let old_k = self.remaining_rounds;
        let np = self.pairings.len();
        let ghost ex = excess_spec(self.pairings@, old_k, k);
        let mut excess: Vec<u32> = Vec::new();
        let mut j: usize = 0;
        while j < np
            invariant
                j <= np,
                np == self.pairings.len(),
                excess@.len() == j,
                forall|t: int| 0 <= t < j ==> excess[t] as nat == #[trigger] ex[t],
                ex == excess_spec(self.pairings@, old_k, k),
            decreases np - j,
        {
            let cur = target(old_k, self.pairings[j].dispatched);
            let tgt = target(k, self.pairings[j].dispatched);
            excess.push(if cur > tgt { cur - tgt } else { 0 });
            j += 1;
        }

        let n = self.items.len();
        let ghost q = self.items@;
        let mut kept: VecDeque<ScheduleItem> = VecDeque::new();
        let mut removed: Vec<ScheduledGame> = Vec::new();
        let ghost mut rem_items: Seq<ScheduleItem> = Seq::empty();
        let mut i: usize = 0;
        assert(q.skip(0) =~= q);
        while i < n
            invariant
                *self == old_self,
                q == self.items@,
                n == q.len(),
                i <= n,
                excess@.len() == np,
                np == self.pairings.len(),
                forall|t: int| 0 <= t < np ==> excess[t] as nat == #[trigger] ex[t],
                ex.len() == np,
                self.wf(),
                kept@ + kept_spec(q.skip(i as int), ex) == kept_spec(q, ex),
                rem_items + removed_spec(q.skip(i as int), ex) == removed_spec(q, ex),
                removed@.len() == rem_items.len(),
                forall|m: int| 0 <= m < rem_items.len() ==> describes(self.names@, #[trigger] removed[m], rem_items[m], "Removed"@),
            decreases n - i,
        {
            let it = self.items[i];
            assert(self.item_ok(q[i as int]));
            let mut c: usize = 0;
            let mut t: usize = i + 1;
            while t < n
                invariant
                    i < n,
                    i + 1 <= t <= n,
                    n == q.len(),
                    q == self.items@,
                    it == q[i as int],
                    c <= t,
                    c as nat == count_in(q.subrange(i + 1, t as int), it.pairing as int),
                decreases n - t,
            {
                assert(q.subrange(i + 1, t + 1).drop_last() =~= q.subrange(i + 1, t as int));
                if self.items[t].pairing == it.pairing {
                    c += 1;
                }
                t += 1;
            }
            let ghost s = q.skip(i as int);
            assert(s.drop_first() =~= q.skip(i + 1));
            assert(q.subrange(i + 1, n as int) =~= q.skip(i + 1));
            assert(s[0] == it);
            if c as u64 >= excess[it.pairing] as u64 {
                assert(kept_spec(s, ex) == seq![it] + kept_spec(q.skip(i + 1), ex));
                assert(removed_spec(s, ex) == removed_spec(q.skip(i + 1), ex));
                kept.push_back(it);
                assert(kept@ + kept_spec(q.skip(i + 1), ex) =~= kept_spec(q, ex));
            } else {
                assert(kept_spec(s, ex) == kept_spec(q.skip(i + 1), ex));
                assert(removed_spec(s, ex) == seq![it] + removed_spec(q.skip(i + 1), ex));
                let g = self.event(&it, "Removed");
                removed.push(g);
                proof {
                    rem_items = rem_items.push(it);
                }
                assert(rem_items + removed_spec(q.skip(i + 1), ex) =~= removed_spec(q, ex));
            }
            i += 1;
        }
        assert(q.skip(n as int) =~= Seq::<ScheduleItem>::empty());
        assert(kept@ =~= kept_spec(q, ex));
        assert(rem_items =~= removed_spec(q, ex));
        proof {
            assert forall|x: int| 0 <= x < q.len() implies 0 <= #[trigger] q[x].pairing < ex.len() by {
                assert(self.item_ok(q[x]));
            }
            assert forall|p: int| 0 <= p < np implies #[trigger] count_in(kept@, p) == if target_pending(old_k, self.pairings[p].dispatched) < target_pending(k, self.pairings[p].dispatched) { target_pending(old_k, self.pairings[p].dispatched) } else { target_pending(k, self.pairings[p].dispatched) } by {
                lemma_kept_count(q, ex, p);
                assert(count_in(q, p) == target_pending(old_k, self.pairings[p].dispatched));
            }
        }
        let ghost kept_len = kept@.len();
        let ghost kept_seq = kept@;
        proof {
            lemma_kept_sub(q, ex);
        }
        self.items = kept;
        self.remaining_rounds = k;
        let mut added: Vec<ScheduledGame> = Vec::new();
        let mut j: usize = 0;
        while j < np
            invariant
                j <= np,
                np == self.pairings.len(),
                np == old_self.pairings.len(),
                self.names == old_self.names,
                self.swap_sides == old_self.swap_sides,
                self.remaining_rounds == k,
                old_self.wf(),
                old_self.remaining_rounds == old_k,
                old_self.next_game_id + np * k <= usize::MAX,
                self.next_game_id <= old_self.next_game_id + j * k,
                self.items@.len() >= kept_len,
                self.items@.subrange(0, kept_len as int) == kept_seq,
                forall|x: int| 0 <= x < kept_len ==> q.contains(#[trigger] kept_seq[x]),
                self.next_game_id == old_self.next_game_id + (self.items@.len() - kept_len),
                forall|m: int| kept_len <= m < self.items@.len() ==> (#[trigger] self.items[m]).id == old_self.next_game_id + 1 + (m - kept_len),
                forall|m: int| kept_len <= m < self.items@.len() ==> (#[trigger] self.items[m]).game_idx == old_self.pairings[self.items[m].pairing as int].next_game_idx
                    + count_in(self.items@.subrange(kept_len as int, m), self.items[m].pairing as int),
                forall|t: int| 0 <= t < np ==> (#[trigger] self.pairings[t]).next_game_idx == old_self.pairings[t].next_game_idx
                    + count_in(self.items@.subrange(kept_len as int, self.items@.len() as int), t),
                forall|t: int| 0 <= t < np ==> grows_from(#[trigger] self.pairings[t], old_self.pairings[t]) && self.pairings[t].next_game_idx <= self.next_game_id,
                forall|t: int| j <= t < np ==> #[trigger] self.pairings[t] == old_self.pairings[t],
                forall|i: int| 0 <= i < self.items.len() ==> self.item_ok(#[trigger] self.items[i]),
                forall|a: int, b: int| 0 <= a < b < self.items.len() ==> self.items[a].id < self.items[b].id,
                forall|t: int| 0 <= t < j ==> #[trigger] count_in(self.items@, t) == target_pending(k, self.pairings[t].dispatched),
                forall|t: int| j <= t < np ==> #[trigger] count_in(self.items@, t) == if target_pending(old_k, self.pairings[t].dispatched) < target_pending(k, self.pairings[t].dispatched) { target_pending(old_k, self.pairings[t].dispatched) } else { target_pending(k, self.pairings[t].dispatched) },
                added@.len() == self.items@.len() - kept_len,
                forall|m: int| 0 <= m < added@.len() ==> describes(self.names@, #[trigger] added[m], self.items[kept_len + m], "Pending"@),
                old_k == k ==> self.items@.len() == kept_len && self.pairings@ == old_self.pairings@,
            decreases np - j,
        {
            let cur = target(old_k, self.pairings[j].dispatched);
            let tgt = target(k, self.pairings[j].dispatched);
            let need: u32 = if tgt > cur { tgt - cur } else { 0 };
            let ghost base_len = self.items@.len();
            let ghost base_id = self.next_game_id;
            let mut c: u32 = 0;
            assert(self.items@.subrange(0, base_len as int) =~= self.items@);
            let ghost pre_items = self.items@;
            let ghost outer_pairings = self.pairings@;
            assert(old_k == k ==> need == 0);
            while c < need
                invariant
                    c <= need <= k,
                    j < np,
                    np == self.pairings.len(),
                    np == old_self.pairings.len(),
                    self.names == old_self.names,
                    self.swap_sides == old_self.swap_sides,
                    self.remaining_rounds == k,
                    old_self.wf(),
                    self.next_game_id == base_id + c,
                    base_id <= old_self.next_game_id + j * k,
                    old_self.next_game_id + np * k <= usize::MAX,
                    self.items@.len() == base_len + c,
                    self.items@.subrange(0, kept_len as int) == kept_seq,
                    base_len >= kept_len,
                    self.items@.subrange(0, base_len as int) == pre_items,
                    pre_items.len() == base_len,
                    need == 0 ==> self.items@ == pre_items && self.pairings@ == outer_pairings,
                    base_id == old_self.next_game_id + (base_len - kept_len),
                    forall|m: int| kept_len <= m < self.items@.len() ==> (#[trigger] self.items[m]).id == old_self.next_game_id + 1 + (m - kept_len),
                    forall|m: int| kept_len <= m < self.items@.len() ==> (#[trigger] self.items[m]).game_idx == old_self.pairings[self.items[m].pairing as int].next_game_idx
                        + count_in(self.items@.subrange(kept_len as int, m), self.items[m].pairing as int),
                    forall|t: int| 0 <= t < np ==> (#[trigger] self.pairings[t]).next_game_idx == old_self.pairings[t].next_game_idx
                        + count_in(self.items@.subrange(kept_len as int, self.items@.len() as int), t),
                    forall|t: int| 0 <= t < np ==> grows_from(#[trigger] self.pairings[t], old_self.pairings[t]) && self.pairings[t].next_game_idx <= self.next_game_id,
                    forall|t: int| j < t < np ==> #[trigger] self.pairings[t] == old_self.pairings[t],
                    forall|i: int| 0 <= i < self.items.len() ==> self.item_ok(#[trigger] self.items[i]),
                    forall|a: int, b: int| 0 <= a < b < self.items.len() ==> self.items[a].id < self.items[b].id,
                    forall|t: int| 0 <= t < np && t != j ==> #[trigger] count_in(self.items@, t) == count_in(self.items@.subrange(0, base_len as int), t),
                    count_in(self.items@, j as int) == count_in(self.items@.subrange(0, base_len as int), j as int) + c,
                    added@.len() == self.items@.len() - kept_len,
                    forall|m: int| 0 <= m < added@.len() ==> describes(self.names@, #[trigger] added[m], self.items[kept_len + m], "Pending"@),
                decreases need - c,
            {
                proof {
                    assert(j * k + k == (j + 1) * k) by (nonlinear_arith);
                    assert((j + 1) * k <= np * k) by (nonlinear_arith)
                        requires j + 1 <= np;
                }
                assert(grows_from(self.pairings[j as int], old_self.pairings[j as int]));
                let ghost pre_pairings = self.pairings@;
                self.next_game_id = self.next_game_id + 1;
                let id = self.next_game_id;
                let mut ps = self.pairings[j];
                let ordinal = ps.next_game_idx;
                ps.next_game_idx = ordinal + 1;
                self.pairings[j] = ps;
                let (w, b) = colors(self.swap_sides, ps.idx_a, ps.idx_b, ordinal);
                let it = ScheduleItem {
                    id,
                    pairing: j,
                    idx_a: ps.idx_a,
                    idx_b: ps.idx_b,
                    game_idx: ordinal,
                    white_idx: w,
                    black_idx: b,
                };
                let ghost prev = self.items@;
                proof {
                    assert(old_self.pairing_ok(old_self.pairings[j as int]));
                }
                let g = self.event(&it, "Pending");
                self.items.push_back(it);
                added.push(g);
                proof {
                    assert(self.items@.drop_last() == prev);
                    assert(self.items@.subrange(0, base_len as int) =~= prev.subrange(0, base_len as int));
                    assert forall|t: int| 0 <= t < np implies grows_from(#[trigger] self.pairings[t], old_self.pairings[t]) && self.pairings[t].next_game_idx <= self.next_game_id by {
                        if t != j {
                            assert(self.pairings[t] == pre_pairings[t]);
                        }
                    }
                    assert(self.items@.subrange(0, kept_len as int) =~= prev.subrange(0, kept_len as int));
                    assert(self.items@.subrange(kept_len as int, self.items@.len() as int).drop_last() =~= prev.subrange(kept_len as int, prev.len() as int));
                    assert forall|m: int| kept_len <= m < self.items@.len() implies (#[trigger] self.items[m]).game_idx == old_self.pairings[self.items[m].pairing as int].next_game_idx
                        + count_in(self.items@.subrange(kept_len as int, m), self.items[m].pairing as int) by {
                        if m < prev.len() {
                            assert(self.items[m] == prev[m]);
                            assert(self.items@.subrange(kept_len as int, m) =~= prev.subrange(kept_len as int, m));
                        } else {
                            assert(self.items@.subrange(kept_len as int, m) =~= prev.subrange(kept_len as int, prev.len() as int));
                        }
                    }
                    assert forall|t: int| 0 <= t < np implies (#[trigger] self.pairings[t]).next_game_idx == old_self.pairings[t].next_game_idx
                        + count_in(self.items@.subrange(kept_len as int, self.items@.len() as int), t) by {
                        if t != j {
                            assert(self.pairings[t] == pre_pairings[t]);
                        }
                    }
                    assert forall|t: int| 0 <= t < np implies #[trigger] count_in(self.items@, t) == count_in(prev, t) + if t == j { 1nat } else { 0nat } by {}
                    assert forall|i: int| 0 <= i < self.items.len() implies self.item_ok(#[trigger] self.items[i]) by {
                        if i < prev.len() {
                            assert(prev[i] == self.items[i]);
                        }
                    }
                }
                c += 1;
            }
            proof {
                assert(j * k + k == (j + 1) * k) by (nonlinear_arith);
            }
            j += 1;
        }
        proof {
            assert forall|t: int| 0 <= t < np implies self.pairing_ok(#[trigger] self.pairings[t]) by {
                assert(old_self.pairing_ok(old_self.pairings[t]));
            }
            if old_k == k {
                assert(self.items@ =~= self.items@.subrange(0, kept_len as int));
                assert forall|x: int| 0 <= x < q.len() implies ex[#[trigger] q[x].pairing as int] == 0 by {
                    assert(old_self.item_ok(q[x]));
                }
                lemma_kept_all(q, ex);
            }
        }
        (removed, added)
    }
}


/// Whether a schedule state is final: Finished, Aborted, Skipped or Removed.
pub open spec fn is_terminal_spec(state: Seq<char>) -> bool {
    state == "Finished"@ || state == "Aborted"@ || state == "Skipped"@ || state == "Removed"@
}

pub fn is_terminal(state: &str) -> (r: bool)
    ensures
        r == is_terminal_spec(state@),
{
    str_eq(state, "Finished") || str_eq(state, "Aborted") || str_eq(state, "Skipped") || str_eq(state, "Removed")
}

/// Pairing and ordinal of game `game_id` in a schedule built fresh from
/// `num_pairings` pairings of `games_count` games each (ids from 1, pairing
/// after pairing).
pub open spec fn game_mapping_spec(num_pairings: int, games_count: int, game_id: int) -> Option<(int, int)> {
    if games_count <= 0 || game_id <= 0 || (game_id - 1) / games_count >= num_pairings {
        None
    } else {
        Some(((game_id - 1) / games_count, (game_id - 1) % games_count))
    }
}

/// Engines and ordinal of game `game_id` in a schedule built fresh from
/// `pairings` with `games_count` games per pairing.
pub fn compute_game_mapping(pairings: &Vec<(usize, usize)>, games_count: u32, game_id: usize) -> (r: Option<(usize, usize, u32)>)
    ensures
        match game_mapping_spec(pairings@.len() as int, games_count as int, game_id as int) {
            None => r.is_none(),
            Some((p, g)) => r == Some((pairings@[p].0, pairings@[p].1, g as u32)),
        },
{
    let per = games_count as usize;
    if per == 0 || game_id == 0 {
        return None;
    }
    let index = game_id - 1;
    let pairing_index = index / per;
    let game_index = index % per;
    if pairing_index >= pairings.len() {
        return None;
    }
    let (a, b) = pairings[pairing_index];
    Some((a, b, game_index as u32))
}

impl ScheduleQueue {
    /// A queue for `pairs`, filled with `max(games_count, 1)` games per
    /// pairing: ids 1, 2, ... pairing after pairing, ordinals from 0. Returns
    /// the queue and the Pending entries of its games.
    pub fn new(pairs: &Vec<(usize, usize)>, names: Vec<String>, swap_sides: bool, games_count: u32) -> (r: (ScheduleQueue, Vec<ScheduledGame>))
        requires
            forall|j: int| 0 <= j < pairs.len() ==> (#[trigger] pairs[j]).0 < names.len() && pairs[j].1 < names.len(),
            pairs.len() * (if games_count == 0 { 1 } else { games_count as int }) <= usize::MAX,
        ensures
            r.0.wf(),
            r.0.remaining_rounds == if games_count == 0 { 1 } else { games_count },
            r.0.names == names,
            r.0.swap_sides == swap_sides,
            r.0.pairings.len() == pairs.len(),
            forall|j: int| 0 <= j < pairs.len() ==> (#[trigger] r.0.pairings[j]).idx_a == pairs[j].0 && r.0.pairings[j].idx_b == pairs[j].1 && r.0.pairings[j].dispatched == 0,
            forall|j: int| 0 <= j < pairs.len() ==> #[trigger] r.0.pending(j) == r.0.remaining_rounds,
            r.0.next_game_id == r.0.items.len(),
            forall|m: int| 0 <= m < r.0.items.len() ==> (#[trigger] r.0.items[m]).id == m + 1,
            r.0.items.len() == pairs.len() * r.0.remaining_rounds,
            forall|m: int| 0 <= m < r.0.items.len() ==> (#[trigger] r.0.items[m]).pairing == m / (r.0.remaining_rounds as int)
                && r.0.items[m].game_idx == m % (r.0.remaining_rounds as int),
            r.1@.len() == r.0.items.len(),
            forall|m: int| 0 <= m < r.1@.len() ==> describes(names@, #[trigger] r.1[m], r.0.items[m], "Pending"@),
    {
        let k: u32 = if games_count == 0 { 1 } else { games_count };
        let np = pairs.len();
        let mut pairings: Vec<PairingState> = Vec::new();
        let mut j: usize = 0;
        while j < np
            invariant
                j <= np == pairs.len(),
                pairings@.len() == j,
                forall|t: int| 0 <= t < j ==> #[trigger] pairings[t] == (PairingState { idx_a: pairs[t].0, idx_b: pairs[t].1, next_game_idx: 0, dispatched: 0 }),
            decreases np - j,
        {
            pairings.push(PairingState { idx_a: pairs[j].0, idx_b: pairs[j].1, next_game_idx: 0, dispatched: 0 });
            j += 1;
        }
        let ghost names0 = names;
        let mut q = ScheduleQueue { items: VecDeque::new(), pairings, remaining_rounds: k, next_game_id: 0, names, swap_sides };
        let mut events: Vec<ScheduledGame> = Vec::new();
        let mut j: usize = 0;
        while j < np
            invariant
                j <= np == pairs.len() == q.pairings.len(),
                np * k <= usize::MAX,
                k >= 1,
                q.names == names0,
                q.remaining_rounds == k,
                q.swap_sides == swap_sides,
                forall|t: int| 0 <= t < np ==> (#[trigger] pairs[t]).0 < q.names.len() && pairs[t].1 < q.names.len(),
                q.next_game_id == q.items.len() == j * k,
                forall|t: int| 0 <= t < np ==> #[trigger] q.pairings[t] == (PairingState { idx_a: pairs[t].0, idx_b: pairs[t].1, next_game_idx: if t < j { k as usize } else { 0 }, dispatched: 0 }),
                forall|m: int| 0 <= m < q.items.len() ==> (#[trigger] q.items[m]).id == m + 1 && q.items[m].pairing < j,
                forall|m: int| 0 <= m < q.items.len() ==> q.item_ok(#[trigger] q.items[m]),
                forall|m: int| 0 <= m < q.items.len() ==> (#[trigger] q.items[m]).pairing == m / (k as int) && q.items[m].game_idx == m % (k as int),
                j > 0 ==> q.items.len() > 0 && q.items@.last().pairing == j - 1,
                forall|t: int| 0 <= t < np ==> #[trigger] count_in(q.items@, t) == if t < j { k as nat } else { 0 },
                events@.len() == q.items.len(),
                forall|m: int| 0 <= m < events@.len() ==> describes(q.names@, #[trigger] events[m], q.items[m], "Pending"@),
            decreases np - j,
        {
            let mut c: u32 = 0;
            proof {
                assert((j + 1) * k <= np * k) by (nonlinear_arith)
                    requires j + 1 <= np;
                assert(j * k + k == (j + 1) * k) by (nonlinear_arith);
            }
            while c < k
                invariant
                    j < np == pairs.len() == q.pairings.len(),
                    c <= k,
                    k >= 1,
                    q.names == names0,
                    j * k + k <= usize::MAX,
                    q.remaining_rounds == k,
                    q.swap_sides == swap_sides,
                    forall|t: int| 0 <= t < np ==> (#[trigger] pairs[t]).0 < q.names.len() && pairs[t].1 < q.names.len(),
                    q.next_game_id == q.items.len() == j * k + c,
                    forall|t: int| 0 <= t < np ==> #[trigger] q.pairings[t] == (PairingState { idx_a: pairs[t].0, idx_b: pairs[t].1, next_game_idx: if t < j { k as usize } else if t == j { c as usize } else { 0 }, dispatched: 0 }),
                    forall|m: int| 0 <= m < q.items.len() ==> (#[trigger] q.items[m]).id == m + 1 && q.items[m].pairing <= j,
                    forall|m: int| 0 <= m < q.items.len() ==> q.item_ok(#[trigger] q.items[m]),
                    forall|m: int| 0 <= m < q.items.len() ==> (#[trigger] q.items[m]).pairing == m / (k as int) && q.items[m].game_idx == m % (k as int),
                    c == 0 ==> (j > 0 ==> q.items.len() > 0 && q.items@.last().pairing == j - 1),
                    c == 0 ==> forall|m: int| 0 <= m < q.items.len() ==> (#[trigger] q.items[m]).pairing < j,
                    c > 0 ==> q.items.len() > 0 && q.items@.last().pairing == j && q.items@.last().game_idx == c - 1,
                    forall|t: int| 0 <= t < np ==> #[trigger] count_in(q.items@, t) == if t < j { k as nat } else if t == j { c as nat } else { 0 },
                    events@.len() == q.items.len(),
                    forall|m: int| 0 <= m < events@.len() ==> describes(q.names@, #[trigger] events[m], q.items[m], "Pending"@),
                decreases k - c,
            {
                let ghost prev = q.items@;
                let ghost prev_events = events@;
                let ghost prev_pairings = q.pairings@;
                q.next_game_id = q.next_game_id + 1;
                let ps = q.pairings[j];
                q.pairings.set(j, PairingState { next_game_idx: (c + 1) as usize, ..ps });
                let (w, b) = colors(swap_sides, ps.idx_a, ps.idx_b, c as usize);
                let it = ScheduleItem {
                    id: q.next_game_id,
                    pairing: j,
                    idx_a: ps.idx_a,
                    idx_b: ps.idx_b,
                    game_idx: c as usize,
                    white_idx: w,
                    black_idx: b,
                };
                proof {
                    assert(pairs[j as int].0 < q.names.len() && pairs[j as int].1 < q.names.len());
                }
                let g = q.event(&it, "Pending");
                q.items.push_back(it);
                events.push(g);
                proof {
                    assert(q.items@.drop_last() == prev);
                    assert(q.items@.last() == it);
                    assert forall|t: int| 0 <= t < np implies #[trigger] count_in(q.items@, t) == if t < j { k as nat } else if t == j { (c + 1) as nat } else { 0 } by {
                        assert(count_in(q.items@, t) == count_in(prev, t) + if t == j { 1nat } else { 0nat });
                    }
                    assert forall|m: int| 0 <= m < q.items.len() implies (#[trigger] q.items[m]).id == m + 1 && q.items[m].pairing <= j by {
                        if m < prev.len() {
                            assert(q.items[m] == prev[m]);
                        }
                    }
                    assert forall|t: int| 0 <= t < np implies #[trigger] q.pairings[t] == (PairingState { idx_a: pairs[t].0, idx_b: pairs[t].1, next_game_idx: if t < j { k as usize } else if t == j { (c + 1) as usize } else { 0 }, dispatched: 0 }) by {
                        if t != j {
                            assert(q.pairings[t] == prev_pairings[t]);
                        }
                    }
                    assert forall|m: int| 0 <= m < q.items.len() implies q.item_ok(#[trigger] q.items[m]) by {
                        if m < prev.len() {
                            assert(q.items[m] == prev[m]);
                            assert(prev[m].pairing <= j);
                            if prev[m].pairing < j {
                                assert(k <= j * k) by (nonlinear_arith)
                                    requires j >= 1;
                            }
                        }
                    }
                    assert forall|m: int| 0 <= m < q.items.len() implies (#[trigger] q.items[m]).pairing == m / (k as int) && q.items[m].game_idx == m % (k as int) by {
                        if m < prev.len() {
                            assert(q.items[m] == prev[m]);
                        } else {
                            assert(m == j * k + c);
                            assert((j * k + c) / (k as int) == j && (j * k + c) % (k as int) == c) by (nonlinear_arith)
                                requires c < k;
                        }
                    }
                    assert forall|m: int| 0 <= m < events@.len() implies describes(q.names@, #[trigger] events[m], q.items[m], "Pending"@) by {
                        if m < prev_events.len() {
                            assert(events[m] == prev_events[m]);
                            assert(q.items[m] == prev[m]);
                        }
                    }
                }
                c += 1;
            }
            j += 1;
        }
        proof {
            assert forall|t: int| 0 <= t < q.pairings.len() implies q.pairing_ok(#[trigger] q.pairings[t]) by {
                assert(pairs[t].0 < q.names.len());
                if np > 0 {
                    assert(k <= np * k) by (nonlinear_arith)
                        requires np >= 1;
                }
            }
            assert forall|a: int, b: int| 0 <= a < b < q.items.len() implies q.items[a].id < q.items[b].id by {
                assert(q.items[a].id == a + 1);
                assert(q.items[b].id == b + 1);
            }
            assert(q.items.len() == np * k);
        }
        (q, events)
    }

    /// Takes the first waiting game out of the queue for play and counts it
    /// as dispatched for its pairing.
    pub fn pop_front(&mut self) -> (r: Option<ScheduleItem>)
        requires
            old(self).wf(),
        ensures
            final(self).wf(),
            old(self).items.len() == 0 ==> r.is_none() && *final(self) == *old(self),
            old(self).items.len() > 0 ==> {
                let it = old(self).items[0];
                &&& r == Some(it)
                &&& final(self).items@ == old(self).items@.drop_first()
                &&& final(self).pairings@ == old(self).pairings@.update(it.pairing as int, PairingState { dispatched: (old(self).pairings[it.pairing as int].dispatched + 1) as u32, ..old(self).pairings[it.pairing as int] })
                &&& final(self).remaining_rounds == old(self).remaining_rounds
                &&& final(self).next_game_id == old(self).next_game_id
                &&& final(self).names == old(self).names
                &&& final(self).swap_sides == old(self).swap_sides
            },
    {
        if self.items.len() == 0 {
            return None;
        }
        self.remove_at(0)
    }

    /// Takes the waiting game with id `id` out of the queue, counting it as
    /// dispatched; `None` when no waiting game has that id.
    pub fn retire(&mut self, id: usize) -> (r: Option<ScheduleItem>)
        requires
            old(self).wf(),
        ensures
            final(self).wf(),
            (forall|i: int| 0 <= i < old(self).items.len() ==> (#[trigger] old(self).items[i]).id != id) ==> r.is_none() && *final(self) == *old(self),
            forall|i: int| 0 <= i < old(self).items.len() && (#[trigger] old(self).items[i]).id == id ==> {
                let it = old(self).items[i];
                &&& r == Some(it)
                &&& final(self).items@ == old(self).items@.remove(i)
                &&& final(self).pairings@ == old(self).pairings@.update(it.pairing as int, PairingState { dispatched: (old(self).pairings[it.pairing as int].dispatched + 1) as u32, ..old(self).pairings[it.pairing as int] })
                &&& final(self).remaining_rounds == old(self).remaining_rounds
                &&& final(self).next_game_id == old(self).next_game_id
                &&& final(self).names == old(self).names
            },
    {
        let mut i: usize = 0;
        let ghost s0 = *self;
        while i < self.items.len()
            invariant
                *self == s0,
                s0 == *old(self),
                s0.wf(),
                i <= self.items.len(),
                forall|t: int| 0 <= t < i ==> (#[trigger] self.items[t]).id != id,
            decreases self.items.len() - i,
        {
            if self.items[i].id == id {
                proof {
                    assert forall|t: int| 0 <= t < s0.items.len() && (#[trigger] s0.items[t]).id == id implies t == i by {
                        if t < i {
                        } else if t > i {
                            assert(s0.items[i as int].id < s0.items[t].id);
                        }
                    }
                    assert(s0.items[i as int].id == id);
                }
                let r = self.remove_at(i);
                return r;
            }
            i += 1;
        }
        None
    }

    fn remove_at(&mut self, i: usize) -> (r: Option<ScheduleItem>)
        requires
            old(self).wf(),
            i < old(self).items.len(),
        ensures
            final(self).wf(),
            ({
                let it = old(self).items[i as int];
                &&& r == Some(it)
                &&& final(self).items@ == old(self).items@.remove(i as int)
                &&& final(self).pairings@ == old(self).pairings@.update(it.pairing as int, PairingState { dispatched: (old(self).pairings[it.pairing as int].dispatched + 1) as u32, ..old(self).pairings[it.pairing as int] })
                &&& final(self).remaining_rounds == old(self).remaining_rounds
                &&& final(self).next_game_id == old(self).next_game_id
                &&& final(self).names == old(self).names
                &&& final(self).swap_sides == old(self).swap_sides
            }),
    {
        let ghost q = self.items@;
        let ghost old_pairings = self.pairings@;
        let it = self.items.remove(i).unwrap();
        proof {
            assert(q[i as int] == it);
            assert(self.item_ok(q[i as int]));
            assert(self.pairing_ok(self.pairings[it.pairing as int]));
            assert(q == q.subrange(0, i as int) + (seq![it] + q.subrange(i + 1, q.len() as int)));
            assert(self.items@ =~= q.subrange(0, i as int) + q.subrange(i + 1, q.len() as int));
            assert forall|p: int| 0 <= p < self.pairings.len() implies #[trigger] count_in(self.items@, p) + (if it.pairing == p { 1nat } else { 0nat }) == count_in(q, p) by {
                lemma_count_concat(q.subrange(0, i as int), seq![it] + q.subrange(i + 1, q.len() as int), p);
                lemma_count_concat(seq![it], q.subrange(i + 1, q.len() as int), p);
                lemma_count_concat(q.subrange(0, i as int), q.subrange(i + 1, q.len() as int), p);
                assert(seq![it].drop_last() =~= Seq::<ScheduleItem>::empty());
                assert(count_in(Seq::<ScheduleItem>::empty(), p) == 0);
            }
            assert(count_in(self.items@, it.pairing as int) + 1 == count_in(q, it.pairing as int));
        }
        let p = it.pairing;
        let mut ps = self.pairings[p];
        ps.dispatched = ps.dispatched + 1;
        self.pairings[p] = ps;
        proof {
            assert forall|t: int| 0 <= t < self.pairings.len() implies self.pairing_ok(#[trigger] self.pairings[t]) by {
                assert(self.pairing_ok(old_pairings[t]));
            }
            assert forall|x: int| 0 <= x < self.items.len() implies self.item_ok(#[trigger] self.items[x]) by {
                if x < i {
                    assert(self.items[x] == q[x]);
                } else {
                    assert(self.items[x] == q[x + 1]);
                }
            }
            assert forall|a: int, b: int| 0 <= a < b < self.items.len() implies self.items[a].id < self.items[b].id by {
                let a2 = if a < i { a } else { a + 1 };
                let b2 = if b < i { b } else { b + 1 };
                assert(self.items[a] == q[a2]);
                assert(self.items[b] == q[b2]);
            }
            assert forall|t: int| 0 <= t < self.pairings.len() implies #[trigger] count_in(self.items@, t) == target_pending(self.remaining_rounds, self.pairings[t].dispatched) by {
                assert(count_in(q, t) == target_pending(self.remaining_rounds, old_pairings[t].dispatched));
            }
        }
        Some(it)
    }
}

/// While the rounds value `k` is at least the number of dispatched games of a
/// pairing, its waiting and dispatched games together make `k`.
pub proof fn lemma_pending_plus_dispatched(q: ScheduleQueue, p: int)
    requires
        q.wf(),
        0 <= p < q.pairings.len(),
        q.pairings[p].dispatched <= q.remaining_rounds,
    ensures
        q.pending(p) + q.pairings[p].dispatched == q.remaining_rounds,
{
}




/// Number of spawn failures after which an engine is disabled.
pub const ENGINE_SPAWN_FAILURE_LIMIT: u32 = 3;

/// Whether an engine with `id` is among the disabled ids; an engine
/// without an id never is.
pub open spec fn is_disabled_spec(disabled: Seq<String>, id: Option<String>) -> bool {
    match id {
        Some(i) => exists|k: int| 0 <= k < disabled.len() && (#[trigger] disabled[k])@ == i@,
        None => false,
    }
}

pub fn is_engine_disabled(disabled: &Vec<String>, id: &Option<String>) -> (r: bool)
    ensures
        r == is_disabled_spec(disabled@, *id),
{
    match id {
        Some(i) => {
            let mut k: usize = 0;
            while k < disabled.len()
                invariant
                    k <= disabled.len(),
                    *id == Some(*i),
                    forall|t: int| 0 <= t < k ==> (#[trigger] disabled@[t])@ != i@,
                decreases disabled.len() - k,
            {
                if str_eq(disabled[k].as_str(), i.as_str()) {
                    assert(disabled@[k as int]@ == i@);
                    return true;
                }
                k += 1;
            }
            false
        },
        None => false,
    }
}

/// The result shown for a game skipped because a player is disabled, and
/// the result it counts as: both disabled, a forfeit draw; one disabled, a
/// forfeit win for the other; neither, no result.
pub open spec fn forfeit_result_spec(white_disabled: bool, black_disabled: bool) -> (Seq<char>, Option<Seq<char>>) {
    if white_disabled && black_disabled {
        ("1/2-1/2 (forfeit)"@, Some("1/2-1/2"@))
    } else if white_disabled {
        ("0-1 (forfeit)"@, Some("0-1"@))
    } else if black_disabled {
        ("1-0 (forfeit)"@, Some("1-0"@))
    } else {
        ("*"@, None)
    }
}

pub fn forfeit_result(white_disabled: bool, black_disabled: bool) -> (r: (String, Option<String>))
    ensures
        r.0@ == forfeit_result_spec(white_disabled, black_disabled).0,
        crate::stats::opt_str(r.1) == forfeit_result_spec(white_disabled, black_disabled).1,
{
    if white_disabled && black_disabled {
        (String::from_str("1/2-1/2 (forfeit)"), Some(String::from_str("1/2-1/2")))
    } else if white_disabled {
        (String::from_str("0-1 (forfeit)"), Some(String::from_str("0-1")))
    } else if black_disabled {
        (String::from_str("1-0 (forfeit)"), Some(String::from_str("1-0")))
    } else {
        (String::from_str("*"), None)
    }
}

/// Index of the first entry of game `id`, or the length when there is none.
pub open spec fn entry_index(schedule: Seq<ScheduledGame>, id: usize) -> int
    decreases schedule.len(),
{
    if schedule.len() == 0 {
        0
    } else if schedule[0].id == id {
        0
    } else {
        1 + entry_index(schedule.drop_first(), id)
    }
}

proof fn lemma_entry_index(s: Seq<ScheduledGame>, id: usize, i: int)
    requires
        0 <= i <= s.len(),
        forall|t: int| 0 <= t < i ==> (#[trigger] s[t]).id != id,
        i < s.len() ==> s[i].id == id,
    ensures
        entry_index(s, id) == i,
    decreases s.len(),
{
    if s.len() > 0 && i > 0 {
        assert forall|t: int| 0 <= t < i - 1 implies (#[trigger] s.drop_first()[t]).id != id by {
            assert(s.drop_first()[t] == s[t + 1]);
        }
        lemma_entry_index(s.drop_first(), id, i - 1);
    }
}

/// Replaces the first entry of game `update.id` by `update`, or appends it
/// when the schedule has none.
pub fn update_schedule_state(schedule: &mut Vec<ScheduledGame>, update: ScheduledGame)
    ensures
        ({
            let k = entry_index(old(schedule)@, update.id);
            if k < old(schedule).len() {
                final(schedule)@ == old(schedule)@.update(k, update)
            } else {
                final(schedule)@ == old(schedule)@.push(update)
            }
        }),
{
    let n = schedule.len();
    let mut i: usize = 0;
    while i < n && schedule[i].id != update.id
        invariant
            i <= n == schedule.len(),
            schedule@ == old(schedule)@,
            forall|t: int| 0 <= t < i ==> (#[trigger] schedule[t]).id != update.id,
        decreases n - i,
    {
        i += 1;
    }
    proof {
        lemma_entry_index(schedule@, update.id, i as int);
    }
    if i < n {
        schedule.set(i, update);
    } else {
        schedule.push(update);
    }
}

/// A saved schedule prepared for a resumed run: Active games go back to
/// Pending without a result, because the run that saved them stopped
/// mid-game.
pub fn revert_active(schedule: &mut Vec<ScheduledGame>)
    ensures
        final(schedule).len() == old(schedule).len(),
        forall|k: int| 0 <= k < old(schedule).len() ==> reverted(old(schedule)[k], #[trigger] final(schedule)[k]),
{
    let n = schedule.len();
    let mut k: usize = 0;
    while k < n
        invariant
            k <= n == schedule.len(),
            n == old(schedule).len(),
            forall|t: int| k <= t < n ==> #[trigger] schedule[t] == old(schedule)[t],
            forall|t: int| 0 <= t < k ==> reverted(old(schedule)[t], #[trigger] schedule[t]),
        decreases n - k,
    {
        if str_eq(schedule[k].state.as_str(), "Active") {
            let g = ScheduledGame {
                id: schedule[k].id,
                white_name: schedule[k].white_name.clone(),
                black_name: schedule[k].black_name.clone(),
                state: String::from_str("Pending"),
                result: None,
            };
            schedule.set(k, g);
        }
        k += 1;
    }
}

/// `h` is `g` with an Active state turned into Pending without a result.
pub open spec fn reverted(g: ScheduledGame, h: ScheduledGame) -> bool {
    &&& h.id == g.id && h.white_name@ == g.white_name@ && h.black_name@ == g.black_name@
    &&& g.state@ == "Active"@ ==> h.state@ == "Pending"@ && h.result.is_none()
    &&& g.state@ != "Active"@ ==> h == g
}

/// Whether every game of `schedule` is in a final state.
pub fn all_terminal(schedule: &Vec<ScheduledGame>) -> (r: bool)
    ensures
        r == forall|k: int| 0 <= k < schedule.len() ==> is_terminal_spec((#[trigger] schedule[k]).state@),
{
    let mut k: usize = 0;
    while k < schedule.len()
        invariant
            k <= schedule.len(),
            forall|t: int| 0 <= t < k ==> is_terminal_spec((#[trigger] schedule[t]).state@),
        decreases schedule.len() - k,
    {
        if !is_terminal(schedule[k].state.as_str()) {
            return false;
        }
        k += 1;
    }
    true
}

impl ScheduleQueue {
    /// The queue of a resumed tournament: the fresh queue for `pairs`,
    /// without the games that `saved` records in a final state.
    pub fn resume(pairs: &Vec<(usize, usize)>, names: Vec<String>, swap_sides: bool, games_count: u32, saved: &Vec<ScheduledGame>) -> (r: ScheduleQueue)
        requires
            forall|j: int| 0 <= j < pairs.len() ==> (#[trigger] pairs[j]).0 < names.len() && pairs[j].1 < names.len(),
            pairs.len() * (if games_count == 0 { 1 } else { games_count as int }) <= usize::MAX,
        ensures
            r.wf(),
            r.remaining_rounds == if games_count == 0 { 1 } else { games_count },
            r.pairings.len() == pairs.len(),
            r.next_game_id == pairs.len() * r.remaining_rounds,
            forall|id: usize| 1 <= id <= r.next_game_id ==> (#[trigger] has_id(r.items@, id) <==> !finished_in(saved@, id)),
            forall|m: int| 0 <= m < r.items.len() ==> (#[trigger] r.items[m]).pairing == (r.items[m].id - 1) / (r.remaining_rounds as int)
                && r.items[m].game_idx == (r.items[m].id - 1) % (r.remaining_rounds as int),
            forall|j: int| 0 <= j < r.pairings.len() ==> (#[trigger] r.pairings[j]).dispatched <= r.remaining_rounds,
    {
        let (mut q, _) = ScheduleQueue::new(pairs, names, swap_sides, games_count);
        let ghost total = q.next_game_id;
        proof {
            assert forall|m: int| 0 <= m < q.items.len() implies (#[trigger] q.items[m]).pairing == (q.items[m].id - 1) / (q.remaining_rounds as int)
                && q.items[m].game_idx == (q.items[m].id - 1) % (q.remaining_rounds as int) by {
                assert(q.items[m].id == m + 1);
            }
            assert forall|id: usize| 1 <= id <= q.next_game_id implies #[trigger] has_id(q.items@, id) by {
                assert(q.items[id - 1].id == id);
            }
        }
        let mut k: usize = 0;
        while k < saved.len()
            invariant
                k <= saved.len(),
                q.wf(),
                q.remaining_rounds == if games_count == 0 { 1 } else { games_count },
                q.pairings.len() == pairs.len(),
                q.next_game_id == total,
                total == pairs.len() * q.remaining_rounds,
                forall|id: usize| 1 <= id <= total ==> (#[trigger] has_id(q.items@, id) <==> !finished_in(saved@.subrange(0, k as int), id)),
                forall|m: int| 0 <= m < q.items.len() ==> (#[trigger] q.items[m]).pairing == (q.items[m].id - 1) / (q.remaining_rounds as int)
                    && q.items[m].game_idx == (q.items[m].id - 1) % (q.remaining_rounds as int),
                forall|j: int| 0 <= j < q.pairings.len() ==> (#[trigger] q.pairings[j]).dispatched <= q.remaining_rounds,
            decreases saved.len() - k,
        {
            let ghost before = q.items@;
            let ghost before_pairings = q.pairings@;
            let ghost before_q = q;
            let ghost pre = saved@.subrange(0, k as int);
            let ghost cur = saved@.subrange(0, k + 1);
            assert(cur.drop_last() =~= pre);
            assert(cur.last() == saved@[k as int]);
            if is_terminal(saved[k].state.as_str()) {
                let id0 = saved[k].id;
                let r = q.retire(id0);
                proof {
                    if r.is_some() {
                        let i = choose|i: int| 0 <= i < before.len() && before[i].id == id0;
                        let p = before[i].pairing as int;
                        assert(before_q.item_ok(before[i]));
                        lemma_count_pos(before, i);
                        assert(count_in(before, p) == target_pending(q.remaining_rounds, before_pairings[p].dispatched));
                        assert forall|j: int| 0 <= j < q.pairings.len() implies (#[trigger] q.pairings[j]).dispatched <= q.remaining_rounds by {
                            assert(before_pairings[j].dispatched <= q.remaining_rounds);
                        }
                        assert forall|m: int| 0 <= m < q.items.len() implies (#[trigger] q.items[m]).pairing == (q.items[m].id - 1) / (q.remaining_rounds as int)
                            && q.items[m].game_idx == (q.items[m].id - 1) % (q.remaining_rounds as int) by {
                            let m2 = if m < i { m } else { m + 1 };
                            assert(q.items[m] == before[m2]);
                        }
                    }
                    assert forall|id: usize| 1 <= id <= total implies (#[trigger] has_id(q.items@, id) <==> !finished_in(cur, id)) by {
                        lemma_finished_push(pre, saved@[k as int], id);
                        if r.is_some() {
                            let i = choose|i: int| 0 <= i < before.len() && before[i].id == id0;
                            if has_id(q.items@, id) {
                                let m = choose|m: int| 0 <= m < q.items.len() && q.items[m].id == id;
                                let m2 = if m < i { m } else { m + 1 };
                                assert(q.items[m] == before[m2]);
                                assert(m2 != i);
                                if id == id0 {
                                    if i < m2 {
                                        assert(before[i].id < before[m2].id);
                                    } else {
                                        assert(before[m2].id < before[i].id);
                                    }
                                }
                            }
                            if id != id0 && has_id(before, id) {
                                let m = choose|m: int| 0 <= m < before.len() && before[m].id == id;
                                assert(m != i);
                                let m2 = if m < i { m } else { m - 1 };
                                assert(q.items[m2] == before[m]);
                            }
                        }
                    }
                }
            } else {
                proof {
                    assert forall|id: usize| 1 <= id <= total implies (#[trigger] has_id(q.items@, id) <==> !finished_in(cur, id)) by {
                        lemma_finished_push(pre, saved@[k as int], id);
                    }
                }
            }
            k += 1;
        }
        assert(saved@.subrange(0, saved.len() as int) =~= saved@);
        q
    }
}

/// Some game of `items` has id `id`.
pub open spec fn has_id(items: Seq<ScheduleItem>, id: usize) -> bool {
    exists|m: int| 0 <= m < items.len() && items[m].id == id
}

/// `saved` records game `id` in a final state.
pub open spec fn finished_in(saved: Seq<ScheduledGame>, id: usize) -> bool {
    exists|t: int| 0 <= t < saved.len() && saved[t].id == id && is_terminal_spec(saved[t].state@)
}

proof fn lemma_count_pos(q: Seq<ScheduleItem>, i: int)
    requires
        0 <= i < q.len(),
    ensures
        count_in(q, q[i].pairing as int) >= 1,
    decreases q.len(),
{
    if i < q.len() - 1 {
        lemma_count_pos(q.drop_last(), i);
    }
}

proof fn lemma_finished_push(pre: Seq<ScheduledGame>, g: ScheduledGame, id: usize)
    ensures
        finished_in(pre.push(g), id) <==> finished_in(pre, id) || (g.id == id && is_terminal_spec(g.state@)),
{
    let s = pre.push(g);
    if finished_in(pre, id) {
        let t = choose|t: int| 0 <= t < pre.len() && pre[t].id == id && is_terminal_spec(pre[t].state@);
        assert(s[t] == pre[t]);
    }
    if finished_in(s, id) {
        let t = choose|t: int| 0 <= t < s.len() && s[t].id == id && is_terminal_spec(s[t].state@);
        if t < pre.len() {
            assert(s[t] == pre[t]);
        }
    }
    if g.id == id && is_terminal_spec(g.state@) {
        assert(s[pre.len() as int] == g);
    }
}


/// The lifecycle of a schedule entry.
#[derive(Clone, Copy, Debug, PartialEq, Eq, Structural)]
pub enum EntryState {
    Pending,
    Active,
    Finished,
    Aborted,
    Skipped,
    Removed,
}

/// What happens to a schedule entry.
#[derive(Clone, Copy, Debug, PartialEq, Eq, Structural)]
pub enum EntryEvent {
    /// A worker takes the game.
    Dispatch,
    /// The game ended with a result.
    Finish,
    /// The game could not be played to the end.
    Abort,
    /// The tournament was stopped.
    Stop,
    /// A player is disabled.
    Skip,
    /// The rounds were reduced.
    Remove,
}

impl EntryState {
    pub open spec fn is_final(self) -> bool {
        self == EntryState::Finished || self == EntryState::Aborted || self == EntryState::Skipped || self == EntryState::Removed
    }

    pub open spec fn next_spec(self, e: EntryEvent) -> Option<EntryState> {
        match (self, e) {
            (EntryState::Pending, EntryEvent::Dispatch) => Some(EntryState::Active),
            (EntryState::Pending, EntryEvent::Skip) => Some(EntryState::Skipped),
            (EntryState::Pending, EntryEvent::Remove) => Some(EntryState::Removed),
            (EntryState::Active, EntryEvent::Finish) => Some(EntryState::Finished),
            (EntryState::Active, EntryEvent::Abort) => Some(EntryState::Aborted),
            (EntryState::Active, EntryEvent::Stop) => Some(EntryState::Aborted),
            _ => None,
        }
    }

    /// The state after `e`, `None` when `e` cannot happen in this state:
    /// Pending goes to Active, Skipped or Removed; Active to Finished or
    /// Aborted (also when stopped); the final states stay as they are.
    pub fn next(&self, e: EntryEvent) -> (r: Option<EntryState>)
        ensures
            r == self.next_spec(e),
    {
        match (self, e) {
            (EntryState::Pending, EntryEvent::Dispatch) => Some(EntryState::Active),
            (EntryState::Pending, EntryEvent::Skip) => Some(EntryState::Skipped),
            (EntryState::Pending, EntryEvent::Remove) => Some(EntryState::Removed),
            (EntryState::Active, EntryEvent::Finish) => Some(EntryState::Finished),
            (EntryState::Active, EntryEvent::Abort) => Some(EntryState::Aborted),
            (EntryState::Active, EntryEvent::Stop) => Some(EntryState::Aborted),
            _ => None,
        }
    }

    pub open spec fn name_spec(self) -> Seq<char> {
        match self {
            EntryState::Pending => "Pending"@,
            EntryState::Active => "Active"@,
            EntryState::Finished => "Finished"@,
            EntryState::Aborted => "Aborted"@,
            EntryState::Skipped => "Skipped"@,
            EntryState::Removed => "Removed"@,
        }
    }

    /// The name a schedule entry carries for this state.
    pub fn as_str(&self) -> (r: &'static str)
        ensures
            r@ == self.name_spec(),
    {
        match self {
            EntryState::Pending => "Pending",
            EntryState::Active => "Active",
            EntryState::Finished => "Finished",
            EntryState::Aborted => "Aborted",
            EntryState::Skipped => "Skipped",
            EntryState::Removed => "Removed",
        }
    }
}

/// A final state accepts no further event, no event leads back to Pending,
/// every event a game in play accepts leads to a final state, and stopping
/// a game in play aborts it.
pub proof fn lemma_final_states_absorb(s: EntryState, e: EntryEvent)
    ensures
        s.is_final() ==> s.next_spec(e).is_none(),
        s == EntryState::Active && e == EntryEvent::Stop ==> s.next_spec(e) == Some(EntryState::Aborted),
        s.next_spec(e).is_some() ==> s.next_spec(e).unwrap() != EntryState::Pending,
        s == EntryState::Active && s.next_spec(e).is_some() ==> s.next_spec(e).unwrap().is_final(),
{
}

} // verus!
