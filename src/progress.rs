use vstd::prelude::*;
use crate::text::str_eq;
use crate::types::ScheduledGame;

verus! {

/// The last known state of each scheduled game, for progress display.
pub struct ProgressTracker {
    pub schedule_states: Vec<(usize, String)>,
}

/// The state recorded for game `id`, if any.
pub open spec fn lookup(entries: Seq<(usize, String)>, id: usize) -> Option<Seq<char>>
    decreases entries.len(),
{
    if entries.len() == 0 {
        None
    } else if entries.last().0 == id {
        Some(entries.last().1@)
    } else {
        lookup(entries.drop_last(), id)
    }
}

pub open spec fn is_done(state: Seq<char>) -> bool {
    state == "Finished"@ || state == "Aborted"@ || state == "Skipped"@
}

/// `n`, or `u32::MAX` when it is larger.
pub open spec fn capped(n: nat) -> u32 {
    if n >= u32::MAX { u32::MAX } else { n as u32 }
}

/// Games recorded in a state other than Removed.
pub open spec fn count_total(entries: Seq<(usize, String)>) -> nat
    decreases entries.len(),
{
    if entries.len() == 0 {
        0
    } else {
        count_total(entries.drop_last()) + if entries.last().1@ != "Removed"@ { 1nat } else { 0nat }
    }
}

/// Games recorded in a state other than Removed, Finished, Aborted and
/// Skipped.
pub open spec fn count_remaining(entries: Seq<(usize, String)>) -> nat
    decreases entries.len(),
{
    if entries.len() == 0 {
        0
    } else {
        count_remaining(entries.drop_last()) + if entries.last().1@ != "Removed"@ && !is_done(entries.last().1@) { 1nat } else { 0nat }
    }
}

proof fn lemma_counts_bound(entries: Seq<(usize, String)>)
    ensures
        count_remaining(entries) <= count_total(entries) <= entries.len(),
    decreases entries.len(),
{
    if entries.len() > 0 {
        lemma_counts_bound(entries.drop_last());
    }
}

impl ProgressTracker {
    pub open spec fn wf(&self) -> bool {
        forall|a: int, b: int| 0 <= a < b < self.schedule_states.len() ==> self.schedule_states[a].0 != self.schedule_states[b].0
    }

    pub fn new() -> (r: ProgressTracker)
        ensures
            r.wf(),
            r.schedule_states@.len() == 0,
    {
        ProgressTracker { schedule_states: Vec::new() }
    }

    /// Forgets every game.
    pub fn reset(&mut self)
        ensures
            final(self).wf(),
            final(self).schedule_states@.len() == 0,
    {
        self.schedule_states.clear();
    }

    /// Records `update`: a Removed game is forgotten, any other state
    /// replaces the game's previous one. Returns the counts afterwards.
    pub fn apply_update(&mut self, update: &ScheduledGame) -> (r: (u32, u32))
        requires
            old(self).wf(),
        ensures
            final(self).wf(),
            forall|id: usize| #[trigger] lookup(final(self).schedule_states@, id) == if id == update.id {
                if update.state@ == "Removed"@ { None } else { Some(update.state@) }
            } else {
                lookup(old(self).schedule_states@, id)
            },
            r.0 == capped(count_total(final(self).schedule_states@)),
            r.1 == capped(count_remaining(final(self).schedule_states@)),
    {
        let ghost old_s = self.schedule_states@;
        let mut j: usize = 0;
        let n = self.schedule_states.len();
        let mut i: usize = n;
        while j < n
            invariant
                j <= n == self.schedule_states.len(),
                self.schedule_states@ == old_s,
                i == n || (i < j && self.schedule_states[i as int].0 == update.id),
                forall|t: int| 0 <= t < j && t < i ==> (#[trigger] self.schedule_states[t]).0 != update.id,
            decreases n - j,
        {
            if i == n && self.schedule_states[j].0 == update.id {
                i = j;
            }
            j += 1;
        }
        proof {
            reveal_strlit("Removed");
        }
        let removed = str_eq(update.state.as_str(), "Removed");
        if i < n {
            assert(self.schedule_states[i as int].0 == update.id);
            if removed {
                self.schedule_states.remove(i);
            } else {
                self.schedule_states.set(i, (update.id, update.state.clone()));
            }
        } else if !removed {
            self.schedule_states.push((update.id, update.state.clone()));
            assert(self.schedule_states@.drop_last() =~= old_s);
        }
        proof {
            lemma_lookup_after(old_s, self.schedule_states@, i as int, update, removed);
        }
        self.counts()
    }

    /// Number of games known, and of those not yet over.
    pub fn counts(&self) -> (r: (u32, u32))
        requires
            self.wf(),
        ensures
            r.0 == capped(count_total(self.schedule_states@)),
            r.1 == capped(count_remaining(self.schedule_states@)),
    {
        let mut total: u32 = 0;
        let mut remaining: u32 = 0;
        let mut i: usize = 0;
        proof {
            reveal_strlit("Removed");
            reveal_strlit("Finished");
            reveal_strlit("Aborted");
            reveal_strlit("Skipped");
        }
        while i < self.schedule_states.len()
            invariant
                self.wf(),
                i <= self.schedule_states.len(),
                total == capped(count_total(self.schedule_states@.subrange(0, i as int))),
                remaining == capped(count_remaining(self.schedule_states@.subrange(0, i as int))),
            decreases self.schedule_states.len() - i,
        {
            let ghost pre = self.schedule_states@.subrange(0, i as int);
            let ghost cur = self.schedule_states@.subrange(0, i + 1);
            assert(cur.drop_last() =~= pre);
            proof {
                lemma_counts_bound(pre);
            }
            let state = self.schedule_states[i].1.as_str();
            if !str_eq(state, "Removed") {
                if total < u32::MAX {
                    total += 1;
                }
                if !(str_eq(state, "Finished") || str_eq(state, "Aborted") || str_eq(state, "Skipped")) && remaining < u32::MAX {
                    remaining += 1;
                }
            }
            i += 1;
        }
        assert(self.schedule_states@.subrange(0, i as int) =~= self.schedule_states@);
        (total, remaining)
    }
}

proof fn lemma_lookup_absent(s: Seq<(usize, String)>, id: usize)
    requires
        forall|t: int| 0 <= t < s.len() ==> (#[trigger] s[t]).0 != id,
    ensures
        lookup(s, id).is_none(),
    decreases s.len(),
{
    if s.len() > 0 {
        lemma_lookup_absent(s.drop_last(), id);
    }
}

proof fn lemma_lookup_unique(s: Seq<(usize, String)>, i: int)
    requires
        0 <= i < s.len(),
        forall|a: int, b: int| 0 <= a < b < s.len() ==> s[a].0 != s[b].0,
    ensures
        lookup(s, s[i].0) == Some(s[i].1@),
    decreases s.len(),
{
    if i < s.len() - 1 {
        lemma_lookup_unique(s.drop_last(), i);
    }
}

proof fn lemma_lookup_other(s: Seq<(usize, String)>, t: Seq<(usize, String)>, id: usize)
    requires
        forall|x: int| 0 <= x < s.len() && (#[trigger] s[x]).0 == id ==> forall|a: int, b: int| 0 <= a < b < s.len() ==> s[a].0 != s[b].0,
        forall|a: int, b: int| 0 <= a < b < s.len() ==> s[a].0 != s[b].0,
        forall|a: int, b: int| 0 <= a < b < t.len() ==> t[a].0 != t[b].0,
        forall|x: int| 0 <= x < s.len() && s[x].0 == id ==> exists|y: int| 0 <= y < t.len() && t[y] == s[x],
        forall|y: int| 0 <= y < t.len() && t[y].0 == id ==> exists|x: int| 0 <= x < s.len() && s[x] == t[y],
    ensures
        lookup(s, id) == lookup(t, id),
{
    if exists|x: int| 0 <= x < s.len() && s[x].0 == id {
        let x = choose|x: int| 0 <= x < s.len() && s[x].0 == id;
        let y = choose|y: int| 0 <= y < t.len() && t[y] == s[x];
        lemma_lookup_unique(s, x);
        lemma_lookup_unique(t, y);
    } else {
        lemma_lookup_absent(s, id);
        if exists|y: int| 0 <= y < t.len() && t[y].0 == id {
            let y = choose|y: int| 0 <= y < t.len() && t[y].0 == id;
            let x = choose|x: int| 0 <= x < s.len() && s[x] == t[y];
        }
        lemma_lookup_absent(t, id);
    }
}

proof fn lemma_lookup_after(s: Seq<(usize, String)>, t: Seq<(usize, String)>, i: int, update: &ScheduledGame, removed: bool)
    requires
        0 <= i <= s.len(),
        forall|a: int, b: int| 0 <= a < b < s.len() ==> s[a].0 != s[b].0,
        forall|x: int| 0 <= x < i ==> (#[trigger] s[x]).0 != update.id,
        i < s.len() ==> s[i].0 == update.id,
        removed == (update.state@ == "Removed"@),
        i < s.len() && removed ==> t == s.remove(i),
        i < s.len() && !removed ==> t.len() == s.len() && t[i].0 == update.id && t[i].1@ == update.state@
            && forall|x: int| 0 <= x < s.len() && x != i ==> t[x] == s[x],
        i == s.len() && removed ==> t == s,
        i == s.len() && !removed ==> t.len() == s.len() + 1 && t.drop_last() == s && t.last().0 == update.id && t.last().1@ == update.state@,
    ensures
        forall|a: int, b: int| 0 <= a < b < t.len() ==> t[a].0 != t[b].0,
        forall|id: usize| #[trigger] lookup(t, id) == if id == update.id {
            if removed { None } else { Some(update.state@) }
        } else {
            lookup(s, id)
        },
{
    assert forall|a: int, b: int| 0 <= a < b < t.len() implies t[a].0 != t[b].0 by {
        if i < s.len() && removed {
            let a2 = if a < i { a } else { a + 1 };
            let b2 = if b < i { b } else { b + 1 };
            assert(t[a] == s[a2] && t[b] == s[b2]);
        } else if i < s.len() {
            if a != i && b != i {
                assert(t[a] == s[a] && t[b] == s[b]);
            } else if a == i {
                assert(t[b] == s[b]);
            } else {
                assert(t[a] == s[a]);
            }
        } else if !removed {
            if b == s.len() {
                assert(t[a] == s[a]);
            } else {
                assert(t[a] == s[a] && t[b] == s[b]);
            }
        }
    }
    assert forall|id: usize| #[trigger] lookup(t, id) == if id == update.id {
        if removed { None } else { Some(update.state@) }
    } else {
        lookup(s, id)
    } by {
        if id == update.id {
            if removed {
                assert forall|y: int| 0 <= y < t.len() implies (#[trigger] t[y]).0 != id by {
                    if i < s.len() {
                        let y2 = if y < i { y } else { y + 1 };
                        assert(t[y] == s[y2]);
                        if y2 > i {
                            assert(s[i].0 != s[y2].0);
                        }
                    } else {
                        assert(t[y] == s[y]);
                    }
                }
                lemma_lookup_absent(t, id);
            } else if i < s.len() {
                lemma_lookup_unique(t, i);
            } else {
                lemma_lookup_unique(t, t.len() - 1);
            }
        } else {
            assert forall|x: int| 0 <= x < s.len() && s[x].0 == id implies exists|y: int| 0 <= y < t.len() && t[y] == s[x] by {
                if i < s.len() && removed {
                    if x < i {
                        assert(t[x] == s[x]);
                    } else {
                        assert(x != i);
                        assert(t[x - 1] == s[x]);
                    }
                } else {
                    assert(x != i || i == s.len());
                    assert(t[x] == s[x]);
                }
            }
            assert forall|y: int| 0 <= y < t.len() && t[y].0 == id implies exists|x: int| 0 <= x < s.len() && s[x] == t[y] by {
                if i < s.len() && removed {
                    let y2 = if y < i { y } else { y + 1 };
                    assert(t[y] == s[y2]);
                } else if i < s.len() {
                    assert(y != i);
                    assert(t[y] == s[y]);
                } else if !removed {
                    assert(y != s.len());
                    assert(t[y] == s[y]);
                } else {
                    assert(t[y] == s[y]);
                }
            }
            lemma_lookup_other(s, t, id);
        }
    }
}

} // verus!
