use vstd::prelude::*;
use crate::text::{join_range, join_spec, parse_u32, parse_in_range, split_words, str_eq, views, words_of};
use crate::types::AdjudicationConfig;

verus! {

/// The side to move.
#[derive(Clone, Copy, Debug, PartialEq, Eq, Structural)]
pub enum Side {
    White,
    Black,
}

/// How a game ended.
#[derive(Clone, Copy, Debug, PartialEq, Eq, Structural)]
pub enum Outcome {
    WhiteWins,
    BlackWins,
    Draw,
}

impl Outcome {
    pub open spec fn text_spec(self) -> Seq<char> {
        match self {
            Outcome::WhiteWins => "1-0"@,
            Outcome::BlackWins => "0-1"@,
            Outcome::Draw => "1/2-1/2"@,
        }
    }

    /// The result text: "1-0", "0-1" or "1/2-1/2".
    pub fn text(&self) -> (r: &'static str)
        ensures
            r@ == self.text_spec(),
    {
        match self {
            Outcome::WhiteWins => "1-0",
            Outcome::BlackWins => "0-1",
            Outcome::Draw => "1/2-1/2",
        }
    }
}

/// The side that wins when `side` wins.
pub open spec fn win_for(side: Side) -> Outcome {
    match side {
        Side::White => Outcome::WhiteWins,
        Side::Black => Outcome::BlackWins,
    }
}

pub open spec fn other(side: Side) -> Side {
    match side {
        Side::White => Side::Black,
        Side::Black => Side::White,
    }
}

/// A side that times out, disconnects or plays an illegal move forfeits:
/// the opponent wins.
pub fn forfeit(mover: Side) -> (r: Outcome)
    ensures
        r == win_for(other(mover)),
{
    match mover {
        Side::White => Outcome::BlackWins,
        Side::Black => Outcome::WhiteWins,
    }
}

/// Longest wait for a best move: one day.
pub const MAX_MOVE_WAIT_MS: u64 = 86400000;

/// How long to wait for the mover's best move: its clock plus five
/// seconds, capped at one day.
pub open spec fn move_timeout_spec(clock_ms: u64) -> int {
    let t = clock_ms + 5000;
    if t > MAX_MOVE_WAIT_MS { MAX_MOVE_WAIT_MS as int } else { t }
}

pub fn move_timeout_ms(clock_ms: u64) -> (r: u64)
    ensures
        r == move_timeout_spec(clock_ms),
        5000 <= r <= MAX_MOVE_WAIT_MS,
{
    if clock_ms > MAX_MOVE_WAIT_MS - 5000 {
        MAX_MOVE_WAIT_MS
    } else {
        clock_ms + 5000
    }
}

/// The mover's clock after a move: what was left after `elapsed_ms`, never
/// below zero, plus the increment.
pub open spec fn clock_after_spec(clock_ms: u64, elapsed_ms: u64, inc_ms: u64) -> int {
    (if elapsed_ms >= clock_ms { 0 } else { clock_ms - elapsed_ms }) + inc_ms
}

pub fn clock_after(clock_ms: u64, elapsed_ms: u64, inc_ms: u64) -> (r: u64)
    requires
        clock_ms + inc_ms <= u64::MAX,
    ensures
        r == clock_after_spec(clock_ms, elapsed_ms, inc_ms),
{
    let left = if elapsed_ms >= clock_ms { 0 } else { clock_ms - elapsed_ms };
    left + inc_ms
}

/// A clock never goes below zero, and gains at most the increment over
/// what was left, whenever the move took no longer than the time there was.
pub proof fn lemma_clock_bounds(clock_ms: u64, elapsed_ms: u64, inc_ms: u64)
    requires
        elapsed_ms <= clock_ms,
    ensures
        0 <= clock_after_spec(clock_ms, elapsed_ms, inc_ms) <= clock_ms - elapsed_ms + inc_ms,
{
}

/// The score a `score mate N` stands for: 30000 - N when the mover mates,
/// -30000 - N when it is mated.
pub open spec fn mate_scalar_spec(n: i32) -> int {
    if n > 0 { 30000 - n } else { -30000 - n }
}

/// The score of an `info` line for adjudication: centipawns when given,
/// else the mate distance mapped to a scalar.
pub fn line_score(cp: Option<i32>, mate: Option<i32>) -> (r: Option<i64>)
    ensures
        cp.is_some() ==> r == Some(cp.unwrap() as i64),
        cp.is_none() && mate.is_some() ==> r.is_some() && r.unwrap() == mate_scalar_spec(mate.unwrap()),
        cp.is_none() && mate.is_none() ==> r.is_none(),
{
    match cp {
        Some(c) => Some(c as i64),
        None => match mate {
            Some(m) => Some(if m > 0 { 30000 - m as i64 } else { -30000 - m as i64 }),
            None => None,
        },
    }
}

/// Thresholds of score adjudication.
#[derive(Clone, Copy, Debug)]
pub struct AdjudicationRules {
    pub resign_score: i64,
    pub resign_move_count: u32,
    pub draw_score: i64,
    pub draw_move_number: u32,
    pub draw_move_count: u32,
}

/// The rules of `cfg`, where an unset value takes its usual default: resign
/// after 5 moves beyond 1000 cp; draw from move 40 after 20 moves within 5 cp.
pub fn adjudication_rules(cfg: &AdjudicationConfig) -> (r: AdjudicationRules)
    ensures
        r.resign_score == match cfg.resign_score { Some(v) => v as int, None => 1000 },
        r.resign_move_count == match cfg.resign_move_count { Some(v) => v, None => 5 },
        r.draw_score == match cfg.draw_score { Some(v) => v as int, None => 5 },
        r.draw_move_number == match cfg.draw_move_number { Some(v) => v, None => 40 },
        r.draw_move_count == match cfg.draw_move_count { Some(v) => v, None => 20 },
{
    AdjudicationRules {
        resign_score: match cfg.resign_score { Some(v) => v as i64, None => 1000 },
        resign_move_count: match cfg.resign_move_count { Some(v) => v, None => 5 },
        draw_score: match cfg.draw_score { Some(v) => v as i64, None => 5 },
        draw_move_number: match cfg.draw_move_number { Some(v) => v, None => 40 },
        draw_move_count: match cfg.draw_move_count { Some(v) => v, None => 20 },
    }
}

/// Consecutive moves that met the resign and the draw condition.
#[derive(Clone, Copy, Debug, PartialEq, Eq, Structural)]
pub struct Adjudicator {
    pub resign_streak: u32,
    pub draw_streak: u32,
}

pub open spec fn abs_spec(v: i64) -> int {
    if v < 0 { -v } else { v as int }
}

pub open spec fn bump(c: u32) -> u32 {
    if c < u32::MAX { (c + 1) as u32 } else { c }
}

impl Adjudicator {
    pub fn new() -> (r: Adjudicator)
        ensures
            r.resign_streak == 0 && r.draw_streak == 0,
    {
        Adjudicator { resign_streak: 0, draw_streak: 0 }
    }

    /// The streaks after a move whose engine reported `score` (from its own
    /// point of view) at full move `move_number`. A move without a score
    /// leaves both streaks as they were.
    pub open spec fn next_spec(self, rules: AdjudicationRules, score: Option<i64>, move_number: u64) -> Adjudicator {
        match score {
            None => self,
            Some(s) => Adjudicator {
                resign_streak: if abs_spec(s) > rules.resign_score { bump(self.resign_streak) } else { 0 },
                draw_streak: if move_number >= rules.draw_move_number && abs_spec(s) <= rules.draw_score { bump(self.draw_streak) } else { 0 },
            },
        }
    }

    /// What the streaks decide after `mover` moved with `score`: a resign
    /// streak long enough gives the game to the side the score favours (a
    /// draw when the move had no score); else a draw streak long enough draws.
    pub open spec fn verdict_spec(self, rules: AdjudicationRules, mover: Side, score: Option<i64>) -> Option<Outcome> {
        if self.resign_streak >= rules.resign_move_count {
            match score {
                Some(s) => Some(if s > 0 { win_for(mover) } else { win_for(other(mover)) }),
                None => Some(Outcome::Draw),
            }
        } else if self.draw_streak >= rules.draw_move_count {
            Some(Outcome::Draw)
        } else {
            None
        }
    }

    /// Counts a move by `mover` with `score` at full move `move_number`, and
    /// returns the adjudicated outcome, if any.
    pub fn record(&mut self, rules: &AdjudicationRules, mover: Side, score: Option<i64>, move_number: u64) -> (r: Option<Outcome>)
        ensures
            *final(self) == old(self).next_spec(*rules, score, move_number),
            r == final(self).verdict_spec(*rules, mover, score),
    {
        match score {
            Some(s) => {
                let a: i128 = if s < 0 { -(s as i128) } else { s as i128 };
                if a > rules.resign_score as i128 {
                    if self.resign_streak < u32::MAX {
                        self.resign_streak = self.resign_streak + 1;
                    }
                } else {
                    self.resign_streak = 0;
                }
                if move_number >= rules.draw_move_number as u64 && a <= rules.draw_score as i128 {
                    if self.draw_streak < u32::MAX {
                        self.draw_streak = self.draw_streak + 1;
                    }
                } else {
                    self.draw_streak = 0;
                }
            },
            None => {},
        }
        if self.resign_streak >= rules.resign_move_count {
            match score {
                Some(s) => Some(if s > 0 {
                    match mover { Side::White => Outcome::WhiteWins, Side::Black => Outcome::BlackWins }
                } else {
                    forfeit(mover)
                }),
                None => Some(Outcome::Draw),
            }
        } else if self.draw_streak >= rules.draw_move_count {
            Some(Outcome::Draw)
        } else {
            None
        }
    }
}

/// The full-move number shown after `plies` half-moves.
pub fn move_number(plies: usize) -> (r: u64)
    ensures
        r == plies / 2 + 1,
{
    (plies / 2) as u64 + 1
}

/// The repetition key of a position: the first four fields of its FEN
/// (placement, side to move, castling, en passant).
pub open spec fn repetition_key_spec(fen: Seq<char>) -> Seq<char> {
    let w = words_of(fen);
    join_spec(w.subrange(0, if w.len() < 4 { w.len() as int } else { 4 }))
}

pub fn repetition_key(fen: &str) -> (r: String)
    ensures
        r@ == repetition_key_spec(fen@),
{
    let words = split_words(fen);
    let end: usize = if words.len() < 4 { words.len() } else { 4 };
    join_range(&words, 0, end)
}

/// The half-move clock a FEN starts from: its fifth field, zero when absent
/// or unreadable.
pub open spec fn initial_halfmove_spec(fen: Seq<char>) -> u32 {
    let w = words_of(fen);
    if w.len() > 4 {
        match parse_in_range(w[4], false, 0, u32::MAX as int) {
            Some(v) => v as u32,
            None => 0,
        }
    } else {
        0
    }
}

pub fn initial_halfmove(fen: &str) -> (r: u32)
    ensures
        r == initial_halfmove_spec(fen@),
{
    let words = split_words(fen);
    if words.len() > 4 {
        assert(views(words@)[4] == words@[4]@);
        match parse_u32(words[4].as_str()) {
            Some(v) => v,
            None => 0,
        }
    } else {
        0
    }
}

/// The half-move clock after a move: zero after a capture or pawn move,
/// else one more (saturating).
pub fn next_halfmove(clock: u32, zeroing: bool) -> (r: u32)
    ensures
        r == if zeroing { 0 } else { bump(clock) },
{
    if zeroing {
        0
    } else if clock < u32::MAX {
        clock + 1
    } else {
        clock
    }
}

/// How often each key has been seen: positions by repetition key in a
/// game, spawn failures by engine.
pub struct KeyCounts {
    pub entries: Vec<(String, u32)>,
}

/// How often `key` has been seen in `entries`.
pub open spec fn seen(entries: Seq<(String, u32)>, key: Seq<char>) -> nat
    decreases entries.len(),
{
    if entries.len() == 0 {
        0
    } else if entries.last().0@ == key {
        entries.last().1 as nat
    } else {
        seen(entries.drop_last(), key)
    }
}

impl KeyCounts {
    pub open spec fn wf(&self) -> bool {
        forall|a: int, b: int| 0 <= a < b < self.entries.len() ==> self.entries[a].0@ != self.entries[b].0@
    }

    pub fn new() -> (r: KeyCounts)
        ensures
            r.wf(),
            forall|k: Seq<char>| seen(r.entries@, k) == 0,
    {
        KeyCounts { entries: Vec::new() }
    }

    /// Counts one more occurrence of `key` and returns how often it has now
    /// been seen.
    pub fn bump(&mut self, key: String) -> (r: u32)
        requires
            old(self).wf(),
        ensures
            final(self).wf(),
            r == bump(seen(old(self).entries@, key@) as u32),
            seen(old(self).entries@, key@) <= u32::MAX,
            forall|k: Seq<char>| k != key@ ==> seen(final(self).entries@, k) == seen(old(self).entries@, k),
            seen(final(self).entries@, key@) == r,
    {
        let ghost s = self.entries@;
        let n = self.entries.len();
        let mut j: usize = 0;
        let mut i: usize = n;
        while j < n
            invariant
                j <= n == self.entries.len(),
                self.entries@ == s,
                i == n || (i < j && self.entries[i as int].0@ == key@),
                forall|t: int| 0 <= t < j && t < i ==> (#[trigger] self.entries[t]).0@ != key@,
            decreases n - j,
        {
            if i == n && str_eq(self.entries[j].0.as_str(), key.as_str()) {
                i = j;
            }
            j += 1;
        }
        if i < n {
            let c = self.entries[i].1;
            let nc = if c < u32::MAX { c + 1 } else { c };
            let k = self.entries[i].0.clone();
            self.entries.set(i, (k, nc));
            proof {
                lemma_seen_at(s, i as int);
                assert forall|x: Seq<char>| x != key@ implies seen(self.entries@, x) == seen(s, x) by {
                    lemma_seen_update(s, self.entries@, i as int, x);
                }
                lemma_seen_at(self.entries@, i as int);
                assert forall|a: int, b: int| 0 <= a < b < self.entries.len() implies self.entries[a].0@ != self.entries[b].0@ by {
                    assert(a != i ==> self.entries[a] == s[a]);
                    assert(b != i ==> self.entries[b] == s[b]);
                }
            }
            nc
        } else {
            self.entries.push((key, 1));
            proof {
                lemma_seen_absent(s, key@);
                assert(self.entries@.drop_last() =~= s);
                assert forall|a: int, b: int| 0 <= a < b < self.entries.len() implies self.entries[a].0@ != self.entries[b].0@ by {
                    assert(self.entries[a] == s[a]);
                    if b < n {
                        assert(self.entries[b] == s[b]);
                    }
                }
            }
            1
        }
    }
}

impl KeyCounts {
    /// Forgets `key`.
    pub fn forget(&mut self, key: &str)
        requires
            old(self).wf(),
        ensures
            final(self).wf(),
            seen(final(self).entries@, key@) == 0,
            forall|k: Seq<char>| k != key@ ==> seen(final(self).entries@, k) == seen(old(self).entries@, k),
    {
        let ghost s = self.entries@;
        let mut out: Vec<(String, u32)> = Vec::new();
        let mut i: usize = 0;
        while i < self.entries.len()
            invariant
                i <= self.entries.len(),
                self.entries@ == s,
                forall|a: int, b: int| 0 <= a < b < s.len() ==> s[a].0@ != s[b].0@,
                forall|t: int| 0 <= t < out.len() ==> (#[trigger] out[t]).0@ != key@,
                forall|k: Seq<char>| k != key@ ==> seen(out@, k) == seen(s.subrange(0, i as int), k),
                forall|a: int, b: int| 0 <= a < b < out.len() ==> out[a].0@ != out[b].0@,
                forall|t: int| 0 <= t < out.len() ==> exists|x: int| 0 <= x < i && s[x] == #[trigger] out[t],
            decreases self.entries.len() - i,
        {
            let ghost pre = s.subrange(0, i as int);
            assert(s.subrange(0, i + 1).drop_last() =~= pre);
            let e = &self.entries[i];
            let ghost prev = out@;
            if !str_eq(e.0.as_str(), key) {
                out.push((e.0.clone(), e.1));
                proof {
                    assert(out@.drop_last() =~= prev);
                    assert forall|a: int, b: int| 0 <= a < b < out.len() implies out[a].0@ != out[b].0@ by {
                        if b == out.len() - 1 {
                            let x = choose|x: int| 0 <= x < i && s[x] == out[a];
                            assert(s[x].0@ != s[i as int].0@);
                        }
                    }
                    assert forall|t: int| 0 <= t < out.len() implies exists|x: int| 0 <= x < i + 1 && s[x] == #[trigger] out[t] by {
                        if t == out.len() - 1 {
                            assert(s[i as int].0 == out[t].0 && s[i as int].1 == out[t].1);
                            assert(s[i as int] == out[t]);
                        } else {
                            let x = choose|x: int| 0 <= x < i && s[x] == out[t];
                        }
                    }
                }
            }
            proof {
                assert(s.subrange(0, i + 1).last() == s[i as int]);
                if s[i as int].0@ == key@ {
                    assert(out@ == prev);
                    assert forall|k: Seq<char>| k != key@ implies seen(out@, k) == seen(s.subrange(0, i + 1), k) by {
                        assert(seen(prev, k) == seen(pre, k));
                    }
                } else {
                    assert(out@.drop_last() =~= prev);
                    assert(out@.last().0@ == s[i as int].0@ && out@.last().1 == s[i as int].1);
                    assert forall|k: Seq<char>| k != key@ implies seen(out@, k) == seen(s.subrange(0, i + 1), k) by {
                        assert(seen(prev, k) == seen(pre, k));
                    }
                }
            }
            i += 1;
        }
        assert(s.subrange(0, s.len() as int) =~= s);
        proof {
            lemma_seen_absent(out@, key@);
        }
        self.entries = out;
    }
}

/// Counts a failed spawn of the engine known by `key` (its id, else its
/// name) and returns the failures so far and whether the engine is now to
/// be disabled: at the failure limit, for an engine that has an id.
pub fn spawn_failed(failures: &mut KeyCounts, key: String, has_id: bool) -> (r: (u32, bool))
    requires
        old(failures).wf(),
    ensures
        final(failures).wf(),
        r.0 == bump(seen(old(failures).entries@, key@) as u32),
        seen(final(failures).entries@, key@) == r.0,
        forall|k: Seq<char>| k != key@ ==> seen(final(failures).entries@, k) == seen(old(failures).entries@, k),
        r.1 == (has_id && r.0 >= crate::schedule::ENGINE_SPAWN_FAILURE_LIMIT),
{
    let count = failures.bump(key);
    (count, has_id && count >= crate::schedule::ENGINE_SPAWN_FAILURE_LIMIT)
}

proof fn lemma_seen_absent(s: Seq<(String, u32)>, key: Seq<char>)
    requires
        forall|t: int| 0 <= t < s.len() ==> (#[trigger] s[t]).0@ != key,
    ensures
        seen(s, key) == 0,
    decreases s.len(),
{
    if s.len() > 0 {
        lemma_seen_absent(s.drop_last(), key);
    }
}

proof fn lemma_seen_at(s: Seq<(String, u32)>, i: int)
    requires
        0 <= i < s.len(),
        forall|a: int, b: int| 0 <= a < b < s.len() ==> s[a].0@ != s[b].0@,
    ensures
        seen(s, s[i].0@) == s[i].1,
    decreases s.len(),
{
    if i < s.len() - 1 {
        lemma_seen_at(s.drop_last(), i);
    }
}

proof fn lemma_seen_update(s: Seq<(String, u32)>, t: Seq<(String, u32)>, i: int, x: Seq<char>)
    requires
        0 <= i < s.len(),
        t.len() == s.len(),
        t[i].0@ == s[i].0@,
        x != s[i].0@,
        forall|a: int| 0 <= a < s.len() && a != i ==> t[a] == s[a],
    ensures
        seen(t, x) == seen(s, x),
    decreases s.len(),
{
    if s.len() > 0 {
        if i < s.len() - 1 {
            lemma_seen_update(s.drop_last(), t.drop_last(), i, x);
        } else {
            assert(s.drop_last() =~= t.drop_last());
        }
    }
}

/// A position seen three times, or a hundred half-moves without a capture or
/// pawn move, draws.
pub fn drawn_by_rule(repetitions: u32, halfmove_clock: u32) -> (r: bool)
    ensures
        r == (repetitions >= 3 || halfmove_clock >= 100),
{
    repetitions >= 3 || halfmove_clock >= 100
}

} // verus!
