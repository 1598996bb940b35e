use vstd::prelude::*;
use crate::board::{
    after_move, canonical_position, insufficient_material, insufficient_of, outcome_of, play_text, position_of,
    position_outcome, side_to_move, turn_of,
};
use crate::game::{
    bump, clock_after, clock_after_spec, drawn_by_rule, forfeit, initial_halfmove, initial_halfmove_spec, move_timeout_ms,
    move_timeout_spec, next_halfmove, other, repetition_key, repetition_key_spec, seen, win_for, Adjudicator,
    AdjudicationRules, KeyCounts, Outcome, Side,
};
use crate::protocol::{go_command, position_command};
use crate::text::decimal_spec;
use crate::types::TimeControl;

verus! {

/// The state of one game between two engines: the position (as its
/// canonical FEN), both clocks, the moves played, the adjudication streaks,
/// the positions seen and the half-move clock.
pub struct GameSession {
    pub position: String,
    pub chess960: bool,
    pub start_fen: String,
    pub white_ms: u64,
    pub black_ms: u64,
    pub inc_ms: u64,
    pub moves: Vec<String>,
    pub adjudicator: Adjudicator,
    pub rules: AdjudicationRules,
    pub repetitions: KeyCounts,
    pub halfmove: u32,
}

impl GameSession {
    pub open spec fn wf(&self) -> bool {
        self.repetitions.wf()
    }

    pub open spec fn clock_of(&self, side: Side) -> u64 {
        match side {
            Side::White => self.white_ms,
            Side::Black => self.black_ms,
        }
    }

    /// A game from `start_fen` with both clocks at the base time and the
    /// starting position seen once; `None` exactly when the FEN does not
    /// read or is not a legal position.
    pub fn start(start_fen: &str, chess960: bool, tc: &TimeControl, rules: AdjudicationRules) -> (r: Option<GameSession>)
        ensures
            r.is_some() == position_of(start_fen@, chess960).is_some(),
            r.is_some() ==> {
                let s = r.unwrap();
                let p = position_of(start_fen@, chess960).unwrap();
                &&& s.wf()
                &&& s.position@ == p
                &&& s.chess960 == chess960
                &&& s.start_fen@ == start_fen@
                &&& s.white_ms == tc.base_ms && s.black_ms == tc.base_ms && s.inc_ms == tc.inc_ms
                &&& s.moves@.len() == 0
                &&& s.adjudicator == (Adjudicator { resign_streak: 0, draw_streak: 0 })
                &&& s.rules == rules
                &&& s.halfmove == initial_halfmove_spec(start_fen@)
                &&& seen(s.repetitions.entries@, repetition_key_spec(p)) == 1
                &&& forall|k: Seq<char>| k != repetition_key_spec(p) ==> seen(s.repetitions.entries@, k) == 0
            },
    {
        let position = match canonical_position(start_fen, chess960) {
            Some(p) => p,
            None => return None,
        };
        let mut repetitions = KeyCounts::new();
        let key = repetition_key(position.as_str());
        repetitions.bump(key);
        Some(GameSession {
            position,
            chess960,
            start_fen: String::from_str(start_fen),
            white_ms: tc.base_ms,
            black_ms: tc.base_ms,
            inc_ms: tc.inc_ms,
            moves: Vec::new(),
            adjudicator: Adjudicator::new(),
            rules,
            repetitions,
            halfmove: initial_halfmove(start_fen),
        })
    }

    /// The side to move.
    pub fn mover(&self) -> (r: Side)
        ensures
            r == turn_of(self.position@, self.chess960),
    {
        side_to_move(self.position.as_str(), self.chess960)
    }

    /// The outcome the position itself decides before a move is asked for:
    /// a draw for insufficient material, else mate or stalemate.
    pub fn decided(&self) -> (r: Option<Outcome>)
        ensures
            r == if insufficient_of(self.position@, self.chess960) {
                Some(Outcome::Draw)
            } else {
                outcome_of(self.position@, self.chess960)
            },
    {
        if insufficient_material(self.position.as_str(), self.chess960) {
            Some(Outcome::Draw)
        } else {
            position_outcome(self.position.as_str(), self.chess960)
        }
    }

    /// The current position as a FEN.
    pub fn fen(&self) -> (r: String)
        ensures
            r@ == self.position@,
    {
        self.position.clone()
    }

    /// How long to wait for `side`'s best move.
    pub fn move_timeout(&self, side: Side) -> (r: u64)
        ensures
            r == move_timeout_spec(self.clock_of(side)),
    {
        match side {
            Side::White => move_timeout_ms(self.white_ms),
            Side::Black => move_timeout_ms(self.black_ms),
        }
    }

    /// The `position` command: the start position and every move so far.
    pub fn position_command(&self) -> (r: String)
        ensures
            r@ == "position fen "@ + self.start_fen@ + " moves"@ + crate::protocol::moves_suffix(crate::text::views(self.moves@)),
    {
        position_command(self.start_fen.as_str(), &self.moves)
    }

    /// The `go` command with both clocks and the increment.
    pub fn go_command(&self) -> (r: String)
        ensures
            r@ == "go wtime "@ + decimal_spec(self.white_ms as nat) + " btime "@ + decimal_spec(self.black_ms as nat)
                + " winc "@ + decimal_spec(self.inc_ms as nat) + " binc "@ + decimal_spec(self.inc_ms as nat),
    {
        go_command(self.white_ms, self.black_ms, self.inc_ms)
    }

    /// The mover sent no move in time, or its engine went away: its clock
    /// runs out and it forfeits.
    pub fn no_move(&mut self, mover: Side) -> (r: Outcome)
        ensures
            r == win_for(other(mover)),
            final(self).clock_of(mover) == 0,
            final(self).clock_of(other(mover)) == old(self).clock_of(other(mover)),
            final(self).position == old(self).position,
            final(self).moves == old(self).moves,
    {
        match mover {
            Side::White => self.white_ms = 0,
            Side::Black => self.black_ms = 0,
        }
        forfeit(mover)
    }

    /// Records the legal move `best`, which led to the position `next`
    /// (`zeroing` when it was a capture or a pawn move): the half-move clock
    /// and the count of the new position's repetition key follow, and a
    /// third occurrence or a hundredth half-move without a capture or pawn
    /// move draws.
    pub fn record_move(&mut self, best: &str, next: String, zeroing: bool) -> (r: Option<Outcome>)
        requires
            old(self).wf(),
        ensures
            final(self).wf(),
            final(self).position@ == next@,
            final(self).moves@ == old(self).moves@.push(final(self).moves@.last()),
            final(self).moves@.last()@ == best@,
            final(self).halfmove == if zeroing { 0 } else { bump(old(self).halfmove) },
            seen(final(self).repetitions.entries@, repetition_key_spec(next@)) == bump(seen(old(self).repetitions.entries@, repetition_key_spec(next@)) as u32),
            forall|k: Seq<char>| k != repetition_key_spec(next@) ==> seen(final(self).repetitions.entries@, k) == seen(old(self).repetitions.entries@, k),
            r == if seen(final(self).repetitions.entries@, repetition_key_spec(next@)) >= 3 || final(self).halfmove >= 100 {
                Some(Outcome::Draw)
            } else {
                None
            },
            final(self).white_ms == old(self).white_ms && final(self).black_ms == old(self).black_ms,
            final(self).inc_ms == old(self).inc_ms && final(self).chess960 == old(self).chess960,
            final(self).start_fen == old(self).start_fen && final(self).rules == old(self).rules,
            final(self).adjudicator == old(self).adjudicator,
    {
        self.moves.push(String::from_str(best));
        self.halfmove = next_halfmove(self.halfmove, zeroing);
        let key = repetition_key(next.as_str());
        let count = self.repetitions.bump(key);
        self.position = next;
        if drawn_by_rule(count, self.halfmove) {
            Some(Outcome::Draw)
        } else {
            None
        }
    }

    /// Handles `mover`'s best move `best`, sent `elapsed_ms` after it was
    /// asked for, with the last score its engine reported. The mover's clock
    /// loses the time taken (never below zero) and gains the increment. Then
    /// a score adjudication ends the game; else a move that is not legal in
    /// the position loses it for the mover; else the move is played, and a
    /// threefold repetition or a hundred half-moves without a capture or
    /// pawn move draws. `None` while the game goes on.
    pub fn best_move(&mut self, mover: Side, best: &str, score: Option<i64>, elapsed_ms: u64) -> (r: Option<Outcome>)
        requires
            old(self).wf(),
            old(self).clock_of(mover) + old(self).inc_ms <= u64::MAX,
        ensures
            final(self).wf(),
            final(self).clock_of(mover) == clock_after_spec(old(self).clock_of(mover), elapsed_ms, old(self).inc_ms),
            final(self).clock_of(other(mover)) == old(self).clock_of(other(mover)),
            final(self).inc_ms == old(self).inc_ms,
            final(self).chess960 == old(self).chess960,
            final(self).start_fen@ == old(self).start_fen@,
            final(self).rules == old(self).rules,
            final(self).adjudicator == old(self).adjudicator.next_spec(old(self).rules, score, (old(self).moves@.len() / 2 + 1) as u64),
            ({
                let verdict = final(self).adjudicator.verdict_spec(old(self).rules, mover, score);
                let played = after_move(old(self).position@, old(self).chess960, best@);
                if verdict.is_some() {
                    &&& r == verdict
                    &&& final(self).moves@ == old(self).moves@
                    &&& final(self).position@ == old(self).position@
                } else if played.is_none() {
                    &&& r == Some(win_for(other(mover)))
                    &&& final(self).moves@ == old(self).moves@
                    &&& final(self).position@ == old(self).position@
                } else {
                    let (next, zeroing) = played.unwrap();
                    let key = repetition_key_spec(next);
                    &&& final(self).position@ == next
                    &&& final(self).moves@.len() == old(self).moves@.len() + 1
                    &&& final(self).moves@.drop_last() == old(self).moves@
                    &&& final(self).moves@.last()@ == best@
                    &&& final(self).halfmove == if zeroing { 0 } else { bump(old(self).halfmove) }
                    &&& seen(final(self).repetitions.entries@, key) == bump(seen(old(self).repetitions.entries@, key) as u32)
                    &&& forall|k: Seq<char>| k != key ==> seen(final(self).repetitions.entries@, k) == seen(old(self).repetitions.entries@, k)
                    &&& r == if seen(final(self).repetitions.entries@, key) >= 3 || final(self).halfmove >= 100 {
                        Some(Outcome::Draw)
                    } else {
                        None
                    }
                }
            }),
    {
        match mover {
            Side::White => self.white_ms = clock_after(self.white_ms, elapsed_ms, self.inc_ms),
            Side::Black => self.black_ms = clock_after(self.black_ms, elapsed_ms, self.inc_ms),
        }
        let number = crate::game::move_number(self.moves.len());
        let rules = self.rules;
        let verdict = self.adjudicator.record(&rules, mover, score, number);
        if verdict.is_some() {
            return verdict;
        }
        let (next, zeroing) = match play_text(self.position.as_str(), self.chess960, best) {
            Some(p) => p,
            None => return Some(forfeit(mover)),
        };
        proof {
            assert(after_move(old(self).position@, old(self).chess960, best@) == Some((next@, zeroing)));
        }
        self.record_move(best, next, zeroing)
    }
}

} // verus!
