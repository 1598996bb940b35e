use vstd::prelude::*;
use crate::sprt::GameResult;
use crate::text::str_eq;
use crate::types::{EngineConfig, ScheduledGame};

verus! {

/// Head-to-head counters of a tournament, from engine A's point of view.
#[derive(Clone, Debug)]
pub struct TournamentStats {
    pub wins: u32,
    pub losses: u32,
    pub draws: u32,
    pub total_games: u32,
    pub standings: Standings,
}

/// The standings table, best first.
#[derive(Clone, Debug)]
pub struct Standings {
    pub entries: Vec<StandingsEntry>,
}

/// The outcome for engine A of a game with result `r` ("1-0", "0-1" or
/// "1/2-1/2"); other texts are no result.
pub open spec fn outcome_spec(r: Seq<char>, is_white_engine_a: bool) -> Option<GameResult> {
    if r == "1-0"@ {
        Some(if is_white_engine_a { GameResult::Win } else { GameResult::Loss })
    } else if r == "0-1"@ {
        Some(if is_white_engine_a { GameResult::Loss } else { GameResult::Win })
    } else if r == "1/2-1/2"@ {
        Some(GameResult::Draw)
    } else {
        None
    }
}

pub fn outcome(r: &str, is_white_engine_a: bool) -> (o: Option<GameResult>)
    ensures
        o == outcome_spec(r@, is_white_engine_a),
{
    if str_eq(r, "1-0") {
        Some(if is_white_engine_a { GameResult::Win } else { GameResult::Loss })
    } else if str_eq(r, "0-1") {
        Some(if is_white_engine_a { GameResult::Loss } else { GameResult::Win })
    } else if str_eq(r, "1/2-1/2") {
        Some(GameResult::Draw)
    } else {
        None
    }
}

impl TournamentStats {
    pub open spec fn wf(&self) -> bool {
        self.wins + self.losses + self.draws == self.total_games
    }

    pub fn new() -> (r: TournamentStats)
        ensures
            r.wf(),
            r.wins == 0 && r.losses == 0 && r.draws == 0 && r.total_games == 0,
            r.standings.entries@.len() == 0,
    {
        TournamentStats { wins: 0, losses: 0, draws: 0, total_games: 0, standings: Standings { entries: Vec::new() } }
    }

    /// Counts a finished game with result `result` ("1-0", "0-1" or
    /// "1/2-1/2") for engine A, which played white when `is_white_engine_a`.
    /// Any other result text changes nothing.
    pub fn update(&mut self, result: &str, is_white_engine_a: bool)
        requires
            old(self).wf(),
            outcome_spec(result@, is_white_engine_a).is_some() ==> old(self).total_games < u32::MAX,
        ensures
            final(self).wf(),
            final(self).standings == old(self).standings,
            match outcome_spec(result@, is_white_engine_a) {
                None => final(self).wins == old(self).wins && final(self).draws == old(self).draws
                    && final(self).losses == old(self).losses && final(self).total_games == old(self).total_games,
                Some(o) => {
                    &&& final(self).total_games == old(self).total_games + 1
                    &&& final(self).wins == old(self).wins + if o == GameResult::Win { 1int } else { 0 }
                    &&& final(self).draws == old(self).draws + if o == GameResult::Draw { 1int } else { 0 }
                    &&& final(self).losses == old(self).losses + if o == GameResult::Loss { 1int } else { 0 }
                },
            },
    {
        match outcome(result, is_white_engine_a) {
            Some(GameResult::Win) => self.wins = self.wins + 1,
            Some(GameResult::Draw) => self.draws = self.draws + 1,
            Some(GameResult::Loss) => self.losses = self.losses + 1,
            None => return,
        }
        self.total_games = self.total_games + 1;
    }

    /// Replaces the standings table.
    pub fn update_standings(&mut self, entries: Vec<StandingsEntry>)
        ensures
            final(self).standings.entries == entries,
            final(self).wins == old(self).wins && final(self).draws == old(self).draws,
            final(self).losses == old(self).losses && final(self).total_games == old(self).total_games,
    {
        self.standings.entries = entries;
    }
}

/// The plain result behind a forfeit result (`"1-0 (forfeit)"` is
/// `"1-0"`); other texts stay as they are.
pub open spec fn base_result_spec(r: Seq<char>) -> Seq<char> {
    if r == "1-0 (forfeit)"@ {
        "1-0"@
    } else if r == "0-1 (forfeit)"@ {
        "0-1"@
    } else if r == "1/2-1/2 (forfeit)"@ {
        "1/2-1/2"@
    } else {
        r
    }
}

pub fn base_result(r: &str) -> (b: String)
    ensures
        b@ == base_result_spec(r@),
{
    if str_eq(r, "1-0 (forfeit)") {
        String::from_str("1-0")
    } else if str_eq(r, "0-1 (forfeit)") {
        String::from_str("0-1")
    } else if str_eq(r, "1/2-1/2 (forfeit)") {
        String::from_str("1/2-1/2")
    } else {
        String::from_str(r)
    }
}

/// The result a saved schedule entry counts with: a Finished or Skipped
/// game's result, forfeits as their plain result.
pub open spec fn counted_result(g: ScheduledGame) -> Option<Seq<char>> {
    if g.result.is_some() && (g.state@ == "Finished"@ || g.state@ == "Skipped"@) {
        Some(base_result_spec(g.result.unwrap()@))
    } else {
        None
    }
}

/// Wins, draws and losses of the engine named `a` over the counted games of
/// `games`, with `a` on the white side where it is the white player.
pub open spec fn replay(games: Seq<ScheduledGame>, a: Seq<char>) -> (nat, nat, nat)
    decreases games.len(),
{
    if games.len() == 0 {
        (0, 0, 0)
    } else {
        let t = replay(games.drop_last(), a);
        let g = games.last();
        match counted_result(g) {
            Some(r) => match outcome_spec(r, g.white_name@ == a) {
                Some(GameResult::Win) => (t.0 + 1, t.1, t.2),
                Some(GameResult::Draw) => (t.0, t.1 + 1, t.2),
                Some(GameResult::Loss) => (t.0, t.1, t.2 + 1),
                None => t,
            },
            None => t,
        }
    }
}

impl TournamentStats {
    /// The counters of a resumed tournament, rebuilt from the saved schedule
    /// for engine A (named `engine_a`).
    pub fn from_schedule(schedule: &Vec<ScheduledGame>, engine_a: &str) -> (r: TournamentStats)
        requires
            schedule.len() < u32::MAX,
        ensures
            r.wf(),
            r.wins == replay(schedule@, engine_a@).0,
            r.draws == replay(schedule@, engine_a@).1,
            r.losses == replay(schedule@, engine_a@).2,
            r.standings.entries@.len() == 0,
    {
        let mut stats = TournamentStats::new();
        let mut i: usize = 0;
        proof {
            reveal_strlit("Finished");
            reveal_strlit("Skipped");
        }
        while i < schedule.len()
            invariant
                i <= schedule.len() < u32::MAX,
                stats.wf(),
                stats.total_games <= i,
                stats.standings.entries@.len() == 0,
                (stats.wins as nat, stats.draws as nat, stats.losses as nat) == replay(schedule@.subrange(0, i as int), engine_a@),
            decreases schedule.len() - i,
        {
            let ghost pre = schedule@.subrange(0, i as int);
            assert(schedule@.subrange(0, i + 1).drop_last() =~= pre);
            let g = &schedule[i];
            assert(schedule@.subrange(0, i + 1).last() == *g);
            match &g.result {
                Some(res) => {
                    if str_eq(g.state.as_str(), "Finished") || str_eq(g.state.as_str(), "Skipped") {
                        let b = base_result(res.as_str());
                        let white_a = str_eq(g.white_name.as_str(), engine_a);
                        stats.update(b.as_str(), white_a);
                    }
                },
                None => {},
            }
            i += 1;
        }
        assert(schedule@.subrange(0, schedule.len() as int) =~= schedule@);
        stats
    }
}

/// The Elo difference where the score fraction `(wins + draws / 2) / total`
/// is 0 or 1: -1000 or +1000, with a zero error margin. `None` when there
/// are no games or the fraction lies strictly between 0 and 1, where the
/// logistic formula applies.
pub open spec fn elo_boundary_spec(wins: u32, draws: u32, total: u32) -> Option<i32> {
    if total == 0 {
        None
    } else if 2 * wins + draws == 0 {
        Some(-1000i32)
    } else if 2 * wins + draws >= 2 * total {
        Some(1000i32)
    } else {
        None
    }
}

pub fn elo_boundary(wins: u32, draws: u32, total: u32) -> (r: Option<i32>)
    ensures
        r == elo_boundary_spec(wins, draws, total),
{
    let score2: u64 = 2 * (wins as u64) + draws as u64;
    if total == 0 {
        None
    } else if score2 == 0 {
        Some(-1000)
    } else if score2 >= 2 * (total as u64) {
        Some(1000)
    } else {
        None
    }
}


/// One row of the standings table. Points are counted in half-points and
/// the Sonneborn-Berger score in quarter-points, so both stay exact.
#[derive(Clone, Debug)]
pub struct StandingsEntry {
    pub rank: u32,
    pub engine_name: String,
    pub engine_id: Option<String>,
    pub games_played: u32,
    pub half_points: u32,
    pub wins: u32,
    pub losses: u32,
    pub draws: u32,
    pub crashes: u32,
    pub sb_quarters: u64,
}

/// Half-points of white and black for a result text; the forfeit forms
/// count as the plain ones and any other text gives nothing to either side.
pub open spec fn half_points_spec(r: Seq<char>) -> (nat, nat) {
    if r == "1-0"@ || r == "1-0 (forfeit)"@ {
        (2, 0)
    } else if r == "0-1"@ || r == "0-1 (forfeit)"@ {
        (0, 2)
    } else if r == "1/2-1/2"@ || r == "1/2-1/2 (forfeit)"@ {
        (1, 1)
    } else {
        (0, 0)
    }
}

pub fn half_points(r: &str) -> (p: (u32, u32))
    ensures
        p.0 as nat == half_points_spec(r@).0 && p.1 as nat == half_points_spec(r@).1,
{
    if str_eq(r, "1-0") || str_eq(r, "1-0 (forfeit)") {
        (2, 0)
    } else if str_eq(r, "0-1") || str_eq(r, "0-1 (forfeit)") {
        (0, 2)
    } else if str_eq(r, "1/2-1/2") || str_eq(r, "1/2-1/2 (forfeit)") {
        (1, 1)
    } else {
        (0, 0)
    }
}

/// The engine names of `engines`, each once, in order of first appearance.
pub open spec fn names_spec(engines: Seq<EngineConfig>) -> Seq<Seq<char>>
    decreases engines.len(),
{
    if engines.len() == 0 {
        Seq::empty()
    } else {
        let prev = names_spec(engines.drop_last());
        if prev.contains(engines.last().name@) {
            prev
        } else {
            prev.push(engines.last().name@)
        }
    }
}

pub open spec fn opt_str(o: Option<String>) -> Option<Seq<char>> {
    match o {
        Some(s) => Some(s@),
        None => None,
    }
}

/// The id of the last engine named `name`.
pub open spec fn id_spec(engines: Seq<EngineConfig>, name: Seq<char>) -> Option<Seq<char>>
    decreases engines.len(),
{
    if engines.len() == 0 {
        None
    } else if engines.last().name@ == name {
        opt_str(engines.last().id)
    } else {
        id_spec(engines.drop_last(), name)
    }
}

/// A game counts for the standings when it has a result and both its
/// players are among the engines.
pub open spec fn counted(g: ScheduledGame, names: Seq<Seq<char>>) -> bool {
    g.result.is_some() && names.contains(g.white_name@) && names.contains(g.black_name@)
}

/// Games played, half-points, wins, draws and losses.
pub type Tally = (nat, nat, nat, nat, nat);

pub open spec fn add_side(t: Tally, pts: nat) -> Tally {
    (t.0 + 1, t.1 + pts, t.2 + if pts == 2 { 1nat } else { 0nat }, t.3 + if pts == 1 { 1nat } else { 0nat }, t.4 + if pts == 0 { 1nat } else { 0nat })
}

/// The tally of engine `name` over the counted games of `games`.
pub open spec fn tally(games: Seq<ScheduledGame>, names: Seq<Seq<char>>, name: Seq<char>) -> Tally
    decreases games.len(),
{
    if games.len() == 0 {
        (0, 0, 0, 0, 0)
    } else {
        let t = tally(games.drop_last(), names, name);
        let g = games.last();
        if counted(g, names) {
            let p = half_points_spec(g.result.unwrap()@);
            let t1 = if g.white_name@ == name { add_side(t, p.0) } else { t };
            if g.black_name@ == name { add_side(t1, p.1) } else { t1 }
        } else {
            t
        }
    }
}

/// Sonneborn-Berger score of `name` in quarter-points: over the counted
/// games of `games`, the half-points it took times the opponent's final
/// half-points over all of `all`.
pub open spec fn sb_spec(games: Seq<ScheduledGame>, all: Seq<ScheduledGame>, names: Seq<Seq<char>>, name: Seq<char>) -> nat
    decreases games.len(),
{
    if games.len() == 0 {
        0
    } else {
        let s = sb_spec(games.drop_last(), all, names, name);
        let g = games.last();
        if counted(g, names) {
            let p = half_points_spec(g.result.unwrap()@);
            let s1 = if g.white_name@ == name { s + p.0 * tally(all, names, g.black_name@).1 } else { s };
            if g.black_name@ == name { s1 + p.1 * tally(all, names, g.white_name@).1 } else { s1 }
        } else {
            s
        }
    }
}

/// `e` is the row of its engine for `schedule` and `engines`.
pub open spec fn entry_ok(e: StandingsEntry, schedule: Seq<ScheduledGame>, engines: Seq<EngineConfig>) -> bool {
    let names = names_spec(engines);
    let t = tally(schedule, names, e.engine_name@);
    &&& names.contains(e.engine_name@)
    &&& opt_str(e.engine_id) == id_spec(engines, e.engine_name@)
    &&& e.games_played == t.0
    &&& e.half_points == t.1
    &&& e.wins == t.2
    &&& e.draws == t.3
    &&& e.losses == t.4
    &&& e.crashes == 0
    &&& e.sb_quarters == sb_spec(schedule, schedule, names, e.engine_name@)
}

/// `a` ranks at least as high as `b`: more points, then a higher
/// Sonneborn-Berger score, then more wins.
pub open spec fn ranks_above(a: StandingsEntry, b: StandingsEntry) -> bool {
    a.half_points > b.half_points
        || (a.half_points == b.half_points && (a.sb_quarters > b.sb_quarters
            || (a.sb_quarters == b.sb_quarters && a.wins >= b.wins)))
}

fn ranks_above_exec(a: &StandingsEntry, b: &StandingsEntry) -> (r: bool)
    ensures
        r == ranks_above(*a, *b),
{
    a.half_points > b.half_points || (a.half_points == b.half_points && (a.sb_quarters > b.sb_quarters
        || (a.sb_quarters == b.sb_quarters && a.wins >= b.wins)))
}

fn position_of(names: &Vec<String>, name: &String) -> (r: Option<usize>)
    ensures
        match r {
            Some(k) => k < names.len() && names[k as int]@ == name@,
            None => forall|k: int| 0 <= k < names.len() ==> (#[trigger] names[k])@ != name@,
        },
{
    let mut k: usize = 0;
    while k < names.len()
        invariant
            k <= names.len(),
            forall|t: int| 0 <= t < k ==> (#[trigger] names[t])@ != name@,
        decreases names.len() - k,
    {
        if str_eq(names[k].as_str(), name.as_str()) {
            return Some(k);
        }
        k += 1;
    }
    None
}


proof fn lemma_names_distinct(engines: Seq<EngineConfig>)
    ensures
        names_spec(engines).no_duplicates(),
    decreases engines.len(),
{
    if engines.len() > 0 {
        lemma_names_distinct(engines.drop_last());
    }
}

/// The standings of `engines` after the games of `schedule`: one row per
/// engine name, counting each game that has a result and whose players are
/// both among the engines, sorted by points, then Sonneborn-Berger score,
/// then wins, all descending, and ranked 1, 2, ... in that order.
pub fn calculate_standings(schedule: &Vec<ScheduledGame>, engines: &Vec<EngineConfig>) -> (r: Vec<StandingsEntry>)
    requires
        schedule.len() <= 0x1000_0000,
        engines.len() < u32::MAX,
    ensures
        r.len() == names_spec(engines@).len(),
        forall|i: int| 0 <= i < r.len() ==> entry_ok(#[trigger] r[i], schedule@, engines@),
        forall|i: int, j: int| 0 <= i < j < r.len() ==> r[i].engine_name@ != r[j].engine_name@,
        forall|i: int, j: int| 0 <= i < j < r.len() ==> ranks_above(r[i], r[j]),
        forall|i: int| 0 <= i < r.len() ==> (#[trigger] r[i]).rank == i + 1,
{
    let ghost g = schedule@;
    // one row per engine name
    let mut names: Vec<String> = Vec::new();
    let mut entries: Vec<StandingsEntry> = Vec::new();
    let mut e: usize = 0;
    while e < engines.len()
        invariant
            e <= engines.len(),
            views_eq(names@, names_spec(engines@.subrange(0, e as int))),
            entries.len() == names.len(),
            forall|k: int| 0 <= k < entries.len() ==> {
                &&& (#[trigger] entries[k]).engine_name@ == names[k]@
                &&& opt_str(entries[k].engine_id) == id_spec(engines@.subrange(0, e as int), names[k]@)
                &&& entries[k].games_played == 0 && entries[k].half_points == 0 && entries[k].wins == 0
                &&& entries[k].draws == 0 && entries[k].losses == 0 && entries[k].crashes == 0 && entries[k].sb_quarters == 0
                &&& entries[k].rank == 0
            },
        decreases engines.len() - e,
    {
        let ghost pre = engines@.subrange(0, e as int);
        let ghost cur = engines@.subrange(0, e + 1);
        assert(cur.drop_last() =~= pre);
        assert(cur.last() == engines@[e as int]);
        let eng = &engines[e];
        match position_of(&names, &eng.name) {
            Some(k) => {
                let mut row = entries[k].clone_row();
                row.engine_id = clone_opt(&eng.id);
                entries.set(k, row);
                proof {
                    assert(names_spec(pre)[k as int] == names[k as int]@);
                    assert(names_spec(pre).contains(eng.name@));
                    assert forall|t: int| 0 <= t < entries.len() implies opt_str((#[trigger] entries[t]).engine_id) == id_spec(cur, names[t]@) by {
                        if t != k {
                            assert(names[t]@ != eng.name@) by {
                                lemma_names_distinct(pre);
                                assert(names_spec(pre)[t] == names[t]@);
                            }
                        }
                    }
                }
            },
            None => {
                proof {
                    assert forall|t: int| 0 <= t < names_spec(pre).len() implies names_spec(pre)[t] != eng.name@ by {
                        assert(names_spec(pre)[t] == names[t]@);
                    }
                }
                let ghost old_names = names@;
                names.push(eng.name.clone());
                proof {
                    assert forall|t: int| 0 <= t < old_names.len() implies id_spec(cur, (#[trigger] old_names[t])@) == id_spec(pre, old_names[t]@) by {
                        assert(names_spec(pre)[t] == old_names[t]@);
                    }
                }
                entries.push(StandingsEntry {
                    rank: 0,
                    engine_name: eng.name.clone(),
                    engine_id: clone_opt(&eng.id),
                    games_played: 0,
                    half_points: 0,
                    wins: 0,
                    losses: 0,
                    draws: 0,
                    crashes: 0,
                    sb_quarters: 0,
                });
            },
        }
        e += 1;
    }
    assert(engines@.subrange(0, engines.len() as int) =~= engines@);
    let ghost nm = names_spec(engines@);
    proof {
        lemma_names_distinct(engines@);
    }
    assert forall|a: int, b: int| 0 <= a < b < names.len() implies names[a]@ != names[b]@ by {
        assert(nm[a] == names[a]@ && nm[b] == names[b]@);
    }
    // points and results
    let mut i: usize = 0;
    while i < schedule.len()
        invariant
            i <= schedule.len() <= 0x1000_0000,
            g == schedule@,
            views_eq(names@, nm),
            nm == names_spec(engines@),
            entries.len() == names.len(),
            forall|a: int, b: int| 0 <= a < b < names.len() ==> names[a]@ != names[b]@,
            forall|k: int| 0 <= k < entries.len() ==> {
                let t = tally(g.subrange(0, i as int), nm, names[k]@);
                &&& (#[trigger] entries[k]).engine_name@ == names[k]@
                &&& opt_str(entries[k].engine_id) == id_spec(engines@, names[k]@)
                &&& entries[k].games_played == t.0 && entries[k].half_points == t.1 && entries[k].wins == t.2
                &&& entries[k].draws == t.3 && entries[k].losses == t.4 && entries[k].crashes == 0 && entries[k].sb_quarters == 0
                &&& entries[k].rank == 0
                &&& entries[k].games_played <= 2 * i
                &&& entries[k].half_points <= 2 * entries[k].games_played
                &&& entries[k].wins + entries[k].draws + entries[k].losses == entries[k].games_played
            },
        decreases schedule.len() - i,
    {
        let ghost pre = g.subrange(0, i as int);
        let ghost cur = g.subrange(0, i + 1);
        assert(cur.drop_last() =~= pre);
        let game = &schedule[i];
        assert(cur.last() == *game);
        let ghost before = entries@;
        match &game.result {
            Some(res) => {
                let wi = position_of(&names, &game.white_name);
                let bi = position_of(&names, &game.black_name);
                proof {
                    assert(nm.contains(game.white_name@) <==> wi.is_some()) by {
                        if let Some(k) = wi {
                            assert(nm[k as int] == names[k as int]@);
                        } else if nm.contains(game.white_name@) {
                            let t = choose|t: int| 0 <= t < nm.len() && nm[t] == game.white_name@;
                            assert(names[t]@ == nm[t]);
                        }
                    }
                    assert(nm.contains(game.black_name@) <==> bi.is_some()) by {
                        if let Some(k) = bi {
                            assert(nm[k as int] == names[k as int]@);
                        } else if nm.contains(game.black_name@) {
                            let t = choose|t: int| 0 <= t < nm.len() && nm[t] == game.black_name@;
                            assert(names[t]@ == nm[t]);
                        }
                    }
                }
                match (wi, bi) {
                    (Some(w), Some(b)) => {
                        let (wp, bp) = half_points(res.as_str());
                        let row = entries[w].with_side(wp);
                        entries.set(w, row);
                        let row = entries[b].with_side(bp);
                        entries.set(b, row);
                        proof {
                            assert forall|k: int| 0 <= k < entries.len() implies (#[trigger] entries[k]).games_played <= 2 * (i + 1) by {
                                assert(before[k].games_played <= 2 * i);
                            }
                        }
                    },
                    _ => {},
                }
            },
            None => {},
        }
        i += 1;
    }
    assert(g.subrange(0, g.len() as int) =~= g);
    // Sonneborn-Berger
    let n = schedule.len();
    let mut i: usize = 0;
    while i < n
        invariant
            i <= n,
            n == schedule.len() <= 0x1000_0000,
            g == schedule@,
            views_eq(names@, nm),
            nm == names_spec(engines@),
            entries.len() == names.len(),
            forall|a: int, b: int| 0 <= a < b < names.len() ==> names[a]@ != names[b]@,
            forall|k: int| 0 <= k < entries.len() ==> {
                let t = tally(g, nm, names[k]@);
                &&& (#[trigger] entries[k]).engine_name@ == names[k]@
                &&& opt_str(entries[k].engine_id) == id_spec(engines@, names[k]@)
                &&& entries[k].games_played == t.0 && entries[k].half_points == t.1 && entries[k].wins == t.2
                &&& entries[k].draws == t.3 && entries[k].losses == t.4 && entries[k].crashes == 0
                &&& entries[k].sb_quarters == sb_spec(g.subrange(0, i as int), g, nm, names[k]@)
                &&& entries[k].rank == 0
                &&& entries[k].games_played <= 2 * n
                &&& entries[k].half_points <= 2 * entries[k].games_played
                &&& entries[k].sb_quarters <= 16 * n * i
            },
        decreases n - i,
    {
        let ghost pre = g.subrange(0, i as int);
        let ghost cur = g.subrange(0, i + 1);
        assert(cur.drop_last() =~= pre);
        let game = &schedule[i];
        assert(cur.last() == *game);
        let ghost before = entries@;
        match &game.result {
            Some(res) => {
                let wi = position_of(&names, &game.white_name);
                let bi = position_of(&names, &game.black_name);
                proof {
                    assert(nm.contains(game.white_name@) <==> wi.is_some()) by {
                        if let Some(k) = wi {
                            assert(nm[k as int] == names[k as int]@);
                        } else if nm.contains(game.white_name@) {
                            let t = choose|t: int| 0 <= t < nm.len() && nm[t] == game.white_name@;
                            assert(names[t]@ == nm[t]);
                        }
                    }
                    assert(nm.contains(game.black_name@) <==> bi.is_some()) by {
                        if let Some(k) = bi {
                            assert(nm[k as int] == names[k as int]@);
                        } else if nm.contains(game.black_name@) {
                            let t = choose|t: int| 0 <= t < nm.len() && nm[t] == game.black_name@;
                            assert(names[t]@ == nm[t]);
                        }
                    }
                }
                match (wi, bi) {
                    (Some(w), Some(b)) => {
                        let (wp, bp) = half_points(res.as_str());
                        let black_points = entries[b].half_points as u64;
                        let white_points = entries[w].half_points as u64;
                        proof {
                            assert(wp as u64 * black_points <= 8 * n) by (nonlinear_arith)
                                requires wp <= 2, black_points <= 4 * n;
                            assert(bp as u64 * white_points <= 8 * n) by (nonlinear_arith)
                                requires bp <= 2, white_points <= 4 * n;
                            assert(16 * n * i + 16 * n == 16 * n * (i + 1)) by (nonlinear_arith);
                            assert(16 * n * (i + 1) <= 16 * 0x1000_0000 * 0x1000_0000) by (nonlinear_arith)
                                requires n <= 0x1000_0000, i + 1 <= n;
                        }
                        let mut row = entries[w].clone_row();
                        row.sb_quarters = row.sb_quarters + wp as u64 * black_points;
                        entries.set(w, row);
                        let mut row = entries[b].clone_row();
                        row.sb_quarters = row.sb_quarters + bp as u64 * white_points;
                        entries.set(b, row);
                        proof {
                            assert forall|k: int| 0 <= k < entries.len() implies (#[trigger] entries[k]).sb_quarters <= 16 * n * (i + 1) by {
                                assert(before[k].sb_quarters <= 16 * n * i);
                            }
                        }
                    },
                    _ => {
                        proof {
                            assert forall|k: int| 0 <= k < entries.len() implies (#[trigger] entries[k]).sb_quarters <= 16 * n * (i + 1) by {
                                assert(16 * n * i <= 16 * n * (i + 1)) by (nonlinear_arith);
                            }
                        }
                    },
                }
            },
            None => {
                proof {
                    assert forall|k: int| 0 <= k < entries.len() implies (#[trigger] entries[k]).sb_quarters <= 16 * n * (i + 1) by {
                        assert(16 * n * i <= 16 * n * (i + 1)) by (nonlinear_arith);
                    }
                }
            },
        }
        i += 1;
    }
    assert(g.subrange(0, n as int) =~= g);
    assert forall|k: int| 0 <= k < entries.len() implies entry_ok(#[trigger] entries[k], g, engines@) by {
        assert(nm[k] == names[k]@);
    }
    let sorted = sort_by_rank(entries);
    proof {
        lemma_names_len(engines@);
        assert forall|k: int| 0 <= k < sorted.len() implies entry_ok(#[trigger] sorted[k], g, engines@) by {
            let t = choose|t: int| 0 <= t < entries.len() && entries[t] == sorted[k];
            assert(entry_ok(entries[t], g, engines@));
        }
    }
    let r = assign_ranks(sorted, Ghost(g), Ghost(engines@));
    assert forall|i: int, j: int| 0 <= i < j < r.len() implies ranks_above(r[i], r[j]) by {
        assert(ranks_above(sorted[i], sorted[j]));
    }
    r
}

proof fn lemma_names_len(engines: Seq<EngineConfig>)
    ensures
        names_spec(engines).len() <= engines.len(),
    decreases engines.len(),
{
    if engines.len() > 0 {
        lemma_names_len(engines.drop_last());
    }
}

proof fn lemma_ranks_total(a: StandingsEntry, b: StandingsEntry)
    ensures
        ranks_above(a, b) || ranks_above(b, a),
{
}

proof fn lemma_ranks_trans(a: StandingsEntry, b: StandingsEntry, c: StandingsEntry)
    requires
        ranks_above(a, b),
        ranks_above(b, c),
    ensures
        ranks_above(a, c),
{
}

fn sort_by_rank(entries: Vec<StandingsEntry>) -> (r: Vec<StandingsEntry>)
    ensures
        r.len() == entries.len(),
        forall|i: int| 0 <= i < r.len() ==> entries@.contains(#[trigger] r[i]),
        (forall|a: int, b: int| 0 <= a < b < entries.len() ==> entries[a].engine_name@ != entries[b].engine_name@)
            ==> (forall|a: int, b: int| 0 <= a < b < r.len() ==> r[a].engine_name@ != r[b].engine_name@),
        forall|a: int, b: int| 0 <= a < b < r.len() ==> ranks_above(r[a], r[b]),
{
    let ghost orig = entries@;
    let ghost distinct = forall|a: int, b: int| 0 <= a < b < orig.len() ==> orig[a].engine_name@ != orig[b].engine_name@;
    let mut rest = entries;
    let mut sorted: Vec<StandingsEntry> = Vec::new();
    proof {
        assert forall|a: int, b: int| 0 <= a < rest.len() && 0 <= b < rest.len() && a != b && distinct implies rest[a].engine_name@ != rest[b].engine_name@ by {
            if a > b {
            }
        }
    }
    while rest.len() > 0
        invariant
            sorted.len() + rest.len() == orig.len(),
            forall|i: int| 0 <= i < sorted.len() ==> orig.contains(#[trigger] sorted[i]),
            forall|i: int| 0 <= i < rest.len() ==> orig.contains(#[trigger] rest[i]),
            distinct ==> forall|a: int, b: int| 0 <= a < rest.len() && 0 <= b < rest.len() && a != b ==> rest[a].engine_name@ != rest[b].engine_name@,
            distinct ==> forall|a: int, b: int| 0 <= a < b < sorted.len() ==> sorted[a].engine_name@ != sorted[b].engine_name@,
            distinct ==> forall|a: int, b: int| 0 <= a < sorted.len() && 0 <= b < rest.len() ==> sorted[a].engine_name@ != rest[b].engine_name@,
            forall|a: int, b: int| 0 <= a < b < sorted.len() ==> ranks_above(sorted[a], sorted[b]),
            forall|a: int, b: int| 0 <= a < sorted.len() && 0 <= b < rest.len() ==> ranks_above(sorted[a], rest[b]),
        decreases rest.len(),
    {
        let mut m: usize = 0;
        let mut j: usize = 1;
        while j < rest.len()
            invariant
                0 <= m < j <= rest.len(),
                forall|t: int| 0 <= t < j ==> ranks_above(rest[m as int], #[trigger] rest[t]),
            decreases rest.len() - j,
        {
            if !ranks_above_exec(&rest[m], &rest[j]) {
                proof {
                    lemma_ranks_total(rest[m as int], rest[j as int]);
                    assert forall|t: int| 0 <= t < j + 1 implies ranks_above(rest[j as int], #[trigger] rest[t]) by {
                        if t < j {
                            lemma_ranks_trans(rest[j as int], rest[m as int], rest[t]);
                        }
                    }
                }
                m = j;
            }
            j += 1;
        }
        let ghost old_rest = rest@;
        let ghost old_sorted = sorted@;
        let x = rest.remove(m);
        sorted.push(x);
        proof {
            assert forall|t: int| 0 <= t < rest.len() implies old_rest.contains(#[trigger] rest[t]) by {
                if t < m {
                    assert(rest[t] == old_rest[t]);
                } else {
                    assert(rest[t] == old_rest[t + 1]);
                }
            }
            assert forall|t: int| 0 <= t < rest.len() implies orig.contains(#[trigger] rest[t]) by {
                assert(old_rest.contains(rest[t]));
            }
            assert forall|t: int| 0 <= t < sorted.len() implies orig.contains(#[trigger] sorted[t]) by {
                if t < old_sorted.len() {
                    assert(sorted[t] == old_sorted[t]);
                }
            }
            assert forall|a: int, b: int| 0 <= a < sorted.len() && 0 <= b < rest.len() implies ranks_above(sorted[a], rest[b]) by {
                let b2 = if b < m { b } else { b + 1 };
                assert(rest[b] == old_rest[b2]);
                if a < old_sorted.len() {
                    assert(sorted[a] == old_sorted[a]);
                }
            }
            assert forall|a: int, b: int| 0 <= a < b < sorted.len() implies ranks_above(sorted[a], sorted[b]) by {
                assert(sorted[a] == old_sorted[a]);
                if b < old_sorted.len() {
                    assert(sorted[b] == old_sorted[b]);
                }
            }
            if distinct {
                assert forall|a: int, b: int| 0 <= a < rest.len() && 0 <= b < rest.len() && a != b implies rest[a].engine_name@ != rest[b].engine_name@ by {
                    let a2 = if a < m { a } else { a + 1 };
                    let b2 = if b < m { b } else { b + 1 };
                    assert(rest[a] == old_rest[a2]);
                    assert(rest[b] == old_rest[b2]);
                }
                assert forall|a: int, b: int| 0 <= a < b < sorted.len() implies sorted[a].engine_name@ != sorted[b].engine_name@ by {
                    assert(sorted[a] == old_sorted[a]);
                    if b < old_sorted.len() {
                        assert(sorted[b] == old_sorted[b]);
                    }
                }
                assert forall|a: int, b: int| 0 <= a < sorted.len() && 0 <= b < rest.len() implies sorted[a].engine_name@ != rest[b].engine_name@ by {
                    let b2 = if b < m { b } else { b + 1 };
                    assert(rest[b] == old_rest[b2]);
                    if a < old_sorted.len() {
                        assert(sorted[a] == old_sorted[a]);
                    }
                }
            }
        }
    }
    sorted
}

fn assign_ranks(rows: Vec<StandingsEntry>, g: Ghost<Seq<ScheduledGame>>, engines: Ghost<Seq<EngineConfig>>) -> (r: Vec<StandingsEntry>)
    requires
        rows.len() < u32::MAX,
        forall|i: int| 0 <= i < rows.len() ==> entry_ok(#[trigger] rows[i], g@, engines@),
    ensures
        r.len() == rows.len(),
        forall|i: int| 0 <= i < r.len() ==> entry_ok(#[trigger] r[i], g@, engines@),
        forall|i: int| 0 <= i < r.len() ==> r[i].engine_name@ == rows[i].engine_name@ && r[i].half_points == rows[i].half_points
            && r[i].sb_quarters == rows[i].sb_quarters && r[i].wins == rows[i].wins,
        forall|i: int| 0 <= i < r.len() ==> (#[trigger] r[i]).rank == i + 1,
{
    let mut out: Vec<StandingsEntry> = Vec::new();
    let mut k: usize = 0;
    while k < rows.len()
        invariant
            k <= rows.len() < u32::MAX,
            out.len() == k,
            forall|i: int| 0 <= i < rows.len() ==> entry_ok(#[trigger] rows[i], g@, engines@),
            forall|i: int| 0 <= i < k ==> entry_ok(#[trigger] out[i], g@, engines@),
            forall|i: int| 0 <= i < k ==> out[i].engine_name@ == rows[i].engine_name@ && out[i].half_points == rows[i].half_points
                && out[i].sb_quarters == rows[i].sb_quarters && out[i].wins == rows[i].wins,
            forall|i: int| 0 <= i < k ==> (#[trigger] out[i]).rank == i + 1,
        decreases rows.len() - k,
    {
        let mut row = rows[k].clone_row();
        row.rank = (k + 1) as u32;
        out.push(row);
        k += 1;
    }
    out
}

pub open spec fn views_eq(v: Seq<String>, s: Seq<Seq<char>>) -> bool {
    v.len() == s.len() && forall|k: int| 0 <= k < v.len() ==> (#[trigger] v[k])@ == s[k]
}

fn clone_opt(o: &Option<String>) -> (r: Option<String>)
    ensures
        opt_str(r) == opt_str(*o),
{
    match o {
        Some(s) => Some(s.clone()),
        None => None,
    }
}

impl StandingsEntry {
    /// A copy of the row.
    pub fn clone_row(&self) -> (r: StandingsEntry)
        ensures
            r.engine_name@ == self.engine_name@,
            opt_str(r.engine_id) == opt_str(self.engine_id),
            r.rank == self.rank && r.games_played == self.games_played && r.half_points == self.half_points,
            r.wins == self.wins && r.losses == self.losses && r.draws == self.draws,
            r.crashes == self.crashes && r.sb_quarters == self.sb_quarters,
    {
        StandingsEntry {
            rank: self.rank,
            engine_name: self.engine_name.clone(),
            engine_id: clone_opt(&self.engine_id),
            games_played: self.games_played,
            half_points: self.half_points,
            wins: self.wins,
            losses: self.losses,
            draws: self.draws,
            crashes: self.crashes,
            sb_quarters: self.sb_quarters,
        }
    }

    fn with_side(&self, pts: u32) -> (r: StandingsEntry)
        requires
            pts <= 2,
            self.games_played < 0x4000_0000,
            self.half_points <= 2 * self.games_played,
            self.wins + self.draws + self.losses == self.games_played,
        ensures
            (r.games_played as nat, r.half_points as nat, r.wins as nat, r.draws as nat, r.losses as nat)
                == add_side((self.games_played as nat, self.half_points as nat, self.wins as nat, self.draws as nat, self.losses as nat), pts as nat),
            r.engine_name@ == self.engine_name@,
            opt_str(r.engine_id) == opt_str(self.engine_id),
            r.rank == self.rank && r.crashes == self.crashes && r.sb_quarters == self.sb_quarters,
            r.half_points <= 2 * r.games_played,
            r.wins + r.draws + r.losses == r.games_played,
    {
        let mut r = self.clone_row();
        r.games_played = r.games_played + 1;
        r.half_points = r.half_points + pts;
        if pts == 2 {
            r.wins = r.wins + 1;
        } else if pts == 1 {
            r.draws = r.draws + 1;
        } else {
            r.losses = r.losses + 1;
        }
        r
    }
}

} // verus!
