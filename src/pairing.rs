use vstd::prelude::*;
use crate::types::TournamentMode;

verus! {

/// The round-robin pairs of `n` engines, in lexicographic order.
pub open spec fn round_robin_pairs(n: nat) -> Seq<(usize, usize)>
{
    round_robin_rows(n, 0)
}

/// The round-robin pairs whose first index is at least `i`.
pub open spec fn round_robin_rows(n: nat, i: nat) -> Seq<(usize, usize)>
    decreases n - i,
{
    if i >= n {
        Seq::empty()
    } else {
        Seq::new((n - i - 1) as nat, |k: int| (i as usize, (i + 1 + k) as usize)) + round_robin_rows(n, i + 1)
    }
}

/// The pairs of engine indices that a tournament of `n` engines plays.
pub open spec fn pairings_spec(mode: TournamentMode, n: nat) -> Seq<(usize, usize)> {
    match mode {
        TournamentMode::Match => if n >= 2 { seq![(0usize, 1usize)] } else { Seq::empty() },
        TournamentMode::Gauntlet => Seq::new(if n >= 2 { (n - 1) as nat } else { 0 }, |k: int| (0usize, (k + 1) as usize)),
        TournamentMode::RoundRobin => round_robin_pairs(n),
    }
}

/// Match: (0, 1). Gauntlet: (0, i) for each later engine. Round-robin:
/// every (i, j) with i < j, in lexicographic order.
pub fn generate_pairings(mode: TournamentMode, n: usize) -> (r: Vec<(usize, usize)>)
    ensures
        r@ == pairings_spec(mode, n as nat),
{
    let mut pairings: Vec<(usize, usize)> = Vec::new();
    match mode {
        TournamentMode::Match => {
            if n >= 2 {
                pairings.push((0, 1));
            }
            assert(pairings@ =~= pairings_spec(mode, n as nat));
        },
        TournamentMode::Gauntlet => {
            if n >= 2 {
                let mut i: usize = 1;
                while i < n
                    invariant
                        1 <= i <= n,
                        pairings@ =~= Seq::new((i - 1) as nat, |k: int| (0usize, (k + 1) as usize)),
                    decreases n - i,
                {
                    pairings.push((0, i));
                    i += 1;
                }
            }
            assert(pairings@ =~= pairings_spec(mode, n as nat));
        },
        TournamentMode::RoundRobin => {
            let mut i: usize = 0;
            while i < n
                invariant
                    i <= n,
                    pairings@ + round_robin_rows(n as nat, i as nat) =~= round_robin_pairs(n as nat),
                decreases n - i,
            {
                let ghost before = pairings@;
                let mut j: usize = i + 1;
                while j < n
                    invariant
                        i < n,
                        i + 1 <= j <= n,
                        pairings@ =~= before + Seq::new((j - i - 1) as nat, |k: int| (i as usize, (i + 1 + k) as usize)),
                    decreases n - j,
                {
                    pairings.push((i, j));
                    j += 1;
                }
                assert(round_robin_rows(n as nat, i as nat) =~= Seq::new((n - i - 1) as nat, |k: int| (i as usize, (i + 1 + k) as usize)) + round_robin_rows(n as nat, (i + 1) as nat));
                i += 1;
            }
            assert(round_robin_rows(n as nat, n as nat) =~= Seq::empty());
        },
    }
    pairings
}

} // verus!
