use vstd::prelude::*;
use crate::game::{Outcome, Side};

verus! {

/// The canonical FEN of the position that `fen` describes under standard
/// (or, with `chess960`, randomized back-rank) castling rules; `None` when
/// `fen` does not read or is not a legal position.
pub uninterp spec fn position_of(fen: Seq<char>, chess960: bool) -> Option<Seq<char>>;

/// The canonical FEN after the move `mv` (coordinate notation) in the
/// position `fen`, and whether that move was a capture or a pawn move;
/// `None` when the position does not read or `mv` is not a legal move there.
pub uninterp spec fn after_move(fen: Seq<char>, chess960: bool, mv: Seq<char>) -> Option<(Seq<char>, bool)>;

/// The side to move in `fen` (White when `fen` does not read).
pub uninterp spec fn turn_of(fen: Seq<char>, chess960: bool) -> Side;

/// Whether neither side can still mate in `fen` (false when `fen` does not
/// read).
pub uninterp spec fn insufficient_of(fen: Seq<char>, chess960: bool) -> bool;

/// How the position `fen` decides the game (mate, stalemate, insufficient
/// material); `None` while it goes on or when `fen` does not read.
pub uninterp spec fn outcome_of(fen: Seq<char>, chess960: bool) -> Option<Outcome>;

pub open spec fn opt_view(o: Option<String>) -> Option<Seq<char>> {
    match o {
        Some(s) => Some(s@),
        None => None,
    }
}

/// Relies on shakmaty's Fen::from_ascii, Fen::into_position and
/// Fen::from_position: reads a FEN into a legal position and writes it back.
#[verifier::external_body]
pub(crate) fn canonical_position(fen: &str, chess960: bool) -> (r: Option<String>)
    ensures
        opt_view(r) == position_of(fen@, chess960),
{
    let mode = if chess960 { shakmaty::CastlingMode::Chess960 } else { shakmaty::CastlingMode::Standard };
    let pos: shakmaty::Chess = shakmaty::fen::Fen::from_ascii(fen.as_bytes()).ok()?.into_position(mode).ok()?;
    Some(shakmaty::fen::Fen::from_position(pos, shakmaty::EnPassantMode::Legal).to_string())
}

/// Relies on shakmaty's `FromStr` for Uci, Uci::to_move (which accepts only
/// legal moves), Move::is_zeroing and Position::play_unchecked, which is
/// given only the legal move that to_move returned.
#[verifier::external_body]
pub(crate) fn play_text(fen: &str, chess960: bool, mv: &str) -> (r: Option<(String, bool)>)
    ensures
        match r {
            Some((f, z)) => after_move(fen@, chess960, mv@) == Some((f@, z)),
            None => after_move(fen@, chess960, mv@).is_none(),
        },
{
    let mode = if chess960 { shakmaty::CastlingMode::Chess960 } else { shakmaty::CastlingMode::Standard };
    let mut pos: shakmaty::Chess = shakmaty::fen::Fen::from_ascii(fen.as_bytes()).ok()?.into_position(mode).ok()?;
    let m = mv.parse::<shakmaty::uci::Uci>().ok()?.to_move(&pos).ok()?;
    shakmaty::Position::play_unchecked(&mut pos, &m);
    Some((shakmaty::fen::Fen::from_position(pos, shakmaty::EnPassantMode::Legal).to_string(), m.is_zeroing()))
}

/// Relies on shakmaty's Position::turn: the side to move.
#[verifier::external_body]
pub(crate) fn side_to_move(fen: &str, chess960: bool) -> (r: Side)
    ensures
        r == turn_of(fen@, chess960),
{
    let mode = if chess960 { shakmaty::CastlingMode::Chess960 } else { shakmaty::CastlingMode::Standard };
    let setup = match shakmaty::fen::Fen::from_ascii(fen.as_bytes()) {
        Ok(f) => f,
        Err(_) => return Side::White,
    };
    let pos: shakmaty::Chess = match setup.into_position(mode) {
        Ok(p) => p,
        Err(_) => return Side::White,
    };
    match shakmaty::Position::turn(&pos) {
        shakmaty::Color::White => Side::White,
        shakmaty::Color::Black => Side::Black,
    }
}

/// Relies on shakmaty's Position::is_insufficient_material: neither side
/// can still mate.
#[verifier::external_body]
pub(crate) fn insufficient_material(fen: &str, chess960: bool) -> (r: bool)
    ensures
        r == insufficient_of(fen@, chess960),
{
    let mode = if chess960 { shakmaty::CastlingMode::Chess960 } else { shakmaty::CastlingMode::Standard };
    let setup = match shakmaty::fen::Fen::from_ascii(fen.as_bytes()) {
        Ok(f) => f,
        Err(_) => return false,
    };
    let pos: shakmaty::Chess = match setup.into_position(mode) {
        Ok(p) => p,
        Err(_) => return false,
    };
    shakmaty::Position::is_insufficient_material(&pos)
}

/// Relies on shakmaty's Position::outcome: mate, stalemate or insufficient
/// material, `None` while the game goes on.
#[verifier::external_body]
pub(crate) fn position_outcome(fen: &str, chess960: bool) -> (r: Option<Outcome>)
    ensures
        r == outcome_of(fen@, chess960),
{
    let mode = if chess960 { shakmaty::CastlingMode::Chess960 } else { shakmaty::CastlingMode::Standard };
    let setup = match shakmaty::fen::Fen::from_ascii(fen.as_bytes()) {
        Ok(f) => f,
        Err(_) => return None,
    };
    let pos: shakmaty::Chess = match setup.into_position(mode) {
        Ok(p) => p,
        Err(_) => return None,
    };
    match shakmaty::Position::outcome(&pos) {
        Some(shakmaty::Outcome::Decisive { winner: shakmaty::Color::White }) => Some(Outcome::WhiteWins),
        Some(shakmaty::Outcome::Decisive { winner: shakmaty::Color::Black }) => Some(Outcome::BlackWins),
        Some(shakmaty::Outcome::Draw) => Some(Outcome::Draw),
        None => None,
    }
}

} // verus!
