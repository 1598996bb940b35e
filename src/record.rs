use vstd::prelude::*;
use crate::text::{decimal, decimal_spec, views};
use crate::openings::trim_text;
use crate::text::str_eq;

verus! {

/// The move text of a game: each white move preceded by its move number,
/// every move followed by a space.
pub open spec fn movetext_spec(moves: Seq<Seq<char>>) -> Seq<char>
    decreases moves.len(),
{
    if moves.len() == 0 {
        Seq::empty()
    } else {
        let i = moves.len() - 1;
        movetext_spec(moves.drop_last()) + (if i % 2 == 0 { decimal_spec((i / 2 + 1) as nat) + ". "@ } else { Seq::empty() })
            + moves.last() + " "@
    }
}

/// The standard starting position.
pub open spec fn standard_fen_spec() -> Seq<char> {
    "rnbqkbnr/pppppppp/8/8/8/8/PPPPPPPP/RNBQKBNR w KQkq - 0 1"@
}

/// A tag line `[<name> "<value>"]`.
pub open spec fn tag_spec(name: Seq<char>, value: Seq<char>) -> Seq<char> {
    "["@ + name + " \""@ + value + "\"]\n"@
}

/// The record of one game in the tag-annotated format: Event, Site, Date,
/// Round, White, Black and Result tags, FEN and SetUp tags when the game did
/// not start from the standard position, a blank line, the move text and
/// the result.
pub open spec fn pgn_spec(moves: Seq<Seq<char>>, result: Seq<char>, white: Seq<char>, black: Seq<char>, start_fen: Seq<char>, event: Seq<char>, round: nat, date: Seq<char>) -> Seq<char> {
    tag_spec("Event"@, event) + tag_spec("Site"@, "CCRL GUI"@) + tag_spec("Date"@, date) + tag_spec("Round"@, decimal_spec(round))
        + tag_spec("White"@, white) + tag_spec("Black"@, black) + tag_spec("Result"@, result)
        + (if start_fen != standard_fen_spec() { tag_spec("FEN"@, start_fen) + tag_spec("SetUp"@, "1"@) } else { Seq::empty() })
        + "\n"@ + movetext_spec(moves) + result + "\n\n"@
}

fn push_tag(out: &mut String, name: &str, value: &str)
    ensures
        final(out)@ == old(out)@ + tag_spec(name@, value@),
{
    out.append("[");
    out.append(name);
    out.append(" \"");
    out.append(value);
    out.append("\"]\n");
    assert(final(out)@ =~= old(out)@ + tag_spec(name@, value@));
}

/// The record of a finished game; `date` is the day it is written, as
/// `YYYY.MM.DD`.
pub fn format_pgn(moves: &Vec<String>, result: &str, white_name: &str, black_name: &str, start_fen: &str, event: &str, round: usize, date: &str) -> (r: String)
    ensures
        r@ == pgn_spec(views(moves@), result@, white_name@, black_name@, start_fen@, event@, round as nat, date@),
{
    let mut out = String::new();
    push_tag(&mut out, "Event", event);
    push_tag(&mut out, "Site", "CCRL GUI");
    push_tag(&mut out, "Date", date);
    let round_text = decimal(round as u64);
    push_tag(&mut out, "Round", round_text.as_str());
    push_tag(&mut out, "White", white_name);
    push_tag(&mut out, "Black", black_name);
    push_tag(&mut out, "Result", result);
    let ghost head = out@;
    if !is_standard_start(start_fen) {
        push_tag(&mut out, "FEN", start_fen);
        push_tag(&mut out, "SetUp", "1");
    }
    out.append("\n");
    let ghost pre_moves = out@;
    let mut i: usize = 0;
    assert(views(moves@).subrange(0, 0) =~= Seq::<Seq<char>>::empty());
    while i < moves.len()
        invariant
            i <= moves.len(),
            out@ == pre_moves + movetext_spec(views(moves@).subrange(0, i as int)),
        decreases moves.len() - i,
    {
        let ghost before = out@;
        assert(views(moves@).subrange(0, i + 1).drop_last() =~= views(moves@).subrange(0, i as int));
        assert(views(moves@)[i as int] == moves@[i as int]@);
        if i % 2 == 0 {
            let num = decimal((i / 2 + 1) as u64);
            out.append(num.as_str());
            out.append(". ");
        }
        out.append(moves[i].as_str());
        out.append(" ");
        assert(out@ =~= pre_moves + movetext_spec(views(moves@).subrange(0, i + 1)));
        i += 1;
    }
    assert(views(moves@).subrange(0, moves.len() as int) =~= views(moves@));
    out.append(result);
    out.append("\n\n");
    assert(out@ =~= pgn_spec(views(moves@), result@, white_name@, black_name@, start_fen@, event@, round as nat, date@));
    out
}

/// Whether `fen` is the standard starting position.
fn is_standard_start(fen: &str) -> (r: bool)
    ensures
        r == (fen@ == "rnbqkbnr/pppppppp/8/8/8/8/PPPPPPPP/RNBQKBNR w KQkq - 0 1"@),
{
    str_eq(fen, "rnbqkbnr/pppppppp/8/8/8/8/PPPPPPPP/RNBQKBNR w KQkq - 0 1")
}

/// Where game records go: the configured path without surrounding
/// whitespace, or `tournament.pgn` when none is set or it is blank.
pub fn record_path(configured: &Option<String>) -> (r: String)
    ensures
        r@ == match configured {
            Some(p) => if crate::openings::trimmed_of(p@).len() > 0 { crate::openings::trimmed_of(p@) } else { "tournament.pgn"@ },
            None => "tournament.pgn"@,
        },
{
    match configured {
        Some(p) => {
            let t = trim_text(p.as_str());
            if t.unicode_len() > 0 {
                t
            } else {
                String::from_str("tournament.pgn")
            }
        },
        None => String::from_str("tournament.pgn"),
    }
}

} // verus!
