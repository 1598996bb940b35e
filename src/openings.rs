use vstd::prelude::*;
use crate::text::{str_eq, views};
use crate::protocol::starts_with;

verus! {

/// `s` without leading and trailing whitespace.
pub uninterp spec fn trimmed_of(s: Seq<char>) -> Seq<char>;

/// Relies on str::trim: `s` without leading and trailing whitespace.
#[verifier::external_body]
pub(crate) fn trim_text(s: &str) -> (r: String)
    ensures
        r@ == trimmed_of(s@),
{
    s.trim().to_string()
}

/// The text of `s` before its first `;` (all of it when there is none).
pub open spec fn before_semicolon(s: Seq<char>) -> Seq<char>
    decreases s.len(),
{
    if s.len() == 0 {
        s
    } else if s[0] == ';' {
        Seq::empty()
    } else {
        seq![s[0]] + before_semicolon(s.drop_first())
    }
}

/// A tag line `[FEN "<position>"]` of a game file.
pub open spec fn is_fen_tag(t: Seq<char>) -> bool {
    t.len() >= 8 && t.subrange(0, 6) == "[FEN \""@ && t.subrange(t.len() - 2, t.len() as int) == "\"]"@
}

/// The position a line of an opening file holds: in a tag-annotated game
/// file, the inside of a `[FEN "..."]` tag; else the trimmed text before the
/// first `;`. Blank lines hold none.
pub open spec fn opening_of_line(line: Seq<char>, is_pgn: bool) -> Seq<Seq<char>> {
    let t = trimmed_of(line);
    if t.len() == 0 {
        Seq::empty()
    } else if is_pgn {
        if is_fen_tag(t) { seq![t.subrange(6, t.len() - 2)] } else { Seq::empty() }
    } else {
        seq![trimmed_of(before_semicolon(t))]
    }
}

pub open spec fn openings_spec(lines: Seq<Seq<char>>, is_pgn: bool) -> Seq<Seq<char>>
    decreases lines.len(),
{
    if lines.len() == 0 {
        Seq::empty()
    } else {
        openings_spec(lines.drop_last(), is_pgn) + opening_of_line(lines.last(), is_pgn)
    }
}

/// Whether an opening file path names a tag-annotated game file.
pub fn is_pgn_path(path: &str) -> (r: bool)
    ensures
        r == (path@.len() >= 4 && path@.subrange(path@.len() - 4, path@.len() as int) == ".pgn"@),
{
    let n = path.unicode_len();
    if n < 4 {
        return false;
    }
    let tail = path.substring_char(n - 4, n);
    str_eq(tail, ".pgn")
}

fn text_before_semicolon(s: &str) -> (r: String)
    ensures
        r@ == before_semicolon(s@),
{
    let n = s.unicode_len();
    let mut i: usize = 0;
    while i < n && s.get_char(i) != ';'
        invariant
            n == s@.len(),
            i <= n,
            forall|t: int| 0 <= t < i ==> s@[t] != ';',
        decreases n - i,
    {
        i += 1;
    }
    proof {
        lemma_before_semicolon(s@, i as int);
    }
    String::from_str(s.substring_char(0, i))
}

proof fn lemma_before_semicolon(s: Seq<char>, i: int)
    requires
        0 <= i <= s.len(),
        forall|t: int| 0 <= t < i ==> s[t] != ';',
        i < s.len() ==> s[i] == ';',
    ensures
        before_semicolon(s) == s.subrange(0, i),
    decreases s.len(),
{
    if s.len() > 0 {
        if i == 0 {
        } else {
            lemma_before_semicolon(s.drop_first(), i - 1);
            assert(s.subrange(0, i) =~= seq![s[0]] + s.drop_first().subrange(0, i - 1));
        }
    }
}

/// The positions held by the lines of an opening file, in order.
pub fn parse_opening_lines(lines: &Vec<String>, is_pgn: bool) -> (r: Vec<String>)
    ensures
        views(r@) == openings_spec(views(lines@), is_pgn),
{
    let mut out: Vec<String> = Vec::new();
    let mut i: usize = 0;
    assert(views(lines@).subrange(0, 0) =~= Seq::<Seq<char>>::empty());
    assert(views(out@) =~= Seq::<Seq<char>>::empty());
    while i < lines.len()
        invariant
            i <= lines.len(),
            views(out@) == openings_spec(views(lines@).subrange(0, i as int), is_pgn),
        decreases lines.len() - i,
    {
        let ghost prev = views(out@);
        assert(views(lines@).subrange(0, i + 1).drop_last() =~= views(lines@).subrange(0, i as int));
        assert(views(lines@)[i as int] == lines@[i as int]@);
        proof {
            reveal_strlit("[FEN \"");
            reveal_strlit("\"]");
        }
        let t = trim_text(lines[i].as_str());
        let n = t.unicode_len();
        if n > 0 {
            if is_pgn {
                if n >= 8 && starts_with(t.as_str(), "[FEN \"") && str_eq(t.as_str().substring_char(n - 2, n), "\"]") {
                    out.push(String::from_str(t.as_str().substring_char(6, n - 2)));
                    assert(views(out@) =~= prev + seq![t@.subrange(6, n - 2)]);
                } else {
                    assert(views(out@) =~= prev + Seq::<Seq<char>>::empty());
                }
            } else {
                let head = text_before_semicolon(t.as_str());
                out.push(trim_text(head.as_str()));
                assert(views(out@) =~= prev + opening_of_line(lines@[i as int]@, is_pgn));
            }
        } else {
            assert(views(out@) =~= prev + Seq::<Seq<char>>::empty());
        }
        i += 1;
    }
    assert(views(lines@).subrange(0, lines.len() as int) =~= views(lines@));
    out
}

} // verus!
