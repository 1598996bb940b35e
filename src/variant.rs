use vstd::prelude::*;
use crate::text::{split_words, str_eq, string_from_chars, words_of};

verus! {

/// Squares (files 0..8) of the pieces of a randomized back rank.
#[derive(Clone, Copy, Debug, PartialEq, Eq, Structural)]
pub struct BackRank {
    pub dark_bishop: usize,
    pub light_bishop: usize,
    pub queen: usize,
    pub knight1: usize,
    pub knight2: usize,
    pub rook1: usize,
    pub king: usize,
    pub rook2: usize,
}

impl BackRank {
    pub open spec fn squares(self) -> Seq<usize> {
        seq![self.dark_bishop, self.light_bishop, self.queen, self.knight1, self.knight2, self.rook1, self.king, self.rook2]
    }

    /// A legal arrangement: eight different files, bishops on squares of
    /// opposite colors, the king between its two rooks.
    pub open spec fn legal(self) -> bool {
        &&& forall|i: int| 0 <= i < 8 ==> #[trigger] self.squares()[i] < 8
        &&& forall|i: int, j: int| 0 <= i < j < 8 ==> self.squares()[i] != self.squares()[j]
        &&& self.dark_bishop % 2 != self.light_bishop % 2
        &&& self.rook1 < self.king < self.rook2
    }

    /// The piece letter (uppercase) on file `f`.
    pub open spec fn piece_at(self, f: usize) -> char {
        if f == self.dark_bishop || f == self.light_bishop {
            'B'
        } else if f == self.queen {
            'Q'
        } else if f == self.knight1 || f == self.knight2 {
            'N'
        } else if f == self.king {
            'K'
        } else {
            'R'
        }
    }

    pub fn piece(&self, f: usize) -> (c: char)
        ensures
            c == self.piece_at(f),
    {
        if f == self.dark_bishop || f == self.light_bishop {
            'B'
        } else if f == self.queen {
            'Q'
        } else if f == self.knight1 || f == self.knight2 {
            'N'
        } else if f == self.king {
            'K'
        } else {
            'R'
        }
    }
}

/// Places the pieces of a randomized back rank from random draws: the dark
/// bishop on file `2 * dark`, the light one on `2 * light + 1`; the six
/// files left, in ascending order, are taken in the order `order` (a
/// shuffle of 0..6): the first three get the queen and the knights, and the
/// last three, sorted, get rook, king, rook.
#[verifier::rlimit(80)]
pub fn random_back_rank(dark: usize, light: usize, order: &Vec<usize>) -> (r: BackRank)
    requires
        dark < 4,
        light < 4,
        order.len() == 6,
        forall|i: int| 0 <= i < 6 ==> #[trigger] order[i] < 6,
        forall|i: int, j: int| 0 <= i < j < 6 ==> order[i] != order[j],
    ensures
        r.legal(),
        r.dark_bishop == 2 * dark,
        r.light_bishop == 2 * light + 1,
        r.queen == other_file((2 * dark) as usize, (2 * light + 1) as usize, order[0]),
        r.knight1 == other_file((2 * dark) as usize, (2 * light + 1) as usize, order[1]),
        r.knight2 == other_file((2 * dark) as usize, (2 * light + 1) as usize, order[2]),
        ({
            let last = seq![other_file((2 * dark) as usize, (2 * light + 1) as usize, order[3]), other_file((2 * dark) as usize, (2 * light + 1) as usize, order[4]),
                other_file((2 * dark) as usize, (2 * light + 1) as usize, order[5])];
            last.contains(r.rook1) && last.contains(r.king) && last.contains(r.rook2)
        }),
{
    let b1 = 2 * dark;
    let b2 = 2 * light + 1;
    let empty = remaining_files(b1, b2);
    let s0 = empty[order[0]];
    let s1 = empty[order[1]];
    let s2 = empty[order[2]];
    let s3 = empty[order[3]];
    let s4 = empty[order[4]];
    let s5 = empty[order[5]];
    assert(s0 == other_file(b1, b2, order[0]) && s1 == other_file(b1, b2, order[1]) && s2 == other_file(b1, b2, order[2]));
    assert(s3 == other_file(b1, b2, order[3]) && s4 == other_file(b1, b2, order[4]) && s5 == other_file(b1, b2, order[5]));
    proof {
        assert forall|i: int, j: int| 0 <= i < 6 && 0 <= j < 6 && i != j implies empty[order[i] as int] != empty[order[j] as int] by {
            if i < j {
                assert(order[i] != order[j]);
            } else {
                assert(order[j] != order[i]);
            }
            let a = order[i] as int;
            let b = order[j] as int;
            if a < b {
                assert(empty[a] < empty[b]);
            } else {
                assert(empty[b] < empty[a]);
            }
        }
        assert(s0 != s1 && s0 != s2 && s0 != s3 && s0 != s4 && s0 != s5);
        assert(s1 != s2 && s1 != s3 && s1 != s4 && s1 != s5);
        assert(s2 != s3 && s2 != s4 && s2 != s5);
        assert(s3 != s4 && s3 != s5 && s4 != s5);
        assert(empty[order[0] as int] < 8 && empty[order[1] as int] < 8 && empty[order[2] as int] < 8);
        assert(empty[order[3] as int] < 8 && empty[order[4] as int] < 8 && empty[order[5] as int] < 8);
    }
    let (r1, k, r2) = sort3(s3, s4, s5);
    let r = BackRank {
        dark_bishop: b1,
        light_bishop: b2,
        queen: s0,
        knight1: s1,
        knight2: s2,
        rook1: r1,
        king: k,
        rook2: r2,
    };
    assert(r.squares() =~= seq![b1, b2, s0, s1, s2, r1, k, r2]);
    assert(seq![s3, s4, s5].contains(r1) && seq![s3, s4, s5].contains(k) && seq![s3, s4, s5].contains(r2)) by {
        if r1 == s3 { assert(seq![s3, s4, s5][0] == r1); } else if r1 == s4 { assert(seq![s3, s4, s5][1] == r1); } else { assert(seq![s3, s4, s5][2] == r1); }
        if k == s3 { assert(seq![s3, s4, s5][0] == k); } else if k == s4 { assert(seq![s3, s4, s5][1] == k); } else { assert(seq![s3, s4, s5][2] == k); }
        if r2 == s3 { assert(seq![s3, s4, s5][0] == r2); } else if r2 == s4 { assert(seq![s3, s4, s5][1] == r2); } else { assert(seq![s3, s4, s5][2] == r2); }
    }
    r
}

/// The `i`-th of the files 0..8 other than `b1` and `b2`, in ascending
/// order.
pub open spec fn other_file(b1: usize, b2: usize, i: usize) -> usize {
    let lo = if b1 < b2 { b1 } else { b2 };
    let hi = if b1 < b2 { b2 } else { b1 };
    if i < lo {
        i
    } else if i + 1 < hi {
        (i + 1) as usize
    } else {
        (i + 2) as usize
    }
}

/// The six files other than `b1` and `b2`, in ascending order.
fn remaining_files(b1: usize, b2: usize) -> (r: Vec<usize>)
    requires
        b1 < 8 && b2 < 8 && b1 % 2 == 0 && b2 % 2 == 1,
    ensures
        r.len() == 6,
        forall|i: int| 0 <= i < r.len() ==> #[trigger] r[i] < 8 && r[i] != b1 && r[i] != b2,
        forall|i: int| 0 <= i < r.len() ==> #[trigger] r[i] == other_file(b1, b2, i as usize),
        forall|i: int, j: int| 0 <= i < j < r.len() ==> r[i] < r[j],
{
    let mut empty: Vec<usize> = Vec::new();
    let mut f: usize = 0;
    while f < 8
        invariant
            f <= 8,
            b1 < 8 && b2 < 8 && b1 % 2 == 0 && b2 % 2 == 1,
            empty.len() == f - (if b1 < f { 1int } else { 0 }) - (if b2 < f { 1int } else { 0 }),
            forall|i: int| 0 <= i < empty.len() ==> #[trigger] empty[i] < f && empty[i] != b1 && empty[i] != b2,
            forall|i: int| 0 <= i < empty.len() ==> #[trigger] empty[i] == other_file(b1, b2, i as usize),
            forall|i: int, j: int| 0 <= i < j < empty.len() ==> empty[i] < empty[j],
        decreases 8 - f,
    {
        if f != b1 && f != b2 {
            empty.push(f);
        }
        f += 1;
    }
    empty
}

fn sort3(a: usize, b: usize, c: usize) -> (r: (usize, usize, usize))
    requires
        a != b && a != c && b != c,
    ensures
        r.0 < r.1 < r.2,
        (r.0 == a || r.0 == b || r.0 == c) && (r.1 == a || r.1 == b || r.1 == c) && (r.2 == a || r.2 == b || r.2 == c),
{
    if a < b {
        if b < c { (a, b, c) } else if a < c { (a, c, b) } else { (c, a, b) }
    } else {
        if a < c { (b, a, c) } else if b < c { (b, c, a) } else { (c, b, a) }
    }
}

/// Lowercase of an uppercase piece letter.
pub open spec fn lower_piece(c: char) -> char {
    if c == 'B' { 'b' } else if c == 'Q' { 'q' } else if c == 'N' { 'n' } else if c == 'K' { 'k' } else { 'r' }
}

fn lower(c: char) -> (r: char)
    ensures
        r == lower_piece(c),
{
    if c == 'B' { 'b' } else if c == 'Q' { 'q' } else if c == 'N' { 'n' } else if c == 'K' { 'k' } else { 'r' }
}

pub open spec fn file_letter(f: usize, upper: bool) -> char {
    let lo = seq!['a', 'b', 'c', 'd', 'e', 'f', 'g', 'h'];
    let up = seq!['A', 'B', 'C', 'D', 'E', 'F', 'G', 'H'];
    if upper { up[f as int] } else { lo[f as int] }
}

fn file_char(f: usize, upper: bool) -> (c: char)
    requires
        f < 8,
    ensures
        c == file_letter(f, upper),
{
    let lo = ['a', 'b', 'c', 'd', 'e', 'f', 'g', 'h'];
    let up = ['A', 'B', 'C', 'D', 'E', 'F', 'G', 'H'];
    if upper { up[f] } else { lo[f] }
}

/// The FEN of the starting position with back rank `r`: black's pieces on
/// the eighth rank, white's mirrored on the first, white to move, castling
/// rights named by the rooks' files (king side first).
pub open spec fn back_rank_fen_spec(r: BackRank) -> Seq<char> {
    Seq::new(8, |f: int| lower_piece(r.piece_at(f as usize)))
        + "/pppppppp/8/8/8/8/PPPPPPPP/"@
        + Seq::new(8, |f: int| r.piece_at(f as usize))
        + " w "@
        + seq![file_letter(r.rook2, true), file_letter(r.rook1, true), file_letter(r.rook2, false), file_letter(r.rook1, false)]
        + " - 0 1"@
}

pub fn back_rank_fen(r: &BackRank) -> (s: String)
    requires
        r.legal(),
    ensures
        s@ == back_rank_fen_spec(*r),
{
    let mut black: Vec<char> = Vec::new();
    let mut white: Vec<char> = Vec::new();
    let mut f: usize = 0;
    while f < 8
        invariant
            f <= 8,
            black@ =~= Seq::new(f as nat, |i: int| lower_piece(r.piece_at(i as usize))),
            white@ =~= Seq::new(f as nat, |i: int| r.piece_at(i as usize)),
        decreases 8 - f,
    {
        let c = r.piece(f);
        white.push(c);
        black.push(lower(c));
        f += 1;
    }
    assert(r.squares()[5] == r.rook1 && r.squares()[7] == r.rook2);
    let castling = vec![file_char(r.rook2, true), file_char(r.rook1, true), file_char(r.rook2, false), file_char(r.rook1, false)];
    let mut out = string_from_chars(&black);
    out.append("/pppppppp/8/8/8/8/PPPPPPPP/");
    out.append(string_from_chars(&white).as_str());
    out.append(" w ");
    out.append(string_from_chars(&castling).as_str());
    out.append(" - 0 1");
    out
}

/// Whether `variant` names the randomized back-rank variant.
pub fn is_random_variant(variant: &str) -> (r: bool)
    ensures
        r == (variant@ == "chess960"@),
{
    str_eq(variant, "chess960")
}

/// The opening of game `ordinal` of a pairing: from the loaded list when
/// there is one (both colors of a swapped pair share it), else the
/// configured position when it holds more than whitespace, else `generated`.
pub open spec fn opening_spec(openings: Seq<Seq<char>>, swap_sides: bool, ordinal: nat, configured: Option<Seq<char>>, generated: Seq<char>) -> Seq<char> {
    if openings.len() > 0 {
        openings[((if swap_sides { ordinal / 2 } else { ordinal }) % openings.len()) as int]
    } else {
        match configured {
            Some(f) => if words_of(f).len() > 0 { f } else { generated },
            None => generated,
        }
    }
}

pub fn choose_opening(openings: &Vec<String>, swap_sides: bool, ordinal: usize, configured: &Option<String>, generated: String) -> (r: String)
    ensures
        r@ == opening_spec(crate::text::views(openings@), swap_sides, ordinal as nat, crate::stats::opt_str(*configured), generated@),
{
    if openings.len() > 0 {
        let idx = if swap_sides { ordinal / 2 } else { ordinal };
        let r = openings[idx % openings.len()].clone();
        assert(crate::text::views(openings@)[(idx % openings.len()) as int] == openings@[(idx % openings.len()) as int]@);
        r
    } else {
        match configured {
            Some(f) => {
                if split_words(f.as_str()).len() > 0 {
                    f.clone()
                } else {
                    generated
                }
            },
            None => generated,
        }
    }
}

} // verus!
