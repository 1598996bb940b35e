use vstd::prelude::*;

verus! {

/// The whitespace-separated words of `s`, in order.
pub uninterp spec fn words_of(s: Seq<char>) -> Seq<Seq<char>>;

/// Relies on str::split_whitespace: the words of `s`, in order.
#[verifier::external_body]
pub(crate) fn split_words(s: &str) -> (r: Vec<String>)
    ensures
        views(r@) == words_of(s@),
{
    s.split_whitespace().map(|w| w.to_string()).collect()
}

/// Relies on std's `FromIterator<char>` for `String`: the string of the
/// characters of `v`, in order.
#[verifier::external_body]
pub(crate) fn string_from_chars(v: &Vec<char>) -> (r: String)
    ensures
        r@ == v@,
{
    v.iter().collect()
}

/// The character sequences of a sequence of strings.
pub open spec fn views(ws: Seq<String>) -> Seq<Seq<char>> {
    ws.map_values(|w: String| w@)
}

/// Character-wise equality of two strings.
pub fn str_eq(a: &str, b: &str) -> (r: bool)
    ensures
        r == (a@ == b@),
{
    let n = a.unicode_len();
    if n != b.unicode_len() {
        return false;
    }
    let mut i: usize = 0;
    while i < n
        invariant
            n == a@.len(),
            n == b@.len(),
            i <= n,
            forall|t: int| 0 <= t < i ==> a@[t] == b@[t],
        decreases n - i,
    {
        if a.get_char(i) != b.get_char(i) {
            return false;
        }
        i += 1;
    }
    assert(a@ =~= b@);
    true
}

/// The words `ws` joined with single spaces.
pub open spec fn join_spec(ws: Seq<Seq<char>>) -> Seq<char>
    decreases ws.len(),
{
    if ws.len() == 0 {
        Seq::empty()
    } else if ws.len() == 1 {
        ws[0]
    } else {
        join_spec(ws.drop_last()) + seq![' '] + ws.last()
    }
}

/// Joins `words[from..to]` with single spaces.
pub fn join_range(words: &Vec<String>, from: usize, to: usize) -> (r: String)
    requires
        from <= to <= words.len(),
    ensures
        r@ == join_spec(views(words@).subrange(from as int, to as int)),
{
    let mut out = String::new();
    let mut i = from;
    proof {
        reveal_strlit(" ");
        assert(views(words@).subrange(from as int, from as int) =~= Seq::<Seq<char>>::empty());
    }
    while i < to
        invariant
            from <= i <= to <= words.len(),
            out@ == join_spec(views(words@).subrange(from as int, i as int)),
        decreases to - i,
    {
        let ghost prev = views(words@).subrange(from as int, i as int);
        let ghost next = views(words@).subrange(from as int, i + 1);
        assert(next.drop_last() =~= prev);
        assert(next.last() == words@[i as int]@);
        assert(views(words@)[i as int] == words@[i as int]@);
        proof {
            reveal_strlit(" ");
        }
        if i > from {
            out.append(" ");
            out.append(words[i].as_str());
            assert(out@ =~= join_spec(prev) + seq![' '] + words@[i as int]@);
        } else {
            assert(out@ =~= Seq::<char>::empty());
            out.append(words[i].as_str());
            assert(next.len() == 1);
            assert(out@ =~= next[0]);
        }
        i += 1;
    }
    out
}

/// Whether `c` is an ASCII decimal digit.
pub open spec fn is_digit(c: char) -> bool {
    '0' <= c <= '9'
}

pub open spec fn all_digits(s: Seq<char>) -> bool {
    forall|i: int| 0 <= i < s.len() ==> is_digit(#[trigger] s[i])
}

pub open spec fn digit_value(c: char) -> nat {
    (c as u32 - '0' as u32) as nat
}

/// The number that the decimal digits `s` stand for.
pub open spec fn digits_value(s: Seq<char>) -> nat
    decreases s.len(),
{
    if s.len() == 0 {
        0
    } else {
        digits_value(s.drop_last()) * 10 + digit_value(s.last())
    }
}

/// The value of a decimal integer as `str::parse` reads it: an optional
/// sign (`-` only where `signed`) and one or more digits.
pub open spec fn int_text_value(s: Seq<char>, signed: bool) -> Option<int> {
    if s.len() > 0 && (s[0] == '+' || (signed && s[0] == '-')) {
        let d = s.drop_first();
        if d.len() > 0 && all_digits(d) {
            Some(if s[0] == '-' { -(digits_value(d) as int) } else { digits_value(d) as int })
        } else {
            None
        }
    } else if s.len() > 0 && all_digits(s) {
        Some(digits_value(s) as int)
    } else {
        None
    }
}

/// The value of `s` as an integer in `[lo, hi]`, if it is one.
pub open spec fn parse_in_range(s: Seq<char>, signed: bool, lo: int, hi: int) -> Option<int> {
    match int_text_value(s, signed) {
        Some(v) => if lo <= v <= hi { Some(v) } else { None },
        None => None,
    }
}

proof fn lemma_digits_prefix_le(s: Seq<char>, i: int)
    requires
        0 <= i <= s.len(),
    ensures
        digits_value(s.subrange(0, i)) <= digits_value(s),
    decreases s.len() - i,
{
    if i < s.len() {
        lemma_digits_prefix_le(s, i + 1);
        assert(s.subrange(0, i + 1).drop_last() =~= s.subrange(0, i));
    } else {
        assert(s.subrange(0, i) =~= s);
    }
}

/// Reads the digits `s[from..]` as a number no larger than `limit`.
fn digits_upto(s: &Vec<char>, from: usize, limit: u64) -> (r: Option<u64>)
    requires
        from <= s.len(),
    ensures
        match r {
            Some(v) => all_digits(s@.skip(from as int)) && v == digits_value(s@.skip(from as int)) && v <= limit,
            None => !all_digits(s@.skip(from as int)) || digits_value(s@.skip(from as int)) > limit,
        },
{
    let ghost d = s@.skip(from as int);
    let mut acc: u64 = 0;
    let mut i = from;
    assert(d.subrange(0, 0) =~= Seq::<char>::empty());
    while i < s.len()
        invariant
            from <= i <= s.len(),
            d == s@.skip(from as int),
            all_digits(d.subrange(0, i - from)),
            acc == digits_value(d.subrange(0, i - from)),
            acc <= limit,
        decreases s.len() - i,
    {
        let c = s[i];
        assert(c == d[i - from]);
        if !('0' <= c && c <= '9') {
            return None;
        }
        let dv = (c as u32 - '0' as u32) as u64;
        assert(d.subrange(0, i - from + 1).drop_last() =~= d.subrange(0, i - from));
        if dv > limit || acc > (limit - dv) / 10 {
            proof {
                lemma_digits_prefix_le(d, i - from + 1);
                assert(acc * 10 + dv > limit) by (nonlinear_arith)
                    requires dv > limit || acc > (limit - dv) / 10, dv <= 9;
            }
            return None;
        }
        assert(acc * 10 + dv <= limit) by (nonlinear_arith)
            requires acc <= (limit - dv) / 10, dv <= limit;
        acc = acc * 10 + dv;
        i += 1;
    }
    assert(d.subrange(0, s.len() - from) =~= d);
    Some(acc)
}

/// `str::parse::<u64>` written out: an optional `+` and decimal digits.
pub fn parse_u64(w: &str) -> (r: Option<u64>)
    ensures
        r.is_some() == parse_in_range(w@, false, 0, u64::MAX as int).is_some(),
        r.is_some() ==> r.unwrap() as int == parse_in_range(w@, false, 0, u64::MAX as int).unwrap(),
{
    parse_unsigned(w, u64::MAX)
}

/// `str::parse::<u32>` written out: an optional `+` and decimal digits.
pub fn parse_u32(w: &str) -> (r: Option<u32>)
    ensures
        r.is_some() == parse_in_range(w@, false, 0, u32::MAX as int).is_some(),
        r.is_some() ==> r.unwrap() as int == parse_in_range(w@, false, 0, u32::MAX as int).unwrap(),
{
    match parse_unsigned(w, u32::MAX as u64) {
        Some(v) => Some(v as u32),
        None => None,
    }
}

fn parse_unsigned(w: &str, limit: u64) -> (r: Option<u64>)
    ensures
        r.is_some() == parse_in_range(w@, false, 0, limit as int).is_some(),
        r.is_some() ==> r.unwrap() as int == parse_in_range(w@, false, 0, limit as int).unwrap(),
{
    let s = chars_of(w);
    if s.len() == 0 {
        return None;
    }
    let from: usize = if s[0] == '+' { 1 } else { 0 };
    if from == s.len() {
        return None;
    }
    proof {
        if from == 0 {
            assert(s@.skip(0) =~= s@);
        } else {
            assert(s@.skip(1) =~= s@.drop_first());
        }
    }
    digits_upto(&s, from, limit)
}

/// `str::parse::<i32>` written out: an optional sign and decimal digits.
pub fn parse_i32(w: &str) -> (r: Option<i32>)
    ensures
        r.is_some() == parse_in_range(w@, true, i32::MIN as int, i32::MAX as int).is_some(),
        r.is_some() ==> r.unwrap() as int == parse_in_range(w@, true, i32::MIN as int, i32::MAX as int).unwrap(),
{
    let s = chars_of(w);
    if s.len() == 0 {
        return None;
    }
    let neg = s[0] == '-';
    let from: usize = if s[0] == '+' || neg { 1 } else { 0 };
    if from == s.len() {
        return None;
    }
    proof {
        if from == 0 {
            assert(s@.skip(0) =~= s@);
        } else {
            assert(s@.skip(1) =~= s@.drop_first());
        }
    }
    let limit: u64 = if neg { 2147483648 } else { 2147483647 };
    match digits_upto(&s, from, limit) {
        Some(v) => if neg { Some((0 - v as i64) as i32) } else { Some(v as i32) },
        None => None,
    }
}

/// The characters of `s`, in order.
pub fn chars_of(s: &str) -> (r: Vec<char>)
    ensures
        r@ == s@,
{
    let n = s.unicode_len();
    let mut v: Vec<char> = Vec::new();
    let mut i: usize = 0;
    while i < n
        invariant
            n == s@.len(),
            i <= n,
            v@ == s@.subrange(0, i as int),
        decreases n - i,
    {
        v.push(s.get_char(i));
        i += 1;
        assert(v@ =~= s@.subrange(0, i as int));
    }
    assert(v@ =~= s@);
    v
}

/// The decimal digits of `n`, without leading zeros.
pub open spec fn decimal_spec(n: nat) -> Seq<char>
    decreases n,
{
    if n < 10 {
        seq![digit_char(n)]
    } else {
        decimal_spec(n / 10) + seq![digit_char(n % 10)]
    }
}

pub open spec fn digit_char(d: nat) -> char {
    if d == 0 { '0' } else if d == 1 { '1' } else if d == 2 { '2' } else if d == 3 { '3' } else if d == 4 { '4' }
    else if d == 5 { '5' } else if d == 6 { '6' } else if d == 7 { '7' } else if d == 8 { '8' } else { '9' }
}

/// The decimal text of a signed number: a `-` before the digits when it is
/// negative.
pub open spec fn signed_decimal_spec(v: int) -> Seq<char> {
    if v < 0 {
        seq!['-'] + decimal_spec((-v) as nat)
    } else {
        decimal_spec(v as nat)
    }
}

proof fn lemma_digit_char(d: nat)
    requires
        d < 10,
    ensures
        digit_value(digit_char(d)) == d,
        is_digit(digit_char(d)),
{
    assert('0' as u32 == 48);
    assert('9' as u32 == 57);
    if d == 0 {
    } else if d == 1 {
        assert('1' as u32 == 49);
    } else if d == 2 {
        assert('2' as u32 == 50);
    } else if d == 3 {
        assert('3' as u32 == 51);
    } else if d == 4 {
        assert('4' as u32 == 52);
    } else if d == 5 {
        assert('5' as u32 == 53);
    } else if d == 6 {
        assert('6' as u32 == 54);
    } else if d == 7 {
        assert('7' as u32 == 55);
    } else if d == 8 {
        assert('8' as u32 == 56);
    }
}

proof fn lemma_decimal_digits(n: nat)
    ensures
        decimal_spec(n).len() > 0,
        all_digits(decimal_spec(n)),
        digits_value(decimal_spec(n)) == n,
        decimal_spec(n)[0] != '+' && decimal_spec(n)[0] != '-',
    decreases n,
{
    lemma_digit_char(n % 10);
    if n >= 10 {
        lemma_decimal_digits(n / 10);
        let s = decimal_spec(n);
        assert(s.drop_last() =~= decimal_spec(n / 10));
        assert(s.last() == digit_char(n % 10));
        assert(n == (n / 10) * 10 + n % 10);
        assert(s[0] == decimal_spec(n / 10)[0]);
    } else {
        assert(seq![digit_char(n)].drop_last() =~= Seq::<char>::empty());
        assert(n % 10 == n);
        assert(digits_value(Seq::<char>::empty()) == 0);
    }
}

/// Reading back the decimal text of a number gives the number.
pub proof fn lemma_decimal_round_trip(v: int, signed: bool)
    requires
        signed || v >= 0,
    ensures
        int_text_value(signed_decimal_spec(v), signed) == Some(v),
{
    if v < 0 {
        lemma_decimal_digits((-v) as nat);
        let s = signed_decimal_spec(v);
        assert(s.drop_first() =~= decimal_spec((-v) as nat));
    } else {
        lemma_decimal_digits(v as nat);
    }
}

/// The decimal text of `n`.
pub fn decimal(n: u64) -> (r: String)
    ensures
        r@ == decimal_spec(n as nat),
{
    let v = decimal_chars(n);
    string_from_chars(&v)
}

/// The decimal text of `v`, with a leading `-` when negative.
pub fn signed_decimal(v: i64) -> (r: String)
    ensures
        r@ == signed_decimal_spec(v as int),
{
    if v < 0 {
        let mag: u64 = if v == i64::MIN { 9223372036854775808u64 } else { (0 - v) as u64 };
        let mut out: Vec<char> = vec!['-'];
        let mut d = decimal_chars(mag);
        out.append(&mut d);
        assert(out@ =~= seq!['-'] + decimal_spec((-v) as nat));
        string_from_chars(&out)
    } else {
        decimal(v as u64)
    }
}

fn decimal_chars(n: u64) -> (r: Vec<char>)
    ensures
        r@ == decimal_spec(n as nat),
    decreases n,
{
    if n < 10 {
        let c = char_of_digit(n as u32);
        vec![c]
    } else {
        let mut v = decimal_chars(n / 10);
        let c = char_of_digit((n % 10) as u32);
        v.push(c);
        v
    }
}

fn char_of_digit(d: u32) -> (c: char)
    requires
        d < 10,
    ensures
        c == digit_char(d as nat),
{
    if d == 0 { '0' } else if d == 1 { '1' } else if d == 2 { '2' } else if d == 3 { '3' } else if d == 4 { '4' }
    else if d == 5 { '5' } else if d == 6 { '6' } else if d == 7 { '7' } else if d == 8 { '8' } else { '9' }
}

} // verus!
