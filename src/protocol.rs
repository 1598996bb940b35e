use vstd::prelude::*;
use crate::types::{EngineStats, UciOption};
use crate::text::{
    decimal, decimal_spec, join_range, join_spec, lemma_decimal_round_trip,
    parse_i32, parse_in_range, parse_u32, parse_u64, signed_decimal, signed_decimal_spec, split_words, str_eq,
    views, words_of,
};

verus! {

/// The fields of an `info` line that the parser recognizes: depth, score in
/// centipawns, score as mate distance, nodes, nodes per second, and the
/// principal variation.
pub type InfoFields = (u32, Option<i32>, Option<i32>, u64, u64, Seq<char>);

pub open spec fn no_info() -> InfoFields {
    (0u32, None, None, 0u64, 0u64, Seq::empty())
}

pub open spec fn info_fields(s: EngineStats) -> InfoFields {
    (s.depth, s.score_cp, s.score_mate, s.nodes, s.nps, s.pv@)
}

/// A number word of type u32 as the parser reads it, zero when unreadable.
pub open spec fn u32_or_zero(w: Seq<char>) -> u32 {
    match parse_in_range(w, false, 0, u32::MAX as int) {
        Some(v) => v as u32,
        None => 0,
    }
}

pub open spec fn u64_or_zero(w: Seq<char>) -> u64 {
    match parse_in_range(w, false, 0, u64::MAX as int) {
        Some(v) => v as u64,
        None => 0,
    }
}

pub open spec fn i32_of(w: Seq<char>) -> Option<i32> {
    match parse_in_range(w, true, i32::MIN as int, i32::MAX as int) {
        Some(v) => Some(v as i32),
        None => None,
    }
}

/// Reads the words `w[i..]` of an `info` line into `acc`, left to right:
/// `depth <n>`, `nodes <n>`, `nps <n>`, `score cp <n>`, `score mate <n>`,
/// and `pv` followed by the rest of the line; other words are skipped.
pub open spec fn info_scan(w: Seq<Seq<char>>, i: int, acc: InfoFields) -> InfoFields
    decreases w.len() - i,
{
    if i < 0 || i >= w.len() {
        acc
    } else if w[i] == "depth"@ {
        if i + 1 < w.len() {
            info_scan(w, i + 2, (u32_or_zero(w[i + 1]), acc.1, acc.2, acc.3, acc.4, acc.5))
        } else {
            acc
        }
    } else if w[i] == "nodes"@ {
        if i + 1 < w.len() {
            info_scan(w, i + 2, (acc.0, acc.1, acc.2, u64_or_zero(w[i + 1]), acc.4, acc.5))
        } else {
            acc
        }
    } else if w[i] == "nps"@ {
        if i + 1 < w.len() {
            info_scan(w, i + 2, (acc.0, acc.1, acc.2, acc.3, u64_or_zero(w[i + 1]), acc.5))
        } else {
            acc
        }
    } else if w[i] == "score"@ {
        let next = if i + 3 <= w.len() { i + 3 } else { w.len() as int };
        if i + 2 < w.len() && w[i + 1] == "cp"@ {
            info_scan(w, next, (acc.0, i32_of(w[i + 2]), acc.2, acc.3, acc.4, acc.5))
        } else if i + 2 < w.len() && w[i + 1] == "mate"@ {
            info_scan(w, next, (acc.0, acc.1, i32_of(w[i + 2]), acc.3, acc.4, acc.5))
        } else {
            info_scan(w, next, acc)
        }
    } else if w[i] == "pv"@ {
        (acc.0, acc.1, acc.2, acc.3, acc.4, join_spec(w.subrange(i + 1, w.len() as int)))
    } else {
        info_scan(w, i + 1, acc)
    }
}

/// Reads the words of an `info` line into telemetry for engine
/// `engine_idx` in game `game_id`; fields the line lacks are zero or absent.
pub fn parse_info_words(words: &Vec<String>, engine_idx: usize, game_id: usize) -> (r: EngineStats)
    ensures
        info_fields(r) == info_scan(views(words@), 0, no_info()),
        r.engine_idx == engine_idx,
        r.game_id == game_id,
        r.tb_hits.is_none(),
        r.hash_full.is_none(),
{
    let ghost w = views(words@);
    let n = words.len();
    let mut depth: u32 = 0;
    let mut cp: Option<i32> = None;
    let mut mate: Option<i32> = None;
    let mut nodes: u64 = 0;
    let mut nps: u64 = 0;
    let mut pv = String::new();
    let mut i: usize = 0;
    proof {
        reveal_strlit("depth");
        reveal_strlit("nodes");
        reveal_strlit("nps");
        reveal_strlit("score");
        reveal_strlit("cp");
        reveal_strlit("mate");
        reveal_strlit("pv");
    }
    while i < n
        invariant
            n == words.len(),
            w == views(words@),
            w.len() == n,
            i <= n,
            info_scan(w, i as int, (depth, cp, mate, nodes, nps, pv@)) == info_scan(w, 0, no_info()),
        decreases n - i,
    {
        let word = words[i].as_str();
        assert(w[i as int] == word@);
        if str_eq(word, "depth") {
            if i + 1 < n {
                assert(w[i + 1] == words@[i + 1]@);
                depth = match parse_u32(words[i + 1].as_str()) {
                    Some(v) => v,
                    None => 0,
                };
                i = i + 2;
            } else {
                i = n;
            }
        } else if str_eq(word, "nodes") {
            if i + 1 < n {
                assert(w[i + 1] == words@[i + 1]@);
                nodes = match parse_u64(words[i + 1].as_str()) {
                    Some(v) => v,
                    None => 0,
                };
                i = i + 2;
            } else {
                i = n;
            }
        } else if str_eq(word, "nps") {
            if i + 1 < n {
                assert(w[i + 1] == words@[i + 1]@);
                nps = match parse_u64(words[i + 1].as_str()) {
                    Some(v) => v,
                    None => 0,
                };
                i = i + 2;
            } else {
                i = n;
            }
        } else if str_eq(word, "score") {
            if n - i > 2 && str_eq(words[i + 1].as_str(), "cp") {
                assert(w[i + 1] == words@[i + 1]@);
                assert(w[i + 2] == words@[i + 2]@);
                cp = parse_i32(words[i + 2].as_str());
            } else if n - i > 2 && str_eq(words[i + 1].as_str(), "mate") {
                assert(w[i + 1] == words@[i + 1]@);
                assert(w[i + 2] == words@[i + 2]@);
                mate = parse_i32(words[i + 2].as_str());
            } else {
                assert(n - i > 2 ==> w[i + 1] == words@[i + 1]@);
            }
            if n - i <= 3 {
                i = n;
            } else {
                i = i + 3;
            }
        } else if str_eq(word, "pv") {
            pv = join_range(words, i + 1, n);
            return EngineStats { depth, score_cp: cp, score_mate: mate, nodes, nps, pv, engine_idx, game_id, tb_hits: None, hash_full: None };
        } else {
            i = i + 1;
        }
    }
    EngineStats { depth, score_cp: cp, score_mate: mate, nodes, nps, pv, engine_idx, game_id, tb_hits: None, hash_full: None }
}

/// Reads an `info` line into telemetry for engine `engine_idx` in game
/// `game_id`.
pub fn parse_info(line: &str, engine_idx: usize, game_id: usize) -> (r: EngineStats)
    ensures
        info_fields(r) == info_scan(words_of(line@), 0, no_info()),
        r.engine_idx == engine_idx,
        r.game_id == game_id,
{
    let words = split_words(line);
    parse_info_words(&words, engine_idx, game_id)
}

/// The words of an `info` line that carries exactly the fields `f`: the
/// principal variation stands as one word after `pv`.
pub open spec fn info_words_spec(f: InfoFields) -> Seq<Seq<char>> {
    seq!["info"@, "depth"@, decimal_spec(f.0 as nat)]
        + (match f.1 {
            Some(c) => seq!["score"@, "cp"@, signed_decimal_spec(c as int)],
            None => Seq::empty(),
        })
        + (match f.2 {
            Some(m) => seq!["score"@, "mate"@, signed_decimal_spec(m as int)],
            None => Seq::empty(),
        })
        + seq!["nodes"@, decimal_spec(f.3 as nat), "nps"@, decimal_spec(f.4 as nat), "pv"@]
        + (if f.5.len() > 0 { seq![f.5] } else { Seq::empty() })
}

/// The words of an `info` line that re-emits the recognized fields of `s`.
pub fn info_words(s: &EngineStats) -> (r: Vec<String>)
    ensures
        views(r@) == info_words_spec(info_fields(*s)),
{
    let mut v: Vec<String> = Vec::new();
    v.push(String::from_str("info"));
    v.push(String::from_str("depth"));
    v.push(decimal(s.depth as u64));
    match s.score_cp {
        Some(c) => {
            v.push(String::from_str("score"));
            v.push(String::from_str("cp"));
            v.push(signed_decimal(c as i64));
        },
        None => {},
    }
    match s.score_mate {
        Some(m) => {
            v.push(String::from_str("score"));
            v.push(String::from_str("mate"));
            v.push(signed_decimal(m as i64));
        },
        None => {},
    }
    v.push(String::from_str("nodes"));
    v.push(decimal(s.nodes));
    v.push(String::from_str("nps"));
    v.push(decimal(s.nps));
    v.push(String::from_str("pv"));
    if s.pv.unicode_len() > 0 {
        v.push(s.pv.clone());
    }
    assert(views(v@) =~= info_words_spec(info_fields(*s)));
    v
}


proof fn lemma_number_words(f: InfoFields)
    ensures
        u32_or_zero(decimal_spec(f.0 as nat)) == f.0,
        u64_or_zero(decimal_spec(f.3 as nat)) == f.3,
        u64_or_zero(decimal_spec(f.4 as nat)) == f.4,
        f.1.is_some() ==> i32_of(signed_decimal_spec(f.1.unwrap() as int)) == f.1,
        f.2.is_some() ==> i32_of(signed_decimal_spec(f.2.unwrap() as int)) == f.2,
{
    lemma_decimal_round_trip(f.0 as int, false);
    lemma_decimal_round_trip(f.3 as int, false);
    lemma_decimal_round_trip(f.4 as int, false);
    assert(signed_decimal_spec(f.0 as int) == decimal_spec(f.0 as nat));
    assert(signed_decimal_spec(f.3 as int) == decimal_spec(f.3 as nat));
    assert(signed_decimal_spec(f.4 as int) == decimal_spec(f.4 as nat));
    if f.1.is_some() {
        lemma_decimal_round_trip(f.1.unwrap() as int, true);
    }
    if f.2.is_some() {
        lemma_decimal_round_trip(f.2.unwrap() as int, true);
    }
}

/// Re-emitting the recognized fields of an `info` line and reading the
/// emitted words back gives the same fields.
pub proof fn lemma_info_round_trip(f: InfoFields)
    ensures
        info_scan(info_words_spec(f), 0, no_info()) == f,
{
    reveal_strlit("info");
    reveal_strlit("depth");
    reveal_strlit("nodes");
    reveal_strlit("nps");
    reveal_strlit("score");
    reveal_strlit("cp");
    reveal_strlit("mate");
    reveal_strlit("pv");
    lemma_number_words(f);
    let w = info_words_spec(f);
    let a = if f.1.is_some() { 3int } else { 0int };
    let b = if f.2.is_some() { 3int } else { 0int };
    let off = 3 + a + b;
    let tail: Seq<Seq<char>> = if f.5.len() > 0 { seq![f.5] } else { Seq::empty() };
    assert(w.len() == off + 5 + tail.len());
    assert(w[0] == "info"@);
    assert(w[1] == "depth"@);
    assert(w[2] == decimal_spec(f.0 as nat));
    let acc1 = (f.0, None, None, 0u64, 0u64, Seq::<char>::empty());
    assert(info_scan(w, 0, no_info()) == info_scan(w, 1, no_info()));
    assert(info_scan(w, 1, no_info()) == info_scan(w, 3, acc1));
    let acc2 = (f.0, f.1, None, 0u64, 0u64, Seq::<char>::empty());
    if f.1.is_some() {
        assert(w[3] == "score"@);
        assert(w[4] == "cp"@);
        assert(w[5] == signed_decimal_spec(f.1.unwrap() as int));
        assert(info_scan(w, 3, acc1) == info_scan(w, 6, acc2));
    }
    assert(info_scan(w, 3, acc1) == info_scan(w, 3 + a, acc2));
    let acc3 = (f.0, f.1, f.2, 0u64, 0u64, Seq::<char>::empty());
    if f.2.is_some() {
        assert(w[3 + a] == "score"@);
        assert(w[4 + a] == "mate"@);
        assert(w[5 + a] == signed_decimal_spec(f.2.unwrap() as int));
        assert(info_scan(w, 3 + a, acc2) == info_scan(w, off, acc3));
    }
    assert(info_scan(w, 3 + a, acc2) == info_scan(w, off, acc3));
    assert(w[off] == "nodes"@);
    assert(w[off + 1] == decimal_spec(f.3 as nat));
    let acc4 = (f.0, f.1, f.2, f.3, 0u64, Seq::<char>::empty());
    assert(info_scan(w, off, acc3) == info_scan(w, off + 2, acc4));
    assert(w[off + 2] == "nps"@);
    assert(w[off + 3] == decimal_spec(f.4 as nat));
    let acc5 = (f.0, f.1, f.2, f.3, f.4, Seq::<char>::empty());
    assert(info_scan(w, off + 2, acc4) == info_scan(w, off + 4, acc5));
    assert(w[off + 4] == "pv"@);
    assert(w.subrange(off + 5, w.len() as int) =~= tail);
    if f.5.len() == 0 {
        assert(f.5 =~= Seq::<char>::empty());
    }
}


/// What an `option` line sets after its type: default value, minimum,
/// maximum and the `var` choices, in order.
pub type OptionFields = (Option<Seq<char>>, Option<i32>, Option<i32>, Seq<Seq<char>>);

/// Index of the first occurrence of `x` in `w` at or after `j`, or the length
/// of `w` when there is none.
pub open spec fn first_from(w: Seq<Seq<char>>, x: Seq<char>, j: int) -> int
    decreases w.len() - j,
{
    if j < 0 || j >= w.len() {
        w.len() as int
    } else if w[j] == x {
        j
    } else {
        first_from(w, x, j + 1)
    }
}

pub open spec fn is_bound_word(x: Seq<char>) -> bool {
    x == "min"@ || x == "max"@ || x == "var"@
}

/// Index of the first `min`, `max` or `var` in `w` at or after `j`, or the
/// length of `w`.
pub open spec fn default_end(w: Seq<Seq<char>>, j: int) -> int
    decreases w.len() - j,
{
    if j < 0 || j >= w.len() {
        w.len() as int
    } else if is_bound_word(w[j]) {
        j
    } else {
        default_end(w, j + 1)
    }
}

/// `e` kept within `(i, len]`.
pub open spec fn clamp_end(e: int, i: int, len: int) -> int {
    if e <= i {
        i + 1
    } else if e > len {
        len
    } else {
        e
    }
}

/// Reads the words `w[i..]` after an option's type, left to right:
/// `default` takes the words up to the next `min`, `max` or `var`; `min` and
/// `max` take one number each (absent when unreadable); `var` takes the words
/// up to the next `var`. Other words are skipped.
pub open spec fn option_scan(w: Seq<Seq<char>>, i: int, acc: OptionFields) -> OptionFields
    decreases w.len() - i,
{
    if i < 0 || i >= w.len() {
        acc
    } else if w[i] == "default"@ {
        let e = clamp_end(default_end(w, i + 1), i, w.len() as int);
        option_scan(w, e, if e > i + 1 { (Some(join_spec(w.subrange(i + 1, e))), acc.1, acc.2, acc.3) } else { acc })
    } else if w[i] == "min"@ {
        if i + 1 < w.len() {
            option_scan(w, i + 2, (acc.0, i32_of(w[i + 1]), acc.2, acc.3))
        } else {
            acc
        }
    } else if w[i] == "max"@ {
        if i + 1 < w.len() {
            option_scan(w, i + 2, (acc.0, acc.1, i32_of(w[i + 1]), acc.3))
        } else {
            acc
        }
    } else if w[i] == "var"@ {
        let e = clamp_end(first_from(w, "var"@, i + 1), i, w.len() as int);
        option_scan(w, e, if e > i + 1 { (acc.0, acc.1, acc.2, acc.3.push(join_spec(w.subrange(i + 1, e)))) } else { acc })
    } else {
        option_scan(w, i + 1, acc)
    }
}

/// An `option` line's name (the words between the first `name` and the first
/// `type`), type (the word after that `type`) and further fields; absent when
/// either keyword is missing, `type` does not come after `name`, or no word
/// follows `type`.
pub open spec fn option_spec(w: Seq<Seq<char>>) -> Option<(Seq<char>, Seq<char>, OptionFields)> {
    let n = first_from(w, "name"@, 0);
    let t = first_from(w, "type"@, 0);
    if n >= w.len() || t >= w.len() || t <= n || t + 1 >= w.len() {
        None
    } else {
        Some((join_spec(w.subrange(n + 1, t)), w[t + 1], option_scan(w, t + 2, (None, None, None, Seq::empty()))))
    }
}

pub open spec fn opt_view(o: Option<String>) -> Option<Seq<char>> {
    match o {
        Some(s) => Some(s@),
        None => None,
    }
}

pub open spec fn option_view(o: UciOption) -> (Seq<char>, Seq<char>, OptionFields) {
    (o.name@, o.option_type@, (opt_view(o.default), o.min, o.max, views(o.var@)))
}

proof fn lemma_first_from_bounds(w: Seq<Seq<char>>, x: Seq<char>, j: int)
    requires
        0 <= j <= w.len(),
    ensures
        j <= first_from(w, x, j) <= w.len(),
        first_from(w, x, j) < w.len() ==> w[first_from(w, x, j)] == x,
    decreases w.len() - j,
{
    if j < w.len() && w[j] != x {
        lemma_first_from_bounds(w, x, j + 1);
    }
}

proof fn lemma_default_end_bounds(w: Seq<Seq<char>>, j: int)
    requires
        0 <= j <= w.len(),
    ensures
        j <= default_end(w, j) <= w.len(),
    decreases w.len() - j,
{
    if j < w.len() && !is_bound_word(w[j]) {
        lemma_default_end_bounds(w, j + 1);
    }
}

/// Index of the first word equal to `x` at or after `from`, or the length.
fn find_word(words: &Vec<String>, x: &str, from: usize) -> (r: usize)
    requires
        from <= words.len(),
    ensures
        r as int == first_from(views(words@), x@, from as int),
{
    let ghost w = views(words@);
    let mut j = from;
    while j < words.len()
        invariant
            from <= j <= words.len(),
            w == views(words@),
            first_from(w, x@, j as int) == first_from(w, x@, from as int),
        decreases words.len() - j,
    {
        assert(w[j as int] == words@[j as int]@);
        if str_eq(words[j].as_str(), x) {
            return j;
        }
        j += 1;
    }
    j
}

fn find_default_end(words: &Vec<String>, from: usize) -> (r: usize)
    requires
        from <= words.len(),
    ensures
        r as int == default_end(views(words@), from as int),
{
    let ghost w = views(words@);
    let mut j = from;
    proof {
        reveal_strlit("min");
        reveal_strlit("max");
        reveal_strlit("var");
    }
    while j < words.len()
        invariant
            from <= j <= words.len(),
            w == views(words@),
            default_end(w, j as int) == default_end(w, from as int),
        decreases words.len() - j,
    {
        assert(w[j as int] == words@[j as int]@);
        let wj = words[j].as_str();
        if str_eq(wj, "min") || str_eq(wj, "max") || str_eq(wj, "var") {
            return j;
        }
        j += 1;
    }
    j
}

/// Reads the words of an engine's `option name <Name> type <Type> ...` line.
pub fn parse_uci_option_words(words: &Vec<String>) -> (r: Option<UciOption>)
    ensures
        match option_spec(views(words@)) {
            None => r.is_none(),
            Some(v) => r.is_some() && option_view(r.unwrap()) == v,
        },
{
    let ghost w = views(words@);
    let n = words.len();
    let name_idx = find_word(words, "name", 0);
    let type_idx = find_word(words, "type", 0);
    if name_idx >= n || type_idx >= n || type_idx <= name_idx || type_idx + 1 >= n {
        return None;
    }
    let name = join_range(words, name_idx + 1, type_idx);
    let option_type = words[type_idx + 1].clone();
    assert(w[type_idx + 1] == words@[type_idx + 1]@);
    let mut default: Option<String> = None;
    let mut min: Option<i32> = None;
    let mut max: Option<i32> = None;
    let mut vars: Vec<String> = Vec::new();
    let mut i = type_idx + 2;
    assert(views(vars@) =~= Seq::<Seq<char>>::empty());
    proof {
        reveal_strlit("default");
        reveal_strlit("min");
        reveal_strlit("max");
        reveal_strlit("var");
    }
    while i < n
        invariant
            n == words.len(),
            w == views(words@),
            type_idx + 2 <= i <= n,
            option_scan(w, i as int, (opt_view(default), min, max, views(vars@)))
                == option_scan(w, type_idx + 2, (None, None, None, Seq::empty())),
        decreases n - i,
    {
        let word = words[i].as_str();
        assert(w[i as int] == word@);
        if str_eq(word, "default") {
            let e = find_default_end(words, i + 1);
            proof {
                lemma_default_end_bounds(w, i + 1);
            }
            if e > i + 1 {
                default = Some(join_range(words, i + 1, e));
            }
            i = e;
        } else if str_eq(word, "min") {
            if i + 1 < n {
                assert(w[i + 1] == words@[i + 1]@);
                min = parse_i32(words[i + 1].as_str());
                i = i + 2;
            } else {
                i = n;
            }
        } else if str_eq(word, "max") {
            if i + 1 < n {
                assert(w[i + 1] == words@[i + 1]@);
                max = parse_i32(words[i + 1].as_str());
                i = i + 2;
            } else {
                i = n;
            }
        } else if str_eq(word, "var") {
            let e = find_word(words, "var", i + 1);
            proof {
                lemma_first_from_bounds(w, "var"@, i + 1);
            }
            if e > i + 1 {
                let ghost prev = views(vars@);
                vars.push(join_range(words, i + 1, e));
                assert(views(vars@) =~= prev.push(join_spec(w.subrange(i + 1, e as int))));
            }
            i = e;
        } else {
            i = i + 1;
        }
    }
    proof {
        lemma_first_from_bounds(w, "name"@, 0);
        lemma_first_from_bounds(w, "type"@, 0);
    }
    Some(UciOption { name, option_type, default, min, max, var: vars })
}

/// Reads an engine's `option name <Name> type <Type> [default ..] [min ..]
/// [max ..] [var ..]*` line.
pub fn parse_uci_option(line: &str) -> (r: Option<UciOption>)
    ensures
        match option_spec(words_of(line@)) {
            None => r.is_none(),
            Some(v) => r.is_some() && option_view(r.unwrap()) == v,
        },
{
    let words = split_words(line);
    parse_uci_option_words(&words)
}


/// `" m1 m2 ..."`: each move preceded by a space.
pub open spec fn moves_suffix(moves: Seq<Seq<char>>) -> Seq<char>
    decreases moves.len(),
{
    if moves.len() == 0 {
        Seq::empty()
    } else {
        moves_suffix(moves.drop_last()) + " "@ + moves.last()
    }
}

/// `position fen <fen> moves <m1> <m2> ...`
pub fn position_command(fen: &str, moves: &Vec<String>) -> (r: String)
    ensures
        r@ == "position fen "@ + fen@ + " moves"@ + moves_suffix(views(moves@)),
{
    let mut out = String::from_str("position fen ");
    out.append(fen);
    out.append(" moves");
    let mut i: usize = 0;
    assert(views(moves@).subrange(0, 0) =~= Seq::<Seq<char>>::empty());
    while i < moves.len()
        invariant
            i <= moves.len(),
            out@ == "position fen "@ + fen@ + " moves"@ + moves_suffix(views(moves@).subrange(0, i as int)),
        decreases moves.len() - i,
    {
        assert(views(moves@).subrange(0, i + 1).drop_last() =~= views(moves@).subrange(0, i as int));
        assert(views(moves@)[i as int] == moves@[i as int]@);
        out.append(" ");
        out.append(moves[i].as_str());
        assert(out@ =~= "position fen "@ + fen@ + " moves"@ + moves_suffix(views(moves@).subrange(0, i + 1)));
        i += 1;
    }
    assert(views(moves@).subrange(0, moves.len() as int) =~= views(moves@));
    out
}

/// `go wtime <w> btime <b> winc <inc> binc <inc>`
pub fn go_command(white_ms: u64, black_ms: u64, inc_ms: u64) -> (r: String)
    ensures
        r@ == "go wtime "@ + decimal_spec(white_ms as nat) + " btime "@ + decimal_spec(black_ms as nat)
            + " winc "@ + decimal_spec(inc_ms as nat) + " binc "@ + decimal_spec(inc_ms as nat),
{
    let mut out = String::from_str("go wtime ");
    out.append(decimal(white_ms).as_str());
    out.append(" btime ");
    out.append(decimal(black_ms).as_str());
    out.append(" winc ");
    let inc = decimal(inc_ms);
    out.append(inc.as_str());
    out.append(" binc ");
    out.append(inc.as_str());
    out
}

/// `setoption name <name> value <value>`
pub fn setoption_command(name: &str, value: &str) -> (r: String)
    ensures
        r@ == "setoption name "@ + name@ + " value "@ + value@,
{
    let mut out = String::from_str("setoption name ");
    out.append(name);
    out.append(" value ");
    out.append(value);
    out
}

/// Whether `line` starts with `prefix`.
pub fn starts_with(line: &str, prefix: &str) -> (r: bool)
    ensures
        r == (prefix@.len() <= line@.len() && line@.subrange(0, prefix@.len() as int) == prefix@),
{
    let n = prefix.unicode_len();
    if n > line.unicode_len() {
        return false;
    }
    let mut i: usize = 0;
    while i < n
        invariant
            n == prefix@.len() <= line@.len(),
            i <= n,
            forall|t: int| 0 <= t < i ==> line@[t] == prefix@[t],
        decreases n - i,
    {
        if line.get_char(i) != prefix.get_char(i) {
            assert(line@.subrange(0, n as int)[i as int] != prefix@[i as int]);
            return false;
        }
        i += 1;
    }
    assert(line@.subrange(0, n as int) =~= prefix@);
    true
}

/// The move of a `bestmove <move> [ponder <move>]` line: its second word,
/// or empty when there is none.
pub open spec fn bestmove_spec(line: Seq<char>) -> Seq<char> {
    let w = words_of(line);
    if w.len() > 1 { w[1] } else { Seq::empty() }
}

pub fn bestmove_of(line: &str) -> (r: String)
    ensures
        r@ == bestmove_spec(line@),
{
    let words = split_words(line);
    if words.len() > 1 {
        assert(views(words@)[1] == words@[1]@);
        words[1].clone()
    } else {
        String::new()
    }
}

} // verus!
