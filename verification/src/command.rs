//! Command-argument parser.
//!
//! A raw argument string is cut into tokens: quoted or bare positional
//! arguments, short flag bundles (`-abc`), and named arguments
//! (`--key value`). Parsing fails on an unterminated quote or on a named
//! argument marker with no following plain value.
use vstd::prelude::*;

verus! {

/// Whitespace that separates tokens.
pub open spec fn is_ws(c: char) -> bool {
    c == ' ' || c == '\n' || c == '\t' || c == '\r'
}

/// ASCII letters are the only characters allowed in flag names.
pub open spec fn is_letter(c: char) -> bool {
    ('a' <= c && c <= 'z') || ('A' <= c && c <= 'Z')
}

pub open spec fn all_letters(s: Seq<char>) -> bool {
    forall|i: int| 0 <= i < s.len() ==> is_letter(#[trigger] s[i])
}

/// Index of the first non-whitespace character at or after `i`, or `s.len()`.
pub open spec fn skip_ws(s: Seq<char>, i: int) -> int
    decreases s.len() - i when 0 <= i <= s.len()
{
    if i >= s.len() {
        i
    } else if is_ws(s[i]) {
        skip_ws(s, i + 1)
    } else {
        i
    }
}

pub proof fn lemma_skip_ws(s: Seq<char>, i: int)
    requires
        0 <= i <= s.len(),
    ensures
        i <= skip_ws(s, i) <= s.len(),
        skip_ws(s, i) < s.len() ==> !is_ws(s[skip_ws(s, i)]),
        forall|t: int| i <= t < skip_ws(s, i) ==> is_ws(#[trigger] s[t]),
    decreases s.len() - i,
{
    if i < s.len() && is_ws(s[i]) {
        lemma_skip_ws(s, i + 1);
    }
}

/// Index of the first quote character at or after `i`, if any.
pub open spec fn find_quote(s: Seq<char>, i: int) -> Option<int>
    decreases s.len() - i when 0 <= i <= s.len()
{
    if i >= s.len() {
        None
    } else if s[i] == '"' {
        Some(i)
    } else {
        find_quote(s, i + 1)
    }
}

pub proof fn lemma_find_quote(s: Seq<char>, i: int)
    requires
        0 <= i <= s.len(),
    ensures
        match find_quote(s, i) {
            Some(q) => i <= q < s.len() && s[q] == '"'
                && forall|t: int| i <= t < q ==> #[trigger] s[t] != '"',
            None => forall|t: int| i <= t < s.len() ==> #[trigger] s[t] != '"',
        },
    decreases s.len() - i,
{
    if i < s.len() && s[i] != '"' {
        lemma_find_quote(s, i + 1);
    }
}

/// Index just past the bare word starting at `i`: the first whitespace or
/// quote character at or after `i`, or `s.len()`.
pub open spec fn word_end(s: Seq<char>, i: int) -> int
    decreases s.len() - i when 0 <= i <= s.len()
{
    if i >= s.len() {
        i
    } else if is_ws(s[i]) || s[i] == '"' {
        i
    } else {
        word_end(s, i + 1)
    }
}

pub proof fn lemma_word_end(s: Seq<char>, i: int)
    requires
        0 <= i <= s.len(),
    ensures
        i <= word_end(s, i) <= s.len(),
        word_end(s, i) < s.len() ==> is_ws(s[word_end(s, i)]) || s[word_end(s, i)] == '"',
        forall|t: int| i <= t < word_end(s, i) ==> !is_ws(#[trigger] s[t]) && s[t] != '"',
    decreases s.len() - i,
{
    if i < s.len() && !is_ws(s[i]) && s[i] != '"' {
        lemma_word_end(s, i + 1);
    }
}

/// A word of the shape `--name`, with a non-empty all-letter name.
pub open spec fn long_flag_shape(w: Seq<char>) -> bool {
    w.len() > 2 && w[0] == '-' && w[1] == '-' && all_letters(w.skip(2))
}

/// A word of the shape `-abc`, with a non-empty all-letter bundle.
pub open spec fn short_flag_shape(w: Seq<char>) -> bool {
    w.len() > 1 && w[0] == '-' && all_letters(w.skip(1))
}

/// One flag occurrence added to a count map.
pub open spec fn bump(m: Map<char, nat>, c: char) -> Map<char, nat> {
    m.insert(c, (if m.contains_key(c) { m[c] } else { 0nat }) + 1)
}

/// All characters of a flag bundle added to a count map, left to right.
pub open spec fn bump_all(m: Map<char, nat>, cs: Seq<char>) -> Map<char, nat>
    decreases cs.len()
{
    if cs.len() == 0 {
        m
    } else {
        bump_all(bump(m, cs[0]), cs.skip(1))
    }
}

/// The parser's accumulated result: named arguments (last value wins),
/// positional arguments in order, and per-character flag counts.
pub ghost struct ParseAcc {
    pub kwargs: Map<Seq<char>, Seq<char>>,
    pub args: Seq<Seq<char>>,
    pub flags: Map<char, nat>,
}

pub open spec fn empty_acc() -> ParseAcc {
    ParseAcc { kwargs: Map::empty(), args: Seq::empty(), flags: Map::empty() }
}

/// The whole parse, from position `i` with accumulator `acc`. `None` marks a
/// parse failure: an unterminated quote, or a `--key` marker whose next token
/// is missing or is itself flag-shaped.
pub open spec fn run(s: Seq<char>, i: int, acc: ParseAcc) -> Option<ParseAcc>
    decreases s.len() - i when 0 <= i <= s.len() via run_decreases
{
    let j = skip_ws(s, i);
    if j >= s.len() {
        Some(acc)
    } else if s[j] == '"' {
        match find_quote(s, j + 1) {
            None => None,
            Some(q) => run(
                s,
                q + 1,
                ParseAcc { args: acc.args.push(s.subrange(j + 1, q)), ..acc },
            ),
        }
    } else {
        let e = word_end(s, j);
        let w = s.subrange(j, e);
        if long_flag_shape(w) {
            let k = skip_ws(s, e);
            if k >= s.len() {
                None
            } else if s[k] == '"' {
                match find_quote(s, k + 1) {
                    None => None,
                    Some(q) => run(
                        s,
                        q + 1,
                        ParseAcc {
                            kwargs: acc.kwargs.insert(w.skip(2), s.subrange(k + 1, q)),
                            ..acc
                        },
                    ),
                }
            } else {
                let e2 = word_end(s, k);
                let w2 = s.subrange(k, e2);
                if long_flag_shape(w2) || short_flag_shape(w2) {
                    None
                } else {
                    run(
                        s,
                        e2,
                        ParseAcc { kwargs: acc.kwargs.insert(w.skip(2), w2), ..acc },
                    )
                }
            }
        } else if short_flag_shape(w) {
            run(s, e, ParseAcc { flags: bump_all(acc.flags, w.skip(1)), ..acc })
        } else {
            run(s, e, ParseAcc { args: acc.args.push(w), ..acc })
        }
    }
}

#[via_fn]
proof fn run_decreases(s: Seq<char>, i: int, acc: ParseAcc) {
    lemma_skip_ws(s, i);
    let j = skip_ws(s, i);
    if j < s.len() {
        if s[j] == '"' {
            lemma_find_quote(s, j + 1);
        } else {
            lemma_word_end(s, j);
            let e = word_end(s, j);
            lemma_skip_ws(s, e);
            let k = skip_ws(s, e);
            if k < s.len() {
                if s[k] == '"' {
                    lemma_find_quote(s, k + 1);
                } else {
                    lemma_word_end(s, k);
                }
            }
        }
    }
}

/// Named arguments as a map, where a later pair overrides an earlier one with
/// the same key.
pub open spec fn assoc_str_map(ps: Seq<(String, String)>) -> Map<Seq<char>, Seq<char>>
    decreases ps.len()
{
    if ps.len() == 0 {
        Map::empty()
    } else {
        assoc_str_map(ps.drop_last()).insert(ps.last().0@, ps.last().1@)
    }
}

pub proof fn lemma_assoc_push(ps: Seq<(String, String)>, p: (String, String))
    ensures
        assoc_str_map(ps.push(p)) == assoc_str_map(ps).insert(p.0@, p.1@),
{
    assert(ps.push(p).drop_last() =~= ps);
    assert(ps.push(p).last() == p);
}

pub proof fn lemma_assoc_absent(ps: Seq<(String, String)>, c: Seq<char>)
    requires
        forall|k: int| 0 <= k < ps.len() ==> (#[trigger] ps[k]).0@ != c,
    ensures
        !assoc_str_map(ps).contains_key(c),
    decreases ps.len(),
{
    if ps.len() > 0 {
        assert(ps.last() == ps[ps.len() - 1]);
        assert(forall|k: int| 0 <= k < ps.drop_last().len() ==> (#[trigger] ps.drop_last()[k]).0@
            != c);
        lemma_assoc_absent(ps.drop_last(), c);
    }
}

pub proof fn lemma_assoc_last_match(ps: Seq<(String, String)>, k: int)
    requires
        0 <= k < ps.len(),
        forall|t: int| k < t < ps.len() ==> (#[trigger] ps[t]).0@ != ps[k].0@,
    ensures
        assoc_str_map(ps).contains_key(ps[k].0@),
        assoc_str_map(ps)[ps[k].0@] == ps[k].1@,
    decreases ps.len(),
{
    if k == ps.len() - 1 {
    } else {
        assert(forall|t: int| k < t < ps.drop_last().len() ==> (#[trigger] ps.drop_last()[t]).0@
            != ps.drop_last()[k].0@);
        lemma_assoc_last_match(ps.drop_last(), k);
        assert(ps.last() == ps[ps.len() - 1]);
    }
}

/// Flag counts as a map, from a vector of (flag, count) pairs with distinct
/// flags.
pub open spec fn flag_map(ps: Seq<(char, u64)>) -> Map<char, nat>
    decreases ps.len()
{
    if ps.len() == 0 {
        Map::empty()
    } else {
        flag_map(ps.drop_last()).insert(ps.last().0, ps.last().1 as nat)
    }
}

pub open spec fn distinct_chars(ps: Seq<(char, u64)>) -> bool {
    forall|a: int, b: int| 0 <= a < b < ps.len() ==> (#[trigger] ps[a]).0 != (#[trigger] ps[b]).0
}

pub proof fn lemma_flag_map_absent(ps: Seq<(char, u64)>, c: char)
    requires
        forall|k: int| 0 <= k < ps.len() ==> (#[trigger] ps[k]).0 != c,
    ensures
        !flag_map(ps).contains_key(c),
    decreases ps.len(),
{
    if ps.len() > 0 {
        assert(ps.last() == ps[ps.len() - 1]);
        lemma_flag_map_absent(ps.drop_last(), c);
    }
}

pub proof fn lemma_flag_map_lookup(ps: Seq<(char, u64)>, k: int)
    requires
        distinct_chars(ps),
        0 <= k < ps.len(),
    ensures
        flag_map(ps).contains_key(ps[k].0),
        flag_map(ps)[ps[k].0] == ps[k].1 as nat,
    decreases ps.len(),
{
    if k < ps.len() - 1 {
        lemma_flag_map_lookup(ps.drop_last(), k);
        assert(ps.last() == ps[ps.len() - 1]);
    }
}

pub proof fn lemma_flag_map_update(ps: Seq<(char, u64)>, k: int, v: u64)
    requires
        distinct_chars(ps),
        0 <= k < ps.len(),
    ensures
        flag_map(ps.update(k, (ps[k].0, v))) == flag_map(ps).insert(ps[k].0, v as nat),
    decreases ps.len(),
{
    let ps2 = ps.update(k, (ps[k].0, v));
    if k == ps.len() - 1 {
        assert(ps2.drop_last() =~= ps.drop_last());
        assert(flag_map(ps).insert(ps[k].0, v as nat) =~= flag_map(ps.drop_last()).insert(
            ps[k].0,
            v as nat,
        ));
    } else {
        assert(ps2.drop_last() =~= ps.drop_last().update(k, (ps[k].0, v)));
        lemma_flag_map_update(ps.drop_last(), k, v);
        assert(ps.last() == ps[ps.len() - 1]);
        assert(ps[k].0 != ps.last().0);
        assert(flag_map(ps.drop_last()).insert(ps[k].0, v as nat).insert(
            ps.last().0,
            ps.last().1 as nat,
        ) =~= flag_map(ps.drop_last()).insert(ps.last().0, ps.last().1 as nat).insert(
            ps[k].0,
            v as nat,
        ));
    }
}

pub proof fn lemma_flag_map_push(ps: Seq<(char, u64)>, p: (char, u64))
    ensures
        flag_map(ps.push(p)) == flag_map(ps).insert(p.0, p.1 as nat),
{
    assert(ps.push(p).drop_last() =~= ps);
    assert(ps.push(p).last() == p);
}

/// The parse of a command's argument string: positional arguments in order,
/// named arguments with the last value winning, and per-character counts for
/// short flag bundles.
pub struct Args {
    pub kwargs: Vec<(String, String)>,
    pub args: Vec<String>,
    pub flags: Vec<(char, u64)>,
}

impl Args {
    pub open spec fn kwargs_map(&self) -> Map<Seq<char>, Seq<char>> {
        assoc_str_map(self.kwargs@)
    }

    pub open spec fn args_seq(&self) -> Seq<Seq<char>> {
        self.args@.map_values(|t: String| t@)
    }

    pub open spec fn flags_map(&self) -> Map<char, nat> {
        flag_map(self.flags@)
    }

    pub open spec fn wf(&self) -> bool {
        distinct_chars(self.flags@)
    }
}

/// Ghost view of the three accumulators during parsing.
pub open spec fn acc_of(kw: Seq<(String, String)>, ar: Seq<String>, fl: Seq<(char, u64)>) -> ParseAcc {
    ParseAcc {
        kwargs: assoc_str_map(kw),
        args: ar.map_values(|t: String| t@),
        flags: flag_map(fl),
    }
}

fn skip_ws_exec(s: &str, i: usize, n: usize) -> (r: usize)
    requires
        i <= n,
        s@.len() == n as nat,
    ensures
        r as int == skip_ws(s@, i as int),
        i <= r <= n,
{
    let mut j: usize = i;
    loop
        invariant
            i <= j <= n,
            s@.len() == n as nat,
            skip_ws(s@, i as int) == skip_ws(s@, j as int),
        ensures
            j <= n,
            j as int == skip_ws(s@, i as int),
        decreases n - j,
    {
        if j >= n {
            break;
        }
        let c = s.get_char(j);
        if !(c == ' ' || c == '\n' || c == '\t' || c == '\r') {
            break;
        }
        j = j + 1;
    }
    j
}

fn find_quote_exec(s: &str, i: usize, n: usize) -> (r: Option<usize>)
    requires
        i <= n,
        s@.len() == n as nat,
    ensures
        match r {
            Some(q) => find_quote(s@, i as int) == Some(q as int) && i <= q < n,
            None => find_quote(s@, i as int) is None,
        },
{
    let mut j: usize = i;
    loop
        invariant
            i <= j <= n,
            s@.len() == n as nat,
            find_quote(s@, i as int) == find_quote(s@, j as int),
        ensures
            j <= n,
            find_quote(s@, i as int) == if j < n {
                Some(j as int)
            } else {
                None::<int>
            },
        decreases n - j,
    {
        if j >= n {
            break;
        }
        let c = s.get_char(j);
        if c == '"' {
            break;
        }
        j = j + 1;
    }
    if j < n {
        Some(j)
    } else {
        None
    }
}

fn word_end_exec(s: &str, i: usize, n: usize) -> (r: usize)
    requires
        i <= n,
        s@.len() == n as nat,
    ensures
        r as int == word_end(s@, i as int),
        i <= r <= n,
        i < n && !is_ws(s@[i as int]) && s@[i as int] != '"' ==> r > i,
{
    proof {
        if i < n && !is_ws(s@[i as int]) && s@[i as int] != '"' {
            lemma_word_end(s@, i + 1);
            assert(word_end(s@, i as int) == word_end(s@, i + 1));
        }
    }
    let mut j: usize = i;
    loop
        invariant
            i <= j <= n,
            s@.len() == n as nat,
            word_end(s@, i as int) == word_end(s@, j as int),
        ensures
            j <= n,
            j as int == word_end(s@, i as int),
        decreases n - j,
    {
        if j >= n {
            break;
        }
        let c = s.get_char(j);
        if c == ' ' || c == '\n' || c == '\t' || c == '\r' || c == '"' {
            break;
        }
        j = j + 1;
    }
    j
}

fn letters_range(s: &str, from: usize, to: usize) -> (r: bool)
    requires
        from <= to,
        to as nat <= s@.len(),
    ensures
        r == all_letters(s@.subrange(from as int, to as int)),
{
    let mut j: usize = from;
    loop
        invariant
            from <= j <= to,
            to as nat <= s@.len(),
            forall|t: int| from <= t < j ==> is_letter(#[trigger] s@[t]),
        ensures
            j <= to,
            (j == to) == all_letters(s@.subrange(from as int, to as int)),
        decreases to - j,
    {
        if j >= to {
            proof {
                assert(forall|t: int| 0 <= t < to - from ==> is_letter(
                    #[trigger] s@.subrange(from as int, to as int)[t],
                ));
            }
            break;
        }
        let c = s.get_char(j);
        if !(('a' <= c && c <= 'z') || ('A' <= c && c <= 'Z')) {
            proof {
                assert(s@.subrange(from as int, to as int)[j - from] == s@[j as int]);
            }
            break;
        }
        j = j + 1;
    }
    j == to
}

/// Exact character-wise equality of two string slices.
fn str_eq_chars(a: &str, b: &str) -> (r: bool)
    ensures
        r == (a@ == b@),
{
    let na = a.unicode_len();
    let nb = b.unicode_len();
    if na != nb {
        proof {
            assert(a@ != b@);
        }
        return false;
    }
    let mut j: usize = 0;
    loop
        invariant
            j <= na,
            a@.len() == na as nat,
            b@.len() == nb as nat,
            na == nb,
            forall|t: int| 0 <= t < j ==> a@[t] == b@[t],
        ensures
            (j == na) == (a@ =~= b@),
        decreases na - j,
    {
        if j >= na {
            break;
        }
        if a.get_char(j) != b.get_char(j) {
            proof {
                assert(a@[j as int] != b@[j as int]);
            }
            break;
        }
        j = j + 1;
    }
    j == na
}

/// Adds one occurrence of flag `c`, keeping flags distinct and every count at
/// most `bound + 1`.
fn bump_flag(flags: &mut Vec<(char, u64)>, c: char, bound: Ghost<int>)
    requires
        distinct_chars(old(flags)@),
        forall|k: int| 0 <= k < old(flags)@.len() ==> (#[trigger] old(flags)@[k]).1 <= bound@,
        0 <= bound@,
        bound@ + 1 <= u64::MAX,
    ensures
        distinct_chars(final(flags)@),
        flag_map(final(flags)@) == bump(flag_map(old(flags)@), c),
        forall|k: int| 0 <= k < final(flags)@.len() ==> (#[trigger] final(flags)@[k]).1 <= bound@
            + 1,
{
    let n = flags.len();
    let mut k: usize = 0;
    loop
        invariant
            k <= n,
            n == flags@.len(),
            *flags == *old(flags),
            forall|t: int| 0 <= t < k ==> (#[trigger] flags@[t]).0 != c,
        ensures
            *flags == *old(flags),
            k <= n,
            k < n ==> flags@[k as int].0 == c,
            k == n ==> forall|t: int| 0 <= t < n ==> (#[trigger] flags@[t]).0 != c,
        decreases n - k,
    {
        if k >= n {
            break;
        }
        if flags[k].0 == c {
            break;
        }
        k = k + 1;
    }
    if k < n {
        let v = flags[k].1;
        proof {
            lemma_flag_map_lookup(flags@, k as int);
        }
        flags.set(k, (c, v + 1));
        proof {
            lemma_flag_map_update(old(flags)@, k as int, (v + 1) as u64);
            assert(flag_map(flags@) =~= bump(flag_map(old(flags)@), c));
        }
    } else {
        proof {
            lemma_flag_map_absent(flags@, c);
        }
        flags.push((c, 1));
        proof {
            lemma_flag_map_push(old(flags)@, (c, 1));
            assert(flag_map(flags@) =~= bump(flag_map(old(flags)@), c));
            assert(forall|a: int, b: int| 0 <= a < b < flags@.len() ==> (#[trigger] flags@[a]).0
                != (#[trigger] flags@[b]).0);
        }
    }
}

/// Whether a message invokes the group-creation command: it starts with
/// `/party`.
pub open spec fn is_party_command(s: Seq<char>) -> bool {
    s.len() >= 6 && s.subrange(0, 6) == seq!['/', 'p', 'a', 'r', 't', 'y']
}

/// Splits the command marker off a message: the rest of the text after
/// `/party`, or nothing for any other message.
pub fn command_rest(s: &str) -> (r: Option<String>)
    ensures
        match r {
            Some(rest) => is_party_command(s@) && rest@ == s@.skip(6),
            None => !is_party_command(s@),
        },
{
    let n = s.unicode_len();
    if n < 6 {
        proof {
            assert(!is_party_command(s@));
        }
        return None;
    }
    let ok = s.get_char(0) == '/' && s.get_char(1) == 'p' && s.get_char(2) == 'a' && s.get_char(3)
        == 'r' && s.get_char(4) == 't' && s.get_char(5) == 'y';
    if ok {
        let rest = s.substring_char(6, n).to_owned();
        proof {
            assert(s@.subrange(0, 6) =~= seq!['/', 'p', 'a', 'r', 't', 'y']);
            assert(rest@ =~= s@.skip(6));
        }
        Some(rest)
    } else {
        proof {
            if is_party_command(s@) {
                assert(s@.subrange(0, 6)[0] == s@[0]);
                assert(s@.subrange(0, 6)[1] == s@[1]);
                assert(s@.subrange(0, 6)[2] == s@[2]);
                assert(s@.subrange(0, 6)[3] == s@[3]);
                assert(s@.subrange(0, 6)[4] == s@[4]);
                assert(s@.subrange(0, 6)[5] == s@[5]);
            }
        }
        None
    }
}

impl Args {
    /// Parses a raw argument string.
    ///
    /// Returns `Err` exactly when the string has an unterminated quote or a
    /// `--key` marker that is not followed by a plain value; otherwise the
    /// result carries exactly the positional arguments, named arguments and
    /// flag counts that the token walk `run` yields.
    pub fn parse(s: &str) -> (r: Result<Args, ()>)
        ensures
            match r {
                Ok(a) => {
                    &&& a.wf()
                    &&& run(s@, 0, empty_acc()) == Some(
                        ParseAcc {
                            kwargs: a.kwargs_map(),
                            args: a.args_seq(),
                            flags: a.flags_map(),
                        },
                    )
                },
                Err(_) => run(s@, 0, empty_acc()) is None,
            },
    {
        let n = s.unicode_len();
        let mut kwargs: Vec<(String, String)> = Vec::new();
        let mut args: Vec<String> = Vec::new();
        let mut flags: Vec<(char, u64)> = Vec::new();
        let mut i: usize = 0;
        proof {
            assert(kwargs@ =~= Seq::<(String, String)>::empty());
            assert(args@.map_values(|t: String| t@) =~= Seq::<Seq<char>>::empty());
            assert(acc_of(kwargs@, args@, flags@) == empty_acc());
        }
        loop
            invariant
                i <= n,
                s@.len() == n as nat,
                distinct_chars(flags@),
                forall|k: int| 0 <= k < flags@.len() ==> (#[trigger] flags@[k]).1 <= i,
                run(s@, 0, empty_acc()) == run(s@, i as int, acc_of(kwargs@, args@, flags@)),
            ensures
                distinct_chars(flags@),
                run(s@, 0, empty_acc()) == Some(acc_of(kwargs@, args@, flags@)),
            decreases n - i,
        {
            let ghost acc0 = acc_of(kwargs@, args@, flags@);
            let j = skip_ws_exec(s, i, n);
            proof {
                lemma_skip_ws(s@, i as int);
            }
            if j >= n {
                proof {
                    assert(run(s@, i as int, acc0) == Some(acc0));
                }
                break;
            }
            let c = s.get_char(j);
            if c == '"' {
                match find_quote_exec(s, j + 1, n) {
                    None => {
                        proof {
                            assert(run(s@, i as int, acc0) is None);
                        }
                        return Err(());
                    },
                    Some(q) => {
                        let t = s.substring_char(j + 1, q).to_owned();
                        args.push(t);
                        proof {
                            assert(args@.map_values(|t2: String| t2@) =~= acc0.args.push(
                                s@.subrange(j + 1, q as int),
                            ));
                            assert(acc_of(kwargs@, args@, flags@) == ParseAcc {
                                args: acc0.args.push(s@.subrange(j + 1, q as int)),
                                ..acc0
                            });
                        }
                        i = q + 1;
                    },
                }
            } else {
                let e = word_end_exec(s, j, n);
                let ghost w = s@.subrange(j as int, e as int);
                let is_long = e - j > 2 && c == '-' && s.get_char(j + 1) == '-' && letters_range(
                    s,
                    j + 2,
                    e,
                );
                proof {
                    assert(w.len() == e - j);
                    if w.len() > 2 {
                        assert(w.skip(2) =~= s@.subrange(j + 2, e as int));
                        assert(w[0] == s@[j as int] && w[1] == s@[j + 1]);
                    }
                    if w.len() > 1 {
                        assert(w.skip(1) =~= s@.subrange(j + 1, e as int));
                        assert(w[0] == s@[j as int]);
                    }
                    assert(is_long == long_flag_shape(w));
                }
                if is_long {
                    let key = s.substring_char(j + 2, e).to_owned();
                    let k = skip_ws_exec(s, e, n);
                    proof {
                        lemma_skip_ws(s@, e as int);
                    }
                    if k >= n {
                        proof {
                            assert(run(s@, i as int, acc0) is None);
                        }
                        return Err(());
                    }
                    let ck = s.get_char(k);
                    if ck == '"' {
                        match find_quote_exec(s, k + 1, n) {
                            None => {
                                proof {
                                    assert(run(s@, i as int, acc0) is None);
                                }
                                return Err(());
                            },
                            Some(q) => {
                                let v = s.substring_char(k + 1, q).to_owned();
                                let ghost kw0 = kwargs@;
                                kwargs.push((key, v));
                                proof {
                                    lemma_assoc_push(kw0, (key, v));
                                    assert(acc_of(kwargs@, args@, flags@) == ParseAcc {
                                        kwargs: acc0.kwargs.insert(
                                            w.skip(2),
                                            s@.subrange(k + 1, q as int),
                                        ),
                                        ..acc0
                                    });
                                }
                                i = q + 1;
                            },
                        }
                    } else {
                        let e2 = word_end_exec(s, k, n);
                        let ghost w2 = s@.subrange(k as int, e2 as int);
                        let is_long2 = e2 - k > 2 && ck == '-' && s.get_char(k + 1) == '-'
                            && letters_range(s, k + 2, e2);
                        let is_short2 = e2 - k > 1 && ck == '-' && letters_range(s, k + 1, e2);
                        proof {
                            if w2.len() > 2 {
                                assert(w2.skip(2) =~= s@.subrange(k + 2, e2 as int));
                                assert(w2[0] == s@[k as int] && w2[1] == s@[k + 1]);
                            }
                            if w2.len() > 1 {
                                assert(w2.skip(1) =~= s@.subrange(k + 1, e2 as int));
                                assert(w2[0] == s@[k as int]);
                            }
                            assert(is_long2 == long_flag_shape(w2));
                            assert(is_short2 == short_flag_shape(w2));
                        }
                        if is_long2 || is_short2 {
                            proof {
                                assert(run(s@, i as int, acc0) is None);
                            }
                            return Err(());
                        }
                        let v = s.substring_char(k, e2).to_owned();
                        let ghost kw0 = kwargs@;
                        kwargs.push((key, v));
                        proof {
                            lemma_assoc_push(kw0, (key, v));
                            assert(acc_of(kwargs@, args@, flags@) == ParseAcc {
                                kwargs: acc0.kwargs.insert(w.skip(2), w2),
                                ..acc0
                            });
                        }
                        i = e2;
                    }
                } else {
                    let is_short = e - j > 1 && c == '-' && letters_range(s, j + 1, e);
                    proof {
                        assert(is_short == short_flag_shape(w));
                    }
                    if is_short {
                        let ghost fl0 = flags@;
                        let mut idx = j + 1;
                        loop
                            invariant
                                j + 1 <= idx <= e,
                                e <= n,
                                s@.len() == n as nat,
                                distinct_chars(flags@),
                                forall|k2: int| 0 <= k2 < flags@.len() ==> (
                                #[trigger] flags@[k2]).1 <= idx,
                                bump_all(flag_map(flags@), s@.subrange(idx as int, e as int))
                                    == bump_all(flag_map(fl0), s@.subrange(j + 1, e as int)),
                            ensures
                                distinct_chars(flags@),
                                forall|k2: int| 0 <= k2 < flags@.len() ==> (
                                #[trigger] flags@[k2]).1 <= e,
                                flag_map(flags@) == bump_all(flag_map(fl0), s@.subrange(
                                    j + 1,
                                    e as int,
                                )),
                            decreases e - idx,
                        {
                            if idx >= e {
                                proof {
                                    assert(s@.subrange(idx as int, e as int).len() == 0);
                                }
                                break;
                            }
                            let fc = s.get_char(idx);
                            let ghost fm_pre = flag_map(flags@);
                            bump_flag(&mut flags, fc, Ghost(idx as int));
                            proof {
                                let rest = s@.subrange(idx as int, e as int);
                                assert(rest[0] == s@[idx as int]);
                                assert(rest.skip(1) =~= s@.subrange(idx + 1, e as int));
                                assert(bump_all(fm_pre, rest) == bump_all(
                                    bump(fm_pre, fc),
                                    s@.subrange(idx + 1, e as int),
                                ));
                            }
                            idx = idx + 1;
                        }
                        proof {
                            assert(acc_of(kwargs@, args@, flags@) == ParseAcc {
                                flags: bump_all(acc0.flags, w.skip(1)),
                                ..acc0
                            });
                        }
                        i = e;
                    } else {
                        let t = s.substring_char(j, e).to_owned();
                        args.push(t);
                        proof {
                            assert(args@.map_values(|t2: String| t2@) =~= acc0.args.push(w));
                            assert(acc_of(kwargs@, args@, flags@) == ParseAcc {
                                args: acc0.args.push(w),
                                ..acc0
                            });
                        }
                        i = e;
                    }
                }
            }
        }
        Ok(Args { kwargs, args, flags })
    }

    /// Looks a named argument up; the value of the last `--key value` pair
    /// with this key, if any.
    pub fn kwarg(&self, key: &str) -> (r: Option<&String>)
        ensures
            match r {
                Some(v) => self.kwargs_map().contains_key(key@) && self.kwargs_map()[key@] == v@,
                None => !self.kwargs_map().contains_key(key@),
            },
    {
        let n = self.kwargs.len();
        let mut idx = n;
        loop
            invariant_except_break
                forall|t: int| idx <= t < n ==> (#[trigger] self.kwargs@[t]).0@ != key@,
            invariant
                idx <= n,
                n == self.kwargs@.len(),
            ensures
                idx <= n,
                idx < n ==> self.kwargs@[idx as int].0@ == key@ && forall|t: int|
                    idx < t < n ==> (#[trigger] self.kwargs@[t]).0@ != key@,
                idx == n ==> forall|t: int| 0 <= t < n ==> (#[trigger] self.kwargs@[t]).0@
                    != key@,
            decreases idx,
        {
            if idx == 0 {
                proof {
                    assert(forall|t: int| 0 <= t < n ==> (#[trigger] self.kwargs@[t]).0@
                        != key@);
                }
                idx = n;
                break;
            }
            idx = idx - 1;
            if str_eq_chars(self.kwargs[idx].0.as_str(), key) {
                break;
            }
        }
        if idx < n {
            proof {
                lemma_assoc_last_match(self.kwargs@, idx as int);
            }
            Some(&self.kwargs[idx].1)
        } else {
            proof {
                lemma_assoc_absent(self.kwargs@, key@);
            }
            None
        }
    }

    /// How many times flag `c` was given.
    pub fn flag_count(&self, c: char) -> (r: u64)
        requires
            self.wf(),
        ensures
            r as nat == if self.flags_map().contains_key(c) {
                self.flags_map()[c]
            } else {
                0nat
            },
    {
        let n = self.flags.len();
        let mut k: usize = 0;
        loop
            invariant
                k <= n,
                n == self.flags@.len(),
                self.wf(),
                forall|t: int| 0 <= t < k ==> (#[trigger] self.flags@[t]).0 != c,
            ensures
                k <= n,
                k < n ==> self.flags@[k as int].0 == c,
                k == n ==> forall|t: int| 0 <= t < n ==> (#[trigger] self.flags@[t]).0 != c,
            decreases n - k,
        {
            if k >= n {
                break;
            }
            if self.flags[k].0 == c {
                break;
            }
            k = k + 1;
        }
        if k < n {
            proof {
                lemma_flag_map_lookup(self.flags@, k as int);
            }
            self.flags[k].1
        } else {
            proof {
                lemma_flag_map_absent(self.flags@, c);
            }
            0
        }
    }
}

} // verus!

