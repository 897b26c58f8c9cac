//! Reading a user id out of a command argument: a plain decimal number,
//! optionally with a leading plus sign, as the standard integer parser
//! accepts it.
use vstd::prelude::*;

verus! {

pub open spec fn is_digit(c: char) -> bool {
    '0' <= c && c <= '9'
}

pub open spec fn digit_val(c: char) -> int {
    c as int - '0' as int
}

pub open spec fn all_digits(s: Seq<char>) -> bool {
    forall|i: int| 0 <= i < s.len() ==> is_digit(#[trigger] s[i])
}

/// The value of a digit string, most significant first.
pub open spec fn dec_val(s: Seq<char>) -> int
    decreases s.len(),
{
    if s.len() == 0 {
        0
    } else {
        dec_val(s.drop_last()) * 10 + digit_val(s.last())
    }
}

pub proof fn lemma_dec_val_nonneg(s: Seq<char>)
    requires
        all_digits(s),
    ensures
        dec_val(s) >= 0,
    decreases s.len(),
{
    if s.len() > 0 {
        assert(s.last() == s[s.len() - 1]);
        assert(forall|i: int| 0 <= i < s.drop_last().len() ==> is_digit(
            #[trigger] s.drop_last()[i],
        ));
        lemma_dec_val_nonneg(s.drop_last());
    }
}

/// Extending a digit string to the right never shrinks its value.
pub proof fn lemma_dec_val_prefix(s: Seq<char>, i: int, j: int)
    requires
        0 <= i <= j <= s.len(),
        all_digits(s),
    ensures
        dec_val(s.subrange(0, i)) <= dec_val(s.subrange(0, j)),
    decreases j - i,
{
    if i < j {
        lemma_dec_val_prefix(s, i, j - 1);
        let p = s.subrange(0, j - 1);
        let q = s.subrange(0, j);
        assert(q.drop_last() =~= p);
        assert(is_digit(q.last()));
        assert(forall|t: int| 0 <= t < p.len() ==> is_digit(#[trigger] p[t]));
        lemma_dec_val_nonneg(p);
        assert(dec_val(q) == dec_val(p) * 10 + digit_val(q.last()));
        assert(dec_val(p) * 10 >= dec_val(p));
    }
}

/// The digit part of a user reference: the whole string, or what follows one
/// leading `+`.
pub open spec fn digits_part(s: Seq<char>) -> Seq<char> {
    if s.len() > 0 && s[0] == '+' {
        s.skip(1)
    } else {
        s
    }
}

/// What it means for an argument to read as a user id `v`: an optional
/// leading plus, then at least one digit, all digits, with value `v` in
/// range.
pub open spec fn reads_as_user_id(s: Seq<char>, v: u64) -> bool {
    let d = digits_part(s);
    d.len() > 0 && all_digits(d) && dec_val(d) == v as int
}

/// Whether an argument reads as any user id at all.
pub open spec fn is_user_id_arg(s: Seq<char>) -> bool {
    let d = digits_part(s);
    d.len() > 0 && all_digits(d) && dec_val(d) <= u64::MAX
}

/// Parses an argument as a user id, as the standard unsigned parser would:
/// an optional `+`, then decimal digits, rejecting overflow.
pub fn parse_user_id(s: &str) -> (r: Option<u64>)
    ensures
        match r {
            Some(v) => reads_as_user_id(s@, v),
            None => !is_user_id_arg(s@),
        },
{
    let n = s.unicode_len();
    let start: usize = if n > 0 && s.get_char(0) == '+' {
        1
    } else {
        0
    };
    let ghost d = digits_part(s@);
    proof {
        assert(d =~= s@.subrange(start as int, n as int));
    }
    if start >= n {
        return None;
    }
    let mut val: u64 = 0;
    let mut i: usize = start;
    loop
        invariant
            start <= i <= n,
            s@.len() == n as nat,
            start <= 1,
            d == digits_part(s@),
            d == s@.subrange(start as int, n as int),
            all_digits(s@.subrange(start as int, i as int)),
            val as int == dec_val(s@.subrange(start as int, i as int)),
        ensures
            i == n,
            all_digits(d),
            val as int == dec_val(d),
        decreases n - i,
    {
        if i >= n {
            proof {
                assert(s@.subrange(start as int, n as int) =~= d);
            }
            break;
        }
        let c = s.get_char(i);
        if !('0' <= c && c <= '9') {
            proof {
                assert(d[i - start] == s@[i as int]);
                assert(!is_digit(d[i - start]));
                assert(!all_digits(d));
                assert(!is_user_id_arg(s@));
            }
            return None;
        }
        let dig: u64 = (c as u32 as u64) - ('0' as u32 as u64);
        let ghost pre = s@.subrange(start as int, i as int);
        let ghost post = s@.subrange(start as int, i + 1);
        proof {
            assert(post.drop_last() =~= pre);
            assert(post.last() == s@[i as int]);
            assert(forall|t: int| 0 <= t < post.len() ==> is_digit(#[trigger] post[t]));
            lemma_dec_val_nonneg(pre);
        }
        if val > (u64::MAX - dig) / 10 {
            proof {
                assert(dec_val(post) == val as int * 10 + dig);
                assert(val as int * 10 + dig > u64::MAX) by (nonlinear_arith)
                    requires
                        val as int > (u64::MAX as int - dig) / 10,
                        0 <= dig <= 9,
                ;
                if all_digits(d) {
                    assert(d.len() == n - start);
                    assert(d.subrange(0, i + 1 - start) =~= post);
                    lemma_dec_val_prefix(d, i + 1 - start, n - start);
                    assert(d.subrange(0, n - start) =~= d);
                    assert(dec_val(post) <= dec_val(d));
                    assert(dec_val(d) > u64::MAX);
                }
                assert(!is_user_id_arg(s@));
            }
            return None;
        }
        proof {
            assert(val as int * 10 + dig <= u64::MAX) by (nonlinear_arith)
                requires
                    val as int <= (u64::MAX as int - dig) / 10,
                    0 <= dig <= 9,
            ;
        }
        val = val * 10 + dig;
        i = i + 1;
    }
    Some(val)
}

} // verus!
