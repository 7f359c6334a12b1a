//! Decimal text of signed integers, as the changeset format writes them.

use vstd::prelude::*;

verus! {

/// The decimal digits of `n`, without leading zeros.
pub open spec fn nat_dec(n: nat) -> Seq<u8>
    decreases n,
{
    if n < 10 {
        seq![(48 + n) as u8]
    } else {
        nat_dec(n / 10) + seq![(48 + n % 10) as u8]
    }
}

/// The decimal text of `n`: a minus sign for negative values, then digits.
pub open spec fn int_dec(n: int) -> Seq<u8> {
    if n < 0 {
        seq![45u8] + nat_dec((-n) as nat)
    } else {
        nat_dec(n as nat)
    }
}

pub open spec fn is_digit(c: u8) -> bool {
    48 <= c <= 57
}

pub open spec fn all_digits(s: Seq<u8>) -> bool {
    forall|i: int| 0 <= i < s.len() ==> is_digit(#[trigger] s[i])
}

/// The value of a string of digits.
pub open spec fn digits_value(s: Seq<u8>) -> int
    decreases s.len(),
{
    if s.len() == 0 {
        0
    } else {
        digits_value(s.drop_last()) * 10 + (s.last() - 48)
    }
}

pub proof fn lemma_nat_dec(n: nat)
    ensures
        nat_dec(n).len() > 0,
        all_digits(nat_dec(n)),
        digits_value(nat_dec(n)) == n,
    decreases n,
{
    let s = nat_dec(n);
    if n >= 10 {
        lemma_nat_dec(n / 10);
        assert(s.drop_last() =~= nat_dec(n / 10));
        assert((n / 10) * 10 + n % 10 == n) by (nonlinear_arith);
        assert(s.last() == 48 + n % 10);
        assert(digits_value(s) == digits_value(s.drop_last()) * 10 + (s.last() - 48));
        assert(digits_value(s.drop_last()) == n / 10);
    } else {
        assert(s.drop_last() =~= Seq::<u8>::empty());
        assert(s.last() == 48 + n);
        assert(digits_value(s) == digits_value(s.drop_last()) * 10 + (s.last() - 48));
        assert(digits_value(Seq::<u8>::empty()) == 0);
    }
}

proof fn lemma_digits_prefix(s: Seq<u8>, i: int)
    requires
        all_digits(s),
        0 <= i <= s.len(),
    ensures
        0 <= digits_value(s.take(i)) <= digits_value(s),
    decreases s.len(),
{
    if i == s.len() {
        assert(s.take(i) =~= s);
        if s.len() > 0 {
            lemma_digits_prefix(s.drop_last(), 0);
        }
    } else {
        assert(s.drop_last().take(i) =~= s.take(i));
        lemma_digits_prefix(s.drop_last(), i);
    }
}

/// The decimal text of an integer contains no space, newline or NUL.
pub proof fn lemma_int_dec_chars(n: int)
    ensures
        int_dec(n).len() > 0,
        forall|i: int| 0 <= i < int_dec(n).len() ==> (#[trigger] int_dec(n)[i] == 45 || is_digit(int_dec(n)[i])),
{
    if n < 0 {
        lemma_nat_dec((-n) as nat);
    } else {
        lemma_nat_dec(n as nat);
    }
}

proof fn lemma_nat_dec_first(n: nat)
    ensures
        n >= 1 ==> nat_dec(n)[0] != 48,
        n == 0 ==> nat_dec(n).len() == 1,
    decreases n,
{
    if n >= 10 {
        lemma_nat_dec_first(n / 10);
        lemma_nat_dec(n / 10);
        assert(nat_dec(n)[0] == nat_dec(n / 10)[0]);
    }
}

proof fn lemma_digits_lower(s: Seq<u8>)
    requires
        all_digits(s),
        s.len() >= 1,
        s[0] != 48,
    ensures
        digits_value(s) >= 1,
        s.len() >= 2 ==> digits_value(s) >= 10,
    decreases s.len(),
{
    assert(digits_value(s) == digits_value(s.drop_last()) * 10 + (s.last() - 48));
    if s.len() >= 2 {
        let d = s.drop_last();
        assert(d[0] == s[0]);
        lemma_digits_lower(d);
        assert(s.last() >= 48);
    } else {
        assert(s.drop_last() =~= Seq::<u8>::empty());
        assert(digits_value(Seq::<u8>::empty()) == 0);
        assert(s.last() == s[0]);
    }
}

/// Digits without a superfluous leading zero are the decimal text of their
/// value.
proof fn lemma_dec_canonical(s: Seq<u8>)
    requires
        all_digits(s),
        s.len() > 0,
        s.len() > 1 ==> s[0] != 48,
    ensures
        nat_dec(digits_value(s) as nat) == s,
    decreases s.len(),
{
    let v = digits_value(s);
    if s.len() == 1 {
        assert(s.drop_last() =~= Seq::<u8>::empty());
        assert(digits_value(Seq::<u8>::empty()) == 0);
        assert(s.last() == s[0]);
        assert(v == digits_value(s.drop_last()) * 10 + (s.last() - 48));
        assert(v == s[0] - 48);
        assert(nat_dec(v as nat) =~= s);
    } else {
        let d = s.drop_last();
        assert(d[0] == s[0]);
        lemma_digits_prefix(s, 0);
        lemma_digits_prefix(d, 0);
        lemma_digits_lower(s);
        lemma_dec_canonical(d);
        let dv = digits_value(d);
        assert(v == dv * 10 + (s.last() - 48));
        assert(v / 10 == dv && v % 10 == s.last() - 48) by (nonlinear_arith)
            requires v == dv * 10 + (s.last() - 48), 0 <= s.last() - 48 < 10;
        assert(nat_dec(v as nat) == nat_dec((v / 10) as nat) + seq![(48 + v % 10) as u8]);
        assert(nat_dec(v as nat) =~= s);
    }
}

fn push_nat(out: &mut Vec<u8>, n: u64)
    ensures
        final(out)@ == old(out)@ + nat_dec(n as nat),
    decreases n,
{
    if n >= 10 {
        push_nat(out, n / 10);
    }
    out.push(48 + (n % 10) as u8);
    proof {
        if n >= 10 {
            assert(final(out)@ =~= old(out)@ + nat_dec(n as nat));
        } else {
            assert(final(out)@ =~= old(out)@ + nat_dec(n as nat));
        }
    }
}

/// Appends the decimal text of `n` to `out`.
pub fn push_int(out: &mut Vec<u8>, n: i64)
    ensures
        final(out)@ == old(out)@ + int_dec(n as int),
{
    if n < 0 {
        out.push(45);
        let m: u64 = if n == i64::MIN {
            9223372036854775808u64
        } else {
            (-n) as u64
        };
        let ghost mid = out@;
        push_nat(out, m);
        assert(out@ =~= old(out)@ + int_dec(n as int));
    } else {
        push_nat(out, n as u64);
    }
}

fn parse_digits(s: &Vec<u8>, start: usize, end: usize, limit: u64) -> (r: Option<u64>)
    requires
        start <= end <= s@.len(),
        limit >= 9,
    ensures
        r matches Some(v) ==> v <= limit,
        r is Some ==> start < end && all_digits(s@.subrange(start as int, end as int)),
        r matches Some(v) ==> v == digits_value(s@.subrange(start as int, end as int)),
        (start < end && all_digits(s@.subrange(start as int, end as int)) && digits_value(
            s@.subrange(start as int, end as int),
        ) <= limit) ==> r is Some,
{
    if start == end {
        return None;
    }
    let ghost t = s@.subrange(start as int, end as int);
    let mut v: u64 = 0;
    let mut i: usize = start;
    while i < end
        invariant
            start <= i <= end <= s@.len(),
            t == s@.subrange(start as int, end as int),
            v == digits_value(t.take(i - start)),
            forall|j: int| 0 <= j < i - start ==> is_digit(#[trigger] t[j]),
            v <= limit,
            limit >= 9,
        decreases end - i,
    {
        let c = s[i];
        if c < 48 || c > 57 {
            assert(t[i - start] == c);
            return None;
        }
        let d = (c - 48) as u64;
        proof {
            assert(t.take(i - start + 1).drop_last() =~= t.take(i - start));
        }
        if v > (limit - d) / 10 {
            proof {
                if all_digits(t) && digits_value(t) <= limit {
                    lemma_digits_prefix(t, i - start + 1);
                    assert(v * 10 + d > limit) by (nonlinear_arith)
                        requires v > (limit - d) / 10, d <= limit || d > limit, v >= 0, d >= 0, limit >= 0;
                }
            }
            return None;
        }
        assert(v * 10 + d <= limit) by (nonlinear_arith)
            requires v <= (limit - d) / 10, d <= limit || v == 0, v >= 0;
        v = v * 10 + d;
        i = i + 1;
    }
    assert(t.take(end - start) =~= t);
    assert(all_digits(t));
    Some(v)
}

/// The integer whose decimal text is `s[start..end]`.
pub fn parse_int(s: &Vec<u8>, start: usize, end: usize) -> (r: Option<i64>)
    requires
        start <= end <= s@.len(),
    ensures
        forall|n: i64| #[trigger] int_dec(n as int) == s@.subrange(start as int, end as int) ==> r == Some(n),
        r matches Some(n) ==> int_dec(n as int) == s@.subrange(start as int, end as int),
{
    let digits_start: usize = if start < end && s[start] == 45 {
        start + 1
    } else {
        start
    };
    if end - digits_start > 1 && s[digits_start] == 48 {
        proof {
            assert forall|n: i64| #[trigger] int_dec(n as int) == s@.subrange(start as int, end as int) implies false by {
                let sub = s@.subrange(start as int, end as int);
                if n < 0 {
                    lemma_nat_dec_first((-n) as nat);
                    assert(sub[digits_start - start] == nat_dec((-n) as nat)[0]);
                } else {
                    lemma_nat_dec_first(n as nat);
                    lemma_nat_dec(n as nat);
                    if n >= 1 {
                        assert(sub[0] == nat_dec(n as nat)[0]);
                    }
                }
            }
        }
        return None;
    }
    if start < end && s[start] == 45 {
        let r = parse_digits(s, start + 1, end, 9223372036854775808u64);
        proof {
            assert forall|n: i64| #[trigger] int_dec(n as int) == s@.subrange(start as int, end as int) implies n < 0 && r == Some((-n) as u64) by {
                if n < 0 {
                    lemma_nat_dec((-n) as nat);
                    let sub = s@.subrange(start as int, end as int);
                    assert(s@.subrange(start + 1, end as int) =~= sub.skip(1));
                    assert((seq![45u8] + nat_dec((-n) as nat)).skip(1) =~= nat_dec((-n) as nat));
                } else {
                    lemma_nat_dec(n as nat);
                    assert(is_digit(int_dec(n as int)[0]));
                }
            }
        }
        proof {
            if r is Some {
                let d = s@.subrange(start + 1, end as int);
                lemma_dec_canonical(d);
                assert(s@.subrange(start as int, end as int) =~= seq![45u8] + d);
            }
        }
        match r {
            Some(v) => if v == 9223372036854775808u64 {
                Some(i64::MIN)
            } else if v == 0 {
                None
            } else {
                Some(-(v as i64))
            },
            None => None,
        }
    } else {
        let r = parse_digits(s, start, end, 9223372036854775807u64);
        proof {
            assert forall|n: i64| #[trigger] int_dec(n as int) == s@.subrange(start as int, end as int) implies n >= 0 && r == Some(n as u64) by {
                if n < 0 {
                    lemma_nat_dec((-n) as nat);
                    let sub = s@.subrange(start as int, end as int);
                    assert(int_dec(n as int)[0] == 45);
                    assert(sub.len() > 0);
                    assert(sub[0] == s@[start as int]);
                } else {
                    lemma_nat_dec(n as nat);
                    let sub = s@.subrange(start as int, end as int);
                    assert(sub == nat_dec(n as nat));
                    assert(all_digits(sub));
                    assert(digits_value(sub) == n);
                    assert(start < end);
                }
            }
        }
        proof {
            if r is Some {
                lemma_dec_canonical(s@.subrange(start as int, end as int));
            }
        }
        match r {
            Some(v) => Some(v as i64),
            None => None,
        }
    }
}

} // verus!
