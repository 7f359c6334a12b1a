//! Lowercase hexadecimal text of byte strings.

use vstd::prelude::*;

verus! {

pub open spec fn hex_digit(v: u8) -> u8 {
    if v < 10 {
        (48 + v) as u8
    } else {
        (87 + v) as u8
    }
}

/// The lowercase hex text of `b`, two digits per byte, high nibble first.
pub open spec fn hex_of(b: Seq<u8>) -> Seq<u8>
    decreases b.len(),
{
    if b.len() == 0 {
        Seq::empty()
    } else {
        hex_of(b.drop_last()) + seq![hex_digit(b.last() / 16), hex_digit(b.last() % 16)]
    }
}

/// The value of a lowercase hex digit, if `c` is one.
pub open spec fn hex_value(c: u8) -> Option<int> {
    if 48 <= c <= 57 {
        Some(c - 48)
    } else if 97 <= c <= 102 {
        Some(c - 87)
    } else {
        None
    }
}

pub proof fn lemma_hex_len(b: Seq<u8>)
    ensures
        hex_of(b).len() == 2 * b.len(),
    decreases b.len(),
{
    if b.len() > 0 {
        lemma_hex_len(b.drop_last());
    }
}

pub proof fn lemma_hex_index(b: Seq<u8>, i: int)
    requires
        0 <= i < b.len(),
    ensures
        hex_of(b)[2 * i] == hex_digit(b[i] / 16),
        hex_of(b)[2 * i + 1] == hex_digit(b[i] % 16),
    decreases b.len(),
{
    lemma_hex_len(b.drop_last());
    if i < b.len() - 1 {
        lemma_hex_index(b.drop_last(), i);
    }
}

pub proof fn lemma_hex_ascii(b: Seq<u8>)
    ensures
        forall|i: int| 0 <= i < hex_of(b).len() ==> hex_value(#[trigger] hex_of(b)[i]) is Some,
        forall|i: int| 0 <= i < hex_of(b).len() ==> #[trigger] hex_of(b)[i] != 10,
{
    lemma_hex_len(b);
    assert forall|i: int| 0 <= i < hex_of(b).len() implies hex_value(#[trigger] hex_of(b)[i]) is Some
        && hex_of(b)[i] != 10 by {
        lemma_hex_index(b, i / 2);
    }
}

fn hex_digit_exec(v: u8) -> (r: u8)
    requires
        v < 16,
    ensures
        r == hex_digit(v),
{
    if v < 10 {
        48 + v
    } else {
        87 + v
    }
}

/// Appends the hex text of `b` to `out`.
pub fn push_hex(out: &mut Vec<u8>, b: &[u8])
    ensures
        final(out)@ == old(out)@ + hex_of(b@),
{
    let mut i: usize = 0;
    while i < b.len()
        invariant
            i <= b@.len(),
            out@ == old(out)@ + hex_of(b@.take(i as int)),
        decreases b@.len() - i,
    {
        let x = b[i];
        out.push(hex_digit_exec(x / 16));
        out.push(hex_digit_exec(x % 16));
        proof {
            let t = b@.take(i + 1);
            assert(t.drop_last() =~= b@.take(i as int));
            assert(out@ =~= old(out)@ + hex_of(t));
        }
        i = i + 1;
    }
    assert(b@.take(b@.len() as int) =~= b@);
}

fn hex_value_exec(c: u8) -> (r: Option<u8>)
    ensures
        r matches Some(v) ==> hex_value(c) == Some(v as int),
        r is None ==> hex_value(c) is None,
{
    if 48 <= c && c <= 57 {
        Some(c - 48)
    } else if 97 <= c && c <= 102 {
        Some(c - 87)
    } else {
        None
    }
}

/// The 20 bytes whose hex text is `s[start..start + 40]`, if it is one.
pub fn parse_hex20(s: &Vec<u8>, start: usize) -> (r: Option<[u8; 20]>)
    requires
        start + 40 <= s@.len(),
    ensures
        r matches Some(a) ==> hex_of(a@) == s@.subrange(start as int, start + 40),
        (exists|b: Seq<u8>| b.len() == 20 && hex_of(b) == s@.subrange(start as int, start + 40))
            ==> r is Some,
{
    let len = s.len();
    let mut a: [u8; 20] = [0u8; 20];
    let mut i: usize = 0;
    while i < 20
        invariant
            len == s@.len(),
            start + 40 <= s@.len(),
            i <= 20,
            a@.len() == 20,
            hex_of(a@.take(i as int)) == s@.subrange(start as int, start + 2 * i),
        decreases 20 - i,
    {
        let hi = hex_value_exec(s[start + 2 * i]);
        let lo = hex_value_exec(s[start + 2 * i + 1]);
        match (hi, lo) {
            (Some(h), Some(l)) => {
                let ghost old_a = a@;
                a[i] = h * 16 + l;
                proof {
                    assert(a@.take(i as int) =~= old_a.take(i as int));
                    let t = a@.take(i + 1);
                    assert(t.drop_last() =~= a@.take(i as int));
                    assert(t.last() == h * 16 + l);
                    assert((h * 16 + l) / 16 == h && (h * 16 + l) % 16 == l) by (nonlinear_arith)
                        requires h < 16, l < 16;
                    assert(hex_digit(h) == s@[start + 2 * i]);
                    assert(hex_digit(l) == s@[start + 2 * i + 1]);
                    assert(hex_of(t) =~= s@.subrange(start as int, start + 2 * (i + 1)));
                }
            },
            _ => {
                proof {
                    if exists|b: Seq<u8>| b.len() == 20 && hex_of(b) == s@.subrange(start as int, start + 40) {
                        let b = choose|b: Seq<u8>| b.len() == 20 && hex_of(b) == s@.subrange(start as int, start + 40);
                        lemma_hex_index(b, i as int);
                        assert(s@.subrange(start as int, start + 40)[2 * i] == s@[start + 2 * i]);
                        assert(s@.subrange(start as int, start + 40)[2 * i + 1] == s@[start + 2 * i + 1]);
                        assert(hex_value(hex_digit(b[i as int] / 16)) is Some);
                        assert(hex_value(hex_digit(b[i as int] % 16)) is Some);
                    }
                }
                return None;
            },
        }
        i = i + 1;
    }
    assert(a@.take(20) =~= a@);
    Some(a)
}

} // verus!
