//! The stored form of a changeset: its parents, in the caller's order, and
//! its canonical text, in a length-framed container.
//!
//! Each parent is a `0` byte when absent, or a `1` byte and its 20 bytes.
//! Then come the text's length in decimal, a newline, and the text.

use crate::changeset::{opt_hash_view, NodeHash};
use crate::decimal::{int_dec, lemma_int_dec_chars, parse_int, push_int};
use crate::extras_text::find_byte;
use crate::slices::{append_bytes, copy_range};
use vstd::prelude::*;

verus! {

pub open spec fn parent_field(p: Option<Seq<u8>>) -> Seq<u8> {
    match p {
        None => seq![0u8],
        Some(h) => seq![1u8] + h,
    }
}

/// The stored bytes of a changeset with parents `p1`, `p2` and text `body`.
pub open spec fn envelope_of(p1: Option<Seq<u8>>, p2: Option<Seq<u8>>, body: Seq<u8>) -> Seq<u8> {
    parent_field(p1) + parent_field(p2) + int_dec(body.len() as int) + seq![10u8] + body
}

/// `p` is a parent as it can be stored: absent, or 20 bytes.
pub open spec fn storable(p: Option<Seq<u8>>) -> bool {
    p matches Some(h) ==> h.len() == 20
}

fn push_parent(out: &mut Vec<u8>, p: &Option<NodeHash>)
    ensures
        final(out)@ == old(out)@ + parent_field(opt_hash_view(*p)),
{
    match p {
        None => {
            out.push(0);
            assert(out@ =~= old(out)@ + parent_field(opt_hash_view(*p)));
        },
        Some(h) => {
            out.push(1);
            let mut i: usize = 0;
            while i < 20
                invariant
                    i <= 20,
                    h@.len() == 20,
                    out@ == old(out)@ + seq![1u8] + h@.take(i as int),
                decreases 20 - i,
            {
                out.push(h.bytes[i]);
                i = i + 1;
                assert(out@ =~= old(out)@ + seq![1u8] + h@.take(i as int));
            }
            assert(h@.take(20) =~= h@);
            assert(out@ =~= old(out)@ + parent_field(opt_hash_view(*p)));
        },
    }
}

/// The stored bytes of a changeset.
pub fn encode_envelope(p1: &Option<NodeHash>, p2: &Option<NodeHash>, body: &Vec<u8>) -> (r: Vec<u8>)
    requires
        body@.len() <= i64::MAX,
    ensures
        r@ == envelope_of(opt_hash_view(*p1), opt_hash_view(*p2), body@),
{
    let mut out: Vec<u8> = Vec::new();
    push_parent(&mut out, p1);
    push_parent(&mut out, p2);
    push_int(&mut out, body.len() as i64);
    out.push(10);
    append_bytes(&mut out, body);
    assert(out@ =~= envelope_of(opt_hash_view(*p1), opt_hash_view(*p2), body@));
    out
}

pub open spec fn envelope_cond(s: Seq<u8>, pos: int, p: Option<Seq<u8>>, rest: Seq<u8>) -> bool {
    storable(p) && s.skip(pos) == parent_field(p) + rest
}

/// Reads a parent field at `pos`; returns the parent and where the field ends.
fn read_parent(s: &Vec<u8>, pos: usize) -> (r: Option<(Option<NodeHash>, usize)>)
    requires
        pos <= s@.len(),
    ensures
        r matches Some((_, e)) ==> pos < e <= s@.len(),
        r matches Some((q, e)) ==> s@.subrange(pos as int, e as int) == parent_field(opt_hash_view(q)),
        forall|p: Option<Seq<u8>>, rest: Seq<u8>| #[trigger] envelope_cond(s@, pos as int, p, rest) ==> (r matches Some(
            (q, e),
        ) && opt_hash_view(q) == p && s@.skip(e as int) == rest),
{
    if pos >= s.len() {
        proof {
            assert forall|p: Option<Seq<u8>>, rest: Seq<u8>| #[trigger] envelope_cond(s@, pos as int, p, rest) implies false by {
                assert(s@.skip(pos as int).len() == 0);
            }
        }
        return None;
    }
    let flag = s[pos];
    proof {
        assert forall|p: Option<Seq<u8>>, rest: Seq<u8>| #[trigger] envelope_cond(s@, pos as int, p, rest) implies (
        flag == 0 <==> p is None) && (flag == 1 <==> p is Some) by {
            assert(s@.skip(pos as int)[0] == flag);
        }
    }
    if flag == 0 {
        proof {
            assert forall|p: Option<Seq<u8>>, rest: Seq<u8>| #[trigger] envelope_cond(s@, pos as int, p, rest) implies s@.skip(
            pos + 1) == rest by {
                assert(s@.skip(pos + 1) =~= s@.skip(pos as int).skip(1));
                assert((parent_field(p) + rest).skip(1) =~= rest);
            }
            assert(s@.subrange(pos as int, pos + 1) =~= seq![0u8]);
        }
        Some((None, pos + 1))
    } else if flag == 1 {
        if s.len() - pos < 21 {
            proof {
                assert forall|p: Option<Seq<u8>>, rest: Seq<u8>| #[trigger] envelope_cond(s@, pos as int, p, rest) implies false by {
                    assert(s@.skip(pos as int).len() >= 21);
                }
            }
            return None;
        }
        let len = s.len();
        let mut a: [u8; 20] = [0u8; 20];
        let mut i: usize = 0;
        while i < 20
            invariant
                len == s@.len(),
                pos + 21 <= s@.len(),
                i <= 20,
                a@.len() == 20,
                a@.take(i as int) == s@.subrange(pos + 1, pos + 1 + i),
            decreases 20 - i,
        {
            let ghost old_a = a@;
            a[i] = s[pos + 1 + i];
            assert(a@.take(i as int) =~= old_a.take(i as int));
            i = i + 1;
            assert(a@.take(i as int) =~= s@.subrange(pos + 1, pos + 1 + i));
        }
        assert(a@.take(20) =~= a@);
        proof {
            assert forall|p: Option<Seq<u8>>, rest: Seq<u8>| #[trigger] envelope_cond(s@, pos as int, p, rest) implies opt_hash_view(
                Some(NodeHash { bytes: a }),
            ) == p && s@.skip(pos + 21) == rest by {
                let h = p->0;
                let t = s@.skip(pos as int);
                assert(t == seq![1u8] + h + rest);
                assert(t.subrange(1, 21) =~= h);
                assert(s@.subrange(pos + 1, pos + 21) =~= t.subrange(1, 21));
                assert(s@.skip(pos + 21) =~= t.skip(21));
                assert(t.skip(21) =~= rest);
            }
        }
        assert(s@.subrange(pos as int, pos + 21) =~= seq![1u8] + a@);
        Some((Some(NodeHash { bytes: a }), pos + 21))
    } else {
        None
    }
}

pub open spec fn decode_cond(s: Seq<u8>, p1: Option<Seq<u8>>, p2: Option<Seq<u8>>, body: Seq<u8>) -> bool {
    storable(p1) && storable(p2) && body.len() <= i64::MAX && s == envelope_of(p1, p2, body)
}

/// Reads the parents and text out of stored bytes. The stored bytes of any
/// parents and text read back as exactly those.
pub fn decode_envelope(s: &Vec<u8>) -> (r: Option<(Option<NodeHash>, Option<NodeHash>, Vec<u8>)>)
    ensures
        forall|p1: Option<Seq<u8>>, p2: Option<Seq<u8>>, body: Seq<u8>| #[trigger] decode_cond(s@, p1, p2, body) ==> (r matches Some(
            (q1, q2, b),
        ) && opt_hash_view(q1) == p1 && opt_hash_view(q2) == p2 && b@ == body),
        r matches Some((q1, q2, b)) ==> decode_cond(s@, opt_hash_view(q1), opt_hash_view(q2), b@),
{
    let len = s.len();
    proof {
        assert forall|p1: Option<Seq<u8>>, p2: Option<Seq<u8>>, body: Seq<u8>| #[trigger] decode_cond(s@, p1, p2, body) implies envelope_cond(
            s@,
            0,
            p1,
            parent_field(p2) + int_dec(body.len() as int) + seq![10u8] + body,
        ) by {
            assert(s@.skip(0) =~= s@);
            assert(envelope_of(p1, p2, body) =~= parent_field(p1) + (parent_field(p2) + int_dec(body.len() as int) + seq![10u8] + body));
        }
    }
    let (q1, e1) = match read_parent(s, 0) {
        Some(x) => x,
        None => {
            return None;
        },
    };
    proof {
        assert forall|p1: Option<Seq<u8>>, p2: Option<Seq<u8>>, body: Seq<u8>| #[trigger] decode_cond(s@, p1, p2, body) implies opt_hash_view(q1) == p1 && envelope_cond(
            s@,
            e1 as int,
            p2,
            int_dec(body.len() as int) + seq![10u8] + body,
        ) by {
            assert(envelope_cond(s@, 0, p1, parent_field(p2) + int_dec(body.len() as int) + seq![10u8] + body));
            assert(parent_field(p2) + int_dec(body.len() as int) + seq![10u8] + body =~= parent_field(p2) + (int_dec(body.len() as int) + seq![10u8] + body));
        }
    }
    let (q2, e2) = match read_parent(s, e1) {
        Some(x) => x,
        None => {
            return None;
        },
    };
    let text = match read_body(s, e2) {
        Some(b) => b,
        None => {
            proof {
                assert forall|p1: Option<Seq<u8>>, p2: Option<Seq<u8>>, body: Seq<u8>| #[trigger] decode_cond(s@, p1, p2, body) implies false by {
                    assert(envelope_cond(s@, e1 as int, p2, int_dec(body.len() as int) + seq![10u8] + body));
                    assert(body_cond(s@, e2 as int, body));
                }
            }
            return None;
        },
    };
    proof {
        assert forall|p1: Option<Seq<u8>>, p2: Option<Seq<u8>>, body: Seq<u8>| #[trigger] decode_cond(s@, p1, p2, body) implies opt_hash_view(q2) == p2 && text@ == body by {
            assert(envelope_cond(s@, e1 as int, p2, int_dec(body.len() as int) + seq![10u8] + body));
            assert(body_cond(s@, e2 as int, body));
        }
        assert(s@ =~= s@.subrange(0, e1 as int) + s@.subrange(e1 as int, e2 as int) + s@.skip(e2 as int));
        assert(body_cond(s@, e2 as int, text@));
        assert(envelope_of(opt_hash_view(q1), opt_hash_view(q2), text@) =~= s@);
        assert(storable(opt_hash_view(q1)) && storable(opt_hash_view(q2)));
    }
    Some((q1, q2, text))
}

pub open spec fn body_cond(s: Seq<u8>, pos: int, body: Seq<u8>) -> bool {
    body.len() <= i64::MAX && s.skip(pos) == int_dec(body.len() as int) + seq![10u8] + body
}

/// Reads the length-framed text at `pos`.
fn read_body(s: &Vec<u8>, pos: usize) -> (r: Option<Vec<u8>>)
    requires
        pos <= s@.len(),
    ensures
        forall|body: Seq<u8>| #[trigger] body_cond(s@, pos as int, body) ==> (r matches Some(b) && b@ == body),
        r matches Some(b) ==> body_cond(s@, pos as int, b@),
{
    let len = s.len();
    let nl = find_byte(s, pos, len, 10);
    proof {
        assert forall|body: Seq<u8>| #[trigger] body_cond(s@, pos as int, body) implies nl < len
            && s@.subrange(pos as int, nl as int) == int_dec(body.len() as int) && s@.skip(nl + 1) == body by {
            let d = int_dec(body.len() as int);
            lemma_int_dec_chars(body.len() as int);
            let t = s@.skip(pos as int);
            assert(t[d.len() as int] == 10);
            if nl < pos + d.len() {
                assert(s@[nl as int] == t[nl - pos]);
                assert(t[nl - pos] == d[nl - pos]);
            }
            if nl > pos + d.len() {
                assert(s@[pos + d.len()] == t[d.len() as int]);
            }
            assert(s@.subrange(pos as int, nl as int) =~= d);
            assert(s@.skip(nl + 1) =~= t.skip(d.len() + 1int));
            assert(t.skip(d.len() + 1int) =~= body);
        }
    }
    if nl == len {
        return None;
    }
    let n = match parse_int(s, pos, nl) {
        Some(n) => n,
        None => {
            proof {
                assert forall|body: Seq<u8>| #[trigger] body_cond(s@, pos as int, body) implies false by {
                    assert(int_dec(((body.len() as int) as i64) as int) == s@.subrange(pos as int, nl as int));
                }
            }
            return None;
        },
    };
    proof {
        assert forall|body: Seq<u8>| #[trigger] body_cond(s@, pos as int, body) implies n == body.len() by {
            assert(int_dec(((body.len() as int) as i64) as int) == s@.subrange(pos as int, nl as int));
        }
    }
    if n < 0 || n as u64 != (len - nl - 1) as u64 {
        return None;
    }
    let body = copy_range(s, nl + 1, len);
    proof {
        assert(s@.subrange(nl + 1, len as int) =~= s@.skip(nl + 1));
        assert(s@.skip(pos as int) =~= s@.subrange(pos as int, nl as int) + seq![10u8] + s@.skip(nl + 1));
    }
    Some(body)
}

} // verus!
