//! The text form of a changeset's extras: `key:value` entries joined by NUL
//! bytes, with NUL, newline, carriage return and backslash escaped.

use crate::extras::{entries_view, Extra};
use vstd::prelude::*;

verus! {

pub open spec fn esc_byte(b: u8) -> Seq<u8> {
    if b == 0 {
        seq![92u8, 48]
    } else if b == 10 {
        seq![92u8, 110]
    } else if b == 13 {
        seq![92u8, 114]
    } else if b == 92 {
        seq![92u8, 92]
    } else {
        seq![b]
    }
}

/// `s` with each NUL, newline, carriage return and backslash escaped.
pub open spec fn esc(s: Seq<u8>) -> Seq<u8>
    decreases s.len(),
{
    if s.len() == 0 {
        Seq::empty()
    } else {
        esc_byte(s[0]) + esc(s.drop_first())
    }
}

pub open spec fn unesc_code(c: u8) -> Option<u8> {
    if c == 48 {
        Some(0u8)
    } else if c == 110 {
        Some(10u8)
    } else if c == 114 {
        Some(13u8)
    } else if c == 92 {
        Some(92u8)
    } else {
        None
    }
}

/// The bytes whose escaped form is `t`, if it is one.
pub open spec fn unesc(t: Seq<u8>) -> Option<Seq<u8>>
    decreases t.len(),
{
    if t.len() == 0 {
        Some(Seq::empty())
    } else if t[0] == 92 {
        if t.len() < 2 {
            None
        } else {
            match (unesc_code(t[1]), unesc(t.skip(2))) {
                (Some(b), Some(r)) => Some(seq![b] + r),
                _ => None,
            }
        }
    } else if t[0] == 0 || t[0] == 10 || t[0] == 13 {
        None
    } else {
        match unesc(t.drop_first()) {
            Some(r) => Some(seq![t[0]] + r),
            None => None,
        }
    }
}

/// One entry: the escaped key, a colon, the escaped value.
pub open spec fn entry_text(e: (Seq<u8>, Seq<u8>)) -> Seq<u8> {
    esc(e.0) + seq![58u8] + esc(e.1)
}

/// The entries' text, joined by NUL bytes.
pub open spec fn extras_text(es: Seq<(Seq<u8>, Seq<u8>)>) -> Seq<u8>
    decreases es.len(),
{
    if es.len() == 0 {
        Seq::empty()
    } else if es.len() == 1 {
        entry_text(es[0])
    } else {
        extras_text(es.drop_last()) + seq![0u8] + entry_text(es.last())
    }
}

/// No key holds a colon, which would make the entry ambiguous.
pub open spec fn keys_colon_free(es: Seq<(Seq<u8>, Seq<u8>)>) -> bool {
    forall|i: int, j: int| 0 <= i < es.len() && 0 <= j < es[i].0.len() ==> #[trigger] es[i].0[j] != 58
}

pub proof fn lemma_esc_concat(a: Seq<u8>, b: Seq<u8>)
    ensures
        esc(a + b) == esc(a) + esc(b),
    decreases a.len(),
{
    if a.len() == 0 {
        assert(a + b =~= b);
        assert(esc(a) + esc(b) =~= esc(b));
    } else {
        lemma_esc_concat(a.drop_first(), b);
        assert((a + b).drop_first() =~= a.drop_first() + b);
        assert(esc(a + b) =~= esc(a) + esc(b));
    }
}

/// Escaped text holds no NUL and no newline, and a colon only where the
/// original did.
pub proof fn lemma_esc_bytes(s: Seq<u8>)
    ensures
        forall|i: int| 0 <= i < esc(s).len() ==> #[trigger] esc(s)[i] != 0 && esc(s)[i] != 10,
        (forall|j: int| 0 <= j < s.len() ==> s[j] != 58) ==> forall|i: int|
            0 <= i < esc(s).len() ==> #[trigger] esc(s)[i] != 58,
    decreases s.len(),
{
    if s.len() > 0 {
        lemma_esc_bytes(s.drop_first());
        let e = esc(s);
        let h = esc_byte(s[0]);
        assert forall|i: int| 0 <= i < e.len() implies #[trigger] e[i] != 0 && e[i] != 10 by {
            if i >= h.len() {
                assert(e[i] == esc(s.drop_first())[i - h.len()]);
            }
        }
        if forall|j: int| 0 <= j < s.len() ==> s[j] != 58 {
            assert forall|i: int| 0 <= i < e.len() implies #[trigger] e[i] != 58 by {
                assert(s[0] != 58);
                if i >= h.len() {
                    assert forall|j: int| 0 <= j < s.drop_first().len() implies s.drop_first()[j] != 58 by {
                        assert(s.drop_first()[j] == s[j + 1]);
                    }
                    assert(e[i] == esc(s.drop_first())[i - h.len()]);
                }
            }
        }
    }
}

pub proof fn lemma_unesc_esc(s: Seq<u8>)
    ensures
        unesc(esc(s)) == Some(s),
    decreases s.len(),
{
    if s.len() == 0 {
    } else {
        lemma_unesc_esc(s.drop_first());
        let t = esc(s);
        let h = esc_byte(s[0]);
        if h.len() == 2 {
            assert(t.skip(2) =~= esc(s.drop_first()));
        } else {
            assert(t.drop_first() =~= esc(s.drop_first()));
        }
        assert(seq![s[0]] + s.drop_first() =~= s);
    }
}

/// Only escaped text unescapes: escaping the result gives the text back.
pub proof fn lemma_esc_unesc(t: Seq<u8>)
    requires
        unesc(t) is Some,
    ensures
        esc(unesc(t)->0) == t,
        no_colon(t) ==> no_colon(unesc(t)->0),
    decreases t.len(),
{
    if t.len() > 0 {
        let x = unesc(t)->0;
        if t[0] == 92 {
            let rest = t.skip(2);
            lemma_esc_unesc(rest);
            let b = unesc_code(t[1])->0;
            assert(x == seq![b] + unesc(rest)->0);
            assert(x.drop_first() =~= unesc(rest)->0);
            assert(esc_byte(b) =~= t.take(2));
            assert(esc(x) =~= t);
            if no_colon(t) {
                assert forall|j: int| 0 <= j < rest.len() implies rest[j] != 58 by {
                    assert(rest[j] == t[j + 2]);
                }
                assert forall|j: int| 0 <= j < x.len() implies x[j] != 58 by {
                    if j > 0 {
                        assert(x[j] == (unesc(rest)->0)[j - 1]);
                    }
                }
            }
        } else {
            let rest = t.drop_first();
            lemma_esc_unesc(rest);
            assert(x == seq![t[0]] + unesc(rest)->0);
            assert(x.drop_first() =~= unesc(rest)->0);
            assert(esc(x) =~= t);
            if no_colon(t) {
                assert forall|j: int| 0 <= j < rest.len() implies rest[j] != 58 by {
                    assert(rest[j] == t[j + 1]);
                }
                assert forall|j: int| 0 <= j < x.len() implies x[j] != 58 by {
                    if j > 0 {
                        assert(x[j] == (unesc(rest)->0)[j - 1]);
                    } else {
                        assert(t[0] != 58);
                    }
                }
            }
        }
    }
}

pub open spec fn no_colon(s: Seq<u8>) -> bool {
    forall|j: int| 0 <= j < s.len() ==> s[j] != 58
}

pub(crate) proof fn lemma_extras_first(es: Seq<(Seq<u8>, Seq<u8>)>)
    requires
        es.len() > 0,
    ensures
        es.len() == 1 ==> extras_text(es) == entry_text(es[0]),
        es.len() > 1 ==> extras_text(es) == entry_text(es[0]) + seq![0u8] + extras_text(es.drop_first()),
    decreases es.len(),
{
    if es.len() > 2 {
        lemma_extras_first(es.drop_last());
        assert(es.drop_last().drop_first() =~= es.drop_first().drop_last());
        assert(es.drop_first().last() == es.last());
        assert(es.drop_last()[0] == es[0]);
        let df = es.drop_first();
        assert(extras_text(df) == extras_text(df.drop_last()) + seq![0u8] + entry_text(df.last()));
        assert(extras_text(es) =~= entry_text(es[0]) + seq![0u8] + extras_text(es.drop_first()));
    } else if es.len() == 2 {
        assert(es.drop_last()[0] == es[0]);
        assert(es.drop_first().len() == 1);
        assert(es.drop_first()[0] == es.last());
        assert(extras_text(es.drop_last()) == entry_text(es[0]));
        assert(extras_text(es.drop_first()) == entry_text(es.last()));
    }
}

fn push_escaped(out: &mut Vec<u8>, s: &Vec<u8>)
    ensures
        final(out)@ == old(out)@ + esc(s@),
{
    let mut i: usize = 0;
    while i < s.len()
        invariant
            i <= s@.len(),
            out@ == old(out)@ + esc(s@.take(i as int)),
        decreases s@.len() - i,
    {
        let b = s[i];
        if b == 0 {
            out.push(92);
            out.push(48);
        } else if b == 10 {
            out.push(92);
            out.push(110);
        } else if b == 13 {
            out.push(92);
            out.push(114);
        } else if b == 92 {
            out.push(92);
            out.push(92);
        } else {
            out.push(b);
        }
        proof {
            lemma_esc_concat(s@.take(i as int), seq![b]);
            assert(s@.take(i + 1) =~= s@.take(i as int) + seq![b]);
            assert(esc(seq![b]) =~= esc_byte(b)) by {
                assert(seq![b].drop_first() =~= Seq::<u8>::empty());
                assert(esc(Seq::<u8>::empty()) =~= Seq::<u8>::empty());
                assert(esc(seq![b]) == esc_byte(b) + esc(seq![b].drop_first()));
            }
            assert(out@ =~= old(out)@ + esc(s@.take(i + 1)));
        }
        i = i + 1;
    }
    assert(s@.take(s@.len() as int) =~= s@);
}

/// Appends the text of `extra`'s entries to `out`.
pub fn push_extras(out: &mut Vec<u8>, extra: &Extra)
    ensures
        final(out)@ == old(out)@ + extras_text(extra@),
{
    let es = extra.entries();
    let ghost ev = extra@;
    let mut i: usize = 0;
    assert(ev.take(0) =~= Seq::<(Seq<u8>, Seq<u8>)>::empty());
    while i < es.len()
        invariant
            ev == entries_view(es@),
            i <= es@.len(),
            out@ == old(out)@ + extras_text(ev.take(i as int)),
        decreases es@.len() - i,
    {
        let ghost before = out@;
        if i > 0 {
            out.push(0);
        }
        push_escaped(out, &es[i].0);
        out.push(58);
        push_escaped(out, &es[i].1);
        proof {
            let t = ev.take(i + 1);
            assert(t.drop_last() =~= ev.take(i as int));
            assert(t.last() == ev[i as int]);
            if i == 0 {
                assert(out@ =~= old(out)@ + extras_text(t));
            } else {
                assert(out@ =~= old(out)@ + extras_text(t));
            }
        }
        i = i + 1;
    }
    assert(ev.take(es@.len() as int) =~= ev);
}

/// The index of the first `b` in `s[from..to]`, or `to` when there is none.
pub fn find_byte(s: &Vec<u8>, from: usize, to: usize, b: u8) -> (r: usize)
    requires
        from <= to <= s@.len(),
    ensures
        from <= r <= to,
        forall|i: int| from <= i < r ==> s@[i] != b,
        r < to ==> s@[r as int] == b,
{
    let mut i: usize = from;
    while i < to
        invariant
            from <= i <= to <= s@.len(),
            forall|j: int| from <= j < i ==> s@[j] != b,
        decreases to - i,
    {
        if s[i] == b {
            return i;
        }
        i = i + 1;
    }
    i
}

/// The bytes whose escaped form is `s[start..end]`.
pub fn unescape(s: &Vec<u8>, start: usize, end: usize) -> (r: Option<Vec<u8>>)
    requires
        start <= end <= s@.len(),
    ensures
        match r {
            Some(v) => unesc(s@.subrange(start as int, end as int)) == Some(v@),
            None => unesc(s@.subrange(start as int, end as int)) is None,
        },
{
    let ghost t = s@.subrange(start as int, end as int);
    let mut out: Vec<u8> = Vec::new();
    let mut i: usize = start;
    assert(t.skip(0) =~= t);
    assert(out@ + Seq::<u8>::empty() =~= Seq::<u8>::empty());
    while i < end
        invariant
            start <= i <= end <= s@.len(),
            t == s@.subrange(start as int, end as int),
            unesc(t) == (match unesc(t.skip(i - start)) {
                Some(x) => Some(out@ + x),
                None => None,
            }),
        decreases end - i,
    {
        let ghost rest = t.skip(i - start);
        let c = s[i];
        assert(rest[0] == c);
        if c == 92 {
            if i + 1 >= end {
                return None;
            }
            let d = s[i + 1];
            assert(rest[1] == d);
            let b: u8 = if d == 48 {
                0
            } else if d == 110 {
                10
            } else if d == 114 {
                13
            } else if d == 92 {
                92
            } else {
                return None;
            };
            proof {
                assert(rest.skip(2) =~= t.skip(i + 2 - start));
                match unesc(rest.skip(2)) {
                    Some(x) => {
                        assert(out@ + (seq![b] + x) =~= out@.push(b) + x);
                    },
                    None => {},
                }
            }
            out.push(b);
            i = i + 2;
        } else {
            if c == 0 || c == 10 || c == 13 {
                return None;
            }
            proof {
                assert(rest.drop_first() =~= t.skip(i + 1 - start));
                match unesc(rest.drop_first()) {
                    Some(x) => {
                        assert(out@ + (seq![c] + x) =~= out@.push(c) + x);
                    },
                    None => {},
                }
            }
            out.push(c);
            i = i + 1;
        }
    }
    assert(t.skip(end - start) =~= Seq::<u8>::empty());
    assert(out@ + Seq::<u8>::empty() =~= out@);
    Some(out)
}

pub open spec fn extras_cond(s: Seq<u8>, start: int, end: int, es: Seq<(Seq<u8>, Seq<u8>)>) -> bool {
    es.len() > 0 && keys_colon_free(es) && s.subrange(start, end) == extras_text(es)
}

pub open spec fn extras_inv(s: Seq<u8>, pos: int, end: int, es: Seq<(Seq<u8>, Seq<u8>)>, i: int, out: Seq<(Seq<u8>, Seq<u8>)>) -> bool {
    0 <= i < es.len() && s.subrange(pos, end) == extras_text(es.skip(i)) && out == es.take(i) && keys_colon_free(es)
}

proof fn lemma_entry_step(s: Seq<u8>, pos: int, end: int, q: int, c: int, es: Seq<(Seq<u8>, Seq<u8>)>, i: int, out: Seq<(Seq<u8>, Seq<u8>)>)
    requires
        0 <= pos <= end <= s.len(),
        extras_inv(s, pos, end, es, i, out),
        pos <= q <= end,
        forall|j: int| pos <= j < q ==> s[j] != 0,
        q < end ==> s[q] == 0,
        pos <= c <= q,
        forall|j: int| pos <= j < c ==> s[j] != 58,
        c < q ==> s[c] == 58,
    ensures
        c < q,
        unesc(s.subrange(pos, c)) == Some(es[i].0),
        unesc(s.subrange(c + 1, q)) == Some(es[i].1),
        q == end <==> i + 1 == es.len(),
        q < end ==> extras_inv(s, q + 1, end, es, i + 1, out.push(es[i])),
        q == end ==> out.push(es[i]) == es,
{
    let rest = es.skip(i);
    lemma_extras_first(rest);
    let e = rest[0];
    assert(e == es[i]);
    lemma_esc_bytes(e.0);
    lemma_esc_bytes(e.1);
    assert forall|j: int| 0 <= j < e.0.len() implies e.0[j] != 58 by {
        assert(es[i].0[j] != 58);
    }
    let et = entry_text(e);
    let sub = s.subrange(pos, end);
    assert forall|j: int| 0 <= j < et.len() implies et[j] != 0 by {
        if j < esc(e.0).len() {
            assert(et[j] == esc(e.0)[j]);
        } else if j > esc(e.0).len() {
            assert(et[j] == esc(e.1)[j - esc(e.0).len() - 1]);
        }
    }
    assert forall|j: int| 0 <= j < et.len() implies sub[j] == et[j] by {}
    if rest.len() > 1 {
        assert(sub[et.len() as int] == 0);
        assert(q == pos + et.len()) by {
            if q < pos + et.len() {
                assert(s[q] == sub[q - pos]);
            }
        }
    } else {
        assert(q == end) by {
            if q < end {
                assert(s[q] == sub[q - pos]);
            }
        }
    }
    assert(c == pos + esc(e.0).len()) by {
        if c < pos + esc(e.0).len() {
            assert(s[c] == sub[c - pos]);
            assert(sub[c - pos] == esc(e.0)[c - pos]);
        }
        assert(sub[esc(e.0).len() as int] == 58);
    }
    assert(s.subrange(pos, c) =~= esc(e.0));
    assert(q == pos + et.len());
    assert forall|j: int| 0 <= j < esc(e.1).len() implies #[trigger] s.subrange(c + 1, q)[j] == esc(e.1)[j] by {
        assert(s.subrange(c + 1, q)[j] == sub[c + 1 + j - pos]);
        assert(et[esc(e.0).len() + 1 + j] == esc(e.1)[j]);
    }
    assert(s.subrange(c + 1, q) =~= esc(e.1));
    lemma_unesc_esc(e.0);
    lemma_unesc_esc(e.1);
    assert(out.push(es[i]) =~= es.take(i + 1));
    if q < end {
        assert(rest.len() > 1);
        assert(rest.drop_first() =~= es.skip(i + 1));
        assert(s.subrange(q + 1, end) =~= sub.skip(q + 1 - pos));
        assert(sub == et + seq![0u8] + extras_text(rest.drop_first()));
        assert(sub.skip(q + 1 - pos) =~= extras_text(rest.drop_first()));
    } else {
        if rest.len() > 1 {
            assert(q < end);
        }
        assert(es.len() == i + 1);
        assert(es.take(i + 1) =~= es);
    }
}

pub open spec fn read_so_far(s: Seq<u8>, start: int, pos: int, ov: Seq<(Seq<u8>, Seq<u8>)>) -> bool {
    &&& keys_colon_free(ov)
    &&& ov.len() == 0 ==> pos == start
    &&& ov.len() > 0 ==> start < pos && s[pos - 1] == 0 && s.subrange(start, pos - 1) == extras_text(ov)
}

proof fn lemma_entry_sound(
    s: Seq<u8>,
    start: int,
    pos: int,
    c: int,
    q: int,
    ov: Seq<(Seq<u8>, Seq<u8>)>,
    key: Seq<u8>,
    value: Seq<u8>,
)
    requires
        0 <= start <= pos <= c < q <= s.len(),
        read_so_far(s, start, pos, ov),
        forall|j: int| pos <= j < c ==> s[j] != 58,
        s[c] == 58,
        unesc(s.subrange(pos, c)) == Some(key),
        unesc(s.subrange(c + 1, q)) == Some(value),
    ensures
        keys_colon_free(ov.push((key, value))),
        s.subrange(start, q) == extras_text(ov.push((key, value))),
{
    let nv = ov.push((key, value));
    lemma_esc_unesc(s.subrange(pos, c));
    lemma_esc_unesc(s.subrange(c + 1, q));
    assert(no_colon(s.subrange(pos, c))) by {
        assert forall|j: int| 0 <= j < s.subrange(pos, c).len() implies s.subrange(pos, c)[j] != 58 by {
            assert(s.subrange(pos, c)[j] == s[pos + j]);
        }
    }
    assert forall|i: int, j: int| 0 <= i < nv.len() && 0 <= j < nv[i].0.len() implies #[trigger] nv[i].0[j] != 58 by {
        if i < ov.len() {
            assert(nv[i] == ov[i]);
        }
    }
    assert(s.subrange(pos, q) =~= s.subrange(pos, c) + seq![58u8] + s.subrange(c + 1, q));
    assert(s.subrange(pos, q) == entry_text((key, value)));
    assert(nv.drop_last() =~= ov);
    if ov.len() == 0 {
        assert(nv.len() == 1);
        assert(nv[0] == (key, value));
        assert(s.subrange(start, q) =~= s.subrange(pos, q));
    } else {
        assert(s.subrange(start, q) =~= s.subrange(start, pos - 1) + seq![0u8] + s.subrange(pos, q));
    }
}

/// Reads the entries of the extras text `s[start..end]`. On the text of
/// any entries whose keys hold no colon, it returns exactly those entries.
pub(crate) fn parse_extras(s: &Vec<u8>, start: usize, end: usize) -> (r: Option<Vec<(Vec<u8>, Vec<u8>)>>)
    requires
        start <= end <= s@.len(),
    ensures
        forall|es: Seq<(Seq<u8>, Seq<u8>)>| #[trigger] extras_cond(s@, start as int, end as int, es)
            ==> (r matches Some(v) && entries_view(v@) == es),
        r matches Some(v) ==> extras_cond(s@, start as int, end as int, entries_view(v@)),
{
    let mut out: Vec<(Vec<u8>, Vec<u8>)> = Vec::new();
    let mut pos: usize = start;
    let ghost mut i: int = 0;
    proof {
        assert forall|es: Seq<(Seq<u8>, Seq<u8>)>| #[trigger] extras_cond(s@, start as int, end as int, es)
            implies extras_inv(s@, pos as int, end as int, es, i, entries_view(out@)) by {
            assert(es.skip(0) =~= es);
            assert(entries_view(out@) =~= es.take(0));
        }
    }
    loop
        invariant
            start <= pos <= end <= s@.len(),
            forall|es: Seq<(Seq<u8>, Seq<u8>)>| #[trigger] extras_cond(s@, start as int, end as int, es)
                ==> extras_inv(s@, pos as int, end as int, es, i, entries_view(out@)),
            read_so_far(s@, start as int, pos as int, entries_view(out@)),
        decreases end - pos,
    {
        let q = find_byte(s, pos, end, 0);
        let c = find_byte(s, pos, q, 58);
        proof {
            assert forall|es: Seq<(Seq<u8>, Seq<u8>)>| #[trigger] extras_cond(s@, start as int, end as int, es)
                implies c < q by {
                lemma_entry_step(s@, pos as int, end as int, q as int, c as int, es, i, entries_view(out@));
            }
        }
        if c == q {
            return None;
        }
        let key = match unescape(s, pos, c) {
            Some(k) => k,
            None => {
                proof {
                    assert forall|es: Seq<(Seq<u8>, Seq<u8>)>| #[trigger] extras_cond(s@, start as int, end as int, es)
                        implies false by {
                        lemma_entry_step(s@, pos as int, end as int, q as int, c as int, es, i, entries_view(out@));
                    }
                }
                return None;
            },
        };
        let value = match unescape(s, c + 1, q) {
            Some(v) => v,
            None => {
                proof {
                    assert forall|es: Seq<(Seq<u8>, Seq<u8>)>| #[trigger] extras_cond(s@, start as int, end as int, es)
                        implies false by {
                        lemma_entry_step(s@, pos as int, end as int, q as int, c as int, es, i, entries_view(out@));
                    }
                }
                return None;
            },
        };
        let ghost before = entries_view(out@);
        proof {
            lemma_entry_sound(s@, start as int, pos as int, c as int, q as int, before, key@, value@);
        }
        out.push((key, value));
        proof {
            assert(entries_view(out@) =~= before.push((key@, value@)));
            assert forall|es: Seq<(Seq<u8>, Seq<u8>)>| #[trigger] extras_cond(s@, start as int, end as int, es)
                implies entries_view(out@) == before.push(es[i]) && (q == end ==> before.push(es[i]) == es)
                    && (q < end ==> extras_inv(s@, q + 1, end as int, es, i + 1, before.push(es[i]))) by {
                lemma_entry_step(s@, pos as int, end as int, q as int, c as int, es, i, before);
                assert(entries_view(out@) =~= before.push(es[i]));
            }
        }
        if q == end {
            return Some(out);
        }
        proof {
            i = i + 1;
        }
        pos = q + 1;
    }
}

} // verus!
