//! The extras of a changeset: a mapping from byte keys to byte values, kept
//! sorted by key, and its escaped text form.

use crate::slices::bytes_eq;
use vstd::prelude::*;

verus! {

/// Lexicographic order of byte strings; a proper prefix comes first.
pub open spec fn lex_lt(a: Seq<u8>, b: Seq<u8>) -> bool
    decreases a.len(),
{
    if b.len() == 0 {
        false
    } else if a.len() == 0 {
        true
    } else if a[0] != b[0] {
        a[0] < b[0]
    } else {
        lex_lt(a.drop_first(), b.drop_first())
    }
}

pub proof fn lemma_lex_trans(a: Seq<u8>, b: Seq<u8>, c: Seq<u8>)
    requires
        lex_lt(a, b),
        lex_lt(b, c),
    ensures
        lex_lt(a, c),
    decreases a.len(),
{
    if a.len() > 0 && a[0] == b[0] && b[0] == c[0] {
        lemma_lex_trans(a.drop_first(), b.drop_first(), c.drop_first());
    }
}

pub proof fn lemma_lex_total(a: Seq<u8>, b: Seq<u8>)
    ensures
        a == b || lex_lt(a, b) || lex_lt(b, a),
        !(lex_lt(a, b) && lex_lt(b, a)),
        !lex_lt(a, a),
    decreases a.len(),
{
    if a.len() > 0 && b.len() > 0 && a[0] == b[0] {
        lemma_lex_total(a.drop_first(), b.drop_first());
        if a.drop_first() == b.drop_first() {
            assert(a =~= seq![a[0]] + a.drop_first());
            assert(b =~= seq![b[0]] + b.drop_first());
        }
    } else if a.len() == 0 && b.len() == 0 {
        assert(a =~= b);
    }
    if a.len() > 0 {
        lemma_lex_total(a.drop_first(), a.drop_first());
    }
}

/// Compares two byte strings: negative, zero or positive as `a` sorts
/// before, equal to or after `b`.
pub fn compare_bytes(a: &Vec<u8>, b: &Vec<u8>) -> (r: i8)
    ensures
        r < 0 <==> lex_lt(a@, b@),
        r == 0 <==> a@ == b@,
        r > 0 <==> lex_lt(b@, a@),
{
    proof {
        lemma_lex_total(a@, b@);
    }
    let mut i: usize = 0;
    assert(a@.skip(0) =~= a@ && b@.skip(0) =~= b@);
    while i < a.len() && i < b.len()
        invariant
            i <= a@.len(),
            i <= b@.len(),
            a@.take(i as int) == b@.take(i as int),
            lex_lt(a@, b@) == lex_lt(a@.skip(i as int), b@.skip(i as int)),
            lex_lt(b@, a@) == lex_lt(b@.skip(i as int), a@.skip(i as int)),
        decreases a@.len() - i,
    {
        if a[i] != b[i] {
            proof {
                lemma_lex_total(a@, b@);
                if a@ == b@ {
                    assert(a@[i as int] == b@[i as int]);
                }
            }
            if a[i] < b[i] {
                return -1;
            } else {
                return 1;
            }
        }
        proof {
            assert(a@.skip(i as int).drop_first() =~= a@.skip(i + 1));
            assert(b@.skip(i as int).drop_first() =~= b@.skip(i + 1));
            assert(a@.take(i + 1) =~= a@.take(i as int).push(a@[i as int]));
            assert(b@.take(i + 1) =~= b@.take(i as int).push(b@[i as int]));
        }
        i = i + 1;
    }
    proof {
        lemma_lex_total(a@, b@);
    }
    if a.len() == b.len() {
        assert(a@ =~= a@.take(i as int));
        assert(b@ =~= b@.take(i as int));
        0
    } else if a.len() < b.len() {
        -1
    } else {
        1
    }
}

/// Keys strictly increasing: sorted and unique.
pub open spec fn sorted_keys(es: Seq<(Seq<u8>, Seq<u8>)>) -> bool {
    forall|i: int, j: int| 0 <= i < j < es.len() ==> lex_lt(#[trigger] es[i].0, #[trigger] es[j].0)
}

pub open spec fn entries_view(es: Seq<(Vec<u8>, Vec<u8>)>) -> Seq<(Seq<u8>, Seq<u8>)> {
    Seq::new(es.len(), |i: int| (es[i].0@, es[i].1@))
}

proof fn lemma_insert_sorted(ov: Seq<(Seq<u8>, Seq<u8>)>, i: int, k: Seq<u8>, v: Seq<u8>)
    requires
        sorted_keys(ov),
        0 <= i <= ov.len(),
        forall|a: int| 0 <= a < i ==> lex_lt(#[trigger] ov[a].0, k),
        i < ov.len() ==> lex_lt(k, ov[i].0),
    ensures
        sorted_keys(ov.insert(i, (k, v))),
{
    let nv = ov.insert(i, (k, v));
    assert forall|j: int| i < j < nv.len() implies lex_lt(k, #[trigger] nv[j].0) by {
        if j - 1 > i {
            lemma_lex_trans(k, ov[i].0, ov[j - 1].0);
        }
    }
    assert forall|a: int, b: int| 0 <= a < b < nv.len() implies lex_lt(#[trigger] nv[a].0, #[trigger] nv[b].0) by {
        if a < i && b > i {
            lemma_lex_trans(ov[a].0, k, nv[b].0);
        } else if a < i && b < i {
        } else if b > i && a > i {
            assert(nv[a] == ov[a - 1] && nv[b] == ov[b - 1]);
        }
    }
}

/// `nv` is `ov` with `k` set to `v`: it holds `(k, v)`, keeps every entry
/// of `ov` under another key, and holds nothing else.
pub open spec fn is_insertion(
    ov: Seq<(Seq<u8>, Seq<u8>)>,
    nv: Seq<(Seq<u8>, Seq<u8>)>,
    k: Seq<u8>,
    v: Seq<u8>,
) -> bool {
    &&& exists|j: int| 0 <= j < nv.len() && nv[j] == (k, v)
    &&& forall|a: int| 0 <= a < ov.len() && ov[a].0 != k ==> exists|j: int|
        0 <= j < nv.len() && nv[j] == ov[a]
    &&& forall|j: int| 0 <= j < nv.len() && nv[j].0 != k ==> exists|a: int|
        0 <= a < ov.len() && ov[a] == nv[j]
}

proof fn lemma_update_keeps(ov: Seq<(Seq<u8>, Seq<u8>)>, i: int, k: Seq<u8>, v: Seq<u8>)
    requires
        sorted_keys(ov),
        0 <= i < ov.len(),
        ov[i].0 == k,
    ensures
        ({
            let nv = ov.update(i, (k, v));
            &&& sorted_keys(nv)
            &&& is_insertion(ov, nv, k, v)
        }),
{
    let nv = ov.update(i, (k, v));
    assert(nv[i] == (k, v));
    assert forall|a: int, b: int| 0 <= a < b < nv.len() implies lex_lt(#[trigger] nv[a].0, #[trigger] nv[b].0) by {
        assert(nv[a].0 == ov[a].0 && nv[b].0 == ov[b].0);
    }
    assert forall|a: int| 0 <= a < ov.len() && ov[a].0 != k implies exists|j: int|
        0 <= j < nv.len() && nv[j] == ov[a] by {
        assert(nv[a] == ov[a]);
    }
    assert forall|j: int| 0 <= j < nv.len() && nv[j].0 != k implies exists|a: int|
        0 <= a < ov.len() && ov[a] == nv[j] by {
        assert(nv[j] == ov[j]);
    }
}

proof fn lemma_insert_keeps(ov: Seq<(Seq<u8>, Seq<u8>)>, i: int, k: Seq<u8>, v: Seq<u8>)
    requires
        0 <= i <= ov.len(),
    ensures
        ({
            let nv = ov.insert(i, (k, v));
            &&& is_insertion(ov, nv, k, v)
        }),
{
    let nv = ov.insert(i, (k, v));
    assert(nv[i] == (k, v));
    assert forall|a: int| 0 <= a < ov.len() && ov[a].0 != k implies exists|j: int|
        0 <= j < nv.len() && nv[j] == ov[a] by {
        if a < i {
            assert(nv[a] == ov[a]);
        } else {
            assert(nv[a + 1] == ov[a]);
        }
    }
    assert forall|j: int| 0 <= j < nv.len() && nv[j].0 != k implies exists|a: int|
        0 <= a < ov.len() && ov[a] == nv[j] by {
        if j < i {
            assert(nv[j] == ov[j]);
        } else if j > i {
            assert(nv[j] == ov[j - 1]);
        }
    }
}

/// A mapping from byte keys to byte values, held in key order.
#[derive(Debug)]
pub struct Extra {
    entries: Vec<(Vec<u8>, Vec<u8>)>,
}

impl Extra {
    /// The entries, in increasing key order.
    pub closed spec fn view(&self) -> Seq<(Seq<u8>, Seq<u8>)> {
        entries_view(self.entries@)
    }

    pub open spec fn wf(&self) -> bool {
        sorted_keys(self@)
    }

    /// An empty mapping.
    pub fn new() -> (r: Self)
        ensures
            r@ == Seq::<(Seq<u8>, Seq<u8>)>::empty(),
            r.wf(),
    {
        let r = Extra { entries: Vec::new() };
        assert(r@ =~= Seq::<(Seq<u8>, Seq<u8>)>::empty());
        r
    }

    pub fn is_empty(&self) -> (r: bool)
        ensures
            r == (self@.len() == 0),
    {
        self.entries.len() == 0
    }

    pub fn len(&self) -> (r: usize)
        ensures
            r == self@.len(),
    {
        self.entries.len()
    }

    /// The entries, in increasing key order.
    pub fn entries(&self) -> (r: &Vec<(Vec<u8>, Vec<u8>)>)
        ensures
            entries_view(r@) == self@,
    {
        &self.entries
    }

    /// The mapping that holds `entries`, if their keys strictly increase.
    pub fn from_sorted(entries: Vec<(Vec<u8>, Vec<u8>)>) -> (r: Option<Self>)
        ensures
            r is Some <==> sorted_keys(entries_view(entries@)),
            r matches Some(e) ==> e@ == entries_view(entries@),
    {
        let ghost ev = entries_view(entries@);
        let mut i: usize = 1;
        while i < entries.len()
            invariant
                ev == entries_view(entries@),
                1 <= i,
                i <= entries@.len() || entries@.len() == 0,
                forall|a: int, b: int| 0 <= a < b < i && b < ev.len() ==> lex_lt(#[trigger] ev[a].0, #[trigger] ev[b].0),
            decreases entries@.len() - i,
        {
            if compare_bytes(&entries[i - 1].0, &entries[i].0) >= 0 {
                assert(!lex_lt(ev[i - 1].0, ev[i as int].0));
                return None;
            }
            proof {
                assert forall|a: int, b: int| 0 <= a < b < i + 1 && b < ev.len() implies lex_lt(#[trigger] ev[a].0, #[trigger] ev[b].0) by {
                    if b == i && a < i - 1 {
                        lemma_lex_trans(ev[a].0, ev[i - 1].0, ev[b].0);
                    }
                }
            }
            i = i + 1;
        }
        Some(Extra { entries })
    }

    /// Sets `key` to `value`, replacing the value it had.
    pub fn insert(&mut self, key: Vec<u8>, value: Vec<u8>)
        requires
            old(self).wf(),
        ensures
            final(self).wf(),
            is_insertion(old(self)@, final(self)@, key@, value@),
    {
        let ghost ov = self@;
        let mut i: usize = 0;
        while i < self.entries.len()
            invariant
                ov == self@,
                sorted_keys(ov),
                i <= ov.len(),
                forall|a: int| 0 <= a < i ==> lex_lt(#[trigger] ov[a].0, key@),
            ensures
                i <= ov.len(),
                forall|a: int| 0 <= a < i ==> lex_lt(#[trigger] ov[a].0, key@),
                i < ov.len() ==> !lex_lt(ov[i as int].0, key@),
            decreases ov.len() - i,
        {
            if compare_bytes(&self.entries[i].0, &key) >= 0 {
                break;
            }
            i = i + 1;
        }
        assert(i < ov.len() ==> !lex_lt(ov[i as int].0, key@));
        if i < self.entries.len() && bytes_eq(&self.entries[i].0, &key) {
            self.entries.set(i, (key, value));
            proof {
                assert(self@ =~= ov.update(i as int, (key@, value@)));
                lemma_update_keeps(ov, i as int, key@, value@);
            }
        } else {
            proof {
                if i < ov.len() {
                    lemma_lex_total(ov[i as int].0, key@);
                }
            }
            self.entries.insert(i, (key, value));
            proof {
                assert(self@ =~= ov.insert(i as int, (key@, value@)));
                lemma_insert_sorted(ov, i as int, key@, value@);
                lemma_insert_keeps(ov, i as int, key@, value@);
            }
        }
    }
}

} // verus!
