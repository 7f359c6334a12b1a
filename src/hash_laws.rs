//! What the node hash is taken over determines the record: a change to any
//! field changes the hashed bytes.

use crate::changeset::{body_text, files_text, no_byte, time_line, well_formed, ChangesetModel};
use crate::changeset_parse::{
    files_ok, lemma_dec_no, lemma_hex_inj, lemma_time_line_no_newline,
};
use crate::decimal::{int_dec, is_digit, lemma_nat_dec, nat_dec};
use crate::extras_text::{
    entry_text, esc, extras_text, keys_colon_free, lemma_esc_bytes, lemma_extras_first, lemma_unesc_esc,
};
use crate::hex::{hex_of, lemma_hex_ascii, lemma_hex_len};
use crate::node::{node_input, parent_bytes};
use vstd::prelude::*;

verus! {

/// A field that holds no separator ends where the first separator stands.
proof fn lemma_sep_unique(x1: Seq<u8>, r1: Seq<u8>, x2: Seq<u8>, r2: Seq<u8>, sep: u8)
    requires
        x1 + seq![sep] + r1 == x2 + seq![sep] + r2,
        no_byte(x1, sep),
        no_byte(x2, sep),
    ensures
        x1 == x2,
        r1 == r2,
{
    let s = x1 + seq![sep] + r1;
    if x1.len() < x2.len() {
        assert(s[x1.len() as int] == sep);
        assert((x2 + seq![sep] + r2)[x1.len() as int] == x2[x1.len() as int]);
    } else if x2.len() < x1.len() {
        assert((x2 + seq![sep] + r2)[x2.len() as int] == sep);
        assert(s[x2.len() as int] == x1[x2.len() as int]);
    }
    assert(x1 =~= s.take(x1.len() as int));
    assert(x2 =~= (x2 + seq![sep] + r2).take(x2.len() as int));
    assert(r1 =~= s.skip(x1.len() + 1int));
    assert(r2 =~= (x2 + seq![sep] + r2).skip(x2.len() + 1int));
}

proof fn lemma_int_dec_inj(a: int, b: int)
    requires
        int_dec(a) == int_dec(b),
    ensures
        a == b,
{
    if a < 0 && b < 0 {
        lemma_nat_dec((-a) as nat);
        lemma_nat_dec((-b) as nat);
        assert(nat_dec((-a) as nat) =~= int_dec(a).skip(1));
        assert(nat_dec((-b) as nat) =~= int_dec(b).skip(1));
    } else if a >= 0 && b >= 0 {
        lemma_nat_dec(a as nat);
        lemma_nat_dec(b as nat);
    } else if a < 0 {
        lemma_nat_dec(b as nat);
        assert(int_dec(a)[0] == 45);
        assert(is_digit(int_dec(b)[0]));
    } else {
        lemma_nat_dec(a as nat);
        assert(int_dec(b)[0] == 45);
        assert(is_digit(int_dec(a)[0]));
    }
}

proof fn lemma_entry_no_nul(e: (Seq<u8>, Seq<u8>))
    ensures
        no_byte(entry_text(e), 0),
        entry_text(e).len() > 0,
{
    lemma_esc_bytes(e.0);
    lemma_esc_bytes(e.1);
    let et = entry_text(e);
    assert forall|j: int| 0 <= j < et.len() implies et[j] != 0 by {
        if j < esc(e.0).len() {
            assert(et[j] == esc(e.0)[j]);
        } else if j > esc(e.0).len() {
            assert(et[j] == esc(e.1)[j - esc(e.0).len() - 1]);
        }
    }
}

proof fn lemma_entry_inj(a: (Seq<u8>, Seq<u8>), b: (Seq<u8>, Seq<u8>))
    requires
        entry_text(a) == entry_text(b),
        no_byte(a.0, 58),
        no_byte(b.0, 58),
    ensures
        a == b,
{
    lemma_esc_bytes(a.0);
    lemma_esc_bytes(b.0);
    lemma_sep_unique(esc(a.0), esc(a.1), esc(b.0), esc(b.1), 58);
    lemma_unesc_esc(a.0);
    lemma_unesc_esc(a.1);
    lemma_unesc_esc(b.0);
    lemma_unesc_esc(b.1);
}

proof fn lemma_extras_text_inj(e1: Seq<(Seq<u8>, Seq<u8>)>, e2: Seq<(Seq<u8>, Seq<u8>)>)
    requires
        e1.len() > 0,
        e2.len() > 0,
        keys_colon_free(e1),
        keys_colon_free(e2),
        extras_text(e1) == extras_text(e2),
    ensures
        e1 == e2,
    decreases e1.len(),
{
    lemma_extras_first(e1);
    lemma_extras_first(e2);
    lemma_entry_no_nul(e1[0]);
    lemma_entry_no_nul(e2[0]);
    assert(no_byte(e1[0].0, 58)) by {
        assert forall|j: int| 0 <= j < e1[0].0.len() implies e1[0].0[j] != 58 by {
            assert(e1[0].0[j] != 58);
        }
    }
    assert(no_byte(e2[0].0, 58)) by {
        assert forall|j: int| 0 <= j < e2[0].0.len() implies e2[0].0[j] != 58 by {
            assert(e2[0].0[j] != 58);
        }
    }
    let t = extras_text(e1);
    if e1.len() == 1 && e2.len() == 1 {
        lemma_entry_inj(e1[0], e2[0]);
        assert(e1 =~= e2);
    } else if e1.len() > 1 && e2.len() > 1 {
        lemma_sep_unique(entry_text(e1[0]), extras_text(e1.drop_first()), entry_text(e2[0]), extras_text(e2.drop_first()), 0);
        lemma_entry_inj(e1[0], e2[0]);
        assert forall|i: int, j: int| 0 <= i < e1.drop_first().len() && 0 <= j < e1.drop_first()[i].0.len() implies #[trigger] e1.drop_first()[i].0[j] != 58 by {
            assert(e1.drop_first()[i] == e1[i + 1]);
        }
        assert forall|i: int, j: int| 0 <= i < e2.drop_first().len() && 0 <= j < e2.drop_first()[i].0.len() implies #[trigger] e2.drop_first()[i].0[j] != 58 by {
            assert(e2.drop_first()[i] == e2[i + 1]);
        }
        lemma_extras_text_inj(e1.drop_first(), e2.drop_first());
        assert(e1 =~= seq![e1[0]] + e1.drop_first());
        assert(e2 =~= seq![e2[0]] + e2.drop_first());
    } else if e1.len() == 1 {
        let et = entry_text(e1[0]);
        assert(t == et);
        assert(t == entry_text(e2[0]) + seq![0u8] + extras_text(e2.drop_first()));
        assert(t[entry_text(e2[0]).len() as int] == 0);
    } else {
        let et = entry_text(e2[0]);
        assert(t == et);
        assert(t == entry_text(e1[0]) + seq![0u8] + extras_text(e1.drop_first()));
        assert(t[entry_text(e1[0]).len() as int] == 0);
    }
}

proof fn lemma_files_inj(f1: Seq<Seq<u8>>, c1: Seq<u8>, f2: Seq<Seq<u8>>, c2: Seq<u8>)
    requires
        files_ok(f1),
        files_ok(f2),
        files_text(f1) + seq![10u8] + c1 == files_text(f2) + seq![10u8] + c2,
    ensures
        f1 == f2,
        c1 == c2,
    decreases f1.len(),
{
    let t = files_text(f1) + seq![10u8] + c1;
    if f1.len() == 0 && f2.len() == 0 {
        assert(files_text(f1) =~= Seq::<u8>::empty());
        assert(files_text(f2) =~= Seq::<u8>::empty());
        assert(c1 =~= t.skip(1));
        assert(c2 =~= (files_text(f2) + seq![10u8] + c2).skip(1));
        assert(f1 =~= f2);
    } else if f1.len() > 0 && f2.len() > 0 {
        let r1 = files_text(f1.drop_first()) + seq![10u8] + c1;
        let r2 = files_text(f2.drop_first()) + seq![10u8] + c2;
        assert(t =~= f1[0] + seq![10u8] + r1);
        assert(files_text(f2) + seq![10u8] + c2 =~= f2[0] + seq![10u8] + r2);
        lemma_sep_unique(f1[0], r1, f2[0], r2, 10);
        assert(files_ok(f1.drop_first())) by {
            assert forall|i: int| 0 <= i < f1.drop_first().len() implies #[trigger] f1.drop_first()[i].len() > 0
                && no_byte(f1.drop_first()[i], 10) by {
                assert(f1.drop_first()[i] == f1[i + 1]);
            }
        }
        assert(files_ok(f2.drop_first())) by {
            assert forall|i: int| 0 <= i < f2.drop_first().len() implies #[trigger] f2.drop_first()[i].len() > 0
                && no_byte(f2.drop_first()[i], 10) by {
                assert(f2.drop_first()[i] == f2[i + 1]);
            }
        }
        lemma_files_inj(f1.drop_first(), c1, f2.drop_first(), c2);
        assert(f1 =~= seq![f1[0]] + f1.drop_first());
        assert(f2 =~= seq![f2[0]] + f2.drop_first());
    } else if f1.len() == 0 {
        assert(files_text(f1) =~= Seq::<u8>::empty());
        assert(t[0] == 10);
        assert(f2[0].len() > 0 && no_byte(f2[0], 10));
        assert((files_text(f2) + seq![10u8] + c2)[0] == f2[0][0]);
    } else {
        assert(files_text(f2) =~= Seq::<u8>::empty());
        assert((files_text(f2) + seq![10u8] + c2)[0] == 10);
        assert(f1[0].len() > 0 && no_byte(f1[0], 10));
        assert(t[0] == f1[0][0]);
    }
}

proof fn lemma_time_line_inj(m1: ChangesetModel, m2: ChangesetModel)
    requires
        well_formed(m1),
        well_formed(m2),
        time_line(m1) == time_line(m2),
    ensures
        m1.time == m2.time,
        m1.tz == m2.tz,
        m1.extras == m2.extras,
{
    lemma_dec_no(m1.time);
    lemma_dec_no(m2.time);
    lemma_dec_no(m1.tz);
    lemma_dec_no(m2.tz);
    let ta = time_line(m1).skip(int_dec(m1.time).len() + 1int);
    let tb = time_line(m2).skip(int_dec(m2.time).len() + 1int);
    assert(time_line(m1) =~= int_dec(m1.time) + seq![32u8] + ta);
    assert(time_line(m2) =~= int_dec(m2.time) + seq![32u8] + tb);
    lemma_sep_unique(int_dec(m1.time), ta, int_dec(m2.time), tb, 32);
    lemma_int_dec_inj(m1.time, m2.time);
    if m1.extras.len() > 0 && m2.extras.len() > 0 {
        assert(ta =~= int_dec(m1.tz) + seq![32u8] + extras_text(m1.extras));
        assert(tb =~= int_dec(m2.tz) + seq![32u8] + extras_text(m2.extras));
        lemma_sep_unique(int_dec(m1.tz), extras_text(m1.extras), int_dec(m2.tz), extras_text(m2.extras), 32);
        lemma_int_dec_inj(m1.tz, m2.tz);
        lemma_extras_text_inj(m1.extras, m2.extras);
    } else if m1.extras.len() == 0 && m2.extras.len() == 0 {
        assert(ta =~= int_dec(m1.tz));
        assert(tb =~= int_dec(m2.tz));
        lemma_int_dec_inj(m1.tz, m2.tz);
        assert(m1.extras =~= m2.extras);
    } else if m1.extras.len() > 0 {
        assert(ta =~= int_dec(m1.tz) + seq![32u8] + extras_text(m1.extras));
        assert(tb =~= int_dec(m2.tz));
        assert(ta[int_dec(m1.tz).len() as int] == 32);
    } else {
        assert(tb =~= int_dec(m2.tz) + seq![32u8] + extras_text(m2.extras));
        assert(ta =~= int_dec(m1.tz));
        assert(tb[int_dec(m2.tz).len() as int] == 32);
    }
}

/// Two well-formed records with the same canonical text agree in every
/// field but the parents, which the text does not hold.
pub proof fn lemma_body_text_inj(m1: ChangesetModel, m2: ChangesetModel)
    requires
        well_formed(m1),
        well_formed(m2),
        body_text(m1) == body_text(m2),
    ensures
        m1.manifest == m2.manifest,
        m1.user == m2.user,
        m1.time == m2.time,
        m1.tz == m2.tz,
        m1.extras == m2.extras,
        m1.files == m2.files,
        m1.comments == m2.comments,
{
    let r3a = files_text(m1.files) + seq![10u8] + m1.comments;
    let r3b = files_text(m2.files) + seq![10u8] + m2.comments;
    let r2a = time_line(m1) + seq![10u8] + r3a;
    let r2b = time_line(m2) + seq![10u8] + r3b;
    let r1a = m1.user + seq![10u8] + r2a;
    let r1b = m2.user + seq![10u8] + r2b;
    assert(body_text(m1) =~= hex_of(m1.manifest) + seq![10u8] + r1a);
    assert(body_text(m2) =~= hex_of(m2.manifest) + seq![10u8] + r1b);
    lemma_hex_ascii(m1.manifest);
    lemma_hex_ascii(m2.manifest);
    lemma_hex_len(m1.manifest);
    lemma_hex_len(m2.manifest);
    lemma_sep_unique(hex_of(m1.manifest), r1a, hex_of(m2.manifest), r1b, 10);
    lemma_hex_inj(m1.manifest, m2.manifest);
    lemma_sep_unique(m1.user, r2a, m2.user, r2b, 10);
    lemma_time_line_no_newline(m1);
    lemma_time_line_no_newline(m2);
    lemma_sep_unique(time_line(m1), r3a, time_line(m2), r3b, 10);
    lemma_files_inj(m1.files, m1.comments, m2.files, m2.comments);
    lemma_time_line_inj(m1, m2);
}

/// The bytes that the node hash is taken over determine the record, up to
/// the order of its parents (an absent parent counting as the null hash):
/// records that differ in any other field are hashed over different bytes.
/// That different bytes give different digests is SHA-1's collision
/// resistance, which no proof here can supply.
pub proof fn lemma_hash_input_determines_record(m1: ChangesetModel, m2: ChangesetModel)
    requires
        well_formed(m1),
        well_formed(m2),
        node_input(m1.p1, m1.p2, body_text(m1)) == node_input(m2.p1, m2.p2, body_text(m2)),
    ensures
        (parent_bytes(m1.p1) == parent_bytes(m2.p1) && parent_bytes(m1.p2) == parent_bytes(m2.p2)) || (
        parent_bytes(m1.p1) == parent_bytes(m2.p2) && parent_bytes(m1.p2) == parent_bytes(m2.p1)),
        m1.manifest == m2.manifest,
        m1.user == m2.user,
        m1.time == m2.time,
        m1.tz == m2.tz,
        m1.extras == m2.extras,
        m1.files == m2.files,
        m1.comments == m2.comments,
{
    let (a1, b1) = (parent_bytes(m1.p1), parent_bytes(m1.p2));
    let (a2, b2) = (parent_bytes(m2.p1), parent_bytes(m2.p2));
    let (lo1, hi1) = if crate::extras::lex_lt(b1, a1) { (b1, a1) } else { (a1, b1) };
    let (lo2, hi2) = if crate::extras::lex_lt(b2, a2) { (b2, a2) } else { (a2, b2) };
    let s = node_input(m1.p1, m1.p2, body_text(m1));
    assert(lo1.len() == 20 && hi1.len() == 20 && lo2.len() == 20 && hi2.len() == 20);
    assert(s == lo1 + hi1 + body_text(m1));
    assert(s == lo2 + hi2 + body_text(m2));
    assert(lo1 =~= s.take(20));
    assert(lo2 =~= s.take(20));
    assert(hi1 =~= s.subrange(20, 40));
    assert(hi2 =~= s.subrange(20, 40));
    assert(body_text(m1) =~= s.skip(40));
    assert(body_text(m2) =~= s.skip(40));
    lemma_body_text_inj(m1, m2);
}

} // verus!
