//! Reading a changeset back from its canonical text.

use crate::changeset::{
    body_text, files_text, files_view, lemma_files_text_concat, no_byte, opt_hash_view, time_line, time_line_of, well_formed,
    ChangesetContent, ChangesetModel, NodeHash, Parents, Time,
};
use crate::decimal::{int_dec, lemma_int_dec_chars, parse_int};
use crate::errors::{ErrorKind, RevlogFault};
use crate::extras::{entries_view, Extra};
use crate::extras_text::{
    entry_text, esc, extras_cond, extras_text, find_byte, keys_colon_free, lemma_esc_bytes,
    parse_extras,
};
use crate::hex::{hex_digit, hex_of, lemma_hex_ascii, lemma_hex_index, lemma_hex_len, parse_hex20};
use crate::slices::copy_range;
use vstd::prelude::*;

verus! {

/// `r` is where `find_byte(b, from, to, sep)` stops.
pub open spec fn found(b: Seq<u8>, from: int, to: int, r: int, sep: u8) -> bool {
    &&& 0 <= from <= r <= to <= b.len()
    &&& forall|j: int| from <= j < r ==> b[j] != sep
    &&& r < to ==> b[r] == sep
}

proof fn lemma_split(b: Seq<u8>, from: int, to: int, r: int, sep: u8, field: Seq<u8>, rest: Seq<u8>)
    requires
        found(b, from, to, r, sep),
        b.subrange(from, to) == field + seq![sep] + rest,
        no_byte(field, sep),
    ensures
        r == from + field.len(),
        b.subrange(from, r) == field,
        b.subrange(r + 1, to) == rest,
{
    let sub = b.subrange(from, to);
    assert(sub.len() == to - from);
    assert(sub.len() == field.len() + 1 + rest.len());
    assert(sub[field.len() as int] == sep);
    if r < from + field.len() {
        assert(b[r] == sub[r - from]);
        assert(sub[r - from] == field[r - from]);
    }
    if r > from + field.len() {
        assert(b[from + field.len()] == sub[field.len() as int]);
    }
    assert(b.subrange(from, r) =~= field);
    assert(b.subrange(r + 1, to) =~= sub.skip(field.len() + 1int));
    assert(sub.skip(field.len() + 1int) =~= rest);
}

proof fn lemma_whole(b: Seq<u8>, from: int, to: int, r: int, sep: u8, field: Seq<u8>)
    requires
        found(b, from, to, r, sep),
        b.subrange(from, to) == field,
        no_byte(field, sep),
    ensures
        r == to,
{
    if r < to {
        assert(b[r] == field[r - from]);
    }
}

pub(crate) proof fn lemma_hex_inj(x: Seq<u8>, y: Seq<u8>)
    requires
        x.len() == y.len(),
        hex_of(x) == hex_of(y),
    ensures
        x == y,
{
    assert forall|i: int| 0 <= i < x.len() implies x[i] == y[i] by {
        lemma_hex_index(x, i);
        lemma_hex_index(y, i);
        let (a, b) = (x[i], y[i]);
        assert(hex_digit(a / 16) == hex_digit(b / 16));
        assert(hex_digit(a % 16) == hex_digit(b % 16));
        assert(a / 16 == b / 16);
        assert(a % 16 == b % 16);
        assert(a == 16 * (a / 16) + a % 16);
        assert(b == 16 * (b / 16) + b % 16);
    }
    assert(x =~= y);
}

proof fn lemma_extras_no_newline(es: Seq<(Seq<u8>, Seq<u8>)>)
    ensures
        no_byte(extras_text(es), 10),
    decreases es.len(),
{
    if es.len() > 0 {
        let e = es.last();
        lemma_esc_bytes(e.0);
        lemma_esc_bytes(e.1);
        let et = entry_text(e);
        assert forall|j: int| 0 <= j < et.len() implies et[j] != 10 by {
            if j < esc(e.0).len() {
                assert(et[j] == esc(e.0)[j]);
            } else if j > esc(e.0).len() {
                assert(et[j] == esc(e.1)[j - esc(e.0).len() - 1]);
            }
        }
        if es.len() > 1 {
            lemma_extras_no_newline(es.drop_last());
            let t = extras_text(es);
            let d = extras_text(es.drop_last());
            assert forall|j: int| 0 <= j < t.len() implies t[j] != 10 by {
                if j < d.len() {
                    assert(t[j] == d[j]);
                } else if j > d.len() {
                    assert(t[j] == et[j - d.len() - 1]);
                }
            }
        }
    }
}

pub(crate) proof fn lemma_dec_no(n: int)
    ensures
        no_byte(int_dec(n), 10),
        no_byte(int_dec(n), 32),
{
    lemma_int_dec_chars(n);
}

pub(crate) proof fn lemma_time_line_no_newline(m: ChangesetModel)
    ensures
        no_byte(time_line(m), 10),
{
    lemma_dec_no(m.time);
    lemma_dec_no(m.tz);
    lemma_extras_no_newline(m.extras);
    let t = time_line(m);
    let a = int_dec(m.time);
    let b = int_dec(m.tz);
    assert forall|j: int| 0 <= j < t.len() implies t[j] != 10 by {
        if j < a.len() {
            assert(t[j] == a[j]);
        } else if j == a.len() {
        } else if j < a.len() + 1 + b.len() {
            assert(t[j] == b[j - a.len() - 1]);
        } else if j == a.len() + 1 + b.len() {
        } else {
            assert(t[j] == extras_text(m.extras)[j - a.len() - 2 - b.len()]);
        }
    }
}

pub open spec fn rest3(m: ChangesetModel) -> Seq<u8> {
    files_text(m.files) + seq![10u8] + m.comments
}

pub open spec fn rest2(m: ChangesetModel) -> Seq<u8> {
    time_line(m) + seq![10u8] + rest3(m)
}

pub open spec fn rest1(m: ChangesetModel) -> Seq<u8> {
    m.user + seq![10u8] + rest2(m)
}

/// `m` is a well-formed record with parents `parents` whose text is `b`.
pub open spec fn text_of(m: ChangesetModel, parents: Parents, b: Seq<u8>) -> bool {
    &&& well_formed(m)
    &&& b == body_text(m)
    &&& m.p1 == opt_hash_view(parents.p1)
    &&& m.p2 == opt_hash_view(parents.p2)
}

proof fn lemma_layout(m: ChangesetModel)
    ensures
        body_text(m) == hex_of(m.manifest) + seq![10u8] + rest1(m),
{
    assert(body_text(m) =~= hex_of(m.manifest) + seq![10u8] + rest1(m));
}

pub open spec fn files_inv(b: Seq<u8>, pos: int, m: ChangesetModel, i: int, fs: Seq<Seq<u8>>) -> bool {
    &&& 0 <= i <= m.files.len()
    &&& fs == m.files.take(i)
    &&& b.subrange(pos, b.len() as int) == files_text(m.files.skip(i)) + seq![10u8] + m.comments
}

proof fn lemma_files_step(b: Seq<u8>, pos: int, e: int, m: ChangesetModel, i: int, fs: Seq<Seq<u8>>)
    requires
        well_formed(m),
        files_inv(b, pos, m, i, fs),
        found(b, pos, b.len() as int, e, 10),
    ensures
        e < b.len(),
        e == pos <==> i == m.files.len(),
        e == pos ==> b.subrange(pos + 1, b.len() as int) == m.comments,
        e > pos ==> b.subrange(pos, e) == m.files[i] && files_inv(b, e + 1, m, i + 1, fs.push(m.files[i])),
{
    let len = b.len() as int;
    if i == m.files.len() {
        assert(m.files.skip(i) =~= Seq::<Seq<u8>>::empty());
        assert(files_text(m.files.skip(i)) =~= Seq::<u8>::empty());
        assert(b.subrange(pos, len) =~= Seq::<u8>::empty() + seq![10u8] + m.comments);
        lemma_split(b, pos, len, e, 10, Seq::<u8>::empty(), m.comments);
    } else {
        let rest = m.files.skip(i);
        assert(rest[0] == m.files[i]);
        assert(rest.drop_first() =~= m.files.skip(i + 1));
        let tail = files_text(m.files.skip(i + 1)) + seq![10u8] + m.comments;
        assert(b.subrange(pos, len) =~= m.files[i] + seq![10u8] + tail);
        lemma_split(b, pos, len, e, 10, m.files[i], tail);
        assert(fs.push(m.files[i]) =~= m.files.take(i + 1));
    }
}

pub open spec fn time_cond(b: Seq<u8>, from: int, to: int, m: ChangesetModel) -> bool {
    well_formed(m) && b.subrange(from, to) == time_line(m)
}

/// Reads the time line `b[from..to]`: time, offset and extras.
fn read_time_line(b: &Vec<u8>, from: usize, to: usize) -> (r: Result<(i64, i32, Extra), ErrorKind>)
    requires
        from <= to <= b@.len(),
    ensures
        forall|m: ChangesetModel| #[trigger] time_cond(b@, from as int, to as int, m) ==> (r matches Ok((t, z, e))
            && t == m.time && z == m.tz && e@ == m.extras),
        r matches Ok((t, z, e)) ==> e.wf() && keys_colon_free(e@) && b@.subrange(from as int, to as int)
            == time_line_of(t as int, z as int, e@),
{
    let sp1 = find_byte(b, from, to, 32);
    proof {
        assert forall|m: ChangesetModel| #[trigger] time_cond(b@, from as int, to as int, m) implies sp1 < to
            && b@.subrange(from as int, sp1 as int) == int_dec(m.time)
            && b@.subrange(sp1 + 1, to as int) == time_line(m).skip(int_dec(m.time).len() + 1int) by {
            lemma_dec_no(m.time);
            let tl = time_line(m);
            let r = tl.skip(int_dec(m.time).len() + 1int);
            assert(tl =~= int_dec(m.time) + seq![32u8] + r);
            lemma_split(b@, from as int, to as int, sp1 as int, 32, int_dec(m.time), r);
        }
    }
    if sp1 == to {
        return Err(ErrorKind::Revlog(RevlogFault::BadTime));
    }
    let time = match parse_int(b, from, sp1) {
        Some(t) => t,
        None => {
            proof {
                assert forall|m: ChangesetModel| #[trigger] time_cond(b@, from as int, to as int, m) implies false by {
                    assert(int_dec((m.time as i64) as int) == b@.subrange(from as int, sp1 as int));
                }
            }
            return Err(ErrorKind::Revlog(RevlogFault::BadTime));
        },
    };
    proof {
        assert forall|m: ChangesetModel| #[trigger] time_cond(b@, from as int, to as int, m) implies time == m.time by {
            assert(int_dec((m.time as i64) as int) == b@.subrange(from as int, sp1 as int));
        }
    }
    let sp2 = find_byte(b, sp1 + 1, to, 32);
    proof {
        assert forall|m: ChangesetModel| #[trigger] time_cond(b@, from as int, to as int, m) implies b@.subrange(
            sp1 + 1,
            sp2 as int,
        ) == int_dec(m.tz) && (sp2 < to <==> m.extras.len() > 0) && (sp2 < to ==> b@.subrange(sp2 + 1, to as int)
            == extras_text(m.extras)) by {
            lemma_dec_no(m.tz);
            let r = time_line(m).skip(int_dec(m.time).len() + 1int);
            if m.extras.len() > 0 {
                assert(r =~= int_dec(m.tz) + seq![32u8] + extras_text(m.extras));
                lemma_split(b@, sp1 + 1, to as int, sp2 as int, 32, int_dec(m.tz), extras_text(m.extras));
            } else {
                assert(r =~= int_dec(m.tz));
                lemma_whole(b@, sp1 + 1, to as int, sp2 as int, 32, int_dec(m.tz));
            }
        }
    }
    let tz = match parse_int(b, sp1 + 1, sp2) {
        Some(t) => t,
        None => {
            proof {
                assert forall|m: ChangesetModel| #[trigger] time_cond(b@, from as int, to as int, m) implies false by {
                    assert(int_dec((m.tz as i64) as int) == b@.subrange(sp1 + 1, sp2 as int));
                }
            }
            return Err(ErrorKind::Revlog(RevlogFault::BadTime));
        },
    };
    proof {
        assert forall|m: ChangesetModel| #[trigger] time_cond(b@, from as int, to as int, m) implies tz == m.tz by {
            assert(int_dec((m.tz as i64) as int) == b@.subrange(sp1 + 1, sp2 as int));
        }
    }
    if tz < -2147483648 || tz > 2147483647 {
        return Err(ErrorKind::Revlog(RevlogFault::BadTime));
    }
    if sp2 < to {
        let entries = match parse_extras(b, sp2 + 1, to) {
            Some(v) => v,
            None => {
                proof {
                    assert forall|m: ChangesetModel| #[trigger] time_cond(b@, from as int, to as int, m) implies false by {
                        assert(extras_cond(b@, sp2 + 1, to as int, m.extras));
                    }
                }
                return Err(ErrorKind::Revlog(RevlogFault::BadExtra));
            },
        };
        proof {
            assert forall|m: ChangesetModel| #[trigger] time_cond(b@, from as int, to as int, m) implies entries_view(
                entries@,
            ) == m.extras by {
                assert(extras_cond(b@, sp2 + 1, to as int, m.extras));
            }
        }
        match Extra::from_sorted(entries) {
            Some(e) => {
                proof {
                    assert(extras_cond(b@, sp2 + 1, to as int, e@));
                    assert(b@.subrange(from as int, to as int) =~= b@.subrange(from as int, sp1 as int) + seq![32u8]
                        + b@.subrange(sp1 + 1, sp2 as int) + (seq![32u8] + b@.subrange(sp2 + 1, to as int)));
                }
                Ok((time, tz as i32, e))
            },
            None => Err(ErrorKind::Revlog(RevlogFault::BadExtra)),
        }
    } else {
        let e = Extra::new();
        proof {
            assert(b@.subrange(from as int, to as int) =~= b@.subrange(from as int, sp1 as int) + seq![32u8]
                + b@.subrange(sp1 + 1, sp2 as int) + Seq::<u8>::empty());
        }
        Ok((time, tz as i32, e))
    }
}

/// Every path is non-empty and holds no newline.
pub open spec fn files_ok(fs: Seq<Seq<u8>>) -> bool {
    forall|i: int| 0 <= i < fs.len() ==> #[trigger] fs[i].len() > 0 && no_byte(fs[i], 10)
}

pub open spec fn files_cond(b: Seq<u8>, start: int, m: ChangesetModel) -> bool {
    well_formed(m) && b.subrange(start, b.len() as int) == rest3(m)
}

/// Reads the file list that starts at `start` and ends at the first empty
/// line; returns the paths and where the comments start.
fn read_files(b: &Vec<u8>, start: usize) -> (r: Option<(Vec<Vec<u8>>, usize)>)
    requires
        start <= b@.len(),
    ensures
        r matches Some((_, p)) ==> p <= b@.len(),
        r matches Some((fs, p)) ==> start < p && b@.subrange(start as int, p as int) == files_text(files_view(fs@))
            + seq![10u8] && files_ok(files_view(fs@)),
        forall|m: ChangesetModel| #[trigger] files_cond(b@, start as int, m) ==> (r matches Some((fs, p))
            && files_view(fs@) == m.files && b@.subrange(p as int, b@.len() as int) == m.comments),
{
    let len = b.len();
    let mut files: Vec<Vec<u8>> = Vec::new();
    let mut pos: usize = start;
    let ghost mut i: int = 0;
    proof {
        assert forall|m: ChangesetModel| #[trigger] files_cond(b@, start as int, m) implies files_inv(
            b@,
            pos as int,
            m,
            i,
            files_view(files@),
        ) by {
            assert(m.files.skip(0) =~= m.files);
            assert(files_view(files@) =~= m.files.take(0));
        }
        assert(b@.subrange(start as int, pos as int) =~= Seq::<u8>::empty());
        assert(files_view(files@) =~= Seq::<Seq<u8>>::empty());
        assert(files_text(Seq::<Seq<u8>>::empty()) =~= Seq::<u8>::empty());
    }
    loop
        invariant
            start <= pos <= len,
            len == b@.len(),
            forall|m: ChangesetModel| #[trigger] files_cond(b@, start as int, m) ==> files_inv(
                b@,
                pos as int,
                m,
                i,
                files_view(files@),
            ),
            b@.subrange(start as int, pos as int) == files_text(files_view(files@)),
            files_ok(files_view(files@)),
        decreases len - pos,
    {
        let e = find_byte(b, pos, len, 10);
        proof {
            assert forall|m: ChangesetModel| #[trigger] files_cond(b@, start as int, m) implies e < len && (e
                == pos ==> i == m.files.len() && b@.subrange(pos + 1, len as int) == m.comments) by {
                lemma_files_step(b@, pos as int, e as int, m, i, files_view(files@));
            }
        }
        if e == len {
            return None;
        }
        if e == pos {
            proof {
                assert forall|m: ChangesetModel| #[trigger] files_cond(b@, start as int, m) implies files_view(files@)
                    == m.files by {
                    assert(m.files.take(i) =~= m.files);
                }
                assert(b@.subrange(start as int, pos + 1) =~= b@.subrange(start as int, pos as int) + seq![10u8]);
            }
            return Some((files, pos + 1));
        }
        let f = copy_range(b, pos, e);
        let ghost before = files_view(files@);
        files.push(f);
        proof {
            assert(files_view(files@) =~= before.push(f@));
            lemma_files_text_concat(before, seq![f@]);
            assert(seq![f@].drop_first() =~= Seq::<Seq<u8>>::empty());
            assert(files_text(Seq::<Seq<u8>>::empty()) =~= Seq::<u8>::empty());
            assert(files_text(seq![f@]) == f@ + seq![10u8] + files_text(seq![f@].drop_first()));
            assert(before.push(f@) =~= before + seq![f@]);
            assert(b@.subrange(start as int, e + 1) =~= b@.subrange(start as int, pos as int) + f@ + seq![10u8]);
            assert(no_byte(f@, 10));
            assert(files_ok(files_view(files@))) by {
                assert forall|j: int| 0 <= j < files_view(files@).len() implies #[trigger] files_view(files@)[j].len() > 0
                    && no_byte(files_view(files@)[j], 10) by {
                    if j < before.len() {
                        assert(files_view(files@)[j] == before[j]);
                    }
                }
            }
            assert forall|m: ChangesetModel| #[trigger] files_cond(b@, start as int, m) implies files_inv(
                b@,
                e + 1,
                m,
                i + 1,
                files_view(files@),
            ) by {
                lemma_files_step(b@, pos as int, e as int, m, i, before);
            }
            i = i + 1;
        }
        pos = e + 1;
    }
}

proof fn lemma_assemble(b: Seq<u8>, u: int, te: int, cstart: int, cm: ChangesetModel)
    requires
        41 <= u < te < cstart <= b.len(),
        b[40] == 10,
        b[u] == 10,
        b[te] == 10,
        b.subrange(0, 40) == hex_of(cm.manifest),
        b.subrange(41, u) == cm.user,
        b.subrange(u + 1, te) == time_line(cm),
        b.subrange(te + 1, cstart) == files_text(cm.files) + seq![10u8],
        b.subrange(cstart, b.len() as int) == cm.comments,
    ensures
        body_text(cm) == b,
{
    assert(b =~= b.subrange(0, 40) + seq![10u8] + b.subrange(41, u) + seq![10u8] + b.subrange(u + 1, te)
        + seq![10u8] + b.subrange(te + 1, cstart) + b.subrange(cstart, b.len() as int));
    assert(body_text(cm) =~= b);
}

/// Reads a changeset with parents `parents` from its canonical text `b`.
/// The text of any well-formed record with those parents reads back as
/// exactly that record.
pub fn parse_body(parents: Parents, b: &Vec<u8>) -> (r: Result<ChangesetContent, ErrorKind>)
    ensures
        forall|m: ChangesetModel| #[trigger] text_of(m, parents, b@) ==> (r matches Ok(c) && c@ == m),
        r matches Ok(c) ==> c.extra.wf() && c@.p1 == opt_hash_view(parents.p1) && c@.p2 == opt_hash_view(
            parents.p2,
        ),
        r matches Ok(c) ==> well_formed(c@) && body_text(c@) == b@,
{
    let len = b.len();
    let a = find_byte(b, 0, len, 10);
    proof {
        assert forall|m: ChangesetModel| #[trigger] text_of(m, parents, b@) implies a == 40 && a < len
            && b@.subrange(41, len as int) == rest1(m) && b@.subrange(0, 40) == hex_of(m.manifest) by {
            lemma_layout(m);
            lemma_hex_len(m.manifest);
            lemma_hex_ascii(m.manifest);
            assert(b@.subrange(0, len as int) =~= b@);
            lemma_split(b@, 0, len as int, a as int, 10, hex_of(m.manifest), rest1(m));
        }
    }
    if a != 40 || a == len {
        return Err(ErrorKind::Revlog(RevlogFault::BadManifest));
    }
    let manifest = match parse_hex20(b, 0) {
        Some(x) => NodeHash::new(x),
        None => {
            proof {
                assert forall|m: ChangesetModel| #[trigger] text_of(m, parents, b@) implies false by {
                    assert(m.manifest.len() == 20 && hex_of(m.manifest) == b@.subrange(0, 40));
                }
            }
            return Err(ErrorKind::Revlog(RevlogFault::BadManifest));
        },
    };
    proof {
        assert forall|m: ChangesetModel| #[trigger] text_of(m, parents, b@) implies manifest@ == m.manifest by {
            lemma_hex_inj(manifest@, m.manifest);
        }
    }
    let u = find_byte(b, 41, len, 10);
    proof {
        assert forall|m: ChangesetModel| #[trigger] text_of(m, parents, b@) implies u < len
            && b@.subrange(41, u as int) == m.user && b@.subrange(u + 1, len as int) == rest2(m) by {
            lemma_split(b@, 41, len as int, u as int, 10, m.user, rest2(m));
        }
    }
    if u == len {
        return Err(ErrorKind::Revlog(RevlogFault::MissingLine));
    }
    let user = copy_range(b, 41, u);
    let te = find_byte(b, u + 1, len, 10);
    proof {
        assert forall|m: ChangesetModel| #[trigger] text_of(m, parents, b@) implies te < len && time_cond(
            b@,
            u + 1,
            te as int,
            m,
        ) && files_cond(b@, te + 1, m) by {
            lemma_time_line_no_newline(m);
            lemma_split(b@, u + 1, len as int, te as int, 10, time_line(m), rest3(m));
        }
    }
    if te == len {
        return Err(ErrorKind::Revlog(RevlogFault::MissingLine));
    }
    let (time, tz, extra) = match read_time_line(b, u + 1, te) {
        Ok(x) => x,
        Err(e) => {
            return Err(e);
        },
    };
    let (files, cstart) = match read_files(b, te + 1) {
        Some(x) => x,
        None => {
            return Err(ErrorKind::Revlog(RevlogFault::MissingLine));
        },
    };
    let comments = copy_range(b, cstart, len);
    let c = ChangesetContent {
        parents,
        manifestid: manifest,
        user,
        time: Time { time, tz },
        extra,
        files,
        comments,
    };
    proof {
        assert forall|m: ChangesetModel| #[trigger] text_of(m, parents, b@) implies c@ == m by {
            assert(time_cond(b@, u + 1, te as int, m));
            assert(files_cond(b@, te + 1, m));
            assert(c@.extras =~= m.extras);
        }
        let cm = c@;
        assert(no_byte(cm.user, 10)) by {
            assert forall|j: int| 0 <= j < cm.user.len() implies #[trigger] cm.user[j] != 10 by {
                assert(cm.user[j] == b@[41 + j]);
            }
        }
        assert(files_ok(cm.files));
        assert(well_formed(cm));
        lemma_assemble(b@, u as int, te as int, cstart as int, cm);
    }
    Ok(c)
}

} // verus!
