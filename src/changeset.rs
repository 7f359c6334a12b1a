//! Changeset records and their canonical text form, which is bit-for-bit
//! the one that Mercurial's changelog stores:
//!
//! ```text
//! <manifest hex>\n<user>\n<time> <tz>[ <extras>]\n<file>\n...\n\n<comments>
//! ```

use crate::decimal::{int_dec, push_int};
use crate::extras::{sorted_keys, Extra};
use crate::extras_text::{extras_text, keys_colon_free, push_extras};
use crate::hex::{hex_of, push_hex};
use crate::slices::append_bytes;
use vstd::prelude::*;

verus! {

/// A 20-byte node hash.
#[derive(Clone, Copy, Debug, PartialEq, Eq, Hash)]
pub struct NodeHash {
    pub bytes: [u8; 20],
}

impl NodeHash {
    pub open spec fn view(&self) -> Seq<u8> {
        self.bytes@
    }

    pub fn new(bytes: [u8; 20]) -> (r: Self)
        ensures
            r@ == bytes@,
    {
        NodeHash { bytes }
    }

    /// The all-zero hash, which names no changeset.
    pub fn null() -> (r: Self)
        ensures
            r@ == null_bytes(),
    {
        let r = NodeHash { bytes: [0u8; 20] };
        assert(r@ =~= null_bytes());
        r
    }

    /// Whether this is the all-zero hash.
    pub fn is_null(&self) -> (r: bool)
        ensures
            r == (self@ == null_bytes()),
    {
        let mut i: usize = 0;
        while i < 20
            invariant
                i <= 20,
                self@.len() == 20,
                forall|j: int| 0 <= j < i ==> self@[j] == 0,
            decreases 20 - i,
        {
            if self.bytes[i] != 0 {
                return false;
            }
            i = i + 1;
        }
        assert(self@ =~= null_bytes());
        true
    }

    /// Whether two hashes are equal.
    pub fn same(&self, other: &NodeHash) -> (r: bool)
        ensures
            r == (self@ == other@),
    {
        let mut i: usize = 0;
        while i < 20
            invariant
                i <= 20,
                self@.len() == 20,
                other@.len() == 20,
                forall|j: int| 0 <= j < i ==> self@[j] == other@[j],
            decreases 20 - i,
        {
            if self.bytes[i] != other.bytes[i] {
                return false;
            }
            i = i + 1;
        }
        assert(self@ =~= other@);
        true
    }
}

pub open spec fn null_bytes() -> Seq<u8> {
    Seq::new(20, |i: int| 0u8)
}

/// A commit time: seconds since the Unix epoch and the time zone's offset in
/// seconds west of UTC.
#[derive(Clone, Copy, Debug, PartialEq, Eq, Structural)]
pub struct Time {
    pub time: i64,
    pub tz: i32,
}

/// The parents of a changeset, in the order the caller gave them.
#[derive(Clone, Copy, Debug)]
pub struct Parents {
    pub p1: Option<NodeHash>,
    pub p2: Option<NodeHash>,
}

pub open spec fn opt_hash_view(h: Option<NodeHash>) -> Option<Seq<u8>> {
    match h {
        Some(x) => Some(x@),
        None => None,
    }
}

/// A changeset record, as values.
pub ghost struct ChangesetModel {
    pub p1: Option<Seq<u8>>,
    pub p2: Option<Seq<u8>>,
    pub manifest: Seq<u8>,
    pub user: Seq<u8>,
    pub time: int,
    pub tz: int,
    pub extras: Seq<(Seq<u8>, Seq<u8>)>,
    pub files: Seq<Seq<u8>>,
    pub comments: Seq<u8>,
}

pub open spec fn no_byte(s: Seq<u8>, b: u8) -> bool {
    forall|i: int| 0 <= i < s.len() ==> #[trigger] s[i] != b
}

/// A record whose text form reads back as the same record: the user and
/// the paths hold no newline, no path is empty, no extras key holds a
/// colon, and the extras keys strictly increase.
pub open spec fn well_formed(m: ChangesetModel) -> bool {
    &&& m.manifest.len() == 20
    &&& (m.p1 matches Some(h) ==> h.len() == 20)
    &&& (m.p2 matches Some(h) ==> h.len() == 20)
    &&& i64::MIN <= m.time <= i64::MAX
    &&& i32::MIN <= m.tz <= i32::MAX
    &&& no_byte(m.user, 10)
    &&& forall|i: int| 0 <= i < m.files.len() ==> #[trigger] m.files[i].len() > 0 && no_byte(m.files[i], 10)
    &&& keys_colon_free(m.extras)
    &&& sorted_keys(m.extras)
}

/// Each path followed by a newline.
pub open spec fn files_text(fs: Seq<Seq<u8>>) -> Seq<u8>
    decreases fs.len(),
{
    if fs.len() == 0 {
        Seq::empty()
    } else {
        fs[0] + seq![10u8] + files_text(fs.drop_first())
    }
}

/// The time line without its newline.
pub open spec fn time_line(m: ChangesetModel) -> Seq<u8> {
    time_line_of(m.time, m.tz, m.extras)
}

/// The time line of a record with these time, offset and extras.
pub open spec fn time_line_of(time: int, tz: int, extras: Seq<(Seq<u8>, Seq<u8>)>) -> Seq<u8> {
    int_dec(time) + seq![32u8] + int_dec(tz) + if extras.len() > 0 {
        seq![32u8] + extras_text(extras)
    } else {
        Seq::empty()
    }
}

/// The canonical text of a record.
pub open spec fn body_text(m: ChangesetModel) -> Seq<u8> {
    hex_of(m.manifest) + seq![10u8] + m.user + seq![10u8] + time_line(m) + seq![10u8] + files_text(
        m.files,
    ) + seq![10u8] + m.comments
}

pub proof fn lemma_files_text_concat(a: Seq<Seq<u8>>, b: Seq<Seq<u8>>)
    ensures
        files_text(a + b) == files_text(a) + files_text(b),
    decreases a.len(),
{
    if a.len() == 0 {
        assert(a + b =~= b);
        assert(files_text(a) + files_text(b) =~= files_text(b));
    } else {
        lemma_files_text_concat(a.drop_first(), b);
        assert((a + b).drop_first() =~= a.drop_first() + b);
        assert((a + b)[0] == a[0]);
        assert(files_text(a + b) =~= files_text(a) + files_text(b));
    }
}

pub struct ChangesetContent {
    pub parents: Parents,
    pub manifestid: NodeHash,
    pub user: Vec<u8>,
    pub time: Time,
    pub extra: Extra,
    pub files: Vec<Vec<u8>>,
    pub comments: Vec<u8>,
}

pub open spec fn files_view(fs: Seq<Vec<u8>>) -> Seq<Seq<u8>> {
    Seq::new(fs.len(), |i: int| fs[i]@)
}

impl ChangesetContent {
    pub open spec fn view(&self) -> ChangesetModel {
        ChangesetModel {
            p1: opt_hash_view(self.parents.p1),
            p2: opt_hash_view(self.parents.p2),
            manifest: self.manifestid@,
            user: self.user@,
            time: self.time.time as int,
            tz: self.time.tz as int,
            extras: self.extra@,
            files: files_view(self.files@),
            comments: self.comments@,
        }
    }

    pub fn new_from_parts(
        parents: Parents,
        manifestid: NodeHash,
        user: Vec<u8>,
        time: Time,
        extra: Extra,
        files: Vec<Vec<u8>>,
        comments: Vec<u8>,
    ) -> (r: Self)
        ensures
            r@ == (ChangesetModel {
                p1: opt_hash_view(parents.p1),
                p2: opt_hash_view(parents.p2),
                manifest: manifestid@,
                user: user@,
                time: time.time as int,
                tz: time.tz as int,
                extras: extra@,
                files: files_view(files@),
                comments: comments@,
            }),
    {
        ChangesetContent { parents, manifestid, user, time, extra, files, comments }
    }

    /// Writes the canonical text of this record to `out`.
    pub fn generate(&self, out: &mut Vec<u8>)
        ensures
            final(out)@ == old(out)@ + body_text(self@),
    {
        push_hex(out, &self.manifestid.bytes);
        out.push(10);
        append_bytes(out, &self.user);
        out.push(10);
        let ghost t0 = out@;
        push_int(out, self.time.time);
        out.push(32);
        push_int(out, self.time.tz as i64);
        if !self.extra.is_empty() {
            out.push(32);
            push_extras(out, &self.extra);
        }
        proof {
            assert(out@ =~= t0 + time_line(self@));
        }
        out.push(10);
        let ghost f0 = out@;
        let ghost fv = files_view(self.files@);
        let mut i: usize = 0;
        assert(fv.take(0) =~= Seq::<Seq<u8>>::empty());
        while i < self.files.len()
            invariant
                fv == files_view(self.files@),
                i <= self.files@.len(),
                out@ == f0 + files_text(fv.take(i as int)),
            decreases self.files@.len() - i,
        {
            append_bytes(out, &self.files[i]);
            out.push(10);
            proof {
                lemma_files_text_concat(fv.take(i as int), seq![fv[i as int]]);
                assert(fv.take(i + 1) =~= fv.take(i as int) + seq![fv[i as int]]);
                assert(seq![fv[i as int]].drop_first() =~= Seq::<Seq<u8>>::empty());
                assert(files_text(Seq::<Seq<u8>>::empty()) =~= Seq::<u8>::empty());
                assert(files_text(seq![fv[i as int]]) == fv[i as int] + seq![10u8] + files_text(seq![fv[i as int]].drop_first()));
                assert(files_text(seq![fv[i as int]]) =~= fv[i as int] + seq![10u8]);
                assert(out@ =~= f0 + files_text(fv.take(i + 1)));
            }
            i = i + 1;
        }
        assert(fv.take(self.files@.len() as int) =~= fv);
        out.push(10);
        append_bytes(out, &self.comments);
        assert(out@ =~= old(out)@ + body_text(self@));
    }
}

} // verus!
