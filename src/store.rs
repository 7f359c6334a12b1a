//! Changesets kept in a blob store under their node hash.

use crate::blobstore::Blobstore;
use crate::changeset::{
    body_text, null_bytes, opt_hash_view, well_formed, ChangesetContent, ChangesetModel, NodeHash,
    Parents, Time,
};
use crate::changeset_parse::{parse_body, text_of};
use crate::envelope::{decode_cond, decode_envelope, encode_envelope, envelope_of};
use crate::errors::{ErrorKind, RevlogFault};
use crate::extras::Extra;
use crate::hex::{hex_of, hex_value, lemma_hex_ascii, lemma_hex_len, push_hex};
use crate::node::{hash_of, node_hash};
use vstd::prelude::*;

verus! {

pub open spec fn ascii_chars(s: Seq<u8>) -> Seq<char> {
    s.map_values(|b: u8| b as char)
}

/// Relies on `String::from_utf8`: bytes below 128 are valid UTF-8 and each
/// becomes the char of the same value.
#[verifier::external_body]
fn ascii_string(v: Vec<u8>) -> (r: String)
    requires
        forall|i: int| 0 <= i < v@.len() ==> #[trigger] v@[i] < 128,
    ensures
        r@ == ascii_chars(v@),
{
    String::from_utf8(v).unwrap_or_default()
}

/// `changeset-<hex>.framed`, as bytes.
pub open spec fn key_bytes(id: Seq<u8>) -> Seq<u8> {
    seq![99u8, 104, 97, 110, 103, 101, 115, 101, 116, 45] + hex_of(id) + seq![46u8, 102, 114, 97, 109, 101, 100]
}

/// The blob store key of the changeset with node hash `id`.
pub open spec fn key_of(id: Seq<u8>) -> Seq<char> {
    ascii_chars(key_bytes(id))
}

/// The blob store key of the changeset with node hash `id`.
pub fn cskey(id: &NodeHash) -> (r: String)
    ensures
        r@ == key_of(id@),
{
    let mut v: Vec<u8> = vec![99u8, 104, 97, 110, 103, 101, 115, 101, 116, 45];
    push_hex(&mut v, &id.bytes);
    v.push(46);
    v.push(102);
    v.push(114);
    v.push(97);
    v.push(109);
    v.push(101);
    v.push(100);
    proof {
        assert(v@ =~= key_bytes(id@));
        lemma_hex_ascii(id@);
        lemma_hex_len(id@);
        assert forall|i: int| 0 <= i < v@.len() implies #[trigger] v@[i] < 128 by {
            if 10 <= i < 50 {
                assert(v@[i] == hex_of(id@)[i - 10]);
                assert(hex_value(hex_of(id@)[i - 10]) is Some);
            }
        }
    }
    ascii_string(v)
}

/// The record that the null id stands for: no parents, the null manifest,
/// and everything else empty or zero.
pub open spec fn null_model() -> ChangesetModel {
    ChangesetModel {
        p1: None,
        p2: None,
        manifest: null_bytes(),
        user: Seq::empty(),
        time: 0,
        tz: 0,
        extras: Seq::empty(),
        files: Seq::empty(),
        comments: Seq::empty(),
    }
}

/// `got` is the stored form of the well-formed record `m`, and `id` is its
/// node hash.
pub open spec fn stored_as(m: ChangesetModel, id: Seq<u8>, got: Option<Seq<u8>>) -> bool {
    &&& stored_form(m, got)
    &&& id == hash_of(m)
}

/// `got` is the stored form of the well-formed record `m`.
pub open spec fn stored_form(m: ChangesetModel, got: Option<Seq<u8>>) -> bool {
    &&& well_formed(m)
    &&& body_text(m).len() <= i64::MAX
    &&& got == Some(envelope_of(m.p1, m.p2, body_text(m)))
}

/// Fails with `HashMismatch` unless the recomputed hash equals the id.
pub fn check_integrity(id: &NodeHash, computed: &NodeHash) -> (r: Result<(), ErrorKind>)
    ensures
        r is Ok <==> id@ == computed@,
        r is Err ==> r == Err::<(), ErrorKind>(ErrorKind::HashMismatch),
{
    if id.same(computed) {
        Ok(())
    } else {
        Err(ErrorKind::HashMismatch)
    }
}

/// A changeset together with its node hash.
pub struct BlobChangeset {
    changesetid: NodeHash,
    content: ChangesetContent,
}

impl BlobChangeset {
    pub closed spec fn id(&self) -> Seq<u8> {
        self.changesetid@
    }

    pub closed spec fn content(&self) -> ChangesetModel {
        self.content@
    }

    pub closed spec fn extra_wf(&self) -> bool {
        self.content.extra.wf()
    }

    /// The changeset with its node hash.
    pub fn new(content: ChangesetContent) -> (r: Result<Self, ErrorKind>)
        ensures
            r matches Ok(cs) && cs.id() == hash_of(content@) && cs.content() == content@,
            r matches Ok(cs) ==> (cs.extra_wf() <==> content.extra.wf()),
    {
        match content.compute_hash() {
            Ok(id) => Ok(Self::new_with_id(&id, content)),
            Err(e) => Err(e),
        }
    }

    /// The changeset under the id given, which is taken as it is.
    pub fn new_with_id(changesetid: &NodeHash, content: ChangesetContent) -> (r: Self)
        ensures
            r.id() == changesetid@,
            r.content() == content@,
            r.extra_wf() <==> content.extra.wf(),
    {
        BlobChangeset { changesetid: *changesetid, content }
    }

    pub fn get_changeset_id(&self) -> (r: NodeHash)
        ensures
            r@ == self.id(),
    {
        self.changesetid
    }

    pub fn manifestid(&self) -> (r: &NodeHash)
        ensures
            r@ == self.content().manifest,
    {
        &self.content.manifestid
    }

    pub fn user(&self) -> (r: &Vec<u8>)
        ensures
            r@ == self.content().user,
    {
        &self.content.user
    }

    pub fn extra(&self) -> (r: &Extra)
        ensures
            r@ == self.content().extras,
    {
        &self.content.extra
    }

    pub fn comments(&self) -> (r: &Vec<u8>)
        ensures
            r@ == self.content().comments,
    {
        &self.content.comments
    }

    pub fn files(&self) -> (r: &Vec<Vec<u8>>)
        ensures
            crate::changeset::files_view(r@) == self.content().files,
    {
        &self.content.files
    }

    pub fn time(&self) -> (r: &Time)
        ensures
            r.time == self.content().time,
            r.tz == self.content().tz,
    {
        &self.content.time
    }

    pub fn parents(&self) -> (r: &Parents)
        ensures
            opt_hash_view(r.p1) == self.content().p1,
            opt_hash_view(r.p2) == self.content().p2,
    {
        &self.content.parents
    }

    fn null_changeset() -> (r: Self)
        ensures
            r.id() == null_bytes(),
            r.content() == null_model(),
    {
        let content = ChangesetContent {
            parents: Parents { p1: None, p2: None },
            manifestid: NodeHash::null(),
            user: Vec::new(),
            time: Time { time: 0, tz: 0 },
            extra: Extra::new(),
            files: Vec::new(),
            comments: Vec::new(),
        };
        let r = BlobChangeset { changesetid: NodeHash::null(), content };
        assert(r.content().files =~= Seq::<Seq<u8>>::empty());
        assert(r.content().user =~= Seq::<u8>::empty());
        assert(r.content().comments =~= Seq::<u8>::empty());
        r
    }

    /// Reads a changeset out of the bytes stored under id `id`, checking
    /// that it hashes to `id`.
    pub fn load_from_bytes(id: &NodeHash, bytes: &Vec<u8>) -> (r: Result<Self, ErrorKind>)
        ensures
            forall|m: ChangesetModel| #[trigger] stored_as(m, id@, Some(bytes@)) ==> (r matches Ok(cs)
                && cs.content() == m && cs.id() == id@),
            r matches Ok(cs) ==> cs.id() == id@ && stored_as(cs.content(), id@, Some(bytes@)) && cs.extra_wf(),
            forall|m: ChangesetModel| #[trigger] stored_form(m, Some(bytes@)) && hash_of(m) != id@ ==> r
                == Err::<Self, ErrorKind>(ErrorKind::HashMismatch),
    {
        let (p1, p2, body) = match decode_envelope(bytes) {
            Some(x) => x,
            None => {
                proof {
                    assert forall|m: ChangesetModel| #[trigger] stored_form(m, Some(bytes@)) implies false by {
                        assert(decode_cond(bytes@, m.p1, m.p2, body_text(m)));
                    }
                }
                return Err(ErrorKind::Revlog(RevlogFault::BadEnvelope));
            },
        };
        let parents = Parents { p1, p2 };
        proof {
            assert forall|m: ChangesetModel| #[trigger] stored_form(m, Some(bytes@)) implies text_of(
                m,
                parents,
                body@,
            ) by {
                assert(decode_cond(bytes@, m.p1, m.p2, body_text(m)));
            }
        }
        let content = match parse_body(parents, &body) {
            Ok(c) => c,
            Err(e) => {
                return Err(e);
            },
        };
        let computed = match content.compute_hash() {
            Ok(h) => h,
            Err(e) => {
                return Err(e);
            },
        };
        proof {
            assert forall|m: ChangesetModel| #[trigger] stored_form(m, Some(bytes@)) implies computed@ == hash_of(m) by {
                assert(text_of(m, parents, body@));
            }
            assert forall|m: ChangesetModel| #[trigger] stored_as(m, id@, Some(bytes@)) implies stored_form(m, Some(bytes@)) by {}
        }
        match check_integrity(id, &computed) {
            Ok(()) => {
                proof {
                    assert(decode_cond(bytes@, opt_hash_view(p1), opt_hash_view(p2), body@));
                }
                Ok(Self::new_with_id(id, content))
            },
            Err(e) => Err(e),
        }
    }

    /// Loads the changeset with node hash `id`. The null id gives the empty
    /// record without reading the store; a missing blob gives `None`.
    pub fn load<B: Blobstore>(store: &B, id: &NodeHash) -> (r: Result<Option<Self>, ErrorKind>)
        ensures
            id@ == null_bytes() ==> (r matches Ok(Some(cs)) && cs.id() == id@ && cs.content() == null_model()),
            id@ != null_bytes() && store.lookup(key_of(id@)) is None ==> (r is Ok ==> r matches Ok(None)),
            forall|m: ChangesetModel| #[trigger] stored_as(m, id@, store.lookup(key_of(id@))) && id@ != null_bytes()
                ==> (r is Ok ==> (r matches Ok(Some(cs)) && cs.content() == m && cs.id() == id@)),
            id@ != null_bytes() ==> (r matches Ok(Some(cs)) ==> cs.id() == id@ && stored_as(
                cs.content(),
                id@,
                store.lookup(key_of(id@)),
            )),
            id@ != null_bytes() && store.hidden(key_of(id@)) ==> r matches Ok(None),
            id@ != null_bytes() && store.lookup(key_of(id@)) is Some ==> !(r matches Ok(None)),
            forall|m: ChangesetModel| #[trigger] stored_form(m, store.lookup(key_of(id@))) && hash_of(m) != id@
                && id@ != null_bytes() ==> !(r is Ok),
    {
        if id.is_null() {
            return Ok(Some(Self::null_changeset()));
        }
        let key = cskey(id);
        match store.get(&key) {
            Err(e) => Err(e),
            Ok(None) => Ok(None),
            Ok(Some(bytes)) => {
                proof {
                    assert forall|m: ChangesetModel| #[trigger] stored_as(m, id@, store.lookup(key_of(id@)))
                        implies stored_as(m, id@, Some(bytes@)) by {}
                    assert forall|m: ChangesetModel| #[trigger] stored_form(m, store.lookup(key_of(id@)))
                        implies stored_form(m, Some(bytes@)) by {}
                }
                match Self::load_from_bytes(id, &bytes) {
                    Ok(cs) => Ok(Some(cs)),
                    Err(e) => Err(e),
                }
            },
        }
    }

    /// Stores this changeset under the key of the node hash of its content.
    pub fn save<B: Blobstore>(&self, store: &mut B) -> (r: Result<(), ErrorKind>)
        requires
            body_text(self.content()).len() <= i64::MAX,
        ensures
            forall|k: Seq<char>| #[trigger] final(store).hidden(k) == old(store).hidden(k),
            r is Ok ==> forall|k: Seq<char>| k != key_of(hash_of(self.content()))
                ==> #[trigger] final(store).lookup(k) == old(store).lookup(k),
            r is Ok ==> final(store).lookup(key_of(hash_of(self.content())))
                == if final(store).hidden(key_of(hash_of(self.content()))) {
                None
            } else {
                Some(envelope_of(self.content().p1, self.content().p2, body_text(self.content())))
            },
    {
        let mut body: Vec<u8> = Vec::new();
        self.content.generate(&mut body);
        assert(body@ =~= body_text(self.content()));
        let hash = node_hash(&self.content.parents.p1, &self.content.parents.p2, &body);
        let key = cskey(&hash);
        let blob = encode_envelope(&self.content.parents.p1, &self.content.parents.p2, &body);
        store.put(key, blob)
    }
}

/// Saving a well-formed record under its hash leaves in the store exactly
/// what loading that hash reads back as the same record: the stored form
/// of the record, under the key of its hash. (Loading the null id never
/// reads the store, so a record whose hash is null is left out.)
pub proof fn lemma_save_load_round_trip(m: ChangesetModel)
    requires
        well_formed(m),
        body_text(m).len() <= i64::MAX,
        hash_of(m) != null_bytes(),
    ensures
        stored_as(m, hash_of(m), Some(envelope_of(m.p1, m.p2, body_text(m)))),
{
}

} // verus!
