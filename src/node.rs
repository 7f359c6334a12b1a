//! Node hashes of changesets: SHA-1 over the two parents, smaller first,
//! followed by the changeset's text.

use crate::changeset::{body_text, null_bytes, opt_hash_view, ChangesetContent, ChangesetModel, NodeHash};
use crate::errors::ErrorKind;
use crate::extras::{compare_bytes, lex_lt};
use crate::slices::append_bytes;
use sha1::Digest;
use vstd::prelude::*;

verus! {

/// The SHA-1 digest of `data`.
pub uninterp spec fn sha1_of(data: Seq<u8>) -> Seq<u8>;

/// Relies on `sha1::Sha1::digest`: the 20-byte SHA-1 digest of the input,
/// which depends on the input alone.
#[verifier::external_body]
fn sha1_digest(data: &Vec<u8>) -> (r: [u8; 20])
    ensures
        r@ == sha1_of(data@),
{
    sha1::Sha1::digest(data).into()
}

/// The bytes that stand for a parent: its hash, or zeros when absent.
pub open spec fn parent_bytes(p: Option<Seq<u8>>) -> Seq<u8> {
    match p {
        Some(h) => h,
        None => null_bytes(),
    }
}

/// What the node hash is taken over: the smaller parent, the larger one,
/// then the text.
pub open spec fn node_input(p1: Option<Seq<u8>>, p2: Option<Seq<u8>>, body: Seq<u8>) -> Seq<u8> {
    let a = parent_bytes(p1);
    let b = parent_bytes(p2);
    if lex_lt(b, a) {
        b + a + body
    } else {
        a + b + body
    }
}

/// The node hash of a record.
pub open spec fn hash_of(m: ChangesetModel) -> Seq<u8> {
    sha1_of(node_input(m.p1, m.p2, body_text(m)))
}

fn parent_vec(p: &Option<NodeHash>) -> (r: Vec<u8>)
    ensures
        r@ == parent_bytes(opt_hash_view(*p)),
{
    let h = match p {
        Some(h) => *h,
        None => NodeHash::null(),
    };
    let mut v: Vec<u8> = Vec::new();
    let mut i: usize = 0;
    while i < 20
        invariant
            i <= 20,
            h@.len() == 20,
            v@ == h@.take(i as int),
        decreases 20 - i,
    {
        v.push(h.bytes[i]);
        i = i + 1;
        assert(v@ =~= h@.take(i as int));
    }
    assert(h@.take(20) =~= h@);
    v
}

/// The node hash of `body` with parents `p1` and `p2`.
pub fn node_hash(p1: &Option<NodeHash>, p2: &Option<NodeHash>, body: &Vec<u8>) -> (r: NodeHash)
    ensures
        r@ == sha1_of(node_input(opt_hash_view(*p1), opt_hash_view(*p2), body@)),
{
    let a = parent_vec(p1);
    let b = parent_vec(p2);
    let mut data: Vec<u8> = Vec::new();
    if compare_bytes(&b, &a) < 0 {
        append_bytes(&mut data, &b);
        append_bytes(&mut data, &a);
    } else {
        append_bytes(&mut data, &a);
        append_bytes(&mut data, &b);
    }
    append_bytes(&mut data, body);
    assert(data@ =~= node_input(opt_hash_view(*p1), opt_hash_view(*p2), body@));
    NodeHash::new(sha1_digest(&data))
}

impl ChangesetContent {
    /// The node hash of this record.
    pub fn compute_hash(&self) -> (r: Result<NodeHash, ErrorKind>)
        ensures
            r matches Ok(h) && h@ == hash_of(self@),
    {
        let mut v: Vec<u8> = Vec::new();
        self.generate(&mut v);
        assert(v@ =~= body_text(self@));
        Ok(node_hash(&self.parents.p1, &self.parents.p2, &v))
    }
}

/// The hash does not depend on the order in which the parents are given:
/// both orders hash the same bytes.
pub proof fn lemma_parent_order(p1: Option<Seq<u8>>, p2: Option<Seq<u8>>, body: Seq<u8>)
    ensures
        node_input(p1, p2, body) == node_input(p2, p1, body),
{
    crate::extras::lemma_lex_total(parent_bytes(p1), parent_bytes(p2));
}

} // verus!
