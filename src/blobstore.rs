//! The blob store that changesets are kept in: the interface, an in-memory
//! store, and a filter that hides redacted keys.

use crate::errors::ErrorKind;
use crate::slices::copy_range;
use vstd::prelude::*;

verus! {

pub open spec fn opt_bytes_view(v: Option<Vec<u8>>) -> Option<Seq<u8>> {
    match v {
        Some(b) => Some(b@),
        None => None,
    }
}

/// A store of byte blobs under string keys.
pub trait Blobstore {
    /// What a read of `key` finds.
    spec fn lookup(&self, key: Seq<char>) -> Option<Seq<u8>>;

    /// Whether reads of `key` find nothing whatever was written.
    spec fn hidden(&self, key: Seq<char>) -> bool;

    /// The blob stored under `key`, if any.
    fn get(&self, key: &String) -> (r: Result<Option<Vec<u8>>, ErrorKind>)
        ensures
            r matches Ok(v) ==> opt_bytes_view(v) == self.lookup(key@),
            self.hidden(key@) ==> r matches Ok(None),
    ;

    /// Stores `value` under `key`.
    fn put(&mut self, key: String, value: Vec<u8>) -> (r: Result<(), ErrorKind>)
        ensures
            forall|k: Seq<char>| #[trigger] final(self).hidden(k) == old(self).hidden(k),
            r is Ok ==> forall|k: Seq<char>| k != key@ ==> #[trigger] final(self).lookup(k) == old(self).lookup(k),
            r is Ok ==> final(self).lookup(key@) == if final(self).hidden(key@) {
                None
            } else {
                Some(value@)
            },
    ;

    /// Whether a read of `key` would find a blob.
    fn is_present(&self, key: &String) -> (r: Result<bool, ErrorKind>)
        ensures
            r matches Ok(b) ==> b == self.lookup(key@) is Some,
            self.hidden(key@) ==> r matches Ok(false),
    ;

    /// Succeeds only when a read of `key` would find a blob.
    fn assert_present(&self, key: &String) -> (r: Result<(), ErrorKind>)
        ensures
            r is Ok ==> self.lookup(key@) is Some,
            self.hidden(key@) ==> r is Err,
    ;
}

/// The value of the last entry under `k`.
pub open spec fn mem_lookup(es: Seq<(Seq<char>, Seq<u8>)>, k: Seq<char>) -> Option<Seq<u8>>
    decreases es.len(),
{
    if es.len() == 0 {
        None
    } else if es.last().0 == k {
        Some(es.last().1)
    } else {
        mem_lookup(es.drop_last(), k)
    }
}

proof fn lemma_mem_lookup_tail(es: Seq<(Seq<char>, Seq<u8>)>, i: int, k: Seq<char>)
    requires
        0 <= i <= es.len(),
        forall|j: int| i <= j < es.len() ==> es[j].0 != k,
    ensures
        mem_lookup(es, k) == mem_lookup(es.take(i), k),
    decreases es.len() - i,
{
    if i == es.len() {
        assert(es.take(i) =~= es);
    } else {
        lemma_mem_lookup_tail(es.drop_last(), i, k);
        assert(es.drop_last().take(i) =~= es.take(i));
    }
}

/// A blob store held in memory.
#[derive(Clone, Debug)]
pub struct MemBlob {
    entries: Vec<(String, Vec<u8>)>,
}

impl MemBlob {
    pub closed spec fn view(&self) -> Seq<(Seq<char>, Seq<u8>)> {
        Seq::new(self.entries@.len(), |i: int| (self.entries@[i].0@, self.entries@[i].1@))
    }

    /// An empty store.
    pub fn new() -> (r: Self)
        ensures
            forall|k: Seq<char>| #[trigger] r.lookup(k) is None,
            forall|k: Seq<char>| !#[trigger] r.hidden(k),
    {
        let r = MemBlob { entries: Vec::new() };
        assert forall|k: Seq<char>| #[trigger] r.lookup(k) is None by {
            assert(r@.len() == 0);
        }
        r
    }
}

impl Blobstore for MemBlob {
    open spec fn lookup(&self, key: Seq<char>) -> Option<Seq<u8>> {
        mem_lookup(self@, key)
    }

    open spec fn hidden(&self, key: Seq<char>) -> bool {
        false
    }

    fn get(&self, key: &String) -> (r: Result<Option<Vec<u8>>, ErrorKind>)
        ensures
            r is Ok,
    {
        let ghost es = self@;
        let mut i: usize = self.entries.len();
        while i > 0
            invariant
                es == self@,
                i <= es.len(),
                forall|j: int| i <= j < es.len() ==> es[j].0 != key@,
            decreases i,
        {
            i = i - 1;
            if self.entries[i].0 == *key {
                let v = copy_range(&self.entries[i].1, 0, self.entries[i].1.len());
                proof {
                    lemma_mem_lookup_tail(es, i + 1, key@);
                    assert(es.take(i + 1).last() == es[i as int]);
                    assert(v@ =~= es[i as int].1);
                }
                return Ok(Some(v));
            }
        }
        proof {
            lemma_mem_lookup_tail(es, 0, key@);
        }
        Ok(None)
    }

    fn put(&mut self, key: String, value: Vec<u8>) -> (r: Result<(), ErrorKind>)
        ensures
            r is Ok,
    {
        let ghost es = self@;
        let ghost kv = (key@, value@);
        self.entries.push((key, value));
        proof {
            assert(self@ =~= es.push(kv));
            assert(self@.drop_last() =~= es);
        }
        Ok(())
    }

    fn is_present(&self, key: &String) -> (r: Result<bool, ErrorKind>)
        ensures
            r is Ok,
    {
        match self.get(key) {
            Ok(v) => Ok(v.is_some()),
            Err(e) => Err(e),
        }
    }

    fn assert_present(&self, key: &String) -> (r: Result<(), ErrorKind>) {
        match self.get(key) {
            Ok(Some(_)) => Ok(()),
            Ok(None) => Err(ErrorKind::BlobStoreIO),
            Err(e) => Err(e),
        }
    }
}

/// Whether `key` is among the redacted keys.
pub open spec fn is_redacted(redacted: Seq<(String, String)>, key: Seq<char>) -> bool {
    exists|i: int| 0 <= i < redacted.len() && (#[trigger] redacted[i]).0@ == key
}

/// A blob store that answers as if redacted keys held nothing. Writes go
/// through unchanged.
pub struct RedactedBlobstore<B: Blobstore> {
    inner: B,
    redacted: Vec<(String, String)>,
}

impl<B: Blobstore> RedactedBlobstore<B> {
    pub closed spec fn redacted(&self) -> Seq<(String, String)> {
        self.redacted@
    }

    pub closed spec fn inner(&self) -> B {
        self.inner
    }

    /// Wraps `inner`, hiding each key of `redacted`; the second element of
    /// each pair is the reason.
    pub fn new(inner: B, redacted: Vec<(String, String)>) -> (r: Self)
        ensures
            r.inner() == inner,
            r.redacted() == redacted@,
    {
        RedactedBlobstore { inner, redacted }
    }

    /// The reason recorded for `key`, if it is redacted.
    pub fn redaction_reason(&self, key: &String) -> (r: Option<String>)
        ensures
            r is Some <==> is_redacted(self.redacted(), key@),
            r matches Some(reason) ==> exists|i: int|
                0 <= i < self.redacted().len() && self.redacted()[i].0@ == key@ && self.redacted()[i].1
                    == reason && forall|j: int| 0 <= j < i ==> self.redacted()[j].0@ != key@,
    {
        let mut i: usize = 0;
        while i < self.redacted.len()
            invariant
                i <= self.redacted@.len(),
                forall|j: int| 0 <= j < i ==> self.redacted@[j].0@ != key@,
            decreases self.redacted@.len() - i,
        {
            if self.redacted[i].0 == *key {
                assert(self.redacted@[i as int].0@ == key@);
                return Some(self.redacted[i].1.clone());
            }
            i = i + 1;
        }
        None
    }
}

impl<B: Blobstore> Blobstore for RedactedBlobstore<B> {
    open spec fn lookup(&self, key: Seq<char>) -> Option<Seq<u8>> {
        if is_redacted(self.redacted(), key) {
            None
        } else {
            self.inner().lookup(key)
        }
    }

    open spec fn hidden(&self, key: Seq<char>) -> bool {
        is_redacted(self.redacted(), key) || self.inner().hidden(key)
    }

    fn get(&self, key: &String) -> (r: Result<Option<Vec<u8>>, ErrorKind>)
        ensures
            is_redacted(self.redacted(), key@) ==> r matches Ok(None),
    {
        if self.redaction_reason(key).is_some() {
            return Ok(None);
        }
        self.inner.get(key)
    }

    fn put(&mut self, key: String, value: Vec<u8>) -> (r: Result<(), ErrorKind>) {
        self.inner.put(key, value)
    }

    fn is_present(&self, key: &String) -> (r: Result<bool, ErrorKind>)
        ensures
            is_redacted(self.redacted(), key@) ==> r matches Ok(false),
    {
        if self.redaction_reason(key).is_some() {
            return Ok(false);
        }
        self.inner.is_present(key)
    }

    fn assert_present(&self, key: &String) -> (r: Result<(), ErrorKind>)
        ensures
            is_redacted(self.redacted(), key@) ==> r == Err::<(), ErrorKind>(ErrorKind::BlobStoreIO),
    {
        if self.redaction_reason(key).is_some() {
            return Err(ErrorKind::BlobStoreIO);
        }
        self.inner.assert_present(key)
    }
}

/// A read through the redaction filter finds nothing under a redacted key,
/// whatever the wrapped store holds there.
pub proof fn lemma_redaction_opacity<B: Blobstore>(store: RedactedBlobstore<B>, key: Seq<char>)
    requires
        is_redacted(store.redacted(), key),
    ensures
        store.lookup(key) is None,
        store.hidden(key),
{
}

} // verus!
