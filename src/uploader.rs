//! The handle through which imported commits reach a repository.

use std::sync::Arc;
use vstd::prelude::*;

verus! {

/// How a repository's stores are cached.
#[derive(Clone, Copy, Debug, PartialEq, Eq, Structural)]
pub enum Caching {
    Enabled,
    Disabled,
    CachelibOnlyBlobstore,
}

/// Uploads into a repository shared with other users of it.
#[derive(Clone)]
pub struct DirectUploader<R> {
    inner: Arc<R>,
}

impl<R> DirectUploader<R> {
    pub closed spec fn repo(&self) -> R {
        *self.inner
    }

    /// An uploader that owns a shared handle on `repo`.
    pub fn new(repo: R) -> (r: Self)
        ensures
            r.repo() == repo,
    {
        Self { inner: Arc::new(repo) }
    }

    /// The repository uploaded into.
    pub fn repo_ref(&self) -> (r: &R)
        ensures
            *r == self.repo(),
    {
        &*self.inner
    }
}

} // verus!
