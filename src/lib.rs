//! Storage and wire-format core of a source-control server: a bundle2 outer
//! framing decoder and a content-addressed changeset store.
//!
//! The decoder (`outer`, `part_header`) turns a buffer of stream bytes into
//! part frames, one per call. The store (`changeset`, `store`) writes
//! changesets in Mercurial's changelog text, keyed by their node hash, into
//! any `Blobstore`.

pub mod blobstore;
pub mod buffer;
pub mod changeset;
pub mod changeset_parse;
pub mod compression;
pub mod decimal;
pub mod envelope;
pub mod errors;
pub mod extras;
pub mod extras_text;
pub mod hash_laws;
pub mod hex;
pub mod node;
pub mod outer;
pub mod part_header;
pub mod slices;
pub mod store;
pub mod stream_laws;
pub mod uploader;

pub use blobstore::{Blobstore, MemBlob, RedactedBlobstore};
pub use changeset::{ChangesetContent, NodeHash, Parents, Time};
pub use changeset_parse::parse_body;
pub use compression::{get_decompressor_type, CompressionType};
pub use errors::{DecodeFault, ErrorKind, RevlogFault};
pub use extras::Extra;
pub use outer::{OuterDecoder, OuterFrame, OuterState, DEFAULT_VALUE_CAP};
pub use part_header::{PartHeader, PartHeaderType};
pub use store::{cskey, BlobChangeset};
pub use uploader::{Caching, DirectUploader};
