//! Choice of the decompressor from a stream's `compression` parameter.

use crate::errors::ErrorKind;
use vstd::prelude::*;

verus! {

#[derive(Clone, Copy, Debug, PartialEq, Eq, Structural)]
pub enum CompressionType {
    Gzip,
    Bzip2,
    Zstd,
}

/// The decompressor that a `compression` parameter names: none when the
/// parameter is absent or empty, else `GZ`, `BZ` or `ZS`.
pub open spec fn compression_spec(param: Option<Seq<u8>>) -> Result<Option<CompressionType>, ErrorKind> {
    match param {
        None => Ok(None),
        Some(p) => if p.len() == 0 {
            Ok(None)
        } else if p == seq![71u8, 90] {
            Ok(Some(CompressionType::Gzip))
        } else if p == seq![66u8, 90] {
            Ok(Some(CompressionType::Bzip2))
        } else if p == seq![90u8, 83] {
            Ok(Some(CompressionType::Zstd))
        } else {
            Err(ErrorKind::UnknownCompression)
        },
    }
}

/// Picks the decompressor for a stream from its `compression` parameter.
pub fn get_decompressor_type(param: Option<&[u8]>) -> (r: Result<Option<CompressionType>, ErrorKind>)
    ensures
        r == compression_spec(
            match param {
                Some(p) => Some(p@),
                None => None,
            },
        ),
{
    match param {
        None => Ok(None),
        Some(p) => {
            if p.len() == 0 {
                Ok(None)
            } else if p.len() == 2 && p[0] == 71 && p[1] == 90 {
                assert(p@ =~= seq![71u8, 90]);
                Ok(Some(CompressionType::Gzip))
            } else if p.len() == 2 && p[0] == 66 && p[1] == 90 {
                assert(p@ =~= seq![66u8, 90]);
                Ok(Some(CompressionType::Bzip2))
            } else if p.len() == 2 && p[0] == 90 && p[1] == 83 {
                assert(p@ =~= seq![90u8, 83]);
                Ok(Some(CompressionType::Zstd))
            } else {
                Err(ErrorKind::UnknownCompression)
            }
        },
    }
}

} // verus!
