//! The top-level archive operations over in-memory buffers: building the
//! compressed archive, reading it back whole, and listing its entries.

use vstd::prelude::*;
use crate::codec::Archive;
use crate::codec::AssetEntry;
use crate::codec::DecodeError;
use crate::codec::EncodeError;
use crate::codec::byte_views;
use crate::codec::decode;
use crate::codec::decode_meta_spec;
use crate::codec::decode_metadata;
use crate::codec::decode_spec;
use crate::codec::encode;
use crate::codec::encode_spec;
use crate::codec::entry_models;
use crate::shim::deflate_compress;
use crate::shim::deflate_decompress;
use crate::shim::inflate_of;

verus! {

/// Packs entries and their payloads, paired by position, into one compressed
/// archive: the raw encoding of `encode`, deflated whole. Fails with
/// `PathTooLong`, and yields no archive, exactly when some path is longer
/// than 255 bytes.
pub fn pack(entries: &Vec<AssetEntry>, payloads: &Vec<Vec<u8>>) -> (r: Result<Vec<u8>, EncodeError>)
    requires
        entries@.len() == payloads@.len(),
        entries@.len() <= 0x7fffffff,
        forall|i: int| 0 <= i < payloads@.len() ==> #[trigger] payloads@[i]@.len() <= 0x7fffffff,
    ensures
        r matches Ok(archive) ==> inflate_of(archive@) == Some(
            encode_spec(entry_models(entries@), byte_views(payloads@)),
        ),
        (r matches Err(e) && e == EncodeError::PathTooLong) <==> exists|i: int|
            0 <= i < entries@.len() && #[trigger] entries@[i]@.path.len() > 255,
{
    match encode(entries, payloads) {
        Err(e) => Err(e),
        Ok(raw) => Ok(deflate_compress(&raw)),
    }
}

/// Unpacks a compressed archive whole: inflates it, then decodes every entry
/// and its payload. Fails with `CorruptArchive` exactly when the buffer is
/// not a valid deflate stream, and otherwise decodes the inflated bytes
/// exactly as `decode_spec` describes.
pub fn unpack(archive: &Vec<u8>) -> (r: Result<Archive, DecodeError>)
    ensures
        inflate_of(archive@) is None ==> (r matches Err(e) && e == DecodeError::CorruptArchive),
        inflate_of(archive@) matches Some(raw) ==> match r {
            Ok(a) => decode_spec(raw) == Ok::<_, DecodeError>((
                entry_models(a.entries@),
                byte_views(a.payloads@),
            )) && a.entries@.len() == a.payloads@.len(),
            Err(e) => decode_spec(raw) == Err::<(Seq<crate::codec::EntryModel>, Seq<Seq<u8>>), _>(
                e,
            ),
        },
{
    match deflate_decompress(archive) {
        None => Err(DecodeError::CorruptArchive),
        Some(raw) => decode(raw.as_slice()),
    }
}

/// Lists a compressed archive: inflates it, then decodes only the metadata
/// records — the same entries, in the same order, that `unpack` pairs with
/// payloads. Fails with `CorruptArchive` exactly when inflation fails.
pub fn list_archive(archive: &Vec<u8>) -> (r: Result<Vec<AssetEntry>, DecodeError>)
    ensures
        inflate_of(archive@) is None ==> (r matches Err(e) && e == DecodeError::CorruptArchive),
        inflate_of(archive@) matches Some(raw) ==> match r {
            Ok(es) => decode_meta_spec(raw) == Ok::<_, DecodeError>(entry_models(es@)),
            Err(e) => decode_meta_spec(raw) == Err::<Seq<crate::codec::EntryModel>, _>(e),
        },
{
    match deflate_decompress(archive) {
        None => Err(DecodeError::CorruptArchive),
        Some(raw) => decode_metadata(raw.as_slice()),
    }
}

} // verus!
