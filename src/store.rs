//! The pure half of the object store: what is written for an object, and
//! what is read back from stored bytes. Reading and writing files is left to
//! the caller.
use vstd::prelude::*;
use std::io::Read;
use std::io::Write;
use crate::address::{sha1_of, ObjectAddress};
use crate::envelope::{decode_envelope, encode_envelope, envelope, open_envelope, ObjectKind};
use crate::tree::{decode_entries, models, parse_tree, TreeEntry};

verus! {

/// The zlib stream that flate2 writes for `b` at the default level.
pub uninterp spec fn zlib_compressed(b: Seq<u8>) -> Seq<u8>;

/// The bytes a zlib stream inflates to, or `None` where it is not one.
pub uninterp spec fn zlib_decompressed(b: Seq<u8>) -> Option<Seq<u8>>;

/// Relies on flate2::write::ZlibEncoder with Compression::default(): the
/// zlib stream of the input. Writing into a `Vec` with the miniz_oxide
/// backend at the default level reports no error, and the stream is
/// lossless: flate2::read::ZlibDecoder inflates it back to the input.
#[verifier::external_body]
fn zlib_compress(b: &[u8]) -> (r: Option<Vec<u8>>)
    ensures
        r is Some,
        r matches Some(v) ==> v@ == zlib_compressed(b@),
        r matches Some(v) ==> zlib_decompressed(v@) == Some(b@),
{
    let mut e = flate2::write::ZlibEncoder::new(Vec::new(), flate2::Compression::default());
    match e.write_all(b) {
        Ok(()) => e.finish().ok(),
        Err(_) => None,
    }
}

/// Relies on flate2::read::ZlibDecoder: the inflated bytes of a zlib stream,
/// or an error where the input is not one.
#[verifier::external_body]
fn zlib_decompress(b: &[u8]) -> (r: Option<Vec<u8>>)
    ensures
        r is Some <==> zlib_decompressed(b@) is Some,
        r matches Some(v) ==> zlib_decompressed(b@) == Some(v@),
{
    let mut out = Vec::new();
    match flate2::read::ZlibDecoder::new(b).read_to_end(&mut out) {
        Ok(_) => Some(out),
        Err(_) => None,
    }
}

/// What can go wrong storing or loading an object.
#[derive(Clone, Copy, Debug, PartialEq, Eq, Structural)]
pub enum StoreError {
    /// Reading or writing the store failed.
    IoError,
    /// No object is stored at the address.
    ObjectNotFound,
    /// The stored bytes do not inflate, or do not open as an envelope.
    CorruptObject,
    /// A tree was asked for and the object is of another kind.
    NotATree,
    /// A tree payload ends inside an entry.
    TruncatedTree,
}

/// The address of an object: the SHA-1 digest of its envelope.
pub open spec fn object_address(kind: ObjectKind, payload: Seq<u8>) -> Seq<u8> {
    sha1_of(envelope(kind, payload))
}

/// An object ready to be written: its address, and the compressed envelope
/// that goes in the file the address names.
#[derive(Clone, Debug)]
pub struct StoredObject {
    pub address: ObjectAddress,
    pub compressed: Vec<u8>,
}

/// The address an object of this kind and payload has, without storing it.
pub fn address_of(kind: ObjectKind, payload: &[u8]) -> (r: ObjectAddress)
    ensures
        r@ == object_address(kind, payload@),
        r.wf(),
{
    let env = encode_envelope(kind, payload);
    ObjectAddress::of_envelope(env.as_slice())
}

/// Builds what is written to store an object: the digest of its envelope and
/// the envelope compressed.
pub fn prepare_object(kind: ObjectKind, payload: &[u8]) -> (r: Result<StoredObject, StoreError>)
    ensures
        r is Ok,
        match r {
            Ok(o) => o.address@ == object_address(kind, payload@) && o.address.wf()
                && o.compressed@ == zlib_compressed(envelope(kind, payload@))
                && zlib_decompressed(o.compressed@) == Some(envelope(kind, payload@)),
            Err(e) => e == StoreError::IoError,
        },
{
    let env = encode_envelope(kind, payload);
    let address = ObjectAddress::of_envelope(env.as_slice());
    match zlib_compress(env.as_slice()) {
        None => Err(StoreError::IoError),
        Some(compressed) => Ok(StoredObject { address, compressed }),
    }
}

/// Opens inflated envelope bytes; any fault of the envelope makes the object
/// corrupt.
pub fn open_inflated(env: &[u8]) -> (r: Result<(ObjectKind, Vec<u8>), StoreError>)
    ensures
        match open_envelope(env@) {
            Ok((kind, payload)) => r is Ok && r->Ok_0.0 == kind && r->Ok_0.1@ == payload,
            Err(_) => r == Err::<(ObjectKind, Vec<u8>), StoreError>(StoreError::CorruptObject),
        },
{
    match decode_envelope(env) {
        Ok(o) => Ok(o),
        Err(_) => Err(StoreError::CorruptObject),
    }
}

/// Loads an object from the bytes stored for it.
pub fn open_object(stored: &[u8]) -> (r: Result<(ObjectKind, Vec<u8>), StoreError>)
    ensures
        match zlib_decompressed(stored@) {
            None => r == Err::<(ObjectKind, Vec<u8>), StoreError>(StoreError::CorruptObject),
            Some(env) => match open_envelope(env) {
                Ok((kind, payload)) => r is Ok && r->Ok_0.0 == kind && r->Ok_0.1@ == payload,
                Err(_) => r == Err::<(ObjectKind, Vec<u8>), StoreError>(
                    StoreError::CorruptObject,
                ),
            },
        },
{
    match zlib_decompress(stored) {
        None => Err(StoreError::CorruptObject),
        Some(env) => open_inflated(env.as_slice()),
    }
}

/// Loads an object from what the store holds at its address: nothing, or
/// the stored bytes.
pub fn load_object(stored: Option<&[u8]>) -> (r: Result<(ObjectKind, Vec<u8>), StoreError>)
    ensures
        match stored {
            None => r == Err::<(ObjectKind, Vec<u8>), StoreError>(StoreError::ObjectNotFound),
            Some(b) => match zlib_decompressed(b@) {
                None => r == Err::<(ObjectKind, Vec<u8>), StoreError>(StoreError::CorruptObject),
                Some(env) => match open_envelope(env) {
                    Ok((kind, payload)) => r is Ok && r->Ok_0.0 == kind && r->Ok_0.1@ == payload,
                    Err(_) => r == Err::<(ObjectKind, Vec<u8>), StoreError>(
                        StoreError::CorruptObject,
                    ),
                },
            },
        },
{
    match stored {
        None => Err(StoreError::ObjectNotFound),
        Some(b) => open_object(b),
    }
}

/// Reads the entries of a tree from inflated envelope bytes.
pub fn tree_of_inflated(env: &[u8]) -> (r: Result<Vec<TreeEntry>, StoreError>)
    ensures
        match open_envelope(env@) {
            Err(_) => r == Err::<Vec<TreeEntry>, StoreError>(StoreError::CorruptObject),
            Ok((kind, payload)) => if kind != ObjectKind::Tree {
                r == Err::<Vec<TreeEntry>, StoreError>(StoreError::NotATree)
            } else {
                match parse_tree(payload) {
                    None => r == Err::<Vec<TreeEntry>, StoreError>(StoreError::TruncatedTree),
                    Some(es) => r is Ok && models(r->Ok_0@) == es,
                }
            },
        },
{
    let (kind, payload) = match open_inflated(env) {
        Err(e) => return Err(e),
        Ok(o) => o,
    };
    if kind != ObjectKind::Tree {
        return Err(StoreError::NotATree);
    }
    match decode_entries(payload.as_slice()) {
        Err(_) => Err(StoreError::TruncatedTree),
        Ok(es) => Ok(es),
    }
}

/// Reads the entries of a tree from the bytes stored for it.
pub fn open_tree(stored: &[u8]) -> (r: Result<Vec<TreeEntry>, StoreError>)
    ensures
        match zlib_decompressed(stored@) {
            None => r == Err::<Vec<TreeEntry>, StoreError>(StoreError::CorruptObject),
            Some(env) => match open_envelope(env) {
                Err(_) => r == Err::<Vec<TreeEntry>, StoreError>(StoreError::CorruptObject),
                Ok((kind, payload)) => if kind != ObjectKind::Tree {
                    r == Err::<Vec<TreeEntry>, StoreError>(StoreError::NotATree)
                } else {
                    match parse_tree(payload) {
                        None => r == Err::<Vec<TreeEntry>, StoreError>(
                            StoreError::TruncatedTree,
                        ),
                        Some(es) => r is Ok && models(r->Ok_0@) == es,
                    }
                },
            },
        },
{
    match zlib_decompress(stored) {
        None => Err(StoreError::CorruptObject),
        Some(env) => tree_of_inflated(env.as_slice()),
    }
}

/// Loads a tree's entries from what the store holds at its address: nothing,
/// or the stored bytes.
pub fn load_tree(stored: Option<&[u8]>) -> (r: Result<Vec<TreeEntry>, StoreError>)
    ensures
        match stored {
            None => r == Err::<Vec<TreeEntry>, StoreError>(StoreError::ObjectNotFound),
            Some(b) => match zlib_decompressed(b@) {
                None => r == Err::<Vec<TreeEntry>, StoreError>(StoreError::CorruptObject),
                Some(env) => match open_envelope(env) {
                    Err(_) => r == Err::<Vec<TreeEntry>, StoreError>(StoreError::CorruptObject),
                    Ok((kind, payload)) => if kind != ObjectKind::Tree {
                        r == Err::<Vec<TreeEntry>, StoreError>(StoreError::NotATree)
                    } else {
                        match parse_tree(payload) {
                            None => r == Err::<Vec<TreeEntry>, StoreError>(
                                StoreError::TruncatedTree,
                            ),
                            Some(es) => r is Ok && models(r->Ok_0@) == es,
                        }
                    },
                },
            },
        },
{
    match stored {
        None => Err(StoreError::ObjectNotFound),
        Some(b) => open_tree(b),
    }
}

/// Loading the bytes stored for an object gives back its kind and payload.
pub proof fn lemma_load_after_store(kind: ObjectKind, payload: Seq<u8>, stored: Seq<u8>)
    requires
        zlib_decompressed(stored) == Some(envelope(kind, payload)),
    ensures
        zlib_decompressed(stored) matches Some(env) && open_envelope(env) == Ok::<
            _,
            crate::envelope::EnvelopeError,
        >((kind, payload)),
{
    crate::envelope::lemma_envelope_round_trip(kind, payload);
}

/// Objects of different kinds or payloads have different envelopes, so their
/// addresses are digests of different bytes; objects with the same kind and
/// payload share one address.
pub proof fn lemma_content_addressing(k1: ObjectKind, p1: Seq<u8>, k2: ObjectKind, p2: Seq<u8>)
    ensures
        (k1 == k2 && p1 == p2) ==> object_address(k1, p1) == object_address(k2, p2),
        (k1 != k2 || p1 != p2) ==> envelope(k1, p1) != envelope(k2, p2),
{
    crate::envelope::lemma_envelope_round_trip(k1, p1);
    crate::envelope::lemma_envelope_round_trip(k2, p2);
}

} // verus!
