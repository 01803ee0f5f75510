//! The object envelope: `"<type> <length>\0<payload>"`.
use vstd::prelude::*;
use crate::bytes::{
    all_digits, append_bytes, decimal, find, find_byte, is_numeral, lemma_decimal,
    lemma_find_from_at, numeral_at_most, numeral_value, push_decimal,
};
use vstd::slice::slice_subrange;
use vstd::slice::slice_to_vec;

verus! {

/// The two kinds of object the store holds.
#[derive(Clone, Copy, Debug, PartialEq, Eq, Structural)]
pub enum ObjectKind {
    Blob,
    Tree,
}

/// Why envelope bytes could not be opened.
#[derive(Clone, Copy, Debug, PartialEq, Eq, Structural)]
pub enum EnvelopeError {
    /// No null byte ends the header, or the type tag is neither `blob` nor
    /// `tree`.
    MalformedEnvelope,
    /// The header has no length field after a space, or it is not a run of
    /// decimal digits.
    InvalidLength,
    /// The length field disagrees with the payload's actual length.
    LengthMismatch,
}

/// The ASCII type tag of a kind.
pub open spec fn kind_tag(kind: ObjectKind) -> Seq<u8> {
    match kind {
        ObjectKind::Blob => seq![98u8, 108u8, 111u8, 98u8],
        ObjectKind::Tree => seq![116u8, 114u8, 101u8, 101u8],
    }
}

/// The kind a type tag names, if any.
pub open spec fn kind_of_tag(tag: Seq<u8>) -> Option<ObjectKind> {
    if tag == kind_tag(ObjectKind::Blob) {
        Some(ObjectKind::Blob)
    } else if tag == kind_tag(ObjectKind::Tree) {
        Some(ObjectKind::Tree)
    } else {
        None
    }
}

/// The serialized envelope of a payload: the bytes that are hashed and
/// compressed.
pub open spec fn envelope(kind: ObjectKind, payload: Seq<u8>) -> Seq<u8> {
    kind_tag(kind) + seq![32u8] + decimal(payload.len()) + seq![0u8] + payload
}

/// What opening envelope bytes yields: the kind and payload, or the first
/// fault found.
pub open spec fn open_envelope(b: Seq<u8>) -> Result<(ObjectKind, Seq<u8>), EnvelopeError> {
    match find(b, 0) {
        None => Err(EnvelopeError::MalformedEnvelope),
        Some(nul) => {
            let header = b.subrange(0, nul);
            let payload = b.subrange(nul + 1, b.len() as int);
            match find(header, 32) {
                None => Err(EnvelopeError::InvalidLength),
                Some(sp) => {
                    let len = header.subrange(sp + 1, header.len() as int);
                    match kind_of_tag(header.subrange(0, sp)) {
                        None => Err(EnvelopeError::MalformedEnvelope),
                        Some(kind) => if !is_numeral(len) {
                            Err(EnvelopeError::InvalidLength)
                        } else if numeral_value(len) != payload.len() {
                            Err(EnvelopeError::LengthMismatch)
                        } else {
                            Ok((kind, payload))
                        },
                    }
                },
            }
        },
    }
}

/// Serializes a payload into its envelope.
pub fn encode_envelope(kind: ObjectKind, payload: &[u8]) -> (r: Vec<u8>)
    ensures
        r@ == envelope(kind, payload@),
{
    let mut out: Vec<u8> = Vec::new();
    match kind {
        ObjectKind::Blob => {
            out.push(98);
            out.push(108);
            out.push(111);
            out.push(98);
        },
        ObjectKind::Tree => {
            out.push(116);
            out.push(114);
            out.push(101);
            out.push(101);
        },
    }
    out.push(32);
    assert(out@ =~= kind_tag(kind) + seq![32u8]);
    push_decimal(&mut out, payload.len());
    out.push(0);
    append_bytes(&mut out, payload);
    assert(out@ =~= envelope(kind, payload@));
    out
}

/// The kind whose tag is `tag`, if any.
fn parse_tag(tag: &[u8]) -> (r: Option<ObjectKind>)
    ensures
        r == kind_of_tag(tag@),
{
    if tag.len() != 4 {
        return None;
    }
    if tag[0] == 98 && tag[1] == 108 && tag[2] == 111 && tag[3] == 98 {
        assert(tag@ =~= kind_tag(ObjectKind::Blob));
        Some(ObjectKind::Blob)
    } else if tag[0] == 116 && tag[1] == 114 && tag[2] == 101 && tag[3] == 101 {
        assert(tag@ =~= kind_tag(ObjectKind::Tree));
        Some(ObjectKind::Tree)
    } else {
        assert(tag@ != kind_tag(ObjectKind::Blob) ==> tag@[0] != 98 || tag@[1] != 108 || tag@[2]
            != 111 || tag@[3] != 98);
        assert(tag@ != kind_tag(ObjectKind::Tree));
        None
    }
}

/// Opens envelope bytes into their kind and payload; the declared length must
/// equal the payload's actual length.
pub fn decode_envelope(b: &[u8]) -> (r: Result<(ObjectKind, Vec<u8>), EnvelopeError>)
    ensures
        match open_envelope(b@) {
            Ok((kind, payload)) => r is Ok && r->Ok_0.0 == kind && r->Ok_0.1@ == payload,
            Err(e) => r == Err::<(ObjectKind, Vec<u8>), EnvelopeError>(e),
        },
{
    let nul = match find_byte(b, 0, 0) {
        None => return Err(EnvelopeError::MalformedEnvelope),
        Some(nul) => nul,
    };
    proof {
        crate::bytes::lemma_find_from(b@, 0, 0);
    }
    let header = slice_subrange(b, 0, nul);
    let sp = match find_byte(header, 32, 0) {
        None => return Err(EnvelopeError::InvalidLength),
        Some(sp) => sp,
    };
    proof {
        crate::bytes::lemma_find_from(header@, 32, 0);
    }
    let kind = match parse_tag(slice_subrange(header, 0, sp)) {
        None => return Err(EnvelopeError::MalformedEnvelope),
        Some(kind) => kind,
    };
    let len = slice_subrange(header, sp + 1, nul);
    if len.len() == 0 || !all_digits(len) {
        return Err(EnvelopeError::InvalidLength);
    }
    assert(nul < b.len());
    let payload = slice_subrange(b, nul + 1, b.len());
    assert(len@ == header@.subrange(sp + 1, header@.len() as int));
    match numeral_at_most(len, payload.len()) {
        None => Err(EnvelopeError::LengthMismatch),
        Some(v) => if v != payload.len() {
            Err(EnvelopeError::LengthMismatch)
        } else {
            Ok((kind, slice_to_vec(payload)))
        },
    }
}

/// Opening an envelope gives back the kind and payload it was made from.
pub proof fn lemma_envelope_round_trip(kind: ObjectKind, payload: Seq<u8>)
    ensures
        open_envelope(envelope(kind, payload)) == Ok::<_, EnvelopeError>((kind, payload)),
{
    let tag = kind_tag(kind);
    let d = decimal(payload.len());
    let e = envelope(kind, payload);
    lemma_decimal(payload.len());
    let nul: int = 5 + d.len() as int;
    assert(e[nul] == 0);
    assert forall|j: int| 0 <= j < nul implies e[j] != 0 by {
        if j >= 5 {
            assert(e[j] == d[j - 5]);
        }
    }
    lemma_find_from_at(e, 0, 0, nul);
    let header = e.subrange(0, nul);
    assert(header[4] == 32);
    lemma_find_from_at(header, 32, 0, 4);
    assert(header.subrange(0, 4) =~= tag);
    assert(header.subrange(5, header.len() as int) =~= d);
    assert(e.subrange(nul + 1, e.len() as int) =~= payload);
}

} // verus!
