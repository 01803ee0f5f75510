//! Object addresses: the 20-byte SHA-1 digest of an envelope, written as 40
//! lowercase hexadecimal characters.
use vstd::prelude::*;
use sha1::Digest;
use vstd::slice::slice_subrange;
use vstd::slice::slice_to_vec;

verus! {

/// The number of bytes in an address.
pub const ADDRESS_LEN: usize = 20;

/// The SHA-1 digest of a byte sequence.
pub uninterp spec fn sha1_of(b: Seq<u8>) -> Seq<u8>;

/// Relies on sha1::Sha1 (through digest::Digest::digest): the 20-byte SHA-1
/// digest of the input.
#[verifier::external_body]
fn sha1_digest(b: &[u8]) -> (r: Vec<u8>)
    ensures
        r@ == sha1_of(b@),
        r@.len() == 20,
{
    sha1::Sha1::digest(b).to_vec()
}

/// The lowercase hexadecimal digit of a value below 16.
pub open spec fn hex_digit(n: u8) -> char {
    if n < 10 {
        ((48 + n) as u8) as char
    } else {
        ((87 + n) as u8) as char
    }
}

/// Lowercase hexadecimal text of a byte sequence, two digits per byte, high
/// nibble first.
pub open spec fn hex_text(b: Seq<u8>) -> Seq<char>
    decreases b.len(),
{
    if b.len() == 0 {
        Seq::empty()
    } else {
        hex_text(b.drop_last()) + seq![hex_digit(b.last() / 16), hex_digit(b.last() % 16)]
    }
}

/// The value of a hexadecimal digit of either case, if `c` is one.
pub open spec fn hex_value(c: char) -> Option<u8> {
    if '0' <= c <= '9' {
        Some((c as u32 - 48) as u8)
    } else if 'a' <= c <= 'f' {
        Some((c as u32 - 87) as u8)
    } else if 'A' <= c <= 'F' {
        Some((c as u32 - 55) as u8)
    } else {
        None
    }
}

/// Whether `s` is hexadecimal text: an even number of hexadecimal digits.
pub open spec fn is_hex_text(s: Seq<char>) -> bool {
    s.len() % 2 == 0 && forall|i: int| 0 <= i < s.len() ==> (#[trigger] hex_value(s[i])) is Some
}

/// The bytes that hexadecimal text denotes, two digits per byte.
pub open spec fn hex_bytes(s: Seq<char>) -> Seq<u8>
    decreases s.len(),
{
    if s.len() < 2 {
        Seq::empty()
    } else {
        let hi = hex_value(s[s.len() - 2]).unwrap();
        let lo = hex_value(s[s.len() - 1]).unwrap();
        hex_bytes(s.subrange(0, s.len() - 2)).push((hi * 16 + lo) as u8)
    }
}

/// Relies on hex::encode: two lowercase digits for each byte, high nibble
/// first.
#[verifier::external_body]
fn hex_encode(b: &[u8]) -> (r: String)
    ensures
        r@ == hex_text(b@),
{
    hex::encode(b)
}

/// Relies on hex::decode: it accepts exactly an even number of hexadecimal
/// digits of either case and gives the bytes they denote.
#[verifier::external_body]
fn hex_decode(s: &str) -> (r: Option<Vec<u8>>)
    ensures
        r is Some <==> is_hex_text(s@),
        r matches Some(v) ==> v@ == hex_bytes(s@),
{
    hex::decode(s).ok()
}

/// The address of an object: the raw digest bytes.
#[derive(Clone, Debug)]
pub struct ObjectAddress {
    pub bytes: Vec<u8>,
}

impl View for ObjectAddress {
    type V = Seq<u8>;

    open spec fn view(&self) -> Seq<u8> {
        self.bytes@
    }
}

impl PartialEq for ObjectAddress {
    fn eq(&self, o: &ObjectAddress) -> (r: bool)
        ensures
            r == (self@ == o@),
    {
        bytes_equal(self.bytes.as_slice(), o.bytes.as_slice())
    }
}

impl vstd::std_specs::cmp::PartialEqSpecImpl for ObjectAddress {
    open spec fn obeys_eq_spec() -> bool {
        true
    }

    open spec fn eq_spec(&self, o: &ObjectAddress) -> bool {
        self@ == o@
    }
}

impl Eq for ObjectAddress {}

/// Whether two byte slices hold the same bytes.
fn bytes_equal(a: &[u8], b: &[u8]) -> (r: bool)
    ensures
        r == (a@ == b@),
{
    if a.len() != b.len() {
        return false;
    }
    let mut i: usize = 0;
    while i < a.len()
        invariant
            i <= a@.len(),
            a@.len() == b@.len(),
            forall|j: int| 0 <= j < i ==> a@[j] == b@[j],
        decreases a.len() - i,
    {
        if a[i] != b[i] {
            return false;
        }
        i = i + 1;
    }
    assert(a@ =~= b@);
    true
}

/// Why text is not an address.
#[derive(Clone, Copy, Debug, PartialEq, Eq, Structural)]
pub enum AddressError {
    /// The text is not 40 characters long.
    WrongLength,
    /// The text holds a character that is not a hexadecimal digit.
    NotHex,
}

impl ObjectAddress {
    /// Every address holds exactly 20 bytes.
    pub open spec fn wf(&self) -> bool {
        self@.len() == ADDRESS_LEN
    }

    /// The address of an envelope: its SHA-1 digest.
    pub fn of_envelope(envelope: &[u8]) -> (r: ObjectAddress)
        ensures
            r@ == sha1_of(envelope@),
            r.wf(),
    {
        ObjectAddress { bytes: sha1_digest(envelope) }
    }

    /// The address whose raw bytes are `b`.
    pub fn from_raw(b: &[u8]) -> (r: ObjectAddress)
        requires
            b@.len() == ADDRESS_LEN,
        ensures
            r@ == b@,
            r.wf(),
    {
        ObjectAddress { bytes: slice_to_vec(b) }
    }

    /// Another address with the same bytes.
    pub fn copied(&self) -> (r: ObjectAddress)
        ensures
            r@ == self@,
    {
        ObjectAddress { bytes: slice_to_vec(self.bytes.as_slice()) }
    }

    /// The raw digest bytes.
    pub fn as_bytes(&self) -> (r: &[u8])
        ensures
            r@ == self@,
    {
        self.bytes.as_slice()
    }

    /// The canonical text of the address: 40 lowercase hexadecimal digits.
    pub fn to_hex(&self) -> (r: String)
        ensures
            r@ == hex_text(self@),
    {
        hex_encode(self.bytes.as_slice())
    }

    /// Reads an address from its text; digits of either case are accepted.
    pub fn parse(s: &str) -> (r: Result<ObjectAddress, AddressError>)
        ensures
            s@.len() != 2 * ADDRESS_LEN ==> r == Err::<ObjectAddress, AddressError>(
                AddressError::WrongLength,
            ),
            s@.len() == 2 * ADDRESS_LEN && !is_hex_text(s@) ==> r == Err::<
                ObjectAddress,
                AddressError,
            >(AddressError::NotHex),
            s@.len() == 2 * ADDRESS_LEN && is_hex_text(s@) ==> (r matches Ok(a) && a@ == hex_bytes(
                s@,
            ) && a.wf()),
    {
        if s.unicode_len() != 2 * ADDRESS_LEN {
            return Err(AddressError::WrongLength);
        }
        match hex_decode(s) {
            None => Err(AddressError::NotHex),
            Some(v) => {
                proof {
                    lemma_hex_bytes_len(s@);
                }
                Ok(ObjectAddress { bytes: v })
            },
        }
    }

    /// Where the object is stored under the objects root: a directory named
    /// by the first byte's two digits, and a file named by the other 38.
    pub fn location(&self) -> (r: (String, String))
        requires
            self.wf(),
        ensures
            r.0@ == hex_text(self@.subrange(0, 1)),
            r.1@ == hex_text(self@.subrange(1, ADDRESS_LEN as int)),
            r.0@ + r.1@ == hex_text(self@),
            r.0@.len() == 2,
            r.1@.len() == 38,
    {
        let b = self.bytes.as_slice();
        let dir = hex_encode(slice_subrange(b, 0, 1));
        let file = hex_encode(slice_subrange(b, 1, ADDRESS_LEN));
        proof {
            lemma_hex_text_concat(self@.subrange(0, 1), self@.subrange(1, ADDRESS_LEN as int));
            assert(self@.subrange(0, 1) + self@.subrange(1, ADDRESS_LEN as int) =~= self@);
            lemma_hex_text_len(self@.subrange(0, 1));
            lemma_hex_text_len(self@.subrange(1, ADDRESS_LEN as int));
        }
        (dir, file)
    }
}

/// Hexadecimal text has two characters per byte.
pub proof fn lemma_hex_text_len(b: Seq<u8>)
    ensures
        hex_text(b).len() == 2 * b.len(),
    decreases b.len(),
{
    if b.len() > 0 {
        lemma_hex_text_len(b.drop_last());
    }
}

/// Hexadecimal text of two byte sequences joined is their texts joined.
pub proof fn lemma_hex_text_concat(a: Seq<u8>, b: Seq<u8>)
    ensures
        hex_text(a + b) == hex_text(a) + hex_text(b),
    decreases b.len(),
{
    if b.len() == 0 {
        assert(a + b =~= a);
        assert(hex_text(a) + hex_text(b) =~= hex_text(a));
    } else {
        lemma_hex_text_concat(a, b.drop_last());
        assert((a + b).drop_last() =~= a + b.drop_last());
        assert(hex_text(a + b) =~= hex_text(a) + hex_text(b));
    }
}

/// Decoded hexadecimal text has one byte per two characters.
pub proof fn lemma_hex_bytes_len(s: Seq<char>)
    requires
        s.len() % 2 == 0,
    ensures
        hex_bytes(s).len() * 2 == s.len(),
    decreases s.len(),
{
    if s.len() >= 2 {
        lemma_hex_bytes_len(s.subrange(0, s.len() - 2));
    }
}

/// An address read back from its own text is the same address.
pub proof fn lemma_hex_round_trip(b: Seq<u8>)
    ensures
        is_hex_text(hex_text(b)),
        hex_bytes(hex_text(b)) == b,
    decreases b.len(),
{
    lemma_hex_text_len(b);
    if b.len() > 0 {
        let p = b.drop_last();
        lemma_hex_round_trip(p);
        lemma_hex_text_len(p);
        let t = hex_text(b);
        let x = b.last();
        assert(t.subrange(0, t.len() - 2) =~= hex_text(p));
        assert(hex_value(hex_digit(x / 16)) == Some(x / 16));
        assert(hex_value(hex_digit(x % 16)) == Some(x % 16));
        assert((x / 16 * 16 + x % 16) as u8 == x);
        assert forall|i: int| 0 <= i < t.len() implies (#[trigger] hex_value(t[i])) is Some by {
            if i < t.len() - 2 {
                assert(t[i] == hex_text(p)[i]);
            }
        }
        assert(hex_bytes(t) =~= b);
    } else {
        assert(hex_text(b) =~= Seq::<char>::empty());
    }
}

} // verus!
