use objstore::address::{AddressError, ObjectAddress};
use objstore::builder::{
    child_entries, is_reserved, names_in_order, prepare_tree, sort_entries, tree_payload,
    ChildObject,
};
use objstore::envelope::{decode_envelope, encode_envelope, EnvelopeError, ObjectKind};
use objstore::store::{
    address_of, load_object, load_tree, open_inflated, open_object, open_tree, prepare_object, tree_of_inflated,
    StoreError,
};
use objstore::tree::{decode_entries, encode_entries, TreeEntry, TreeError};
use std::io::Read;

const HELLO_ADDR: &str = "ce013625030ba8dba906f756967f9e9ca394464a";
const EMPTY_BLOB_ADDR: &str = "e69de29bb2d1d6434b8b29ae775ad8c2e48c5391";
const EMPTY_TREE_ADDR: &str = "4b825dc642cb6eb9a060e54bf8d69288fbee4904";

fn addr(s: &str) -> ObjectAddress {
    ObjectAddress::parse(s).unwrap()
}

fn inflate(b: &[u8]) -> Vec<u8> {
    let mut out = Vec::new();
    flate2::read::ZlibDecoder::new(b).read_to_end(&mut out).unwrap();
    out
}

fn entry(mode: &str, name: &str, a: &ObjectAddress) -> TreeEntry {
    TreeEntry { mode: mode.as_bytes().to_vec(), name: name.as_bytes().to_vec(), address: a.clone() }
}

fn child(name: &str, is_dir: bool, a: &ObjectAddress) -> ChildObject {
    ChildObject { name: name.as_bytes().to_vec(), is_dir, address: a.clone() }
}

#[test]
fn envelope_of_hello() {
    assert_eq!(encode_envelope(ObjectKind::Blob, b"hello\n"), b"blob 6\0hello\n".to_vec());
}

#[test]
fn envelope_of_empty_tree() {
    assert_eq!(encode_envelope(ObjectKind::Tree, b""), b"tree 0\0".to_vec());
}

#[test]
fn envelope_length_of_many_digits() {
    let payload = vec![7u8; 1234];
    let env = encode_envelope(ObjectKind::Blob, &payload);
    assert_eq!(&env[..10], b"blob 1234\0");
    assert_eq!(env.len(), 10 + 1234);
}

#[test]
fn envelope_round_trip() {
    let payload = b"a\0b c\0\xff".to_vec();
    for kind in [ObjectKind::Blob, ObjectKind::Tree] {
        let env = encode_envelope(kind, &payload);
        assert_eq!(decode_envelope(&env), Ok((kind, payload.clone())));
    }
}

#[test]
fn envelope_without_null_is_malformed() {
    assert_eq!(decode_envelope(b"blob 6hello"), Err(EnvelopeError::MalformedEnvelope));
}

#[test]
fn envelope_without_space_has_invalid_length() {
    assert_eq!(decode_envelope(b"blob6\0hello\n"), Err(EnvelopeError::InvalidLength));
    assert_eq!(decode_envelope(b"tree\0"), Err(EnvelopeError::InvalidLength));
}

#[test]
fn envelope_with_unknown_tag_is_malformed() {
    assert_eq!(decode_envelope(b"commit 1\0x"), Err(EnvelopeError::MalformedEnvelope));
}

#[test]
fn envelope_with_bad_length_is_refused() {
    assert_eq!(decode_envelope(b"blob 6x\0hello\n"), Err(EnvelopeError::InvalidLength));
    assert_eq!(decode_envelope(b"blob \0"), Err(EnvelopeError::InvalidLength));
    assert_eq!(decode_envelope(b"blob -1\0"), Err(EnvelopeError::InvalidLength));
}

#[test]
fn envelope_with_wrong_length_is_refused() {
    assert_eq!(decode_envelope(b"blob 5\0hello\n"), Err(EnvelopeError::LengthMismatch));
    assert_eq!(decode_envelope(b"blob 7\0hello\n"), Err(EnvelopeError::LengthMismatch));
    assert_eq!(
        decode_envelope(b"blob 99999999999999999999999\0x"),
        Err(EnvelopeError::LengthMismatch)
    );
}

#[test]
fn hello_blob_has_reference_address() {
    let a = address_of(ObjectKind::Blob, b"hello\n");
    assert_eq!(a.to_hex(), HELLO_ADDR);
}

#[test]
fn empty_blob_and_tree_have_reference_addresses() {
    assert_eq!(address_of(ObjectKind::Blob, b"").to_hex(), EMPTY_BLOB_ADDR);
    assert_eq!(address_of(ObjectKind::Tree, b"").to_hex(), EMPTY_TREE_ADDR);
}

#[test]
fn same_payload_same_address() {
    let p = b"some content".to_vec();
    let a = prepare_object(ObjectKind::Blob, &p).unwrap();
    let b = prepare_object(ObjectKind::Blob, &p).unwrap();
    assert_eq!(a.address, b.address);
    assert_eq!(a.address, address_of(ObjectKind::Blob, &p));
    assert_ne!(a.address, address_of(ObjectKind::Tree, &p));
}

#[test]
fn stored_hello_inflates_to_its_envelope() {
    let o = prepare_object(ObjectKind::Blob, b"hello\n").unwrap();
    assert_eq!(o.address.to_hex(), HELLO_ADDR);
    let env = inflate(&o.compressed);
    assert_eq!(env, b"blob 6\0hello\n".to_vec());
    assert_eq!(env.len(), 13);
}

#[test]
fn stored_object_opens_to_kind_and_payload() {
    for kind in [ObjectKind::Blob, ObjectKind::Tree] {
        for p in [b"".to_vec(), b"hello\n".to_vec(), vec![0u8, 32, 0, 255]] {
            let o = prepare_object(kind, &p).unwrap();
            assert_eq!(open_object(&o.compressed), Ok((kind, p.clone())));
        }
    }
}

#[test]
fn garbage_is_corrupt() {
    assert_eq!(open_object(b"not zlib at all"), Err(StoreError::CorruptObject));
    assert_eq!(open_inflated(b"blob 3\0ab"), Err(StoreError::CorruptObject));
    assert_eq!(open_inflated(b"blob 2\0ab"), Ok((ObjectKind::Blob, b"ab".to_vec())));
}

#[test]
fn address_parse_and_print() {
    let a = addr(HELLO_ADDR);
    assert_eq!(a.as_bytes().len(), 20);
    assert_eq!(a.as_bytes()[0], 0xce);
    assert_eq!(a.to_hex(), HELLO_ADDR);
    let upper = addr(&HELLO_ADDR.to_uppercase());
    assert_eq!(upper, a);
}

#[test]
fn address_parse_errors() {
    assert_eq!(ObjectAddress::parse("ce01"), Err(AddressError::WrongLength));
    assert_eq!(ObjectAddress::parse(""), Err(AddressError::WrongLength));
    let bad = "g".repeat(40);
    assert_eq!(ObjectAddress::parse(&bad), Err(AddressError::NotHex));
}

#[test]
fn address_location() {
    let (dir, file) = addr(HELLO_ADDR).location();
    assert_eq!(dir, "ce");
    assert_eq!(file, "013625030ba8dba906f756967f9e9ca394464a");
}

#[test]
fn tree_entries_encode_layout() {
    let a = addr(HELLO_ADDR);
    let payload = encode_entries(&vec![entry("100644", "a.txt", &a)]);
    let mut expected = b"100644 a.txt\0".to_vec();
    expected.extend_from_slice(a.as_bytes());
    assert_eq!(payload, expected);
}

#[test]
fn tree_entries_round_trip() {
    let a = addr(HELLO_ADDR);
    let t = addr(EMPTY_TREE_ADDR);
    let es = vec![entry("100644", "a.txt", &a), entry("40000", "b", &t), entry("100644", "c d", &a)];
    let back = decode_entries(&encode_entries(&es)).unwrap();
    assert_eq!(back.len(), 3);
    for (x, y) in es.iter().zip(back.iter()) {
        assert_eq!(x.mode, y.mode);
        assert_eq!(x.name, y.name);
        assert_eq!(x.address, y.address);
    }
}

#[test]
fn empty_tree_payload_has_no_entries() {
    assert_eq!(decode_entries(b"").unwrap().len(), 0);
}

#[test]
fn truncated_tree_is_refused() {
    let a = addr(HELLO_ADDR);
    let full = encode_entries(&vec![entry("100644", "a.txt", &a), entry("40000", "b", &a)]);
    for k in 1..=20 {
        assert_eq!(decode_entries(&full[..full.len() - k]).unwrap_err(), TreeError::TruncatedTree);
    }
    assert_eq!(decode_entries(b"100644 a.txt").unwrap_err(), TreeError::TruncatedTree);
    assert_eq!(decode_entries(b"100644").unwrap_err(), TreeError::TruncatedTree);
}

#[test]
fn name_order_is_bytewise() {
    assert!(names_in_order(b"a.txt", b"b"));
    assert!(!names_in_order(b"b", b"a.txt"));
    assert!(names_in_order(b"a", b"a"));
    assert!(names_in_order(b"a", b"ab"));
    assert!(!names_in_order(b"ab", b"a"));
    assert!(names_in_order(b"B", b"a"));
}

#[test]
fn reserved_name_is_git_directory() {
    assert!(is_reserved(b".git"));
    assert!(!is_reserved(b".gitignore"));
    assert!(!is_reserved(b"git"));
}

#[test]
fn children_become_entries_without_metadata_directory() {
    let a = addr(HELLO_ADDR);
    let t = addr(EMPTY_TREE_ADDR);
    let es = child_entries(&vec![child("b", true, &t), child(".git", true, &t), child("a.txt", false, &a)]);
    assert_eq!(es.len(), 2);
    assert_eq!(es[0].mode, b"40000".to_vec());
    assert_eq!(es[0].name, b"b".to_vec());
    assert_eq!(es[1].mode, b"100644".to_vec());
    assert_eq!(es[1].address, a);
}

#[test]
fn sort_orders_entries_by_name() {
    let a = addr(HELLO_ADDR);
    let es = vec![entry("100644", "c", &a), entry("100644", "a", &a), entry("100644", "b", &a)];
    let names: Vec<Vec<u8>> = sort_entries(&es).into_iter().map(|e| e.name).collect();
    assert_eq!(names, vec![b"a".to_vec(), b"b".to_vec(), b"c".to_vec()]);
}

#[test]
fn file_and_empty_directory_tree_lists_file_first() {
    let a = address_of(ObjectKind::Blob, b"hello\n");
    let t = address_of(ObjectKind::Tree, b"");
    let payload = tree_payload(&vec![child("b", true, &t), child("a.txt", false, &a)]);
    let es = decode_entries(&payload).unwrap();
    assert_eq!(es.len(), 2);
    assert_eq!(es[0].name, b"a.txt".to_vec());
    assert_eq!(es[0].mode, b"100644".to_vec());
    assert_eq!(es[0].address, a);
    assert_eq!(es[1].name, b"b".to_vec());
    assert_eq!(es[1].mode, b"40000".to_vec());
    assert_eq!(es[1].address, t);
}

#[test]
fn tree_address_is_stable_across_orders_and_runs() {
    let a = address_of(ObjectKind::Blob, b"hello\n");
    let t = address_of(ObjectKind::Tree, b"");
    let first = vec![child("b", true, &t), child("a.txt", false, &a), child(".git", true, &t)];
    let second = vec![child(".git", true, &t), child("a.txt", false, &a), child("b", true, &t)];
    let x = prepare_tree(&first).unwrap();
    let y = prepare_tree(&first).unwrap();
    let z = prepare_tree(&second).unwrap();
    assert_eq!(x.address, y.address);
    assert_eq!(x.address, z.address);
}

#[test]
fn stored_tree_opens_to_its_entries() {
    let a = address_of(ObjectKind::Blob, b"hello\n");
    let o = prepare_tree(&vec![child("a.txt", false, &a)]).unwrap();
    let es = open_tree(&o.compressed).unwrap();
    assert_eq!(es.len(), 1);
    assert_eq!(es[0].name, b"a.txt".to_vec());
    assert_eq!(es[0].address, a);
}

#[test]
fn blob_is_not_a_tree() {
    let o = prepare_object(ObjectKind::Blob, b"hello\n").unwrap();
    assert_eq!(open_tree(&o.compressed).unwrap_err(), StoreError::NotATree);
    assert_eq!(tree_of_inflated(b"tree 3\0abc").unwrap_err(), StoreError::TruncatedTree);
    assert_eq!(tree_of_inflated(b"tree 2\0abc").unwrap_err(), StoreError::CorruptObject);
}

#[test]
fn missing_object_is_not_found() {
    assert_eq!(load_object(None), Err(StoreError::ObjectNotFound));
    let o = prepare_object(ObjectKind::Blob, b"x").unwrap();
    assert_eq!(load_object(Some(&o.compressed)), Ok((ObjectKind::Blob, b"x".to_vec())));
    assert_eq!(load_object(Some(b"\x78\x9c")), Err(StoreError::CorruptObject));
}

#[test]
fn missing_tree_is_not_found() {
    assert_eq!(load_tree(None).unwrap_err(), StoreError::ObjectNotFound);
    let a = address_of(ObjectKind::Blob, b"hello\n");
    let o = prepare_tree(&vec![child("a.txt", false, &a)]).unwrap();
    assert_eq!(load_tree(Some(&o.compressed)).unwrap().len(), 1);
}

#[test]
fn binary_payload_is_stored_verbatim() {
    let p = vec![0x00u8, 0xff, 0x20];
    let o = prepare_object(ObjectKind::Blob, &p).unwrap();
    assert_eq!(inflate(&o.compressed), b"blob 3\0\x00\xff ".to_vec());
    assert_eq!(o.address, address_of(ObjectKind::Blob, &p));
    let hex = o.address.to_hex();
    assert_eq!(hex.len(), 40);
    assert!(hex.chars().all(|c| c.is_ascii_digit() || ('a'..='f').contains(&c)));
}

#[test]
fn only_the_metadata_directory_is_left_out() {
    let a = address_of(ObjectKind::Blob, b"x");
    let with = prepare_tree(&vec![child(".gitignore", false, &a), child(".git", true, &a)]).unwrap();
    let without = prepare_tree(&vec![child(".gitignore", false, &a)]).unwrap();
    assert_eq!(with.address, without.address);
    let es = load_tree(Some(&with.compressed)).unwrap();
    assert_eq!(es.len(), 1);
    assert_eq!(es[0].name, b".gitignore".to_vec());
}

#[test]
fn stored_tree_of_file_and_empty_directory_inflates_to_envelope() {
    let a = address_of(ObjectKind::Blob, b"hello\n");
    let t = prepare_tree(&vec![]).unwrap();
    assert_eq!(t.address.to_hex(), EMPTY_TREE_ADDR);
    let o = prepare_tree(&vec![child("b", true, &t.address), child("a.txt", false, &a)]).unwrap();
    let mut expected = b"tree 61\0100644 a.txt\0".to_vec();
    expected.extend_from_slice(addr(HELLO_ADDR).as_bytes());
    expected.extend_from_slice(b"40000 b\0");
    expected.extend_from_slice(addr(EMPTY_TREE_ADDR).as_bytes());
    assert_eq!(inflate(&o.compressed), expected);
    assert_eq!(o.address, address_of(ObjectKind::Tree, &expected[8..]));
    let listing: Vec<String> = load_tree(Some(&o.compressed))
        .unwrap()
        .iter()
        .map(|e| {
            format!(
                "{} {} {}",
                String::from_utf8(e.mode.clone()).unwrap(),
                e.address.to_hex(),
                String::from_utf8(e.name.clone()).unwrap()
            )
        })
        .collect();
    assert_eq!(
        listing,
        vec![
            format!("100644 {} a.txt", HELLO_ADDR),
            format!("40000 {} b", EMPTY_TREE_ADDR),
        ]
    );
}

#[test]
fn empty_directory_tree_is_stored_as_empty_envelope() {
    let a = address_of(ObjectKind::Blob, b"x");
    for children in [vec![], vec![child(".git", true, &a)]] {
        let o = prepare_tree(&children).unwrap();
        assert_eq!(o.address.to_hex(), EMPTY_TREE_ADDR);
        assert_eq!(inflate(&o.compressed), b"tree 0\0".to_vec());
    }
}
