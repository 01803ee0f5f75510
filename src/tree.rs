//! The tree payload: entries `"<mode> <name>\0"` each followed by the 20 raw
//! bytes of the child's address, concatenated.
use vstd::prelude::*;
use crate::address::{ObjectAddress, ADDRESS_LEN};
use crate::bytes::{
    append_bytes, find, find_byte, find_from, lemma_find_from, lemma_find_from_at, lemma_find_shift,
};
use vstd::slice::slice_subrange;
use vstd::slice::slice_to_vec;

verus! {

/// The mode of a subdirectory entry: `40000`.
pub open spec fn dir_mode() -> Seq<u8> {
    seq![52u8, 48u8, 48u8, 48u8, 48u8]
}

/// The mode of a regular file entry: `100644`.
pub open spec fn file_mode() -> Seq<u8> {
    seq![49u8, 48u8, 48u8, 54u8, 52u8, 52u8]
}

/// One entry of a tree: a child's mode, base name and address.
#[derive(Clone, Debug)]
pub struct TreeEntry {
    pub mode: Vec<u8>,
    pub name: Vec<u8>,
    pub address: ObjectAddress,
}

/// What a tree entry holds, as byte sequences.
pub struct EntryModel {
    pub mode: Seq<u8>,
    pub name: Seq<u8>,
    pub address: Seq<u8>,
}

impl TreeEntry {
    pub open spec fn model(&self) -> EntryModel {
        EntryModel { mode: self.mode@, name: self.name@, address: self.address@ }
    }
}

/// The models of a sequence of entries.
pub open spec fn models(es: Seq<TreeEntry>) -> Seq<EntryModel> {
    es.map_values(|e: TreeEntry| e.model())
}

/// Whether an entry can be written and read back: its mode has no space, its
/// name no null byte, and its address is 20 bytes.
pub open spec fn entry_ok(e: EntryModel) -> bool {
    &&& forall|i: int| 0 <= i < e.mode.len() ==> e.mode[i] != 32
    &&& forall|i: int| 0 <= i < e.name.len() ==> e.name[i] != 0
    &&& e.address.len() == ADDRESS_LEN
}

/// The bytes of one entry.
pub open spec fn entry_bytes(e: EntryModel) -> Seq<u8> {
    e.mode + seq![32u8] + e.name + seq![0u8] + e.address
}

/// The payload of a tree with the given entries, in the given order.
pub open spec fn tree_bytes(es: Seq<EntryModel>) -> Seq<u8>
    decreases es.len(),
{
    if es.len() == 0 {
        Seq::empty()
    } else {
        tree_bytes(es.drop_last()) + entry_bytes(es.last())
    }
}

/// The entries a tree payload holds, or `None` where it ends inside an entry.
pub open spec fn parse_tree(s: Seq<u8>) -> Option<Seq<EntryModel>>
    decreases s.len(),
{
    if s.len() == 0 {
        Some(Seq::empty())
    } else {
        match find(s, 32) {
            None => None,
            Some(sp) => match find_from(s, 0, sp + 1) {
                None => None,
                Some(nul) => if !(0 <= sp < nul && nul + 1 + ADDRESS_LEN <= s.len()) {
                    None
                } else {
                    let e = EntryModel {
                        mode: s.subrange(0, sp),
                        name: s.subrange(sp + 1, nul),
                        address: s.subrange(nul + 1, nul + 1 + ADDRESS_LEN),
                    };
                    match parse_tree(s.subrange(nul + 1 + ADDRESS_LEN, s.len() as int)) {
                        None => None,
                        Some(rest) => Some(seq![e] + rest),
                    }
                },
            },
        }
    }
}

/// Why a tree payload could not be read.
#[derive(Clone, Copy, Debug, PartialEq, Eq, Structural)]
pub enum TreeError {
    /// The payload ends inside an entry: a delimiter is missing, or fewer
    /// than 20 address bytes remain.
    TruncatedTree,
}

/// Serializes entries, in the order given, into a tree payload.
pub fn encode_entries(entries: &Vec<TreeEntry>) -> (r: Vec<u8>)
    ensures
        r@ == tree_bytes(models(entries@)),
{
    let mut out: Vec<u8> = Vec::new();
    let mut i: usize = 0;
    while i < entries.len()
        invariant
            i <= entries@.len(),
            out@ == tree_bytes(models(entries@.subrange(0, i as int))),
        decreases entries.len() - i,
    {
        let e = &entries[i];
        append_bytes(&mut out, e.mode.as_slice());
        out.push(32);
        append_bytes(&mut out, e.name.as_slice());
        out.push(0);
        append_bytes(&mut out, e.address.as_bytes());
        proof {
            let ms = models(entries@.subrange(0, i + 1));
            assert(ms.drop_last() =~= models(entries@.subrange(0, i as int)));
            assert(ms.last() == e.model());
        }
        i = i + 1;
    }
    assert(entries@.subrange(0, entries@.len() as int) =~= entries@);
    out
}

/// Reads the entries of a tree payload, in the order they are stored.
pub fn decode_entries(payload: &[u8]) -> (r: Result<Vec<TreeEntry>, TreeError>)
    ensures
        match parse_tree(payload@) {
            Some(es) => r is Ok && models(r->Ok_0@) == es,
            None => r == Err::<Vec<TreeEntry>, TreeError>(TreeError::TruncatedTree),
        },
{
    let ghost s = payload@;
    let mut out: Vec<TreeEntry> = Vec::new();
    let mut i: usize = 0;
    assert(s.subrange(0, s.len() as int) =~= s);
    while i < payload.len()
        invariant
            i <= s.len(),
            s == payload@,
            parse_tree(s) == match parse_tree(s.subrange(i as int, s.len() as int)) {
                Some(rest) => Some(models(out@) + rest),
                None => None,
            },
        decreases payload.len() - i,
    {
        let ghost t = s.subrange(i as int, s.len() as int);
        proof {
            lemma_find_shift(s, 32, i as int, 0);
            lemma_find_from(s, 32, i as int);
        }
        let sp = match find_byte(payload, 32, i) {
            None => return Err(TreeError::TruncatedTree),
            Some(sp) => sp,
        };
        proof {
            lemma_find_shift(s, 0, i as int, sp - i + 1);
            lemma_find_from(s, 0, sp + 1);
        }
        let nul = match find_byte(payload, 0, sp + 1) {
            None => return Err(TreeError::TruncatedTree),
            Some(nul) => nul,
        };
        if payload.len() - nul - 1 < ADDRESS_LEN {
            return Err(TreeError::TruncatedTree);
        }
        let end = nul + 1 + ADDRESS_LEN;
        let entry = TreeEntry {
            mode: slice_to_vec(slice_subrange(payload, i, sp)),
            name: slice_to_vec(slice_subrange(payload, sp + 1, nul)),
            address: ObjectAddress::from_raw(slice_subrange(payload, nul + 1, end)),
        };
        proof {
            let tsp = sp - i;
            let tnul = nul - i;
            assert(t.subrange(0, tsp) =~= entry.mode@);
            assert(t.subrange(tsp + 1, tnul) =~= entry.name@);
            assert(t.subrange(tnul + 1, tnul + 1 + ADDRESS_LEN) =~= entry.address@);
            assert(t.subrange(tnul + 1 + ADDRESS_LEN, t.len() as int) =~= s.subrange(
                end as int,
                s.len() as int,
            ));
        }
        let ghost before = out@;
        out.push(entry);
        proof {
            assert(models(out@) =~= models(before) + seq![entry.model()]);
            match parse_tree(s.subrange(end as int, s.len() as int)) {
                Some(rest) => {
                    assert(models(out@) + rest =~= models(before) + (seq![entry.model()] + rest));
                },
                None => {},
            }
        }
        i = end;
    }
    assert(s.subrange(i as int, s.len() as int) =~= Seq::<u8>::empty());
    assert(models(out@) + Seq::<EntryModel>::empty() =~= models(out@));
    Ok(out)
}

/// The payload of a tree, split after its first entry.
pub proof fn lemma_tree_bytes_front(es: Seq<EntryModel>)
    requires
        es.len() > 0,
    ensures
        tree_bytes(es) == entry_bytes(es[0]) + tree_bytes(es.drop_first()),
    decreases es.len(),
{
    if es.len() == 1 {
        assert(es.drop_last() =~= Seq::<EntryModel>::empty());
        assert(es.drop_first() =~= Seq::<EntryModel>::empty());
        assert(tree_bytes(es) =~= entry_bytes(es[0]) + tree_bytes(es.drop_first()));
    } else {
        lemma_tree_bytes_front(es.drop_last());
        assert(es.drop_last().drop_first() =~= es.drop_first().drop_last());
        assert(es.drop_first().last() == es.last());
        assert(tree_bytes(es) =~= entry_bytes(es[0]) + tree_bytes(es.drop_first()));
    }
}

/// Where the delimiters of a leading entry stand in the bytes that follow.
proof fn lemma_parse_first_entry(e: EntryModel, rest: Seq<u8>)
    requires
        entry_ok(e),
    ensures
        ({
            let s = entry_bytes(e) + rest;
            let sp = e.mode.len() as int;
            let nul = sp + 1 + e.name.len();
            &&& find(s, 32) == Some(sp)
            &&& find_from(s, 0, sp + 1) == Some(nul)
            &&& s.subrange(0, sp) == e.mode
            &&& s.subrange(sp + 1, nul) == e.name
            &&& nul + 1 + ADDRESS_LEN <= s.len()
            &&& s.subrange(nul + 1, nul + 1 + ADDRESS_LEN) == e.address
            &&& s.subrange(nul + 1 + ADDRESS_LEN, s.len() as int) == rest
        }),
{
    let s = entry_bytes(e) + rest;
    let sp = e.mode.len() as int;
    let nul = sp + 1 + e.name.len();
    assert forall|j: int| 0 <= j < sp implies s[j] != 32 by {
        assert(s[j] == e.mode[j]);
    }
    assert(s[sp] == 32);
    lemma_find_from_at(s, 32, 0, sp);
    assert forall|j: int| sp + 1 <= j < nul implies s[j] != 0 by {
        assert(s[j] == e.name[j - sp - 1]);
    }
    assert(s[nul] == 0);
    lemma_find_from_at(s, 0, sp + 1, nul);
    assert(s.subrange(0, sp) =~= e.mode);
    assert(s.subrange(sp + 1, nul) =~= e.name);
    assert(s.subrange(nul + 1, nul + 1 + ADDRESS_LEN) =~= e.address);
    assert(s.subrange(nul + 1 + ADDRESS_LEN, s.len() as int) =~= rest);
}

/// Entries written out are read back as the same entries, in the same order.
pub proof fn lemma_tree_round_trip(es: Seq<EntryModel>)
    requires
        forall|i: int| 0 <= i < es.len() ==> entry_ok(#[trigger] es[i]),
    ensures
        parse_tree(tree_bytes(es)) == Some(es),
    decreases es.len(),
{
    if es.len() == 0 {
        assert(tree_bytes(es) =~= Seq::<u8>::empty());
        assert(es =~= Seq::<EntryModel>::empty());
    } else {
        let e = es[0];
        let rest = es.drop_first();
        lemma_tree_bytes_front(es);
        assert forall|i: int| 0 <= i < rest.len() implies entry_ok(#[trigger] rest[i]) by {
            assert(rest[i] == es[i + 1]);
        }
        lemma_tree_round_trip(rest);
        lemma_parse_first_entry(e, tree_bytes(rest));
        assert(seq![e] + rest =~= es);
    }
}

/// A payload is at least as long as the address bytes it carries.
proof fn lemma_tree_bytes_len(es: Seq<EntryModel>)
    requires
        es.len() > 0,
        forall|i: int| 0 <= i < es.len() ==> entry_ok(#[trigger] es[i]),
    ensures
        tree_bytes(es).len() >= ADDRESS_LEN + 2,
{
    assert(entry_ok(es.last()));
}

/// A payload cut short by 1 to 20 bytes, so that the last entry's address is
/// incomplete, is refused.
pub proof fn lemma_truncated_tree(es: Seq<EntryModel>, k: int)
    requires
        es.len() > 0,
        forall|i: int| 0 <= i < es.len() ==> entry_ok(#[trigger] es[i]),
        1 <= k <= ADDRESS_LEN,
    ensures
        parse_tree(tree_bytes(es).subrange(0, tree_bytes(es).len() - k)) is None,
    decreases es.len(),
{
    let e = es[0];
    let rest = es.drop_first();
    lemma_tree_bytes_front(es);
    let full = tree_bytes(es);
    let cut = full.subrange(0, full.len() - k);
    let eb = entry_bytes(e);
    let sp = e.mode.len() as int;
    let nul = sp + 1 + e.name.len();
    assert(entry_ok(e));
    if es.len() == 1 {
        assert(rest =~= Seq::<EntryModel>::empty());
        assert(tree_bytes(rest) =~= Seq::<u8>::empty());
        assert(cut =~= eb.subrange(0, eb.len() - k) + Seq::<u8>::empty());
        assert forall|j: int| 0 <= j < sp implies cut[j] != 32 by {
            assert(cut[j] == e.mode[j]);
        }
        lemma_find_from_at(cut, 32, 0, sp);
        assert forall|j: int| sp + 1 <= j < nul implies cut[j] != 0 by {
            assert(cut[j] == e.name[j - sp - 1]);
        }
        if nul < cut.len() {
            assert(cut[nul] == 0);
            lemma_find_from_at(cut, 0, sp + 1, nul);
        } else {
            crate::bytes::lemma_find_from_none(cut, 0, sp + 1);
        }
    } else {
        assert forall|i: int| 0 <= i < rest.len() implies entry_ok(#[trigger] rest[i]) by {
            assert(rest[i] == es[i + 1]);
        }
        lemma_tree_bytes_len(rest);
        let rb = tree_bytes(rest);
        let rcut = rb.subrange(0, rb.len() - k);
        lemma_truncated_tree(rest, k);
        assert(cut =~= eb + rcut);
        lemma_parse_first_entry(e, rcut);
    }
}

} // verus!
