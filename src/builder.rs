//! Assembling a directory's tree: which children it lists, with which mode,
//! and in which order.
use vstd::prelude::*;
use crate::address::ObjectAddress;
use crate::envelope::{envelope, ObjectKind};
use crate::store::{
    object_address, prepare_object, zlib_compressed, zlib_decompressed, StoreError, StoredObject,
};
use crate::tree::{
    dir_mode, encode_entries, entry_ok, file_mode, lemma_tree_round_trip, models, parse_tree,
    tree_bytes, EntryModel, TreeEntry,
};
use vstd::multiset::Multiset;
use vstd::slice::slice_to_vec;

verus! {

/// A child of a directory whose object is already stored: its base name,
/// whether it is a directory, and its object's address.
#[derive(Clone, Debug)]
pub struct ChildObject {
    pub name: Vec<u8>,
    pub is_dir: bool,
    pub address: ObjectAddress,
}

/// The name of the repository metadata directory, which no tree lists:
/// `.git`.
pub open spec fn reserved_name() -> Seq<u8> {
    seq![46u8, 103u8, 105u8, 116u8]
}

/// The entry a child gets in its parent's tree.
pub open spec fn child_entry(c: ChildObject) -> EntryModel {
    EntryModel {
        mode: if c.is_dir {
            dir_mode()
        } else {
            file_mode()
        },
        name: c.name@,
        address: c.address@,
    }
}

/// The entries of the children that a tree lists, in the children's order.
pub open spec fn listed(cs: Seq<ChildObject>) -> Seq<EntryModel>
    decreases cs.len(),
{
    if cs.len() == 0 {
        Seq::empty()
    } else if cs.last().name@ == reserved_name() {
        listed(cs.drop_last())
    } else {
        listed(cs.drop_last()).push(child_entry(cs.last()))
    }
}

/// Whether a child can be listed in a tree: its name holds no null byte and
/// no `/`, and its address is well formed.
pub open spec fn child_ok(c: ChildObject) -> bool {
    &&& c.address.wf()
    &&& forall|i: int| 0 <= i < c.name@.len() ==> c.name@[i] != 0 && c.name@[i] != 47
}

/// The entries of well-formed children can be written and read back.
proof fn lemma_listed_ok(cs: Seq<ChildObject>)
    requires
        forall|i: int| 0 <= i < cs.len() ==> child_ok(#[trigger] cs[i]),
    ensures
        forall|j: int| 0 <= j < listed(cs).len() ==> entry_ok(#[trigger] listed(cs)[j]),
    decreases cs.len(),
{
    if cs.len() > 0 {
        let p = cs.drop_last();
        assert forall|i: int| 0 <= i < p.len() implies child_ok(#[trigger] p[i]) by {
            assert(p[i] == cs[i]);
        }
        lemma_listed_ok(p);
        let c = cs.last();
        assert(child_ok(cs[cs.len() - 1]));
        let e = child_entry(c);
        assert(entry_ok(e)) by {
            assert(dir_mode() =~= seq![52u8, 48u8, 48u8, 48u8, 48u8]);
            assert(file_mode() =~= seq![49u8, 48u8, 48u8, 54u8, 52u8, 52u8]);
        }
        if c.name@ != reserved_name() {
            let l = listed(cs);
            assert(l == listed(p).push(e));
            assert forall|j: int| 0 <= j < l.len() implies entry_ok(#[trigger] l[j]) by {
                if j < l.len() - 1 {
                    assert(l[j] == listed(p)[j]);
                }
            }
        }
    }
}

/// Byte-wise order of names from index `i` on, given equal bytes before.
pub open spec fn name_le_from(a: Seq<u8>, b: Seq<u8>, i: int) -> bool
    decreases a.len() - i,
{
    if i < 0 || i >= a.len() {
        true
    } else if i >= b.len() {
        false
    } else if a[i] != b[i] {
        a[i] < b[i]
    } else {
        name_le_from(a, b, i + 1)
    }
}

/// Whether name `a` comes no later than `b` in byte-wise order.
pub open spec fn name_le(a: Seq<u8>, b: Seq<u8>) -> bool {
    name_le_from(a, b, 0)
}

/// Whether entries are ordered by name.
pub open spec fn sorted_by_name(s: Seq<EntryModel>) -> bool {
    forall|i: int, j: int| 0 <= i < j < s.len() ==> name_le(s[i].name, s[j].name)
}

/// Whether entries that share a name are the same entry.
pub open spec fn names_key(m: Multiset<EntryModel>) -> bool {
    forall|x: EntryModel, y: EntryModel|
        m.count(x) > 0 && m.count(y) > 0 && x.name == y.name ==> x == y
}

proof fn lemma_name_le_total(a: Seq<u8>, b: Seq<u8>, i: int)
    requires
        0 <= i,
    ensures
        name_le_from(a, b, i) || name_le_from(b, a, i),
    decreases a.len() - i,
{
    if i < a.len() && i < b.len() && a[i] == b[i] {
        lemma_name_le_total(a, b, i + 1);
    }
}

proof fn lemma_name_le_refl(a: Seq<u8>, i: int)
    requires
        0 <= i,
    ensures
        name_le_from(a, a, i),
    decreases a.len() - i,
{
    if i < a.len() {
        lemma_name_le_refl(a, i + 1);
    }
}

proof fn lemma_name_le_trans(a: Seq<u8>, b: Seq<u8>, c: Seq<u8>, i: int)
    requires
        0 <= i,
        name_le_from(a, b, i),
        name_le_from(b, c, i),
    ensures
        name_le_from(a, c, i),
    decreases a.len() - i,
{
    if i < a.len() && i < b.len() && i < c.len() && a[i] == b[i] && b[i] == c[i] {
        lemma_name_le_trans(a, b, c, i + 1);
    }
}

proof fn lemma_name_le_antisym(a: Seq<u8>, b: Seq<u8>, i: int)
    requires
        0 <= i <= a.len(),
        i <= b.len(),
        a.subrange(0, i) == b.subrange(0, i),
        name_le_from(a, b, i),
        name_le_from(b, a, i),
    ensures
        a == b,
    decreases a.len() - i,
{
    if i < a.len() {
        assert(a.subrange(0, i + 1) =~= a.subrange(0, i).push(a[i]));
        assert(b.subrange(0, i + 1) =~= b.subrange(0, i).push(b[i]));
        lemma_name_le_antisym(a, b, i + 1);
    } else {
        assert(a =~= a.subrange(0, i));
        assert(b =~= b.subrange(0, i));
    }
}

/// Whether name `a` comes no later than `b` in byte-wise order.
pub fn names_in_order(a: &[u8], b: &[u8]) -> (r: bool)
    ensures
        r == name_le(a@, b@),
{
    let mut i: usize = 0;
    while i < a.len()
        invariant
            i <= a@.len(),
            name_le_from(a@, b@, 0) == name_le_from(a@, b@, i as int),
        decreases a.len() - i,
    {
        if i >= b.len() {
            return false;
        }
        if a[i] != b[i] {
            return a[i] < b[i];
        }
        i = i + 1;
    }
    true
}

/// Whether a name is the reserved metadata directory's.
pub fn is_reserved(name: &[u8]) -> (r: bool)
    ensures
        r == (name@ == reserved_name()),
{
    let r = name.len() == 4 && name[0] == 46 && name[1] == 103 && name[2] == 105 && name[3] == 116;
    if r {
        assert(name@ =~= reserved_name());
    }
    r
}

/// The mode bytes of a directory or file entry.
fn mode_bytes(is_dir: bool) -> (r: Vec<u8>)
    ensures
        r@ == if is_dir {
            dir_mode()
        } else {
            file_mode()
        },
{
    let mut m: Vec<u8> = Vec::new();
    if is_dir {
        m.push(52);
        m.push(48);
        m.push(48);
        m.push(48);
        m.push(48);
        assert(m@ =~= dir_mode());
    } else {
        m.push(49);
        m.push(48);
        m.push(48);
        m.push(54);
        m.push(52);
        m.push(52);
        assert(m@ =~= file_mode());
    }
    m
}

/// The entries of a directory's children, in the order given, leaving out
/// the reserved metadata directory; directories get mode `40000` and
/// everything else `100644`.
pub fn child_entries(children: &Vec<ChildObject>) -> (r: Vec<TreeEntry>)
    ensures
        models(r@) == listed(children@),
{
    let mut out: Vec<TreeEntry> = Vec::new();
    let mut i: usize = 0;
    while i < children.len()
        invariant
            i <= children@.len(),
            models(out@) == listed(children@.subrange(0, i as int)),
        decreases children.len() - i,
    {
        let c = &children[i];
        let ghost prev = out@;
        assert(children@.subrange(0, i + 1).drop_last() =~= children@.subrange(0, i as int));
        if !is_reserved(c.name.as_slice()) {
            out.push(
                TreeEntry {
                    mode: mode_bytes(c.is_dir),
                    name: slice_to_vec(c.name.as_slice()),
                    address: c.address.copied(),
                },
            );
            assert(models(out@) =~= models(prev).push(child_entry(*c)));
        }
        i = i + 1;
    }
    assert(children@.subrange(0, children@.len() as int) =~= children@);
    out
}

/// Another entry with the same contents.
fn copy_entry(e: &TreeEntry) -> (r: TreeEntry)
    ensures
        r.model() == e.model(),
{
    TreeEntry {
        mode: slice_to_vec(e.mode.as_slice()),
        name: slice_to_vec(e.name.as_slice()),
        address: e.address.copied(),
    }
}

/// The same entries, ordered by name, byte-wise.
pub fn sort_entries(entries: &Vec<TreeEntry>) -> (r: Vec<TreeEntry>)
    ensures
        sorted_by_name(models(r@)),
        models(r@).to_multiset() == models(entries@).to_multiset(),
{
    let mut out: Vec<TreeEntry> = Vec::new();
    let mut i: usize = 0;
    assert(models(out@) =~= Seq::<EntryModel>::empty());
    assert(models(entries@.subrange(0, 0)) =~= Seq::<EntryModel>::empty());
    while i < entries.len()
        invariant
            i <= entries@.len(),
            sorted_by_name(models(out@)),
            models(out@).to_multiset() == models(entries@.subrange(0, i as int)).to_multiset(),
        decreases entries.len() - i,
    {
        let e = copy_entry(&entries[i]);
        let ghost m = e.model();
        let ghost old_out = models(out@);
        let mut pos: usize = 0;
        loop
            invariant
                pos <= out@.len(),
                old_out == models(out@),
                m == e.model(),
                forall|k: int| 0 <= k < pos ==> name_le(#[trigger] old_out[k].name, m.name),
            ensures
                pos <= out@.len(),
                forall|k: int| 0 <= k < pos ==> name_le(#[trigger] old_out[k].name, m.name),
                pos < out@.len() ==> !name_le(old_out[pos as int].name, m.name),
            decreases out.len() - pos,
        {
            if pos >= out.len() {
                break;
            }
            assert(old_out[pos as int] == out@[pos as int].model());
            let cur = &out[pos];
            let ok = names_in_order(cur.name.as_slice(), e.name.as_slice());
            if !ok {
                break;
            }
            pos = pos + 1;
        }
        proof {
            if pos < out.len() {
                lemma_name_le_total(old_out[pos as int].name, m.name, 0);
                assert forall|k: int| pos <= k < old_out.len() implies name_le(
                    m.name,
                    #[trigger] old_out[k].name,
                ) by {
                    if k > pos {
                        assert(name_le(old_out[pos as int].name, old_out[k].name));
                        lemma_name_le_trans(m.name, old_out[pos as int].name, old_out[k].name, 0);
                    }
                }
            }
        }
        out.insert(pos, e);
        proof {
            let new_out = models(out@);
            assert(new_out =~= old_out.insert(pos as int, m));
            assert forall|a: int, b: int| 0 <= a < b < new_out.len() implies name_le(
                new_out[a].name,
                new_out[b].name,
            ) by {
                if b < pos {
                } else if b == pos {
                } else if a == pos {
                    assert(new_out[b] == old_out[b - 1]);
                } else if a < pos {
                    assert(new_out[b] == old_out[b - 1]);
                    lemma_name_le_trans(old_out[a].name, m.name, old_out[b - 1].name, 0);
                } else {
                    assert(new_out[a] == old_out[a - 1]);
                    assert(new_out[b] == old_out[b - 1]);
                }
            }
            vstd::seq_lib::to_multiset_insert(old_out, pos as int, m);
            assert(models(entries@.subrange(0, i + 1)) =~= models(
                entries@.subrange(0, i as int),
            ).push(m));
            vstd::seq_lib::to_multiset_build(models(entries@.subrange(0, i as int)), m);
        }
        i = i + 1;
    }
    assert(entries@.subrange(0, entries@.len() as int) =~= entries@);
    out
}

/// The payload of the tree that lists these children: their entries, without
/// the reserved metadata directory, ordered by name.
pub fn tree_payload(children: &Vec<ChildObject>) -> (r: Vec<u8>)
    requires
        forall|i: int| 0 <= i < children@.len() ==> child_ok(#[trigger] children@[i]),
    ensures
        exists|es: Seq<EntryModel>|
            sorted_by_name(es) && es.to_multiset() == listed(children@).to_multiset()
                && r@ == tree_bytes(es) && parse_tree(r@) == Some(es),
{
    let entries = child_entries(children);
    let sorted = sort_entries(&entries);
    let r = encode_entries(&sorted);
    proof {
        let es = models(sorted@);
        let l = listed(children@);
        lemma_listed_ok(children@);
        assert forall|i: int| 0 <= i < es.len() implies entry_ok(#[trigger] es[i]) by {
            vstd::seq_lib::to_multiset_contains(es, es[i]);
            vstd::seq_lib::to_multiset_contains(l, es[i]);
            assert(es.contains(es[i]));
            let j = choose|j: int| 0 <= j < l.len() && l[j] == es[i];
            assert(entry_ok(l[j]));
        }
        lemma_tree_round_trip(es);
    }
    assert(sorted_by_name(models(sorted@)) && models(sorted@).to_multiset() == listed(
        children@,
    ).to_multiset() && r@ == tree_bytes(models(sorted@)) && parse_tree(r@) == Some(
        models(sorted@),
    ));
    r
}

/// Builds what is written to store the tree that lists these children.
pub fn prepare_tree(children: &Vec<ChildObject>) -> (r: Result<StoredObject, StoreError>)
    requires
        forall|i: int| 0 <= i < children@.len() ==> child_ok(#[trigger] children@[i]),
    ensures
        r is Ok,
        match r {
            Ok(o) => o.address.wf() && exists|es: Seq<EntryModel>|
                sorted_by_name(es) && es.to_multiset() == listed(children@).to_multiset()
                    && parse_tree(tree_bytes(es)) == Some(es)
                    && o.address@ == object_address(ObjectKind::Tree, tree_bytes(es))
                    && o.compressed@ == zlib_compressed(envelope(ObjectKind::Tree, tree_bytes(es)))
                    && zlib_decompressed(o.compressed@) == Some(
                    envelope(ObjectKind::Tree, tree_bytes(es)),
                ),
            Err(e) => e == StoreError::IoError,
        },
{
    let payload = tree_payload(children);
    prepare_object(ObjectKind::Tree, payload.as_slice())
}

/// Two name-ordered sequences of the same entries, where entries that share a
/// name are the same entry, are equal.
pub proof fn lemma_sorted_unique(a: Seq<EntryModel>, b: Seq<EntryModel>)
    requires
        sorted_by_name(a),
        sorted_by_name(b),
        a.to_multiset() == b.to_multiset(),
        names_key(a.to_multiset()),
    ensures
        a == b,
    decreases a.len(),
{
    vstd::seq_lib::to_multiset_len(a);
    vstd::seq_lib::to_multiset_len(b);
    if a.len() == 0 {
        assert(a =~= b);
    } else {
        let x = a[0];
        let y = b[0];
        vstd::seq_lib::to_multiset_contains(a, x);
        vstd::seq_lib::to_multiset_contains(b, y);
        vstd::seq_lib::to_multiset_contains(a, y);
        vstd::seq_lib::to_multiset_contains(b, x);
        let ia = choose|k: int| 0 <= k < a.len() && a[k] == y;
        let ib = choose|k: int| 0 <= k < b.len() && b[k] == x;
        if ia > 0 {
            assert(name_le(a[0].name, a[ia].name));
        } else {
            lemma_name_le_refl(x.name, 0);
        }
        if ib > 0 {
            assert(name_le(b[0].name, b[ib].name));
        } else {
            lemma_name_le_refl(y.name, 0);
        }
        assert(x.name.subrange(0, 0) =~= y.name.subrange(0, 0));
        lemma_name_le_antisym(x.name, y.name, 0);
        assert(x == y);
        vstd::seq_lib::to_multiset_remove(a, 0);
        vstd::seq_lib::to_multiset_remove(b, 0);
        assert(a.remove(0) =~= a.drop_first());
        assert(b.remove(0) =~= b.drop_first());
        let a2 = a.drop_first();
        let b2 = b.drop_first();
        assert forall|p: int, q: int| 0 <= p < q < a2.len() implies name_le(
            a2[p].name,
            a2[q].name,
        ) by {
            assert(a2[p] == a[p + 1] && a2[q] == a[q + 1]);
        }
        assert forall|p: int, q: int| 0 <= p < q < b2.len() implies name_le(
            b2[p].name,
            b2[q].name,
        ) by {
            assert(b2[p] == b[p + 1] && b2[q] == b[q + 1]);
        }
        assert forall|u: EntryModel, v: EntryModel|
            a2.to_multiset().count(u) > 0 && a2.to_multiset().count(v) > 0 && u.name
                == v.name implies u == v by {
            assert(a.to_multiset().count(u) > 0);
            assert(a.to_multiset().count(v) > 0);
        }
        lemma_sorted_unique(a2, b2);
        assert forall|k: int| 0 <= k < a.len() implies a[k] == b[k] by {
            if k > 0 {
                assert(a[k] == a2[k - 1]);
                assert(b[k] == b2[k - 1]);
            }
        }
        assert(a =~= b);
    }
}

/// A tree's payload, and so its address, depend only on which entries it
/// lists, not on the order in which they were collected, when entries that
/// share a name are the same entry.
pub proof fn lemma_tree_order_independent(
    x: Seq<EntryModel>,
    y: Seq<EntryModel>,
    rx: Seq<EntryModel>,
    ry: Seq<EntryModel>,
)
    requires
        x.to_multiset() == y.to_multiset(),
        names_key(x.to_multiset()),
        sorted_by_name(rx),
        rx.to_multiset() == x.to_multiset(),
        sorted_by_name(ry),
        ry.to_multiset() == y.to_multiset(),
    ensures
        rx == ry,
        tree_bytes(rx) == tree_bytes(ry),
        object_address(ObjectKind::Tree, tree_bytes(rx)) == object_address(
            ObjectKind::Tree,
            tree_bytes(ry),
        ),
{
    lemma_sorted_unique(rx, ry);
}

/// Whether no two children share a name.
pub open spec fn names_distinct(cs: Seq<ChildObject>) -> bool {
    forall|i: int, j: int| 0 <= i < j < cs.len() ==> cs[i].name@ != cs[j].name@
}

/// The listed entries after one more child.
pub open spec fn listed_add(m: Multiset<EntryModel>, c: ChildObject) -> Multiset<EntryModel> {
    if c.name@ == reserved_name() {
        m
    } else {
        m.insert(child_entry(c))
    }
}

proof fn lemma_listed_last(cs: Seq<ChildObject>)
    requires
        cs.len() > 0,
    ensures
        listed(cs).to_multiset() == listed_add(listed(cs.drop_last()).to_multiset(), cs.last()),
{
    if cs.last().name@ != reserved_name() {
        vstd::seq_lib::to_multiset_build(listed(cs.drop_last()), child_entry(cs.last()));
    }
}

proof fn lemma_listed_remove(cs: Seq<ChildObject>, k: int)
    requires
        0 <= k < cs.len(),
    ensures
        listed(cs).to_multiset() == listed_add(listed(cs.remove(k)).to_multiset(), cs[k]),
    decreases cs.len(),
{
    lemma_listed_last(cs);
    if k == cs.len() - 1 {
        assert(cs.remove(k) =~= cs.drop_last());
    } else {
        let p = cs.drop_last();
        lemma_listed_remove(p, k);
        let r = cs.remove(k);
        assert(r.drop_last() =~= p.remove(k));
        assert(r.last() == cs.last());
        lemma_listed_last(r);
        let m = listed(p.remove(k)).to_multiset();
        assert(listed_add(listed_add(m, cs[k]), cs.last()) =~= listed_add(
            listed_add(m, cs.last()),
            cs[k],
        ));
    }
}

proof fn lemma_listed_permutation(c1: Seq<ChildObject>, c2: Seq<ChildObject>)
    requires
        c1.to_multiset() == c2.to_multiset(),
    ensures
        listed(c1).to_multiset() == listed(c2).to_multiset(),
    decreases c1.len(),
{
    vstd::seq_lib::to_multiset_len(c1);
    vstd::seq_lib::to_multiset_len(c2);
    if c1.len() == 0 {
        assert(c2 =~= c1);
    } else {
        let x = c1.last();
        let p = c1.drop_last();
        vstd::seq_lib::to_multiset_contains(c1, x);
        vstd::seq_lib::to_multiset_contains(c2, x);
        assert(c1.contains(x)) by {
            assert(c1[c1.len() - 1] == x);
        }
        let k = choose|k: int| 0 <= k < c2.len() && c2[k] == x;
        vstd::seq_lib::to_multiset_remove(c1, c1.len() - 1);
        assert(c1.remove(c1.len() - 1) =~= p);
        vstd::seq_lib::to_multiset_remove(c2, k);
        lemma_listed_permutation(p, c2.remove(k));
        lemma_listed_last(c1);
        lemma_listed_remove(c2, k);
    }
}

proof fn lemma_listed_from(cs: Seq<ChildObject>)
    ensures
        forall|j: int|
            0 <= j < listed(cs).len() ==> exists|i: int|
                0 <= i < cs.len() && #[trigger] listed(cs)[j] == child_entry(cs[i]),
    decreases cs.len(),
{
    if cs.len() > 0 {
        let p = cs.drop_last();
        lemma_listed_from(p);
        let l = listed(cs);
        assert forall|j: int| 0 <= j < l.len() implies exists|i: int|
            0 <= i < cs.len() && #[trigger] l[j] == child_entry(cs[i]) by {
            if j < listed(p).len() {
                assert(l[j] == listed(p)[j]);
                let i = choose|i: int| 0 <= i < p.len() && listed(p)[j] == child_entry(p[i]);
                assert(p[i] == cs[i]);
            } else {
                assert(l[j] == child_entry(cs[cs.len() - 1]));
            }
        }
    }
}

proof fn lemma_listed_names_key(cs: Seq<ChildObject>)
    requires
        names_distinct(cs),
    ensures
        names_key(listed(cs).to_multiset()),
{
    let l = listed(cs);
    lemma_listed_from(cs);
    assert forall|x: EntryModel, y: EntryModel|
        l.to_multiset().count(x) > 0 && l.to_multiset().count(y) > 0 && x.name
            == y.name implies x == y by {
        vstd::seq_lib::to_multiset_contains(l, x);
        vstd::seq_lib::to_multiset_contains(l, y);
        let jx = choose|j: int| 0 <= j < l.len() && l[j] == x;
        let jy = choose|j: int| 0 <= j < l.len() && l[j] == y;
        let ix = choose|i: int| 0 <= i < cs.len() && l[jx] == child_entry(cs[i]);
        let iy = choose|i: int| 0 <= i < cs.len() && l[jy] == child_entry(cs[i]);
        if ix < iy {
            assert(cs[ix].name@ != cs[iy].name@);
        } else if iy < ix {
            assert(cs[iy].name@ != cs[ix].name@);
        }
    }
}

/// The children of a directory, collected in any order, give one tree: when
/// no two children share a name, every name-ordered arrangement of their
/// listed entries is the same, and so is the tree's payload and address.
/// Collecting the same children twice is the case of equal orders.
pub proof fn lemma_children_order_independent(
    c1: Seq<ChildObject>,
    c2: Seq<ChildObject>,
    es1: Seq<EntryModel>,
    es2: Seq<EntryModel>,
)
    requires
        c1.to_multiset() == c2.to_multiset(),
        names_distinct(c1),
        sorted_by_name(es1),
        es1.to_multiset() == listed(c1).to_multiset(),
        sorted_by_name(es2),
        es2.to_multiset() == listed(c2).to_multiset(),
    ensures
        es1 == es2,
        tree_bytes(es1) == tree_bytes(es2),
        object_address(ObjectKind::Tree, tree_bytes(es1)) == object_address(
            ObjectKind::Tree,
            tree_bytes(es2),
        ),
{
    lemma_listed_permutation(c1, c2);
    lemma_listed_names_key(c1);
    lemma_sorted_unique(es1, es2);
}

} // verus!
