//! Tree entries, the canonical tree order, and the tree payload format.
//!
//! Entries are sorted by byte-wise comparison of their names, where a
//! directory entry is ordered as if its name ended in a path separator.
//! This order is load-bearing: it makes tree payloads, and hence every
//! ancestor digest, reproducible.

use vstd::prelude::*;

use crate::errors::StoreError;
use crate::mode::{mode_bytes, Mode};

verus! {

/// One entry of a tree object: a mode, a name, and the digest of the
/// object the entry points at.
pub struct TreeEntry {
    pub mode: Mode,
    pub name: Vec<u8>,
    pub digest: [u8; 20],
}

/// The mathematical shadow of an entry.
pub struct EntryV {
    pub mode: Mode,
    pub name: Seq<u8>,
    pub digest: Seq<u8>,
}

impl View for TreeEntry {
    type V = EntryV;

    open spec fn view(&self) -> EntryV {
        EntryV { mode: self.mode, name: self.name@, digest: self.digest@ }
    }
}

/// The views of a run of entries.
pub open spec fn views(s: Seq<TreeEntry>) -> Seq<EntryV> {
    s.map_values(|e: TreeEntry| e@)
}

/// A usable entry name: nonempty, and free of NUL (the entry terminator)
/// and of the path separator, neither of which a filesystem name can carry.
pub open spec fn valid_name(name: Seq<u8>) -> bool {
    name.len() > 0 && forall|i: int| 0 <= i < name.len() ==> #[trigger] name[i] != 0 && name[i]
        != 47
}

impl EntryV {
    pub open spec fn wf(&self) -> bool {
        valid_name(self.name) && self.digest.len() == 20
    }
}

/// The key an entry is ordered by: its name, with a trailing separator
/// byte when the entry is a directory.
pub open spec fn sort_key(e: EntryV) -> Seq<u8> {
    if e.mode is Directory {
        e.name.push(47u8)
    } else {
        e.name
    }
}

/// Byte-wise lexicographic order: at the first differing byte the smaller
/// byte wins, and a sequence that runs out first comes first.
pub open spec fn lex_le(a: Seq<u8>, b: Seq<u8>) -> bool
    decreases a.len(),
{
    if a.len() == 0 {
        true
    } else if b.len() == 0 {
        false
    } else if a[0] < b[0] {
        true
    } else if a[0] > b[0] {
        false
    } else {
        lex_le(a.drop_first(), b.drop_first())
    }
}

/// Any two byte sequences are comparable.
pub proof fn lemma_lex_le_total(a: Seq<u8>, b: Seq<u8>)
    ensures
        lex_le(a, b) || lex_le(b, a),
    decreases a.len(),
{
    if a.len() > 0 && b.len() > 0 && a[0] == b[0] {
        lemma_lex_le_total(a.drop_first(), b.drop_first());
    }
}

/// Sequences below each other are equal.
pub proof fn lemma_lex_le_antisym(a: Seq<u8>, b: Seq<u8>)
    requires
        lex_le(a, b),
        lex_le(b, a),
    ensures
        a == b,
    decreases a.len(),
{
    if a.len() == 0 {
        assert(b.len() == 0);
        assert(a =~= b);
    } else {
        assert(b.len() > 0);
        assert(a[0] == b[0]);
        assert(lex_le(a.drop_first(), b.drop_first()));
        assert(lex_le(b.drop_first(), a.drop_first()));
        lemma_lex_le_antisym(a.drop_first(), b.drop_first());
        assert(a.drop_first() == b.drop_first());
        assert(a.len() == b.len());
        assert forall|i: int| 0 <= i < a.len() implies a[i] == b[i] by {
            if i > 0 {
                assert(a.drop_first()[i - 1] == a[i]);
                assert(b.drop_first()[i - 1] == b[i]);
            }
        }
        assert(a =~= b);
    }
}

/// The order is transitive.
pub proof fn lemma_lex_le_trans(a: Seq<u8>, b: Seq<u8>, c: Seq<u8>)
    requires
        lex_le(a, b),
        lex_le(b, c),
    ensures
        lex_le(a, c),
    decreases a.len(),
{
    if a.len() > 0 && b.len() > 0 && c.len() > 0 && a[0] == b[0] && b[0] == c[0] {
        lemma_lex_le_trans(a.drop_first(), b.drop_first(), c.drop_first());
    }
}

/// Tree order on entries: their sort keys compared lexicographically.
pub open spec fn entry_le(a: EntryV, b: EntryV) -> bool {
    lex_le(sort_key(a), sort_key(b))
}

/// Whether a run of entries is in tree order.
pub open spec fn entries_sorted(s: Seq<EntryV>) -> bool {
    forall|i: int, j: int| 0 <= i < j < s.len() ==> entry_le(s[i], s[j])
}

/// Where a key belongs in a sorted run of entries: the first position whose
/// entry does not come strictly before the key.
pub open spec fn insert_pos(key: Seq<u8>, s: Seq<EntryV>) -> int
    decreases s.len(),
{
    if s.len() == 0 {
        0
    } else if lex_le(key, sort_key(s[0])) {
        0
    } else {
        1 + insert_pos(key, s.drop_first())
    }
}

/// A run with one entry placed at its insertion position.
pub open spec fn insert_sorted(e: EntryV, s: Seq<EntryV>) -> Seq<EntryV> {
    s.insert(insert_pos(sort_key(e), s), e)
}

/// The result of sorting entries into tree order, one insertion at a time.
pub open spec fn sort_entries_spec(s: Seq<EntryV>) -> Seq<EntryV>
    decreases s.len(),
{
    if s.len() == 0 {
        Seq::empty()
    } else {
        insert_sorted(s.last(), sort_entries_spec(s.drop_last()))
    }
}

/// The insertion position is within bounds, everything before it is
/// strictly earlier than the key, and the entry at it (if any) is not.
proof fn lemma_insert_pos_props(key: Seq<u8>, s: Seq<EntryV>)
    ensures
        0 <= insert_pos(key, s) <= s.len(),
        forall|j: int| 0 <= j < insert_pos(key, s) ==> !lex_le(key, sort_key(s[j])),
        insert_pos(key, s) < s.len() ==> lex_le(key, sort_key(s[insert_pos(key, s)])),
    decreases s.len(),
{
    if s.len() > 0 && !lex_le(key, sort_key(s[0])) {
        lemma_insert_pos_props(key, s.drop_first());
        let p = insert_pos(key, s);
        assert forall|j: int| 0 <= j < p implies !lex_le(key, sort_key(s[j])) by {
            if j > 0 {
                assert(s.drop_first()[j - 1] == s[j]);
            }
        }
        if p < s.len() {
            assert(s.drop_first()[p - 1] == s[p]);
        }
    }
}

/// Any position with the same characterization is the insertion position.
proof fn lemma_insert_pos_unique(key: Seq<u8>, s: Seq<EntryV>, p: int)
    requires
        0 <= p <= s.len(),
        forall|j: int| 0 <= j < p ==> !lex_le(key, sort_key(s[j])),
        p < s.len() ==> lex_le(key, sort_key(s[p])),
    ensures
        p == insert_pos(key, s),
    decreases s.len(),
{
    if s.len() == 0 {
    } else if lex_le(key, sort_key(s[0])) {
        if p > 0 {
            assert(!lex_le(key, sort_key(s[0])));
        }
    } else {
        assert(p > 0);
        assert forall|j: int| 0 <= j < p - 1 implies !lex_le(key, sort_key(s.drop_first()[j])) by {
            assert(s.drop_first()[j] == s[j + 1]);
        }
        if p - 1 < s.drop_first().len() {
            assert(s.drop_first()[p - 1] == s[p]);
        }
        lemma_insert_pos_unique(key, s.drop_first(), p - 1);
    }
}

/// Inserting into a sorted run keeps it sorted and adds exactly the new
/// entry to its contents.
pub proof fn lemma_insert_sorted_props(e: EntryV, s: Seq<EntryV>)
    requires
        entries_sorted(s),
    ensures
        entries_sorted(insert_sorted(e, s)),
        insert_sorted(e, s).len() == s.len() + 1,
        insert_sorted(e, s).to_multiset() == s.to_multiset().insert(e),
{
    broadcast use vstd::multiset::group_multiset_axioms;

    let key = sort_key(e);
    let p = insert_pos(key, s);
    lemma_insert_pos_props(key, s);
    let r = s.insert(p, e);
    s.insert_ensures(p, e);
    assert forall|i: int, j: int| 0 <= i < j < r.len() implies entry_le(r[i], r[j]) by {
        if i < p && j < p {
            assert(r[i] == s[i] && r[j] == s[j]);
        } else if i < p && j == p {
            assert(r[i] == s[i]);
            lemma_lex_le_total(key, sort_key(s[i]));
        } else if i < p && j > p {
            assert(r[i] == s[i] && r[j] == s[j - 1]);
        } else if i == p && j > p {
            assert(r[j] == s[j - 1]);
            assert(lex_le(key, sort_key(s[p])));
            if j - 1 > p {
                assert(entry_le(s[p], s[j - 1]));
                lemma_lex_le_trans(key, sort_key(s[p]), sort_key(s[j - 1]));
            }
        } else {
            assert(r[i] == s[i - 1] && r[j] == s[j - 1]);
        }
    }
    assert(r.remove(p) =~= s) by {
        r.remove_ensures(p);
    }
    r.to_multiset_ensures();
    vstd::seq_lib::to_multiset_remove(r, p);
    assert(r.to_multiset().remove(e) == s.to_multiset());
    assert(r.contains(e)) by {
        assert(r[p] == e);
    }
    assert(r.to_multiset().count(e) > 0);
    assert(r.to_multiset() =~= s.to_multiset().insert(e)) by {
        assert forall|x: EntryV| r.to_multiset().count(x) == s.to_multiset().insert(e).count(
            x,
        ) by {
            if x == e {
                assert(s.to_multiset().count(e) == r.to_multiset().remove(e).count(e));
            } else {
                assert(s.to_multiset().count(x) == r.to_multiset().remove(e).count(x));
            }
        }
    }
}

/// Sorting yields a sorted run with exactly the input's contents.
pub proof fn lemma_sort_entries_spec_props(s: Seq<EntryV>)
    ensures
        entries_sorted(sort_entries_spec(s)),
        sort_entries_spec(s).len() == s.len(),
        sort_entries_spec(s).to_multiset() == s.to_multiset(),
    decreases s.len(),
{
    broadcast use vstd::multiset::group_multiset_axioms;

    if s.len() == 0 {
        s.to_multiset_ensures();
        sort_entries_spec(s).to_multiset_ensures();
        assert(s.to_multiset() =~= sort_entries_spec(s).to_multiset()) by {
            assert(s.to_multiset().len() == 0);
            assert(sort_entries_spec(s).to_multiset().len() == 0);
        }
    } else {
        lemma_sort_entries_spec_props(s.drop_last());
        lemma_insert_sorted_props(s.last(), sort_entries_spec(s.drop_last()));
        s.drop_last().to_multiset_ensures();
        assert(s.drop_last().push(s.last()) =~= s);
        assert(s.drop_last().push(s.last()).to_multiset() =~= s.drop_last().to_multiset().insert(
            s.last(),
        ));
    }
}

/// Tree order pins the layout: two sorted runs holding exactly the same
/// entries, no two of which share a sort key, are the same run. Two
/// independent builds of an unchanged directory therefore serialize to
/// byte-identical payloads.
pub proof fn lemma_sorted_unique(s1: Seq<EntryV>, s2: Seq<EntryV>)
    requires
        entries_sorted(s1),
        entries_sorted(s2),
        s1.to_multiset() == s2.to_multiset(),
        forall|i: int, j: int|
            0 <= i < j < s1.len() ==> sort_key(#[trigger] s1[i]) != sort_key(#[trigger] s1[j]),
    ensures
        s1 == s2,
    decreases s1.len(),
{
    broadcast use vstd::multiset::group_multiset_axioms;

    s1.to_multiset_ensures();
    s2.to_multiset_ensures();
    assert(s1.len() == s2.len());
    if s1.len() == 0 {
        assert(s1 =~= s2);
    } else {
        assert(s1.contains(s1[0]));
        assert(s1.to_multiset().count(s1[0]) > 0);
        assert(s2.contains(s1[0]));
        let j = choose|j: int| 0 <= j < s2.len() && s2[j] == s1[0];
        assert(s2.contains(s2[0]));
        assert(s2.to_multiset().count(s2[0]) > 0);
        assert(s1.to_multiset().count(s2[0]) > 0);
        assert(s1.contains(s2[0]));
        let m = choose|m: int| 0 <= m < s1.len() && s1[m] == s2[0];
        assert(lex_le(sort_key(s1[0]), sort_key(s2[0]))) by {
            if m > 0 {
                assert(entry_le(s1[0], s1[m]));
            } else {
                lemma_lex_le_total(sort_key(s1[0]), sort_key(s1[0]));
            }
        }
        assert(lex_le(sort_key(s2[0]), sort_key(s1[0]))) by {
            if j > 0 {
                assert(entry_le(s2[0], s2[j]));
            } else {
                lemma_lex_le_total(sort_key(s2[0]), sort_key(s2[0]));
            }
        }
        lemma_lex_le_antisym(sort_key(s1[0]), sort_key(s2[0]));
        assert(s1[0] == s2[0]) by {
            if m != 0 {
                assert(sort_key(s1[0]) != sort_key(s1[m]));
            }
        }
        let t1 = s1.drop_first();
        let t2 = s2.drop_first();
        assert(t1.to_multiset() == t2.to_multiset()) by {
            assert(s1.remove(0) =~= t1);
            assert(s2.remove(0) =~= t2);
            vstd::seq_lib::to_multiset_remove(s1, 0);
            vstd::seq_lib::to_multiset_remove(s2, 0);
        }
        assert(entries_sorted(t1) && entries_sorted(t2)) by {
            assert(forall|i: int, j: int|
                0 <= i < j < t1.len() ==> t1[i] == s1[i + 1] && t1[j] == s1[j + 1]);
            assert(forall|i: int, j: int|
                0 <= i < j < t2.len() ==> t2[i] == s2[i + 1] && t2[j] == s2[j + 1]);
        }
        assert forall|i: int, j: int| 0 <= i < j < t1.len() implies sort_key(#[trigger] t1[i])
            != sort_key(#[trigger] t1[j]) by {
            assert(t1[i] == s1[i + 1] && t1[j] == s1[j + 1]);
            assert(sort_key(s1[i + 1]) != sort_key(s1[j + 1]));
        }
        lemma_sorted_unique(t1, t2);
        assert forall|i: int| 0 <= i < s1.len() implies s1[i] == s2[i] by {
            if i > 0 {
                assert(t1[i - 1] == s1[i] && t2[i - 1] == s2[i]);
            }
        }
        assert(s1 =~= s2);
    }
}

/// The key of an entry, built for comparison.
fn entry_key(e: &TreeEntry) -> (r: Vec<u8>)
    ensures
        r@ == sort_key(e@),
{
    let mut k: Vec<u8> = Vec::new();
    let mut i: usize = 0;
    while i < e.name.len()
        invariant
            i <= e.name@.len(),
            k@ == e.name@.subrange(0, i as int),
        decreases e.name@.len() - i,
    {
        k.push(e.name[i]);
        proof {
            assert(e.name@.subrange(0, i as int).push(e.name@[i as int]) =~= e.name@.subrange(
                0,
                i + 1,
            ));
        }
        i = i + 1;
    }
    proof {
        assert(e.name@.subrange(0, e.name@.len() as int) =~= e.name@);
    }
    if e.mode.is_dir() {
        k.push(47);
    }
    k
}

/// Compares two keys in byte-wise lexicographic order.
fn key_le(a: &Vec<u8>, b: &Vec<u8>) -> (r: bool)
    ensures
        r == lex_le(a@, b@),
{
    proof {
        assert(a@.skip(0) =~= a@);
        assert(b@.skip(0) =~= b@);
    }
    let mut i: usize = 0;
    loop
        invariant
            i <= a@.len(),
            i <= b@.len(),
            lex_le(a@, b@) == lex_le(a@.skip(i as int), b@.skip(i as int)),
        decreases a@.len() - i,
    {
        if i == a.len() {
            return true;
        }
        if i == b.len() {
            return false;
        }
        let x = a[i];
        let y = b[i];
        proof {
            assert(a@.skip(i as int)[0] == a@[i as int]);
            assert(b@.skip(i as int)[0] == b@[i as int]);
            assert(a@.skip(i as int).drop_first() =~= a@.skip(i + 1));
            assert(b@.skip(i as int).drop_first() =~= b@.skip(i + 1));
        }
        if x < y {
            return true;
        }
        if x > y {
            return false;
        }
        i = i + 1;
    }
}

/// Finds where a key belongs in a sorted run of entries.
fn find_insert_pos(v: &Vec<TreeEntry>, key: &Vec<u8>) -> (r: usize)
    ensures
        r as int == insert_pos(key@, views(v@)),
{
    let mut i: usize = 0;
    while i < v.len()
        invariant
            i <= v@.len(),
            forall|j: int| 0 <= j < i ==> !lex_le(key@, sort_key(views(v@)[j])),
        decreases v@.len() - i,
    {
        let ki = entry_key(&v[i]);
        proof {
            assert(views(v@)[i as int] == v@[i as int]@);
        }
        if key_le(key, &ki) {
            proof {
                lemma_insert_pos_unique(key@, views(v@), i as int);
            }
            return i;
        }
        i = i + 1;
    }
    proof {
        lemma_insert_pos_unique(key@, views(v@), i as int);
    }
    i
}

/// The views of a run, with one entry inserted, are the views with the
/// entry's view inserted.
proof fn lemma_views_insert(s: Seq<TreeEntry>, p: int, e: TreeEntry)
    requires
        0 <= p <= s.len(),
    ensures
        views(s.insert(p, e)) =~= views(s).insert(p, e@),
{
    s.insert_ensures(p, e);
    views(s).insert_ensures(p, e@);
}

/// Places an entry at its position in a sorted run of entries.
fn insert_entry(v: &mut Vec<TreeEntry>, e: TreeEntry)
    ensures
        views(final(v)@) == insert_sorted(e@, views(old(v)@)),
{
    let key = entry_key(&e);
    let i = find_insert_pos(v, &key);
    proof {
        lemma_insert_pos_props(key@, views(v@));
    }
    v.insert(i, e);
    proof {
        lemma_views_insert(old(v)@, i as int, e);
    }
}

/// Sorts entries into tree order.
pub fn sort_entries(entries: Vec<TreeEntry>) -> (r: Vec<TreeEntry>)
    ensures
        views(r@) == sort_entries_spec(views(entries@)),
{
    let ghost orig = entries@;
    let mut rest = entries;
    let mut r: Vec<TreeEntry> = Vec::new();
    let ghost mut i: int = 0;
    while rest.len() > 0
        invariant
            0 <= i <= orig.len(),
            rest@ == orig.skip(i),
            views(r@) == sort_entries_spec(views(orig.take(i))),
        decreases orig.len() - i,
    {
        let e = rest.remove(0);
        proof {
            assert(e == orig[i]) by {
                assert(orig.skip(i)[0] == orig[i]);
            }
            assert(rest@ =~= orig.skip(i + 1)) by {
                assert(orig.skip(i).remove(0) =~= orig.skip(i + 1));
            }
        }
        insert_entry(&mut r, e);
        proof {
            assert(views(orig.take(i + 1)).drop_last() =~= views(orig.take(i)));
            assert(views(orig.take(i + 1)).last() == orig[i]@);
            i = i + 1;
        }
    }
    proof {
        assert(orig.take(i) =~= orig);
    }
    r
}

/// The serialized form of one entry: the mode bytes, a space, the name, a
/// NUL, then the raw twenty-byte digest.
pub open spec fn entry_rep(e: EntryV) -> Seq<u8> {
    mode_bytes(e.mode) + seq![32u8] + e.name + seq![0u8] + e.digest
}

/// The payload of a tree object: its entries' serialized forms, one after
/// the other.
pub open spec fn tree_rep(s: Seq<EntryV>) -> Seq<u8>
    decreases s.len(),
{
    if s.len() == 0 {
        Seq::empty()
    } else {
        tree_rep(s.drop_last()) + entry_rep(s.last())
    }
}

/// Serializes entries, in the order given, into a tree payload.
pub fn serialize_tree(entries: &Vec<TreeEntry>) -> (r: Vec<u8>)
    ensures
        r@ == tree_rep(views(entries@)),
{
    let mut r: Vec<u8> = Vec::new();
    let mut i: usize = 0;
    while i < entries.len()
        invariant
            i <= entries@.len(),
            r@ == tree_rep(views(entries@).take(i as int)),
        decreases entries@.len() - i,
    {
        let ghost prefix = tree_rep(views(entries@).take(i as int));
        let e = &entries[i];
        let mut mb = e.mode.to_bytes();
        r.append(&mut mb);
        r.push(32);
        let mut j: usize = 0;
        while j < e.name.len()
            invariant
                j <= e.name@.len(),
                e == &entries@[i as int],
                r@ == prefix + mode_bytes(e.mode) + seq![32u8] + e.name@.take(j as int),
            decreases e.name@.len() - j,
        {
            r.push(e.name[j]);
            proof {
                assert(e.name@.take(j as int).push(e.name@[j as int]) =~= e.name@.take(j + 1));
                assert(r@ =~= prefix + mode_bytes(e.mode) + seq![32u8] + e.name@.take(j + 1));
            }
            j = j + 1;
        }
        proof {
            assert(e.name@.take(e.name@.len() as int) =~= e.name@);
        }
        r.push(0);
        let mut d: usize = 0;
        while d < 20
            invariant
                d <= 20,
                e == &entries@[i as int],
                r@ == prefix + mode_bytes(e.mode) + seq![32u8] + e.name@ + seq![0u8]
                    + e.digest@.take(d as int),
            decreases 20 - d,
        {
            r.push(e.digest[d]);
            proof {
                assert(e.digest@.take(d as int).push(e.digest@[d as int]) =~= e.digest@.take(
                    d + 1,
                ));
                assert(r@ =~= prefix + mode_bytes(e.mode) + seq![32u8] + e.name@ + seq![0u8]
                    + e.digest@.take(d + 1));
            }
            d = d + 1;
        }
        proof {
            assert(e.digest@.take(20) =~= e.digest@);
            assert(views(entries@).take(i + 1).drop_last() =~= views(entries@).take(i as int));
            assert(views(entries@).take(i + 1).last() == entries@[i as int]@);
            assert(r@ =~= tree_rep(views(entries@).take(i + 1)));
        }
        i = i + 1;
    }
    proof {
        assert(views(entries@).take(entries@.len() as int) =~= views(entries@));
    }
    r
}

/// A run of well-formed entries.
pub open spec fn wf_entries(es: Seq<EntryV>) -> bool {
    forall|i: int| 0 <= i < es.len() ==> (#[trigger] es[i]).wf()
}

/// The mode whose six-byte encoding a sequence spells, if any.
pub open spec fn mode_of_bytes(s: Seq<u8>) -> Option<Mode> {
    if s == mode_bytes(Mode::File) {
        Some(Mode::File)
    } else if s == mode_bytes(Mode::Executable) {
        Some(Mode::Executable)
    } else if s == mode_bytes(Mode::Directory) {
        Some(Mode::Directory)
    } else if s == mode_bytes(Mode::SymbolicLink) {
        Some(Mode::SymbolicLink)
    } else {
        None
    }
}

/// Every mode is recovered from its own encoding.
proof fn lemma_mode_of_bytes_id(m: Mode)
    ensures
        mode_of_bytes(mode_bytes(m)) == Some(m),
{
    match m {
        Mode::File => {},
        Mode::Executable => {
            assert(mode_bytes(Mode::Executable)[3] != mode_bytes(Mode::File)[3]);
        },
        Mode::Directory => {
            assert(mode_bytes(Mode::Directory)[0] != mode_bytes(Mode::File)[0]);
            assert(mode_bytes(Mode::Directory)[0] != mode_bytes(Mode::Executable)[0]);
        },
        Mode::SymbolicLink => {
            assert(mode_bytes(Mode::SymbolicLink)[1] != mode_bytes(Mode::File)[1]);
            assert(mode_bytes(Mode::SymbolicLink)[1] != mode_bytes(Mode::Executable)[1]);
            assert(mode_bytes(Mode::SymbolicLink)[1] != mode_bytes(Mode::Directory)[1]);
        },
    }
}

/// The bytes of one serialized entry, position by position.
proof fn lemma_entry_rep_index(h: EntryV)
    requires
        h.digest.len() == 20,
    ensures
        mode_bytes(h.mode).len() == 6,
        entry_rep(h).len() == 28 + h.name.len(),
        forall|j: int| 0 <= j < 6 ==> entry_rep(h)[j] == mode_bytes(h.mode)[j],
        entry_rep(h)[6] == 32,
        forall|j: int| 0 <= j < h.name.len() ==> entry_rep(h)[7 + j] == h.name[j],
        entry_rep(h)[7 + h.name.len() as int] == 0,
        forall|j: int|
            0 <= j < h.digest.len() ==> entry_rep(h)[8 + h.name.len() + j] == h.digest[j],
{
    assert(mode_bytes(h.mode).len() == 6) by {
        match h.mode {
            Mode::File => {},
            Mode::Executable => {},
            Mode::Directory => {},
            Mode::SymbolicLink => {},
        }
    }
    assert(entry_rep(h).len() == 6 + 1 + h.name.len() + 1 + h.digest.len());
}

/// One serialized entry, followed by anything, decomposes only one way.
proof fn lemma_entry_rep_unambiguous(e1: EntryV, t1: Seq<u8>, e2: EntryV, t2: Seq<u8>)
    requires
        e1.wf(),
        e2.wf(),
        entry_rep(e1) + t1 == entry_rep(e2) + t2,
    ensures
        e1 == e2,
        t1 == t2,
{
    let s = entry_rep(e1) + t1;
    lemma_entry_rep_index(e1);
    lemma_entry_rep_index(e2);
    let n1 = e1.name.len() as int;
    let n2 = e2.name.len() as int;
    assert forall|j: int| 0 <= j < entry_rep(e1).len() implies s[j] == entry_rep(e1)[j] by {}
    assert forall|j: int| 0 <= j < entry_rep(e2).len() implies s[j] == entry_rep(e2)[j] by {
        assert(s == entry_rep(e2) + t2);
    }
    assert(n1 == n2) by {
        if n1 < n2 {
            assert(s[7 + n1] == 0);
            assert(s[7 + n1] == e2.name[n1]);
            assert(e2.name[n1] != 0);
        } else if n2 < n1 {
            assert(s[7 + n2] == 0);
            assert(s[7 + n2] == e1.name[n2]);
            assert(e1.name[n2] != 0);
        }
    }
    assert(mode_bytes(e1.mode) =~= mode_bytes(e2.mode)) by {
        assert forall|j: int| 0 <= j < 6 implies mode_bytes(e1.mode)[j] == mode_bytes(
            e2.mode,
        )[j] by {
            assert(s[j] == entry_rep(e1)[j]);
            assert(s[j] == entry_rep(e2)[j]);
        }
    }
    assert(e1.mode == e2.mode) by {
        lemma_mode_of_bytes_id(e1.mode);
        lemma_mode_of_bytes_id(e2.mode);
    }
    assert(e1.name =~= e2.name) by {
        assert forall|j: int| 0 <= j < n1 implies e1.name[j] == e2.name[j] by {
            assert(s[7 + j] == e1.name[j]);
            assert(s[7 + j] == e2.name[j]);
        }
    }
    assert(e1.digest =~= e2.digest) by {
        assert forall|j: int| 0 <= j < 20 implies e1.digest[j] == e2.digest[j] by {
            assert(s[8 + n1 + j] == e1.digest[j]);
            assert(s[8 + n2 + j] == e2.digest[j]);
        }
    }
    assert(e1 == e2);
    assert(t1 =~= t2) by {
        assert(entry_rep(e1).len() == entry_rep(e2).len());
        assert((entry_rep(e1) + t1) == (entry_rep(e2) + t2));
        assert((entry_rep(e1) + t1).len() == entry_rep(e1).len() + t1.len());
        assert((entry_rep(e2) + t2).len() == entry_rep(e2).len() + t2.len());
        assert((entry_rep(e1) + t1).len() == (entry_rep(e2) + t2).len());
        assert(t1.len() == t2.len());
        let l = entry_rep(e1).len() as int;
        assert forall|j: int| 0 <= j < t1.len() implies t1[j] == t2[j] by {
            assert((entry_rep(e1) + t1)[l + j] == t1[j]);
            assert((entry_rep(e2) + t2)[l + j] == t2[j]);
            assert((entry_rep(e1) + t1)[l + j] == (entry_rep(e2) + t2)[l + j]);
        }
    }
}

/// The facts a decomposition `payload[q..] == entry_rep(h) + t` forces on
/// the bytes at and after `q`.
proof fn lemma_rest_facts(payload: Seq<u8>, q: int, h: EntryV, t: Seq<u8>)
    requires
        0 <= q <= payload.len(),
        h.wf(),
        payload.skip(q) == entry_rep(h) + t,
    ensures
        payload.len() - q >= 28 + h.name.len(),
        payload.len() - q >= 29,
        mode_of_bytes(payload.subrange(q, q + 6)) == Some(h.mode),
        payload[q + 6] == 32,
        forall|j: int| 0 <= j < h.name.len() ==> payload[q + 7 + j] == h.name[j],
        forall|j: int|
            0 <= j < h.name.len() ==> #[trigger] payload[q + 7 + j] != 0 && payload[q + 7 + j]
                != 47,
        payload[q + 7 + h.name.len() as int] == 0,
        forall|j: int| 0 <= j < 20 ==> payload[q + 8 + h.name.len() + j] == h.digest[j],
{
    lemma_entry_rep_index(h);
    let rest = payload.skip(q);
    assert(rest.len() == payload.len() - q);
    assert forall|j: int| 0 <= j < rest.len() implies rest[j] == payload[q + j] by {}
    assert forall|j: int| 0 <= j < entry_rep(h).len() implies rest[j] == entry_rep(h)[j] by {
        assert(rest == entry_rep(h) + t);
    }
    assert(payload.subrange(q, q + 6) =~= mode_bytes(h.mode)) by {
        assert forall|j: int| 0 <= j < 6 implies payload.subrange(q, q + 6)[j] == mode_bytes(
            h.mode,
        )[j] by {
            assert(rest[j] == entry_rep(h)[j]);
        }
    }
    lemma_mode_of_bytes_id(h.mode);
    assert(payload[q + 6] == 32) by {
        assert(rest[6] == entry_rep(h)[6]);
    }
    assert forall|j: int| 0 <= j < h.name.len() implies payload[q + 7 + j] == h.name[j] by {
        assert(rest[7 + j] == entry_rep(h)[7 + j]);
    }
    assert forall|j: int| 0 <= j < h.name.len() implies #[trigger] payload[q + 7 + j] != 0
        && payload[q + 7 + j] != 47 by {
        assert(payload[q + 7 + j] == h.name[j]);
        assert(h.name[j] != 0 && h.name[j] != 47);
    }
    assert(payload[q + 7 + h.name.len() as int] == 0) by {
        assert(rest[7 + h.name.len() as int] == entry_rep(h)[7 + h.name.len() as int]);
    }
    assert forall|j: int| 0 <= j < 20 implies payload[q + 8 + h.name.len() + j]
        == h.digest[j] by {
        assert(rest[8 + h.name.len() + j] == entry_rep(h)[8 + h.name.len() + j]);
    }
}

/// Reads the six mode bytes at `q`.
fn mode_at(payload: &Vec<u8>, q: usize) -> (r: Option<Mode>)
    requires
        q + 6 <= payload@.len(),
    ensures
        r == mode_of_bytes(payload@.subrange(q as int, q as int + 6)),
{
    let len = payload.len();
    proof {
        assert(payload@.len() == len);
    }
    let ghost s = payload@.subrange(q as int, q as int + 6);
    let b0 = payload[q];
    let b1 = payload[q + 1];
    let b2 = payload[q + 2];
    let b3 = payload[q + 3];
    let b4 = payload[q + 4];
    let b5 = payload[q + 5];
    if b0 == 49 && b1 == 48 && b2 == 48 && b3 == 54 && b4 == 52 && b5 == 52 {
        proof {
            assert(s =~= mode_bytes(Mode::File));
        }
        Some(Mode::File)
    } else if b0 == 49 && b1 == 48 && b2 == 48 && b3 == 55 && b4 == 53 && b5 == 53 {
        proof {
            assert(s =~= mode_bytes(Mode::Executable));
            assert(s != mode_bytes(Mode::File));
        }
        Some(Mode::Executable)
    } else if b0 == 48 && b1 == 52 && b2 == 48 && b3 == 48 && b4 == 48 && b5 == 48 {
        proof {
            assert(s =~= mode_bytes(Mode::Directory));
            assert(s != mode_bytes(Mode::File));
            assert(s != mode_bytes(Mode::Executable));
        }
        Some(Mode::Directory)
    } else if b0 == 49 && b1 == 50 && b2 == 48 && b3 == 48 && b4 == 48 && b5 == 48 {
        proof {
            assert(s =~= mode_bytes(Mode::SymbolicLink));
            assert(s != mode_bytes(Mode::File));
            assert(s != mode_bytes(Mode::Executable));
            assert(s != mode_bytes(Mode::Directory));
        }
        Some(Mode::SymbolicLink)
    } else {
        proof {
            if s == mode_bytes(Mode::File) {
                assert(s[0] == 49 && s[1] == 48 && s[2] == 48 && s[3] == 54 && s[4] == 52 && s[5]
                    == 52);
                assert(false);
            }
            if s == mode_bytes(Mode::Executable) {
                assert(s[0] == 49 && s[1] == 48 && s[2] == 48 && s[3] == 55 && s[4] == 53 && s[5]
                    == 53);
                assert(false);
            }
            if s == mode_bytes(Mode::Directory) {
                assert(s[0] == 48 && s[1] == 52 && s[2] == 48 && s[3] == 48 && s[4] == 48 && s[5]
                    == 48);
                assert(false);
            }
            if s == mode_bytes(Mode::SymbolicLink) {
                assert(s[0] == 49 && s[1] == 50 && s[2] == 48 && s[3] == 48 && s[4] == 48 && s[5]
                    == 48);
                assert(false);
            }
        }
        None
    }
}

/// Reads one serialized entry starting at `q`. On success the bytes
/// `q .. q2` are exactly the entry's serialized form; on failure no
/// well-formed entry starts at `q`.
fn parse_entry(payload: &Vec<u8>, q: usize) -> (r: Result<(TreeEntry, usize), StoreError>)
    requires
        q < payload@.len(),
    ensures
        (r matches Ok(p) ==> q < p.1 <= payload@.len() && payload@.subrange(q as int, p.1 as int)
            == entry_rep(p.0@) && p.0@.wf()),
        r matches Err(e) ==> e == StoreError::CorruptHeader,
        r is Err ==> forall|h: EntryV, t: Seq<u8>|
            h.wf() ==> payload@.skip(q as int) != entry_rep(h) + t,
{
    let len = payload.len();
    if len - q < 29 {
        proof {
            assert forall|h: EntryV, t: Seq<u8>| h.wf() implies payload@.skip(q as int)
                != entry_rep(h) + t by {
                if payload@.skip(q as int) == entry_rep(h) + t {
                    lemma_rest_facts(payload@, q as int, h, t);
                }
            }
        }
        return Err(StoreError::CorruptHeader);
    }
    let m = match mode_at(payload, q) {
        Some(m) => m,
        None => {
            proof {
                assert forall|h: EntryV, t: Seq<u8>| h.wf() implies payload@.skip(q as int)
                    != entry_rep(h) + t by {
                    if payload@.skip(q as int) == entry_rep(h) + t {
                        lemma_rest_facts(payload@, q as int, h, t);
                    }
                }
            }
            return Err(StoreError::CorruptHeader);
        },
    };
    if payload[q + 6] != 32 {
        proof {
            assert forall|h: EntryV, t: Seq<u8>| h.wf() implies payload@.skip(q as int)
                != entry_rep(h) + t by {
                if payload@.skip(q as int) == entry_rep(h) + t {
                    lemma_rest_facts(payload@, q as int, h, t);
                }
            }
        }
        return Err(StoreError::CorruptHeader);
    }
    let mut j: usize = q + 7;
    let mut found = false;
    while !found && j < len
        invariant
            q + 7 <= j <= len,
            len == payload@.len(),
            forall|t: int| q + 7 <= t < j ==> payload@[t] != 0 && payload@[t] != 47,
            found ==> j < len && payload@[j as int] == 0,
        decreases len - j + (if found {
            0int
        } else {
            1int
        }),
    {
        if payload[j] == 0 {
            found = true;
        } else if payload[j] == 47 {
            proof {
                assert forall|h: EntryV, t: Seq<u8>| h.wf() implies payload@.skip(q as int)
                    != entry_rep(h) + t by {
                    if payload@.skip(q as int) == entry_rep(h) + t {
                        lemma_rest_facts(payload@, q as int, h, t);
                        let hl = h.name.len() as int;
                        if j < q + 7 + hl {
                            assert(payload@[j as int] == h.name[j - q - 7]);
                        } else if j == q + 7 + hl {
                            assert(payload@[j as int] == 0);
                        } else {
                            assert(payload@[q + 7 + hl] == 0);
                        }
                    }
                }
            }
            return Err(StoreError::CorruptHeader);
        } else {
            j = j + 1;
        }
    }
    if !found {
        proof {
            assert forall|h: EntryV, t: Seq<u8>| h.wf() implies payload@.skip(q as int)
                != entry_rep(h) + t by {
                if payload@.skip(q as int) == entry_rep(h) + t {
                    lemma_rest_facts(payload@, q as int, h, t);
                    let hl = h.name.len() as int;
                    assert(q + 7 + hl < len);
                    assert(payload@[q + 7 + hl] == 0);
                }
            }
        }
        return Err(StoreError::CorruptHeader);
    }
    if j == q + 7 {
        proof {
            assert forall|h: EntryV, t: Seq<u8>| h.wf() implies payload@.skip(q as int)
                != entry_rep(h) + t by {
                if payload@.skip(q as int) == entry_rep(h) + t {
                    lemma_rest_facts(payload@, q as int, h, t);
                    assert(payload@[q + 7] == h.name[0]);
                }
            }
        }
        return Err(StoreError::CorruptHeader);
    }
    if len - (j + 1) < 20 {
        proof {
            assert forall|h: EntryV, t: Seq<u8>| h.wf() implies payload@.skip(q as int)
                != entry_rep(h) + t by {
                if payload@.skip(q as int) == entry_rep(h) + t {
                    lemma_rest_facts(payload@, q as int, h, t);
                    let hl = h.name.len() as int;
                    assert(j as int == q + 7 + hl) by {
                        if j < q + 7 + hl {
                            assert(payload@[j as int] == h.name[j - q - 7]);
                        } else if j > q + 7 + hl {
                            assert(payload@[q + 7 + hl] == 0);
                        }
                    }
                    assert(payload@.len() - q >= 28 + hl);
                }
            }
        }
        return Err(StoreError::CorruptHeader);
    }
    let mut name: Vec<u8> = Vec::new();
    let mut k: usize = q + 7;
    while k < j
        invariant
            q + 7 <= k <= j,
            j < len,
            payload@.len() == len,
            name@ == payload@.subrange(q + 7, k as int),
        decreases j - k,
    {
        name.push(payload[k]);
        proof {
            assert(payload@.subrange(q + 7, k as int).push(payload@[k as int]) =~= payload@.subrange(
                q + 7,
                k + 1,
            ));
        }
        k = k + 1;
    }
    let mut dg: [u8; 20] = [0;20];
    let mut t: usize = 0;
    while t < 20
        invariant
            t <= 20,
            payload@.len() == len,
            j + 21 <= len,
            forall|x: int| 0 <= x < t ==> dg@[x] == payload@[j + 1 + x],
        decreases 20 - t,
    {
        dg[t] = payload[j + 1 + t];
        t = t + 1;
    }
    let e = TreeEntry { mode: m, name, digest: dg };
    let q2 = j + 21;
    proof {
        assert(e@.wf()) by {
            assert(e@.name.len() == j - (q + 7));
            assert forall|x: int| 0 <= x < e@.name.len() implies e@.name[x] != 0 && e@.name[x]
                != 47 by {
                assert(e@.name[x] == payload@[q + 7 + x]);
            }
        }
        lemma_entry_rep_index(e@);
        assert(payload@.subrange(q as int, q2 as int) =~= entry_rep(e@)) by {
            let sub = payload@.subrange(q as int, q2 as int);
            let nl = e@.name.len() as int;
            assert(payload@.subrange(q as int, q as int + 6) =~= sub.subrange(0, 6));
            assert forall|x: int| 0 <= x < sub.len() implies sub[x] == entry_rep(e@)[x] by {
                assert(sub[x] == payload@[q + x]);
                if x < 6 {
                    assert(payload@.subrange(q as int, q as int + 6) == mode_bytes(m));
                    assert(payload@.subrange(q as int, q as int + 6)[x] == payload@[q + x]);
                    assert(entry_rep(e@)[x] == mode_bytes(m)[x]);
                } else if x == 6 {
                } else if x < 7 + nl {
                    assert(e@.name[x - 7] == payload@[q + x]);
                } else if x == 7 + nl {
                    assert(payload@[j as int] == 0);
                } else {
                    assert(dg@[x - 8 - nl] == payload@[j + 1 + (x - 8 - nl)]);
                }
            }
        }
    }
    Ok((e, q2))
}

/// Parses a tree payload into its entries. On success the entries are
/// well formed and serialize back to exactly the input; on failure the
/// input is no well-formed tree payload at all.
pub fn parse_tree(payload: &Vec<u8>) -> (r: Result<Vec<TreeEntry>, StoreError>)
    ensures
        (r matches Ok(es) ==> payload@ == tree_rep(views(es@)) && wf_entries(views(es@))),
        r matches Err(e) ==> e == StoreError::CorruptHeader,
        r is Err ==> forall|es: Seq<EntryV>| wf_entries(es) ==> payload@ != tree_rep(es),
{
    let mut acc: Vec<TreeEntry> = Vec::new();
    let mut q: usize = 0;
    proof {
        assert(views(acc@) =~= Seq::<EntryV>::empty());
        assert(payload@.take(0) =~= Seq::<u8>::empty());
        assert forall|es: Seq<EntryV>|
            #![trigger wf_entries(es), tree_rep(es)]
            wf_entries(es) && payload@ == tree_rep(es) implies es.len() >= views(acc@).len()
            && es.take(views(acc@).len() as int) == views(acc@) && payload@.skip(0)
            == tree_rep(es.skip(views(acc@).len() as int)) by {
            assert(es.take(0) =~= Seq::<EntryV>::empty());
            assert(es.skip(0) =~= es);
            assert(payload@.skip(0) =~= payload@);
        }
    }
    while q < payload.len()
        invariant
            q <= payload@.len(),
            payload@.take(q as int) == tree_rep(views(acc@)),
            wf_entries(views(acc@)),
            forall|es: Seq<EntryV>|
                #![trigger wf_entries(es), tree_rep(es)]
                wf_entries(es) && payload@ == tree_rep(es) ==> es.len() >= views(acc@).len()
                    && es.take(views(acc@).len() as int) == views(acc@) && payload@.skip(q as int)
                    == tree_rep(es.skip(views(acc@).len() as int)),
        decreases payload@.len() - q,
    {
        let ghost ovs = views(acc@);
        match parse_entry(payload, q) {
            Err(err) => {
                proof {
                    assert forall|es: Seq<EntryV>| wf_entries(es) implies payload@ != tree_rep(
                        es,
                    ) by {
                        if payload@ == tree_rep(es) {
                            let kk = ovs.len() as int;
                            let suf = es.skip(kk);
                            assert(payload@.skip(q as int) == tree_rep(suf));
                            assert(suf.len() > 0) by {
                                if suf.len() == 0 {
                                    assert(tree_rep(suf).len() == 0);
                                    assert(payload@.skip(q as int).len() == payload@.len() - q);
                                }
                            }
                            lemma_tree_rep_front(suf);
                            assert(suf[0] == es[kk]);
                            assert(suf[0].wf());
                            assert(payload@.skip(q as int) == entry_rep(suf[0]) + tree_rep(
                                suf.drop_first(),
                            ));
                            assert(false);
                        }
                    }
                }
                return Err(err);
            },
            Ok((e, q2)) => {
                let ghost ev = e@;
                acc.push(e);
                proof {
                    assert(views(acc@) =~= ovs.push(ev));
                    assert(tree_rep(ovs.push(ev)) == tree_rep(ovs) + entry_rep(ev)) by {
                        assert(ovs.push(ev).drop_last() =~= ovs);
                        assert(ovs.push(ev).last() == ev);
                    }
                    assert(payload@.take(q2 as int) =~= payload@.take(q as int)
                        + payload@.subrange(q as int, q2 as int));
                    assert(payload@.take(q2 as int) == tree_rep(views(acc@)));
                    assert(wf_entries(views(acc@))) by {
                        assert forall|x: int| 0 <= x < ovs.push(ev).len() implies (#[trigger] ovs.push(
                            ev,
                        )[x]).wf() by {
                            if x < ovs.len() {
                                assert(ovs.push(ev)[x] == ovs[x]);
                                assert(ovs[x].wf());
                            }
                        }
                    }
                    assert forall|es: Seq<EntryV>|
                        #![trigger wf_entries(es), tree_rep(es)]
                        wf_entries(es) && payload@ == tree_rep(es) implies es.len() >= views(
                        acc@,
                    ).len() && es.take(views(acc@).len() as int) == views(acc@) && payload@.skip(
                        q2 as int,
                    ) == tree_rep(es.skip(views(acc@).len() as int)) by {
                        let kk = ovs.len() as int;
                        let suf = es.skip(kk);
                        assert(payload@.skip(q as int) == tree_rep(suf));
                        assert(suf.len() > 0) by {
                            if suf.len() == 0 {
                                assert(tree_rep(suf).len() == 0);
                                assert(payload@.skip(q as int).len() == payload@.len() - q);
                            }
                        }
                        lemma_tree_rep_front(suf);
                        assert(suf[0] == es[kk]);
                        assert(suf[0].wf());
                        assert(payload@.skip(q as int) =~= payload@.subrange(q as int, q2 as int)
                            + payload@.skip(q2 as int));
                        assert(entry_rep(ev) + payload@.skip(q2 as int) == entry_rep(suf[0])
                            + tree_rep(suf.drop_first()));
                        lemma_entry_rep_unambiguous(
                            ev,
                            payload@.skip(q2 as int),
                            suf[0],
                            tree_rep(suf.drop_first()),
                        );
                        assert(es.len() >= kk + 1);
                        assert(es.take(kk + 1) =~= es.take(kk).push(es[kk]));
                        assert(es.take(kk + 1) == views(acc@));
                        assert(suf.drop_first() =~= es.skip(kk + 1));
                    }
                }
                q = q2;
            },
        }
    }
    proof {
        assert(payload@.take(payload@.len() as int) =~= payload@);
    }
    Ok(acc)
}

/// A tree payload, read from the front.
proof fn lemma_tree_rep_front(s: Seq<EntryV>)
    requires
        s.len() > 0,
    ensures
        tree_rep(s) == entry_rep(s[0]) + tree_rep(s.drop_first()),
    decreases s.len(),
{
    if s.len() == 1 {
        assert(s.drop_last() =~= Seq::<EntryV>::empty());
        assert(s.drop_first() =~= Seq::<EntryV>::empty());
        assert(tree_rep(s) =~= entry_rep(s[0]) + tree_rep(s.drop_first()));
    } else {
        lemma_tree_rep_front(s.drop_last());
        assert(s.drop_last()[0] == s[0]);
        assert(s.drop_last().drop_first() =~= s.drop_first().drop_last());
        assert(s.drop_first().last() == s.last());
        assert(tree_rep(s) == tree_rep(s.drop_last()) + entry_rep(s.last()));
        assert(tree_rep(s.drop_first()) == tree_rep(s.drop_first().drop_last()) + entry_rep(
            s.last(),
        ));
        assert(tree_rep(s) =~= entry_rep(s[0]) + tree_rep(s.drop_first()));
    }
}

} // verus!
