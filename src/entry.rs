//! File records and the orders the report uses on them.
use std::cmp::Ordering;
use vstd::prelude::*;
use vstd::relations::total_ordering;
use vstd::utf8::encode_utf8;

verus! {

/// One regular file that was read in full: its path, its length in bytes and
/// the hex digest of its contents.
#[derive(Clone, Debug, PartialEq, Eq)]
pub struct FileEntry {
    pub path: String,
    pub size: u64,
    pub checksum: String,
}

/// A file record seen as bytes: the UTF-8 encoding of its path and digest.
pub struct EntryView {
    pub path: Seq<u8>,
    pub size: u64,
    pub checksum: Seq<u8>,
}

impl View for FileEntry {
    type V = EntryView;

    open spec fn view(&self) -> EntryView {
        EntryView {
            path: encode_utf8(self.path@),
            size: self.size,
            checksum: encode_utf8(self.checksum@),
        }
    }
}

/// The views of a sequence of records.
pub open spec fn views(v: Seq<FileEntry>) -> Seq<EntryView> {
    v.map_values(|e: FileEntry| e@)
}

/// Byte-lexicographic comparison: a proper prefix comes first.
pub open spec fn lex_cmp(a: Seq<u8>, b: Seq<u8>) -> Ordering
    decreases a.len(),
{
    if a.len() == 0 {
        if b.len() == 0 {
            Ordering::Equal
        } else {
            Ordering::Less
        }
    } else if b.len() == 0 {
        Ordering::Greater
    } else if a[0] < b[0] {
        Ordering::Less
    } else if a[0] > b[0] {
        Ordering::Greater
    } else {
        lex_cmp(a.drop_first(), b.drop_first())
    }
}

/// The grouping key of a record: its size and its digest.
pub open spec fn key_of(e: EntryView) -> (u64, Seq<u8>) {
    (e.size, e.checksum)
}

/// Order of duplicate groups: larger size first, then digest ascending.
pub open spec fn key_cmp(a: (u64, Seq<u8>), b: (u64, Seq<u8>)) -> Ordering {
    if a.0 > b.0 {
        Ordering::Less
    } else if a.0 < b.0 {
        Ordering::Greater
    } else {
        lex_cmp(a.1, b.1)
    }
}

pub open spec fn key_le(a: (u64, Seq<u8>), b: (u64, Seq<u8>)) -> bool {
    key_cmp(a, b) != Ordering::Greater
}

/// Order of the inventory: path ascending; size, then digest, only break ties
/// between records of one path.
pub open spec fn entry_cmp(a: EntryView, b: EntryView) -> Ordering {
    if lex_cmp(a.path, b.path) != Ordering::Equal {
        lex_cmp(a.path, b.path)
    } else if a.size < b.size {
        Ordering::Less
    } else if a.size > b.size {
        Ordering::Greater
    } else {
        lex_cmp(a.checksum, b.checksum)
    }
}

pub open spec fn entry_le(a: EntryView, b: EntryView) -> bool {
    entry_cmp(a, b) != Ordering::Greater
}

pub proof fn lemma_lex_equal(a: Seq<u8>, b: Seq<u8>)
    ensures
        (lex_cmp(a, b) == Ordering::Equal) == (a == b),
    decreases a.len(),
{
    if a.len() > 0 && b.len() > 0 {
        if a[0] == b[0] {
            lemma_lex_equal(a.drop_first(), b.drop_first());
            assert(a =~= seq![a[0]] + a.drop_first());
            assert(b =~= seq![b[0]] + b.drop_first());
            if a == b {
                assert(a.drop_first() =~= b.drop_first());
            }
        } else {
            assert(a[0] != b[0]);
        }
    } else if a.len() != b.len() {
        assert(a.len() != b.len());
    } else {
        assert(a =~= b);
    }
}

pub proof fn lemma_lex_flip(a: Seq<u8>, b: Seq<u8>)
    ensures
        (lex_cmp(a, b) == Ordering::Less) == (lex_cmp(b, a) == Ordering::Greater),
    decreases a.len(),
{
    if a.len() > 0 && b.len() > 0 && a[0] == b[0] {
        lemma_lex_flip(a.drop_first(), b.drop_first());
    }
}

pub proof fn lemma_lex_trans(a: Seq<u8>, b: Seq<u8>, c: Seq<u8>)
    requires
        lex_cmp(a, b) != Ordering::Greater,
        lex_cmp(b, c) != Ordering::Greater,
    ensures
        lex_cmp(a, c) != Ordering::Greater,
    decreases a.len(),
{
    if a.len() > 0 && b.len() > 0 && c.len() > 0 && a[0] == b[0] && b[0] == c[0] {
        lemma_lex_trans(a.drop_first(), b.drop_first(), c.drop_first());
    }
}

/// Strictness carries through: a before b and b no later than c put a before c.
pub proof fn lemma_lex_trans_strict(a: Seq<u8>, b: Seq<u8>, c: Seq<u8>)
    requires
        lex_cmp(a, b) != Ordering::Greater,
        lex_cmp(b, c) != Ordering::Greater,
        lex_cmp(a, b) == Ordering::Less || lex_cmp(b, c) == Ordering::Less,
    ensures
        lex_cmp(a, c) == Ordering::Less,
{
    lemma_lex_trans(a, b, c);
    lemma_lex_equal(a, c);
    lemma_lex_equal(a, b);
    lemma_lex_equal(b, c);
    if a == c {
        lemma_lex_flip(a, b);
        lemma_lex_flip(b, c);
    }
}

pub proof fn lemma_lex_total(a: Seq<u8>, b: Seq<u8>)
    ensures
        lex_cmp(a, b) != Ordering::Greater || lex_cmp(b, a) != Ordering::Greater,
{
    lemma_lex_flip(b, a);
}

/// The inventory order is a total order on record views.
pub proof fn lemma_entry_le_total()
    ensures
        total_ordering(|a: EntryView, b: EntryView| entry_le(a, b)),
{
    let le = |a: EntryView, b: EntryView| entry_le(a, b);
    assert forall|a: EntryView| #[trigger] le(a, a) by {
        lemma_lex_equal(a.path, a.path);
        lemma_lex_equal(a.checksum, a.checksum);
    }
    assert forall|a: EntryView, b: EntryView| #[trigger] le(a, b) && #[trigger] le(b, a) implies a == b by {
        lemma_lex_flip(a.path, b.path);
        lemma_lex_equal(a.path, b.path);
        lemma_lex_flip(a.checksum, b.checksum);
        lemma_lex_equal(a.checksum, b.checksum);
    }
    assert forall|a: EntryView, b: EntryView, c: EntryView| #[trigger] le(a, b) && #[trigger] le(b, c) implies le(a, c) by {
        lemma_lex_equal(a.path, b.path);
        lemma_lex_equal(b.path, c.path);
        lemma_lex_equal(a.path, c.path);
        if lex_cmp(a.path, b.path) == Ordering::Less || lex_cmp(b.path, c.path) == Ordering::Less {
            lemma_lex_trans_strict(a.path, b.path, c.path);
        } else if a.size == b.size && b.size == c.size {
            lemma_lex_trans(a.checksum, b.checksum, c.checksum);
        }
    }
    assert forall|a: EntryView, b: EntryView| #[trigger] le(a, b) || #[trigger] le(b, a) by {
        lemma_lex_total(a.path, b.path);
        lemma_lex_flip(a.path, b.path);
        lemma_lex_equal(a.path, b.path);
        lemma_lex_equal(b.path, a.path);
        lemma_lex_total(a.checksum, b.checksum);
    }
}

/// The group order is a total order on keys.
pub proof fn lemma_key_le_total()
    ensures
        total_ordering(|a: (u64, Seq<u8>), b: (u64, Seq<u8>)| key_le(a, b)),
{
    let le = |a: (u64, Seq<u8>), b: (u64, Seq<u8>)| key_le(a, b);
    assert forall|a: (u64, Seq<u8>)| #[trigger] le(a, a) by {
        lemma_lex_equal(a.1, a.1);
    }
    assert forall|a: (u64, Seq<u8>), b: (u64, Seq<u8>)| #[trigger] le(a, b) && #[trigger] le(b, a) implies a == b by {
        lemma_lex_flip(a.1, b.1);
        lemma_lex_equal(a.1, b.1);
    }
    assert forall|a: (u64, Seq<u8>), b: (u64, Seq<u8>), c: (u64, Seq<u8>)| #[trigger] le(a, b) && #[trigger] le(b, c) implies le(a, c) by {
        if a.0 == b.0 && b.0 == c.0 {
            lemma_lex_trans(a.1, b.1, c.1);
        }
    }
    assert forall|a: (u64, Seq<u8>), b: (u64, Seq<u8>)| #[trigger] le(a, b) || #[trigger] le(b, a) by {
        lemma_lex_total(a.1, b.1);
    }
}

/// Compares two byte strings lexicographically.
pub fn compare_bytes(a: &[u8], b: &[u8]) -> (r: Ordering)
    ensures
        r == lex_cmp(a@, b@),
{
    let mut i: usize = 0;
    assert(a@.skip(0) =~= a@);
    assert(b@.skip(0) =~= b@);
    while i < a.len() && i < b.len()
        invariant
            i <= a.len(),
            i <= b.len(),
            lex_cmp(a@, b@) == lex_cmp(a@.skip(i as int), b@.skip(i as int)),
        decreases a.len() - i,
    {
        if a[i] < b[i] {
            return Ordering::Less;
        }
        if a[i] > b[i] {
            return Ordering::Greater;
        }
        assert(a@.skip(i as int).drop_first() =~= a@.skip(i + 1));
        assert(b@.skip(i as int).drop_first() =~= b@.skip(i + 1));
        i = i + 1;
    }
    if i < b.len() {
        Ordering::Less
    } else if i < a.len() {
        Ordering::Greater
    } else {
        Ordering::Equal
    }
}

/// Compares two strings by their UTF-8 bytes.
pub fn compare_str(a: &String, b: &String) -> (r: Ordering)
    ensures
        r == lex_cmp(encode_utf8(a@), encode_utf8(b@)),
{
    compare_bytes(a.as_str().as_bytes(), b.as_str().as_bytes())
}

impl FileEntry {
    /// A copy of this record.
    pub fn duplicate(&self) -> (r: FileEntry)
        ensures
            r@ == self@,
    {
        FileEntry { path: self.path.clone(), size: self.size, checksum: self.checksum.clone() }
    }

    /// Whether two records share size and digest.
    pub fn same_key(&self, other: &FileEntry) -> (r: bool)
        ensures
            r == (key_of(self@) == key_of(other@)),
    {
        let c = compare_str(&self.checksum, &other.checksum);
        proof {
            lemma_lex_equal(self@.checksum, other@.checksum);
        }
        self.size == other.size && matches!(c, Ordering::Equal)
    }
}

/// Compares two records in inventory order.
pub fn compare_entries(a: &FileEntry, b: &FileEntry) -> (r: Ordering)
    ensures
        r == entry_cmp(a@, b@),
{
    let p = compare_str(&a.path, &b.path);
    if !matches!(p, Ordering::Equal) {
        p
    } else if a.size < b.size {
        Ordering::Less
    } else if a.size > b.size {
        Ordering::Greater
    } else {
        compare_str(&a.checksum, &b.checksum)
    }
}

} // verus!
