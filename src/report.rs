//! The grouper: the sorted inventory and its duplicate groups.
use crate::entry::{
    compare_entries, compare_str, entry_cmp, entry_le, key_cmp, key_le, key_of, lemma_entry_le_total,
    lemma_key_le_total, lemma_lex_equal, lemma_lex_flip, lemma_lex_trans_strict, views, EntryView,
    FileEntry,
};
use std::cmp::Ordering;
use vstd::prelude::*;
use vstd::relations::{sorted_by, total_ordering};

verus! {

broadcast use vstd::seq_lib::group_seq_properties, vstd::seq_lib::group_to_multiset_ensures,
    vstd::seq_lib::group_filter_ensures;

/// The two orders in which records are sorted.
#[derive(Clone, Copy, Debug)]
pub enum RecordOrder {
    /// Inventory order: by path.
    Path,
    /// Group order: larger size first, then digest; inventory order among
    /// records of one key.
    Key,
}

pub open spec fn order_le(by: RecordOrder, a: EntryView, b: EntryView) -> bool {
    match by {
        RecordOrder::Path => entry_le(a, b),
        RecordOrder::Key => key_cmp(key_of(a), key_of(b)) == Ordering::Less || (key_of(a) == key_of(b)
            && entry_le(a, b)),
    }
}

/// Three-way comparison in the given order.
pub open spec fn order_cmp(by: RecordOrder, a: EntryView, b: EntryView) -> Ordering {
    match by {
        RecordOrder::Path => entry_cmp(a, b),
        RecordOrder::Key => if key_cmp(key_of(a), key_of(b)) != Ordering::Equal {
            key_cmp(key_of(a), key_of(b))
        } else {
            entry_cmp(a, b)
        },
    }
}

/// Compares two records in the given order.
pub fn compare_in(by: RecordOrder, a: &FileEntry, b: &FileEntry) -> (r: Ordering)
    ensures
        r == order_cmp(by, a@, b@),
        (r != Ordering::Greater) == order_le(by, a@, b@),
{
    match by {
        RecordOrder::Path => compare_entries(a, b),
        RecordOrder::Key => {
            let k = if a.size > b.size {
                Ordering::Less
            } else if a.size < b.size {
                Ordering::Greater
            } else {
                compare_str(&a.checksum, &b.checksum)
            };
            proof {
                lemma_lex_equal(a@.checksum, b@.checksum);
            }
            if matches!(k, Ordering::Equal) {
                compare_entries(a, b)
            } else {
                k
            }
        },
    }
}

/// Relies on `slice::sort_by`: the result is a permutation of the input,
/// ordered by the comparator, which here is a total order
/// (`lemma_entry_le_total`, `lemma_key_order_total`).
#[verifier::external_body]
fn sort_records(v: &mut Vec<FileEntry>, by: RecordOrder)
    ensures
        views(final(v)@).to_multiset() == views(old(v)@).to_multiset(),
        sorted_by(views(final(v)@), |a: EntryView, b: EntryView| order_le(by, a, b)),
{
    v.sort_by(|a, b| compare_in(by, a, b))
}

/// The records of `inv` with key `k`, in inventory order.
pub open spec fn bucket(inv: Seq<EntryView>, k: (u64, Seq<u8>)) -> Seq<EntryView> {
    inv.filter(|e: EntryView| key_of(e) == k)
}

pub open spec fn group_key(g: Seq<EntryView>) -> (u64, Seq<u8>) {
    key_of(g[0])
}

pub open spec fn group_views(groups: Seq<Vec<FileEntry>>) -> Seq<Seq<EntryView>> {
    groups.map_values(|g: Vec<FileEntry>| views(g@))
}

/// `groups` are the duplicate groups of `inv`: one per key that at least two
/// records share, holding exactly those records in inventory order, with the
/// groups ordered by strictly increasing key (larger size first).
pub open spec fn is_duplicate_report(inv: Seq<EntryView>, groups: Seq<Seq<EntryView>>) -> bool {
    &&& forall|i: int|
        0 <= i < groups.len() ==> #[trigger] groups[i].len() >= 2 && groups[i] == bucket(
            inv,
            group_key(groups[i]),
        )
    &&& forall|j: int|
        0 <= j < inv.len() && bucket(inv, key_of(inv[j])).len() >= 2 ==> exists|i: int|
            0 <= i < groups.len() && group_key(#[trigger] groups[i]) == key_of(#[trigger] inv[j])
    &&& forall|i: int, j: int|
        0 <= i < j < groups.len() ==> key_cmp(group_key(#[trigger] groups[i]), group_key(#[trigger] groups[j]))
            == Ordering::Less
}

proof fn lemma_views_push(v: Seq<FileEntry>, e: FileEntry)
    ensures
        views(v.push(e)) == views(v).push(e@),
{
    assert(views(v.push(e)) =~= views(v).push(e@));
}

/// Every record of a bucket carries its key.
proof fn lemma_bucket_keys(inv: Seq<EntryView>, k: (u64, Seq<u8>))
    ensures
        forall|x: int| 0 <= x < bucket(inv, k).len() ==> key_of(#[trigger] bucket(inv, k)[x]) == k,
{
    assert forall|x: int| 0 <= x < bucket(inv, k).len() implies key_of(#[trigger] bucket(inv, k)[x]) == k by {
        inv.lemma_filter_pred(|e: EntryView| key_of(e) == k, x);
    }
}

/// A bucket is empty when no record carries its key.
proof fn lemma_bucket_empty(s: Seq<EntryView>, k: (u64, Seq<u8>))
    requires
        forall|j: int| 0 <= j < s.len() ==> key_of(#[trigger] s[j]) != k,
    ensures
        bucket(s, k).len() == 0,
{
    if bucket(s, k).len() > 0 {
        let x = bucket(s, k)[0];
        assert(bucket(s, k).contains(x));
        s.lemma_filter_contains_rev(|e: EntryView| key_of(e) == k, x);
        s.lemma_filter_pred(|e: EntryView| key_of(e) == k, 0);
    }
}

/// The inventory order as a relation.
pub open spec fn inventory_le() -> spec_fn(EntryView, EntryView) -> bool {
    |a: EntryView, b: EntryView| entry_le(a, b)
}

/// The records sorted by path into the inventory.
pub fn sort_inventory(records: Vec<FileEntry>) -> (inventory: Vec<FileEntry>)
    ensures
        views(inventory@) == views(records@).sort_by(inventory_le()),
{
    let mut v = records;
    sort_records(&mut v, RecordOrder::Path);
    proof {
        let le = inventory_le();
        lemma_entry_le_total();
        assert(le =~= |a: EntryView, b: EntryView| entry_le(a, b));
        views(records@).lemma_sort_by_ensures(le);
        assert(sorted_by(views(v@), le)) by {
            let by_path = |a: EntryView, b: EntryView| order_le(RecordOrder::Path, a, b);
            assert forall|i: int, j: int| 0 <= i < j < views(v@).len() implies #[trigger] le(
                views(v@)[i],
                views(v@)[j],
            ) by {
                assert(by_path(views(v@)[i], views(v@)[j]));
            }
        }
        vstd::seq_lib::lemma_sorted_unique(views(v@), views(records@).sort_by(le), le);
    }
    v
}

/// The outcome of a run: every record sorted by path, and the duplicate groups.
pub struct ScanReport {
    pub inventory: Vec<FileEntry>,
    pub duplicates: Vec<Vec<FileEntry>>,
}

/// `inv` and `groups` are what a run over `records` reports.
pub open spec fn reports(records: Seq<EntryView>, inv: Seq<EntryView>, groups: Seq<Seq<EntryView>>) -> bool {
    &&& inv == records.sort_by(inventory_le())
    &&& is_duplicate_report(inv, groups)
}

/// Sorts the records into the inventory and groups the duplicates.
pub fn build_report(records: Vec<FileEntry>) -> (r: ScanReport)
    ensures
        reports(views(records@), views(r.inventory@), group_views(r.duplicates@)),
{
    let inventory = sort_inventory(records);
    let duplicates = find_duplicates(&inventory);
    proof {
        let le = inventory_le();
        lemma_entry_le_total();
        assert(le =~= |a: EntryView, b: EntryView| entry_le(a, b));
        views(records@).lemma_sort_by_ensures(le);
        views(inventory@).lemma_sort_by_ensures(le);
        vstd::seq_lib::lemma_sorted_unique(views(inventory@), views(inventory@).sort_by(le), le);
    }
    ScanReport { inventory, duplicates }
}

/// Filtering commutes with forgetting the order.
pub proof fn lemma_filter_multiset(a: Seq<EntryView>, p: spec_fn(EntryView) -> bool)
    ensures
        a.filter(p).to_multiset() == a.to_multiset().filter(p),
    decreases a.len(),
{
    broadcast use vstd::multiset::group_multiset_axioms;

    if a.len() == 0 {
        assert(a.filter(p).to_multiset() =~= a.to_multiset().filter(p));
    } else {
        let rest = a.drop_last();
        let x = a.last();
        assert(rest.push(x) == a);
        lemma_filter_multiset(rest, p);
        rest.lemma_filter_push(x, p);
        assert(a.filter(p).to_multiset() =~= a.to_multiset().filter(p));
    }
}

/// A filter of a sorted sequence is sorted.
proof fn lemma_filter_sorted(
    a: Seq<EntryView>,
    p: spec_fn(EntryView) -> bool,
    le: spec_fn(EntryView, EntryView) -> bool,
)
    requires
        sorted_by(a, le),
    ensures
        sorted_by(a.filter(p), le),
    decreases a.len(),
{
    if a.len() > 0 {
        let rest = a.drop_last();
        let x = a.last();
        assert(rest.push(x) == a);
        assert(sorted_by(rest, le)) by {
            assert forall|i: int, j: int| 0 <= i < j < rest.len() implies #[trigger] le(rest[i], rest[j]) by {
                assert(le(a[i], a[j]));
            }
        }
        lemma_filter_sorted(rest, p, le);
        rest.lemma_filter_push(x, p);
        if p(x) {
            let f = rest.filter(p);
            assert forall|i: int, j: int| 0 <= i < j < f.push(x).len() implies #[trigger] le(
                f.push(x)[i],
                f.push(x)[j],
            ) by {
                if j == f.len() {
                    assert(f.contains(f[i]));
                    rest.lemma_filter_contains_rev(p, f[i]);
                    let k = choose|k: int| 0 <= k < rest.len() && rest[k] == f[i];
                    assert(le(a[k], a[a.len() - 1]));
                }
            }
        }
    }
}

/// The group order as a relation.
pub open spec fn key_order() -> spec_fn(EntryView, EntryView) -> bool {
    |a: EntryView, b: EntryView| order_le(RecordOrder::Key, a, b)
}

/// Copies of the records `start..end` of `v`.
fn copy_range(v: &Vec<FileEntry>, start: usize, end: usize) -> (r: Vec<FileEntry>)
    requires
        start <= end <= v.len(),
    ensures
        views(r@) == views(v@).subrange(start as int, end as int),
{
    let mut r: Vec<FileEntry> = Vec::new();
    let mut i: usize = start;
    while i < end
        invariant
            start <= i <= end <= v.len(),
            views(r@) == views(v@).subrange(start as int, i as int),
        decreases end - i,
    {
        let e = v[i].duplicate();
        proof {
            lemma_views_push(r@, e);
        }
        r.push(e);
        assert(views(v@).subrange(start as int, i + 1) =~= views(v@).subrange(start as int, i as int).push(
            e@,
        ));
        i = i + 1;
    }
    r
}

/// Records in group order have keys in group order.
proof fn lemma_key_order_keys(a: EntryView, b: EntryView)
    requires
        order_le(RecordOrder::Key, a, b),
    ensures
        key_le(key_of(a), key_of(b)),
        key_of(a) != key_of(b) ==> key_cmp(key_of(a), key_of(b)) == Ordering::Less,
{
    lemma_lex_equal(a.checksum, b.checksum);
}

/// Keys each no later than the other are equal.
proof fn lemma_key_antisymmetric(a: (u64, Seq<u8>), b: (u64, Seq<u8>))
    requires
        key_le(a, b),
        key_le(b, a),
    ensures
        a == b,
{
    lemma_lex_flip(a.1, b.1);
    lemma_lex_equal(a.1, b.1);
}

/// Strictly increasing keys compose.
proof fn lemma_key_less_trans(a: (u64, Seq<u8>), b: (u64, Seq<u8>), c: (u64, Seq<u8>))
    requires
        key_cmp(a, b) == Ordering::Less,
        key_cmp(b, c) == Ordering::Less,
    ensures
        key_cmp(a, c) == Ordering::Less,
{
    if a.0 == b.0 && b.0 == c.0 {
        lemma_lex_trans_strict(a.1, b.1, c.1);
    }
}

/// A filter that keeps everything changes nothing.
proof fn lemma_filter_all(a: Seq<EntryView>, p: spec_fn(EntryView) -> bool)
    requires
        forall|i: int| 0 <= i < a.len() ==> p(#[trigger] a[i]),
    ensures
        a.filter(p) == a,
    decreases a.len(),
{
    if a.len() > 0 {
        let rest = a.drop_last();
        assert(rest.push(a.last()) == a);
        lemma_filter_all(rest, p);
        rest.lemma_filter_push(a.last(), p);
    } else {
        assert(a.filter(p) =~= a);
    }
}

/// In a sequence in group order, a maximal run of one key is that key's bucket.
proof fn lemma_run_is_bucket(sv: Seq<EntryView>, start: int, end: int)
    requires
        sorted_by(sv, key_order()),
        0 <= start < end <= sv.len(),
        forall|x: int| start <= x < end ==> key_of(#[trigger] sv[x]) == key_of(sv[start]),
        start == 0 || key_of(sv[start - 1]) != key_of(sv[start]),
        end == sv.len() || key_of(sv[end]) != key_of(sv[start]),
    ensures
        bucket(sv, key_of(sv[start])) == sv.subrange(start, end),
{
    let k = key_of(sv[start]);
    let p = |e: EntryView| key_of(e) == k;
    let le = key_order();
    lemma_key_le_total();
    let pre = sv.subrange(0, start);
    let mid = sv.subrange(start, end);
    let post = sv.subrange(end, sv.len() as int);
    assert(sv =~= pre + mid + post);
    assert forall|j: int| 0 <= j < pre.len() implies key_of(#[trigger] pre[j]) != k by {
        assert(pre[j] == sv[j]);
        if j < start - 1 && key_of(sv[j]) == k {
            assert(le(sv[j], sv[start - 1]));
            assert(le(sv[start - 1], sv[start]));
            lemma_key_order_keys(sv[j], sv[start - 1]);
            lemma_key_order_keys(sv[start - 1], sv[start]);
            lemma_key_antisymmetric(key_of(sv[start - 1]), k);
        }
    }
    assert forall|j: int| 0 <= j < post.len() implies key_of(#[trigger] post[j]) != k by {
        let x = end + j;
        assert(post[j] == sv[x]);
        if j > 0 && key_of(sv[x]) == k {
            assert(le(sv[start], sv[end]));
            assert(le(sv[end], sv[x]));
            lemma_key_order_keys(sv[start], sv[end]);
            lemma_key_order_keys(sv[end], sv[x]);
            lemma_key_antisymmetric(key_of(sv[end]), k);
        }
    }
    lemma_bucket_empty(pre, k);
    lemma_bucket_empty(post, k);
    lemma_filter_all(mid, p);
    Seq::filter_distributes_over_add(pre, mid, p);
    Seq::filter_distributes_over_add(pre + mid, post, p);
    assert(bucket(sv, k) =~= mid);
}

/// A permutation in group order has the same buckets as a permutation in
/// inventory order.
proof fn lemma_same_buckets(sv: Seq<EntryView>, inv: Seq<EntryView>, k: (u64, Seq<u8>))
    requires
        sv.to_multiset() == inv.to_multiset(),
        sorted_by(sv, key_order()),
        sorted_by(inv, inventory_le()),
    ensures
        bucket(sv, k) == bucket(inv, k),
{
    let p = |e: EntryView| key_of(e) == k;
    let le = inventory_le();
    lemma_entry_le_total();
    assert(le =~= |a: EntryView, b: EntryView| entry_le(a, b));
    lemma_filter_multiset(sv, p);
    lemma_filter_multiset(inv, p);
    lemma_filter_sorted(inv, p, le);
    lemma_filter_sorted(sv, p, key_order());
    let f = sv.filter(p);
    assert(sorted_by(f, key_order()));
    assert forall|i: int, j: int| 0 <= i < j < f.len() implies #[trigger] le(f[i], f[j]) by {
        assert(key_order()(f[i], f[j]));
        sv.lemma_filter_pred(p, i);
        sv.lemma_filter_pred(p, j);
        lemma_lex_equal(k.1, k.1);
    }
    vstd::seq_lib::lemma_sorted_unique(f, inv.filter(p), le);
}

/// The duplicate groups of an inventory: for each key that at least two
/// records share, all records with that key in path order; groups come
/// larger size first, then by digest.
#[verifier::rlimit(40)]
pub fn find_duplicates(inventory: &Vec<FileEntry>) -> (groups: Vec<Vec<FileEntry>>)
    ensures
        is_duplicate_report(views(inventory@).sort_by(inventory_le()), group_views(groups@)),
{
    proof {
        lemma_entry_le_total();
        assert(inventory_le() =~= |a: EntryView, b: EntryView| entry_le(a, b));
    }
    let ghost inv = views(inventory@).sort_by(inventory_le());
    let mut s = copy_range(inventory, 0, inventory.len());
    assert(views(s@) =~= views(inventory@));
    sort_records(&mut s, RecordOrder::Key);
    let ghost sv = views(s@);
    proof {
        lemma_entry_le_total();
        assert(inventory_le() =~= |a: EntryView, b: EntryView| entry_le(a, b));
        views(inventory@).lemma_sort_by_ensures(inventory_le());
        assert(key_order() =~= |a: EntryView, b: EntryView| order_le(RecordOrder::Key, a, b));
    }
    let mut groups: Vec<Vec<FileEntry>> = Vec::new();
    let ghost mut gkeys: Seq<(u64, Seq<u8>)> = Seq::empty();
    let mut start: usize = 0;
    while start < s.len()
        invariant
            sv == views(s@),
            sorted_by(sv, key_order()),
            start <= s.len(),
            0 < start < s.len() ==> key_of(sv[start - 1]) != key_of(sv[start as int]),
            groups.len() == gkeys.len(),
            forall|y: int|
                0 <= y < groups.len() ==> #[trigger] views(groups@[y]@) == bucket(sv, gkeys[y])
                    && bucket(sv, gkeys[y]).len() >= 2,
            forall|y: int|
                0 <= y < gkeys.len() && start < s.len() ==> key_cmp(
                    #[trigger] gkeys[y],
                    key_of(sv[start as int]),
                ) == Ordering::Less,
            forall|y: int, z: int|
                0 <= y < z < gkeys.len() ==> key_cmp(#[trigger] gkeys[y], #[trigger] gkeys[z])
                    == Ordering::Less,
            forall|j: int|
                0 <= j < start && bucket(sv, key_of(sv[j])).len() >= 2 ==> exists|y: int|
                    0 <= y < gkeys.len() && #[trigger] gkeys[y] == key_of(#[trigger] sv[j]),
        decreases s.len() - start,
    {
        let ghost k = key_of(sv[start as int]);
        let mut end: usize = start + 1;
        while end < s.len() && s[end].same_key(&s[start])
            invariant
                sv == views(s@),
                start < end <= s.len(),
                k == key_of(sv[start as int]),
                forall|x: int| start <= x < end ==> key_of(#[trigger] sv[x]) == k,
            decreases s.len() - end,
        {
            end = end + 1;
        }
        proof {
            lemma_run_is_bucket(sv, start as int, end as int);
        }
        let ghost old_keys = gkeys;
        if end - start >= 2 {
            let g = copy_range(&s, start, end);
            groups.push(g);
            proof {
                gkeys = gkeys.push(k);
                assert forall|y: int, z: int| 0 <= y < z < gkeys.len() implies key_cmp(
                    #[trigger] gkeys[y],
                    #[trigger] gkeys[z],
                ) == Ordering::Less by {
                    if z == gkeys.len() - 1 {
                        assert(key_cmp(old_keys[y], k) == Ordering::Less);
                    } else {
                        assert(key_cmp(old_keys[y], old_keys[z]) == Ordering::Less);
                    }
                }
            }
        }
        proof {
            if end < s.len() {
                let le = key_order();
                assert(le(sv[end - 1], sv[end as int]));
                lemma_key_order_keys(sv[end - 1], sv[end as int]);
                assert forall|y: int| 0 <= y < gkeys.len() implies key_cmp(
                    #[trigger] gkeys[y],
                    key_of(sv[end as int]),
                ) == Ordering::Less by {
                    if y < old_keys.len() {
                        assert(key_cmp(old_keys[y], k) == Ordering::Less);
                        lemma_key_less_trans(gkeys[y], k, key_of(sv[end as int]));
                    }
                }
            }
            assert forall|j: int|
                0 <= j < end && bucket(sv, key_of(sv[j])).len() >= 2 implies exists|y: int|
                0 <= y < gkeys.len() && #[trigger] gkeys[y] == key_of(#[trigger] sv[j]) by {
                if j >= start {
                    assert(key_of(sv[j]) == k);
                    assert(bucket(sv, k).len() == end - start);
                    assert(gkeys[gkeys.len() - 1] == k);
                } else {
                    let y = choose|y: int| 0 <= y < old_keys.len() && #[trigger] old_keys[y] == key_of(sv[j]);
                    assert(gkeys[y] == old_keys[y]);
                }
            }
        }
        start = end;
    }
    let ghost gv = group_views(groups@);
    assert forall|y: int| 0 <= y < gv.len() implies #[trigger] gv[y].len() >= 2 && gv[y] == bucket(
        inv,
        group_key(gv[y]),
    ) && group_key(gv[y]) == gkeys[y] by {
        assert(gv[y] == views(groups@[y]@));
        lemma_same_buckets(sv, inv, gkeys[y]);
        lemma_bucket_keys(inv, gkeys[y]);
    }
    assert forall|j: int|
        0 <= j < inv.len() && bucket(inv, key_of(inv[j])).len() >= 2 implies exists|i: int|
        0 <= i < gv.len() && group_key(#[trigger] gv[i]) == key_of(#[trigger] inv[j]) by {
        assert(inv.to_multiset().count(inv[j]) > 0);
        assert(sv.contains(inv[j]));
        let x = choose|x: int| 0 <= x < sv.len() && sv[x] == inv[j];
        lemma_same_buckets(sv, inv, key_of(inv[j]));
        let y = choose|y: int| 0 <= y < gkeys.len() && #[trigger] gkeys[y] == key_of(sv[x]);
        assert(group_key(gv[y]) == gkeys[y]);
    }
    assert forall|i: int, j: int| 0 <= i < j < gv.len() implies key_cmp(
        group_key(#[trigger] gv[i]),
        group_key(#[trigger] gv[j]),
    ) == Ordering::Less by {
        assert(group_key(gv[i]) == gkeys[i]);
        assert(group_key(gv[j]) == gkeys[j]);
    }
    groups
}

/// The group order is a total order on record views.
pub proof fn lemma_key_order_total()
    ensures
        total_ordering(key_order()),
{
    let le = key_order();
    lemma_entry_le_total();
    let ele = |a: EntryView, b: EntryView| entry_le(a, b);
    assert forall|a: EntryView| #[trigger] le(a, a) by {
        assert(ele(a, a));
    }
    assert forall|a: EntryView, b: EntryView| #[trigger] le(a, b) && #[trigger] le(b, a) implies a == b by {
        lemma_key_order_keys(a, b);
        lemma_key_order_keys(b, a);
        lemma_key_antisymmetric(key_of(a), key_of(b));
        lemma_lex_equal(a.checksum, b.checksum);
        assert(ele(a, b) && ele(b, a));
    }
    assert forall|a: EntryView, b: EntryView, c: EntryView| #[trigger] le(a, b) && #[trigger] le(b, c) implies le(a, c) by {
        lemma_key_order_keys(a, b);
        lemma_key_order_keys(b, c);
        lemma_lex_equal(a.checksum, b.checksum);
        lemma_lex_equal(b.checksum, c.checksum);
        lemma_lex_equal(a.checksum, c.checksum);
        if key_of(a) == key_of(b) && key_of(b) == key_of(c) {
            assert(ele(a, b) && ele(b, c));
            assert(ele(a, c));
        } else if key_of(a) == key_of(b) {
            assert(key_cmp(key_of(b), key_of(c)) == Ordering::Less);
        } else if key_of(b) == key_of(c) {
            assert(key_cmp(key_of(a), key_of(b)) == Ordering::Less);
        } else {
            lemma_key_less_trans(key_of(a), key_of(b), key_of(c));
        }
        if key_of(a) == key_of(c) && key_of(a) != key_of(b) {
            lemma_key_antisymmetric(key_of(a), key_of(b));
        }
    }
    assert forall|a: EntryView, b: EntryView| #[trigger] le(a, b) || #[trigger] le(b, a) by {
        lemma_lex_flip(a.checksum, b.checksum);
        lemma_lex_flip(b.checksum, a.checksum);
        lemma_lex_equal(a.checksum, b.checksum);
        assert(ele(a, b) || ele(b, a));
    }
}

} // verus!
