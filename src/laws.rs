//! What holds of every report, stated over the contracts of the grouper.
use crate::entry::{key_cmp, key_le, key_of, lemma_entry_le_total, lemma_key_le_total, EntryView};
use crate::audit::size_mismatch;
use crate::entry::FileEntry;
use crate::report::{bucket, group_key, inventory_le, is_duplicate_report, lemma_filter_multiset, reports};
use crate::scan::{hashed, HashError};
use std::cmp::Ordering;
use vstd::prelude::*;
use vstd::relations::sorted_by;

verus! {

broadcast use vstd::seq_lib::group_seq_properties, vstd::seq_lib::group_to_multiset_ensures,
    vstd::seq_lib::group_filter_ensures;

/// A group of a report carries the key of a record of the inventory, and
/// every one of its members has that key.
proof fn lemma_group_members(inv: Seq<EntryView>, groups: Seq<Seq<EntryView>>, i: int)
    requires
        is_duplicate_report(inv, groups),
        0 <= i < groups.len(),
    ensures
        exists|j: int| 0 <= j < inv.len() && #[trigger] key_of(inv[j]) == group_key(groups[i]),
        bucket(inv, group_key(groups[i])).len() >= 2,
        forall|a: int| 0 <= a < groups[i].len() ==> key_of(#[trigger] groups[i][a]) == group_key(groups[i]),
{
    let k = group_key(groups[i]);
    let p = |e: EntryView| key_of(e) == k;
    assert(groups[i] == bucket(inv, k));
    assert forall|a: int| 0 <= a < groups[i].len() implies key_of(#[trigger] groups[i][a]) == k by {
        inv.lemma_filter_pred(p, a);
    }
    assert(inv.filter(p).contains(groups[i][0]));
    inv.lemma_filter_contains_rev(p, groups[i][0]);
    let j = choose|j: int| 0 <= j < inv.len() && inv[j] == groups[i][0];
    assert(key_of(inv[j]) == k);
}

/// An inventory has only one list of duplicate groups.
pub proof fn lemma_duplicate_groups_unique(
    inv: Seq<EntryView>,
    g1: Seq<Seq<EntryView>>,
    g2: Seq<Seq<EntryView>>,
)
    requires
        is_duplicate_report(inv, g1),
        is_duplicate_report(inv, g2),
    ensures
        g1 == g2,
{
    broadcast use vstd::multiset::group_multiset_axioms;

    let k1 = g1.map_values(|g: Seq<EntryView>| group_key(g));
    let k2 = g2.map_values(|g: Seq<EntryView>| group_key(g));
    let le = |a: (u64, Seq<u8>), b: (u64, Seq<u8>)| key_le(a, b);
    lemma_key_le_total();
    assert forall|x: int| 0 <= x < k1.len() implies k2.contains(#[trigger] k1[x]) by {
        lemma_group_members(inv, g1, x);
        let j = choose|j: int| 0 <= j < inv.len() && #[trigger] key_of(inv[j]) == group_key(g1[x]);
        let y = choose|y: int| 0 <= y < g2.len() && group_key(#[trigger] g2[y]) == key_of(#[trigger] inv[j]);
        assert(k2[y] == k1[x]);
    }
    assert forall|x: int| 0 <= x < k2.len() implies k1.contains(#[trigger] k2[x]) by {
        lemma_group_members(inv, g2, x);
        let j = choose|j: int| 0 <= j < inv.len() && #[trigger] key_of(inv[j]) == group_key(g2[x]);
        let y = choose|y: int| 0 <= y < g1.len() && group_key(#[trigger] g1[y]) == key_of(#[trigger] inv[j]);
        assert(k1[y] == k2[x]);
    }
    assert forall|x: int, y: int| 0 <= x < y < k1.len() implies #[trigger] le(k1[x], k1[y]) && k1[x] != k1[y] by {
        assert(k1[x] == group_key(g1[x]) && k1[y] == group_key(g1[y]));
        assert(key_cmp(k1[x], k1[y]) == Ordering::Less);
        crate::entry::lemma_lex_equal(k1[x].1, k1[y].1);
    }
    assert forall|x: int, y: int| 0 <= x < y < k2.len() implies #[trigger] le(k2[x], k2[y]) && k2[x] != k2[y] by {
        assert(k2[x] == group_key(g2[x]) && k2[y] == group_key(g2[y]));
        assert(key_cmp(k2[x], k2[y]) == Ordering::Less);
        crate::entry::lemma_lex_equal(k2[x].1, k2[y].1);
    }
    assert(k1.no_duplicates()) by {
        assert forall|x: int, y: int| 0 <= x < k1.len() && 0 <= y < k1.len() && x != y implies k1[x]
            != k1[y] by {
            if x < y {
                assert(le(k1[x], k1[y]));
            } else {
                assert(le(k1[y], k1[x]));
            }
        }
    }
    assert(k2.no_duplicates()) by {
        assert forall|x: int, y: int| 0 <= x < k2.len() && 0 <= y < k2.len() && x != y implies k2[x]
            != k2[y] by {
            if x < y {
                assert(le(k2[x], k2[y]));
            } else {
                assert(le(k2[y], k2[x]));
            }
        }
    }
    k1.lemma_multiset_has_no_duplicates();
    k2.lemma_multiset_has_no_duplicates();
    assert forall|k: (u64, Seq<u8>)| k1.to_multiset().count(k) == k2.to_multiset().count(k) by {
        if k1.contains(k) {
            let x = choose|x: int| 0 <= x < k1.len() && k1[x] == k;
            assert(k2.contains(k1[x]));
        }
        if k2.contains(k) {
            let x = choose|x: int| 0 <= x < k2.len() && k2[x] == k;
            assert(k1.contains(k2[x]));
        }
    }
    assert(k1.to_multiset() =~= k2.to_multiset());
    assert(sorted_by(k1, le));
    assert(sorted_by(k2, le));
    vstd::seq_lib::lemma_sorted_unique(k1, k2, le);
    assert forall|x: int| 0 <= x < g1.len() implies g1[x] == g2[x] by {
        assert(k1[x] == k2[x]);
    }
    assert(g1 =~= g2);
}

/// Determinism: runs over the same records, handed over in any order, report
/// the same inventory and the same duplicate groups.
pub proof fn lemma_report_deterministic(
    records1: Seq<EntryView>,
    records2: Seq<EntryView>,
    inv1: Seq<EntryView>,
    groups1: Seq<Seq<EntryView>>,
    inv2: Seq<EntryView>,
    groups2: Seq<Seq<EntryView>>,
)
    requires
        records1.to_multiset() == records2.to_multiset(),
        reports(records1, inv1, groups1),
        reports(records2, inv2, groups2),
    ensures
        inv1 == inv2,
        groups1 == groups2,
{
    let le = inventory_le();
    lemma_entry_le_total();
    assert(le =~= |a: EntryView, b: EntryView| crate::entry::entry_le(a, b));
    records1.lemma_sort_by_ensures(le);
    records2.lemma_sort_by_ensures(le);
    vstd::seq_lib::lemma_sorted_unique(inv1, inv2, le);
    lemma_duplicate_groups_unique(inv1, groups1, groups2);
}

/// Grouping correctness: members of one group share size and digest, and
/// members of two different groups differ in size or digest.
pub proof fn lemma_grouping_correct(inv: Seq<EntryView>, groups: Seq<Seq<EntryView>>)
    requires
        is_duplicate_report(inv, groups),
    ensures
        forall|i: int, a: int, b: int|
            0 <= i < groups.len() && 0 <= a < groups[i].len() && 0 <= b < groups[i].len() ==> (
            #[trigger] groups[i][a]).size == (#[trigger] groups[i][b]).size && groups[i][a].checksum
                == groups[i][b].checksum,
        forall|i: int, j: int, a: int, b: int|
            0 <= i < groups.len() && 0 <= j < groups.len() && i != j && 0 <= a < groups[i].len() && 0
                <= b < groups[j].len() ==> key_of(#[trigger] groups[i][a]) != key_of(
                #[trigger] groups[j][b],
            ),
{
    assert forall|i: int, a: int, b: int|
        0 <= i < groups.len() && 0 <= a < groups[i].len() && 0 <= b < groups[i].len() implies (
    #[trigger] groups[i][a]).size == (#[trigger] groups[i][b]).size && groups[i][a].checksum
        == groups[i][b].checksum by {
        lemma_group_members(inv, groups, i);
    }
    assert forall|i: int, j: int, a: int, b: int|
        0 <= i < groups.len() && 0 <= j < groups.len() && i != j && 0 <= a < groups[i].len() && 0 <= b
            < groups[j].len() implies key_of(#[trigger] groups[i][a]) != key_of(
        #[trigger] groups[j][b],
    ) by {
        lemma_group_members(inv, groups, i);
        lemma_group_members(inv, groups, j);
        if i < j {
            assert(key_cmp(group_key(groups[i]), group_key(groups[j])) == Ordering::Less);
        } else {
            assert(key_cmp(group_key(groups[j]), group_key(groups[i])) == Ordering::Less);
        }
        crate::entry::lemma_lex_equal(group_key(groups[i]).1, group_key(groups[j]).1);
    }
}

/// Completeness: the inventory holds every record exactly as often as the
/// run was given it; a record whose key another record shares is in a
/// duplicate group; and no record is in two groups.
pub proof fn lemma_report_complete(
    records: Seq<EntryView>,
    inv: Seq<EntryView>,
    groups: Seq<Seq<EntryView>>,
)
    requires
        reports(records, inv, groups),
    ensures
        inv.to_multiset() == records.to_multiset(),
        forall|j: int|
            0 <= j < inv.len() && bucket(inv, key_of(inv[j])).len() >= 2 ==> exists|i: int|
                0 <= i < groups.len() && (#[trigger] groups[i]).contains(#[trigger] inv[j]),
        forall|i: int, j: int, e: EntryView|
            0 <= i < groups.len() && 0 <= j < groups.len() && #[trigger] groups[i].contains(e)
                && #[trigger] groups[j].contains(e) ==> i == j,
{
    lemma_entry_le_total();
    assert(inventory_le() =~= |a: EntryView, b: EntryView| crate::entry::entry_le(a, b));
    records.lemma_sort_by_ensures(inventory_le());
    lemma_grouping_correct(inv, groups);
    assert forall|j: int|
        0 <= j < inv.len() && bucket(inv, key_of(inv[j])).len() >= 2 implies exists|i: int|
        0 <= i < groups.len() && (#[trigger] groups[i]).contains(#[trigger] inv[j]) by {
        let i = choose|i: int| 0 <= i < groups.len() && group_key(#[trigger] groups[i]) == key_of(inv[j]);
        inv.lemma_filter_contains(|e: EntryView| key_of(e) == key_of(inv[j]), j);
        assert(groups[i] == bucket(inv, key_of(inv[j])));
    }
    assert forall|i: int, j: int, e: EntryView|
        0 <= i < groups.len() && 0 <= j < groups.len() && #[trigger] groups[i].contains(e)
        && #[trigger] groups[j].contains(e) implies i == j by {
        let a = choose|a: int| 0 <= a < groups[i].len() && groups[i][a] == e;
        let b = choose|b: int| 0 <= b < groups[j].len() && groups[j][b] == e;
        if i != j {
            assert(key_of(groups[i][a]) != key_of(groups[j][b]));
        }
    }
}

/// Singleton exclusion: a record whose key no other record shares is in no
/// duplicate group.
pub proof fn lemma_singletons_excluded(inv: Seq<EntryView>, groups: Seq<Seq<EntryView>>, j: int)
    requires
        is_duplicate_report(inv, groups),
        0 <= j < inv.len(),
        bucket(inv, key_of(inv[j])).len() == 1,
    ensures
        forall|i: int| 0 <= i < groups.len() ==> !(#[trigger] groups[i]).contains(inv[j]),
{
    assert forall|i: int| 0 <= i < groups.len() implies !(#[trigger] groups[i]).contains(inv[j]) by {
        if groups[i].contains(inv[j]) {
            lemma_group_members(inv, groups, i);
            let a = choose|a: int| 0 <= a < groups[i].len() && groups[i][a] == inv[j];
            assert(key_of(groups[i][a]) == group_key(groups[i]));
        }
    }
}

/// Idempotence: grouping a reported inventory again, without rescanning,
/// gives back that inventory and the same duplicate groups.
pub proof fn lemma_regroup_idempotent(
    records: Seq<EntryView>,
    inv: Seq<EntryView>,
    groups: Seq<Seq<EntryView>>,
    inv2: Seq<EntryView>,
    groups2: Seq<Seq<EntryView>>,
)
    requires
        reports(records, inv, groups),
        reports(inv, inv2, groups2),
    ensures
        inv2 == inv,
        groups2 == groups,
{
    lemma_entry_le_total();
    assert(inventory_le() =~= |a: EntryView, b: EntryView| crate::entry::entry_le(a, b));
    records.lemma_sort_by_ensures(inventory_le());
    lemma_report_deterministic(records, inv, inv, groups, inv2, groups2);
}

/// The integrity audit flags no group of a report: members of one group
/// never disagree on size.
pub proof fn lemma_audit_quiet(inv: Seq<EntryView>, groups: Seq<Seq<EntryView>>)
    requires
        is_duplicate_report(inv, groups),
    ensures
        forall|i: int| 0 <= i < groups.len() ==> !size_mismatch(#[trigger] groups[i]),
{
    lemma_grouping_correct(inv, groups);
    assert forall|i: int| 0 <= i < groups.len() implies !size_mismatch(#[trigger] groups[i]) by {
        if size_mismatch(groups[i]) {
            let a = choose|a: int| 0 <= a < groups[i].len() && (#[trigger] groups[i][a]).size != groups[i][0].size;
            assert(groups[i][a].size == groups[i][0].size);
        }
    }
}

/// Outcome `r` succeeded with a record whose view is `x`.
pub open spec fn ok_with(r: Result<FileEntry, HashError>, x: EntryView) -> bool {
    match r {
        Ok(e) => e@ == x,
        Err(_) => false,
    }
}

proof fn lemma_hashed_from_ok(o: Seq<Result<FileEntry, HashError>>)
    ensures
        forall|x: EntryView| #[trigger] hashed(o).contains(x) ==> exists|i: int|
            0 <= i < o.len() && ok_with(#[trigger] o[i], x),
    decreases o.len(),
{
    if o.len() > 0 {
        let rest = o.drop_last();
        lemma_hashed_from_ok(rest);
        assert forall|x: EntryView| #[trigger] hashed(o).contains(x) implies exists|i: int|
            0 <= i < o.len() && ok_with(#[trigger] o[i], x) by {
            match o.last() {
                Ok(e) => {
                    if x != e@ {
                        assert(hashed(rest).contains(x)) by {
                            let k = choose|k: int| 0 <= k < hashed(o).len() && hashed(o)[k] == x;
                            assert(hashed(o) == hashed(rest).push(e@));
                            assert(hashed(rest)[k] == x);
                        }
                        let i = choose|i: int| 0 <= i < rest.len() && ok_with(#[trigger] rest[i], x);
                        assert(o[i] == rest[i]);
                    } else {
                        assert(o[o.len() - 1] == o.last());
                    }
                },
                Err(_) => {
                    assert(hashed(o) == hashed(rest));
                    assert(hashed(rest).contains(x));
                    let i = choose|i: int| 0 <= i < rest.len() && ok_with(#[trigger] rest[i], x);
                    assert(o[i] == rest[i]);
                },
            }
        }
    }
}

/// A file that failed to hash is left out: the inventory built from the
/// workers' outcomes holds exactly the records of the outcomes that
/// succeeded, and every member of a group is one of them.
pub proof fn lemma_failures_excluded(
    o: Seq<Result<FileEntry, HashError>>,
    inv: Seq<EntryView>,
    groups: Seq<Seq<EntryView>>,
)
    requires
        reports(hashed(o), inv, groups),
    ensures
        inv.to_multiset() == hashed(o).to_multiset(),
        forall|x: EntryView| #[trigger] inv.contains(x) ==> exists|i: int|
            0 <= i < o.len() && ok_with(#[trigger] o[i], x),
        forall|g: int, a: int| 0 <= g < groups.len() && 0 <= a < groups[g].len() ==> inv.contains(#[trigger] groups[g][a]),
{
    lemma_report_complete(hashed(o), inv, groups);
    lemma_hashed_from_ok(o);
    assert forall|x: EntryView| #[trigger] inv.contains(x) implies exists|i: int|
        0 <= i < o.len() && ok_with(#[trigger] o[i], x) by {
        assert(inv.to_multiset().count(x) > 0);
        assert(hashed(o).to_multiset().count(x) > 0);
        assert(hashed(o).contains(x));
    }
    assert forall|g: int, a: int| 0 <= g < groups.len() && 0 <= a < groups[g].len() implies inv.contains(
        #[trigger] groups[g][a],
    ) by {
        let k = group_key(groups[g]);
        assert(groups[g] == bucket(inv, k));
        assert(groups[g].contains(groups[g][a]));
        inv.lemma_filter_contains_rev(|e: EntryView| key_of(e) == k, groups[g][a]);
    }
}

/// No record repeats inside a group when the inventory repeats none.
pub proof fn lemma_groups_without_repeats(inv: Seq<EntryView>, groups: Seq<Seq<EntryView>>)
    requires
        is_duplicate_report(inv, groups),
        inv.no_duplicates(),
    ensures
        forall|i: int| 0 <= i < groups.len() ==> (#[trigger] groups[i]).no_duplicates(),
{
    broadcast use vstd::multiset::group_multiset_axioms;

    inv.lemma_multiset_has_no_duplicates();
    assert forall|i: int| 0 <= i < groups.len() implies (#[trigger] groups[i]).no_duplicates() by {
        let k = group_key(groups[i]);
        let p = |e: EntryView| key_of(e) == k;
        assert(groups[i] == inv.filter(p));
        lemma_filter_multiset(inv, p);
        assert forall|x: EntryView| groups[i].to_multiset().contains(x) implies groups[i].to_multiset().count(x)
            == 1 by {
            assert(inv.to_multiset().count(x) >= groups[i].to_multiset().count(x));
            assert(inv.to_multiset().contains(x));
        }
        groups[i].lemma_multiset_has_no_duplicates_conv();
    }
}

} // verus!
