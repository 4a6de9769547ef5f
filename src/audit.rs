//! The integrity audit of duplicate groups: one digest over several sizes
//! points to a digest collision or a truncated read.
use crate::entry::{compare_str, lemma_lex_equal, views, EntryView, FileEntry};
use std::cmp::Ordering;
use vstd::prelude::*;

verus! {

/// All members of `g` carry one digest, but not all one size.
pub open spec fn size_mismatch(g: Seq<EntryView>) -> bool {
    &&& g.len() > 0
    &&& forall|i: int| 0 <= i < g.len() ==> (#[trigger] g[i]).checksum == g[0].checksum
    &&& exists|i: int| 0 <= i < g.len() && (#[trigger] g[i]).size != g[0].size
}

/// Whether the group's members share a digest but disagree on size.
pub fn has_size_mismatch(group: &Vec<FileEntry>) -> (r: bool)
    ensures
        r == size_mismatch(views(group@)),
{
    let ghost g = views(group@);
    if group.len() == 0 {
        return false;
    }
    let mut same_digest = true;
    let mut sizes_differ = false;
    let mut i: usize = 0;
    while i < group.len()
        invariant
            0 < group.len(),
            i <= group.len(),
            g == views(group@),
            same_digest == (forall|j: int| 0 <= j < i ==> (#[trigger] g[j]).checksum == g[0].checksum),
            sizes_differ == (exists|j: int| 0 <= j < i && (#[trigger] g[j]).size != g[0].size),
        decreases group.len() - i,
    {
        let c = compare_str(&group[i].checksum, &group[0].checksum);
        proof {
            lemma_lex_equal(g[i as int].checksum, g[0].checksum);
            assert(g[i as int] == group@[i as int]@);
            assert(g[0] == group@[0]@);
        }
        if !matches!(c, Ordering::Equal) {
            same_digest = false;
        }
        if group[i].size != group[0].size {
            sizes_differ = true;
        }
        i = i + 1;
    }
    same_digest && sizes_differ
}

} // verus!
