//! Run statistics: progress counters and the summary of duplicate groups.
use crate::entry::{views, EntryView, FileEntry};
use crate::report::group_views;
use vstd::prelude::*;

verus! {

/// How many hashed files lie between two progress lines.
pub const PROGRESS_EVERY: u64 = 100;

/// Files hashed and bytes read so far in one run.
pub struct RunStats {
    pub files: u64,
    pub bytes: u64,
}

impl RunStats {
    /// Counters at the start of a run.
    pub fn new() -> (r: RunStats)
        ensures
            r.files == 0,
            r.bytes == 0,
    {
        RunStats { files: 0, bytes: 0 }
    }

    /// Counts one more hashed file of `size` bytes; a counter that would pass
    /// `u64::MAX` stays there. Returns whether a progress line is due.
    pub fn record(&mut self, size: u64) -> (due: bool)
        ensures
            final(self).files == if old(self).files < u64::MAX {
                old(self).files + 1
            } else {
                u64::MAX as int
            },
            final(self).bytes == if old(self).bytes + size <= u64::MAX {
                old(self).bytes + size
            } else {
                u64::MAX as int
            },
            due == (final(self).files % PROGRESS_EVERY == 0),
    {
        self.files = self.files.saturating_add(1);
        self.bytes = self.bytes.saturating_add(size);
        self.files % PROGRESS_EVERY == 0
    }
}

/// The number of records over all groups.
pub open spec fn files_in(groups: Seq<Seq<EntryView>>) -> int
    decreases groups.len(),
{
    if groups.len() == 0 {
        0
    } else {
        files_in(groups.drop_last()) + groups.last().len()
    }
}

/// The bytes freed by keeping one record of a group and removing the rest.
pub open spec fn group_savings(g: Seq<EntryView>) -> int {
    if g.len() == 0 {
        0
    } else {
        g[0].size * (g.len() - 1)
    }
}

/// The bytes freed over all groups.
pub open spec fn savings_in(groups: Seq<Seq<EntryView>>) -> int
    decreases groups.len(),
{
    if groups.len() == 0 {
        0
    } else {
        savings_in(groups.drop_last()) + group_savings(groups.last())
    }
}

/// Totals over the duplicate groups of a run.
pub struct DuplicateSummary {
    pub duplicate_files: u64,
    pub groups: u64,
    pub potential_savings: u64,
}

proof fn lemma_totals_grow(groups: Seq<Seq<EntryView>>, i: int)
    requires
        0 <= i <= groups.len(),
    ensures
        files_in(groups.take(i)) <= files_in(groups),
        savings_in(groups.take(i)) <= savings_in(groups),
    decreases groups.len() - i,
{
    if i < groups.len() {
        lemma_totals_grow(groups, i + 1);
        assert(groups.take(i + 1).drop_last() =~= groups.take(i));
        let g = groups[i];
        if g.len() > 0 {
            assert(g[0].size * (g.len() - 1) >= 0) by (nonlinear_arith)
                requires
                    g.len() >= 1,
            ;
        }
    } else {
        assert(groups.take(i) =~= groups);
    }
}

/// Counts the duplicate files and the bytes that removing all but one
/// member of each group would free. `None` when a total exceeds `u64::MAX`.
pub fn summarize(groups: &Vec<Vec<FileEntry>>) -> (r: Option<DuplicateSummary>)
    ensures
        r.is_some() == (files_in(group_views(groups@)) <= u64::MAX && savings_in(group_views(groups@))
            <= u64::MAX),
        r matches Some(s) ==> s.duplicate_files == files_in(group_views(groups@)) && s.groups
            == groups.len() && s.potential_savings == savings_in(group_views(groups@)),
{
    let ghost gv = group_views(groups@);
    let mut files: u64 = 0;
    let mut savings: u64 = 0;
    let mut i: usize = 0;
    while i < groups.len()
        invariant
            i <= groups.len(),
            gv == group_views(groups@),
            files == files_in(gv.take(i as int)),
            savings == savings_in(gv.take(i as int)),
        decreases groups.len() - i,
    {
        proof {
            assert(gv.take(i + 1).drop_last() =~= gv.take(i as int));
            assert(gv[i as int] == views(groups@[i as int]@));
            lemma_totals_grow(gv, i + 1);
        }
        let g = &groups[i];
        let n = g.len();
        let extra: u64 = if n == 0 {
            0
        } else {
            let c = n as u64 - 1;
            match g[0].size.checked_mul(c) {
                Some(x) => x,
                None => {
                    proof {
                        assert(savings_in(gv.take(i + 1)) >= g[0].size * c);
                    }
                    return None;
                },
            }
        };
        match files.checked_add(n as u64) {
            Some(x) => {
                files = x;
            },
            None => {
                return None;
            },
        }
        match savings.checked_add(extra) {
            Some(x) => {
                savings = x;
            },
            None => {
                return None;
            },
        }
        i = i + 1;
    }
    assert(gv.take(i as int) =~= gv);
    Some(DuplicateSummary { duplicate_files: files, groups: groups.len() as u64, potential_savings: savings })
}

} // verus!
