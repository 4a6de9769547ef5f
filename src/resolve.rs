//! Resolving duplicate groups by directory: groups held in one directory
//! are left alone; otherwise a directory to keep is chosen, automatically
//! when exactly one of the group's directories was chosen before, and every
//! copy outside it is deleted.
use crate::entry::FileEntry;
use crate::paths::{parent_of, path_parent, path_within, within};
use vstd::prelude::*;

verus! {

/// All members of `g` that have a parent directory share it, and one has.
pub open spec fn one_directory(g: Seq<FileEntry>) -> bool {
    &&& exists|i: int| 0 <= i < g.len() && (#[trigger] parent_of(g[i].path@)).is_some()
    &&& forall|i: int, j: int|
        0 <= i < g.len() && 0 <= j < g.len() && (#[trigger] parent_of(g[i].path@)).is_some() && (
        #[trigger] parent_of(g[j].path@)).is_some() ==> parent_of(g[i].path@) == parent_of(g[j].path@)
}

/// Whether every member of the group lies in one directory, so that there is
/// nothing to resolve.
pub fn in_one_directory(group: &Vec<FileEntry>) -> (r: bool)
    ensures
        r == one_directory(group@),
{
    let mut first: Option<String> = None;
    let mut split = false;
    let mut i: usize = 0;
    while i < group.len()
        invariant
            i <= group.len(),
            first.is_none() == (forall|j: int| 0 <= j < i ==> (#[trigger] parent_of(group@[j].path@)).is_none()),
            first matches Some(f) ==> exists|j: int| 0 <= j < i && #[trigger] parent_of(group@[j].path@) == Some(f@),
            first matches Some(f) ==> (split == exists|j: int|
                0 <= j < i && (#[trigger] parent_of(group@[j].path@)).is_some() && parent_of(group@[j].path@)
                    != Some(f@)),
            first.is_none() ==> !split,
        decreases group.len() - i,
    {
        let d = path_parent(group[i].path.as_str());
        match d {
            Some(d) => {
                match &first {
                    Some(f) => {
                        if d != *f {
                            split = true;
                        }
                    },
                    None => {
                        first = Some(d);
                    },
                }
            },
            None => {},
        }
        i = i + 1;
    }
    let r = first.is_some() && !split;
    proof {
        if let Some(f) = first {
            let j0 = choose|j: int| 0 <= j < i && #[trigger] parent_of(group@[j].path@) == Some(f@);
            if !split {
                assert forall|a: int, b: int|
                    0 <= a < group.len() && 0 <= b < group.len() && (#[trigger] parent_of(group@[a].path@)).is_some()
                        && (#[trigger] parent_of(group@[b].path@)).is_some() implies parent_of(group@[a].path@)
                    == parent_of(group@[b].path@) by {}
            } else {
                let j1 = choose|j: int|
                    0 <= j < i && (#[trigger] parent_of(group@[j].path@)).is_some() && parent_of(group@[j].path@)
                        != Some(f@);
                assert(parent_of(group@[j0].path@).is_some());
            }
        }
    }
    r
}

/// Whether `d` is one of the chosen directories.
pub open spec fn chosen(preferred: Seq<String>, d: Seq<char>) -> bool {
    exists|k: int| 0 <= k < preferred.len() && (#[trigger] preferred[k])@ == d
}

/// Member `j` of `g` lies directly in a chosen directory.
pub open spec fn in_chosen(g: Seq<FileEntry>, preferred: Seq<String>, j: int) -> bool {
    match parent_of(g[j].path@) {
        Some(d) => chosen(preferred, d),
        None => false,
    }
}

fn is_chosen(preferred: &Vec<String>, d: &String) -> (r: bool)
    ensures
        r == chosen(preferred@, d@),
{
    let mut k: usize = 0;
    while k < preferred.len()
        invariant
            k <= preferred.len(),
            forall|x: int| 0 <= x < k ==> (#[trigger] preferred@[x])@ != d@,
        decreases preferred.len() - k,
    {
        if preferred[k] == *d {
            return true;
        }
        k = k + 1;
    }
    false
}

/// The directory to keep without asking: the one chosen directory among the
/// group's directories, when there is exactly one.
pub fn auto_keep(group: &Vec<FileEntry>, preferred: &Vec<String>) -> (r: Option<String>)
    ensures
        match r {
            Some(d) => (exists|j: int| 0 <= j < group.len() && in_chosen(group@, preferred@, j))
                && forall|j: int|
                0 <= j < group.len() && #[trigger] in_chosen(group@, preferred@, j) ==> parent_of(group@[j].path@)
                    == Some(d@),
            None => (forall|j: int| 0 <= j < group.len() ==> !#[trigger] in_chosen(group@, preferred@, j))
                || exists|a: int, b: int|
                0 <= a < group.len() && 0 <= b < group.len() && #[trigger] in_chosen(group@, preferred@, a)
                    && #[trigger] in_chosen(group@, preferred@, b) && parent_of(group@[a].path@) != parent_of(
                    group@[b].path@,
                ),
        },
{
    let mut first: Option<String> = None;
    let mut split = false;
    let mut i: usize = 0;
    while i < group.len()
        invariant
            i <= group.len(),
            first.is_none() == (forall|j: int| 0 <= j < i ==> !#[trigger] in_chosen(group@, preferred@, j)),
            first matches Some(f) ==> exists|j: int|
                0 <= j < i && #[trigger] in_chosen(group@, preferred@, j) && parent_of(group@[j].path@) == Some(f@),
            first matches Some(f) ==> (split == exists|j: int|
                0 <= j < i && #[trigger] in_chosen(group@, preferred@, j) && parent_of(group@[j].path@) != Some(f@)),
            first.is_none() ==> !split,
        decreases group.len() - i,
    {
        match path_parent(group[i].path.as_str()) {
            Some(d) => {
                if is_chosen(preferred, &d) {
                    match &first {
                        Some(f) => {
                            if d != *f {
                                split = true;
                            }
                        },
                        None => {
                            first = Some(d);
                        },
                    }
                }
            },
            None => {},
        }
        assert(in_chosen(group@, preferred@, i as int) == (parent_of(group@[i as int].path@) matches Some(
            d,
        ) && chosen(preferred@, d)));
        i = i + 1;
    }
    match first {
        Some(f) => {
            if split {
                proof {
                    let j1 = choose|j: int|
                        0 <= j < i && #[trigger] in_chosen(group@, preferred@, j) && parent_of(group@[j].path@)
                            != Some(f@);
                    let j0 = choose|j: int|
                        0 <= j < i && #[trigger] in_chosen(group@, preferred@, j) && parent_of(group@[j].path@)
                            == Some(f@);
                    assert(parent_of(group@[j0].path@) != parent_of(group@[j1].path@));
                }
                None
            } else {
                Some(f)
            }
        },
        None => None,
    }
}

/// The positions, ascending, of the members of `g` outside `keep`.
pub open spec fn outside_positions(g: Seq<FileEntry>, keep: Seq<char>) -> Seq<int>
    decreases g.len(),
{
    if g.len() == 0 {
        Seq::empty()
    } else if within(g.last().path@, keep) {
        outside_positions(g.drop_last(), keep)
    } else {
        outside_positions(g.drop_last(), keep).push(g.len() - 1)
    }
}

/// What keeping the directory `keep` means for a group: `None` when no
/// member lies within it (the group stays open); otherwise the positions of
/// the members outside it, which are deleted.
pub fn keep_deletions(group: &Vec<FileEntry>, keep: &str) -> (r: Option<Vec<usize>>)
    ensures
        r.is_none() == (forall|i: int| 0 <= i < group.len() ==> !within(#[trigger] group@[i].path@, keep@)),
        r matches Some(v) ==> v@.map_values(|x: usize| x as int) == outside_positions(group@, keep@),
{
    let mut v: Vec<usize> = Vec::new();
    let mut any_within = false;
    let mut i: usize = 0;
    while i < group.len()
        invariant
            i <= group.len(),
            v@.map_values(|x: usize| x as int) == outside_positions(group@.take(i as int), keep@),
            any_within == (exists|j: int| 0 <= j < i && within(#[trigger] group@[j].path@, keep@)),
        decreases group.len() - i,
    {
        proof {
            assert(group@.take(i + 1).drop_last() =~= group@.take(i as int));
            assert(group@.take(i + 1).last() == group@[i as int]);
        }
        if path_within(group[i].path.as_str(), keep) {
            any_within = true;
        } else {
            v.push(i);
            assert(v@.map_values(|x: usize| x as int) =~= outside_positions(group@.take(i as int), keep@).push(
                i as int,
            ));
        }
        i = i + 1;
    }
    assert(group@.take(i as int) =~= group@);
    if any_within {
        Some(v)
    } else {
        None
    }
}

/// The first group at or after `from` that is not yet resolved.
pub fn next_open(processed: &Vec<bool>, from: usize) -> (r: Option<usize>)
    ensures
        match r {
            Some(g) => from <= g < processed.len() && !processed@[g as int] && forall|k: int|
                from <= k < g ==> #[trigger] processed@[k],
            None => forall|k: int| from <= k < processed.len() ==> #[trigger] processed@[k],
        },
{
    let mut g: usize = from;
    while g < processed.len()
        invariant
            from <= g,
            forall|k: int| from <= k < g && k < processed.len() ==> #[trigger] processed@[k],
        decreases processed.len() - g,
    {
        if !processed[g] {
            return Some(g);
        }
        g = g + 1;
    }
    None
}

/// The directory of the file at `path`, if it has one.
pub fn parent_dir(path: &str) -> (r: Option<String>)
    ensures
        r.is_none() == parent_of(path@).is_none(),
        r matches Some(d) ==> parent_of(path@) == Some(d@),
{
    path_parent(path)
}

} // verus!
