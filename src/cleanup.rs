//! The deletion policy for duplicate groups: records outside the
//! instant-upload folder for Telegram are preferred and kept.
use crate::entry::{views, EntryView, FileEntry};
use vstd::prelude::*;
use vstd::string::StringSliceAdditionalSpecFns;

verus! {

/// The folder whose copies of a file are the ones to delete.
pub const TELEGRAM_DIR: &'static str = "/var/lib/docker/volumes/nextcloud_aio_nextcloud_data/_data/trwa/files/SofortUpload/Telegram/";

/// Whether a record lies outside the Telegram folder.
pub open spec fn preferred(e: EntryView) -> bool {
    !TELEGRAM_DIR.spec_bytes().is_prefix_of(e.path)
}

/// Whether `prefix` is a prefix of `s`.
pub fn starts_with_bytes(s: &[u8], prefix: &[u8]) -> (r: bool)
    ensures
        r == prefix@.is_prefix_of(s@),
{
    if prefix.len() > s.len() {
        return false;
    }
    let mut i: usize = 0;
    while i < prefix.len()
        invariant
            prefix.len() <= s.len(),
            i <= prefix.len(),
            forall|j: int| 0 <= j < i ==> s@[j] == prefix@[j],
        decreases prefix.len() - i,
    {
        if s[i] != prefix[i] {
            return false;
        }
        i = i + 1;
    }
    assert(s@.subrange(0, prefix@.len() as int) =~= prefix@);
    true
}

/// Whether the record lies outside the Telegram folder, so that it is kept.
pub fn is_preferred_entry(file: &FileEntry) -> (r: bool)
    ensures
        r == preferred(file@),
{
    !starts_with_bytes(file.path.as_str().as_bytes(), TELEGRAM_DIR.as_bytes())
}

/// The positions, ascending, of the records of `g` that are not preferred.
pub open spec fn unpreferred_positions(g: Seq<EntryView>) -> Seq<int>
    decreases g.len(),
{
    if g.len() == 0 {
        Seq::empty()
    } else if preferred(g.last()) {
        unpreferred_positions(g.drop_last())
    } else {
        unpreferred_positions(g.drop_last()).push(g.len() - 1)
    }
}

/// Which records of a group to delete: `None` when no record is preferred,
/// since then nothing tells which copy to keep; otherwise the positions of
/// the records that are not preferred.
pub fn files_to_delete(group: &Vec<FileEntry>) -> (r: Option<Vec<usize>>)
    ensures
        r.is_none() == (forall|i: int| 0 <= i < group.len() ==> !preferred(#[trigger] group@[i]@)),
        r matches Some(v) ==> v@.map_values(|x: usize| x as int) == unpreferred_positions(views(group@)),
{
    let ghost g = views(group@);
    let mut v: Vec<usize> = Vec::new();
    let mut any_preferred = false;
    let mut i: usize = 0;
    while i < group.len()
        invariant
            i <= group.len(),
            g == views(group@),
            v@.map_values(|x: usize| x as int) == unpreferred_positions(g.take(i as int)),
            any_preferred == (exists|j: int| 0 <= j < i && preferred(#[trigger] g[j])),
        decreases group.len() - i,
    {
        proof {
            assert(g.take(i + 1).drop_last() =~= g.take(i as int));
            assert(g.take(i + 1).last() == g[i as int]);
            assert(g[i as int] == group@[i as int]@);
        }
        if is_preferred_entry(&group[i]) {
            any_preferred = true;
        } else {
            v.push(i);
            assert(v@.map_values(|x: usize| x as int) =~= unpreferred_positions(g.take(i as int)).push(
                i as int,
            ));
        }
        i = i + 1;
    }
    assert(g.take(i as int) =~= g);
    if !any_preferred {
        assert forall|j: int| 0 <= j < group.len() implies !preferred(#[trigger] group@[j]@) by {
            assert(g[j] == group@[j]@);
        }
        None
    } else {
        let ghost j = choose|j: int| 0 <= j < i && preferred(#[trigger] g[j]);
        assert(g[j] == group@[j]@);
        Some(v)
    }
}

} // verus!
