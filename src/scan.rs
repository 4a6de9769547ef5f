//! Collecting what the hashing workers return, once all of them are done.
use crate::entry::{views, EntryView, FileEntry};
use vstd::prelude::*;

verus! {

/// A file that was found but could not be read to the end.
#[derive(Clone, Debug, PartialEq, Eq)]
pub struct HashError {
    pub path: String,
    pub cause: String,
}

/// The records of the outcomes that succeeded, in order.
pub open spec fn hashed(o: Seq<Result<FileEntry, HashError>>) -> Seq<EntryView>
    decreases o.len(),
{
    if o.len() == 0 {
        Seq::empty()
    } else {
        match o.last() {
            Ok(e) => hashed(o.drop_last()).push(e@),
            Err(_) => hashed(o.drop_last()),
        }
    }
}

/// The paths and causes of the outcomes that failed, in order.
pub open spec fn failed(o: Seq<Result<FileEntry, HashError>>) -> Seq<(Seq<char>, Seq<char>)>
    decreases o.len(),
{
    if o.len() == 0 {
        Seq::empty()
    } else {
        match o.last() {
            Ok(_) => failed(o.drop_last()),
            Err(err) => failed(o.drop_last()).push((err.path@, err.cause@)),
        }
    }
}

pub open spec fn error_views(v: Seq<HashError>) -> Seq<(Seq<char>, Seq<char>)> {
    v.map_values(|e: HashError| (e.path@, e.cause@))
}

/// Splits the workers' outcomes into the records to group and the errors to
/// report; no outcome is dropped.
pub fn collect_outcomes(outcomes: &Vec<Result<FileEntry, HashError>>) -> (r: (Vec<FileEntry>, Vec<HashError>))
    ensures
        views(r.0@) == hashed(outcomes@),
        error_views(r.1@) == failed(outcomes@),
        r.0.len() + r.1.len() == outcomes.len(),
{
    let mut records: Vec<FileEntry> = Vec::new();
    let mut errors: Vec<HashError> = Vec::new();
    let mut i: usize = 0;
    while i < outcomes.len()
        invariant
            i <= outcomes.len(),
            views(records@) == hashed(outcomes@.take(i as int)),
            error_views(errors@) == failed(outcomes@.take(i as int)),
            records.len() + errors.len() == i,
        decreases outcomes.len() - i,
    {
        assert(outcomes@.take(i + 1).drop_last() =~= outcomes@.take(i as int));
        assert(outcomes@.take(i + 1).last() == outcomes@[i as int]);
        match &outcomes[i] {
            Ok(e) => {
                let d = e.duplicate();
                records.push(d);
                assert(views(records@) =~= hashed(outcomes@.take(i as int)).push(e@));
            },
            Err(err) => {
                let d = HashError { path: err.path.clone(), cause: err.cause.clone() };
                errors.push(d);
                assert(error_views(errors@) =~= failed(outcomes@.take(i as int)).push(
                    (err.path@, err.cause@),
                ));
            },
        }
        i = i + 1;
    }
    assert(outcomes@.take(i as int) =~= outcomes@);
    (records, errors)
}

} // verus!
