//! Deletions on the file-sync server: which copies of a group go, and the
//! WebDAV URLs that remove them.
use crate::cleanup::{is_preferred_entry, preferred};
use crate::entry::{views, EntryView, FileEntry};
use vstd::prelude::*;
use vstd::string::StringSliceAdditionalSpecFns;

verus! {

/// The marker after which a server path names a file of the sync account.
pub const FILES_MARKER: &'static str = "/trwa/files/";

/// The folder of instant-upload screenshots, sorted by year and month.
pub const SCREENSHOT_DIR: &'static str = "/var/lib/docker/volumes/nextcloud_aio_nextcloud_data/_data/trwa/files/SofortUpload/Screenshots/";

/// `m` stands in `s` at position `i`.
pub open spec fn occurs_at(s: Seq<u8>, m: Seq<u8>, i: int) -> bool {
    0 <= i && i + m.len() <= s.len() && s.subrange(i, i + m.len()) == m
}

/// The first position at or after `from` where `m` stands in `s`.
pub open spec fn find_from(s: Seq<u8>, m: Seq<u8>, from: int) -> Option<int>
    decreases s.len() + 1 - from,
{
    if from < 0 || from + m.len() > s.len() {
        None
    } else if occurs_at(s, m, from) {
        Some(from)
    } else {
        find_from(s, m, from + 1)
    }
}

/// The first position at or after `from` where `m` stands in `s`.
pub fn find_in(s: &[u8], m: &[u8], from: usize) -> (r: Option<usize>)
    ensures
        match r {
            Some(i) => find_from(s@, m@, from as int) == Some(i as int),
            None => find_from(s@, m@, from as int).is_none(),
        },
{
    let mut i: usize = from;
    while i <= s.len() && m.len() <= s.len() - i
        invariant
            from <= i,
            find_from(s@, m@, from as int) == find_from(s@, m@, i as int),
        decreases s.len() + 1 - i,
    {
        let mut j: usize = 0;
        while j < m.len() && s[i + j] == m[j]
            invariant
                i + m.len() <= s.len(),
                j <= m.len(),
                forall|k: int| 0 <= k < j ==> s@[i + k] == m@[k],
            decreases m.len() - j,
        {
            j = j + 1;
        }
        if j == m.len() {
            assert(s@.subrange(i as int, i + m.len()) =~= m@);
            return Some(i);
        }
        assert(!occurs_at(s@, m@, i as int)) by {
            if s@.subrange(i as int, i + m.len()) == m@ {
                assert(s@[i + j] == s@.subrange(i as int, i + m.len())[j as int]);
            }
        }
        i = i + 1;
    }
    None
}

/// Copies of the bytes `start..end` of `s`.
pub fn copy_bytes(s: &[u8], start: usize, end: usize) -> (r: Vec<u8>)
    requires
        start <= end <= s.len(),
    ensures
        r@ == s@.subrange(start as int, end as int),
{
    let mut r: Vec<u8> = Vec::new();
    let mut i: usize = start;
    while i < end
        invariant
            start <= i <= end <= s.len(),
            r@ == s@.subrange(start as int, i as int),
        decreases end - i,
    {
        r.push(s[i]);
        assert(r@ =~= s@.subrange(start as int, i + 1));
        i = i + 1;
    }
    r
}

/// A byte that percent-encoding leaves as it is.
pub open spec fn unreserved(b: u8) -> bool {
    (48 <= b <= 57) || (65 <= b <= 90) || (97 <= b <= 122) || b == 45 || b == 46 || b == 95 || b == 126
}

/// An upper-case hexadecimal digit, as a byte.
pub open spec fn hex_digit(d: u8) -> u8 {
    if d < 10 {
        (48 + d) as u8
    } else {
        (55 + d) as u8
    }
}

/// Percent-encoding: unreserved bytes stay, every other byte becomes `%XY`.
pub open spec fn percent_encoded(b: Seq<u8>) -> Seq<u8>
    decreases b.len(),
{
    if b.len() == 0 {
        Seq::empty()
    } else {
        let x = b.last();
        percent_encoded(b.drop_last()) + if unreserved(x) {
            seq![x]
        } else {
            seq![37u8, hex_digit(x / 16), hex_digit(x % 16)]
        }
    }
}

/// Relies on `urlencoding::encode_binary`, which `urlencoding::encode` calls
/// on a string's bytes: alphanumerics and `-._~` stay, any other byte becomes
/// `%` and two upper-case hex digits. Handed back as the text's bytes.
#[verifier::external_body]
fn url_encode(b: &[u8]) -> (r: Vec<u8>)
    ensures
        r@ == percent_encoded(b@),
{
    urlencoding::encode_binary(b).into_owned().into_bytes()
}

/// The slash byte.
pub open spec fn slash() -> Seq<u8> {
    seq![47u8]
}

/// The segments of `rel` from `start` on, each percent-encoded, joined by `/`.
pub open spec fn encoded_from(rel: Seq<u8>, start: int) -> Seq<u8>
    decreases rel.len() - start,
{
    match find_from(rel, slash(), start) {
        Some(j) => if start <= j < rel.len() {
            percent_encoded(rel.subrange(start, j)) + slash() + encoded_from(rel, j + 1)
        } else {
            Seq::empty()
        },
        None => if 0 <= start <= rel.len() {
            percent_encoded(rel.subrange(start, rel.len() as int))
        } else {
            Seq::empty()
        },
    }
}

proof fn lemma_find_from_range(s: Seq<u8>, m: Seq<u8>, from: int)
    ensures
        find_from(s, m, from) matches Some(i) ==> from <= i && occurs_at(s, m, i),
    decreases s.len() + 1 - from,
{
    if !(from < 0 || from + m.len() > s.len()) && !occurs_at(s, m, from) {
        lemma_find_from_range(s, m, from + 1);
    }
}

/// The path below the account's files, its segments percent-encoded.
pub fn encode_path(rel: &[u8]) -> (r: Vec<u8>)
    ensures
        r@ == encoded_from(rel@, 0),
{
    let mut acc: Vec<u8> = Vec::new();
    let mut start: usize = 0;
    loop
        invariant
            start <= rel.len(),
            acc@ + encoded_from(rel@, start as int) == encoded_from(rel@, 0),
        decreases rel.len() - start,
    {
        let found = find_in(rel, &[47u8], start);
        proof {
            assert([47u8]@ =~= slash());
            lemma_find_from_range(rel@, slash(), start as int);
        }
        match found {
            Some(j) => {
                let seg = copy_bytes(rel, start, j);
                let mut e = url_encode(seg.as_slice());
                let ghost before = acc@;
                acc.append(&mut e);
                acc.push(47u8);
                assert(acc@ + encoded_from(rel@, j + 1) =~= before + encoded_from(rel@, start as int));
                start = j + 1;
            },
            None => {
                let seg = copy_bytes(rel, start, rel.len());
                let mut e = url_encode(seg.as_slice());
                let ghost before = acc@;
                acc.append(&mut e);
                assert(acc@ =~= before + encoded_from(rel@, start as int));
                return acc;
            },
        }
    }
}

/// The URL that deletes the file at `path`: `base`, a slash, and the part of
/// the path after the first `/trwa/files/`, each segment percent-encoded.
/// None when the path holds no such marker.
pub open spec fn remote_url(path: Seq<u8>, base: Seq<u8>) -> Option<Seq<u8>> {
    let m = FILES_MARKER.spec_bytes();
    match find_from(path, m, 0) {
        Some(i) => Some(base + slash() + encoded_from(path.subrange(i + m.len(), path.len() as int), 0)),
        None => None,
    }
}

/// The URL that deletes the file of the record, if its path lies below the
/// account's files.
pub fn delete_url(file: &FileEntry, base: &str) -> (r: Option<Vec<u8>>)
    ensures
        match r {
            Some(u) => remote_url(file@.path, base.spec_bytes()) == Some(u@),
            None => remote_url(file@.path, base.spec_bytes()).is_none(),
        },
{
    let path = file.path.as_str().as_bytes();
    let marker = FILES_MARKER.as_bytes();
    match find_in(path, marker, 0) {
        Some(i) => {
            proof {
                lemma_find_from_range(path@, marker@, 0);
                assert(occurs_at(path@, marker@, i as int));
            }
            let plen = path.len();
            let mlen = marker.len();
            assert(i + mlen <= plen);
            let cut: usize = i + mlen;
            let rel = copy_bytes(path, cut, path.len());
            let mut tail = encode_path(rel.as_slice());
            let bb = base.as_bytes();
            let mut url = copy_bytes(bb, 0, bb.len());
            url.push(47u8);
            url.append(&mut tail);
            assert(bb@.subrange(0, bb@.len() as int) =~= base.spec_bytes());
            assert(url@ =~= base.spec_bytes() + slash() + encoded_from(rel@, 0));
            Some(url)
        },
        None => None,
    }
}

/// The URLs of the files at positions `pos` of `g`, for those that have one.
pub open spec fn urls_at(g: Seq<EntryView>, pos: Seq<int>, base: Seq<u8>) -> Seq<Seq<u8>>
    decreases pos.len(),
{
    if pos.len() == 0 {
        Seq::empty()
    } else {
        let rest = urls_at(g, pos.drop_last(), base);
        match remote_url(g[pos.last()].path, base) {
            Some(u) => rest.push(u),
            None => rest,
        }
    }
}

proof fn lemma_positions_in_range(g: Seq<EntryView>)
    ensures
        forall|x: int|
            0 <= x < crate::cleanup::unpreferred_positions(g).len() ==> 0
                <= #[trigger] crate::cleanup::unpreferred_positions(g)[x] < g.len(),
    decreases g.len(),
{
    if g.len() > 0 {
        lemma_positions_in_range(g.drop_last());
        let r = crate::cleanup::unpreferred_positions(g.drop_last());
        assert forall|x: int| 0 <= x < r.len() implies 0 <= #[trigger] r[x] < g.len() by {
            assert(0 <= r[x] < g.drop_last().len());
        }
        if !preferred(g.last()) {
            assert forall|x: int| 0 <= x < r.push(g.len() - 1).len() implies 0 <= #[trigger] r.push(
                g.len() - 1,
            )[x] < g.len() by {
                if x < r.len() {
                    assert(r.push(g.len() - 1)[x] == r[x]);
                }
            }
        }
    }
}

/// The deletion URLs of one group: none when no copy is preferred, else
/// those of the copies that are not.
pub open spec fn group_urls(g: Seq<EntryView>, base: Seq<u8>) -> Seq<Seq<u8>> {
    if exists|i: int| 0 <= i < g.len() && preferred(#[trigger] g[i]) {
        urls_at(g, crate::cleanup::unpreferred_positions(g), base)
    } else {
        Seq::empty()
    }
}

/// The deletion URLs of all groups, in order.
pub open spec fn all_urls(gs: Seq<Seq<EntryView>>, base: Seq<u8>) -> Seq<Seq<u8>>
    decreases gs.len(),
{
    if gs.len() == 0 {
        Seq::empty()
    } else {
        all_urls(gs.drop_last(), base) + group_urls(gs.last(), base)
    }
}

pub open spec fn byte_views(v: Seq<Vec<u8>>) -> Seq<Seq<u8>> {
    v.map_values(|u: Vec<u8>| u@)
}

/// The URLs that delete, group by group, the copies that the deletion policy
/// gives up.
pub fn delete_urls(groups: &Vec<Vec<FileEntry>>, base: &str) -> (r: Vec<Vec<u8>>)
    ensures
        byte_views(r@) == all_urls(crate::report::group_views(groups@), base.spec_bytes()),
{
    let ghost gs = crate::report::group_views(groups@);
    let ghost b = base.spec_bytes();
    let mut out: Vec<Vec<u8>> = Vec::new();
    let mut gi: usize = 0;
    while gi < groups.len()
        invariant
            gi <= groups.len(),
            gs == crate::report::group_views(groups@),
            b == base.spec_bytes(),
            byte_views(out@) == all_urls(gs.take(gi as int), b),
        decreases groups.len() - gi,
    {
        let group = &groups[gi];
        let ghost g = views(group@);
        let ghost before = byte_views(out@);
        proof {
            assert(gs.take(gi + 1).drop_last() =~= gs.take(gi as int));
            assert(gs[gi as int] == g);
        }
        match crate::cleanup::files_to_delete(group) {
            Some(pos) => {
                let ghost ps = pos@.map_values(|x: usize| x as int);
                proof {
                    lemma_positions_in_range(g);
                }
                let mut k: usize = 0;
                while k < pos.len()
                    invariant
                        k <= pos.len(),
                        g == views(group@),
                        ps == pos@.map_values(|x: usize| x as int),
                        ps == crate::cleanup::unpreferred_positions(g),
                        forall|x: int| 0 <= x < ps.len() ==> 0 <= #[trigger] ps[x] < g.len(),
                        byte_views(out@) == before + urls_at(g, ps.take(k as int), b),
                        b == base.spec_bytes(),
                    decreases pos.len() - k,
                {
                    proof {
                        assert(ps.take(k + 1).drop_last() =~= ps.take(k as int));
                        assert(ps[k as int] == pos@[k as int] as int);
                        assert(g[ps[k as int]] == group@[pos@[k as int] as int]@);
                    }
                    match delete_url(&group[pos[k]], base) {
                        Some(u) => {
                            let ghost uv = u@;
                            let ghost old_out = out@;
                            out.push(u);
                            assert(out@ == old_out.push(u));
                            assert(byte_views(out@) =~= byte_views(old_out).push(uv));
                            assert(urls_at(g, ps.take(k + 1), b) == urls_at(g, ps.take(k as int), b).push(uv));
                            assert(byte_views(out@) =~= before + urls_at(g, ps.take(k + 1), b));
                        },
                        None => {},
                    }
                    k = k + 1;
                }
                assert(ps.take(k as int) =~= ps);
                assert(exists|i: int| 0 <= i < g.len() && preferred(#[trigger] g[i])) by {
                    let i = choose|i: int| 0 <= i < group.len() && preferred(#[trigger] group@[i]@);
                    assert(g[i] == group@[i]@);
                }
                assert(byte_views(out@) =~= before + group_urls(g, b));
            },
            None => {
                assert(group_urls(g, b) =~= Seq::<Seq<u8>>::empty()) by {
                    if exists|i: int| 0 <= i < g.len() && preferred(#[trigger] g[i]) {
                        let i = choose|i: int| 0 <= i < g.len() && preferred(#[trigger] g[i]);
                        assert(g[i] == group@[i]@);
                    }
                }
                assert(byte_views(out@) =~= before + group_urls(g, b));
            },
        }
        gi = gi + 1;
    }
    assert(gs.take(gi as int) =~= gs);
    out
}

/// What follows the first occurrence of the screenshot folder in `path`, up
/// to its next occurrence.
pub open spec fn after_screenshot_dir(path: Seq<u8>) -> Option<Seq<u8>> {
    let m = SCREENSHOT_DIR.spec_bytes();
    match find_from(path, m, 0) {
        Some(i) => match find_from(path, m, i + m.len()) {
            Some(j) => Some(path.subrange(i + m.len(), j)),
            None => Some(path.subrange(i + m.len(), path.len() as int)),
        },
        None => None,
    }
}

/// The first three `/`-separated parts (year, month, file name) of what
/// follows the screenshot folder, when there are at least three.
pub open spec fn screenshot_parts(path: Seq<u8>) -> Option<(Seq<u8>, Seq<u8>, Seq<u8>)> {
    match after_screenshot_dir(path) {
        Some(rest) => match find_from(rest, slash(), 0) {
            Some(p1) => match find_from(rest, slash(), p1 + 1) {
                Some(p2) => {
                    let end = match find_from(rest, slash(), p2 + 1) {
                        Some(p3) => p3,
                        None => rest.len() as int,
                    };
                    Some((rest.subrange(0, p1), rest.subrange(p1 + 1, p2), rest.subrange(p2 + 1, end)))
                },
                None => None,
            },
            None => None,
        },
        None => None,
    }
}

/// The file name starts with the year and carries the month in its bytes
/// four and five; a name shorter than six bytes carries no month.
pub open spec fn names_month(year: Seq<u8>, month: Seq<u8>, name: Seq<u8>) -> bool {
    name.len() >= 6 && year.is_prefix_of(name) && name.subrange(4, 6) == month
}

/// A screenshot filed under a four-digit year and two-digit month that its
/// name repeats: the copy that decides a group.
pub open spec fn dated_screenshot(path: Seq<u8>) -> bool {
    match screenshot_parts(path) {
        Some((y, m, f)) => y.len() == 4 && m.len() == 2 && names_month(y, m, f),
        None => false,
    }
}

/// A screenshot whose name repeats the year and month it is filed under:
/// kept when its group is cleaned.
pub open spec fn kept_screenshot(path: Seq<u8>) -> bool {
    match screenshot_parts(path) {
        Some((y, m, f)) => names_month(y, m, f),
        None => false,
    }
}

/// The year, month and file name of a path below the screenshot folder.
fn parts_of(path: &[u8]) -> (r: Option<(Vec<u8>, Vec<u8>, Vec<u8>)>)
    ensures
        match r {
            Some(t) => screenshot_parts(path@) == Some((t.0@, t.1@, t.2@)),
            None => screenshot_parts(path@).is_none(),
        },
{
    let m = SCREENSHOT_DIR.as_bytes();
    let i = match find_in(path, m, 0) {
        Some(i) => i,
        None => return None,
    };
    proof {
        lemma_find_from_range(path@, m@, 0);
    }
    let plen = path.len();
    let mlen = m.len();
    assert(i + mlen <= plen);
    let a: usize = i + mlen;
    let found = find_in(path, m, a);
    proof {
        lemma_find_from_range(path@, m@, a as int);
    }
    let b = match found {
        Some(j) => j,
        None => plen,
    };
    let rest = copy_bytes(path, a, b);
    let r = rest.as_slice();
    let p1 = match find_in(r, &[47u8], 0) {
        Some(p) => p,
        None => {
            assert([47u8]@ =~= slash());
            return None;
        },
    };
    assert([47u8]@ =~= slash());
    proof {
        lemma_find_from_range(r@, slash(), 0);
    }
    let p2 = match find_in(r, &[47u8], p1 + 1) {
        Some(p) => p,
        None => return None,
    };
    proof {
        lemma_find_from_range(r@, slash(), p1 + 1);
    }
    let found3 = find_in(r, &[47u8], p2 + 1);
    proof {
        lemma_find_from_range(r@, slash(), p2 + 1);
    }
    let end = match found3 {
        Some(p) => p,
        None => r.len(),
    };
    let year = copy_bytes(r, 0, p1);
    let month = copy_bytes(r, p1 + 1, p2);
    let name = copy_bytes(r, p2 + 1, end);
    Some((year, month, name))
}

fn names_month_exec(year: &[u8], month: &[u8], name: &[u8]) -> (r: bool)
    ensures
        r == names_month(year@, month@, name@),
{
    if name.len() < 6 || month.len() != 2 {
        assert(name@.len() >= 6 ==> name@.subrange(4, 6).len() == 2);
        return false;
    }
    let pre = crate::cleanup::starts_with_bytes(name, year);
    let same = name[4] == month[0] && name[5] == month[1];
    assert(same == (name@.subrange(4, 6) =~= month@));
    pre && same
}

/// Whether the path is a dated screenshot: the copy that decides its group.
pub fn is_dated_screenshot(path: &str) -> (r: bool)
    ensures
        r == dated_screenshot(path.spec_bytes()),
{
    match parts_of(path.as_bytes()) {
        Some((y, m, f)) => y.len() == 4 && m.len() == 2 && names_month_exec(y.as_slice(), m.as_slice(), f.as_slice()),
        None => false,
    }
}

/// Whether the path is a screenshot kept when its group is cleaned.
pub fn is_kept_screenshot(path: &str) -> (r: bool)
    ensures
        r == kept_screenshot(path.spec_bytes()),
{
    match parts_of(path.as_bytes()) {
        Some((y, m, f)) => names_month_exec(y.as_slice(), m.as_slice(), f.as_slice()),
        None => false,
    }
}

/// The positions, ascending, of the records of `g` that are not kept screenshots.
pub open spec fn unkept_positions(g: Seq<EntryView>) -> Seq<int>
    decreases g.len(),
{
    if g.len() == 0 {
        Seq::empty()
    } else if kept_screenshot(g.last().path) {
        unkept_positions(g.drop_last())
    } else {
        unkept_positions(g.drop_last()).push(g.len() - 1)
    }
}

/// Which records of a group to delete under the screenshot policy: `None`
/// when no record is a dated screenshot; otherwise every record that is not a
/// kept screenshot.
pub fn screenshot_deletions(group: &Vec<FileEntry>) -> (r: Option<Vec<usize>>)
    ensures
        r.is_none() == (forall|i: int| 0 <= i < group.len() ==> !dated_screenshot(#[trigger] group@[i]@.path)),
        r matches Some(v) ==> v@.map_values(|x: usize| x as int) == unkept_positions(views(group@)),
{
    let ghost g = views(group@);
    let mut v: Vec<usize> = Vec::new();
    let mut any_dated = false;
    let mut i: usize = 0;
    while i < group.len()
        invariant
            i <= group.len(),
            g == views(group@),
            v@.map_values(|x: usize| x as int) == unkept_positions(g.take(i as int)),
            any_dated == (exists|j: int| 0 <= j < i && dated_screenshot(#[trigger] g[j].path)),
        decreases group.len() - i,
    {
        proof {
            assert(g.take(i + 1).drop_last() =~= g.take(i as int));
            assert(g.take(i + 1).last() == g[i as int]);
            assert(g[i as int] == group@[i as int]@);
        }
        let p = group[i].path.as_str();
        assert(p.spec_bytes() == g[i as int].path);
        if is_dated_screenshot(p) {
            any_dated = true;
            assert(dated_screenshot(g[i as int].path));
        }
        if !is_kept_screenshot(p) {
            v.push(i);
            assert(v@.map_values(|x: usize| x as int) =~= unkept_positions(g.take(i as int)).push(i as int));
        }
        i = i + 1;
    }
    assert(g.take(i as int) =~= g);
    if !any_dated {
        assert forall|j: int| 0 <= j < group.len() implies !dated_screenshot(#[trigger] group@[j]@.path) by {
            assert(g[j] == group@[j]@);
        }
        None
    } else {
        let ghost j = choose|j: int| 0 <= j < i && dated_screenshot(#[trigger] g[j].path);
        assert(g[j] == group@[j]@);
        Some(v)
    }
}

} // verus!
