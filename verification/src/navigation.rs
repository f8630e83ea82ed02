//! Moving to the next or previous volume of a series: among the files of the
//! same directory, extension and series, the one whose number comes next.
use vstd::prelude::*;

use crate::text::{chars_of, lowercase, lowercase_text, same_text};

verus! {

/// What the directory listing tells about one entry.
pub struct SeriesEntry {
    /// The entry is a regular file.
    pub is_file: bool,
    /// The entry's extension as written, if it has one.
    pub extension: Option<String>,
    /// The entry's path has a file stem.
    pub has_stem: bool,
    /// The series name and number key found in the stem, if any (see
    /// `extract_series_info`). Keys order as the numbers they stand for.
    pub series: Option<(String, u64)>,
    /// The entry's path as text; `None` when it is not valid UTF-8.
    pub path: Option<String>,
}

/// A candidate volume: its number key and its path (`None` when the path is
/// not valid UTF-8).
pub type Candidate = (u64, Option<Seq<char>>);

/// The entry is a file whose lowercased extension is `ext`.
pub open spec fn considered(e: SeriesEntry, ext: Seq<char>) -> bool {
    &&& e.is_file
    &&& e.extension matches Some(x) && lowercase_text(x@) == ext
}

/// Some considered entry has no stem: the search gives up.
pub open spec fn stemless(entries: Seq<SeriesEntry>, ext: Seq<char>) -> bool {
    exists|i: int| 0 <= i < entries.len() && considered(#[trigger] entries[i], ext) && !entries[i].has_stem
}

pub open spec fn path_view(p: Option<String>) -> Option<Seq<char>> {
    match p {
        Some(s) => Some(s@),
        None => None,
    }
}

/// The volumes of `series` among the considered entries, in listing order.
pub open spec fn candidates(entries: Seq<SeriesEntry>, ext: Seq<char>, series: Seq<char>) -> Seq<Candidate>
    decreases entries.len(),
{
    if entries.len() == 0 {
        Seq::empty()
    } else {
        let rest = candidates(entries.drop_last(), ext, series);
        let e = entries.last();
        if considered(e, ext) && e.has_stem && (e.series matches Some((s, k)) && s@ == series) {
            rest.push((e.series->Some_0.1, path_view(e.path)))
        } else {
            rest
        }
    }
}

/// `c[j]` is the next volume after key `cur`: the smallest key above `cur`,
/// and the first such candidate in listing order among equal keys (as a
/// stable sort by number followed by taking the first one above gives).
pub open spec fn is_next_at(c: Seq<Candidate>, cur: u64, j: int) -> bool {
    &&& 0 <= j < c.len()
    &&& c[j].0 > cur
    &&& forall|k: int|
        0 <= k < c.len() && #[trigger] c[k].0 > cur ==> c[j].0 < c[k].0 || (c[j].0 == c[k].0 && j <= k)
}

/// `c[j]` is the previous volume before key `cur`: the largest key below
/// `cur`, and the first such candidate in listing order among equal keys.
pub open spec fn is_prev_at(c: Seq<Candidate>, cur: u64, j: int) -> bool {
    &&& 0 <= j < c.len()
    &&& c[j].0 < cur
    &&& forall|k: int|
        0 <= k < c.len() && #[trigger] c[k].0 < cur ==> c[j].0 > c[k].0 || (c[j].0 == c[k].0 && j <= k)
}

/// The path of the next volume, if any candidate has a key above `cur`.
pub open spec fn next_pick(c: Seq<Candidate>, cur: u64) -> Option<Seq<char>> {
    if exists|j: int| is_next_at(c, cur, j) {
        c[choose|j: int| is_next_at(c, cur, j)].1
    } else {
        None
    }
}

/// The path of the previous volume, if any candidate has a key below `cur`.
pub open spec fn prev_pick(c: Seq<Candidate>, cur: u64) -> Option<Seq<char>> {
    if exists|j: int| is_prev_at(c, cur, j) {
        c[choose|j: int| is_prev_at(c, cur, j)].1
    } else {
        None
    }
}

/// At most one candidate is the next volume.
pub proof fn lemma_next_unique(c: Seq<Candidate>, cur: u64, a: int, b: int)
    requires
        is_next_at(c, cur, a),
        is_next_at(c, cur, b),
    ensures
        a == b,
{
    assert(c[a].0 > cur);
    assert(c[b].0 > cur);
}

/// At most one candidate is the previous volume.
pub proof fn lemma_prev_unique(c: Seq<Candidate>, cur: u64, a: int, b: int)
    requires
        is_prev_at(c, cur, a),
        is_prev_at(c, cur, b),
    ensures
        a == b,
{
    assert(c[a].0 < cur);
    assert(c[b].0 < cur);
}

/// Gathers the candidates, or `None` if a considered entry has no stem.
fn gather(entries: &Vec<SeriesEntry>, ext: &str, series: &str) -> (r: Option<Vec<(u64, Option<String>)>>)
    ensures
        match r {
            None => stemless(entries@, ext@),
            Some(c) => !stemless(entries@, ext@) && c@.map_values(
                |x: (u64, Option<String>)| (x.0, path_view(x.1)),
            ) == candidates(entries@, ext@, series@),
        },
{
    let ext_c = chars_of(ext);
    let series_c = chars_of(series);
    let mut out: Vec<(u64, Option<String>)> = Vec::new();
    let mut i: usize = 0;
    while i < entries.len()
        invariant
            i <= entries.len(),
            ext_c@ == ext@,
            series_c@ == series@,
            !stemless(entries@.take(i as int), ext@),
            out@.map_values(|x: (u64, Option<String>)| (x.0, path_view(x.1))) == candidates(
                entries@.take(i as int),
                ext@,
                series@,
            ),
        decreases entries.len() - i,
    {
        let e = &entries[i];
        let ghost pre = entries@.take(i as int);
        proof {
            assert(entries@.take(i as int + 1).drop_last() =~= pre);
            assert(entries@.take(i as int + 1).last() == *e);
        }
        let is_considered = e.is_file && match &e.extension {
            Some(x) => same_text(&lowercase(&chars_of(x.as_str())), &ext_c),
            None => false,
        };
        assert(is_considered == considered(*e, ext@));
        if is_considered && !e.has_stem {
            assert(stemless(entries@, ext@)) by {
                assert(entries@[i as int] == *e);
            }
            return None;
        }
        proof {
            assert forall|k: int| 0 <= k < i + 1 && considered(#[trigger] entries@.take(i as int + 1)[k], ext@)
                implies entries@.take(i as int + 1)[k].has_stem by {
                if k < i {
                    assert(entries@.take(i as int + 1)[k] == pre[k]);
                }
            }
        }
        if is_considered {
            match &e.series {
                Some((s, key)) => {
                    if same_text(&chars_of(s.as_str()), &series_c) {
                        let ghost before = out@;
                        out.push((*key, e.path.clone()));
                        proof {
                            assert(out@.map_values(|x: (u64, Option<String>)| (x.0, path_view(x.1)))
                                =~= before.map_values(|x: (u64, Option<String>)| (x.0, path_view(x.1))).push(
                                (*key, path_view(e.path)),
                            ));
                        }
                    }
                },
                None => {},
            }
        }
        i += 1;
    }
    proof {
        assert(entries@.take(entries.len() as int) =~= entries@);
    }
    Some(out)
}

/// The character view of gathered candidates.
pub open spec fn candidates_view(c: Seq<(u64, Option<String>)>) -> Seq<Candidate> {
    c.map_values(|x: (u64, Option<String>)| (x.0, path_view(x.1)))
}

/// The path of the candidate that comes after (`upward`) or before key `cur`.
fn pick(c: &Vec<(u64, Option<String>)>, cur: u64, upward: bool) -> (r: Option<String>)
    ensures
        path_view(r) == (if upward {
            next_pick(candidates_view(c@), cur)
        } else {
            prev_pick(candidates_view(c@), cur)
        }),
{
    let ghost cv = candidates_view(c@);
    let mut best: Option<usize> = None;
    let mut i: usize = 0;
    while i < c.len()
        invariant
            i <= c.len(),
            cv == candidates_view(c@),
            match best {
                Some(b) => b < i && (if upward {
                    is_next_at(cv.take(i as int), cur, b as int)
                } else {
                    is_prev_at(cv.take(i as int), cur, b as int)
                }),
                None => forall|k: int| 0 <= k < i ==> (if upward { #[trigger] cv[k].0 <= cur } else { cv[k].0 >= cur }),
            },
        decreases c.len() - i,
    {
        let key = c[i].0;
        assert(cv[i as int].0 == key);
        let better = if upward {
            key > cur && match best {
                None => true,
                Some(b) => key < c[b].0,
            }
        } else {
            key < cur && match best {
                None => true,
                Some(b) => key > c[b].0,
            }
        };
        let ghost t = cv.take(i as int + 1);
        proof {
            assert forall|k: int| 0 <= k < i implies #[trigger] t[k] == cv.take(i as int)[k] by {}
            if let Some(b) = best {
                assert(cv[b as int].0 == c@[b as int].0);
            }
        }
        if better {
            best = Some(i);
        }
        proof {
            if let Some(b) = best {
                if upward {
                    assert forall|k: int| 0 <= k < t.len() && #[trigger] t[k].0 > cur implies t[b as int].0 < t[k].0 || (t[b as int].0 == t[k].0 && b <= k) by {
                        if k < i && b < i {
                            assert(cv.take(i as int)[k] == t[k]);
                        }
                    }
                } else {
                    assert forall|k: int| 0 <= k < t.len() && #[trigger] t[k].0 < cur implies t[b as int].0 > t[k].0 || (t[b as int].0 == t[k].0 && b <= k) by {
                        if k < i && b < i {
                            assert(cv.take(i as int)[k] == t[k]);
                        }
                    }
                }
            }
        }
        i += 1;
    }
    proof {
        assert(cv.take(c.len() as int) =~= cv);
    }
    match best {
        Some(b) => {
            proof {
                if upward {
                    let j = choose|j: int| is_next_at(cv, cur, j);
                    lemma_next_unique(cv, cur, j, b as int);
                } else {
                    let j = choose|j: int| is_prev_at(cv, cur, j);
                    lemma_prev_unique(cv, cur, j, b as int);
                }
            }
            c[b].1.clone()
        },
        None => {
            proof {
                if upward {
                    assert(!exists|j: int| is_next_at(cv, cur, j));
                } else {
                    assert(!exists|j: int| is_prev_at(cv, cur, j));
                }
            }
            None
        },
    }
}

/// The next volume of a series in a directory. `extension` is the current
/// file's extension as written, `series` and `number` what its stem yields;
/// `entries` is the directory listing. Gives up (`None`) when a file with
/// that extension has no stem; otherwise gives the path of the volume with
/// the smallest number above `number` (the first listed among equals), or
/// `None` when there is none or its path is not valid UTF-8.
pub fn next_in_series(extension: &str, series: &str, number: u64, entries: &Vec<SeriesEntry>) -> (r: Option<String>)
    ensures
        path_view(r) == (if stemless(entries@, extension@) {
            None
        } else {
            next_pick(candidates(entries@, extension@, series@), number)
        }),
{
    match gather(entries, extension, series) {
        None => None,
        Some(c) => pick(&c, number, true),
    }
}

/// The previous volume of a series in a directory: as `next_in_series`, with
/// the largest number below `number`.
pub fn prev_in_series(extension: &str, series: &str, number: u64, entries: &Vec<SeriesEntry>) -> (r: Option<String>)
    ensures
        path_view(r) == (if stemless(entries@, extension@) {
            None
        } else {
            prev_pick(candidates(entries@, extension@, series@), number)
        }),
{
    match gather(entries, extension, series) {
        None => None,
        Some(c) => pick(&c, number, false),
    }
}


/// `e` is a listed regular file with extension `ext` whose series name is
/// `series` itself, and `c` is its number and path.
pub open spec fn volume_of(e: SeriesEntry, ext: Seq<char>, series: Seq<char>, c: Candidate) -> bool {
    &&& considered(e, ext)
    &&& e.has_stem
    &&& e.series matches Some((s, key)) && s@ == series && c == (key, path_view(e.path))
}

/// The candidate volumes are exactly the files of the series: each candidate
/// is the number and path of a listed regular file with the requested
/// extension whose series name equals the requested one (not merely begins
/// with it), and each such file is a candidate.
pub proof fn law_candidates_are_series_files(entries: Seq<SeriesEntry>, ext: Seq<char>, series: Seq<char>)
    ensures
        forall|k: int|
            #![trigger candidates(entries, ext, series)[k]]
            0 <= k < candidates(entries, ext, series).len() ==> exists|m: int|
                0 <= m < entries.len() && volume_of(#[trigger] entries[m], ext, series, candidates(entries, ext, series)[k]),
        forall|m: int, c: Candidate|
            0 <= m < entries.len() && #[trigger] volume_of(entries[m], ext, series, c) ==> candidates(
                entries,
                ext,
                series,
            ).contains(c),
    decreases entries.len(),
{
    if entries.len() > 0 {
        let init = entries.drop_last();
        law_candidates_are_series_files(init, ext, series);
        let c = candidates(entries, ext, series);
        let ci = candidates(init, ext, series);
        let last = entries.len() - 1;
        assert(entries.last() == entries[last]);
        assert forall|k: int| #![trigger c[k]] 0 <= k < c.len() implies exists|m: int|
            0 <= m < entries.len() && volume_of(#[trigger] entries[m], ext, series, c[k]) by {
            if k < ci.len() {
                assert(c[k] == ci[k]);
                let m = choose|m: int| 0 <= m < init.len() && volume_of(#[trigger] init[m], ext, series, ci[k]);
                assert(init[m] == entries[m]);
            } else {
                assert(volume_of(entries[last], ext, series, c[k]));
            }
        }
        assert forall|m: int, x: Candidate|
            0 <= m < entries.len() && #[trigger] volume_of(entries[m], ext, series, x) implies c.contains(x) by {
            if m < last {
                assert(init[m] == entries[m]);
                assert(volume_of(init[m], ext, series, x));
                let k = choose|k: int| 0 <= k < ci.len() && ci[k] == x;
                assert(c[k] == ci[k]);
            } else {
                assert(c[ci.len() as int] == x);
            }
        }
    }
}

/// The next volume is numbered above the current one, and no volume of the
/// series is numbered strictly between them.
pub proof fn law_next_is_nearest(c: Seq<Candidate>, cur: u64, j: int)
    requires
        is_next_at(c, cur, j),
    ensures
        next_pick(c, cur) == c[j].1,
        c[j].0 > cur,
        forall|k: int| 0 <= k < c.len() ==> !(cur < #[trigger] c[k].0 && c[k].0 < c[j].0),
{
    let i = choose|i: int| is_next_at(c, cur, i);
    lemma_next_unique(c, cur, i, j);
}

/// With no volume numbered above the current one there is no next volume.
pub proof fn law_no_next_at_end(c: Seq<Candidate>, cur: u64)
    requires
        forall|k: int| 0 <= k < c.len() ==> #[trigger] c[k].0 <= cur,
    ensures
        next_pick(c, cur) is None,
{
}

/// The previous volume is numbered below the current one, and no volume of
/// the series is numbered strictly between them.
pub proof fn law_prev_is_nearest(c: Seq<Candidate>, cur: u64, j: int)
    requires
        is_prev_at(c, cur, j),
    ensures
        prev_pick(c, cur) == c[j].1,
        c[j].0 < cur,
        forall|k: int| 0 <= k < c.len() ==> !(c[j].0 < #[trigger] c[k].0 && c[k].0 < cur),
{
    let i = choose|i: int| is_prev_at(c, cur, i);
    lemma_prev_unique(c, cur, i, j);
}

/// With no volume numbered below the current one there is no previous volume.
pub proof fn law_no_prev_at_start(c: Seq<Candidate>, cur: u64)
    requires
        forall|k: int| 0 <= k < c.len() ==> #[trigger] c[k].0 >= cur,
    ensures
        prev_pick(c, cur) is None,
{
}

/// Going back from the next volume returns to the current one, when the
/// current volume is among the candidates and is the only one with its number.
pub proof fn law_prev_of_next(c: Seq<Candidate>, cur: u64, i: int, j: int)
    requires
        0 <= i < c.len(),
        c[i].0 == cur,
        forall|k: int| 0 <= k < c.len() && #[trigger] c[k].0 == cur ==> k == i,
        is_next_at(c, cur, j),
    ensures
        prev_pick(c, c[j].0) == c[i].1,
{
    let nk = c[j].0;
    assert forall|k: int| 0 <= k < c.len() && #[trigger] c[k].0 < nk implies c[i].0 > c[k].0 || (c[i].0
        == c[k].0 && i <= k) by {
        if c[k].0 > cur {
            assert(nk < c[k].0 || nk == c[k].0);
        }
        if c[k].0 == cur {
            assert(k == i);
        }
    }
    assert(is_prev_at(c, nk, i));
    law_prev_is_nearest(c, nk, i);
}

/// Going forward from the previous volume returns to the current one, when
/// the current volume is among the candidates and is the only one with its
/// number.
pub proof fn law_next_of_prev(c: Seq<Candidate>, cur: u64, i: int, j: int)
    requires
        0 <= i < c.len(),
        c[i].0 == cur,
        forall|k: int| 0 <= k < c.len() && #[trigger] c[k].0 == cur ==> k == i,
        is_prev_at(c, cur, j),
    ensures
        next_pick(c, c[j].0) == c[i].1,
{
    let pk = c[j].0;
    assert forall|k: int| 0 <= k < c.len() && #[trigger] c[k].0 > pk implies c[i].0 < c[k].0 || (c[i].0
        == c[k].0 && i <= k) by {
        if c[k].0 < cur {
            assert(pk > c[k].0 || pk == c[k].0);
        }
        if c[k].0 == cur {
            assert(k == i);
        }
    }
    assert(is_next_at(c, pk, i));
    law_next_is_nearest(c, pk, i);
}

/// In a directory listing: when the current volume is a file of the series
/// and the only one with its number, asking for the previous volume of the
/// next one (with the next one's number, over the same listing, extension
/// and series) gives the current volume back.
pub proof fn law_series_round_trip(
    entries: Seq<SeriesEntry>,
    ext: Seq<char>,
    series: Seq<char>,
    cur: u64,
    i: int,
    j: int,
)
    requires
        !stemless(entries, ext),
        0 <= i < candidates(entries, ext, series).len(),
        candidates(entries, ext, series)[i].0 == cur,
        forall|k: int|
            0 <= k < candidates(entries, ext, series).len() && #[trigger] candidates(entries, ext, series)[k].0
                == cur ==> k == i,
        is_next_at(candidates(entries, ext, series), cur, j),
    ensures
        next_pick(candidates(entries, ext, series), cur) == candidates(entries, ext, series)[j].1,
        prev_pick(candidates(entries, ext, series), candidates(entries, ext, series)[j].0) == candidates(
            entries,
            ext,
            series,
        )[i].1,
{
    let c = candidates(entries, ext, series);
    law_next_is_nearest(c, cur, j);
    law_prev_of_next(c, cur, i, j);
}

} // verus!
