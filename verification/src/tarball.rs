//! Reading tar archives held in memory: their listing and their entries.
use std::io::Read;

use vstd::prelude::*;

use crate::archive::missing_entry_text;
use crate::images::{sorted_pages, ArchiveImages};
use crate::listing::{cbt_images, kept_names, listing_view, numbered, tar_keeps_fn};

verus! {

/// What `tar::Archive::entries` lists for these bytes: per entry in archive
/// order, its path (lossily as text), or `None` when the entry or its path
/// cannot be read; or the message of the error met starting the listing.
pub uninterp spec fn tar_listing_of(bytes: Seq<u8>) -> Result<Seq<Option<Seq<char>>>, Seq<char>>;

/// One entry as read in full: its path or the path's error, and its data or
/// the read's error.
pub type TarRecord = Result<(Result<String, String>, Result<Vec<u8>, String>), String>;

/// The character view of a tar record.
pub type TarRecordView = Result<(Result<Seq<char>, Seq<char>>, Result<Seq<u8>, Seq<char>>), Seq<char>>;

pub open spec fn text_result_view(r: Result<String, String>) -> Result<Seq<char>, Seq<char>> {
    match r {
        Ok(s) => Ok(s@),
        Err(e) => Err(e@),
    }
}

pub open spec fn data_result_view(r: Result<Vec<u8>, String>) -> Result<Seq<u8>, Seq<char>> {
    match r {
        Ok(d) => Ok(d@),
        Err(e) => Err(e@),
    }
}

pub open spec fn record_view(r: TarRecord) -> TarRecordView {
    match r {
        Ok((p, d)) => Ok((text_result_view(p), data_result_view(d))),
        Err(e) => Err(e@),
    }
}

/// What `tar::Archive::entries` yields for these bytes, each entry read in
/// full (`Entry::path`, then `Read::read_to_end`); or the message of the
/// error met starting the iteration.
pub uninterp spec fn tar_records_of(bytes: Seq<u8>) -> Result<Seq<TarRecordView>, Seq<char>>;

pub open spec fn listing_result_view(r: Result<Vec<Option<String>>, String>) -> Result<Seq<Option<Seq<char>>>, Seq<char>> {
    match r {
        Ok(l) => Ok(listing_view(l@)),
        Err(e) => Err(e@),
    }
}

pub open spec fn records_result_view(r: Result<Vec<TarRecord>, String>) -> Result<Seq<TarRecordView>, Seq<char>> {
    match r {
        Ok(l) => Ok(l@.map_values(|x: TarRecord| record_view(x))),
        Err(e) => Err(e@),
    }
}

/// `tar::Archive::new` over the bytes, then `entries`, each entry mapped to
/// its path (`Entry::path`, lossily as text) or to `None` when the entry or
/// its path is an error.
#[verifier::external_body]
fn tar_listing(bytes: Vec<u8>) -> (r: Result<Vec<Option<String>>, String>)
    ensures
        listing_result_view(r) == tar_listing_of(bytes@),
{
    let mut archive = tar::Archive::new(std::io::Cursor::new(bytes));
    let entries = archive.entries().map_err(|e| e.to_string())?;
    Ok(entries.map(|e| e.ok().and_then(|e| e.path().ok().map(|p| p.to_string_lossy().into_owned()))).collect())
}

/// `tar::Archive::new` over the bytes, then `entries`, each entry read in
/// full: its path (`Entry::path`, lossily as text) and its data
/// (`Read::read_to_end`), each with its error's message.
#[verifier::external_body]
fn tar_records(bytes: Vec<u8>) -> (r: Result<Vec<TarRecord>, String>)
    ensures
        records_result_view(r) == tar_records_of(bytes@),
{
    let mut archive = tar::Archive::new(std::io::Cursor::new(bytes));
    let entries = archive.entries().map_err(|e| e.to_string())?;
    Ok(entries.map(|e| e.map_err(|e| e.to_string()).map(|mut e| {
        let path = e.path().map(|p| p.to_string_lossy().into_owned()).map_err(|e| e.to_string());
        let mut data = Vec::new();
        (path, e.read_to_end(&mut data).map(|_| data).map_err(|e| e.to_string()))
    })).collect())
}

/// The pages of a tar archive given as bytes (see `cbt_images`), or the
/// message of the error met starting its listing.
pub fn open_cbt(bytes: Vec<u8>) -> (r: Result<ArchiveImages, String>)
    ensures
        match r {
            Ok(imgs) => tar_listing_of(bytes@) matches Ok(l) && numbered(
                imgs.images@,
                sorted_pages(kept_names(l, tar_keeps_fn())),
            ),
            Err(e) => tar_listing_of(bytes@) == Err::<Seq<Option<Seq<char>>>, Seq<char>>(e@),
        },
{
    match tar_listing(bytes) {
        Ok(listing) => Ok(cbt_images(listing)),
        Err(e) => Err(e),
    }
}

/// Reading `href` from the entries of a tar archive: the first entry that
/// is an error, whose path is an error, or whose path is `href` decides (its
/// error, or the data read from it); with none of these, `href` is missing.
pub open spec fn tar_read_from(records: Seq<TarRecordView>, href: Seq<char>) -> Result<Seq<u8>, Seq<char>>
    decreases records.len(),
{
    if records.len() == 0 {
        Err(missing_entry_text(href))
    } else {
        match records[0] {
            Err(e) => Err(e),
            Ok((Err(e), _)) => Err(e),
            Ok((Ok(p), d)) => if p == href {
                d
            } else {
                tar_read_from(records.drop_first(), href)
            },
        }
    }
}

/// Reading finds an entry wherever it stands, the last one included: when the
/// entry at `j` has path `href` and every entry before it was read with
/// another path, reading `href` gives that entry's data (or its read error).
pub proof fn law_tar_read_finds_entry(records: Seq<TarRecordView>, href: Seq<char>, j: int)
    requires
        0 <= j < records.len(),
        records[j] matches Ok((Ok(p), _)) && p == href,
        forall|k: int| 0 <= k < j ==> (#[trigger] records[k] matches Ok((Ok(p), _)) && p != href),
    ensures
        records[j] matches Ok((_, d)) && tar_read_from(records, href) == d,
    decreases j,
{
    if j > 0 {
        let rest = records.drop_first();
        assert forall|k: int| 0 <= k < j - 1 implies (#[trigger] rest[k] matches Ok((Ok(p), _)) && p != href) by {
            assert(rest[k] == records[k + 1]);
        }
        assert(rest[j - 1] == records[j]);
        assert(records[0] matches Ok((Ok(p), _)) && p != href);
        law_tar_read_finds_entry(rest, href, j - 1);
    }
}

/// An entry that cannot be read, met before `href`, ends the search with its
/// error: when every entry before `j` was read with another path and entry
/// `j`, or its path, is an error, reading `href` gives that error.
pub proof fn law_tar_read_stops_at_error(records: Seq<TarRecordView>, href: Seq<char>, j: int)
    requires
        0 <= j < records.len(),
        records[j] is Err || records[j] matches Ok((Err(_), _)),
        forall|k: int| 0 <= k < j ==> (#[trigger] records[k] matches Ok((Ok(p), _)) && p != href),
    ensures
        match records[j] {
            Err(e) => tar_read_from(records, href) == Err::<Seq<u8>, Seq<char>>(e),
            Ok((Err(e), _)) => tar_read_from(records, href) == Err::<Seq<u8>, Seq<char>>(e),
            Ok(_) => false,
        },
    decreases j,
{
    if j > 0 {
        let rest = records.drop_first();
        assert forall|k: int| 0 <= k < j - 1 implies (#[trigger] rest[k] matches Ok((Ok(p), _)) && p != href) by {
            assert(rest[k] == records[k + 1]);
        }
        assert(rest[j - 1] == records[j]);
        assert(records[0] matches Ok((Ok(p), _)) && p != href);
        law_tar_read_stops_at_error(rest, href, j - 1);
    }
}

/// When every entry is read with a path other than `href`, reading `href`
/// reports it missing.
pub proof fn law_tar_read_missing(records: Seq<TarRecordView>, href: Seq<char>)
    requires
        forall|k: int| 0 <= k < records.len() ==> (#[trigger] records[k] matches Ok((Ok(p), _)) && p != href),
    ensures
        tar_read_from(records, href) == Err::<Seq<u8>, Seq<char>>(missing_entry_text(href)),
    decreases records.len(),
{
    if records.len() > 0 {
        let rest = records.drop_first();
        assert forall|k: int| 0 <= k < rest.len() implies (#[trigger] rest[k] matches Ok((Ok(p), _)) && p != href) by {
            assert(rest[k] == records[k + 1]);
        }
        assert(records[0] matches Ok((Ok(p), _)) && p != href);
        law_tar_read_missing(rest, href);
    }
}

/// The data of the entry `href` of a tar archive given as bytes, or the
/// message of the first error met on the way, or that `href` is missing.
pub fn read_tar_entry(bytes: Vec<u8>, href: &str) -> (r: Result<Vec<u8>, String>)
    ensures
        match tar_records_of(bytes@) {
            Err(e) => data_result_view(r) == Err::<Seq<u8>, Seq<char>>(e),
            Ok(records) => data_result_view(r) == tar_read_from(records, href@),
        },
{
    let ghost b = bytes@;
    let records = match tar_records(bytes) {
        Ok(records) => records,
        Err(e) => {
            return Err(e);
        },
    };
    let ghost rv = records@.map_values(|x: TarRecord| record_view(x));
    let target = crate::text::chars_of(href);
    let mut i: usize = 0;
    assert(rv.skip(0) =~= rv);
    while i < records.len()
        invariant
            i <= records.len(),
            rv == records@.map_values(|x: TarRecord| record_view(x)),
            tar_records_of(b) == Ok::<Seq<TarRecordView>, Seq<char>>(rv),
            b == bytes@,
            target@ == href@,
            tar_read_from(rv, href@) == tar_read_from(rv.skip(i as int), href@),
        decreases records.len() - i,
    {
        proof {
            assert(rv.skip(i as int)[0] == record_view(records@[i as int]));
            assert(rv.skip(i as int).drop_first() =~= rv.skip(i as int + 1));
        }
        match &records[i] {
            Err(e) => {
                let m = e.clone();
                assert(record_view(records@[i as int]) == Err::<(Result<Seq<char>, Seq<char>>, Result<Seq<u8>, Seq<char>>), Seq<char>>(m@));
                assert(tar_read_from(rv.skip(i as int), href@) == Err::<Seq<u8>, Seq<char>>(m@));
                return Err(m);
            },
            Ok((Err(e), _)) => {
                let m = e.clone();
                assert(tar_read_from(rv.skip(i as int), href@) == Err::<Seq<u8>, Seq<char>>(m@));
                return Err(m);
            },
            Ok((Ok(p), d)) => {
                if crate::text::same_text(&crate::text::chars_of(p.as_str()), &target) {
                    return match d {
                        Ok(data) => Ok(data.clone()),
                        Err(e) => Err(e.clone()),
                    };
                }
            },
        }
        i += 1;
    }
    Err(crate::archive::missing_entry_message(href))
}

} // verus!
