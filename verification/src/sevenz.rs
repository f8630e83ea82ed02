//! Reading 7z archives: the decisions taken on what the 7z reader hands
//! out. The reader itself (`SevenZReader`) is called by the application: on
//! some malformed archives it panics, which no check beforehand can rule out,
//! so it cannot stand behind a contract here.
use vstd::prelude::*;

use crate::archive::{missing_entry_message, missing_entry_text};
use crate::tarball::data_result_view;
use crate::text::{chars_of, same_text};

verus! {

/// An entry handed out while decoding: its name, and its data (`None` when
/// reading it failed).
pub type FedEntry = (String, Option<Vec<u8>>);

pub open spec fn fed_view(e: FedEntry) -> (Seq<char>, Option<Seq<u8>>) {
    (e.0@, match e.1 {
        Some(d) => Some(d@),
        None => None,
    })
}

/// Whether decoding goes on past an entry named `name` when `href` is
/// sought: it stops at `href`.
pub fn keep_walking(name: &str, href: &str) -> (r: bool)
    ensures
        r == (name@ != href@),
{
    !same_text(&chars_of(name), &chars_of(href))
}

/// The data last read in full from an entry named `href`, among those handed out.
pub open spec fn last_read(fed: Seq<(Seq<char>, Option<Seq<u8>>)>, href: Seq<char>) -> Option<Seq<u8>>
    decreases fed.len(),
{
    if fed.len() == 0 {
        None
    } else if fed.last().0 == href && fed.last().1 is Some {
        fed.last().1
    } else {
        last_read(fed.drop_last(), href)
    }
}

/// Reading `href` from a 7z walk: the walk's error if it ended with one;
/// otherwise the data last read in full from an entry named `href`, or that
/// `href` is missing.
pub open spec fn sevenz_read_from(
    feed: (Seq<(Seq<char>, Option<Seq<u8>>)>, Option<Seq<char>>),
    href: Seq<char>,
) -> Result<Seq<u8>, Seq<char>> {
    match feed.1 {
        Some(e) => Err(e),
        None => match last_read(feed.0, href) {
            Some(d) => Ok(d),
            None => Err(missing_entry_text(href)),
        },
    }
}

/// With no walk error, reading `href` gives the data of the last entry named
/// `href` that was read in full, wherever it stands in the walk, the last
/// entry included; with none such, `href` is missing.
pub proof fn law_sevenz_read_finds_entry(
    fed: Seq<(Seq<char>, Option<Seq<u8>>)>,
    href: Seq<char>,
    j: int,
)
    requires
        0 <= j < fed.len(),
        fed[j].0 == href,
        fed[j].1 is Some,
        forall|k: int| j < k < fed.len() ==> !(#[trigger] fed[k].0 == href && fed[k].1 is Some),
    ensures
        fed[j].1 matches Some(d) && sevenz_read_from((fed, None), href) == Ok::<Seq<u8>, Seq<char>>(d),
    decreases fed.len() - j,
{
    if j < fed.len() - 1 {
        let init = fed.drop_last();
        assert(!(fed[fed.len() - 1].0 == href && fed[fed.len() - 1].1 is Some));
        assert(fed.last() == fed[fed.len() - 1]);
        assert(init[j] == fed[j]);
        assert forall|k: int| j < k < init.len() implies !(#[trigger] init[k].0 == href && init[k].1 is Some) by {
            assert(init[k] == fed[k]);
        }
        law_sevenz_read_finds_entry(init, href, j);
    }
}

/// With no walk error and no entry named `href` read in full, `href` is
/// reported missing; a walk error is reported as it is.
pub proof fn law_sevenz_read_missing(fed: Seq<(Seq<char>, Option<Seq<u8>>)>, href: Seq<char>, e: Seq<char>)
    requires
        forall|k: int| 0 <= k < fed.len() ==> !(#[trigger] fed[k].0 == href && fed[k].1 is Some),
    ensures
        sevenz_read_from((fed, None), href) == Err::<Seq<u8>, Seq<char>>(missing_entry_text(href)),
        sevenz_read_from((fed, Some(e)), href) == Err::<Seq<u8>, Seq<char>>(e),
    decreases fed.len(),
{
    if fed.len() > 0 {
        let init = fed.drop_last();
        assert(fed.last() == fed[fed.len() - 1]);
        assert forall|k: int| 0 <= k < init.len() implies !(#[trigger] init[k].0 == href && init[k].1 is Some) by {
            assert(init[k] == fed[k]);
        }
        law_sevenz_read_missing(init, href, e);
    }
}

/// The data of the entry `href` of a 7z archive, from what a walk over the
/// archive handed out (`fed`, each entry read in full, the walk stopping a
/// block at `href` as `keep_walking` says) and the error the walk ended
/// with: that error if there is one; otherwise the data last read in full
/// from an entry named `href`, or that `href` is missing.
pub fn read_7z_entry_from_walk(fed: Vec<FedEntry>, walk_error: Option<String>, href: &str) -> (r: Result<
    Vec<u8>,
    String,
>)
    ensures
        data_result_view(r) == sevenz_read_from(
            (
                fed@.map_values(|x: FedEntry| fed_view(x)),
                match walk_error {
                    Some(m) => Some(m@),
                    None => None,
                },
            ),
            href@,
        ),
{
    if let Some(e) = &walk_error {
        return Err(e.clone());
    }
    let ghost fv = fed@.map_values(|x: FedEntry| fed_view(x));
    let target = chars_of(href);
    let mut i: usize = fed.len();
    assert(fv.take(fed.len() as int) =~= fv);
    while i > 0
        invariant
            i <= fed.len(),
            fv == fed@.map_values(|x: FedEntry| fed_view(x)),
            walk_error is None,
            target@ == href@,
            last_read(fv, href@) == last_read(fv.take(i as int), href@),
        decreases i,
    {
        proof {
            assert(fv.take(i as int).last() == fed_view(fed@[i - 1]));
            assert(fv.take(i as int).drop_last() =~= fv.take(i - 1));
        }
        if same_text(&chars_of(fed[i - 1].0.as_str()), &target) {
            if let Some(d) = &fed[i - 1].1 {
                return Ok(d.clone());
            }
        }
        i -= 1;
    }
    Err(missing_entry_message(href))
}

} // verus!
