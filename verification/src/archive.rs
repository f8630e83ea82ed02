//! Reading zip archives held in memory, and encoding page data for the
//! front end.
use std::io::Read;

use base64::Engine;
use vstd::prelude::*;

use crate::images::{sorted_pages, ArchiveImages};
use crate::listing::{cbz_images, kept_names, listing_view, numbered, zip_keeps_fn};
use crate::text::{chars_of, string_of};

verus! {

#[verifier::external_type_specification]
#[verifier::external_body]
#[verifier::reject_recursive_types(T)]
pub struct ExCursor<T>(std::io::Cursor<T>);

#[verifier::external_type_specification]
#[verifier::external_body]
#[verifier::reject_recursive_types(R)]
pub struct ExZipArchive<R>(zip::ZipArchive<R>);

/// A zip archive read from a buffer in memory.
pub type MemoryZip = zip::ZipArchive<std::io::Cursor<Vec<u8>>>;

/// The entries of an opened zip archive, by index: the entry's name, or
/// `None` when the entry cannot be opened (`by_index` fails) or its name
/// cannot be decoded.
pub uninterp spec fn zip_entry_names(archive: zip::ZipArchive<std::io::Cursor<Vec<u8>>>) -> Seq<Option<Seq<char>>>;

/// What reading each entry name of an opened zip archive gives: the entry's
/// uncompressed data, or the message of the error met looking it up or
/// reading it.
pub uninterp spec fn zip_reads(archive: zip::ZipArchive<std::io::Cursor<Vec<u8>>>) -> Map<Seq<char>, Result<Seq<u8>, Seq<char>>>;

/// Whether `ZipArchive::new` accepts the bytes of an archive: `None` when it
/// does, the message of its error when it does not.
pub uninterp spec fn zip_open_error(bytes: Seq<u8>) -> Option<Seq<char>>;

/// The entries (see `zip_entry_names`) of the archive that `ZipArchive::new`
/// opens from these bytes.
pub uninterp spec fn zip_listing_of(bytes: Seq<u8>) -> Seq<Option<Seq<char>>>;

/// What reading each entry name gives (see `zip_reads`) in the archive that
/// `ZipArchive::new` opens from these bytes.
pub uninterp spec fn zip_reads_of(bytes: Seq<u8>) -> Map<Seq<char>, Result<Seq<u8>, Seq<char>>>;

/// `ZipArchive::new` over the bytes of an archive; a failure is reported
/// with the error's message. Which bytes it accepts, and the message, are
/// named by `zip_open_error`, and the opened archive's entries and reads by
/// `zip_listing_of` and `zip_reads_of`: all functions of the bytes alone.
#[verifier::external_body]
fn zip_open(bytes: Vec<u8>) -> (r: Result<MemoryZip, String>)
    ensures
        match r {
            Ok(a) => {
                &&& zip_open_error(bytes@) is None
                &&& zip_entry_names(a) == zip_listing_of(bytes@)
                &&& zip_reads(a) == zip_reads_of(bytes@)
            },
            Err(e) => zip_open_error(bytes@) == Some(e@),
        },
{
    zip::ZipArchive::new(std::io::Cursor::new(bytes)).map_err(|e| e.to_string())
}

/// `ZipArchive::len`: the number of entries.
#[verifier::external_body]
fn zip_len(archive: &MemoryZip) -> (n: usize)
    ensures
        n == zip_entry_names(*archive).len(),
{
    archive.len()
}

/// `ZipArchive::by_index` then `ZipFile::name`: the name of entry `index`,
/// or `None` when either fails. Looking an entry up moves the archive's
/// reader only, so the entries stay as they were.
#[verifier::external_body]
fn zip_entry_name(archive: &mut MemoryZip, index: usize) -> (r: Option<String>)
    requires
        index < zip_entry_names(*old(archive)).len(),
    ensures
        zip_entry_names(*final(archive)) == zip_entry_names(*old(archive)),
        zip_reads(*final(archive)) == zip_reads(*old(archive)),
        match r {
            Some(n) => zip_entry_names(*old(archive))[index as int] == Some(n@),
            None => zip_entry_names(*old(archive))[index as int] is None,
        },
{
    match archive.by_index(index) {
        Ok(file) => file.name().ok().map(|n| n.into_owned()),
        Err(_) => None,
    }
}

/// The view of a read's outcome.
pub open spec fn read_view(r: Result<Vec<u8>, String>) -> Result<Seq<u8>, Seq<char>> {
    match r {
        Ok(d) => Ok(d@),
        Err(e) => Err(e@),
    }
}

/// `ZipArchive::by_name` then `Read::read_to_end`: the uncompressed data of
/// the entry called `name`, or the message of the error met; what that is
/// for each name is named by `zip_reads`. Reading moves the archive's reader
/// only, so the archive's entries stay as they were.
#[verifier::external_body]
fn zip_read_named(archive: &mut MemoryZip, name: &str) -> (r: Result<Vec<u8>, String>)
    ensures
        read_view(r) == zip_reads(*old(archive))[name@],
        zip_reads(*final(archive)) == zip_reads(*old(archive)),
        zip_entry_names(*final(archive)) == zip_entry_names(*old(archive)),
{
    let mut file = archive.by_name(name).map_err(|e| e.to_string())?;
    let mut data = Vec::new();
    file.read_to_end(&mut data).map_err(|e| e.to_string())?;
    Ok(data)
}

/// The names of an opened archive's entries, in archive order, `None` for
/// an entry that cannot be opened.
pub fn zip_listing(archive: &mut MemoryZip) -> (r: Vec<Option<String>>)
    ensures
        listing_view(r@) == zip_entry_names(*old(archive)),
        zip_entry_names(*final(archive)) == zip_entry_names(*old(archive)),
{
    let ghost names = zip_entry_names(*archive);
    let n = zip_len(archive);
    let mut r: Vec<Option<String>> = Vec::new();
    let mut i: usize = 0;
    while i < n
        invariant
            i <= n,
            n == names.len(),
            zip_entry_names(*archive) == names,
            listing_view(r@) == names.take(i as int),
        decreases n - i,
    {
        let name = zip_entry_name(archive, i);
        let ghost before = r@;
        r.push(name);
        proof {
            assert(listing_view(r@) =~= listing_view(before).push(names[i as int]));
            assert(names.take(i as int + 1) =~= names.take(i as int).push(names[i as int]));
        }
        i += 1;
    }
    proof {
        assert(names.take(n as int) =~= names);
    }
    r
}

/// The pages of a zip archive given as bytes (see `cbz_images`), or the
/// message of the error met opening it. It succeeds exactly when the zip
/// reader opens the bytes; the pages are then the numbered, sorted image
/// entries of the listing of these bytes.
pub fn open_cbz(bytes: Vec<u8>) -> (r: Result<ArchiveImages, String>)
    ensures
        r is Ok <==> zip_open_error(bytes@) is None,
        r matches Err(e) ==> zip_open_error(bytes@) == Some(e@),
        r matches Ok(imgs) ==> numbered(imgs.images@, sorted_pages(kept_names(zip_listing_of(bytes@), zip_keeps_fn()))),
{
    let mut archive = match zip_open(bytes) {
        Ok(a) => a,
        Err(e) => {
            return Err(e);
        },
    };
    let listing = zip_listing(&mut archive);
    let images = cbz_images(listing);
    Ok(images)
}

/// The data of the entry `href` of a zip archive given as bytes, or the
/// message of the error met opening the archive or reading the entry: when
/// the bytes do not open, that error; otherwise what reading `href` from the
/// archive of these bytes gives.
pub fn read_zip_entry(bytes: Vec<u8>, href: &str) -> (r: Result<Vec<u8>, String>)
    ensures
        zip_open_error(bytes@) matches Some(m) ==> read_view(r) == Err::<Seq<u8>, Seq<char>>(m),
        zip_open_error(bytes@) is None ==> read_view(r) == zip_reads_of(bytes@)[href@],
{
    let mut archive = match zip_open(bytes) {
        Ok(a) => a,
        Err(e) => {
            return Err(e);
        },
    };
    zip_read_named(&mut archive, href)
}

/// The digit of value `v < 64` in the standard base64 alphabet
/// (`A`-`Z`, `a`-`z`, `0`-`9`, `+`, `/`).
pub open spec fn base64_digit(v: int) -> char {
    if v < 26 {
        (65 + v) as char
    } else if v < 52 {
        (97 + v - 26) as char
    } else if v < 62 {
        (48 + v - 52) as char
    } else if v == 62 {
        '+'
    } else {
        '/'
    }
}

/// Standard base64 (RFC 4648, with `=` padding): each group of three bytes
/// becomes four digits; a final group of one or two bytes is padded.
pub open spec fn base64_text(b: Seq<u8>) -> Seq<char>
    decreases b.len(),
{
    if b.len() == 0 {
        Seq::empty()
    } else if b.len() == 1 {
        seq![base64_digit(b[0] as int / 4), base64_digit((b[0] as int % 4) * 16), '=', '=']
    } else if b.len() == 2 {
        seq![
            base64_digit(b[0] as int / 4),
            base64_digit((b[0] as int % 4) * 16 + b[1] as int / 16),
            base64_digit((b[1] as int % 16) * 4),
            '=',
        ]
    } else {
        seq![
            base64_digit(b[0] as int / 4),
            base64_digit((b[0] as int % 4) * 16 + b[1] as int / 16),
            base64_digit((b[1] as int % 16) * 4 + b[2] as int / 64),
            base64_digit(b[2] as int % 64),
        ] + base64_text(b.skip(3))
    }
}

/// `base64::engine::general_purpose::STANDARD.encode`: standard base64 with
/// padding. The encoder panics when the encoded length overflows `usize`,
/// which the precondition rules out.
#[verifier::external_body]
fn base64_standard(data: &[u8]) -> (r: String)
    requires
        4 * ((data@.len() + 2) / 3) <= usize::MAX,
    ensures
        r@ == base64_text(data@),
{
    base64::engine::general_purpose::STANDARD.encode(data)
}

/// Page data as the front end receives it: standard base64.
pub fn encode_image(data: &[u8]) -> (r: String)
    requires
        4 * ((data@.len() + 2) / 3) <= usize::MAX,
    ensures
        r@ == base64_text(data@),
{
    base64_standard(data)
}


/// The message for an entry that an archive does not hold.
pub open spec fn missing_entry_text(href: Seq<char>) -> Seq<char> {
    "Entry '"@ + href + "' not found in archive"@
}

/// "Entry '<href>' not found in archive".
pub fn missing_entry_message(href: &str) -> (r: String)
    ensures
        r@ == missing_entry_text(href@),
{
    let mut all = chars_of("Entry '");
    let mut h = chars_of(href);
    let mut tail = chars_of("' not found in archive");
    all.append(&mut h);
    all.append(&mut tail);
    string_of(&all)
}


/// Encoded page data is four characters for every started group of three bytes.
pub proof fn law_base64_length(b: Seq<u8>)
    ensures
        base64_text(b).len() == 4 * ((b.len() + 2) / 3),
    decreases b.len(),
{
    if b.len() >= 3 {
        law_base64_length(b.skip(3));
    }
}

proof fn lemma_base64_digit_injective(u: int, v: int)
    requires
        0 <= u < 64,
        0 <= v < 64,
        base64_digit(u) == base64_digit(v),
    ensures
        u == v,
{
    assert(base64_digit(u) as int == base64_digit(v) as int);
}

proof fn lemma_base64_digit_not_pad(u: int)
    requires
        0 <= u < 64,
    ensures
        base64_digit(u) != '=',
{
    assert(base64_digit(u) as int != '=' as int);
}

proof fn lemma_base64_group(x0: u8, x1: u8, x2: u8, y0: u8, y1: u8, y2: u8)
    requires
        x0 / 4 == y0 / 4,
        (x0 % 4) * 16 + x1 / 16 == (y0 % 4) * 16 + y1 / 16,
        (x1 % 16) * 4 + x2 / 64 == (y1 % 16) * 4 + y2 / 64,
        x2 % 64 == y2 % 64,
    ensures
        x0 == y0 && x1 == y1 && x2 == y2,
{
    assert(x0 == y0 && x1 == y1 && x2 == y2) by (bit_vector)
        requires
            x0 / 4 == y0 / 4,
            (x0 % 4) * 16 + x1 / 16 == (y0 % 4) * 16 + y1 / 16,
            (x1 % 16) * 4 + x2 / 64 == (y1 % 16) * 4 + y2 / 64,
            x2 % 64 == y2 % 64,
    ;
}

proof fn lemma_base64_pair(x0: u8, x1: u8, y0: u8, y1: u8)
    requires
        x0 / 4 == y0 / 4,
        (x0 % 4) * 16 + x1 / 16 == (y0 % 4) * 16 + y1 / 16,
        (x1 % 16) * 4 == (y1 % 16) * 4,
    ensures
        x0 == y0 && x1 == y1,
{
    assert(x0 == y0 && x1 == y1) by (bit_vector)
        requires
            x0 / 4 == y0 / 4,
            (x0 % 4) * 16 + x1 / 16 == (y0 % 4) * 16 + y1 / 16,
            (x1 % 16) * 4 == (y1 % 16) * 4,
    ;
}

proof fn lemma_base64_single(x0: u8, y0: u8)
    requires
        x0 / 4 == y0 / 4,
        (x0 % 4) * 16 == (y0 % 4) * 16,
    ensures
        x0 == y0,
{
    assert(x0 == y0) by (bit_vector)
        requires
            x0 / 4 == y0 / 4,
            (x0 % 4) * 16 == (y0 % 4) * 16,
    ;
}

proof fn lemma_base64_head(a: Seq<u8>)
    requires
        a.len() > 0,
    ensures
        base64_text(a).len() >= 4,
        base64_text(a)[0] == base64_digit(a[0] as int / 4),
        base64_text(a)[1] == base64_digit(
            (a[0] as int % 4) * 16 + (if a.len() >= 2 { a[1] as int / 16 } else { 0 }),
        ),
        base64_text(a)[2] == (if a.len() == 1 {
            '='
        } else {
            base64_digit((a[1] as int % 16) * 4 + (if a.len() >= 3 { a[2] as int / 64 } else { 0 }))
        }),
        base64_text(a)[3] == (if a.len() <= 2 { '=' } else { base64_digit(a[2] as int % 64) }),
{
    law_base64_length(a);
}

/// Encoded page data determines the data: different byte sequences have
/// different base64 texts.
pub proof fn law_base64_injective(a: Seq<u8>, b: Seq<u8>)
    requires
        base64_text(a) == base64_text(b),
    ensures
        a == b,
    decreases a.len(),
{
    let t = base64_text(a);
    law_base64_length(a);
    law_base64_length(b);
    if a.len() > 0 {
        lemma_base64_head(a);
    }
    if b.len() > 0 {
        lemma_base64_head(b);
    }
    if a.len() == 0 || b.len() == 0 {
        assert(a.len() == 0 && b.len() == 0);
        assert(a =~= b);
    } else {
        // the padding tells how many bytes the first group holds
        assert(0 <= a[0] as int / 4 < 64);
        assert(0 <= b[0] as int / 4 < 64);
        assert(0 <= (a[0] as int % 4) * 16 + a[1] as int / 16 < 64) by {
            if a.len() >= 2 {
                assert(a[1] as int / 16 < 16);
            }
        }
        if a.len() >= 2 {
            assert(0 <= (a[1] as int % 16) * 4 + (if a.len() >= 3 { a[2] as int / 64 } else { 0 }) < 64);
            lemma_base64_digit_not_pad((a[1] as int % 16) * 4 + (if a.len() >= 3 { a[2] as int / 64 } else { 0 }));
        }
        if b.len() >= 2 {
            assert(0 <= (b[1] as int % 16) * 4 + (if b.len() >= 3 { b[2] as int / 64 } else { 0 }) < 64);
            lemma_base64_digit_not_pad((b[1] as int % 16) * 4 + (if b.len() >= 3 { b[2] as int / 64 } else { 0 }));
        }
        if a.len() >= 3 {
            lemma_base64_digit_not_pad(a[2] as int % 64);
        }
        if b.len() >= 3 {
            lemma_base64_digit_not_pad(b[2] as int % 64);
        }
        lemma_base64_digit_injective(a[0] as int / 4, b[0] as int / 4);
        if a.len() == 1 {
            assert(b.len() == 1);
            lemma_base64_digit_injective((a[0] as int % 4) * 16, (b[0] as int % 4) * 16);
            lemma_base64_single(a[0], b[0]);
            assert(a =~= b);
        } else if a.len() == 2 {
            assert(b.len() == 2);
            lemma_base64_digit_injective((a[0] as int % 4) * 16 + a[1] as int / 16, (b[0] as int % 4) * 16 + b[1] as int / 16);
            lemma_base64_digit_injective((a[1] as int % 16) * 4, (b[1] as int % 16) * 4);
            lemma_base64_pair(a[0], a[1], b[0], b[1]);
            assert(a =~= b);
        } else {
            assert(b.len() >= 3);
            lemma_base64_digit_injective((a[0] as int % 4) * 16 + a[1] as int / 16, (b[0] as int % 4) * 16 + b[1] as int / 16);
            lemma_base64_digit_injective((a[1] as int % 16) * 4 + a[2] as int / 64, (b[1] as int % 16) * 4 + b[2] as int / 64);
            lemma_base64_digit_injective(a[2] as int % 64, b[2] as int % 64);
            lemma_base64_group(a[0], a[1], a[2], b[0], b[1], b[2]);
            assert(base64_text(a.skip(3)) =~= t.skip(4));
            assert(base64_text(b.skip(3)) =~= t.skip(4));
            law_base64_injective(a.skip(3), b.skip(3));
            assert(a =~= a.take(3) + a.skip(3));
            assert(b =~= b.take(3) + b.skip(3));
            assert(a.take(3) =~= b.take(3));
        }
    }
}

} // verus!
