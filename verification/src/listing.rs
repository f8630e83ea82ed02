//! Choosing the pages of an archive from the names its entries carry, for
//! each of the three archive formats.
use vstd::prelude::*;

use crate::images::{
    collect_images, entry_names, extension_of_name, id_text, is_image_extension,
    is_image_name, law_image_entries_are_pages, law_pages_are_listed_images, sorted_pages,
    ArchiveImages, ImageInfo, PageRow,
};
use crate::text::{chars_of, ends_with_char, has_prefix, has_suffix, starts_with, string_of};

verus! {

/// `images` is `pages` numbered from zero.
pub open spec fn numbered(images: Seq<ImageInfo>, pages: Seq<PageRow>) -> bool {
    &&& images.len() == pages.len()
    &&& forall|i: int|
        0 <= i < images.len() ==> #[trigger] images[i]@ == (id_text(i as nat), pages[i].0, pages[i].1)
}

/// A zip entry name that is kept as a page: not under `__MACOSX`, not a
/// directory (a name ending in `/`), and an image.
pub open spec fn zip_keeps(name: Seq<char>) -> bool {
    !has_prefix(name, "__MACOSX"@) && !has_suffix(name, "/"@) && is_image_name(name)
}

/// A tar entry name that is kept as a page: not a directory, and an image.
pub open spec fn tar_keeps(name: Seq<char>) -> bool {
    !has_suffix(name, "/"@) && is_image_name(name)
}

/// The names kept from a listing in which `None` stands for an entry that
/// could not be read.
pub open spec fn kept_names(
    listing: Seq<Option<Seq<char>>>,
    keeps: spec_fn(Seq<char>) -> bool,
) -> Seq<Seq<char>>
    decreases listing.len(),
{
    if listing.len() == 0 {
        Seq::empty()
    } else {
        let rest = kept_names(listing.drop_last(), keeps);
        match listing.last() {
            Some(n) => if keeps(n) {
                rest.push(n)
            } else {
                rest
            },
            None => rest,
        }
    }
}

/// The character view of a listing of optional names.
pub open spec fn listing_view(listing: Seq<Option<String>>) -> Seq<Option<Seq<char>>> {
    listing.map_values(|o: Option<String>| match o {
        Some(s) => Some(s@),
        None => None,
    })
}

/// The character view of a 7z listing: each entry's name, or `None` for a directory.
pub open spec fn sevenz_view(listing: Seq<(String, bool)>) -> Seq<Option<Seq<char>>> {
    listing.map_values(|e: (String, bool)| if e.1 { None } else { Some(e.0@) })
}

pub open spec fn zip_keeps_fn() -> spec_fn(Seq<char>) -> bool {
    |n: Seq<char>| zip_keeps(n)
}

pub open spec fn tar_keeps_fn() -> spec_fn(Seq<char>) -> bool {
    |n: Seq<char>| tar_keeps(n)
}

pub open spec fn image_keeps_fn() -> spec_fn(Seq<char>) -> bool {
    |n: Seq<char>| is_image_name(n)
}

/// A name is kept from a listing exactly when it is listed and accepted.
pub proof fn law_kept_names_members(
    listing: Seq<Option<Seq<char>>>,
    keeps: spec_fn(Seq<char>) -> bool,
    n: Seq<char>,
)
    ensures
        kept_names(listing, keeps).contains(n) <==> (listing.contains(Some(n)) && keeps(n)),
    decreases listing.len(),
{
    if listing.len() > 0 {
        let init = listing.drop_last();
        law_kept_names_members(init, keeps, n);
        let rest = kept_names(init, keeps);
        let kept = kept_names(listing, keeps);
        let last = listing.len() - 1;
        assert(listing.last() == listing[last]);
        assert(forall|k: int| 0 <= k < rest.len() ==> #[trigger] kept[k] == rest[k]);
        if listing.contains(Some(n)) && keeps(n) {
            let i = choose|i: int| 0 <= i < listing.len() && listing[i] == Some(n);
            if i < last {
                assert(init[i] == Some(n));
                assert(init.contains(Some(n)));
                let k = choose|k: int| 0 <= k < rest.len() && rest[k] == n;
                assert(kept[k] == n);
            } else {
                assert(kept[rest.len() as int] == n);
            }
            assert(kept.contains(n));
        }
        if kept.contains(n) {
            let k = choose|k: int| 0 <= k < kept.len() && kept[k] == n;
            if k < rest.len() {
                assert(rest.contains(n));
                let i = choose|i: int| 0 <= i < init.len() && init[i] == Some(n);
                assert(listing[i] == Some(n));
            } else {
                assert(listing[last] == Some(n));
            }
            assert(listing.contains(Some(n)));
        }
    } else {
        assert(kept_names(listing, keeps) =~= Seq::<Seq<char>>::empty());
    }
}

proof fn lemma_page_names(names: Seq<Seq<char>>, n: Seq<char>)
    ensures
        (exists|i: int| 0 <= i < sorted_pages(names).len() && (#[trigger] sorted_pages(names)[i]).0 == n)
            <==> (names.contains(n) && is_image_name(n)),
{
    law_pages_are_listed_images(names);
    if names.contains(n) && is_image_name(n) {
        law_image_entries_are_pages(names, n);
    }
}

/// Which names of a listing become pages: for a zip archive the listed image
/// names outside `__MACOSX` that are not directories (no trailing `/`), for
/// a tar archive the listed image names that are not directories, and for a
/// 7z archive the listed image names (its directories are listed as `None`).
pub proof fn law_archive_pages_members(listing: Seq<Option<Seq<char>>>, n: Seq<char>)
    ensures
        (exists|i: int|
            0 <= i < sorted_pages(kept_names(listing, zip_keeps_fn())).len() && (
            #[trigger] sorted_pages(kept_names(listing, zip_keeps_fn()))[i]).0 == n) <==> (listing.contains(Some(n))
            && !has_prefix(n, "__MACOSX"@) && !has_suffix(n, "/"@) && is_image_name(n)),
        (exists|i: int|
            0 <= i < sorted_pages(kept_names(listing, tar_keeps_fn())).len() && (
            #[trigger] sorted_pages(kept_names(listing, tar_keeps_fn()))[i]).0 == n) <==> (listing.contains(Some(n))
            && !has_suffix(n, "/"@) && is_image_name(n)),
        (exists|i: int|
            0 <= i < sorted_pages(kept_names(listing, image_keeps_fn())).len() && (
            #[trigger] sorted_pages(kept_names(listing, image_keeps_fn()))[i]).0 == n) <==> (listing.contains(Some(n))
            && is_image_name(n)),
{
    law_kept_names_members(listing, zip_keeps_fn(), n);
    law_kept_names_members(listing, tar_keeps_fn(), n);
    law_kept_names_members(listing, image_keeps_fn(), n);
    lemma_page_names(kept_names(listing, zip_keeps_fn()), n);
    lemma_page_names(kept_names(listing, tar_keeps_fn()), n);
    lemma_page_names(kept_names(listing, image_keeps_fn()), n);
}

/// Keeps the names of `listing` that `keep` accepts, paired with their
/// lowercased extensions, ready for `collect_images`.
fn keep_entries(
    listing: &Vec<Option<String>>,
    dirs_by_prefix: bool,
) -> (r: Vec<(String, String)>)
    ensures
        entry_names(r@) == kept_names(
            listing_view(listing@),
            if dirs_by_prefix { zip_keeps_fn() } else { tar_keeps_fn() },
        ),
{
    let ghost keeps = if dirs_by_prefix { zip_keeps_fn() } else { tar_keeps_fn() };
    let ghost lv = listing_view(listing@);
    let mut r: Vec<(String, String)> = Vec::new();
    let mut i: usize = 0;
    let macosx = chars_of("__MACOSX");
    while i < listing.len()
        invariant
            i <= listing.len(),
            lv == listing_view(listing@),
            keeps == (if dirs_by_prefix { zip_keeps_fn() } else { tar_keeps_fn() }),
            macosx@ == "__MACOSX"@,
            entry_names(r@) == kept_names(lv.take(i as int), keeps),
        decreases listing.len() - i,
    {
        proof {
            assert(lv.take(i as int + 1).drop_last() =~= lv.take(i as int));
            assert(lv.take(i as int + 1).last() == lv[i as int]);
        }
        match &listing[i] {
            Some(s) => {
                let name = chars_of(s.as_str());
                let under_macosx = dirs_by_prefix && starts_with(&name, &macosx);
                let is_dir = ends_with_char(&name, '/');
                let is_image = is_image_extension(&extension_of_name(&name));
                proof {
                    reveal_strlit("/");
                    assert("/"@ =~= seq!['/']);
                    assert(lv[i as int] == Some(s@));
                    assert(keeps(name@) == (!under_macosx && !is_dir && is_image));
                }
                if !under_macosx && !is_dir && is_image {
                    let ext = string_of(&extension_of_name(&name));
                    let ghost before = r@;
                    r.push((s.clone(), ext));
                    proof {
                        assert(entry_names(r@) =~= entry_names(before).push(s@));
                    }
                }
            },
            None => {},
        }
        i += 1;
    }
    proof {
        assert(lv.take(listing.len() as int) =~= lv);
    }
    r
}

/// The pages of a zip archive, from the names of its entries in archive
/// order (`None` for an entry that could not be opened): the image entries
/// outside `__MACOSX` that are not directories, sorted and numbered.
pub fn cbz_images(listing: Vec<Option<String>>) -> (r: ArchiveImages)
    ensures
        numbered(
            r.images@,
            sorted_pages(kept_names(listing_view(listing@), zip_keeps_fn())),
        ),
{
    let entries = keep_entries(&listing, true);
    let images = collect_images(entries);
    ArchiveImages { images }
}

/// The pages of a tar archive, from the paths of its entries in archive
/// order (`None` for an entry that could not be read): the image entries
/// that are not directories, sorted and numbered.
pub fn cbt_images(listing: Vec<Option<String>>) -> (r: ArchiveImages)
    ensures
        numbered(
            r.images@,
            sorted_pages(kept_names(listing_view(listing@), tar_keeps_fn())),
        ),
{
    let entries = keep_entries(&listing, false);
    let images = collect_images(entries);
    ArchiveImages { images }
}

/// The pages of a 7z archive, from its entries in archive order as
/// `(name, is_directory)`: the image entries that are not directories,
/// sorted and numbered.
pub fn cb7_images(listing: Vec<(String, bool)>) -> (r: ArchiveImages)
    ensures
        numbered(
            r.images@,
            sorted_pages(kept_names(sevenz_view(listing@), image_keeps_fn())),
        ),
{
    let ghost sv = sevenz_view(listing@);
    let mut entries: Vec<(String, String)> = Vec::new();
    let mut i: usize = 0;
    while i < listing.len()
        invariant
            i <= listing.len(),
            sv == sevenz_view(listing@),
            entry_names(entries@) == kept_names(sv.take(i as int), image_keeps_fn()),
        decreases listing.len() - i,
    {
        proof {
            assert(sv.take(i as int + 1).drop_last() =~= sv.take(i as int));
            assert(sv.take(i as int + 1).last() == sv[i as int]);
        }
        if !listing[i].1 {
            let name = chars_of(listing[i].0.as_str());
            let ext = extension_of_name(&name);
            if is_image_extension(&ext) {
                let ghost before = entries@;
                entries.push((listing[i].0.clone(), string_of(&ext)));
                proof {
                    assert(entry_names(entries@) =~= entry_names(before).push(listing@[i as int].0@));
                }
            }
        }
        i += 1;
    }
    proof {
        assert(sv.take(listing.len() as int) =~= sv);
    }
    let images = collect_images(entries);
    ArchiveImages { images }
}

} // verus!
