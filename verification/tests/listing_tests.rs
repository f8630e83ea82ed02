use comic_reader::listing::{cb7_images, cbt_images, cbz_images};

fn hrefs(a: &comic_reader::images::ArchiveImages) -> Vec<String> {
    a.images.iter().map(|i| i.href.clone()).collect()
}

#[test]
fn zip_listing_skips_macosx_dirs_and_unreadable() {
    let listing = vec![
        Some("__MACOSX/._01.jpg".to_string()),
        Some("pages/".to_string()),
        Some("pages/02.jpg".to_string()),
        None,
        Some("pages/01.jpg".to_string()),
        Some("info.txt".to_string()),
    ];
    let imgs = cbz_images(listing);
    assert_eq!(hrefs(&imgs), vec!["pages/01.jpg", "pages/02.jpg"]);
    assert_eq!(imgs.images[0].id, "00000");
    assert_eq!(imgs.images[1].id, "00001");
}

#[test]
fn tar_listing_keeps_macosx_images() {
    let listing = vec![
        Some("__MACOSX/01.png".to_string()),
        Some("b/".to_string()),
        Some("b/01.png".to_string()),
        None,
    ];
    let imgs = cbt_images(listing);
    assert_eq!(hrefs(&imgs), vec!["__MACOSX/01.png", "b/01.png"]);
}

#[test]
fn sevenz_listing_skips_directories() {
    let listing = vec![
        ("images.png".to_string(), true),
        ("c.png".to_string(), false),
        ("a.gif".to_string(), false),
        ("notes.md".to_string(), false),
    ];
    let imgs = cb7_images(listing);
    assert_eq!(hrefs(&imgs), vec!["a.gif", "c.png"]);
    assert_eq!(imgs.images[0].mime_type, "image/gif");
}

#[test]
fn empty_listings_give_no_pages() {
    assert!(cbz_images(Vec::new()).images.is_empty());
    assert!(cbt_images(vec![None]).images.is_empty());
    assert!(cb7_images(Vec::new()).images.is_empty());
}
