use comic_reader::images::{collect_images, format_id, mime_from_ext, ImageInfo};

fn entries(names: &[&str]) -> Vec<(String, String)> {
    names.iter().map(|n| (n.to_string(), String::new())).collect()
}

fn triple(i: &ImageInfo) -> (String, String, String) {
    (i.id.clone(), i.href.clone(), i.mime_type.clone())
}

#[test]
fn mime_types_by_extension() {
    assert_eq!(mime_from_ext("jpg"), "image/jpeg");
    assert_eq!(mime_from_ext("jpeg"), "image/jpeg");
    assert_eq!(mime_from_ext("png"), "image/png");
    assert_eq!(mime_from_ext("gif"), "image/gif");
    assert_eq!(mime_from_ext("webp"), "image/webp");
    assert_eq!(mime_from_ext("bmp"), "image/bmp");
    assert_eq!(mime_from_ext("svg"), "image/svg+xml");
    assert_eq!(mime_from_ext("tiff"), "image/tiff");
    assert_eq!(mime_from_ext("tif"), "image/tiff");
}

#[test]
fn unknown_extension_is_jpeg() {
    assert_eq!(mime_from_ext("txt"), "image/jpeg");
    assert_eq!(mime_from_ext(""), "image/jpeg");
    assert_eq!(mime_from_ext("PNG"), "image/jpeg");
}

#[test]
fn ids_are_zero_padded_positions() {
    assert_eq!(format_id(0), "00000");
    assert_eq!(format_id(7), "00007");
    assert_eq!(format_id(42), "00042");
    assert_eq!(format_id(99999), "99999");
    assert_eq!(format_id(123456), "123456");
    for n in [0usize, 1, 9, 10, 99, 100, 12345, 100000, 987654321] {
        assert_eq!(format_id(n), format!("{:05}", n));
    }
}

#[test]
fn collect_filters_sorts_and_numbers() {
    let got: Vec<_> = collect_images(entries(&["b.PNG", "a.jpg", "notes.txt", "c.Jpeg", "dir/", "readme"]))
        .iter()
        .map(triple)
        .collect();
    assert_eq!(
        got,
        vec![
            ("00000".to_string(), "a.jpg".to_string(), "image/jpeg".to_string()),
            ("00001".to_string(), "b.PNG".to_string(), "image/png".to_string()),
            ("00002".to_string(), "c.Jpeg".to_string(), "image/jpeg".to_string()),
        ]
    );
}

#[test]
fn collect_uses_last_dot_segment() {
    let got: Vec<_> = collect_images(entries(&["x.png.txt", "y.txt.webp", ".gif", "archive.tar.gz"]))
        .iter()
        .map(triple)
        .collect();
    assert_eq!(
        got,
        vec![
            ("00000".to_string(), ".gif".to_string(), "image/gif".to_string()),
            ("00001".to_string(), "y.txt.webp".to_string(), "image/webp".to_string()),
        ]
    );
}

#[test]
fn collect_uses_natural_order() {
    let got: Vec<_> = collect_images(vec![
        ("page_10.jpg".to_string(), "jpg".to_string()),
        ("page_2.jpg".to_string(), "jpg".to_string()),
    ])
    .iter()
    .map(|i| (i.id.clone(), i.href.clone()))
    .collect();
    assert_eq!(
        got,
        vec![("00000".to_string(), "page_2.jpg".to_string()), ("00001".to_string(), "page_10.jpg".to_string())]
    );
}

#[test]
fn natural_order_details() {
    let names = [
        "x100.png", "x10.png", "x9.png", "x010.png", "a.png", "B.png", "1.png", "01.png", "ch2/p3.png", "ch10/p1.png",
        "ch2/p10.png", "v1.2.png", "v1.10.png", "z.png",
    ];
    let got: Vec<String> = collect_images(entries(&names)).into_iter().map(|i| i.href).collect();
    assert_eq!(
        got,
        vec![
            "1.png", "01.png", "B.png", "a.png", "ch2/p3.png", "ch2/p10.png", "ch10/p1.png", "v1.2.png", "v1.10.png",
            "x9.png", "x10.png", "x010.png", "x100.png", "z.png",
        ]
    );
}

#[test]
fn collecting_a_page_list_again_changes_nothing() {
    let first = collect_images(entries(&["p10.png", "p2.gif", "p1.jpg", "notes.txt"]));
    let again = collect_images(first.iter().map(|i| (i.href.clone(), String::from("ignored"))).collect());
    let a: Vec<_> = first.iter().map(triple).collect();
    let b: Vec<_> = again.iter().map(triple).collect();
    assert_eq!(a, b);
}

#[test]
fn collect_ignores_listing_order() {
    let a = collect_images(entries(&["3.png", "1.png", "2.gif", "1.png"]));
    let b = collect_images(entries(&["1.png", "2.gif", "1.png", "3.png"]));
    let ta: Vec<_> = a.iter().map(triple).collect();
    let tb: Vec<_> = b.iter().map(triple).collect();
    assert_eq!(ta, tb);
    assert_eq!(ta.len(), 4);
    assert_eq!(ta[0].1, "1.png");
    assert_eq!(ta[1].1, "1.png");
    assert_eq!(ta[1].0, "00001");
}

#[test]
fn collect_of_nothing_is_empty() {
    assert!(collect_images(Vec::new()).is_empty());
    assert!(collect_images(entries(&["a.txt", "b"])).is_empty());
}

#[test]
fn collect_ignores_given_extension() {
    let got = collect_images(vec![("a.png".to_string(), "txt".to_string()), ("b.txt".to_string(), "png".to_string())]);
    assert_eq!(got.len(), 1);
    assert_eq!(got[0].href, "a.png");
    assert_eq!(got[0].mime_type, "image/png");
}

#[test]
fn uppercase_extensions_are_lowercased() {
    let got = collect_images(entries(&["A.TIF", "B.SVG", "C.WEBP"]));
    let mimes: Vec<_> = got.iter().map(|i| i.mime_type.clone()).collect();
    assert_eq!(mimes, vec!["image/tiff", "image/svg+xml", "image/webp"]);
}
