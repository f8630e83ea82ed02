use comic_reader::navigation::{next_in_series, prev_in_series, SeriesEntry};

fn key(x: f64) -> u64 {
    x.to_bits()
}

fn entry(ext: &str, series: &str, num: f64, path: &str) -> SeriesEntry {
    SeriesEntry {
        is_file: true,
        extension: Some(ext.to_string()),
        has_stem: true,
        series: Some((series.to_string(), key(num))),
        path: Some(path.to_string()),
    }
}

fn listing() -> Vec<SeriesEntry> {
    vec![
        entry("cbz", "naruto", 3.0, "/c/naruto-3.cbz"),
        entry("cbz", "naruto", 1.0, "/c/naruto-1.cbz"),
        entry("CBZ", "naruto", 2.5, "/c/naruto-2.5.CBZ"),
        entry("cbz", "bleach", 2.0, "/c/bleach-2.cbz"),
        entry("cbr", "naruto", 2.0, "/c/naruto-2.cbr"),
        entry("cbz", "naruto", 10.0, "/c/naruto-10.cbz"),
        SeriesEntry { is_file: false, ..entry("cbz", "naruto", 2.2, "/c/naruto-2.2.cbz") },
    ]
}

#[test]
fn next_is_nearest_higher_number() {
    assert_eq!(next_in_series("cbz", "naruto", key(2.0), &listing()), Some("/c/naruto-2.5.CBZ".to_string()));
    assert_eq!(next_in_series("cbz", "naruto", key(3.0), &listing()), Some("/c/naruto-10.cbz".to_string()));
    assert_eq!(next_in_series("cbz", "naruto", key(10.0), &listing()), None);
}

#[test]
fn prev_is_nearest_lower_number() {
    assert_eq!(prev_in_series("cbz", "naruto", key(3.0), &listing()), Some("/c/naruto-2.5.CBZ".to_string()));
    assert_eq!(prev_in_series("cbz", "naruto", key(2.5), &listing()), Some("/c/naruto-1.cbz".to_string()));
    assert_eq!(prev_in_series("cbz", "naruto", key(1.0), &listing()), None);
}

#[test]
fn current_extension_is_compared_as_written() {
    // entries' extensions are lowercased, the current one is not
    assert_eq!(next_in_series("CBZ", "naruto", key(1.0), &listing()), None);
}

#[test]
fn equal_numbers_keep_listing_order() {
    let l = vec![
        entry("cbz", "s", 2.0, "/first"),
        entry("cbz", "s", 2.0, "/second"),
        entry("cbz", "s", 0.5, "/low"),
    ];
    assert_eq!(next_in_series("cbz", "s", key(1.0), &l), Some("/first".to_string()));
    assert_eq!(prev_in_series("cbz", "s", key(3.0), &l), Some("/first".to_string()));
}

#[test]
fn a_matching_file_without_stem_stops_the_search() {
    let mut l = listing();
    l.push(SeriesEntry { has_stem: false, series: None, ..entry("cbz", "", 0.0, "/c/..") });
    assert_eq!(next_in_series("cbz", "naruto", key(1.0), &l), None);
    // a non-matching extension does not stop it
    let mut l2 = listing();
    l2.push(SeriesEntry { has_stem: false, series: None, ..entry("txt", "", 0.0, "/c/..") });
    assert_eq!(next_in_series("cbz", "naruto", key(1.0), &l2), Some("/c/naruto-2.5.CBZ".to_string()));
}

#[test]
fn a_non_utf8_path_gives_none() {
    let l = vec![SeriesEntry { path: None, ..entry("cbz", "s", 2.0, "") }, entry("cbz", "s", 3.0, "/three")];
    assert_eq!(next_in_series("cbz", "s", key(1.0), &l), None);
    assert_eq!(next_in_series("cbz", "s", key(2.0), &l), Some("/three".to_string()));
}

#[test]
fn keys_order_like_the_numbers() {
    let nums = [0.0, 0.5, 1.0, 2.25, 10.0, 1e300, f64::INFINITY];
    for w in nums.windows(2) {
        assert!(key(w[0]) < key(w[1]));
    }
}

#[test]
fn back_from_next_is_current() {
    let l = listing();
    let next = next_in_series("cbz", "naruto", key(1.0), &l).unwrap();
    assert_eq!(next, "/c/naruto-2.5.CBZ");
    assert_eq!(prev_in_series("cbz", "naruto", key(2.5), &l), Some("/c/naruto-1.cbz".to_string()));
}
