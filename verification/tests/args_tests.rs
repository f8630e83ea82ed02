use comic_reader::args::{decode_file_argument, find_file_in_args, find_file_in_args_with, is_archive_path_extension};

fn strings(v: &[&str]) -> Vec<String> {
    v.iter().map(|s| s.to_string()).collect()
}

#[test]
fn first_archive_argument_is_chosen() {
    let args = strings(&["--flag", "-psn_0_1234", "notes.txt", "/books/a.CBZ", "/books/b.cbt"]);
    assert_eq!(find_file_in_args(args), Some("/books/a.CBZ".to_string()));
}

#[test]
fn options_are_skipped_even_with_archive_extension() {
    let args = strings(&["-x.cbz", "--open=y.cb7"]);
    assert_eq!(find_file_in_args(args), None);
}

#[test]
fn file_urls_are_decoded() {
    let args = strings(&["file:///home/me/My%20Comics/vol%231.cb7"]);
    assert_eq!(find_file_in_args(args), Some("/home/me/My Comics/vol#1.cb7".to_string()));
}

#[test]
fn no_archive_no_file() {
    assert_eq!(find_file_in_args(Vec::new()), None);
    assert_eq!(find_file_in_args(strings(&["a.zip", "b", "c.cbr"])), None);
}

#[test]
fn decoding_of_file_arguments() {
    assert_eq!(decode_file_argument("plain.cbz"), "plain.cbz");
    assert_eq!(decode_file_argument("a%2Fb%zz%4"), "a/b%zz%4");
    assert_eq!(decode_file_argument("%C3%A9t%C3%A9.cbz"), "été.cbz");
    assert_eq!(decode_file_argument("%FF.cbz"), "\u{FFFD}.cbz");
    assert_eq!(decode_file_argument("file://x.cbt"), "x.cbt");
    assert_eq!(decode_file_argument("file%3A%2F%2Fx.cbt"), "x.cbt");
    assert_eq!(decode_file_argument("FILE://x.cbt"), "FILE://x.cbt");
}

#[test]
fn choice_with_given_extensions() {
    let args = strings(&["a", "b", "c"]);
    let exts = vec![None, Some("Cb7".to_string()), Some("cbz".to_string())];
    assert_eq!(find_file_in_args_with(&args, &exts), Some("b".to_string()));
    let exts2 = vec![None, Some("zip".to_string()), None];
    assert_eq!(find_file_in_args_with(&args, &exts2), None);
}

#[test]
fn path_extensions() {
    assert_eq!(find_file_in_args(strings(&[".cbz", "/dir.cbz/file", "/dir/x.cbz"])), Some("/dir/x.cbz".to_string()));
    assert!(is_archive_path_extension(&Some("CBT".to_string())));
    assert!(!is_archive_path_extension(&Some("cbr".to_string())));
    assert!(!is_archive_path_extension(&None));
}

#[test]
fn plain_names_use_the_documented_extension() {
    assert_eq!(find_file_in_args(strings(&["a.cbz.txt", "b.Cbt"])), Some("b.Cbt".to_string()));
    assert_eq!(find_file_in_args(strings(&["..cbz"])), Some("..cbz".to_string()));
    assert_eq!(find_file_in_args(strings(&["cbz", ".cb7"])), None);
}

#[test]
fn full_paths_are_chosen() {
    assert_eq!(find_file_in_args(strings(&["/m/ch1.cbz"])), Some("/m/ch1.cbz".to_string()));
    assert_eq!(find_file_in_args(strings(&["/m/ch1.txt", "/m/v.2/ch2.CB7"])), Some("/m/v.2/ch2.CB7".to_string()));
}

#[test]
fn file_url_arguments_are_found() {
    let args = strings(&["--open=x.cbz", "file:///home/u/My%20Comic.CBZ"]);
    assert_eq!(find_file_in_args(args), Some("/home/u/My Comic.CBZ".to_string()));
}
