use std::io::Write;

use comic_reader::archive::{encode_image, missing_entry_message, open_cbz, read_zip_entry};

fn make_zip(files: &[(&str, &[u8])]) -> Vec<u8> {
    let mut w = zip::ZipWriter::new(std::io::Cursor::new(Vec::new()));
    let opts = zip::write::SimpleFileOptions::default().compression_method(zip::CompressionMethod::Stored);
    for (name, data) in files {
        if name.ends_with('/') {
            w.add_directory(name.to_string(), opts).unwrap();
        } else {
            w.start_file(name.to_string(), opts).unwrap();
            w.write_all(data).unwrap();
        }
    }
    w.finish().unwrap().into_inner()
}

#[test]
fn base64_vectors() {
    assert_eq!(encode_image(b""), "");
    assert_eq!(encode_image(b"M"), "TQ==");
    assert_eq!(encode_image(b"Ma"), "TWE=");
    assert_eq!(encode_image(b"Man"), "TWFu");
    assert_eq!(encode_image(&[0xff, 0xfe, 0xfd, 0x00]), "//79AA==");
    assert_eq!(encode_image(b"hello world"), "aGVsbG8gd29ybGQ=");
}

#[test]
fn cbz_pages_from_zip_bytes() {
    let bytes = make_zip(&[
        ("pages/", b""),
        ("pages/02.png", b"two"),
        ("__MACOSX/pages/._01.jpg", b"junk"),
        ("pages/01.JPG", b"one"),
        ("ComicInfo.xml", b"<x/>"),
    ]);
    let imgs = open_cbz(bytes).unwrap();
    let got: Vec<_> = imgs.images.iter().map(|i| (i.id.clone(), i.href.clone(), i.mime_type.clone())).collect();
    assert_eq!(
        got,
        vec![
            ("00000".to_string(), "pages/01.JPG".to_string(), "image/jpeg".to_string()),
            ("00001".to_string(), "pages/02.png".to_string(), "image/png".to_string()),
        ]
    );
}

#[test]
fn not_a_zip_is_an_error() {
    assert!(open_cbz(b"definitely not a zip".to_vec()).is_err());
    assert!(read_zip_entry(Vec::new(), "a.png").is_err());
}

#[test]
fn entry_data_is_read_by_name() {
    let bytes = make_zip(&[("a.png", b"AAA"), ("b.png", b"BBBB")]);
    assert_eq!(read_zip_entry(bytes.clone(), "b.png"), Ok(b"BBBB".to_vec()));
    assert!(read_zip_entry(bytes, "c.png").is_err());
}

#[test]
fn missing_entry_text() {
    assert_eq!(missing_entry_message("x/y.png"), "Entry 'x/y.png' not found in archive");
}

#[test]
fn open_failure_is_reported_alike() {
    let junk = b"PK not really".to_vec();
    let open_err = match open_cbz(junk.clone()) {
        Err(e) => e,
        Ok(_) => panic!("junk opened"),
    };
    assert_eq!(read_zip_entry(junk, "a.png"), Err(open_err));
}
