use comic_reader::listing::cb7_images;
use comic_reader::sevenz::{keep_walking, read_7z_entry_from_walk, FedEntry};
use comic_reader::tarball::{open_cbt, read_tar_entry};

fn make_tar(files: &[(&str, &[u8])]) -> Vec<u8> {
    let mut b = tar::Builder::new(Vec::new());
    for (name, data) in files {
        let mut h = tar::Header::new_gnu();
        if name.ends_with('/') {
            h.set_entry_type(tar::EntryType::Directory);
            h.set_size(0);
            h.set_mode(0o755);
            h.set_cksum();
            b.append_data(&mut h, name, std::io::empty()).unwrap();
        } else {
            h.set_size(data.len() as u64);
            h.set_mode(0o644);
            h.set_cksum();
            b.append_data(&mut h, name, *data).unwrap();
        }
    }
    b.into_inner().unwrap()
}

fn open_cb7(bytes: Vec<u8>) -> Result<comic_reader::images::ArchiveImages, String> {
    let len = bytes.len() as u64;
    let reader = sevenz_rust::SevenZReader::new(std::io::Cursor::new(bytes), len, "".into()).map_err(|e| e.to_string())?;
    Ok(cb7_images(reader.archive().files.iter().map(|e| (e.name().to_string(), e.is_directory())).collect()))
}

fn read_7z_entry(bytes: Vec<u8>, href: &str) -> Result<Vec<u8>, String> {
    let len = bytes.len() as u64;
    let mut reader =
        sevenz_rust::SevenZReader::new(std::io::Cursor::new(bytes), len, "".into()).map_err(|e| e.to_string())?;
    let mut fed: Vec<FedEntry> = Vec::new();
    let walk = reader.for_each_entries(|entry, data| {
        let mut buf = Vec::new();
        let read = std::io::Read::read_to_end(data, &mut buf).ok().map(|_| buf);
        fed.push((entry.name().to_string(), read));
        Ok(keep_walking(entry.name(), href))
    });
    read_7z_entry_from_walk(fed, walk.err().map(|e| e.to_string()), href)
}

fn make_7z(files: &[(&str, &[u8])]) -> Vec<u8> {
    let mut w = sevenz_rust::SevenZWriter::new(std::io::Cursor::new(Vec::new())).unwrap();
    for (name, data) in files {
        let mut e = sevenz_rust::SevenZArchiveEntry::new();
        e.name = name.to_string();
        if name.ends_with('/') {
            e.is_directory = true;
            w.push_archive_entry::<&[u8]>(e, None).unwrap();
        } else {
            e.has_stream = true;
            w.push_archive_entry(e, Some(*data)).unwrap();
        }
    }
    w.finish().unwrap().into_inner()
}

#[test]
fn cbt_pages_and_entries() {
    let bytes = make_tar(&[("pages/", b""), ("pages/p10.png", b"ten"), ("pages/p2.png", b"two"), ("info.txt", b"x")]);
    let imgs = open_cbt(bytes.clone()).unwrap();
    let hrefs: Vec<_> = imgs.images.iter().map(|i| i.href.clone()).collect();
    assert_eq!(hrefs, vec!["pages/p2.png", "pages/p10.png"]);
    assert_eq!(read_tar_entry(bytes.clone(), "pages/p10.png"), Ok(b"ten".to_vec()));
    assert_eq!(
        read_tar_entry(bytes, "nope.png"),
        Err("Entry 'nope.png' not found in archive".to_string())
    );
}

#[test]
fn cbt_of_garbage() {
    let imgs = open_cbt(b"not a tar at all, certainly not".to_vec());
    assert!(imgs.map(|i| i.images.is_empty()).unwrap_or(true));
    assert!(read_tar_entry(b"not a tar at all, certainly not".to_vec(), "a.png").is_err());
}

#[test]
fn cb7_pages_and_entries() {
    let bytes = make_7z(&[("dir/", b""), ("b10.jpg", b"BBB"), ("b9.jpg", b"AA"), ("notes.md", b"m")]);
    let imgs = open_cb7(bytes.clone()).unwrap();
    let hrefs: Vec<_> = imgs.images.iter().map(|i| i.href.clone()).collect();
    assert_eq!(hrefs, vec!["b9.jpg", "b10.jpg"]);
    assert_eq!(read_7z_entry(bytes.clone(), "b10.jpg"), Ok(b"BBB".to_vec()));
    assert_eq!(read_7z_entry(bytes.clone(), "b9.jpg"), Ok(b"AA".to_vec()));
    assert_eq!(
        read_7z_entry(bytes, "none.jpg"),
        Err("Entry 'none.jpg' not found in archive".to_string())
    );
}

#[test]
fn cb7_of_garbage() {
    assert!(open_cb7(b"garbage".to_vec()).is_err());
    assert!(read_7z_entry(b"garbage".to_vec(), "a").is_err());
}

#[test]
fn walk_decisions() {
    let fed: Vec<FedEntry> = vec![
        ("a.png".to_string(), Some(b"1".to_vec())),
        ("b.png".to_string(), None),
        ("a.png".to_string(), Some(b"2".to_vec())),
    ];
    assert_eq!(read_7z_entry_from_walk(fed.clone(), None, "a.png"), Ok(b"2".to_vec()));
    assert_eq!(read_7z_entry_from_walk(fed.clone(), None, "b.png"), Err("Entry 'b.png' not found in archive".to_string()));
    assert_eq!(read_7z_entry_from_walk(fed, Some("broken".to_string()), "a.png"), Err("broken".to_string()));
    assert!(keep_walking("x", "y"));
    assert!(!keep_walking("y", "y"));
}
