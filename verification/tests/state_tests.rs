use comic_reader::state::{AppState, ArchiveFormat};

#[test]
fn nothing_open_at_start() {
    let s = AppState::new(None);
    assert_eq!(s.current_archive(), Err("No file opened".to_string()));
}

#[test]
fn open_then_read_from_it() {
    let mut s = AppState::new(None);
    s.open_archive("/a/b.cbt".to_string(), ArchiveFormat::Tar);
    assert_eq!(s.current_archive(), Ok(("/a/b.cbt".to_string(), ArchiveFormat::Tar)));
    s.open_archive("/a/c.cb7".to_string(), ArchiveFormat::SevenZ);
    assert_eq!(s.current_archive(), Ok(("/a/c.cb7".to_string(), ArchiveFormat::SevenZ)));
}

#[test]
fn close_forgets_the_archive() {
    let mut s = AppState::new(Some("/x.cbz".to_string()));
    s.open_archive("/a/b.cbz".to_string(), ArchiveFormat::Zip);
    s.close();
    assert_eq!(s.current_archive(), Err("No file opened".to_string()));
    assert_eq!(s.take_cli_file(), Some("/x.cbz".to_string()));
}

#[test]
fn missing_format_reads_as_zip() {
    let s = AppState { file_path: Some("/p.cbz".to_string()), cli_file: None, archive_format: None };
    assert_eq!(s.current_archive(), Ok(("/p.cbz".to_string(), ArchiveFormat::Zip)));
}

#[test]
fn cli_file_is_handed_out_once() {
    let mut s = AppState::new(Some("/x.cbz".to_string()));
    assert_eq!(s.take_cli_file(), Some("/x.cbz".to_string()));
    assert_eq!(s.take_cli_file(), None);
    s.set_cli_file("/y.cbt".to_string());
    assert_eq!(s.take_cli_file(), Some("/y.cbt".to_string()));
    assert_eq!(s.take_cli_file(), None);
}

#[test]
fn closed_stays_closed_until_opened() {
    let mut s = AppState::new(None);
    s.open_archive("/a.cbz".to_string(), ArchiveFormat::Zip);
    s.close();
    s.set_cli_file("/b.cbz".to_string());
    let _ = s.take_cli_file();
    s.close();
    assert_eq!(s.current_archive(), Err("No file opened".to_string()));
}
