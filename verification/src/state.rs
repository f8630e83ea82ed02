//! What the viewer remembers between commands: the open archive and its
//! format, and a file named on the command line that is waiting to be opened.
use vstd::prelude::*;

verus! {

/// The container format of an opened archive.
#[derive(Clone, Copy, PartialEq, Eq, Structural, Debug)]
pub enum ArchiveFormat {
    Zip,
    Tar,
    SevenZ,
}

/// The viewer's state.
pub struct AppState {
    /// The path of the open archive, if any.
    pub file_path: Option<String>,
    /// A file passed on the command line (or by the system) that the front
    /// end has not fetched yet.
    pub cli_file: Option<String>,
    /// The format of the open archive.
    pub archive_format: Option<ArchiveFormat>,
}

/// The state after opening `path` as an archive of `format`.
pub open spec fn after_open(s: AppState, path: String, format: ArchiveFormat) -> AppState {
    AppState { file_path: Some(path), archive_format: Some(format), ..s }
}

/// The state after closing the open archive.
pub open spec fn after_close(s: AppState) -> AppState {
    AppState { file_path: None, archive_format: None, ..s }
}

/// The state after the pending command-line file was fetched.
pub open spec fn after_take(s: AppState) -> AppState {
    AppState { cli_file: None, ..s }
}

/// The state after `path` became the pending command-line file.
pub open spec fn after_set_cli(s: AppState, path: String) -> AppState {
    AppState { cli_file: Some(path), ..s }
}

/// The message given when image data is asked for with no archive open.
pub open spec fn no_file_message() -> Seq<char> {
    "No file opened"@
}

/// Which archive to read pages from: the open path and its format (a
/// missing format counts as zip), or the no-file error.
pub open spec fn current_of(s: AppState) -> Result<(Seq<char>, ArchiveFormat), Seq<char>> {
    match s.file_path {
        None => Err(no_file_message()),
        Some(p) => Ok(
            (
                p@,
                match s.archive_format {
                    Some(f) => f,
                    None => ArchiveFormat::Zip,
                },
            ),
        ),
    }
}

impl AppState {
    /// A fresh state: nothing open, `cli_file` pending.
    pub fn new(cli_file: Option<String>) -> (r: AppState)
        ensures
            r.file_path is None,
            r.archive_format is None,
            r.cli_file == cli_file,
    {
        AppState { file_path: None, cli_file, archive_format: None }
    }

    /// Records that `path` is now open as an archive of `format`.
    pub fn open_archive(&mut self, path: String, format: ArchiveFormat)
        ensures
            *final(self) == after_open(*old(self), path, format),
    {
        self.file_path = Some(path);
        self.archive_format = Some(format);
    }

    /// Forgets the open archive.
    pub fn close(&mut self)
        ensures
            *final(self) == after_close(*old(self)),
    {
        self.file_path = None;
        self.archive_format = None;
    }

    /// Hands out the pending command-line file, once.
    pub fn take_cli_file(&mut self) -> (r: Option<String>)
        ensures
            r == old(self).cli_file,
            *final(self) == after_take(*old(self)),
    {
        self.cli_file.take()
    }

    /// Makes `path` the pending command-line file.
    pub fn set_cli_file(&mut self, path: String)
        ensures
            *final(self) == after_set_cli(*old(self), path),
    {
        self.cli_file = Some(path);
    }

    /// The archive to read pages from, or "No file opened".
    pub fn current_archive(&self) -> (r: Result<(String, ArchiveFormat), String>)
        ensures
            match r {
                Ok((p, f)) => current_of(*self) == Ok::<(Seq<char>, ArchiveFormat), Seq<char>>((p@, f)),
                Err(e) => current_of(*self) == Err::<(Seq<char>, ArchiveFormat), Seq<char>>(e@),
            },
    {
        match &self.file_path {
            None => Err("No file opened".to_owned()),
            Some(p) => {
                let f = match self.archive_format {
                    Some(f) => f,
                    None => ArchiveFormat::Zip,
                };
                Ok((p.clone(), f))
            },
        }
    }
}

/// After an archive is opened, pages are read from that archive in that format.
pub proof fn law_open_then_current(s: AppState, path: String, format: ArchiveFormat)
    ensures
        current_of(after_open(s, path, format)) == Ok::<(Seq<char>, ArchiveFormat), Seq<char>>((path@, format)),
{
}

/// After the archive is closed, asking for page data fails with "No file opened".
pub proof fn law_close_then_current(s: AppState)
    ensures
        current_of(after_close(s)) == Err::<(Seq<char>, ArchiveFormat), Seq<char>>(no_file_message()),
{
}

/// Opening and closing archives leaves the pending command-line file alone.
pub proof fn law_archive_keeps_cli_file(s: AppState, path: String, format: ArchiveFormat)
    ensures
        after_open(s, path, format).cli_file == s.cli_file,
        after_close(s).cli_file == s.cli_file,
{
}

/// The pending command-line file is handed out once: a second fetch gets nothing.
pub proof fn law_take_once(s: AppState)
    ensures
        after_take(s).cli_file is None,
        after_take(after_take(s)) == after_take(s),
{
}

/// A file set as pending is what the next fetch hands out, and the open
/// archive is not touched by either.
pub proof fn law_set_then_take(s: AppState, path: String)
    ensures
        after_set_cli(s, path).cli_file == Some(path),
        current_of(after_take(after_set_cli(s, path))) == current_of(s),
{
}

/// A command that changes the state without opening an archive.
pub enum StateChange {
    Close,
    TakeCliFile,
    SetCliFile(String),
}

/// The state after a change.
pub open spec fn after_change(s: AppState, c: StateChange) -> AppState {
    match c {
        StateChange::Close => after_close(s),
        StateChange::TakeCliFile => after_take(s),
        StateChange::SetCliFile(p) => after_set_cli(s, p),
    }
}

/// The state after a sequence of changes, in order.
pub open spec fn after_changes(s: AppState, cs: Seq<StateChange>) -> AppState
    decreases cs.len(),
{
    if cs.len() == 0 {
        s
    } else {
        after_changes(after_change(s, cs[0]), cs.drop_first())
    }
}

/// Once the archive is closed, asking for page data fails with "No file
/// opened" after any sequence of commands that opens no archive.
pub proof fn law_closed_until_opened(s: AppState, cs: Seq<StateChange>)
    ensures
        current_of(after_changes(after_close(s), cs)) == Err::<(Seq<char>, ArchiveFormat), Seq<char>>(
            no_file_message(),
        ),
    decreases cs.len(),
{
    if cs.len() > 0 {
        let next = after_change(after_close(s), cs[0]);
        assert(next.file_path is None);
        assert(next == after_close(next));
        law_closed_until_opened(next, cs.drop_first());
    }
}

} // verus!
