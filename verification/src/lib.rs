//! The logic of a comic-archive viewer (`.cbz`, `.cbt`, `.cb7`): which
//! entries of an archive are pages and in what order, how pages are named
//! and encoded, which file of a numbered series comes next or before, which
//! program argument names the archive to open, and what the viewer keeps
//! between commands.

pub mod archive;
pub mod args;
pub mod images;
pub mod listing;
pub mod natural;
pub mod navigation;
pub mod series;
pub mod sevenz;
pub mod state;
pub mod tarball;
pub mod text;
