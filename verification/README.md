# comic_reader

The logic of a viewer for comic archives (`.cbz` zip, `.cbt` tar, `.cb7` 7z),
written in Verus with its contracts proved.

- `src/images.rs` — which entry names are pages, their MIME types, the page
  order (natural order of names) and the five-digit page ids.
- `src/natural.rs` — natural order: digit runs compare by value.
- `src/listing.rs` — the pages of a zip, tar or 7z listing.
- `src/archive.rs` — reading a zip archive held in memory, base64 for page data.
- `src/tarball.rs` — reading tar archives held in memory.
- `src/sevenz.rs` — what to return from what the 7z reader hands out.
- `src/series.rs` — the series name and number in a file stem
  (`^(.*?)[-_ ](\d+(?:\.\d+)?)`).
- `src/navigation.rs` — the next and previous volume of a series in a directory.
- `src/args.rs` — the archive named among the program's arguments.
- `src/state.rs` — the open archive and the pending command-line file.
- `src/text.rs` — character-level helpers and the code-point order on texts.

`app/` holds the commands around the library: file and directory access, the
calls of the 7z reader (which can panic on malformed archives), and the
parsing of series numbers as floats.
