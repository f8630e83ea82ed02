//! Finding the archive to open among the program's arguments.
use vstd::prelude::*;
use vstd::string::StringSliceAdditionalSpecFns;
use vstd::utf8::{decode_utf8, valid_utf8};

use crate::images::last_segment;
use crate::text::{chars_of, copy_range, has_prefix, lowercase, lowercase_text, same_text, starts_with, string_of};

verus! {

/// The value of an ASCII hexadecimal digit byte.
pub open spec fn hex_value(b: u8) -> Option<nat> {
    if 0x30 <= b <= 0x39 {
        Some((b - 0x30) as nat)
    } else if 0x41 <= b <= 0x46 {
        Some((b - 0x41 + 10) as nat)
    } else if 0x61 <= b <= 0x66 {
        Some((b - 0x61 + 10) as nat)
    } else {
        None
    }
}

/// Percent-decoding of bytes: each `%` followed by two hexadecimal digits
/// becomes the byte they spell; every other byte stays.
pub open spec fn percent_decoded(b: Seq<u8>) -> Seq<u8>
    decreases b.len(),
{
    if b.len() == 0 {
        Seq::empty()
    } else if b[0] == 0x25 && b.len() >= 3 && hex_value(b[1]) is Some && hex_value(b[2]) is Some {
        seq![(hex_value(b[1])->0 * 16 + hex_value(b[2])->0) as u8] + percent_decoded(b.skip(3))
    } else {
        seq![b[0]] + percent_decoded(b.drop_first())
    }
}

/// What `percent_decode_str(s).decode_utf8_lossy()` returns for `s`.
pub uninterp spec fn percent_decoded_text(s: Seq<char>) -> Seq<char>;

/// `percent_encoding::percent_decode_str` followed by `decode_utf8_lossy`:
/// the percent-decoded bytes of `s` read as UTF-8, with invalid sequences
/// replaced by U+FFFD. Stated: when the decoded bytes are valid UTF-8 the
/// result is exactly their text, and a text without `%` comes back
/// unchanged. The replacement of invalid sequences is left to the name.
#[verifier::external_body]
fn percent_decode_lossy(s: &str) -> (r: String)
    ensures
        r@ == percent_decoded_text(s@),
        valid_utf8(percent_decoded(s.spec_bytes())) ==> r@ == decode_utf8(percent_decoded(s.spec_bytes())),
        !s@.contains('%') ==> r@ == s@,
{
    percent_encoding::percent_decode_str(s).decode_utf8_lossy().into_owned()
}

/// `t` without trailing `/`.
pub open spec fn trim_trailing_slashes(t: Seq<char>) -> Seq<char>
    decreases t.len(),
{
    if t.len() > 0 && t.last() == '/' {
        trim_trailing_slashes(t.drop_last())
    } else {
        t
    }
}

/// The part of `t` after its last `/` (all of `t` when it has none).
pub open spec fn after_last_slash(t: Seq<char>) -> Seq<char>
    decreases t.len(),
{
    if t.len() == 0 {
        t
    } else if t.last() == '/' {
        Seq::empty()
    } else {
        after_last_slash(t.drop_last()).push(t.last())
    }
}

/// The last non-empty `/`-separated part of `t`.
pub open spec fn last_part(t: Seq<char>) -> Seq<char> {
    after_last_slash(trim_trailing_slashes(t))
}

/// The text begins like a drive prefix (`C:`): its second character is `:`.
pub open spec fn drive_like(t: Seq<char>) -> bool {
    t.len() >= 2 && t[1] == ':'
}

/// A path whose file name is its last part on every platform: no `\`, no
/// drive prefix and no leading `//` (so no drive or network prefix), and a
/// last part that is neither empty, `.` nor `..`.
pub open spec fn simple_path(t: Seq<char>) -> bool {
    &&& !t.contains('\\')
    &&& !drive_like(t)
    &&& !has_prefix(t, "//"@)
    &&& last_part(t).len() > 0
    &&& last_part(t) != "."@
    &&& last_part(t) != ".."@
}

/// The extension of a file name as `Path::extension` documents it: none
/// without an embedded `.`, none when the name begins with `.` and has no
/// other `.`, otherwise the part after the final `.`.
pub open spec fn name_extension(t: Seq<char>) -> Option<Seq<char>> {
    if !t.contains('.') {
        None
    } else if t[0] == '.' && !t.drop_first().contains('.') {
        None
    } else {
        Some(last_segment(t))
    }
}

/// The character view of an optional text.
pub open spec fn opt_view(o: Option<String>) -> Option<Seq<char>> {
    match o {
        Some(s) => Some(s@),
        None => None,
    }
}

/// A path separator on some platform: `/` everywhere, `\` on Windows.
pub open spec fn is_path_separator(c: char) -> bool {
    c == '/' || c == '\\'
}

/// The part of `t` after its last `/` or `\` (all of `t` when it has none).
pub open spec fn after_last_separator(t: Seq<char>) -> Seq<char>
    decreases t.len(),
{
    if t.len() == 0 {
        t
    } else if is_path_separator(t.last()) {
        Seq::empty()
    } else {
        after_last_separator(t.drop_last()).push(t.last())
    }
}

/// A path whose file name has an extension on every platform: its part after
/// the last `/` or `\` holds a `.` after its first character, is not `..`
/// and holds no `:`, and the path does not begin with two separators (so no
/// network or verbatim prefix, and a drive prefix such as `C:` is followed by
/// a separator). On Unix, where `\` is an ordinary character, the file name
/// may be longer, but it ends with that part and its final `.` lies there.
pub open spec fn plain_file_name(t: Seq<char>) -> bool {
    let w = after_last_separator(t);
    &&& !(t.len() >= 2 && is_path_separator(t[0]) && is_path_separator(t[1]))
    &&& !w.contains(':')
    &&& w != ".."@
    &&& exists|k: int| 0 < k < w.len() && w[k] == '.'
}

/// What `path_extension` is stated to give for `t`.
pub open spec fn extension_agrees(t: Seq<char>, e: Option<String>) -> bool {
    &&& !t.contains('.') ==> e is None
    &&& simple_path(t) ==> opt_view(e) == name_extension(last_part(t))
    &&& plain_file_name(t) ==> opt_view(e) == Some(last_segment(after_last_separator(t)))
}

/// `Path::new(s).extension()`, as text (lossily converted). What counts as
/// the file name differs between platforms, so only the documented cases
/// that hold on every platform are stated: a text without `.` has no
/// extension; a path without drive or network prefix (a `:` elsewhere,
/// as in a `file:` URL, is no prefix) whose last part is
/// a normal name has that part as its file name, whose extension is as the
/// documentation describes; and a path such as `C:\Comics\vol1.cbz`, whose
/// part after the last `/` or `\` has a `.` after its first character (see
/// `plain_file_name`), has the text after that part's final `.` as its
/// extension. Other paths with `\` or a prefix are left unstated.
#[verifier::external_body]
pub(crate) fn path_extension(s: &str) -> (r: Option<String>)
    ensures
        extension_agrees(s@, r),
{
    std::path::Path::new(s).extension().map(|e| e.to_string_lossy().into_owned())
}

/// `t` with a leading `file://` removed, if it has one.
pub open spec fn without_file_scheme(t: Seq<char>) -> Seq<char> {
    if has_prefix(t, "file://"@) {
        t.skip(7)
    } else {
        t
    }
}

/// The path an argument names: percent-decoded, without `file://`.
pub open spec fn file_argument(arg: Seq<char>) -> Seq<char> {
    without_file_scheme(percent_decoded_text(arg))
}

/// The extensions (lowercased) of the archives the viewer opens.
pub open spec fn is_archive_ext(ext: Seq<char>) -> bool {
    ext == "cbz"@ || ext == "cbt"@ || ext == "cb7"@
}

/// An argument that names an archive to open, given its path extension: it
/// is not an option (does not start with `-`) and its lowercased extension
/// is `cbz`, `cbt` or `cb7`.
pub open spec fn opens(arg: Seq<char>, ext: Option<String>) -> bool {
    &&& !has_prefix(arg, "-"@)
    &&& ext matches Some(e) && is_archive_ext(lowercase_text(e@))
}

/// The file named by the first argument that names an archive.
pub open spec fn first_file_argument(args: Seq<String>, exts: Seq<Option<String>>) -> Option<Seq<char>>
    decreases args.len(),
{
    if args.len() == 0 || exts.len() == 0 {
        None
    } else if opens(args[0]@, exts[0]) {
        Some(file_argument(args[0]@))
    } else {
        first_file_argument(args.drop_first(), exts.drop_first())
    }
}

/// The arguments before `i` are options or hold no `.`, and `args[i]` is no
/// option and has a file name ending in `.cbz`, `.cbt` or `.cb7` (any case),
/// with or without a drive prefix or backslashes.
pub open spec fn first_archive_at(args: Seq<String>, i: int) -> bool {
    &&& 0 <= i < args.len()
    &&& forall|k: int| 0 <= k < i ==> has_prefix(#[trigger] args[k]@, "-"@) || !args[k]@.contains('.')
    &&& !has_prefix(args[i]@, "-"@)
    &&& plain_file_name(args[i]@)
    &&& is_archive_ext(lowercase_text(last_segment(after_last_separator(args[i]@))))
}

/// The extension of an argument is the text after the final `.` of its file
/// name, also for paths with a drive prefix or backslashes; so the first
/// argument that is not an option and names a `.cbz`, `.cbt` or `.cb7` file
/// is the one opened, when the arguments before it are options or hold no `.`.
pub proof fn law_archive_argument_opens(args: Seq<String>, exts: Seq<Option<String>>, i: int)
    requires
        exts.len() == args.len(),
        forall|k: int| 0 <= k < args.len() ==> extension_agrees(#[trigger] args[k]@, exts[k]),
        first_archive_at(args, i),
    ensures
        first_file_argument(args, exts) == Some(file_argument(args[i]@)),
    decreases i,
{
    assert(extension_agrees(args[0]@, exts[0]));
    if i > 0 {
        assert(has_prefix(args[0]@, "-"@) || !args[0]@.contains('.'));
        assert(!opens(args[0]@, exts[0]));
        let a = args.drop_first();
        let x = exts.drop_first();
        assert forall|k: int| 0 <= k < a.len() implies extension_agrees(#[trigger] a[k]@, x[k]) by {
            assert(a[k] == args[k + 1]);
            assert(x[k] == exts[k + 1]);
            assert(extension_agrees(args[k + 1]@, exts[k + 1]));
        }
        assert forall|k: int| 0 <= k < i - 1 implies has_prefix(#[trigger] a[k]@, "-"@) || !a[k]@.contains('.') by {
            assert(a[k] == args[k + 1]);
            assert(has_prefix(args[k + 1]@, "-"@) || !args[k + 1]@.contains('.'));
        }
        assert(a[i - 1] == args[i]);
        law_archive_argument_opens(a, x, i - 1);
    }
}

/// The path that a file argument names: percent-decoded, with a leading
/// `file://` removed.
pub fn decode_file_argument(arg: &str) -> (r: String)
    ensures
        r@ == file_argument(arg@),
        !arg@.contains('%') && !has_prefix(arg@, "file://"@) ==> r@ == arg@,
{
    let decoded = chars_of(percent_decode_lossy(arg).as_str());
    let scheme = chars_of("file://");
    proof {
        reveal_strlit("file://");
    }
    if starts_with(&decoded, &scheme) {
        string_of(&copy_range(&decoded, 7, decoded.len()))
    } else {
        string_of(&decoded)
    }
}

/// Whether a lowercased extension is one of the archive extensions.
pub fn is_archive_extension(ext: &[char]) -> (r: bool)
    ensures
        r == is_archive_ext(ext@),
{
    same_text(ext, &chars_of("cbz")) || same_text(ext, &chars_of("cbt")) || same_text(ext, &chars_of("cb7"))
}

/// Whether `arg`, whose path extension is `ext`, names an archive.
pub fn argument_opens(arg: &str, ext: &Option<String>) -> (r: bool)
    ensures
        r == opens(arg@, *ext),
{
    if starts_with(&chars_of(arg), &chars_of("-")) {
        return false;
    }
    is_archive_path_extension(ext)
}

/// The file to open from the arguments `args`, whose path extensions are
/// `exts`: the first argument that names an archive, decoded.
pub fn find_file_in_args_with(args: &Vec<String>, exts: &Vec<Option<String>>) -> (r: Option<String>)
    requires
        args.len() == exts.len(),
    ensures
        match r {
            Some(p) => first_file_argument(args@, exts@) == Some(p@),
            None => first_file_argument(args@, exts@) is None,
        },
        r matches Some(p) ==> exists|i: int|
            0 <= i < args.len() && opens(#[trigger] args[i]@, exts[i]) && p@ == file_argument(args[i]@) && (
            !args[i]@.contains('%') && !has_prefix(args[i]@, "file://"@) ==> p@ == args[i]@),
{
    let mut i: usize = 0;
    assert(args@.skip(0) =~= args@);
    assert(exts@.skip(0) =~= exts@);
    while i < args.len()
        invariant
            i <= args.len() == exts.len(),
            first_file_argument(args@, exts@) == first_file_argument(args@.skip(i as int), exts@.skip(i as int)),
        decreases args.len() - i,
    {
        proof {
            assert(args@.skip(i as int)[0] == args@[i as int]);
            assert(exts@.skip(i as int)[0] == exts@[i as int]);
            assert(args@.skip(i as int).drop_first() =~= args@.skip(i as int + 1));
            assert(exts@.skip(i as int).drop_first() =~= exts@.skip(i as int + 1));
        }
        if argument_opens(args[i].as_str(), &exts[i]) {
            let p = decode_file_argument(args[i].as_str());
            assert(opens(args@[i as int]@, exts@[i as int]));
            return Some(p);
        }
        i += 1;
    }
    None
}

/// The file to open from the program's arguments: the first one that is not
/// an option and has a `cbz`, `cbt` or `cb7` extension (any case),
/// percent-decoded and without `file://`. Extensions come from the platform's
/// path rules; `find_file_in_args_with` states the choice exactly for given
/// extensions.
pub fn find_file_in_args(args: Vec<String>) -> (r: Option<String>)
    ensures
        exists|exts: Seq<Option<String>>|
            {
                &&& exts.len() == args.len()
                &&& forall|k: int| 0 <= k < args.len() ==> extension_agrees(args[k]@, #[trigger] exts[k])
                &&& opt_view(r) == first_file_argument(args@, exts)
            },
        r matches Some(p) ==> exists|i: int|
            0 <= i < args.len() && !has_prefix(#[trigger] args[i]@, "-"@) && args[i]@.contains('.') && p@
                == file_argument(args[i]@) && (!args[i]@.contains('%') && !has_prefix(args[i]@, "file://"@)
                ==> p@ == args[i]@),
        forall|i: int| #[trigger] first_archive_at(args@, i) ==> opt_view(r) == Some(file_argument(args[i]@)),
{
    let mut exts: Vec<Option<String>> = Vec::new();
    let mut i: usize = 0;
    while i < args.len()
        invariant
            i <= args.len(),
            exts.len() == i,
            forall|k: int| 0 <= k < i ==> (#[trigger] exts@[k] is Some ==> args@[k]@.contains('.')),
            forall|k: int| 0 <= k < i ==> extension_agrees(args@[k]@, #[trigger] exts@[k]),
        decreases args.len() - i,
    {
        exts.push(path_extension(args[i].as_str()));
        i += 1;
    }
    let r = find_file_in_args_with(&args, &exts);
    proof {
        assert(opt_view(r) == first_file_argument(args@, exts@));
        if r is Some {
            let p = r->0;
            let i = choose|i: int|
                0 <= i < args.len() && opens(#[trigger] args[i]@, exts@[i]) && p@ == file_argument(args[i]@) && (
                !args[i]@.contains('%') && !has_prefix(args[i]@, "file://"@) ==> p@ == args[i]@);
            assert(exts@[i] is Some);
            assert(args@[i]@.contains('.'));
        }
        assert forall|i: int| #[trigger] first_archive_at(args@, i) implies opt_view(r) == Some(
            file_argument(args[i]@),
        ) by {
            law_archive_argument_opens(args@, exts@, i);
        }
    }
    r
}

/// Whether a path extension (any case) is that of an archive the viewer
/// opens: `cbz`, `cbt` or `cb7`.
pub fn is_archive_path_extension(ext: &Option<String>) -> (r: bool)
    ensures
        r == (ext matches Some(e) && is_archive_ext(lowercase_text(e@))),
{
    match ext {
        Some(e) => is_archive_extension(&lowercase(&chars_of(e.as_str()))),
        None => false,
    }
}

} // verus!
