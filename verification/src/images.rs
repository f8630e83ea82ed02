//! The page list of an archive: which entry names are images, their MIME
//! types, their order, and the ids the pages are given.
use vstd::prelude::*;
use vstd::relations::{sorted_by, total_ordering};

use crate::natural::{key_le_exec, key_view, lemma_natural_le_total_order, nat_key, natural_key, natural_le};
use crate::text::{
    chars_of, copy_range, lemma_text_le_antisymmetric, lemma_text_le_reflexive,
    lemma_text_le_total, lemma_text_le_transitive, lowercase, lowercase_text, same_text, string_of,
    text_le,
};

verus! {

/// One page of an archive: its id (its position, zero-padded), the entry
/// name it is read from, and its MIME type.
#[derive(Clone)]
pub struct ImageInfo {
    pub id: String,
    pub href: String,
    pub mime_type: String,
}

impl View for ImageInfo {
    /// `(id, href, mime_type)` as character sequences.
    type V = (Seq<char>, Seq<char>, Seq<char>);

    open spec fn view(&self) -> Self::V {
        (self.id@, self.href@, self.mime_type@)
    }
}

/// The pages of an opened archive, in reading order.
#[derive(Clone)]
pub struct ArchiveImages {
    pub images: Vec<ImageInfo>,
}

/// The part of `name` after its last `.` (all of `name` when it has none):
/// what `name.split('.').last()` yields.
pub open spec fn last_segment(name: Seq<char>) -> Seq<char>
    decreases name.len(),
{
    if name.len() == 0 {
        name
    } else if name.last() == '.' {
        Seq::empty()
    } else {
        last_segment(name.drop_last()).push(name.last())
    }
}

/// The extension by which an entry name is judged: its last `.`-segment, lowercased.
pub open spec fn extension_of(name: Seq<char>) -> Seq<char> {
    lowercase_text(last_segment(name))
}

/// The extensions that mark an image.
pub open spec fn is_image_ext(ext: Seq<char>) -> bool {
    ||| ext == "jpg"@
    ||| ext == "jpeg"@
    ||| ext == "png"@
    ||| ext == "gif"@
    ||| ext == "webp"@
    ||| ext == "bmp"@
    ||| ext == "svg"@
    ||| ext == "tiff"@
    ||| ext == "tif"@
}

/// The MIME type for an extension; anything unknown counts as JPEG.
pub open spec fn mime_for(ext: Seq<char>) -> Seq<char> {
    if ext == "jpg"@ || ext == "jpeg"@ {
        "image/jpeg"@
    } else if ext == "png"@ {
        "image/png"@
    } else if ext == "gif"@ {
        "image/gif"@
    } else if ext == "webp"@ {
        "image/webp"@
    } else if ext == "bmp"@ {
        "image/bmp"@
    } else if ext == "svg"@ {
        "image/svg+xml"@
    } else if ext == "tiff"@ || ext == "tif"@ {
        "image/tiff"@
    } else {
        "image/jpeg"@
    }
}

/// An entry name that names an image.
pub open spec fn is_image_name(name: Seq<char>) -> bool {
    is_image_ext(extension_of(name))
}

proof fn lemma_last_segment_from(name: Seq<char>, j: int)
    requires
        0 <= j <= name.len(),
        forall|k: int| j <= k < name.len() ==> name[k] != '.',
    ensures
        last_segment(name) == last_segment(name.take(j)) + name.subrange(j, name.len() as int),
    decreases name.len() - j,
{
    if j < name.len() {
        lemma_last_segment_from(name, j + 1);
        let t = name.take(j + 1);
        assert(t.drop_last() =~= name.take(j));
        assert(t.last() == name[j]);
        assert(last_segment(t) == last_segment(name.take(j)).push(name[j]));
        assert(last_segment(name.take(j)).push(name[j]) + name.subrange(j + 1, name.len() as int)
            =~= last_segment(name.take(j)) + name.subrange(j, name.len() as int));
    } else {
        assert(name.take(j) =~= name);
        assert(name.subrange(j, name.len() as int) =~= Seq::<char>::empty());
        assert(last_segment(name) + Seq::<char>::empty() =~= last_segment(name));
    }
}

/// The last `.`-segment of `name`.
pub fn last_segment_of(name: &[char]) -> (r: Vec<char>)
    ensures
        r@ == last_segment(name@),
{
    let mut j: usize = name.len();
    while j > 0 && name[j - 1] != '.'
        invariant
            j <= name.len(),
            forall|k: int| j <= k < name.len() ==> name@[k] != '.',
        decreases j,
    {
        j -= 1;
    }
    proof {
        lemma_last_segment_from(name@, j as int);
        if j > 0 {
            assert(name@.take(j as int).last() == '.');
        } else {
            assert(name@.take(0) =~= Seq::<char>::empty());
        }
        assert(Seq::<char>::empty() + name@.subrange(j as int, name.len() as int)
            =~= name@.subrange(j as int, name.len() as int));
    }
    copy_range(name, j, name.len())
}

/// The last `.`-segment is what follows the final `.`: for any text `a`
/// and any `b` without `.`, that of `a`, `.`, `b` is `b`; a name without `.`
/// is its own last segment.
pub proof fn law_last_segment_after_final_dot(a: Seq<char>, b: Seq<char>)
    requires
        !b.contains('.'),
    ensures
        last_segment(a.push('.') + b) == b,
        last_segment(b) == b,
{
    let n = a.push('.') + b;
    let j: int = a.len() as int + 1;
    assert forall|k: int| j <= k < n.len() implies n[k] != '.' by {
        assert(n[k] == b[k - j]);
    }
    lemma_last_segment_from(n, j);
    assert(n.take(j) =~= a.push('.'));
    assert(a.push('.').drop_last() =~= a);
    assert(n.subrange(j, n.len() as int) =~= b);
    assert(Seq::<char>::empty() + b =~= b);
    lemma_last_segment_from(b, 0);
    assert(b.take(0) =~= Seq::<char>::empty());
    assert(b.subrange(0, b.len() as int) =~= b);
}

/// The lowercased last `.`-segment of an entry name.
pub fn extension_of_name(name: &[char]) -> (r: Vec<char>)
    ensures
        r@ == extension_of(name@),
{
    let seg = last_segment_of(name);
    lowercase(&seg)
}

/// Whether `ext` (already lowercased) is one of the image extensions.
pub fn is_image_extension(ext: &[char]) -> (r: bool)
    ensures
        r == is_image_ext(ext@),
{
    same_text(ext, &chars_of("jpg")) || same_text(ext, &chars_of("jpeg"))
        || same_text(ext, &chars_of("png")) || same_text(ext, &chars_of("gif"))
        || same_text(ext, &chars_of("webp")) || same_text(ext, &chars_of("bmp"))
        || same_text(ext, &chars_of("svg")) || same_text(ext, &chars_of("tiff"))
        || same_text(ext, &chars_of("tif"))
}

/// The MIME type for a lowercased extension; an unknown one gives `image/jpeg`.
pub fn mime_from_ext(ext: &str) -> (r: &'static str)
    ensures
        r@ == mime_for(ext@),
{
    let e = chars_of(ext);
    if same_text(&e, &chars_of("jpg")) || same_text(&e, &chars_of("jpeg")) {
        "image/jpeg"
    } else if same_text(&e, &chars_of("png")) {
        "image/png"
    } else if same_text(&e, &chars_of("gif")) {
        "image/gif"
    } else if same_text(&e, &chars_of("webp")) {
        "image/webp"
    } else if same_text(&e, &chars_of("bmp")) {
        "image/bmp"
    } else if same_text(&e, &chars_of("svg")) {
        "image/svg+xml"
    } else if same_text(&e, &chars_of("tiff")) || same_text(&e, &chars_of("tif")) {
        "image/tiff"
    } else {
        "image/jpeg"
    }
}


/// The decimal digit character for `d < 10`.
pub open spec fn digit_char(d: nat) -> char {
    if d == 0 {
        '0'
    } else if d == 1 {
        '1'
    } else if d == 2 {
        '2'
    } else if d == 3 {
        '3'
    } else if d == 4 {
        '4'
    } else if d == 5 {
        '5'
    } else if d == 6 {
        '6'
    } else if d == 7 {
        '7'
    } else if d == 8 {
        '8'
    } else {
        '9'
    }
}

/// The value of a decimal digit character (0 for any other character).
pub open spec fn digit_value(c: char) -> nat {
    if c == '1' {
        1
    } else if c == '2' {
        2
    } else if c == '3' {
        3
    } else if c == '4' {
        4
    } else if c == '5' {
        5
    } else if c == '6' {
        6
    } else if c == '7' {
        7
    } else if c == '8' {
        8
    } else if c == '9' {
        9
    } else {
        0
    }
}

/// `n` written in decimal, without leading zeros.
pub open spec fn decimal_text(n: nat) -> Seq<char>
    decreases n,
{
    if n < 10 {
        seq![digit_char(n)]
    } else {
        decimal_text(n / 10).push(digit_char(n % 10))
    }
}

/// `k` zero characters.
pub open spec fn zeros(k: nat) -> Seq<char> {
    Seq::new(k, |_i: int| '0')
}

/// The id of the page at position `n`: `format!("{:05}", n)`, i.e. `n` in
/// decimal, left-padded with zeros to at least five characters.
pub open spec fn id_text(n: nat) -> Seq<char> {
    let d = decimal_text(n);
    if d.len() >= 5 {
        d
    } else {
        zeros((5 - d.len()) as nat) + d
    }
}

/// The number a text of decimal digits stands for.
pub open spec fn text_value(s: Seq<char>) -> nat
    decreases s.len(),
{
    if s.len() == 0 {
        0
    } else {
        text_value(s.drop_last()) * 10 + digit_value(s.last())
    }
}

proof fn lemma_decimal_value(n: nat)
    ensures
        text_value(decimal_text(n)) == n,
        decimal_text(n).len() >= 1,
    decreases n,
{
    if n >= 10 {
        lemma_decimal_value(n / 10);
        let d = decimal_text(n);
        assert(d.drop_last() =~= decimal_text(n / 10));
        assert(digit_value(digit_char(n % 10)) == n % 10);
        assert(n == (n / 10) * 10 + n % 10) by (nonlinear_arith);
        assert(d.last() == digit_char(n % 10));
        assert(text_value(d) == text_value(d.drop_last()) * 10 + digit_value(d.last()));
    } else {
        let d = seq![digit_char(n)];
        assert(d.drop_last() =~= Seq::<char>::empty());
        assert(text_value(Seq::<char>::empty()) == 0);
        assert(digit_value(digit_char(n)) == n);
        assert(text_value(d) == text_value(d.drop_last()) * 10 + digit_value(d.last()));
    }
}

proof fn lemma_zeros_value(k: nat, s: Seq<char>)
    ensures
        text_value(zeros(k) + s) == text_value(s),
    decreases s.len(), k,
{
    if s.len() == 0 {
        assert(zeros(k) + s =~= zeros(k));
        if k > 0 {
            assert(zeros(k).drop_last() =~= zeros((k - 1) as nat));
            lemma_zeros_value((k - 1) as nat, s);
            assert(zeros((k - 1) as nat) + s =~= zeros((k - 1) as nat));
        }
    } else {
        assert((zeros(k) + s).drop_last() =~= zeros(k) + s.drop_last());
        lemma_zeros_value(k, s.drop_last());
    }
}

/// Reading a page id back as a decimal number gives its position.
pub proof fn law_id_reads_back(n: nat)
    ensures
        text_value(id_text(n)) == n,
{
    lemma_decimal_value(n);
    let d = decimal_text(n);
    if d.len() < 5 {
        lemma_zeros_value((5 - d.len()) as nat, d);
    }
}

/// Page ids are distinct: two positions get the same id only if they are equal.
pub proof fn law_ids_distinct(a: nat, b: nat)
    requires
        id_text(a) == id_text(b),
    ensures
        a == b,
{
    law_id_reads_back(a);
    law_id_reads_back(b);
}

/// Every page id has at least five characters, all decimal digits.
pub proof fn law_id_shape(n: nat)
    ensures
        id_text(n).len() >= 5,
        forall|i: int| 0 <= i < id_text(n).len() ==> '0' <= #[trigger] id_text(n)[i] <= '9',
{
    lemma_decimal_digits(n);
}

proof fn lemma_decimal_digits(n: nat)
    ensures
        forall|i: int| 0 <= i < decimal_text(n).len() ==> '0' <= #[trigger] decimal_text(n)[i] <= '9',
    decreases n,
{
    if n >= 10 {
        lemma_decimal_digits(n / 10);
        let d = decimal_text(n);
        assert forall|i: int| 0 <= i < d.len() implies '0' <= #[trigger] d[i] <= '9' by {
            if i < d.len() - 1 {
                assert(d[i] == decimal_text(n / 10)[i]);
            } else {
                assert(d[i] == digit_char(n % 10));
            }
        }
    } else {
        assert(decimal_text(n)[0] == digit_char(n));
    }
}

fn digit_char_of(d: usize) -> (c: char)
    requires
        d < 10,
    ensures
        c == digit_char(d as nat),
{
    if d == 0 {
        '0'
    } else if d == 1 {
        '1'
    } else if d == 2 {
        '2'
    } else if d == 3 {
        '3'
    } else if d == 4 {
        '4'
    } else if d == 5 {
        '5'
    } else if d == 6 {
        '6'
    } else if d == 7 {
        '7'
    } else if d == 8 {
        '8'
    } else {
        '9'
    }
}

fn decimal_chars(n: usize) -> (r: Vec<char>)
    ensures
        r@ == decimal_text(n as nat),
    decreases n,
{
    if n < 10 {
        let mut r: Vec<char> = Vec::new();
        r.push(digit_char_of(n));
        r
    } else {
        let mut r = decimal_chars(n / 10);
        r.push(digit_char_of(n % 10));
        r
    }
}

/// The id of the page at position `n`: `n` zero-padded to five digits.
pub fn format_id(n: usize) -> (r: String)
    ensures
        r@ == id_text(n as nat),
{
    let d = decimal_chars(n);
    proof {
        lemma_decimal_value(n as nat);
    }
    let mut r: Vec<char> = Vec::new();
    while r.len() + d.len() < 5
        invariant
            r@ == zeros(r.len() as nat),
            r.len() + d.len() <= 5 || r.len() == 0,
            d@ == decimal_text(n as nat),
        decreases 5 - r.len(),
    {
        r.push('0');
        assert(r@ =~= zeros(r.len() as nat));
    }
    let mut i: usize = 0;
    let pad = r.len();
    while i < d.len()
        invariant
            pad <= r.len(),
            r@ == zeros(pad as nat) + d@.take(i as int),
            i <= d.len(),
            d@ == decimal_text(n as nat),
            pad + d.len() <= 5 || pad == 0,
            pad + d.len() >= 5 || pad == 5 - d.len(),
        decreases d.len() - i,
    {
        r.push(d[i]);
        assert(d@.take(i as int + 1) =~= d@.take(i as int).push(d@[i as int]));
        assert(r@ =~= zeros(pad as nat) + d@.take(i as int + 1));
        i += 1;
    }
    proof {
        assert(d@.take(d.len() as int) =~= d@);
        if d.len() >= 5 {
            assert(zeros(0) + d@ =~= d@);
        }
    }
    string_of(&r)
}


/// A page before it is numbered: `(href, mime_type)`.
pub type PageRow = (Seq<char>, Seq<char>);

/// The pages that a list of entry names yields, in the list's order:
/// each image name with its MIME type; other names are dropped.
pub open spec fn image_rows(names: Seq<Seq<char>>) -> Seq<PageRow>
    decreases names.len(),
{
    if names.len() == 0 {
        Seq::empty()
    } else {
        let rest = image_rows(names.drop_last());
        let n = names.last();
        if is_image_name(n) {
            rest.push((n, mime_for(extension_of(n))))
        } else {
            rest
        }
    }
}

/// Pages are ordered by `href` in natural order (digit runs by value, so
/// `page_2` before `page_10`), then by MIME type.
pub open spec fn row_le(a: PageRow, b: PageRow) -> bool {
    natural_le(a.0, b.0) && (a.0 == b.0 ==> text_le(a.1, b.1))
}

pub open spec fn page_order() -> spec_fn(PageRow, PageRow) -> bool {
    |a: PageRow, b: PageRow| row_le(a, b)
}

/// The pages of `names` in reading order: the image rows sorted by `href`
/// in natural order.
pub open spec fn sorted_pages(names: Seq<Seq<char>>) -> Seq<PageRow> {
    image_rows(names).sort_by(page_order())
}

/// The entry names of a list of `(name, extension)` pairs.
pub open spec fn entry_names(entries: Seq<(String, String)>) -> Seq<Seq<char>> {
    entries.map_values(|e: (String, String)| e.0@)
}

/// The page order is a total order.
pub proof fn lemma_page_order_total()
    ensures
        total_ordering(page_order()),
{
    let r = page_order();
    assert forall|x: PageRow| #[trigger] r(x, x) by {
        lemma_natural_le_total_order(x.0, x.0, x.0);
        lemma_text_le_reflexive(x.1);
    }
    assert forall|x: PageRow, y: PageRow| #[trigger] r(x, y) && #[trigger] r(y, x) implies x == y by {
        lemma_natural_le_total_order(x.0, y.0, y.0);
        lemma_text_le_antisymmetric(x.1, y.1);
    }
    assert forall|x: PageRow, y: PageRow, z: PageRow|
        #[trigger] r(x, y) && #[trigger] r(y, z) implies r(x, z) by {
        lemma_natural_le_total_order(x.0, y.0, z.0);
        if x.0 == z.0 {
            lemma_natural_le_total_order(x.0, y.0, x.0);
            lemma_text_le_transitive(x.1, y.1, z.1);
        }
    }
    assert forall|x: PageRow, y: PageRow| #[trigger] r(x, y) || #[trigger] r(y, x) by {
        lemma_natural_le_total_order(x.0, y.0, y.0);
        lemma_text_le_total(x.1, y.1);
    }
}

/// A row whose MIME type is the one its name determines.
pub open spec fn row_consistent(row: PageRow) -> bool {
    row.1 == mime_for(extension_of(row.0))
}

struct Row {
    href: Vec<char>,
    mime: Vec<char>,
    key: Vec<u64>,
}

spec fn rows_view(s: Seq<Row>) -> Seq<PageRow> {
    s.map_values(|r: Row| (r.href@, r.mime@))
}

/// Every row's key is the natural-order key of its href.
spec fn keys_ok(s: Seq<Row>) -> bool {
    forall|i: int| 0 <= i < s.len() ==> key_view(#[trigger] s[i].key@) == nat_key(s[i].href@)
}

/// Inserts `row` after every row whose href is at or before its own in
/// natural order, keeping the rows sorted (a stable insertion).
fn insert_sorted(rows: &mut Vec<Row>, row: Row)
    requires
        sorted_by(rows_view(old(rows)@), page_order()),
        forall|i: int| 0 <= i < old(rows)@.len() ==> row_consistent(#[trigger] rows_view(old(rows)@)[i]),
        row_consistent((row.href@, row.mime@)),
        keys_ok(old(rows)@),
        key_view(row.key@) == nat_key(row.href@),
    ensures
        sorted_by(rows_view(final(rows)@), page_order()),
        forall|i: int| 0 <= i < final(rows)@.len() ==> row_consistent(#[trigger] rows_view(final(rows)@)[i]),
        rows_view(final(rows)@).to_multiset() == rows_view(old(rows)@).to_multiset().insert((row.href@, row.mime@)),
        keys_ok(final(rows)@),
{
    let ghost x: PageRow = (row.href@, row.mime@);
    let ghost before = rows_view(rows@);
    let ghost old_rows = rows@;
    let mut p: usize = rows.len();
    while p > 0 && !key_le_exec(&rows[p - 1].key, &row.key)
        invariant
            p <= rows.len(),
            rows@ == old_rows,
            rows_view(rows@) == before,
            keys_ok(rows@),
            key_view(row.key@) == nat_key(row.href@),
            x == (row.href@, row.mime@),
            forall|k: int| p <= k < rows.len() ==> !natural_le(#[trigger] before[k].0, x.0),
        decreases p,
    {
        assert(before[p - 1] == (rows@[p - 1].href@, rows@[p - 1].mime@));
        assert(key_view(rows@[p - 1].key@) == nat_key(rows@[p - 1].href@));
        p -= 1;
    }
    if p > 0 {
        assert(before[p - 1] == (rows@[p - 1].href@, rows@[p - 1].mime@));
        assert(key_view(rows@[p - 1].key@) == nat_key(rows@[p - 1].href@));
        assert(natural_le(before[p - 1].0, x.0));
    }
    let ghost key_row = row;
    rows.insert(p, row);
    proof {
        let after = rows_view(rows@);
        assert(after =~= before.insert(p as int, x));
        assert(rows@ =~= old_rows.insert(p as int, key_row));
        assert forall|i: int| 0 <= i < rows@.len() implies key_view(#[trigger] rows@[i].key@) == nat_key(rows@[i].href@) by {
            if i < p {
                assert(rows@[i] == old_rows[i]);
            } else if i > p {
                assert(rows@[i] == old_rows[i - 1]);
            }
        }
        lemma_page_order_total();
        let r = page_order();
        assert forall|i: int, j: int| 0 <= i < j < after.len() implies #[trigger] r(after[i], after[j]) by {
            if j < p {
                assert(r(before[i], before[j]));
            } else if i > p {
                assert(r(before[i - 1], before[j - 1]));
            } else if i == p {
                // x comes strictly before every later row
                lemma_natural_le_total_order(before[j - 1].0, x.0, x.0);
                if x.0 == before[j - 1].0 {
                    lemma_natural_le_total_order(x.0, x.0, x.0);
                }
            } else {
                // i < p == j: before[i] <= before[p - 1] <= x
                assert(r(before[i], before[p - 1]) || i == p - 1);
                if i < p - 1 {
                    lemma_natural_le_total_order(before[i].0, before[p - 1].0, x.0);
                }
                if before[i].0 == x.0 {
                    assert(row_consistent(before[i]));
                    lemma_text_le_reflexive(x.1);
                }
            }
        }
        assert forall|i: int| 0 <= i < after.len() implies row_consistent(#[trigger] after[i]) by {
            if i < p {
                assert(after[i] == before[i]);
            } else if i > p {
                assert(after[i] == before[i - 1]);
            }
        }
        assert(after.remove(p as int) =~= before);
        broadcast use vstd::seq_lib::group_to_multiset_ensures;
        assert(after.remove(p as int).to_multiset() =~= after.to_multiset().remove(x));
        assert(after.to_multiset().count(x) > 0);
        assert(after.to_multiset() =~= before.to_multiset().insert(x));
    }
}

/// The pages of an archive from its entries: the entries whose names are
/// images, with MIME types from their lowercased extensions, sorted by name
/// in natural order,
/// and numbered from zero with five-digit ids. The second part of each entry
/// is not read: the extension is taken from the name again.
pub fn collect_images(entries: Vec<(String, String)>) -> (r: Vec<ImageInfo>)
    ensures
        r.len() == sorted_pages(entry_names(entries@)).len(),
        forall|i: int|
            0 <= i < r.len() ==> #[trigger] r[i]@ == (
                id_text(i as nat),
                sorted_pages(entry_names(entries@))[i].0,
                sorted_pages(entry_names(entries@))[i].1,
            ),
{
    let ghost names = entry_names(entries@);
    let mut rows: Vec<Row> = Vec::new();
    let mut i: usize = 0;
    proof {
        assert(names.take(0) =~= Seq::<Seq<char>>::empty());
        assert(rows_view(rows@) =~= Seq::<PageRow>::empty());
    }
    while i < entries.len()
        invariant
            i <= entries.len(),
            names == entry_names(entries@),
            sorted_by(rows_view(rows@), page_order()),
            keys_ok(rows@),
            forall|k: int| 0 <= k < rows@.len() ==> row_consistent(#[trigger] rows_view(rows@)[k]),
            rows_view(rows@).to_multiset() == image_rows(names.take(i as int)).to_multiset(),
        decreases entries.len() - i,
    {
        let name = chars_of(entries[i].0.as_str());
        let ext = extension_of_name(&name);
        proof {
            assert(names.take(i as int + 1).drop_last() =~= names.take(i as int));
            assert(names.take(i as int + 1).last() == name@);
        }
        let ghost prev = image_rows(names.take(i as int));
        if is_image_extension(&ext) {
            let mime = chars_of(mime_from_ext(&string_of(&ext)));
            proof {
                assert(image_rows(names.take(i as int + 1)) == prev.push((name@, mime@)));
                broadcast use vstd::seq_lib::group_to_multiset_ensures;
            }
            let key = natural_key(&name);
            insert_sorted(&mut rows, Row { href: name, mime, key });
        } else {
            assert(image_rows(names.take(i as int + 1)) == prev);
        }
        i += 1;
    }
    proof {
        assert(names.take(entries.len() as int) =~= names);
        lemma_page_order_total();
        image_rows(names).lemma_sort_by_ensures(page_order());
        vstd::seq_lib::lemma_sorted_unique(rows_view(rows@), sorted_pages(names), page_order());
    }
    let ghost pages = sorted_pages(names);
    let mut out: Vec<ImageInfo> = Vec::new();
    let mut j: usize = 0;
    while j < rows.len()
        invariant
            j <= rows.len(),
            rows_view(rows@) == pages,
            out.len() == j,
            forall|k: int| 0 <= k < j ==> #[trigger] out[k]@ == (id_text(k as nat), pages[k].0, pages[k].1),
        decreases rows.len() - j,
    {
        let info = ImageInfo {
            id: format_id(j),
            href: string_of(&rows[j].href),
            mime_type: string_of(&rows[j].mime),
        };
        proof {
            assert(rows_view(rows@)[j as int] == (rows@[j as int].href@, rows@[j as int].mime@));
        }
        out.push(info);
        j += 1;
    }
    out
}


/// The page an image name yields.
pub open spec fn page_row(name: Seq<char>) -> PageRow {
    (name, mime_for(extension_of(name)))
}

proof fn lemma_rows_count(names: Seq<Seq<char>>, r: PageRow)
    ensures
        image_rows(names).to_multiset().count(r) == (if is_image_name(r.0) && r == page_row(r.0) {
            names.to_multiset().count(r.0)
        } else {
            0
        }),
    decreases names.len(),
{
    broadcast use vstd::seq_lib::group_to_multiset_ensures;
    broadcast use vstd::multiset::group_multiset_axioms;

    if names.len() == 0 {
        assert(image_rows(names) =~= Seq::<PageRow>::empty());
        assert(names.to_multiset() =~= vstd::multiset::Multiset::empty());
        assert(image_rows(names).to_multiset() =~= vstd::multiset::Multiset::empty());
    } else {
        let init = names.drop_last();
        let n = names.last();
        lemma_rows_count(init, r);
        assert(names =~= init.push(n));
        assert(names.to_multiset() =~= init.to_multiset().insert(n));
        if is_image_name(n) {
            assert(image_rows(names) == image_rows(init).push(page_row(n)));
            assert(image_rows(names).to_multiset() =~= image_rows(init).to_multiset().insert(page_row(n)));
        }
    }
}

/// The page list does not depend on the order in which the archive lists
/// its entries: any two listings with the same names (counted with
/// multiplicity) give the same pages, in the same order.
pub proof fn law_pages_ignore_listing_order(a: Seq<Seq<char>>, b: Seq<Seq<char>>)
    requires
        a.to_multiset() == b.to_multiset(),
    ensures
        sorted_pages(a) == sorted_pages(b),
{
    assert forall|r: PageRow| image_rows(a).to_multiset().count(r) == image_rows(b).to_multiset().count(r) by {
        lemma_rows_count(a, r);
        lemma_rows_count(b, r);
    }
    assert(image_rows(a).to_multiset() =~= image_rows(b).to_multiset());
    lemma_page_order_total();
    image_rows(a).lemma_sort_by_ensures(page_order());
    image_rows(b).lemma_sort_by_ensures(page_order());
    vstd::seq_lib::lemma_sorted_unique(sorted_pages(a), sorted_pages(b), page_order());
}

/// Every page comes from an image entry of the listing, with the MIME type
/// of its extension, and pages are in natural `href` order.
pub proof fn law_pages_are_listed_images(names: Seq<Seq<char>>)
    ensures
        forall|i: int|
            0 <= i < sorted_pages(names).len() ==> {
                let p = #[trigger] sorted_pages(names)[i];
                &&& names.contains(p.0)
                &&& is_image_name(p.0)
                &&& p.1 == mime_for(extension_of(p.0))
            },
        forall|i: int, j: int|
            0 <= i < j < sorted_pages(names).len() ==> natural_le(
                #[trigger] sorted_pages(names)[i].0,
                #[trigger] sorted_pages(names)[j].0,
            ),
{
    broadcast use vstd::seq_lib::group_to_multiset_ensures;

    lemma_page_order_total();
    image_rows(names).lemma_sort_by_ensures(page_order());
    let s = sorted_pages(names);
    assert forall|i: int| 0 <= i < s.len() implies {
        let p = #[trigger] s[i];
        &&& names.contains(p.0)
        &&& is_image_name(p.0)
        &&& p.1 == mime_for(extension_of(p.0))
    } by {
        let p = s[i];
        assert(s.to_multiset().count(p) > 0);
        lemma_rows_count(names, p);
    }
    assert forall|i: int, j: int| 0 <= i < j < s.len() implies natural_le(#[trigger] s[i].0, #[trigger] s[j].0) by {
        assert(page_order()(s[i], s[j]));
    }
}

/// Every listed entry whose lowercased last `.`-segment is `jpg`, `jpeg`,
/// `png`, `gif`, `webp`, `bmp`, `svg`, `tiff` or `tif` is a page, and each
/// page read from it carries the MIME type of that extension.
pub proof fn law_image_entries_are_pages(names: Seq<Seq<char>>, n: Seq<char>)
    requires
        names.contains(n),
        extension_of(n) == "jpg"@ || extension_of(n) == "jpeg"@ || extension_of(n) == "png"@
            || extension_of(n) == "gif"@ || extension_of(n) == "webp"@ || extension_of(n) == "bmp"@
            || extension_of(n) == "svg"@ || extension_of(n) == "tiff"@ || extension_of(n) == "tif"@,
    ensures
        exists|i: int| 0 <= i < sorted_pages(names).len() && (#[trigger] sorted_pages(names)[i]).0 == n,
        forall|i: int|
            0 <= i < sorted_pages(names).len() && (#[trigger] sorted_pages(names)[i]).0 == n ==> {
                let e = extension_of(n);
                let m = sorted_pages(names)[i].1;
                &&& (e == "jpg"@ || e == "jpeg"@) ==> m == "image/jpeg"@
                &&& e == "png"@ ==> m == "image/png"@
                &&& e == "gif"@ ==> m == "image/gif"@
                &&& e == "webp"@ ==> m == "image/webp"@
                &&& e == "bmp"@ ==> m == "image/bmp"@
                &&& e == "svg"@ ==> m == "image/svg+xml"@
                &&& (e == "tiff"@ || e == "tif"@) ==> m == "image/tiff"@
            },
{
    broadcast use vstd::seq_lib::group_to_multiset_ensures;

    reveal_strlit("jpg");
    reveal_strlit("jpeg");
    reveal_strlit("png");
    reveal_strlit("gif");
    reveal_strlit("webp");
    reveal_strlit("bmp");
    reveal_strlit("svg");
    reveal_strlit("tiff");
    reveal_strlit("tif");
    assert("jpg"@.len() == 3 && "jpg"@[0] == 'j');
    assert("jpeg"@.len() == 4 && "jpeg"@[0] == 'j');
    assert("png"@.len() == 3 && "png"@[0] == 'p');
    assert("gif"@.len() == 3 && "gif"@[0] == 'g');
    assert("webp"@.len() == 4 && "webp"@[0] == 'w');
    assert("bmp"@.len() == 3 && "bmp"@[0] == 'b');
    assert("svg"@.len() == 3 && "svg"@[0] == 's');
    assert("tiff"@.len() == 4 && "tiff"@[0] == 't');
    assert("tif"@.len() == 3 && "tif"@[0] == 't');

    let row = page_row(n);
    assert(is_image_name(n));
    lemma_rows_count(names, row);
    assert(names.to_multiset().count(n) > 0);
    lemma_page_order_total();
    image_rows(names).lemma_sort_by_ensures(page_order());
    let s = sorted_pages(names);
    assert(s.to_multiset().count(row) > 0);
    assert(s.contains(row));
    let i = choose|i: int| 0 <= i < s.len() && s[i] == row;
    assert(s[i].0 == n);
    law_pages_are_listed_images(names);
}

/// The hrefs of a page list.
pub open spec fn page_hrefs(pages: Seq<PageRow>) -> Seq<Seq<char>> {
    pages.map_values(|p: PageRow| p.0)
}

proof fn lemma_rows_of_pages(q: Seq<PageRow>)
    requires
        forall|i: int| 0 <= i < q.len() ==> #[trigger] q[i] == page_row(q[i].0) && is_image_name(q[i].0),
    ensures
        image_rows(page_hrefs(q)) == q,
    decreases q.len(),
{
    if q.len() > 0 {
        let init = q.drop_last();
        assert forall|i: int| 0 <= i < init.len() implies #[trigger] init[i] == page_row(init[i].0) && is_image_name(
            init[i].0,
        ) by {
            assert(init[i] == q[i]);
        }
        lemma_rows_of_pages(init);
        assert(page_hrefs(q).drop_last() =~= page_hrefs(init));
        assert(page_hrefs(q).last() == q.last().0);
        assert(q.last() == page_row(q.last().0));
        assert(q =~= init.push(q.last()));
    } else {
        assert(page_hrefs(q) =~= Seq::<Seq<char>>::empty());
        assert(q =~= Seq::<PageRow>::empty());
    }
}

/// Collecting the pages of a page list again gives the same list: the pages
/// of the hrefs of `sorted_pages(names)` are `sorted_pages(names)`.
pub proof fn law_collect_again(names: Seq<Seq<char>>)
    ensures
        sorted_pages(page_hrefs(sorted_pages(names))) == sorted_pages(names),
{
    let s = sorted_pages(names);
    law_pages_are_listed_images(names);
    assert forall|i: int| 0 <= i < s.len() implies #[trigger] s[i] == page_row(s[i].0) && is_image_name(s[i].0) by {
        let p = s[i];
        assert(p.1 == mime_for(extension_of(p.0)));
    }
    lemma_rows_of_pages(s);
    lemma_page_order_total();
    image_rows(names).lemma_sort_by_ensures(page_order());
    s.lemma_sort_by_ensures(page_order());
    vstd::seq_lib::lemma_sorted_unique(s, s.sort_by(page_order()), page_order());
}

} // verus!
