//! Series detection in file stems: `name-12`, `name_3.5`, `name 07` and the
//! like. A stem matches the pattern `^(.*?)[-_ ](\d+(?:\.\d+)?)` (regex
//! syntax, Unicode mode); the series is the part before the separator,
//! trimmed and lowercased, and the number is the digits after it.
use vstd::prelude::*;

use crate::text::{chars_of, copy_range, lowercase, lowercase_text, string_of};

verus! {

/// A character of Unicode general category Nd (decimal digit), the class
/// that `\d` matches in Unicode mode (Unicode 16).
pub open spec fn is_nd(c: char) -> bool {
    let v = c as u32;
    ||| 0x30 <= v <= 0x39
    ||| 0x660 <= v <= 0x669
    ||| 0x6F0 <= v <= 0x6F9
    ||| 0x7C0 <= v <= 0x7C9
    ||| 0x966 <= v <= 0x96F
    ||| 0x9E6 <= v <= 0x9EF
    ||| 0xA66 <= v <= 0xA6F
    ||| 0xAE6 <= v <= 0xAEF
    ||| 0xB66 <= v <= 0xB6F
    ||| 0xBE6 <= v <= 0xBEF
    ||| 0xC66 <= v <= 0xC6F
    ||| 0xCE6 <= v <= 0xCEF
    ||| 0xD66 <= v <= 0xD6F
    ||| 0xDE6 <= v <= 0xDEF
    ||| 0xE50 <= v <= 0xE59
    ||| 0xED0 <= v <= 0xED9
    ||| 0xF20 <= v <= 0xF29
    ||| 0x1040 <= v <= 0x1049
    ||| 0x1090 <= v <= 0x1099
    ||| 0x17E0 <= v <= 0x17E9
    ||| 0x1810 <= v <= 0x1819
    ||| 0x1946 <= v <= 0x194F
    ||| 0x19D0 <= v <= 0x19D9
    ||| 0x1A80 <= v <= 0x1A89
    ||| 0x1A90 <= v <= 0x1A99
    ||| 0x1B50 <= v <= 0x1B59
    ||| 0x1BB0 <= v <= 0x1BB9
    ||| 0x1C40 <= v <= 0x1C49
    ||| 0x1C50 <= v <= 0x1C59
    ||| 0xA620 <= v <= 0xA629
    ||| 0xA8D0 <= v <= 0xA8D9
    ||| 0xA900 <= v <= 0xA909
    ||| 0xA9D0 <= v <= 0xA9D9
    ||| 0xA9F0 <= v <= 0xA9F9
    ||| 0xAA50 <= v <= 0xAA59
    ||| 0xABF0 <= v <= 0xABF9
    ||| 0xFF10 <= v <= 0xFF19
    ||| 0x104A0 <= v <= 0x104A9
    ||| 0x10D30 <= v <= 0x10D39
    ||| 0x10D40 <= v <= 0x10D49
    ||| 0x11066 <= v <= 0x1106F
    ||| 0x110F0 <= v <= 0x110F9
    ||| 0x11136 <= v <= 0x1113F
    ||| 0x111D0 <= v <= 0x111D9
    ||| 0x112F0 <= v <= 0x112F9
    ||| 0x11450 <= v <= 0x11459
    ||| 0x114D0 <= v <= 0x114D9
    ||| 0x11650 <= v <= 0x11659
    ||| 0x116C0 <= v <= 0x116C9
    ||| 0x116D0 <= v <= 0x116E3
    ||| 0x11730 <= v <= 0x11739
    ||| 0x118E0 <= v <= 0x118E9
    ||| 0x11950 <= v <= 0x11959
    ||| 0x11BF0 <= v <= 0x11BF9
    ||| 0x11C50 <= v <= 0x11C59
    ||| 0x11D50 <= v <= 0x11D59
    ||| 0x11DA0 <= v <= 0x11DA9
    ||| 0x11F50 <= v <= 0x11F59
    ||| 0x16130 <= v <= 0x16139
    ||| 0x16A60 <= v <= 0x16A69
    ||| 0x16AC0 <= v <= 0x16AC9
    ||| 0x16B50 <= v <= 0x16B59
    ||| 0x16D70 <= v <= 0x16D79
    ||| 0x1CCF0 <= v <= 0x1CCF9
    ||| 0x1D7CE <= v <= 0x1D7FF
    ||| 0x1E140 <= v <= 0x1E149
    ||| 0x1E2F0 <= v <= 0x1E2F9
    ||| 0x1E4F0 <= v <= 0x1E4F9
    ||| 0x1E5F1 <= v <= 0x1E5FA
    ||| 0x1E950 <= v <= 0x1E959
    ||| 0x1FBF0 <= v <= 0x1FBF9
}

/// Whether `c` is a Unicode decimal digit (category Nd).
pub fn is_decimal_digit(c: char) -> (r: bool)
    ensures
        r == is_nd(c),
{
    let v = c as u32;
    (0x30 <= v && v <= 0x39)
        || (0x660 <= v && v <= 0x669)
        || (0x6F0 <= v && v <= 0x6F9)
        || (0x7C0 <= v && v <= 0x7C9)
        || (0x966 <= v && v <= 0x96F)
        || (0x9E6 <= v && v <= 0x9EF)
        || (0xA66 <= v && v <= 0xA6F)
        || (0xAE6 <= v && v <= 0xAEF)
        || (0xB66 <= v && v <= 0xB6F)
        || (0xBE6 <= v && v <= 0xBEF)
        || (0xC66 <= v && v <= 0xC6F)
        || (0xCE6 <= v && v <= 0xCEF)
        || (0xD66 <= v && v <= 0xD6F)
        || (0xDE6 <= v && v <= 0xDEF)
        || (0xE50 <= v && v <= 0xE59)
        || (0xED0 <= v && v <= 0xED9)
        || (0xF20 <= v && v <= 0xF29)
        || (0x1040 <= v && v <= 0x1049)
        || (0x1090 <= v && v <= 0x1099)
        || (0x17E0 <= v && v <= 0x17E9)
        || (0x1810 <= v && v <= 0x1819)
        || (0x1946 <= v && v <= 0x194F)
        || (0x19D0 <= v && v <= 0x19D9)
        || (0x1A80 <= v && v <= 0x1A89)
        || (0x1A90 <= v && v <= 0x1A99)
        || (0x1B50 <= v && v <= 0x1B59)
        || (0x1BB0 <= v && v <= 0x1BB9)
        || (0x1C40 <= v && v <= 0x1C49)
        || (0x1C50 <= v && v <= 0x1C59)
        || (0xA620 <= v && v <= 0xA629)
        || (0xA8D0 <= v && v <= 0xA8D9)
        || (0xA900 <= v && v <= 0xA909)
        || (0xA9D0 <= v && v <= 0xA9D9)
        || (0xA9F0 <= v && v <= 0xA9F9)
        || (0xAA50 <= v && v <= 0xAA59)
        || (0xABF0 <= v && v <= 0xABF9)
        || (0xFF10 <= v && v <= 0xFF19)
        || (0x104A0 <= v && v <= 0x104A9)
        || (0x10D30 <= v && v <= 0x10D39)
        || (0x10D40 <= v && v <= 0x10D49)
        || (0x11066 <= v && v <= 0x1106F)
        || (0x110F0 <= v && v <= 0x110F9)
        || (0x11136 <= v && v <= 0x1113F)
        || (0x111D0 <= v && v <= 0x111D9)
        || (0x112F0 <= v && v <= 0x112F9)
        || (0x11450 <= v && v <= 0x11459)
        || (0x114D0 <= v && v <= 0x114D9)
        || (0x11650 <= v && v <= 0x11659)
        || (0x116C0 <= v && v <= 0x116C9)
        || (0x116D0 <= v && v <= 0x116E3)
        || (0x11730 <= v && v <= 0x11739)
        || (0x118E0 <= v && v <= 0x118E9)
        || (0x11950 <= v && v <= 0x11959)
        || (0x11BF0 <= v && v <= 0x11BF9)
        || (0x11C50 <= v && v <= 0x11C59)
        || (0x11D50 <= v && v <= 0x11D59)
        || (0x11DA0 <= v && v <= 0x11DA9)
        || (0x11F50 <= v && v <= 0x11F59)
        || (0x16130 <= v && v <= 0x16139)
        || (0x16A60 <= v && v <= 0x16A69)
        || (0x16AC0 <= v && v <= 0x16AC9)
        || (0x16B50 <= v && v <= 0x16B59)
        || (0x16D70 <= v && v <= 0x16D79)
        || (0x1CCF0 <= v && v <= 0x1CCF9)
        || (0x1D7CE <= v && v <= 0x1D7FF)
        || (0x1E140 <= v && v <= 0x1E149)
        || (0x1E2F0 <= v && v <= 0x1E2F9)
        || (0x1E4F0 <= v && v <= 0x1E4F9)
        || (0x1E5F1 <= v && v <= 0x1E5FA)
        || (0x1E950 <= v && v <= 0x1E959)
        || (0x1FBF0 <= v && v <= 0x1FBF9)
}

/// A character with the Unicode `White_Space` property, the set that
/// `char::is_whitespace` and `str::trim` use.
pub open spec fn is_white_space(c: char) -> bool {
    let v = c as u32;
    ||| 0x9 <= v <= 0xD
    ||| v == 0x20
    ||| v == 0x85
    ||| v == 0xA0
    ||| v == 0x1680
    ||| 0x2000 <= v <= 0x200A
    ||| v == 0x2028
    ||| v == 0x2029
    ||| v == 0x202F
    ||| v == 0x205F
    ||| v == 0x3000
}

/// Whether `c` is Unicode white space.
pub fn is_white_space_char(c: char) -> (r: bool)
    ensures
        r == is_white_space(c),
{
    let v = c as u32;
    (0x9 <= v && v <= 0xD) || v == 0x20 || v == 0x85 || v == 0xA0 || v == 0x1680 || (0x2000 <= v
        && v <= 0x200A) || v == 0x2028 || v == 0x2029 || v == 0x202F || v == 0x205F || v == 0x3000
}

/// `s` without its leading white space.
pub open spec fn trim_start(s: Seq<char>) -> Seq<char>
    decreases s.len(),
{
    if s.len() > 0 && is_white_space(s[0]) {
        trim_start(s.drop_first())
    } else {
        s
    }
}

/// `s` without its trailing white space.
pub open spec fn trim_end(s: Seq<char>) -> Seq<char>
    decreases s.len(),
{
    if s.len() > 0 && is_white_space(s.last()) {
        trim_end(s.drop_last())
    } else {
        s
    }
}

/// `str::trim`: `s` without leading and trailing white space.
pub open spec fn trimmed(s: Seq<char>) -> Seq<char> {
    trim_end(trim_start(s))
}

/// `s` with leading and trailing white space removed.
pub fn trim(s: &[char]) -> (r: Vec<char>)
    ensures
        r@ == trimmed(s@),
{
    let mut a: usize = 0;
    assert(s@.subrange(0, s.len() as int) =~= s@);
    while a < s.len() && is_white_space_char(s[a])
        invariant
            a <= s.len(),
            trim_start(s@) == trim_start(s@.subrange(a as int, s.len() as int)),
        decreases s.len() - a,
    {
        assert(s@.subrange(a as int, s.len() as int).drop_first() =~= s@.subrange(a as int + 1, s.len() as int));
        a += 1;
    }
    let mut b: usize = s.len();
    while b > a && is_white_space_char(s[b - 1])
        invariant
            a <= b <= s.len(),
            trim_start(s@) == s@.subrange(a as int, s.len() as int),
            trim_end(trim_start(s@)) == trim_end(s@.subrange(a as int, b as int)),
        decreases b,
    {
        assert(s@.subrange(a as int, b as int).drop_last() =~= s@.subrange(a as int, b as int - 1));
        b -= 1;
    }
    copy_range(s, a, b)
}

proof fn lemma_trim_start_at(s: Seq<char>) -> (a: int)
    ensures
        0 <= a <= s.len(),
        trim_start(s) == s.skip(a),
        forall|k: int| 0 <= k < a ==> is_white_space(#[trigger] s[k]),
        a < s.len() ==> !is_white_space(s[a]),
    decreases s.len(),
{
    if s.len() > 0 && is_white_space(s[0]) {
        let a = lemma_trim_start_at(s.drop_first());
        assert(s.drop_first().skip(a) =~= s.skip(a + 1));
        assert forall|k: int| 0 <= k < a + 1 implies is_white_space(#[trigger] s[k]) by {
            if k > 0 {
                assert(s[k] == s.drop_first()[k - 1]);
            }
        }
        a + 1
    } else {
        assert(s.skip(0) =~= s);
        0
    }
}

proof fn lemma_trim_end_at(s: Seq<char>) -> (b: int)
    ensures
        0 <= b <= s.len(),
        trim_end(s) == s.take(b),
        forall|k: int| b <= k < s.len() ==> is_white_space(#[trigger] s[k]),
        b > 0 ==> !is_white_space(s[b - 1]),
    decreases s.len(),
{
    if s.len() > 0 && is_white_space(s.last()) {
        let b = lemma_trim_end_at(s.drop_last());
        assert(s.drop_last().take(b) =~= s.take(b));
        assert forall|k: int| b <= k < s.len() implies is_white_space(#[trigger] s[k]) by {
            if k < s.len() - 1 {
                assert(s[k] == s.drop_last()[k]);
            }
        }
        if b > 0 {
            assert(s.drop_last()[b - 1] == s[b - 1]);
        }
        b
    } else {
        assert(s.take(s.len() as int) =~= s);
        s.len() as int
    }
}

/// Trimming takes white space off both ends and nothing else: the result is
/// the part of `s` between a run of white space at its start and one at its
/// end, and it neither begins nor ends with white space.
pub proof fn law_trimmed_shape(s: Seq<char>)
    ensures
        exists|a: int, b: int|
            #![trigger s.subrange(a, b)]
            0 <= a <= b <= s.len() && trimmed(s) == s.subrange(a, b) && (forall|k: int|
                0 <= k < a ==> is_white_space(#[trigger] s[k])) && (forall|k: int|
                b <= k < s.len() ==> is_white_space(#[trigger] s[k])),
        trimmed(s).len() > 0 ==> !is_white_space(trimmed(s)[0]) && !is_white_space(trimmed(s).last()),
{
    let a = lemma_trim_start_at(s);
    let t = s.skip(a);
    let b = lemma_trim_end_at(t);
    assert(t.take(b) =~= s.subrange(a, a + b));
    assert forall|k: int| a + b <= k < s.len() implies is_white_space(#[trigger] s[k]) by {
        assert(s[k] == t[k - a]);
    }
    if b > 0 {
        assert(trimmed(s)[0] == s[a]);
        assert(trimmed(s).last() == t[b - 1]);
    }
    assert(0 <= a <= a + b <= s.len() && trimmed(s) == s.subrange(a, a + b));
}

/// The separators between a series name and its number.
pub open spec fn is_separator(c: char) -> bool {
    c == '-' || c == '_' || c == ' '
}

/// Position `i` holds a separator followed by a decimal digit.
pub open spec fn splits_at(s: Seq<char>, i: int) -> bool {
    0 <= i && i + 1 < s.len() && is_separator(s[i]) && is_nd(s[i + 1])
}

/// Where the lazy `(.*?)` group ends, searching from `k`: the first split
/// position, unless a line break (which `.` does not match) comes first.
pub open spec fn split_from(s: Seq<char>, k: int) -> Option<int>
    decreases s.len() - k,
{
    if k < 0 || k >= s.len() {
        None
    } else if splits_at(s, k) {
        Some(k)
    } else if s[k] == '\n' {
        None
    } else {
        split_from(s, k + 1)
    }
}

/// The end of the run of decimal digits that starts at `k`.
pub open spec fn digits_end(s: Seq<char>, k: int) -> int
    decreases s.len() - k,
{
    if 0 <= k < s.len() && is_nd(s[k]) {
        digits_end(s, k + 1)
    } else {
        k
    }
}

/// The end of `\d+(?:\.\d+)?` matched greedily from `k`.
pub open spec fn number_end(s: Seq<char>, k: int) -> int {
    let d = digits_end(s, k);
    if 0 <= d && d + 1 < s.len() && s[d] == '.' && is_nd(s[d + 1]) {
        digits_end(s, d + 1)
    } else {
        d
    }
}

/// A number text that `f64`'s parser accepts: only ASCII digits and `.`
/// (the matched shape already puts the dot between digits).
pub open spec fn is_ascii_number(t: Seq<char>) -> bool {
    forall|k: int| 0 <= k < t.len() ==> #[trigger] t[k] == '.' || ('0' <= t[k] && t[k] <= '9')
}

/// The series name and number text of a file stem, when it has them: the
/// trimmed, lowercased part before the first separator that is followed by a
/// digit, and the number after it. `None` when the stem does not match, when
/// the number holds a non-ASCII digit (it would not parse), or when the name
/// is empty.
pub open spec fn series_info(stem: Seq<char>) -> Option<(Seq<char>, Seq<char>)> {
    match split_from(stem, 0) {
        None => None,
        Some(i) => {
            let num = stem.subrange(i + 1, number_end(stem, i + 1));
            let series = lowercase_text(trimmed(stem.take(i)));
            if !is_ascii_number(num) || series.len() == 0 {
                None
            } else {
                Some((series, num))
            }
        },
    }
}

proof fn lemma_split_from_found(s: Seq<char>, k: int, i: int)
    requires
        split_from(s, k) == Some(i),
    ensures
        splits_at(s, i),
        k <= i,
    decreases s.len() - k,
{
    if 0 <= k < s.len() && !splits_at(s, k) && s[k] != '\n' {
        lemma_split_from_found(s, k + 1, i);
    }
}

proof fn lemma_digits_end_bounds(s: Seq<char>, k: int)
    requires
        0 <= k <= s.len(),
    ensures
        k <= digits_end(s, k) <= s.len(),
        forall|m: int| k <= m < digits_end(s, k) ==> is_nd(#[trigger] s[m]),
    decreases s.len() - k,
{
    if k < s.len() && is_nd(s[k]) {
        lemma_digits_end_bounds(s, k + 1);
    }
}

fn digits_end_exec(s: &[char], k: usize) -> (r: usize)
    requires
        k <= s.len(),
    ensures
        r == digits_end(s@, k as int),
{
    let mut j = k;
    while j < s.len() && is_decimal_digit(s[j])
        invariant
            k <= j <= s.len(),
            digits_end(s@, k as int) == digits_end(s@, j as int),
        decreases s.len() - j,
    {
        j += 1;
    }
    j
}

/// The series name and the number text of a file stem (see `series_info`).
/// The number is handed back as its decimal text, to be read as a number by
/// the caller.
pub fn extract_series_info(file_stem: &str) -> (r: Option<(String, String)>)
    ensures
        match r {
            Some((series, num)) => series_info(file_stem@) == Some((series@, num@)),
            None => series_info(file_stem@) is None,
        },
{
    let s = chars_of(file_stem);
    let mut k: usize = 0;
    let mut split: Option<usize> = None;
    while k < s.len()
        invariant_except_break
            split is None,
        invariant
            k <= s.len(),
            s@ == file_stem@,
            split_from(s@, 0) == split_from(s@, k as int),
        ensures
            split matches Some(i) ==> split_from(s@, 0) == Some(i as int),
            split is None ==> split_from(s@, 0) is None,
        decreases s.len() - k,
    {
        if k + 1 < s.len() && (s[k] == '-' || s[k] == '_' || s[k] == ' ') && is_decimal_digit(s[k + 1]) {
            split = Some(k);
            break;
        }
        if s[k] == '\n' {
            break;
        }
        k += 1;
    }
    let i = match split {
        Some(i) => i,
        None => {
            return None;
        },
    };
    assert(split_from(s@, 0) == Some(i as int));
    proof {
        lemma_split_from_found(s@, 0, i as int);
    }
    let d = digits_end_exec(&s, i + 1);
    proof {
        lemma_digits_end_bounds(s@, i as int + 1);
    }
    let end = if d < s.len() && d + 1 < s.len() && s[d] == '.' && is_decimal_digit(s[d + 1]) {
        proof {
            lemma_digits_end_bounds(s@, d as int + 1);
        }
        digits_end_exec(&s, d + 1)
    } else {
        d
    };
    assert(end as int == number_end(s@, i as int + 1));
    let num = copy_range(&s, i + 1, end);
    let mut m: usize = 0;
    while m < num.len()
        invariant
            m <= num.len(),
            split_from(file_stem@, 0) == Some(i as int),
            num@ == file_stem@.subrange(i as int + 1, number_end(file_stem@, i as int + 1)),
            forall|q: int| 0 <= q < m ==> #[trigger] num@[q] == '.' || ('0' <= num@[q] && num@[q] <= '9'),
        decreases num.len() - m,
    {
        let c = num[m];
        if !(c == '.' || ('0' <= c && c <= '9')) {
            assert(!is_ascii_number(num@));
            assert(series_info(file_stem@) is None);
            return None;
        }
        m += 1;
    }
    let prefix = copy_range(&s, 0, i);
    assert(prefix@ =~= s@.take(i as int));
    let series = lowercase(&trim(&prefix));
    if series.len() == 0 {
        return None;
    }
    Some((string_of(&series), string_of(&num)))
}


proof fn lemma_split_from_reaches(s: Seq<char>, k: int, i: int)
    requires
        0 <= k <= i,
        splits_at(s, i),
        forall|j: int| k <= j < i ==> !splits_at(s, j) && #[trigger] s[j] != '\n',
    ensures
        split_from(s, k) == Some(i),
    decreases i - k,
{
    if k < i {
        lemma_split_from_reaches(s, k + 1, i);
    }
}

/// The name ends at the first separator that is followed by a digit, whatever
/// stands before it (dots and other punctuation included) as long as no line
/// break does: the series is that prefix, trimmed and lowercased, and the
/// number is the digits after the separator, with one `.` and more digits if
/// they follow. It is `None` only when that name is empty or the number holds
/// a digit outside ASCII.
pub proof fn law_series_split_at_first_separator(stem: Seq<char>, i: int)
    requires
        splits_at(stem, i),
        forall|j: int| 0 <= j < i ==> !splits_at(stem, j) && #[trigger] stem[j] != '\n',
    ensures
        ({
            let series = lowercase_text(trimmed(stem.take(i)));
            let num = stem.subrange(i + 1, number_end(stem, i + 1));
            series_info(stem) == if series.len() > 0 && is_ascii_number(num) {
                Some((series, num))
            } else {
                None
            }
        }),
{
    lemma_split_from_reaches(stem, 0, i);
}

/// A stem in which no separator is followed by a digit has no series.
pub proof fn law_no_split_no_series(stem: Seq<char>)
    requires
        forall|j: int| 0 <= j < stem.len() ==> !#[trigger] splits_at(stem, j),
    ensures
        series_info(stem) is None,
{
    if split_from(stem, 0) is Some {
        lemma_split_from_found(stem, 0, split_from(stem, 0)->0);
    }
}

proof fn lemma_digits_end_at(s: Seq<char>, k: int, d: int)
    requires
        0 <= k <= d <= s.len(),
        forall|m: int| k <= m < d ==> is_nd(#[trigger] s[m]),
        d == s.len() || !is_nd(s[d]),
    ensures
        digits_end(s, k) == d,
    decreases d - k,
{
    if k < d {
        lemma_digits_end_at(s, k + 1, d);
    }
}

/// A number without a fraction: when the digits starting at `k` run up to
/// `d` and no `.` followed by a digit comes next, the number ends at `d`.
pub proof fn law_number_whole(s: Seq<char>, k: int, d: int)
    requires
        0 <= k < d <= s.len(),
        forall|m: int| k <= m < d ==> is_nd(#[trigger] s[m]),
        d == s.len() || !is_nd(s[d]),
        !(d + 1 < s.len() && s[d] == '.' && is_nd(s[d + 1])),
    ensures
        number_end(s, k) == d,
{
    lemma_digits_end_at(s, k, d);
}

/// A number with a fraction: when the digits starting at `k` run up to `d`,
/// a `.` stands at `d`, and digits run from `d + 1` up to `e`, the number
/// takes all of them and ends at `e`.
pub proof fn law_number_fraction(s: Seq<char>, k: int, d: int, e: int)
    requires
        0 <= k < d,
        d + 1 < e <= s.len(),
        forall|m: int| k <= m < d ==> is_nd(#[trigger] s[m]),
        s[d] == '.',
        forall|m: int| d + 1 <= m < e ==> is_nd(#[trigger] s[m]),
        e == s.len() || !is_nd(s[e]),
    ensures
        number_end(s, k) == e,
{
    assert(!is_nd(s[d])) by {
        assert((s[d] as u32) == 0x2E);
    }
    lemma_digits_end_at(s, k, d);
    lemma_digits_end_at(s, d + 1, e);
}

/// A series found in a stem has a non-empty name, and its number starts with
/// an ASCII digit and holds only ASCII digits and dots.
pub proof fn law_series_shape(stem: Seq<char>)
    ensures
        match series_info(stem) {
            Some((series, num)) => {
                &&& series.len() > 0
                &&& num.len() > 0
                &&& '0' <= num[0] && num[0] <= '9'
                &&& is_ascii_number(num)
            },
            None => true,
        },
{
    if series_info(stem) is Some {
        let i = split_from(stem, 0)->0;
        lemma_split_from_found(stem, 0, i);
        lemma_digits_end_bounds(stem, i + 1);
        assert(digits_end(stem, i + 1) == digits_end(stem, i + 2));
        lemma_digits_end_bounds(stem, i + 2);
        let d = digits_end(stem, i + 1);
        if 0 <= d && d + 1 < stem.len() && stem[d] == '.' && is_nd(stem[d + 1]) {
            lemma_digits_end_bounds(stem, d + 1);
        }
        let num = stem.subrange(i + 1, number_end(stem, i + 1));
        assert(num[0] == stem[i + 1]);
        assert(is_nd(stem[i + 1]));
        assert(num[0] != '.') by {
            if num[0] == '.' {
                assert((num[0] as u32) == 0x2E);
            }
        }
    }
}

} // verus!
