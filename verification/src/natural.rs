//! Natural order on names: runs of ASCII digits compare by the number they
//! spell, so `page_2.jpg` comes before `page_10.jpg`.
//!
//! A name is compared through its key, a sequence of integers: a character
//! that is not an ASCII digit stands for its code point; a run of digits
//! stands for `0x30` (the code of `'0'`, so a run meets other characters
//! where a digit would), the number of its significant digits, those digits,
//! and the run's length. Keys compare lexicographically. So runs compare by
//! value, and equal values with fewer leading zeros come first.
use vstd::prelude::*;

use crate::images::zeros;

verus! {

pub open spec fn is_ascii_digit(c: char) -> bool {
    '0' <= c && c <= '9'
}

/// The end of the run of ASCII digits starting at `k`.
pub open spec fn run_end(s: Seq<char>, k: int) -> int
    decreases s.len() - k,
{
    if 0 <= k < s.len() && is_ascii_digit(s[k]) {
        run_end(s, k + 1)
    } else {
        k
    }
}

/// A digit run without its leading zeros.
pub open spec fn strip_zeros(r: Seq<char>) -> Seq<char>
    decreases r.len(),
{
    if r.len() > 0 && r[0] == '0' {
        strip_zeros(r.drop_first())
    } else {
        r
    }
}

pub open spec fn char_codes(r: Seq<char>) -> Seq<int> {
    r.map_values(|c: char| c as int)
}

/// The key of one digit run.
pub open spec fn run_key(r: Seq<char>) -> Seq<int> {
    seq![0x30int, strip_zeros(r).len() as int] + char_codes(strip_zeros(r)) + seq![r.len() as int]
}

/// The key by which names are ordered.
pub open spec fn nat_key(s: Seq<char>) -> Seq<int>
    decreases s.len(),
{
    if s.len() == 0 {
        Seq::empty()
    } else if is_ascii_digit(s[0]) {
        let n = run_end(s, 0);
        if n <= 0 || n > s.len() {
            Seq::empty()
        } else {
            run_key(s.take(n)) + nat_key(s.skip(n))
        }
    } else {
        seq![s[0] as int] + nat_key(s.drop_first())
    }
}

/// Lexicographic order on keys.
pub open spec fn key_le(a: Seq<int>, b: Seq<int>) -> bool
    decreases a.len(),
{
    if a.len() == 0 {
        true
    } else if b.len() == 0 {
        false
    } else if a[0] != b[0] {
        a[0] < b[0]
    } else {
        key_le(a.drop_first(), b.drop_first())
    }
}

/// Natural order on names.
pub open spec fn natural_le(a: Seq<char>, b: Seq<char>) -> bool {
    key_le(nat_key(a), nat_key(b))
}

pub proof fn lemma_key_le_reflexive(a: Seq<int>)
    ensures
        key_le(a, a),
    decreases a.len(),
{
    if a.len() > 0 {
        lemma_key_le_reflexive(a.drop_first());
    }
}

pub proof fn lemma_key_le_antisymmetric(a: Seq<int>, b: Seq<int>)
    requires
        key_le(a, b),
        key_le(b, a),
    ensures
        a == b,
    decreases a.len(),
{
    if a.len() > 0 && b.len() > 0 {
        lemma_key_le_antisymmetric(a.drop_first(), b.drop_first());
        assert(a =~= seq![a[0]] + a.drop_first());
        assert(b =~= seq![b[0]] + b.drop_first());
    } else {
        assert(a =~= b);
    }
}

pub proof fn lemma_key_le_transitive(a: Seq<int>, b: Seq<int>, c: Seq<int>)
    requires
        key_le(a, b),
        key_le(b, c),
    ensures
        key_le(a, c),
    decreases a.len(),
{
    if a.len() > 0 && b.len() > 0 && c.len() > 0 && a[0] == b[0] && b[0] == c[0] {
        lemma_key_le_transitive(a.drop_first(), b.drop_first(), c.drop_first());
    }
}

pub proof fn lemma_key_le_total(a: Seq<int>, b: Seq<int>)
    ensures
        key_le(a, b) || key_le(b, a),
    decreases a.len(),
{
    if a.len() > 0 && b.len() > 0 && a[0] == b[0] {
        lemma_key_le_total(a.drop_first(), b.drop_first());
    }
}

proof fn lemma_run_end_bounds(s: Seq<char>, k: int)
    requires
        0 <= k <= s.len(),
    ensures
        k <= run_end(s, k) <= s.len(),
        forall|m: int| k <= m < run_end(s, k) ==> is_ascii_digit(#[trigger] s[m]),
        run_end(s, k) < s.len() ==> !is_ascii_digit(s[run_end(s, k)]),
    decreases s.len() - k,
{
    if k < s.len() && is_ascii_digit(s[k]) {
        lemma_run_end_bounds(s, k + 1);
    }
}

proof fn lemma_run_end_shift(s: Seq<char>, i: int, k: int)
    requires
        0 <= i <= k <= s.len(),
    ensures
        run_end(s.skip(i), k - i) == run_end(s, k) - i,
    decreases s.len() - k,
{
    if k < s.len() && is_ascii_digit(s[k]) {
        lemma_run_end_shift(s, i, k + 1);
    }
}

proof fn lemma_strip_zeros_shape(r: Seq<char>)
    ensures
        r == zeros((r.len() - strip_zeros(r).len()) as nat) + strip_zeros(r),
        strip_zeros(r).len() <= r.len(),
        strip_zeros(r).len() > 0 ==> strip_zeros(r)[0] != '0',
    decreases r.len(),
{
    if r.len() > 0 && r[0] == '0' {
        lemma_strip_zeros_shape(r.drop_first());
        let k = (r.len() - strip_zeros(r).len()) as nat;
        assert(zeros(k) =~= seq!['0'] + zeros((k - 1) as nat));
        assert(r =~= seq!['0'] + r.drop_first());
        assert(zeros(k) + strip_zeros(r) =~= seq!['0'] + (zeros((k - 1) as nat) + strip_zeros(r)));
    } else {
        assert(zeros(0) + r =~= r);
    }
}

proof fn lemma_strip_zeros_from(r: Seq<char>, z: int)
    requires
        0 <= z <= r.len(),
        forall|m: int| 0 <= m < z ==> #[trigger] r[m] == '0',
        z == r.len() || r[z] != '0',
    ensures
        strip_zeros(r) == r.skip(z),
    decreases z,
{
    if z > 0 {
        lemma_strip_zeros_from(r.drop_first(), z - 1);
        assert(r.drop_first().skip(z - 1) =~= r.skip(z));
    } else {
        assert(r.skip(0) =~= r);
    }
}

proof fn lemma_char_codes_injective(a: Seq<char>, b: Seq<char>)
    requires
        char_codes(a) == char_codes(b),
    ensures
        a == b,
{
    assert(char_codes(a).len() == a.len());
    assert(char_codes(b).len() == b.len());
    assert forall|i: int| 0 <= i < a.len() implies a[i] == b[i] by {
        assert(char_codes(a)[i] == char_codes(b)[i]);
        assert(char_codes(a)[i] == a[i] as int);
        assert(char_codes(b)[i] == b[i] as int);
    }
    assert(a =~= b);
}

proof fn lemma_nat_key_first(s: Seq<char>)
    requires
        s.len() > 0,
    ensures
        nat_key(s).len() > 0,
        is_ascii_digit(s[0]) ==> nat_key(s)[0] == 0x30 && run_end(s, 0) >= 1 && run_end(s, 0) <= s.len(),
        !is_ascii_digit(s[0]) ==> nat_key(s)[0] == s[0] as int && s[0] as int != 0x30,
{
    lemma_run_end_bounds(s, 0);
    if is_ascii_digit(s[0]) {
        assert(run_end(s, 0) == run_end(s, 1));
        lemma_run_end_bounds(s, 1);
    } else {
        assert(s[0] != '0');
    }
}

/// Different names have different keys.
pub proof fn lemma_nat_key_injective(a: Seq<char>, b: Seq<char>)
    requires
        nat_key(a) == nat_key(b),
    ensures
        a == b,
    decreases a.len() + b.len(),
{
    if a.len() == 0 || b.len() == 0 {
        if a.len() > 0 {
            lemma_nat_key_first(a);
        }
        if b.len() > 0 {
            lemma_nat_key_first(b);
        }
        assert(a =~= b);
    } else {
        lemma_nat_key_first(a);
        lemma_nat_key_first(b);
        let ka = nat_key(a);
        if is_ascii_digit(a[0]) {
            let na = run_end(a, 0);
            let nb = run_end(b, 0);
            let ra = a.take(na);
            let rb = b.take(nb);
            let la = run_key(ra).len() as int;
            assert(ka == run_key(ra) + nat_key(a.skip(na)));
            assert(ka == run_key(rb) + nat_key(b.skip(nb)));
            assert(run_key(ra)[1] == ka[1]);
            assert(run_key(rb)[1] == ka[1]);
            assert(run_key(rb).len() == la);
            assert(run_key(ra) =~= ka.take(la));
            assert(run_key(rb) =~= ka.take(la));
            assert(nat_key(a.skip(na)) =~= ka.skip(la));
            assert(nat_key(b.skip(nb)) =~= ka.skip(la));
            let sa = strip_zeros(ra);
            let sb = strip_zeros(rb);
            assert(char_codes(sa) =~= run_key(ra).subrange(2, 2 + sa.len() as int));
            assert(char_codes(sb) =~= run_key(rb).subrange(2, 2 + sb.len() as int));
            lemma_char_codes_injective(sa, sb);
            assert(ra.len() == run_key(ra)[la - 1]);
            assert(rb.len() == run_key(rb)[la - 1]);
            lemma_strip_zeros_shape(ra);
            lemma_strip_zeros_shape(rb);
            lemma_nat_key_injective(a.skip(na), b.skip(nb));
            assert(a =~= ra + a.skip(na));
            assert(b =~= rb + b.skip(nb));
        } else {
            assert(ka == seq![a[0] as int] + nat_key(a.drop_first()));
            assert(ka == seq![b[0] as int] + nat_key(b.drop_first()));
            assert(nat_key(a.drop_first()) =~= ka.drop_first());
            assert(nat_key(b.drop_first()) =~= ka.drop_first());
            lemma_nat_key_injective(a.drop_first(), b.drop_first());
            assert(a =~= seq![a[0]] + a.drop_first());
            assert(b =~= seq![b[0]] + b.drop_first());
        }
    }
}

/// Natural order is a total order on names.
pub proof fn lemma_natural_le_total_order(a: Seq<char>, b: Seq<char>, c: Seq<char>)
    ensures
        natural_le(a, a),
        natural_le(a, b) && natural_le(b, a) ==> a == b,
        natural_le(a, b) && natural_le(b, c) ==> natural_le(a, c),
        natural_le(a, b) || natural_le(b, a),
{
    lemma_key_le_reflexive(nat_key(a));
    if natural_le(a, b) && natural_le(b, a) {
        lemma_key_le_antisymmetric(nat_key(a), nat_key(b));
        lemma_nat_key_injective(a, b);
    }
    if natural_le(a, b) && natural_le(b, c) {
        lemma_key_le_transitive(nat_key(a), nat_key(b), nat_key(c));
    }
    lemma_key_le_total(nat_key(a), nat_key(b));
}

proof fn lemma_run_end_inside(a: Seq<char>, b: Seq<char>, k: int)
    requires
        0 <= k < a.len(),
        !is_ascii_digit(a.last()),
    ensures
        run_end(a + b, k) == run_end(a, k),
        run_end(a, k) < a.len(),
    decreases a.len() - k,
{
    assert((a + b)[k] == a[k]);
    if is_ascii_digit(a[k]) {
        assert(k != a.len() - 1);
        lemma_run_end_inside(a, b, k + 1);
    }
}

proof fn lemma_run_end_through(d: Seq<char>, s: Seq<char>, k: int)
    requires
        0 <= k <= d.len(),
        forall|m: int| 0 <= m < d.len() ==> is_ascii_digit(#[trigger] d[m]),
        s.len() == 0 || !is_ascii_digit(s[0]),
    ensures
        run_end(d + s, k) == d.len(),
    decreases d.len() - k,
{
    if k < d.len() {
        assert((d + s)[k] == d[k]);
        lemma_run_end_through(d, s, k + 1);
    } else if s.len() > 0 {
        assert((d + s)[k] == s[0]);
    }
}

/// The key of a name that does not end with a digit, followed by anything,
/// is the key of the name followed by the key of the rest.
proof fn lemma_nat_key_append(a: Seq<char>, b: Seq<char>)
    requires
        a.len() == 0 || !is_ascii_digit(a.last()),
    ensures
        nat_key(a + b) == nat_key(a) + nat_key(b),
    decreases a.len(),
{
    if a.len() == 0 {
        assert(a + b =~= b);
        assert(nat_key(a) + nat_key(b) =~= nat_key(b));
    } else if !is_ascii_digit(a[0]) {
        let t = a.drop_first();
        assert((a + b)[0] == a[0]);
        assert((a + b).drop_first() =~= t + b);
        if t.len() > 0 {
            assert(t.last() == a.last());
        }
        lemma_nat_key_append(t, b);
        assert(nat_key(a + b) == seq![a[0] as int] + nat_key(t + b));
        assert(nat_key(a) == seq![a[0] as int] + nat_key(t));
        assert(seq![a[0] as int] + (nat_key(t) + nat_key(b)) =~= (seq![a[0] as int] + nat_key(t)) + nat_key(b));
    } else {
        lemma_run_end_inside(a, b, 0);
        lemma_nat_key_first(a);
        let n = run_end(a, 0);
        assert((a + b)[0] == a[0]);
        assert((a + b).take(n) =~= a.take(n));
        assert((a + b).skip(n) =~= a.skip(n) + b);
        let t = a.skip(n);
        assert(t.last() == a.last());
        lemma_nat_key_append(t, b);
        assert(nat_key(a + b) == run_key(a.take(n)) + nat_key(t + b));
        assert(nat_key(a) == run_key(a.take(n)) + nat_key(t));
        assert(run_key(a.take(n)) + (nat_key(t) + nat_key(b)) =~= (run_key(a.take(n)) + nat_key(t)) + nat_key(b));
    }
}

/// The key of a run of digits followed by a text that does not start with a
/// digit is the run's key followed by the text's key.
proof fn lemma_nat_key_run(d: Seq<char>, s: Seq<char>)
    requires
        d.len() > 0,
        forall|m: int| 0 <= m < d.len() ==> is_ascii_digit(#[trigger] d[m]),
        s.len() == 0 || !is_ascii_digit(s[0]),
    ensures
        nat_key(d + s) == run_key(d) + nat_key(s),
{
    lemma_run_end_through(d, s, 0);
    assert((d + s)[0] == d[0]);
    assert((d + s).take(d.len() as int) =~= d);
    assert((d + s).skip(d.len() as int) =~= s);
}

proof fn lemma_key_le_common_prefix(x: Seq<int>, y: Seq<int>, z: Seq<int>)
    ensures
        key_le(x + y, x + z) == key_le(y, z),
    decreases x.len(),
{
    if x.len() == 0 {
        assert(x + y =~= y);
        assert(x + z =~= z);
    } else {
        assert((x + y)[0] == x[0]);
        assert((x + z)[0] == x[0]);
        assert((x + y).drop_first() =~= x.drop_first() + y);
        assert((x + z).drop_first() =~= x.drop_first() + z);
        lemma_key_le_common_prefix(x.drop_first(), y, z);
    }
}

proof fn lemma_key_first_difference(a: Seq<int>, b: Seq<int>, j: int)
    requires
        0 <= j < a.len(),
        j < b.len(),
        forall|m: int| 0 <= m < j ==> a[m] == b[m],
        a[j] < b[j],
    ensures
        key_le(a, b),
        !key_le(b, a),
    decreases j,
{
    if j > 0 {
        lemma_key_first_difference(a.drop_first(), b.drop_first(), j - 1);
    }
}

/// Digit runs compare by the number they spell. Take two names that agree
/// up to a run of digits (the common part not ending with a digit), each run
/// without leading zeros and followed by a non-digit or the end. When the
/// first run has fewer digits, or as many with the first differing digit
/// (at `j`) smaller, the first name comes strictly before the second,
/// whatever follows the runs: `page_2` before `page_10`.
pub proof fn law_digit_runs_by_value(p: Seq<char>, d1: Seq<char>, s1: Seq<char>, d2: Seq<char>, s2: Seq<char>, j: int)
    requires
        p.len() == 0 || !is_ascii_digit(p.last()),
        d1.len() > 0,
        d2.len() > 0,
        forall|m: int| 0 <= m < d1.len() ==> is_ascii_digit(#[trigger] d1[m]),
        forall|m: int| 0 <= m < d2.len() ==> is_ascii_digit(#[trigger] d2[m]),
        d1[0] != '0',
        d2[0] != '0',
        s1.len() == 0 || !is_ascii_digit(s1[0]),
        s2.len() == 0 || !is_ascii_digit(s2[0]),
        d1.len() < d2.len() || (d1.len() == d2.len() && 0 <= j < d1.len() && d1.take(j) == d2.take(j)
            && d1[j] < d2[j]),
    ensures
        natural_le(p + d1 + s1, p + d2 + s2),
        !natural_le(p + d2 + s2, p + d1 + s1),
{
    assert(p + d1 + s1 =~= p + (d1 + s1));
    assert(p + d2 + s2 =~= p + (d2 + s2));
    lemma_nat_key_append(p, d1 + s1);
    lemma_nat_key_append(p, d2 + s2);
    lemma_nat_key_run(d1, s1);
    lemma_nat_key_run(d2, s2);
    lemma_strip_zeros_from(d1, 0);
    lemma_strip_zeros_from(d2, 0);
    assert(d1.skip(0) =~= d1);
    assert(d2.skip(0) =~= d2);
    let k1 = run_key(d1) + nat_key(s1);
    let k2 = run_key(d2) + nat_key(s2);
    lemma_key_le_common_prefix(nat_key(p), k1, k2);
    lemma_key_le_common_prefix(nat_key(p), k2, k1);
    assert(k1[0] == 0x30 && k2[0] == 0x30);
    assert(k1[1] == d1.len() && k2[1] == d2.len());
    if d1.len() < d2.len() {
        lemma_key_first_difference(k1, k2, 1);
    } else {
        assert forall|m: int| 0 <= m < 2 + j implies k1[m] == k2[m] by {
            if m >= 2 {
                assert(d1.take(j)[m - 2] == d2.take(j)[m - 2]);
                assert(k1[m] == d1[m - 2] as int);
                assert(k2[m] == d2[m - 2] as int);
            }
        }
        assert(k1[2 + j] == d1[j] as int);
        assert(k2[2 + j] == d2[j] as int);
        lemma_key_first_difference(k1, k2, 2 + j);
    }
}

/// The integer view of a computed key.
pub open spec fn key_view(k: Seq<u64>) -> Seq<int> {
    k.map_values(|x: u64| x as int)
}

/// The code point of a character.
fn char_code(c: char) -> (r: u64)
    ensures
        r == c as int,
{
    let x = c as u32;
    assert(x as int == c as int);
    x as u64
}

/// The key of a name, by which it is placed in natural order.
pub fn natural_key(s: &[char]) -> (r: Vec<u64>)
    ensures
        key_view(r@) == nat_key(s@),
{
    let mut r: Vec<u64> = Vec::new();
    let mut i: usize = 0;
    assert(s@.skip(0) =~= s@);
    while i < s.len()
        invariant
            i <= s.len(),
            key_view(r@) + nat_key(s@.skip(i as int)) == nat_key(s@),
        decreases s.len() - i,
    {
        let ghost t = s@.skip(i as int);
        let ghost before = key_view(r@);
        let c = s[i];
        assert(t[0] == c);
        if '0' <= c && c <= '9' {
            let mut j: usize = i;
            while j < s.len() && '0' <= s[j] && s[j] <= '9'
                invariant
                    i <= j <= s.len(),
                    run_end(s@, i as int) == run_end(s@, j as int),
                decreases s.len() - j,
            {
                j += 1;
            }
            let mut z: usize = i;
            while z < j && s[z] == '0'
                invariant
                    i <= z <= j <= s.len(),
                    forall|m: int| i <= m < z ==> #[trigger] s@[m] == '0',
                decreases j - z,
            {
                z += 1;
            }
            let ghost run = s@.subrange(i as int, j as int);
            proof {
                lemma_run_end_shift(s@, i as int, i as int);
                lemma_run_end_bounds(t, 0);
                assert(run_end(t, 0) == j - i);
                assert(t.take(j - i) =~= run);
                assert(t.skip(j - i) =~= s@.skip(j as int));
                assert(forall|m: int| 0 <= m < z - i ==> #[trigger] run[m] == s@[i + m]);
                lemma_strip_zeros_from(run, z - i);
                assert(run.skip(z - i) =~= s@.subrange(z as int, j as int));
                assert(nat_key(t) == run_key(run) + nat_key(s@.skip(j as int)));
            }
            r.push(0x30);
            r.push((j - z) as u64);
            let mut m: usize = z;
            while m < j
                invariant
                    z <= m <= j <= s.len(),
                    key_view(r@) == before + seq![0x30int, (j - z) as int] + char_codes(
                        s@.subrange(z as int, m as int),
                    ),
                decreases j - m,
            {
                let ghost prev = r@;
                r.push(char_code(s[m]));
                proof {
                    assert(key_view(r@) =~= key_view(prev).push(s@[m as int] as int));
                    assert(char_codes(s@.subrange(z as int, m as int + 1)) =~= char_codes(
                        s@.subrange(z as int, m as int),
                    ).push(s@[m as int] as int));
                }
                m += 1;
            }
            let ghost prev = r@;
            r.push((j - i) as u64);
            proof {
                assert(key_view(r@) =~= key_view(prev).push((j - i) as int));
                assert(key_view(r@) =~= before + run_key(run));
                assert(key_view(r@) + nat_key(s@.skip(j as int)) =~= before + nat_key(t));
            }
            i = j;
        } else {
            let ghost prev = r@;
            r.push(char_code(c));
            proof {
                assert(key_view(r@) =~= key_view(prev).push(c as int));
                assert(t.drop_first() =~= s@.skip(i as int + 1));
                assert(nat_key(t) == seq![c as int] + nat_key(s@.skip(i as int + 1)));
                assert(key_view(r@) + nat_key(s@.skip(i as int + 1)) =~= before + nat_key(t));
            }
            i += 1;
        }
    }
    assert(s@.skip(s.len() as int) =~= Seq::<char>::empty());
    assert(key_view(r@) + Seq::<int>::empty() =~= key_view(r@));
    r
}

/// Compares two keys lexicographically.
pub fn key_le_exec(a: &[u64], b: &[u64]) -> (r: bool)
    ensures
        r == key_le(key_view(a@), key_view(b@)),
{
    let ghost ka = key_view(a@);
    let ghost kb = key_view(b@);
    let mut i: usize = 0;
    assert(ka.skip(0) =~= ka);
    assert(kb.skip(0) =~= kb);
    while i < a.len() && i < b.len()
        invariant
            i <= a.len(),
            i <= b.len(),
            ka == key_view(a@),
            kb == key_view(b@),
            key_le(ka, kb) == key_le(ka.skip(i as int), kb.skip(i as int)),
        decreases a.len() - i,
    {
        proof {
            assert(ka.skip(i as int)[0] == a@[i as int] as int);
            assert(kb.skip(i as int)[0] == b@[i as int] as int);
        }
        if a[i] != b[i] {
            return a[i] < b[i];
        }
        proof {
            assert(ka.skip(i as int).drop_first() =~= ka.skip(i as int + 1));
            assert(kb.skip(i as int).drop_first() =~= kb.skip(i as int + 1));
        }
        i += 1;
    }
    proof {
        assert(ka.skip(i as int).len() == a.len() - i);
        assert(kb.skip(i as int).len() == b.len() - i);
    }
    i == a.len()
}

} // verus!
