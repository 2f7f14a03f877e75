//! Character-level text utilities.
//!
//! Everything in this module is stated over `Seq<char>` views: occurrence of a
//! pattern at a position, first occurrence, first-occurrence replacement,
//! ASCII lower-casing and decimal rendering of indices. These are the string
//! primitives that the directive scanner and the write-back phase build on.

use vstd::prelude::*;
use vstd::string::*;

verus! {

/// `pat` occurs in `s` starting at position `i`.
pub open spec fn occurs_at(s: Seq<char>, pat: Seq<char>, i: int) -> bool {
    0 <= i && i + pat.len() <= s.len() && s.subrange(i, i + pat.len() as int) == pat
}

/// `pat` occurs somewhere in `s`.
pub open spec fn contains_seq(s: Seq<char>, pat: Seq<char>) -> bool {
    exists|i: int| occurs_at(s, pat, i)
}

/// `pat` occurs at `i` and nowhere earlier.
pub open spec fn is_first_occurrence(s: Seq<char>, pat: Seq<char>, i: int) -> bool {
    occurs_at(s, pat, i) && forall|j: int| 0 <= j < i ==> !occurs_at(s, pat, j)
}

/// Position of the first occurrence of `pat` in `s`, if any.
pub open spec fn first_occurrence(s: Seq<char>, pat: Seq<char>) -> Option<int> {
    if contains_seq(s, pat) {
        Some(choose|i: int| is_first_occurrence(s, pat, i))
    } else {
        None
    }
}

/// `s` with the span `[i, i + pat.len())` replaced by `repl`.
pub open spec fn replaced_at(s: Seq<char>, pat: Seq<char>, repl: Seq<char>, i: int) -> Seq<char> {
    s.subrange(0, i) + repl + s.subrange(i + pat.len() as int, s.len() as int)
}

/// `s` with its first occurrence of `pat` (if any) replaced by `repl`.
pub open spec fn replace_first_seq(s: Seq<char>, pat: Seq<char>, repl: Seq<char>) -> Seq<char> {
    match first_occurrence(s, pat) {
        Some(i) => replaced_at(s, pat, repl, i),
        None => s,
    }
}

/// `s` begins with `pat`.
pub open spec fn starts_with_seq(s: Seq<char>, pat: Seq<char>) -> bool {
    occurs_at(s, pat, 0)
}

/// A first occurrence is unique.
pub proof fn lemma_first_occurrence_unique(s: Seq<char>, pat: Seq<char>, i: int, j: int)
    requires
        is_first_occurrence(s, pat, i),
        is_first_occurrence(s, pat, j),
    ensures
        i == j,
{
    if i < j {
        assert(!occurs_at(s, pat, i));
    }
    if j < i {
        assert(!occurs_at(s, pat, j));
    }
}

/// Does `pat` occur in `s` at position `i`?
pub fn match_at(s: &str, pat: &str, i: usize) -> (r: bool)
    requires
        i + pat@.len() <= s@.len(),
    ensures
        r == occurs_at(s@, pat@, i as int),
{
    let n = s.unicode_len();
    let m = pat.unicode_len();
    let mut j: usize = 0;
    while j < m
        invariant
            n == s@.len(),
            m == pat@.len(),
            i + m <= n,
            j <= m,
            forall|k: int| 0 <= k < j ==> s@[i + k] == pat@[k],
        decreases m - j,
    {
        if s.get_char(i + j) != pat.get_char(j) {
            assert(!occurs_at(s@, pat@, i as int)) by {
                if s@.subrange(i as int, i + pat@.len() as int) == pat@ {
                    assert(s@.subrange(i as int, i + pat@.len() as int)[j as int] == s@[i + j]);
                }
            }
            return false;
        }
        j += 1;
    }
    assert(s@.subrange(i as int, i + pat@.len() as int) =~= pat@);
    true
}

/// Index of the first occurrence of `pat` in `s`, if there is one.
pub fn find_first(s: &str, pat: &str) -> (r: Option<usize>)
    ensures
        match r {
            Some(i) => is_first_occurrence(s@, pat@, i as int),
            None => !contains_seq(s@, pat@),
        },
{
    let n = s.unicode_len();
    let m = pat.unicode_len();
    if m > n {
        return None;
    }
    if m == 0 {
        assert(occurs_at(s@, pat@, 0)) by {
            assert(s@.subrange(0, 0) =~= pat@);
        }
        return Some(0);
    }
    let mut i: usize = 0;
    while i <= n - m
        invariant
            n == s@.len(),
            m == pat@.len(),
            1 <= m <= n,
            i <= n - m + 1,
            forall|j: int| 0 <= j < i ==> !occurs_at(s@, pat@, j),
        decreases n - m + 1 - i,
    {
        if match_at(s, pat, i) {
            return Some(i);
        }
        i += 1;
    }
    None
}

/// Does `pat` occur anywhere in `s`?
pub fn contains_str(s: &str, pat: &str) -> (r: bool)
    ensures
        r == contains_seq(s@, pat@),
{
    match find_first(s, pat) {
        Some(_) => true,
        None => false,
    }
}

/// Does `s` begin with `pat`?
pub fn starts_with_str(s: &str, pat: &str) -> (r: bool)
    ensures
        r == starts_with_seq(s@, pat@),
{
    let n = s.unicode_len();
    let m = pat.unicode_len();
    if m > n {
        return false;
    }
    match_at(s, pat, 0)
}

/// Are the two strings equal, character for character?
pub fn str_eq(a: &str, b: &str) -> (r: bool)
    ensures
        r == (a@ == b@),
{
    let n = a.unicode_len();
    let m = b.unicode_len();
    if n != m {
        return false;
    }
    let mut i: usize = 0;
    while i < n
        invariant
            n == a@.len(),
            n == b@.len(),
            i <= n,
            forall|k: int| 0 <= k < i ==> a@[k] == b@[k],
        decreases n - i,
    {
        if a.get_char(i) != b.get_char(i) {
            return false;
        }
        i += 1;
    }
    assert(a@ =~= b@);
    true
}

/// `s` with its first occurrence of `pat` (if any) replaced by `repl`.
pub fn replace_first(s: &str, pat: &str, repl: &str) -> (r: String)
    ensures
        r@ == replace_first_seq(s@, pat@, repl@),
{
    let n = s.unicode_len();
    let m = pat.unicode_len();
    match find_first(s, pat) {
        None => s.to_owned(),
        Some(i) => {
            let prefix = s.substring_char(0, i);
            let suffix = s.substring_char(i + m, n);
            let r = String::from_str(prefix).concat(repl).concat(suffix);
            proof {
                let i0 = choose|k: int| is_first_occurrence(s@, pat@, k);
                lemma_first_occurrence_unique(s@, pat@, i as int, i0);
            }
            r
        },
    }
}

/// Number of occurrences of `pat` in `s` that start before position `n`.
pub open spec fn count_occ_upto(s: Seq<char>, pat: Seq<char>, n: int) -> nat
    decreases n,
{
    if n <= 0 {
        0
    } else {
        count_occ_upto(s, pat, n - 1) + (if occurs_at(s, pat, n - 1) {
            1nat
        } else {
            0
        })
    }
}

/// Number of occurrences of `pat` in `s`.
pub open spec fn count_occ(s: Seq<char>, pat: Seq<char>) -> nat {
    count_occ_upto(s, pat, s.len() - pat.len() + 1)
}

/// `s` ends with `t`.
pub open spec fn ends_with(s: Seq<char>, t: Seq<char>) -> bool {
    t.len() <= s.len() && s.subrange(s.len() - t.len(), s.len() as int) == t
}

/// No nonempty proper prefix of `pat` stands at the end of `s` — so no
/// occurrence of `pat` can straddle the end of `s`.
pub open spec fn no_danger(s: Seq<char>, pat: Seq<char>) -> bool {
    forall|j: int| 1 <= j < pat.len() ==> !ends_with(s, #[trigger] pat.take(j))
}

/// `s` holds no `%` character.
pub open spec fn pct_free(s: Seq<char>) -> bool {
    forall|i: int| 0 <= i < s.len() ==> s[i] != '%'
}

proof fn lemma_count_upto_flat(s: Seq<char>, pat: Seq<char>, m: int, n: int)
    requires
        m <= n,
        forall|p: int| m <= p < n ==> !occurs_at(s, pat, p),
    ensures
        count_occ_upto(s, pat, n) == count_occ_upto(s, pat, m),
    decreases n - m,
{
    if m < n {
        lemma_count_upto_flat(s, pat, m, n - 1);
    }
}

proof fn lemma_count_upto_agree(s1: Seq<char>, s2: Seq<char>, pat: Seq<char>, n: int)
    requires
        forall|i: int| 0 <= i < n ==> (occurs_at(s1, pat, i) <==> occurs_at(s2, pat, i)),
    ensures
        count_occ_upto(s1, pat, n) == count_occ_upto(s2, pat, n),
    decreases n,
{
    if n > 0 {
        lemma_count_upto_agree(s1, s2, pat, n - 1);
    }
}

proof fn lemma_occ_in_prefix(x: Seq<char>, y: Seq<char>, pat: Seq<char>, i: int)
    requires
        0 <= i,
        i + pat.len() <= x.len(),
    ensures
        occurs_at(x + y, pat, i) <==> occurs_at(x, pat, i),
{
    assert((x + y).subrange(i, i + pat.len() as int) =~= x.subrange(i, i + pat.len() as int));
}

proof fn lemma_occ_shifted(x: Seq<char>, y: Seq<char>, pat: Seq<char>, q: int)
    requires
        0 <= q,
    ensures
        occurs_at(x + y, pat, x.len() + q) <==> occurs_at(y, pat, q),
{
    if q + pat.len() <= y.len() {
        assert((x + y).subrange(x.len() + q, x.len() + q + pat.len() as int) =~= y.subrange(
            q,
            q + pat.len() as int,
        ));
    }
}

proof fn lemma_count_upto_pad(s: Seq<char>, pat: Seq<char>, n: int)
    requires
        pat.len() >= 1,
        n >= s.len() - pat.len() + 1,
    ensures
        count_occ_upto(s, pat, n) == count_occ(s, pat),
{
    lemma_count_upto_flat(s, pat, s.len() - pat.len() + 1, n);
}

proof fn lemma_count_upto_shifted(x: Seq<char>, y: Seq<char>, pat: Seq<char>, q: int)
    requires
        0 <= q,
    ensures
        count_occ_upto(x + y, pat, x.len() + q) == count_occ_upto(x + y, pat, x.len() as int)
            + count_occ_upto(y, pat, q),
    decreases q,
{
    if q > 0 {
        lemma_count_upto_shifted(x, y, pat, q - 1);
        lemma_occ_shifted(x, y, pat, q - 1);
    }
}

/// Counting up to a larger bound adds nothing over a span without
/// occurrences.
pub proof fn lemma_count_upto_flat_pub(s: Seq<char>, pat: Seq<char>, m: int, n: int)
    requires
        m <= n,
        forall|p: int| m <= p < n ==> !occurs_at(s, pat, p),
    ensures
        count_occ_upto(s, pat, n) == count_occ_upto(s, pat, m),
{
    lemma_count_upto_flat(s, pat, m, n);
}

/// Counting occurrences distributes over concatenation when no
/// occurrence can straddle the boundary.
pub proof fn lemma_count_append(x: Seq<char>, y: Seq<char>, pat: Seq<char>)
    requires
        pat.len() >= 1,
        no_danger(x, pat),
    ensures
        count_occ(x + y, pat) == count_occ(x, pat) + count_occ(y, pat),
{
    let lx = x.len() as int;
    let p = pat.len() as int;
    // occurrences entirely inside `x`
    assert(count_occ_upto(x + y, pat, lx - p + 1) == count_occ(x, pat)) by {
        assert forall|i: int| 0 <= i < lx - p + 1 implies (occurs_at(x + y, pat, i) <==> occurs_at(
            x,
            pat,
            i,
        )) by {
            lemma_occ_in_prefix(x, y, pat, i);
        }
        lemma_count_upto_agree(x + y, x, pat, lx - p + 1);
    }
    // no occurrence straddles the boundary
    assert(count_occ_upto(x + y, pat, lx) == count_occ_upto(x + y, pat, lx - p + 1)) by {
        assert forall|q: int| lx - p + 1 <= q < lx implies !occurs_at(x + y, pat, q) by {
            if occurs_at(x + y, pat, q) {
                let j = lx - q;
                assert(ends_with(x, pat.take(j))) by {
                    assert(x.subrange(lx - j, lx) =~= pat.take(j)) by {
                        assert(forall|t: int|
                            0 <= t < j ==> #[trigger] x[lx - j + t] == (x + y)[q + t] && (x
                                + y)[q + t] == (x + y).subrange(q, q + p)[t]);
                    }
                }
            }
        }
        lemma_count_upto_flat(x + y, pat, lx - p + 1, lx);
    }
    // occurrences entirely inside `y`
    lemma_count_upto_shifted(x, y, pat, y.len() as int + 1);
    lemma_count_upto_pad(y, pat, y.len() as int + 1);
    lemma_count_upto_pad(x + y, pat, lx + y.len() as int + 1);
}

/// Appending text without `%` adds no occurrence of a pattern that
/// begins and ends with `%`, and keeps its end clear of such patterns.
pub proof fn lemma_count_append_pct_free(x: Seq<char>, y: Seq<char>, pat: Seq<char>)
    requires
        pat.len() >= 1,
        pat[0] == '%',
        pat.last() == '%',
        pct_free(y),
    ensures
        count_occ(x + y, pat) == count_occ(x, pat),
        no_danger(x, pat) ==> no_danger(x + y, pat),
{
    let lx = x.len() as int;
    let p = pat.len() as int;
    assert(count_occ_upto(x + y, pat, lx - p + 1) == count_occ(x, pat)) by {
        assert forall|i: int| 0 <= i < lx - p + 1 implies (occurs_at(x + y, pat, i) <==> occurs_at(
            x,
            pat,
            i,
        )) by {
            lemma_occ_in_prefix(x, y, pat, i);
        }
        lemma_count_upto_agree(x + y, x, pat, lx - p + 1);
    }
    // any further occurrence would put the final `%` of `pat` into `y`
    assert forall|q: int| lx - p + 1 <= q < (x + y).len() - p + 1 implies !occurs_at(
        x + y,
        pat,
        q,
    ) by {
        if occurs_at(x + y, pat, q) {
            assert((x + y)[q + p - 1] == (x + y).subrange(q, q + p)[p - 1]);
            assert((x + y)[q + p - 1] == '%');
            assert(q + p - 1 >= lx);
            assert(y[q + p - 1 - lx] == '%');
        }
    }
    lemma_count_upto_flat(x + y, pat, lx - p + 1, (x + y).len() - p + 1);
    if no_danger(x, pat) {
        assert forall|j: int| 1 <= j < pat.len() implies !ends_with(x + y, #[trigger] pat.take(
            j,
        )) by {
            if ends_with(x + y, pat.take(j)) {
                let l = (x + y).len() as int;
                if j <= y.len() {
                    // the leading `%` of the prefix would stand inside `y`
                    assert((x + y)[l - j] == pat.take(j)[0]);
                    assert(y[l - j - lx] == '%');
                } else {
                    // otherwise a shorter prefix would already end `x`
                    let j2 = j - y.len() as int;
                    assert(ends_with(x, pat.take(j2))) by {
                        assert(x.subrange(lx - j2, lx) =~= pat.take(j2)) by {
                            assert(forall|t: int|
                                0 <= t < j2 ==> #[trigger] x[lx - j2 + t] == (x + y)[l - j + t]
                                    && (x + y)[l - j + t] == (x + y).subrange(l - j, l)[t]);
                        }
                    }
                }
            }
        }
    }
}

/// The lower-case form of an ASCII letter; any other character is unchanged.
pub open spec fn lower_char(c: char) -> char {
    match c {
        'A' => 'a',
        'B' => 'b',
        'C' => 'c',
        'D' => 'd',
        'E' => 'e',
        'F' => 'f',
        'G' => 'g',
        'H' => 'h',
        'I' => 'i',
        'J' => 'j',
        'K' => 'k',
        'L' => 'l',
        'M' => 'm',
        'N' => 'n',
        'O' => 'o',
        'P' => 'p',
        'Q' => 'q',
        'R' => 'r',
        'S' => 's',
        'T' => 't',
        'U' => 'u',
        'V' => 'v',
        'W' => 'w',
        'X' => 'x',
        'Y' => 'y',
        'Z' => 'z',
        _ => c,
    }
}

/// `s` with every ASCII upper-case letter lowered.
pub open spec fn lower_seq(s: Seq<char>) -> Seq<char> {
    s.map_values(|c: char| lower_char(c))
}

fn lowered_str(c: char) -> (r: Option<&'static str>)
    ensures
        match r {
            Some(t) => t@ =~= seq![lower_char(c)],
            None => lower_char(c) == c,
        },
{
    proof {
        reveal_strlit("a");
        reveal_strlit("b");
        reveal_strlit("c");
        reveal_strlit("d");
        reveal_strlit("e");
        reveal_strlit("f");
        reveal_strlit("g");
        reveal_strlit("h");
        reveal_strlit("i");
        reveal_strlit("j");
        reveal_strlit("k");
        reveal_strlit("l");
        reveal_strlit("m");
        reveal_strlit("n");
        reveal_strlit("o");
        reveal_strlit("p");
        reveal_strlit("q");
        reveal_strlit("r");
        reveal_strlit("s");
        reveal_strlit("t");
        reveal_strlit("u");
        reveal_strlit("v");
        reveal_strlit("w");
        reveal_strlit("x");
        reveal_strlit("y");
        reveal_strlit("z");
    }
    match c {
        'A' => Some("a"),
        'B' => Some("b"),
        'C' => Some("c"),
        'D' => Some("d"),
        'E' => Some("e"),
        'F' => Some("f"),
        'G' => Some("g"),
        'H' => Some("h"),
        'I' => Some("i"),
        'J' => Some("j"),
        'K' => Some("k"),
        'L' => Some("l"),
        'M' => Some("m"),
        'N' => Some("n"),
        'O' => Some("o"),
        'P' => Some("p"),
        'Q' => Some("q"),
        'R' => Some("r"),
        'S' => Some("s"),
        'T' => Some("t"),
        'U' => Some("u"),
        'V' => Some("v"),
        'W' => Some("w"),
        'X' => Some("x"),
        'Y' => Some("y"),
        'Z' => Some("z"),
        _ => None,
    }
}

/// `s` lowered, ASCII-wise: upper-case ASCII letters are mapped to their
/// lower-case forms and every other character is kept.
pub fn lowercase(s: &str) -> (r: String)
    ensures
        r@ == lower_seq(s@),
{
    let n = s.unicode_len();
    let mut out = String::new();
    let mut i: usize = 0;
    while i < n
        invariant
            n == s@.len(),
            i <= n,
            out@ == lower_seq(s@).subrange(0, i as int),
        decreases n - i,
    {
        match lowered_str(s.get_char(i)) {
            Some(t) => out.append(t),
            None => out.append(s.substring_char(i, i + 1)),
        }
        assert(lower_seq(s@).subrange(0, i + 1) =~= lower_seq(s@).subrange(0, i as int).push(
            lower_char(s@[i as int]),
        ));
        assert(out@ =~= lower_seq(s@).subrange(0, i + 1));
        i += 1;
    }
    assert(lower_seq(s@).subrange(0, n as int) =~= lower_seq(s@));
    out
}

/// The decimal digit character for `d` (0 through 9).
pub open spec fn digit_char(d: int) -> char {
    if d == 0 {
        '0'
    } else if d == 1 {
        '1'
    } else if d == 2 {
        '2'
    } else if d == 3 {
        '3'
    } else if d == 4 {
        '4'
    } else if d == 5 {
        '5'
    } else if d == 6 {
        '6'
    } else if d == 7 {
        '7'
    } else if d == 8 {
        '8'
    } else {
        '9'
    }
}

/// A decimal digit character.
pub open spec fn is_digit_char(c: char) -> bool {
    c == '0' || c == '1' || c == '2' || c == '3' || c == '4' || c == '5' || c == '6' || c == '7'
        || c == '8' || c == '9'
}

/// The decimal rendering of `n`, without leading zeroes.
pub open spec fn dec_seq(n: nat) -> Seq<char>
    decreases n,
{
    if n < 10 {
        seq![digit_char(n as int)]
    } else {
        dec_seq(n / 10).push(digit_char((n % 10) as int))
    }
}

fn digit_str(d: usize) -> (r: &'static str)
    requires
        d < 10,
    ensures
        r@ =~= seq![digit_char(d as int)],
{
    proof {
        reveal_strlit("0");
        reveal_strlit("1");
        reveal_strlit("2");
        reveal_strlit("3");
        reveal_strlit("4");
        reveal_strlit("5");
        reveal_strlit("6");
        reveal_strlit("7");
        reveal_strlit("8");
        reveal_strlit("9");
    }
    match d {
        0 => "0",
        1 => "1",
        2 => "2",
        3 => "3",
        4 => "4",
        5 => "5",
        6 => "6",
        7 => "7",
        8 => "8",
        _ => "9",
    }
}

/// The decimal rendering of `n`.
pub fn to_decimal(n: usize) -> (r: String)
    ensures
        r@ == dec_seq(n as nat),
    decreases n,
{
    if n < 10 {
        String::from_str(digit_str(n))
    } else {
        let mut r = to_decimal(n / 10);
        r.append(digit_str(n % 10));
        assert(r@ =~= dec_seq((n / 10) as nat).push(digit_char((n % 10) as int)));
        r
    }
}

/// A decimal rendering holds digit characters only.
pub proof fn lemma_dec_seq_digits(n: nat)
    ensures
        forall|i: int| 0 <= i < dec_seq(n).len() ==> is_digit_char(#[trigger] dec_seq(n)[i]),
    decreases n,
{
    if n >= 10 {
        lemma_dec_seq_digits(n / 10);
        assert forall|i: int| 0 <= i < dec_seq(n).len() implies is_digit_char(
            #[trigger] dec_seq(n)[i],
        ) by {
            if i < dec_seq(n).len() - 1 {
                assert(dec_seq(n)[i] == dec_seq(n / 10)[i]);
            }
        }
    }
}

/// A decimal rendering is never empty.
pub proof fn lemma_dec_seq_len(n: nat)
    ensures
        dec_seq(n).len() >= 1,
        n >= 10 ==> dec_seq(n).len() >= 2,
    decreases n,
{
    if n >= 10 {
        lemma_dec_seq_len(n / 10);
    }
}

/// Distinct numbers have distinct decimal renderings.
pub proof fn lemma_dec_seq_injective(a: nat, b: nat)
    requires
        dec_seq(a) == dec_seq(b),
    ensures
        a == b,
    decreases a,
{
    if a < 10 && b < 10 {
        assert(dec_seq(a)[0] == digit_char(a as int));
        assert(dec_seq(b)[0] == digit_char(b as int));
    } else if a < 10 {
        lemma_dec_seq_len(b / 10);
        assert(dec_seq(b).len() >= 2);
    } else if b < 10 {
        lemma_dec_seq_len(a / 10);
        assert(dec_seq(a).len() >= 2);
    } else {
        let sa = dec_seq(a / 10);
        let sb = dec_seq(b / 10);
        assert(sa.push(digit_char((a % 10) as int)).last() == digit_char((a % 10) as int));
        assert(sb.push(digit_char((b % 10) as int)).last() == digit_char((b % 10) as int));
        assert(a % 10 == b % 10);
        assert(sa =~= dec_seq(a).drop_last());
        assert(sb =~= dec_seq(b).drop_last());
        lemma_dec_seq_injective(a / 10, b / 10);
    }
}

} // verus!
