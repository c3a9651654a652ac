//! Character and string utilities: scanning for a character, equality,
//! blank detection, case-insensitive matching and decimal positions.

use vstd::prelude::*;

verus! {

/// The index of the first occurrence of `c` in `s`, or `s.len()` when `c`
/// does not occur.
pub open spec fn find_first(s: Seq<char>, c: char) -> int
    decreases s.len(),
{
    if s.len() == 0 {
        0
    } else if s[0] == c {
        0
    } else {
        1 + find_first(s.skip(1), c)
    }
}

/// `find_first(s, c)` is the unique index `k` such that `c` does not occur
/// before `k` and either `k` is the end of `s` or `s[k] == c`.
pub proof fn lemma_find_first(s: Seq<char>, c: char, k: int)
    requires
        0 <= k <= s.len(),
        forall|i: int| 0 <= i < k ==> s[i] != c,
        k == s.len() || s[k] == c,
    ensures
        find_first(s, c) == k,
    decreases s.len(),
{
    if s.len() == 0 {
    } else if k == 0 {
    } else {
        assert(s[0] != c);
        let t = s.skip(1);
        assert forall|i: int| 0 <= i < k - 1 implies t[i] != c by {
            assert(t[i] == s[i + 1]);
        }
        if k < s.len() {
            assert(t[k - 1] == s[k]);
        }
        lemma_find_first(t, c, k - 1);
    }
}

/// Finds the first occurrence of `c` in `s` at or after `from`, returning
/// `s`'s length when there is none.
pub fn find_char_from(s: &str, from: usize, c: char) -> (j: usize)
    requires
        from <= s@.len(),
    ensures
        from <= j <= s@.len(),
        forall|i: int| from <= i < j ==> s@[i] != c,
        j < s@.len() ==> s@[j as int] == c,
{
    let len = s.unicode_len();
    let mut j = from;
    while j < len
        invariant
            from <= j <= len,
            len == s@.len(),
            forall|i: int| from <= i < j ==> s@[i] != c,
        decreases len - j,
    {
        if s.get_char(j) == c {
            return j;
        }
        j = j + 1;
    }
    j
}

/// Whether the views of two string slices are equal, character by character.
pub fn str_eq(a: &str, b: &str) -> (r: bool)
    ensures
        r == (a@ == b@),
{
    let alen = a.unicode_len();
    let blen = b.unicode_len();
    if alen != blen {
        return false;
    }
    let mut i: usize = 0;
    while i < alen
        invariant
            0 <= i <= alen,
            alen == a@.len(),
            alen == b@.len(),
            forall|k: int| 0 <= k < i ==> a@[k] == b@[k],
        decreases alen - i,
    {
        if a.get_char(i) != b.get_char(i) {
            return false;
        }
        i = i + 1;
    }
    proof {
        assert(a@ =~= b@);
    }
    true
}

/// The whitespace characters that a blank task name may consist of.
pub open spec fn is_space(c: char) -> bool {
    c == ' ' || c == '\t' || c == '\r' || c == '\n'
}

/// Whether `s` is empty or holds nothing but whitespace.
pub open spec fn is_blank(s: Seq<char>) -> bool {
    forall|i: int| 0 <= i < s.len() ==> is_space(s[i])
}

/// Decides whether `s` is empty or all whitespace.
pub fn str_is_blank(s: &str) -> (r: bool)
    ensures
        r == is_blank(s@),
{
    let len = s.unicode_len();
    let mut i: usize = 0;
    while i < len
        invariant
            0 <= i <= len,
            len == s@.len(),
            forall|k: int| 0 <= k < i ==> is_space(s@[k]),
        decreases len - i,
    {
        let c = s.get_char(i);
        if !(c == ' ' || c == '\t' || c == '\r' || c == '\n') {
            return false;
        }
        i = i + 1;
    }
    true
}

/// The character's code point, with an ASCII upper-case letter folded to its
/// lower-case counterpart.
pub open spec fn lower_code(c: char) -> int {
    if 65 <= c as u32 && c as u32 <= 90 {
        c as u32 + 32
    } else {
        c as u32 as int
    }
}

/// Whether `a` and `b` are equal up to ASCII case.
pub open spec fn eq_ci(a: Seq<char>, b: Seq<char>) -> bool {
    a.len() == b.len() && forall|i: int| 0 <= i < a.len() ==> lower_code(a[i]) == lower_code(b[i])
}

/// Whether `text` is a non-empty prefix of `name`, up to ASCII case.
pub open spec fn prefix_ci(text: Seq<char>, name: Seq<char>) -> bool {
    0 < text.len() <= name.len() && eq_ci(text, name.take(text.len() as int))
}

/// The character's code point with ASCII upper case folded away.
fn lower_code_exec(c: char) -> (r: u32)
    ensures
        r as int == lower_code(c),
{
    let u = c as u32;
    if 65 <= u && u <= 90 {
        u + 32
    } else {
        u
    }
}

/// Decides whether `text` is a non-empty prefix of `name` up to ASCII case.
pub fn is_prefix_ci(text: &str, name: &str) -> (r: bool)
    ensures
        r == prefix_ci(text@, name@),
{
    let tlen = text.unicode_len();
    let nlen = name.unicode_len();
    if tlen == 0 || tlen > nlen {
        return false;
    }
    let mut i: usize = 0;
    while i < tlen
        invariant
            0 <= i <= tlen,
            0 < tlen <= nlen,
            tlen == text@.len(),
            nlen == name@.len(),
            forall|k: int| 0 <= k < i ==> lower_code(text@[k]) == lower_code(name@[k]),
        decreases tlen - i,
    {
        if lower_code_exec(text.get_char(i)) != lower_code_exec(name.get_char(i)) {
            assert(lower_code(text@[i as int]) != lower_code(name@.take(tlen as int)[i as int]));
            return false;
        }
        i = i + 1;
    }
    proof {
        assert forall|k: int| 0 <= k < tlen implies lower_code(text@[k]) == lower_code(
            name@.take(tlen as int)[k],
        ) by {
            assert(name@.take(tlen as int)[k] == name@[k]);
        }
    }
    true
}

/// Whether `needle` occurs in `hay` as a contiguous run, up to ASCII case.
pub open spec fn contains_ci(hay: Seq<char>, needle: Seq<char>) -> bool {
    exists|i: int|
        0 <= i && i + needle.len() <= hay.len() && #[trigger] eq_ci(
            hay.subrange(i, i + needle.len() as int),
            needle,
        )
}

/// Whether `needle` matches `hay` at offset `at`, up to ASCII case.
fn matches_at_ci(hay: &str, at: usize, needle: &str) -> (r: bool)
    requires
        at + needle@.len() <= hay@.len(),
    ensures
        r == eq_ci(hay@.subrange(at as int, at + needle@.len() as int), needle@),
{
    let nlen = needle.unicode_len();
    let hlen = hay.unicode_len();
    let ghost w = hay@.subrange(at as int, at + needle@.len() as int);
    let mut k: usize = 0;
    while k < nlen
        invariant
            0 <= k <= nlen,
            nlen == needle@.len(),
            hlen == hay@.len(),
            at + nlen <= hay@.len(),
            w == hay@.subrange(at as int, at + needle@.len() as int),
            forall|m: int| 0 <= m < k ==> lower_code(w[m]) == lower_code(needle@[m]),
        decreases nlen - k,
    {
        if lower_code_exec(hay.get_char(at + k)) != lower_code_exec(needle.get_char(k)) {
            assert(w[k as int] == hay@[at + k]);
            return false;
        }
        assert(w[k as int] == hay@[at + k]);
        k = k + 1;
    }
    true
}

/// Decides whether `needle` occurs in `hay`, up to ASCII case.
pub fn str_contains_ci(hay: &str, needle: &str) -> (r: bool)
    ensures
        r == contains_ci(hay@, needle@),
{
    let hlen = hay.unicode_len();
    let nlen = needle.unicode_len();
    if nlen > hlen {
        return false;
    }
    let mut i: usize = 0;
    while i <= hlen - nlen
        invariant
            0 <= i <= hlen - nlen + 1,
            nlen <= hlen,
            hlen == hay@.len(),
            nlen == needle@.len(),
            forall|k: int|
                0 <= k < i ==> !(#[trigger] eq_ci(
                    hay@.subrange(k, k + needle@.len() as int),
                    needle@,
                )),
        decreases hlen + 1 - i,
    {
        if matches_at_ci(hay, i, needle) {
            return true;
        }
        i = i + 1;
    }
    false
}

/// Whether `c` is a decimal digit.
pub open spec fn is_digit(c: char) -> bool {
    48 <= c as u32 && c as u32 <= 57
}

/// Whether `s` is a non-empty run of decimal digits.
pub open spec fn all_digits(s: Seq<char>) -> bool {
    s.len() > 0 && forall|i: int| 0 <= i < s.len() ==> is_digit(s[i])
}

/// Decides whether `s` is a non-empty run of decimal digits.
pub fn str_all_digits(s: &str) -> (r: bool)
    ensures
        r == all_digits(s@),
{
    let len = s.unicode_len();
    if len == 0 {
        return false;
    }
    let mut i: usize = 0;
    while i < len
        invariant
            0 <= i <= len,
            len == s@.len(),
            forall|k: int| 0 <= k < i ==> is_digit(s@[k]),
        decreases len - i,
    {
        let u = s.get_char(i) as u32;
        if !(48 <= u && u <= 57) {
            return false;
        }
        i = i + 1;
    }
    true
}

/// The number that the digit run `s` denotes in decimal.
pub open spec fn digits_val(s: Seq<char>) -> int
    decreases s.len(),
{
    if s.len() == 0 {
        0
    } else {
        digits_val(s.drop_last()) * 10 + (s.last() as u32 - 48)
    }
}

/// A digit run denotes a number no smaller than any of its prefixes denote.
proof fn lemma_digits_val_monotone(s: Seq<char>, j: int)
    requires
        0 <= j <= s.len(),
        forall|i: int| 0 <= i < s.len() ==> is_digit(s[i]),
    ensures
        0 <= digits_val(s.take(j)) <= digits_val(s),
    decreases s.len() - j,
{
    if j == s.len() {
        assert(s.take(j) =~= s);
        lemma_digits_val_nonneg(s);
    } else {
        lemma_digits_val_monotone(s, j + 1);
        let t = s.take(j + 1);
        assert(t.drop_last() =~= s.take(j));
        assert(t.last() == s[j]);
        let v = digits_val(s.take(j));
        lemma_digits_val_nonneg(s.take(j));
        assert(v * 10 >= v) by (nonlinear_arith)
            requires
                v >= 0,
        ;
    }
}

/// A digit run denotes a non-negative number.
proof fn lemma_digits_val_nonneg(s: Seq<char>)
    requires
        forall|i: int| 0 <= i < s.len() ==> is_digit(s[i]),
    ensures
        digits_val(s) >= 0,
    decreases s.len(),
{
    if s.len() > 0 {
        assert forall|i: int| 0 <= i < s.drop_last().len() implies is_digit(s.drop_last()[i]) by {
            assert(s.drop_last()[i] == s[i]);
        }
        lemma_digits_val_nonneg(s.drop_last());
        let v = digits_val(s.drop_last());
        assert(v * 10 >= 0) by (nonlinear_arith)
            requires
                v >= 0,
        ;
    }
}

/// Reads `s` as a 1-based decimal position. Returns the denoted number when
/// `s` is a non-empty digit run whose value fits in `usize`, and nothing
/// otherwise.
pub fn parse_pos(s: &str) -> (r: Option<usize>)
    ensures
        all_digits(s@) && digits_val(s@) <= usize::MAX ==> r == Some(digits_val(s@) as usize),
        r is Some ==> all_digits(s@) && digits_val(s@) == r->Some_0,
        all_digits(s@) && digits_val(s@) > usize::MAX ==> r is None,
{
    let len = s.unicode_len();
    if len == 0 {
        return None;
    }
    let mut v: usize = 0;
    let mut i: usize = 0;
    while i < len
        invariant
            0 <= i <= len,
            len == s@.len(),
            forall|k: int| 0 <= k < i ==> is_digit(s@[k]),
            v == digits_val(s@.take(i as int)),
        decreases len - i,
    {
        let c = s.get_char(i);
        let u = c as u32;
        if !(48 <= u && u <= 57) {
            return None;
        }
        let d = (u - 48) as usize;
        proof {
            assert(s@.take(i + 1).drop_last() =~= s@.take(i as int));
            assert(s@.take(i + 1).last() == s@[i as int]);
        }
        if v > (usize::MAX - d) / 10 {
            proof {
                assert(digits_val(s@.take(i + 1)) == v * 10 + d);
                assert(v * 10 + d > usize::MAX) by (nonlinear_arith)
                    requires
                        v > (usize::MAX - d) / 10,
                        0 <= d <= 9,
                ;
                if all_digits(s@) {
                    lemma_digits_val_monotone(s@, i + 1);
                }
            }
            return None;
        }
        v = v * 10 + d;
        i = i + 1;
    }
    proof {
        assert(s@.take(len as int) =~= s@);
    }
    Some(v)
}

} // verus!
