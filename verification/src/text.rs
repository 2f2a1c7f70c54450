//! Verified text primitives over `&str` values, specified over their
//! `Seq<char>` views: substring search, prefix tests, trimming, whitespace
//! tokens, and splitting a dump into lines.

use vstd::prelude::*;
use vstd::string::*;

verus! {

/// The Unicode White_Space characters, the set `char::is_whitespace`
/// recognizes.
pub open spec fn is_ws(c: char) -> bool {
    c == ' ' || c == '\t' || c == '\n' || c == '\u{0b}' || c == '\u{0c}' || c == '\r' || c
        == '\u{85}' || c == '\u{a0}' || c == '\u{1680}' || ('\u{2000}' <= c && c <= '\u{200a}')
        || c == '\u{2028}' || c == '\u{2029}' || c == '\u{202f}' || c == '\u{205f}' || c
        == '\u{3000}'
}

/// `p` occurs in `s` starting at index `i`.
pub open spec fn match_at(s: Seq<char>, p: Seq<char>, i: int) -> bool {
    0 <= i && i + p.len() <= s.len() && s.subrange(i, i + p.len() as int) == p
}

/// `p` is a prefix of `s`.
pub open spec fn has_prefix(s: Seq<char>, p: Seq<char>) -> bool {
    match_at(s, p, 0)
}

/// `p` occurs somewhere in `s`.
pub open spec fn contains_seq(s: Seq<char>, p: Seq<char>) -> bool {
    exists|i: int| match_at(s, p, i)
}

/// Index of the first occurrence of `p` in `s` at or after `i`, if any.
pub open spec fn find_from(s: Seq<char>, p: Seq<char>, i: int) -> Option<int>
    decreases s.len() - i + 1,
{
    if i < 0 || i + p.len() > s.len() {
        None
    } else if match_at(s, p, i) {
        Some(i)
    } else {
        find_from(s, p, i + 1)
    }
}

/// `find_from` returns the first match at or after `i`, and `None` exactly
/// when there is none.
pub proof fn lemma_find_from(s: Seq<char>, p: Seq<char>, i: int)
    requires
        0 <= i,
    ensures
        match find_from(s, p, i) {
            Some(j) => i <= j && match_at(s, p, j) && (forall|k: int|
                i <= k < j ==> !match_at(s, p, k)),
            None => forall|k: int| i <= k ==> !match_at(s, p, k),
        },
    decreases s.len() - i + 1,
{
    if i + p.len() > s.len() {
        assert(forall|k: int| i <= k ==> !match_at(s, p, k));
    } else if match_at(s, p, i) {
    } else {
        lemma_find_from(s, p, i + 1);
    }
}

/// Index of the first occurrence of `c` in `s` at or after `i`, or `s.len()`
/// when there is none (for `0 <= i <= s.len()`).
pub open spec fn find_char(s: Seq<char>, c: char, i: int) -> int
    decreases s.len() - i,
{
    if 0 <= i < s.len() {
        if s[i] == c {
            i
        } else {
            find_char(s, c, i + 1)
        }
    } else {
        i
    }
}

/// First index at or after `i` whose character is not whitespace, or `s.len()`.
pub open spec fn skip_ws(s: Seq<char>, i: int) -> int
    decreases s.len() - i,
{
    if 0 <= i < s.len() && is_ws(s[i]) {
        skip_ws(s, i + 1)
    } else {
        i
    }
}

/// Characterization of `skip_ws`.
pub proof fn lemma_skip_ws(s: Seq<char>, i: int)
    requires
        0 <= i <= s.len(),
    ensures
        i <= skip_ws(s, i) <= s.len(),
        skip_ws(s, i) < s.len() ==> !is_ws(s[skip_ws(s, i)]),
        forall|k: int| i <= k < skip_ws(s, i) ==> is_ws(s[k]),
    decreases s.len() - i,
{
    if i < s.len() && is_ws(s[i]) {
        lemma_skip_ws(s, i + 1);
    }
}

/// First index at or after `i` whose character is whitespace, or `s.len()`.
pub open spec fn skip_non_ws(s: Seq<char>, i: int) -> int
    decreases s.len() - i,
{
    if 0 <= i < s.len() && !is_ws(s[i]) {
        skip_non_ws(s, i + 1)
    } else {
        i
    }
}

/// Characterization of `skip_non_ws`.
pub proof fn lemma_skip_non_ws(s: Seq<char>, i: int)
    requires
        0 <= i <= s.len(),
    ensures
        i <= skip_non_ws(s, i) <= s.len(),
    decreases s.len() - i,
{
    if i < s.len() && !is_ws(s[i]) {
        lemma_skip_non_ws(s, i + 1);
    }
}

/// ASCII decimal digit.
pub open spec fn is_digit(c: char) -> bool {
    '0' <= c && c <= '9'
}

/// First index at or after `i` whose character is not a digit, or `s.len()`.
pub open spec fn skip_digits(s: Seq<char>, i: int) -> int
    decreases s.len() - i,
{
    if 0 <= i < s.len() && is_digit(s[i]) {
        skip_digits(s, i + 1)
    } else {
        i
    }
}

/// A numeric build id `digits.digits.digits+digits` starts at `p`, each run
/// of digits maximal and non-empty.
pub open spec fn build_num_at(s: Seq<char>, p: int) -> bool {
    let a = skip_digits(s, p);
    let b = skip_digits(s, a + 1);
    let c = skip_digits(s, b + 1);
    let d = skip_digits(s, c + 1);
    &&& 0 <= p
    &&& p < a < s.len() && s[a] == '.'
    &&& a + 1 < b < s.len() && s[b] == '.'
    &&& b + 1 < c < s.len() && s[c] == '+'
    &&& c + 1 < d
}

/// A version quadruple `digits.digits.digits.digits` starts at `p`, each run
/// of digits maximal and non-empty.
pub open spec fn quad_num_at(s: Seq<char>, p: int) -> bool {
    let a = skip_digits(s, p);
    let b = skip_digits(s, a + 1);
    let c = skip_digits(s, b + 1);
    let d = skip_digits(s, c + 1);
    &&& 0 <= p
    &&& p < a < s.len() && s[a] == '.'
    &&& a + 1 < b < s.len() && s[b] == '.'
    &&& b + 1 < c < s.len() && s[c] == '.'
    &&& c + 1 < d
}

/// Whether a version quadruple starts at `p`, decided by scanning digit runs.
pub fn quad_num_at_exec(s: &str, p: usize) -> (r: bool)
    requires
        p <= s@.len(),
    ensures
        r == quad_num_at(s@, p as int),
{
    let len = s.unicode_len();
    let a = skip_digits_exec(s, p);
    if !(a > p && a < len) {
        return false;
    }
    if s.get_char(a) != '.' {
        return false;
    }
    let b = skip_digits_exec(s, a + 1);
    if !(b > a + 1 && b < len) {
        return false;
    }
    if s.get_char(b) != '.' {
        return false;
    }
    let c = skip_digits_exec(s, b + 1);
    if !(c > b + 1 && c < len) {
        return false;
    }
    if s.get_char(c) != '.' {
        return false;
    }
    let d = skip_digits_exec(s, c + 1);
    d > c + 1
}

/// End of the build id that starts at `p`.
pub open spec fn build_num_end(s: Seq<char>, p: int) -> int {
    let a = skip_digits(s, p);
    let b = skip_digits(s, a + 1);
    let c = skip_digits(s, b + 1);
    skip_digits(s, c + 1)
}

/// Whether a build id starts at `p`, decided by scanning digit runs.
pub fn build_num_at_exec(s: &str, p: usize) -> (r: bool)
    requires
        p <= s@.len(),
    ensures
        r == build_num_at(s@, p as int),
{
    let len = s.unicode_len();
    let a = skip_digits_exec(s, p);
    if !(a > p && a < len) {
        return false;
    }
    if s.get_char(a) != '.' {
        return false;
    }
    let b = skip_digits_exec(s, a + 1);
    if !(b > a + 1 && b < len) {
        return false;
    }
    if s.get_char(b) != '.' {
        return false;
    }
    let c = skip_digits_exec(s, b + 1);
    if !(c > b + 1 && c < len) {
        return false;
    }
    if s.get_char(c) != '+' {
        return false;
    }
    let d = skip_digits_exec(s, c + 1);
    d > c + 1
}

/// End of the build id or version quadruple that starts at `p`.
pub fn build_num_end_exec(s: &str, p: usize) -> (e: usize)
    requires
        p <= s@.len(),
        build_num_at(s@, p as int) || quad_num_at(s@, p as int),
    ensures
        e == build_num_end(s@, p as int),
        p <= e <= s@.len(),
{
    let len = s.unicode_len();
    let a = skip_digits_exec(s, p);
    proof {
        assert(a < len);
    }
    let b = skip_digits_exec(s, a + 1);
    proof {
        assert(b < len);
    }
    let c = skip_digits_exec(s, b + 1);
    proof {
        assert(c < len);
    }
    skip_digits_exec(s, c + 1)
}

/// `s` with leading and trailing whitespace removed.
pub open spec fn spec_trim(s: Seq<char>) -> Seq<char> {
    let a = skip_ws(s, 0);
    let b = trim_end_idx(s, s.len() as int);
    if a < b {
        s.subrange(a, b)
    } else {
        Seq::empty()
    }
}

/// End of `s.take(i)` after dropping its trailing whitespace.
pub open spec fn trim_end_idx(s: Seq<char>, i: int) -> int
    decreases i,
{
    if 0 < i <= s.len() && is_ws(s[i - 1]) {
        trim_end_idx(s, i - 1)
    } else {
        i
    }
}

/// `s` without one trailing carriage return, if present.
pub open spec fn strip_cr(s: Seq<char>) -> Seq<char> {
    if s.len() > 0 && s[s.len() - 1] == '\r' {
        s.drop_last()
    } else {
        s
    }
}

/// The lines of `s`: segments terminated by `'\n'` or `"\r\n"` (the line
/// ending removed), the final line ending optional; a carriage return not
/// followed by a newline stays.
pub open spec fn spec_lines(s: Seq<char>) -> Seq<Seq<char>>
    decreases s.len(),
{
    if s.len() == 0 {
        Seq::empty()
    } else {
        let j = find_char(s, '\n', 0);
        if 0 <= j < s.len() {
            seq![strip_cr(s.subrange(0, j))] + spec_lines(s.subrange(j + 1, s.len() as int))
        } else {
            seq![s]
        }
    }
}

/// The second whitespace-delimited token of `s` (empty if there is none).
pub open spec fn second_token(s: Seq<char>) -> Seq<char> {
    let a = skip_ws(s, 0);
    let b = skip_non_ws(s, a);
    let c = skip_ws(s, b);
    let d = skip_non_ws(s, c);
    if 0 <= c <= d <= s.len() {
        s.subrange(c, d)
    } else {
        Seq::empty()
    }
}

/// The text between the first pair of double quotes in `s`, or empty when no
/// such pair exists.
pub open spec fn name_between_quotes(s: Seq<char>) -> Seq<char> {
    let q1 = find_char(s, '"', 0);
    if q1 < s.len() {
        let q2 = find_char(s, '"', q1 + 1);
        if q2 < s.len() {
            s.subrange(q1 + 1, q2)
        } else {
            Seq::empty()
        }
    } else {
        Seq::empty()
    }
}

/// Whether `p` occurs in `s` at index `i`, decided by character comparison.
pub fn match_at_exec(s: &str, p: &str, i: usize) -> (r: bool)
    ensures
        r == match_at(s@, p@, i as int),
{
    let s_len = s.unicode_len();
    let p_len = p.unicode_len();
    if i > s_len || p_len > s_len - i {
        return false;
    }
    let mut k: usize = 0;
    while k < p_len
        invariant
            k <= p_len,
            p_len == p@.len(),
            s_len == s@.len(),
            i + p_len <= s_len,
            forall|m: int| 0 <= m < k ==> s@[i + m] == p@[m],
        decreases p_len - k,
    {
        if s.get_char(i + k) != p.get_char(k) {
            proof {
                let sub = s@.subrange(i as int, i + p@.len() as int);
                assert(sub[k as int] == s@[i + k]);
                assert(sub != p@);
            }
            return false;
        }
        k = k + 1;
    }
    proof {
        assert(s@.subrange(i as int, i + p@.len() as int) =~= p@);
    }
    true
}

/// Whether `p` is a prefix of `s`.
pub fn starts_with_str(s: &str, p: &str) -> (r: bool)
    ensures
        r == has_prefix(s@, p@),
{
    match_at_exec(s, p, 0)
}

/// First occurrence of `p` in `s` at or after `from`.
pub fn find_str(s: &str, p: &str, from: usize) -> (r: Option<usize>)
    ensures
        match r {
            Some(j) => find_from(s@, p@, from as int) == Some(j as int),
            None => find_from(s@, p@, from as int) is None,
        },
{
    let s_len = s.unicode_len();
    let p_len = p.unicode_len();
    if p_len == 0 {
        if from <= s_len {
            proof {
                assert(s@.subrange(from as int, from as int) =~= p@);
            }
            return Some(from);
        } else {
            return None;
        }
    }
    let mut i = from;
    loop
        invariant
            from <= i,
            s_len == s@.len(),
            p_len == p@.len(),
            p_len >= 1,
            find_from(s@, p@, from as int) == find_from(s@, p@, i as int),
        decreases s@.len() + 1 - i,
    {
        if i > s_len || p_len > s_len - i {
            proof {
                assert(find_from(s@, p@, i as int) is None);
            }
            return None;
        }
        if match_at_exec(s, p, i) {
            proof {
                assert(find_from(s@, p@, i as int) == Some(i as int));
            }
            return Some(i);
        }
        proof {
            assert(find_from(s@, p@, i as int) == find_from(s@, p@, i + 1));
        }
        i = i + 1;
    }
}

/// Whether `p` occurs somewhere in `s`.
pub fn contains_str(s: &str, p: &str) -> (r: bool)
    ensures
        r == contains_seq(s@, p@),
{
    let r = find_str(s, p, 0);
    proof {
        lemma_find_from(s@, p@, 0);
        if find_from(s@, p@, 0) is None {
            assert forall|i: int| !match_at(s@, p@, i) by {
                if i >= 0 {
                    assert(!match_at(s@, p@, i));
                }
            }
        }
    }
    r.is_some()
}

/// First occurrence of `c` in `s`, or `s`'s length when absent.
pub fn find_char_exec(s: &str, c: char) -> (r: usize)
    ensures
        r == find_char(s@, c, 0),
        r <= s@.len(),
{
    let len = s.unicode_len();
    let mut i: usize = 0;
    while i < len
        invariant
            i <= len,
            len == s@.len(),
            find_char(s@, c, 0) == find_char(s@, c, i as int),
        decreases len - i,
    {
        if s.get_char(i) == c {
            return i;
        }
        i = i + 1;
    }
    i
}

/// Index of the first non-whitespace character at or after `from`.
pub fn skip_ws_exec(s: &str, from: usize) -> (r: usize)
    requires
        from <= s@.len(),
    ensures
        r == skip_ws(s@, from as int),
        from <= r <= s@.len(),
{
    let len = s.unicode_len();
    let mut i = from;
    while i < len && is_ws_char(s.get_char(i))
        invariant
            from <= i <= len,
            len == s@.len(),
            skip_ws(s@, from as int) == skip_ws(s@, i as int),
        decreases len - i,
    {
        i = i + 1;
    }
    i
}

/// Index of the first whitespace character at or after `from`.
pub fn skip_non_ws_exec(s: &str, from: usize) -> (r: usize)
    requires
        from <= s@.len(),
    ensures
        r == skip_non_ws(s@, from as int),
        from <= r <= s@.len(),
{
    let len = s.unicode_len();
    let mut i = from;
    while i < len && !is_ws_char(s.get_char(i))
        invariant
            from <= i <= len,
            len == s@.len(),
            skip_non_ws(s@, from as int) == skip_non_ws(s@, i as int),
        decreases len - i,
    {
        i = i + 1;
    }
    i
}

/// Index of the first non-digit character at or after `from`.
pub fn skip_digits_exec(s: &str, from: usize) -> (r: usize)
    requires
        from <= s@.len(),
    ensures
        r == skip_digits(s@, from as int),
        from <= r <= s@.len(),
{
    let len = s.unicode_len();
    let mut i = from;
    while i < len && is_digit_char(s.get_char(i))
        invariant
            from <= i <= len,
            len == s@.len(),
            skip_digits(s@, from as int) == skip_digits(s@, i as int),
        decreases len - i,
    {
        i = i + 1;
    }
    i
}

/// Whitespace test on one character.
pub fn is_ws_char(c: char) -> (r: bool)
    ensures
        r == is_ws(c),
{
    c == ' ' || c == '\t' || c == '\n' || c == '\u{0b}' || c == '\u{0c}' || c == '\r' || c
        == '\u{85}' || c == '\u{a0}' || c == '\u{1680}' || ('\u{2000}' <= c && c <= '\u{200a}')
        || c == '\u{2028}' || c == '\u{2029}' || c == '\u{202f}' || c == '\u{205f}' || c
        == '\u{3000}'
}

/// Digit test on one character.
pub fn is_digit_char(c: char) -> (r: bool)
    ensures
        r == is_digit(c),
{
    '0' <= c && c <= '9'
}

/// `s` with leading and trailing whitespace removed.
pub fn trim_str(s: &str) -> (r: String)
    ensures
        r@ == spec_trim(s@),
{
    let len = s.unicode_len();
    let a = skip_ws_exec(s, 0);
    let mut b = len;
    while b > 0 && is_ws_char(s.get_char(b - 1))
        invariant
            b <= len,
            len == s@.len(),
            trim_end_idx(s@, len as int) == trim_end_idx(s@, b as int),
        decreases b,
    {
        b = b - 1;
    }
    if a < b {
        s.substring_char(a, b).to_owned()
    } else {
        String::new()
    }
}

/// Equality of two strings, decided by character comparison.
pub fn str_eq(a: &str, b: &str) -> (r: bool)
    ensures
        r == (a@ == b@),
{
    let la = a.unicode_len();
    let lb = b.unicode_len();
    if la != lb {
        return false;
    }
    let mut i: usize = 0;
    while i < la
        invariant
            i <= la,
            la == a@.len(),
            la == b@.len(),
            forall|m: int| 0 <= m < i ==> a@[m] == b@[m],
        decreases la - i,
    {
        if a.get_char(i) != b.get_char(i) {
            return false;
        }
        i = i + 1;
    }
    proof {
        assert(a@ =~= b@);
    }
    true
}

/// The second whitespace-delimited token of `s`, as a fresh string.
pub fn second_token_exec(s: &str) -> (r: String)
    ensures
        r@ == second_token(s@),
{
    let a = skip_ws_exec(s, 0);
    let b = skip_non_ws_exec(s, a);
    let c = skip_ws_exec(s, b);
    let d = skip_non_ws_exec(s, c);
    proof {
        lemma_skip_ws(s@, 0);
        lemma_skip_non_ws(s@, a as int);
        lemma_skip_ws(s@, b as int);
        lemma_skip_non_ws(s@, c as int);
    }
    s.substring_char(c, d).to_owned()
}

/// The text between the first pair of double quotes in `s`.
pub fn name_between_quotes_exec(s: &str) -> (r: String)
    ensures
        r@ == name_between_quotes(s@),
{
    let len = s.unicode_len();
    let q1 = find_char_exec(s, '"');
    if q1 < len {
        let tail = s.substring_char(q1 + 1, len);
        let q2_rel = find_char_exec(tail, '"');
        proof {
            lemma_find_char_shift(s@, '"', q1 + 1);
        }
        if q2_rel < tail.unicode_len() {
            let q2 = q1 + 1 + q2_rel;
            s.substring_char(q1 + 1, q2).to_owned()
        } else {
            String::new()
        }
    } else {
        String::new()
    }
}

/// Searching a suffix of `s` finds the same character occurrences, shifted.
pub proof fn lemma_find_char_shift(s: Seq<char>, c: char, from: int)
    requires
        0 <= from <= s.len(),
    ensures
        find_char(s, c, from) == from + find_char(s.subrange(from, s.len() as int), c, 0),
{
    lemma_find_char_shift_aux(s, c, from, from);
}

proof fn lemma_find_char_shift_aux(s: Seq<char>, c: char, from: int, i: int)
    requires
        0 <= from <= i <= s.len(),
    ensures
        find_char(s, c, i) == from + find_char(s.subrange(from, s.len() as int), c, i - from),
    decreases s.len() - i,
{
    let t = s.subrange(from, s.len() as int);
    if i < s.len() {
        assert(t[i - from] == s[i]);
        if s[i] != c {
            lemma_find_char_shift_aux(s, c, from, i + 1);
        }
    }
}

/// The lines of `s`, as fresh strings.
pub fn split_lines(s: &str) -> (r: Vec<String>)
    ensures
        r.deep_view() == spec_lines(s@),
{
    let mut out: Vec<String> = Vec::new();
    let mut rest: String = s.to_owned();
    proof {
        assert(out.deep_view() + spec_lines(rest@) =~= spec_lines(s@));
    }
    loop
        invariant
            spec_lines(s@) == out.deep_view() + spec_lines(rest@),
        decreases rest@.len(),
    {
        let rest_len = rest.as_str().unicode_len();
        if rest_len == 0 {
            proof {
                assert(spec_lines(rest@) =~= Seq::<Seq<char>>::empty());
                assert(out.deep_view() =~= out.deep_view() + spec_lines(rest@));
            }
            return out;
        }
        let j = find_char_exec(rest.as_str(), '\n');
        let ghost old_out = out.deep_view();
        let ghost old_rest = rest@;
        if j < rest_len {
            let head = rest.as_str().substring_char(0, j);
            let line = strip_cr_exec(head);
            out.push(line);
            rest = rest.as_str().substring_char(j + 1, rest_len).to_owned();
            proof {
                assert(spec_lines(old_rest) == seq![strip_cr(old_rest.subrange(0, j as int))]
                    + spec_lines(old_rest.subrange(j + 1, old_rest.len() as int)));
                assert(out.deep_view() =~= old_out.push(strip_cr(old_rest.subrange(0, j as int))));
                assert(out.deep_view() + spec_lines(rest@) =~= old_out + spec_lines(old_rest));
            }
        } else {
            let line = rest.as_str().to_owned();
            out.push(line);
            rest = String::new();
            proof {
                assert(spec_lines(old_rest) == seq![old_rest]);
                assert(out.deep_view() =~= old_out.push(old_rest));
                assert(spec_lines(rest@) =~= Seq::<Seq<char>>::empty());
                assert(out.deep_view() + spec_lines(rest@) =~= old_out + spec_lines(old_rest));
            }
        }
    }
}

/// `s` without one trailing carriage return, as a fresh string.
pub fn strip_cr_exec(s: &str) -> (r: String)
    ensures
        r@ == strip_cr(s@),
{
    let len = s.unicode_len();
    if len > 0 && s.get_char(len - 1) == '\r' {
        proof {
            assert(s@.subrange(0, s@.len() - 1) =~= s@.drop_last());
        }
        s.substring_char(0, len - 1).to_owned()
    } else {
        s.to_owned()
    }
}

} // verus!
