//! Verified text utilities: decimal formatting and parsing, and the character
//! level string operations the command layer builds on.

use vstd::prelude::*;
use vstd::string::StrSliceExecFns;
use vstd::string::StringExecFns;

verus! {

/// The character for a single decimal digit value.
pub open spec fn dec_digit(d: nat) -> char {
    if d == 0 {
        '0'
    } else if d == 1 {
        '1'
    } else if d == 2 {
        '2'
    } else if d == 3 {
        '3'
    } else if d == 4 {
        '4'
    } else if d == 5 {
        '5'
    } else if d == 6 {
        '6'
    } else if d == 7 {
        '7'
    } else if d == 8 {
        '8'
    } else {
        '9'
    }
}

/// The decimal representation of a natural number, most significant digit
/// first, without leading zeroes (except for zero itself).
pub open spec fn dec_str(n: nat) -> Seq<char>
    decreases n,
{
    if n < 10 {
        seq![dec_digit(n)]
    } else {
        dec_str(n / 10).push(dec_digit(n % 10))
    }
}

/// The decimal representation of an integer: a minus sign for negatives.
pub open spec fn int_str(i: int) -> Seq<char> {
    if i < 0 {
        seq!['-'] + dec_str((-i) as nat)
    } else {
        dec_str(i as nat)
    }
}

/// The one-character string for a decimal digit value.
fn digit_str(d: u64) -> (s: &'static str)
    requires
        d < 10,
    ensures
        s@ =~= seq![dec_digit(d as nat)],
{
    proof {
        reveal_strlit("0");
        reveal_strlit("1");
        reveal_strlit("2");
        reveal_strlit("3");
        reveal_strlit("4");
        reveal_strlit("5");
        reveal_strlit("6");
        reveal_strlit("7");
        reveal_strlit("8");
        reveal_strlit("9");
    }
    if d == 0 {
        "0"
    } else if d == 1 {
        "1"
    } else if d == 2 {
        "2"
    } else if d == 3 {
        "3"
    } else if d == 4 {
        "4"
    } else if d == 5 {
        "5"
    } else if d == 6 {
        "6"
    } else if d == 7 {
        "7"
    } else if d == 8 {
        "8"
    } else {
        "9"
    }
}

/// Formats a number in decimal.
pub fn u64_to_string(n: u64) -> (s: String)
    ensures
        s@ == dec_str(n as nat),
{
    let mut s = String::new();
    let mut m = n;
    proof {
        assert(dec_str(n as nat) =~= dec_str(m as nat) + s@);
    }
    while m >= 10
        invariant
            dec_str(n as nat) == dec_str(m as nat) + s@,
        decreases m,
    {
        let d = m % 10;
        let s2 = String::from_str(digit_str(d)).concat(s.as_str());
        proof {
            assert(dec_str(m as nat) == dec_str((m as nat) / 10).push(dec_digit(
                (m as nat) % 10,
            )));
            assert(dec_str((m / 10) as nat) + s2@ =~= dec_str(m as nat) + s@);
        }
        s = s2;
        m = m / 10;
    }
    let r = String::from_str(digit_str(m)).concat(s.as_str());
    proof {
        assert(dec_str(m as nat) =~= seq![dec_digit(m as nat)]);
        assert(r@ =~= dec_str(n as nat));
    }
    r
}

/// Formats a signed number in decimal.
pub fn i64_to_string(x: i64) -> (s: String)
    ensures
        s@ == int_str(x as int),
{
    if x < 0 {
        let m: u64 = (-(x as i128)) as u64;
        let digits = u64_to_string(m);
        let r = String::from_str(minus_str()).concat(digits.as_str());
        proof {
            assert(r@ =~= int_str(x as int));
        }
        r
    } else {
        u64_to_string(x as u64)
    }
}

/// The one-character minus sign.
fn minus_str() -> (s: &'static str)
    ensures
        s@ =~= seq!['-'],
{
    proof {
        reveal_strlit("-");
    }
    "-"
}

/// Character-by-character string equality.
pub fn str_eq(a: &str, b: &str) -> (r: bool)
    ensures
        r == (a@ == b@),
{
    let a_len = a.unicode_len();
    let b_len = b.unicode_len();
    if a_len != b_len {
        return false;
    }
    let mut i: usize = 0;
    while i < a_len
        invariant
            i <= a_len,
            a_len == a@.len(),
            a_len == b@.len(),
            forall|j: int| 0 <= j < i ==> a@[j] == b@[j],
        decreases a_len - i,
    {
        if a.get_char(i) != b.get_char(i) {
            return false;
        }
        i = i + 1;
    }
    proof {
        assert(a@ =~= b@);
    }
    true
}

/// `p` is a prefix of `s`.
pub open spec fn starts_with(s: Seq<char>, p: Seq<char>) -> bool {
    p.len() <= s.len() && s.subrange(0, p.len() as int) == p
}

/// `p` is a suffix of `s`.
pub open spec fn ends_with(s: Seq<char>, p: Seq<char>) -> bool {
    p.len() <= s.len() && s.subrange(s.len() - p.len(), s.len() as int) == p
}

/// Whether `s` begins with `p`, character by character.
pub fn str_starts_with(s: &str, p: &str) -> (r: bool)
    ensures
        r == starts_with(s@, p@),
{
    let s_len = s.unicode_len();
    let p_len = p.unicode_len();
    if p_len > s_len {
        return false;
    }
    let mut i: usize = 0;
    while i < p_len
        invariant
            i <= p_len <= s_len,
            s_len == s@.len(),
            p_len == p@.len(),
            forall|j: int| 0 <= j < i ==> s@[j] == p@[j],
        decreases p_len - i,
    {
        if s.get_char(i) != p.get_char(i) {
            proof {
                assert(s@.subrange(0, p@.len() as int)[i as int] != p@[i as int]);
            }
            return false;
        }
        i = i + 1;
    }
    proof {
        assert(s@.subrange(0, p@.len() as int) =~= p@);
    }
    true
}

/// Whether `s` ends with `p`, character by character.
pub fn str_ends_with(s: &str, p: &str) -> (r: bool)
    ensures
        r == ends_with(s@, p@),
{
    let s_len = s.unicode_len();
    let p_len = p.unicode_len();
    if p_len > s_len {
        return false;
    }
    let off = s_len - p_len;
    let mut i: usize = 0;
    while i < p_len
        invariant
            i <= p_len <= s_len,
            off == s_len - p_len,
            s_len == s@.len(),
            p_len == p@.len(),
            forall|j: int| 0 <= j < i ==> s@[off + j] == p@[j],
        decreases p_len - i,
    {
        if s.get_char(off + i) != p.get_char(i) {
            proof {
                assert(s@.subrange(s@.len() - p@.len(), s@.len() as int)[i as int]
                    != p@[i as int]);
            }
            return false;
        }
        i = i + 1;
    }
    proof {
        assert(s@.subrange(s@.len() - p@.len(), s@.len() as int) =~= p@);
    }
    true
}

/// The index of the first occurrence of `c` in `s`, if any.
pub fn find_char(s: &str, c: char) -> (r: Option<usize>)
    ensures
        match r {
            Some(i) => i < s@.len() && s@[i as int] == c && forall|j: int|
                0 <= j < i ==> s@[j] != c,
            None => forall|j: int| 0 <= j < s@.len() ==> s@[j] != c,
        },
{
    let n = s.unicode_len();
    let mut i: usize = 0;
    while i < n
        invariant
            i <= n,
            n == s@.len(),
            forall|j: int| 0 <= j < i ==> s@[j] != c,
        decreases n - i,
    {
        if s.get_char(i) == c {
            return Some(i);
        }
        i = i + 1;
    }
    None
}

/// The index of the last occurrence of `c` in `s`, if any.
pub fn rfind_char(s: &str, c: char) -> (r: Option<usize>)
    ensures
        match r {
            Some(i) => i < s@.len() && s@[i as int] == c && forall|j: int|
                i < j < s@.len() ==> s@[j] != c,
            None => forall|j: int| 0 <= j < s@.len() ==> s@[j] != c,
        },
{
    let n = s.unicode_len();
    let mut i: usize = n;
    while i > 0
        invariant
            i <= n,
            n == s@.len(),
            forall|j: int| i <= j < s@.len() ==> s@[j] != c,
        decreases i,
    {
        i = i - 1;
        if s.get_char(i) == c {
            return Some(i);
        }
    }
    None
}

/// Whether `c` occurs in `s`.
pub fn str_contains_char(s: &str, c: char) -> (r: bool)
    ensures
        r == s@.contains(c),
{
    let f = find_char(s, c);
    match f {
        Some(i) => {
            proof {
                assert(s@[i as int] == c);
            }
            true
        },
        None => {
            proof {
                assert(forall|j: int| 0 <= j < s@.len() ==> s@[j] != c);
                assert(!s@.contains(c));
            }
            false
        },
    }
}

/// `sub` occurs contiguously somewhere in `s`.
pub open spec fn has_substr(s: Seq<char>, sub: Seq<char>) -> bool {
    exists|i: int|
        0 <= i <= s.len() - sub.len() && #[trigger] s.subrange(i, i + sub.len()) == sub
}

/// Whether `s` matches `p` starting at position `at`.
fn matches_at(s: &str, p: &str, at: usize) -> (r: bool)
    requires
        at + p@.len() <= s@.len(),
    ensures
        r == (s@.subrange(at as int, at + p@.len()) == p@),
{
    let s_len = s.unicode_len();
    let p_len = p.unicode_len();
    let mut i: usize = 0;
    while i < p_len
        invariant
            i <= p_len,
            p_len == p@.len(),
            s_len == s@.len(),
            at + p_len <= s_len,
            forall|j: int| 0 <= j < i ==> s@[at + j] == p@[j],
        decreases p_len - i,
    {
        if s.get_char(at + i) != p.get_char(i) {
            proof {
                assert(s@.subrange(at as int, at + p@.len())[i as int] != p@[i as int]);
            }
            return false;
        }
        i = i + 1;
    }
    proof {
        assert(s@.subrange(at as int, at + p@.len()) =~= p@);
    }
    true
}

/// Whether `sub` occurs contiguously somewhere in `s`.
pub fn str_contains_sub(s: &str, sub: &str) -> (r: bool)
    ensures
        r == has_substr(s@, sub@),
{
    let s_len = s.unicode_len();
    let sub_len = sub.unicode_len();
    if sub_len > s_len {
        return false;
    }
    let last = s_len - sub_len;
    let mut i: usize = 0;
    while i < last
        invariant
            i <= last,
            last == s@.len() - sub@.len(),
            s_len == s@.len(),
            sub_len == sub@.len(),
            forall|j: int| 0 <= j < i ==> #[trigger] s@.subrange(j, j + sub@.len()) != sub@,
        decreases last - i,
    {
        if matches_at(s, sub, i) {
            return true;
        }
        i = i + 1;
    }
    if matches_at(s, sub, last) {
        return true;
    }
    proof {
        assert(forall|j: int|
            0 <= j <= last ==> #[trigger] s@.subrange(j, j + sub@.len()) != sub@);
    }
    false
}

/// What follows the last occurrence of `c` in `s` (all of `s` when `c` does
/// not occur).
pub open spec fn after_last(s: Seq<char>, c: char) -> Seq<char>
    decreases s.len(),
{
    if s.len() == 0 {
        s
    } else if s[s.len() - 1] == c {
        Seq::empty()
    } else {
        after_last(s.take(s.len() - 1), c).push(s[s.len() - 1])
    }
}

/// What precedes the last occurrence of `c` in `s`, when `c` occurs.
pub open spec fn before_last(s: Seq<char>, c: char) -> Option<Seq<char>>
    decreases s.len(),
{
    if s.len() == 0 {
        None
    } else if s[s.len() - 1] == c {
        Some(s.take(s.len() - 1))
    } else {
        before_last(s.take(s.len() - 1), c)
    }
}

/// The substring after the last occurrence of `c`, or all of `s`.
pub fn str_after_last(s: &str, c: char) -> (r: String)
    ensures
        r@ == after_last(s@, c),
    decreases s@.len(),
{
    let n = s.unicode_len();
    if n == 0 {
        String::new()
    } else if s.get_char(n - 1) == c {
        String::new()
    } else {
        let head = s.substring_char(0, n - 1);
        proof {
            assert(head@ =~= s@.take(s@.len() - 1));
        }
        let r0 = str_after_last(head, c);
        let r = r0.concat(s.substring_char(n - 1, n));
        proof {
            assert(r@ =~= after_last(s@, c));
        }
        r
    }
}

/// The substring before the last occurrence of `c`, when `c` occurs.
pub fn str_before_last(s: &str, c: char) -> (r: Option<String>)
    ensures
        match r {
            Some(t) => before_last(s@, c) == Some(t@),
            None => before_last(s@, c) is None,
        },
{
    let n = s.unicode_len();
    match rfind_char(s, c) {
        None => {
            proof {
                lemma_before_last_none(s@, c);
            }
            None
        },
        Some(i) => {
            let t = String::from_str(s.substring_char(0, i));
            proof {
                lemma_before_last_found(s@, c, i as int);
                assert(t@ =~= s@.take(i as int));
            }
            Some(t)
        },
    }
}

/// When `c` does not occur in `s`, there is nothing before its last occurrence.
proof fn lemma_before_last_none(s: Seq<char>, c: char)
    requires
        forall|j: int| 0 <= j < s.len() ==> s[j] != c,
    ensures
        before_last(s, c) is None,
    decreases s.len(),
{
    if s.len() > 0 {
        lemma_before_last_none(s.take(s.len() - 1), c);
    }
}

/// The last occurrence of `c` at index `i` makes `s.take(i)` the prefix before it.
proof fn lemma_before_last_found(s: Seq<char>, c: char, i: int)
    requires
        0 <= i < s.len(),
        s[i] == c,
        forall|j: int| i < j < s.len() ==> s[j] != c,
    ensures
        before_last(s, c) == Some(s.take(i)),
    decreases s.len(),
{
    if i == s.len() - 1 {
    } else {
        lemma_before_last_found(s.take(s.len() - 1), c, i);
        assert(s.take(s.len() - 1).take(i) =~= s.take(i));
    }
}

/// `s` with every leading copy of the (non-empty) prefix `p` removed.
pub open spec fn trim_start_matches(s: Seq<char>, p: Seq<char>) -> Seq<char>
    decreases s.len(),
{
    if p.len() > 0 && starts_with(s, p) {
        trim_start_matches(s.skip(p.len() as int), p)
    } else {
        s
    }
}

/// `s` with every trailing copy of the (non-empty) suffix `p` removed.
pub open spec fn trim_end_matches(s: Seq<char>, p: Seq<char>) -> Seq<char>
    decreases s.len(),
{
    if p.len() > 0 && ends_with(s, p) {
        trim_end_matches(s.take(s.len() - p.len()), p)
    } else {
        s
    }
}

/// Removes every leading copy of `p` from `s`.
pub fn str_trim_start_matches(s: &str, p: &str) -> (r: String)
    ensures
        r@ == trim_start_matches(s@, p@),
    decreases s@.len(),
{
    let p_len = p.unicode_len();
    if p_len > 0 && str_starts_with(s, p) {
        let n = s.unicode_len();
        let rest = s.substring_char(p_len, n);
        proof {
            assert(rest@ =~= s@.skip(p@.len() as int));
        }
        str_trim_start_matches(rest, p)
    } else {
        String::from_str(s)
    }
}

/// Removes every trailing copy of `p` from `s`.
pub fn str_trim_end_matches(s: &str, p: &str) -> (r: String)
    ensures
        r@ == trim_end_matches(s@, p@),
    decreases s@.len(),
{
    let p_len = p.unicode_len();
    if p_len > 0 && str_ends_with(s, p) {
        let n = s.unicode_len();
        let rest = s.substring_char(0, n - p_len);
        proof {
            assert(rest@ =~= s@.take(s@.len() - p@.len()));
        }
        str_trim_end_matches(rest, p)
    } else {
        String::from_str(s)
    }
}

/// The parts of `s` before and after the first occurrence of `c`, if any.
pub fn split_first_char(s: &str, c: char) -> (r: Option<(String, String)>)
    ensures
        match r {
            Some(p) => exists|i: int|
                {
                    &&& 0 <= i < s@.len()
                    &&& s@[i] == c
                    &&& (forall|j: int| 0 <= j < i ==> s@[j] != c)
                    &&& p.0@ == s@.take(i)
                    &&& p.1@ == #[trigger] s@.skip(i + 1)
                },
            None => !s@.contains(c),
        },
{
    let n = s.unicode_len();
    match find_char(s, c) {
        None => {
            proof {
                assert(!s@.contains(c));
            }
            None
        },
        Some(i) => {
            let a = String::from_str(s.substring_char(0, i));
            let b = String::from_str(s.substring_char(i + 1, n));
            proof {
                assert(a@ =~= s@.take(i as int));
                assert(b@ =~= s@.skip(i + 1));
            }
            Some((a, b))
        },
    }
}

/// The segments of `s` between occurrences of `c`; empty segments are kept,
/// and the empty string yields one empty segment.
pub open spec fn split_seq(s: Seq<char>, c: char) -> Seq<Seq<char>>
    decreases s.len(),
{
    if s.len() == 0 {
        seq![Seq::empty()]
    } else if s[0] == c {
        seq![Seq::<char>::empty()] + split_seq(s.skip(1), c)
    } else {
        let rest = split_seq(s.skip(1), c);
        seq![seq![s[0]] + rest[0]] + rest.skip(1)
    }
}

/// A split always yields at least one segment.
pub proof fn lemma_split_seq_len(s: Seq<char>, c: char)
    ensures
        split_seq(s, c).len() >= 1,
    decreases s.len(),
{
    if s.len() > 0 {
        lemma_split_seq_len(s.skip(1), c);
    }
}

/// Splits `s` at every occurrence of `c`.
pub fn split_char(s: &str, c: char) -> (r: Vec<String>)
    ensures
        r.deep_view() == split_seq(s@, c),
    decreases s@.len(),
{
    let n = s.unicode_len();
    if n == 0 {
        let mut r: Vec<String> = Vec::new();
        r.push(String::new());
        proof {
            assert(r.deep_view() =~= split_seq(s@, c));
        }
        r
    } else if s.get_char(0) == c {
        let tail = s.substring_char(1, n);
        proof {
            assert(tail@ =~= s@.skip(1));
        }
        let mut r = split_char(tail, c);
        r.insert(0, String::new());
        proof {
            assert(r.deep_view() =~= split_seq(s@, c));
        }
        r
    } else {
        let tail = s.substring_char(1, n);
        proof {
            assert(tail@ =~= s@.skip(1));
            lemma_split_seq_len(tail@, c);
        }
        let mut r = split_char(tail, c);
        let first = r.remove(0);
        let nf = String::from_str(s.substring_char(0, 1)).concat(first.as_str());
        r.insert(0, nf);
        proof {
            assert(nf@ =~= seq![s@[0]] + split_seq(s@.skip(1), c)[0]);
            assert(r.deep_view() =~= split_seq(s@, c));
        }
        r
    }
}

/// The segments joined with `sep` between them.
pub open spec fn join_seq(parts: Seq<Seq<char>>, sep: Seq<char>) -> Seq<char>
    decreases parts.len(),
{
    if parts.len() == 0 {
        Seq::empty()
    } else if parts.len() == 1 {
        parts[0]
    } else {
        parts[0] + sep + join_seq(parts.skip(1), sep)
    }
}

/// Joins the elements of `v` with `sep` between them, starting at index `i`.
fn join_str_from(v: &Vec<String>, sep: &str, i: usize) -> (r: String)
    requires
        i <= v@.len(),
    ensures
        r@ == join_seq(v.deep_view().skip(i as int), sep@),
    decreases v@.len() - i,
{
    if i == v.len() {
        proof {
            assert(v.deep_view().skip(i as int) =~= Seq::<Seq<char>>::empty());
        }
        String::new()
    } else if i + 1 == v.len() {
        proof {
            assert(v.deep_view().skip(i as int).len() == 1);
            assert(v.deep_view().skip(i as int)[0] == v@[i as int]@);
        }
        String::from_str(v[i].as_str())
    } else {
        let rest = join_str_from(v, sep, i + 1);
        let r = String::from_str(v[i].as_str()).concat(sep).concat(rest.as_str());
        proof {
            assert(v.deep_view().skip(i as int).skip(1) =~= v.deep_view().skip(i + 1));
            assert(v.deep_view().skip(i as int)[0] == v@[i as int]@);
            assert(r@ =~= join_seq(v.deep_view().skip(i as int), sep@));
        }
        r
    }
}

/// Joins the elements of `v` with `sep` between them.
pub fn join_str(v: &Vec<String>, sep: &str) -> (r: String)
    ensures
        r@ == join_seq(v.deep_view(), sep@),
{
    let r = join_str_from(v, sep, 0);
    proof {
        assert(v.deep_view().skip(0) =~= v.deep_view());
    }
    r
}

/// One line as reported: a trailing carriage return is dropped.
pub open spec fn strip_cr(l: Seq<char>) -> Seq<char> {
    if l.len() > 0 && l[l.len() - 1] == '\r' {
        l.take(l.len() - 1)
    } else {
        l
    }
}

/// The lines of `s`: newline-separated segments, without a final empty
/// segment, each stripped of a trailing carriage return.
pub open spec fn line_seq(s: Seq<char>) -> Seq<Seq<char>> {
    let raw = split_seq(s, '\n');
    let kept = if raw[raw.len() - 1].len() == 0 {
        raw.take(raw.len() - 1)
    } else {
        raw
    };
    kept.map_values(|l: Seq<char>| strip_cr(l))
}

/// Splits `s` into lines.
pub fn str_lines(s: &str) -> (r: Vec<String>)
    ensures
        r.deep_view() == line_seq(s@),
{
    let mut raw = split_char(s, '\n');
    proof {
        lemma_split_seq_len(s@, '\n');
    }
    let last_empty = raw[raw.len() - 1].as_str().unicode_len() == 0;
    if last_empty {
        raw.pop();
    }
    let ghost kept = raw.deep_view();
    let mut out: Vec<String> = Vec::new();
    let mut i: usize = 0;
    while i < raw.len()
        invariant
            i <= raw@.len(),
            kept == raw.deep_view(),
            out.deep_view() =~= kept.take(i as int).map_values(|l: Seq<char>| strip_cr(l)),
        decreases raw@.len() - i,
    {
        let ghost out0 = out.deep_view();
        let line = &raw[i];
        proof {
            assert(kept[i as int] == line@);
        }
        let n = line.as_str().unicode_len();
        if n > 0 && line.as_str().get_char(n - 1) == '\r' {
            let t = String::from_str(line.as_str().substring_char(0, n - 1));
            proof {
                assert(t@ =~= strip_cr(kept[i as int]));
            }
            out.push(t);
        } else {
            let t = line.clone();
            proof {
                assert(t@ == strip_cr(kept[i as int]));
            }
            out.push(t);
        }
        proof {
            assert(out.deep_view() =~= out0.push(strip_cr(kept[i as int])));
            assert(out.deep_view() =~= kept.take(i + 1).map_values(
                |l: Seq<char>| strip_cr(l),
            ));
        }
        i = i + 1;
    }
    proof {
        assert(kept.take(kept.len() as int) =~= kept);
        let raw0 = split_seq(s@, '\n');
        if last_empty {
            assert(kept =~= raw0.take(raw0.len() - 1));
        } else {
            assert(kept =~= raw0);
        }
    }
    out
}

/// The white space characters the tool recognizes.
pub open spec fn is_space(c: char) -> bool {
    c == ' ' || c == '\t' || c == '\r' || c == '\n'
}

/// Whether `c` is recognized white space.
pub fn char_is_space(c: char) -> (r: bool)
    ensures
        r == is_space(c),
{
    c == ' ' || c == '\t' || c == '\r' || c == '\n'
}

/// `s` without leading white space.
pub open spec fn trim_start_spec(s: Seq<char>) -> Seq<char>
    decreases s.len(),
{
    if s.len() > 0 && is_space(s[0]) {
        trim_start_spec(s.skip(1))
    } else {
        s
    }
}

/// `s` without trailing white space.
pub open spec fn trim_end_spec(s: Seq<char>) -> Seq<char>
    decreases s.len(),
{
    if s.len() > 0 && is_space(s[s.len() - 1]) {
        trim_end_spec(s.take(s.len() - 1))
    } else {
        s
    }
}

/// `s` without leading or trailing white space.
pub open spec fn trim_spec(s: Seq<char>) -> Seq<char> {
    trim_end_spec(trim_start_spec(s))
}

/// Removes leading white space.
fn str_trim_start(s: &str) -> (r: String)
    ensures
        r@ == trim_start_spec(s@),
    decreases s@.len(),
{
    let n = s.unicode_len();
    if n > 0 && char_is_space(s.get_char(0)) {
        let rest = s.substring_char(1, n);
        proof {
            assert(rest@ =~= s@.skip(1));
        }
        str_trim_start(rest)
    } else {
        String::from_str(s)
    }
}

/// Removes trailing white space.
fn str_trim_end(s: &str) -> (r: String)
    ensures
        r@ == trim_end_spec(s@),
    decreases s@.len(),
{
    let n = s.unicode_len();
    if n > 0 && char_is_space(s.get_char(n - 1)) {
        let rest = s.substring_char(0, n - 1);
        proof {
            assert(rest@ =~= s@.take(s@.len() - 1));
        }
        str_trim_end(rest)
    } else {
        String::from_str(s)
    }
}

/// Removes leading and trailing white space.
pub fn str_trim(s: &str) -> (r: String)
    ensures
        r@ == trim_spec(s@),
{
    let t = str_trim_start(s);
    str_trim_end(t.as_str())
}

/// The white-space-separated tokens of `s`, with `cur` an open token read so
/// far.
pub open spec fn split_ws_acc(s: Seq<char>, cur: Seq<char>) -> Seq<Seq<char>>
    decreases s.len(),
{
    if s.len() == 0 {
        if cur.len() == 0 {
            Seq::empty()
        } else {
            seq![cur]
        }
    } else if is_space(s[0]) {
        if cur.len() == 0 {
            split_ws_acc(s.skip(1), Seq::empty())
        } else {
            seq![cur] + split_ws_acc(s.skip(1), Seq::empty())
        }
    } else {
        split_ws_acc(s.skip(1), cur.push(s[0]))
    }
}

/// The white-space-separated tokens of `s`.
pub open spec fn split_ws(s: Seq<char>) -> Seq<Seq<char>> {
    split_ws_acc(s, Seq::empty())
}

/// Splits `s` at white space, dropping empty tokens.
pub fn str_split_ws(s: &str) -> (r: Vec<String>)
    ensures
        r.deep_view() == split_ws(s@),
{
    let n = s.unicode_len();
    let mut out: Vec<String> = Vec::new();
    let mut cur = String::new();
    let mut i: usize = 0;
    proof {
        assert(s@.skip(0) =~= s@);
        assert(out.deep_view() + split_ws_acc(s@, cur@) =~= split_ws_acc(s@, cur@));
    }
    while i < n
        invariant
            i <= n,
            n == s@.len(),
            split_ws(s@) == out.deep_view() + split_ws_acc(s@.skip(i as int), cur@),
        decreases n - i,
    {
        let c = s.get_char(i);
        proof {
            assert(s@.skip(i as int)[0] == c);
            assert(s@.skip(i as int).skip(1) =~= s@.skip(i + 1));
        }
        if char_is_space(c) {
            if cur.as_str().unicode_len() > 0 {
                let ghost out0 = out.deep_view();
                let ghost cur0 = cur@;
                out.push(cur);
                cur = String::new();
                proof {
                    assert(out.deep_view() =~= out0.push(cur0));
                    assert(out.deep_view() + split_ws_acc(s@.skip(i + 1), cur@) =~= out0 + (
                    seq![cur0] + split_ws_acc(s@.skip(i + 1), Seq::empty())));
                }
            } else {
                proof {
                    assert(cur@ =~= Seq::<char>::empty());
                }
            }
        } else {
            let piece = s.substring_char(i, i + 1);
            proof {
                assert(piece@ =~= seq![c]);
            }
            let ghost prev = cur@;
            cur = cur.concat(piece);
            proof {
                assert(cur@ =~= prev.push(c));
            }
        }
        i = i + 1;
    }
    proof {
        assert(s@.skip(n as int) =~= Seq::<char>::empty());
    }
    if cur.as_str().unicode_len() > 0 {
        let ghost out0 = out.deep_view();
        let ghost cur0 = cur@;
        out.push(cur);
        proof {
            assert(out.deep_view() =~= out0.push(cur0));
            assert(out.deep_view() =~= out0 + seq![cur0]);
        }
    } else {
        proof {
            assert(cur@ =~= Seq::<char>::empty());
        }
    }
    proof {
        assert(out.deep_view() =~= split_ws(s@));
    }
    out
}

/// The index of the first occurrence of `c` in `s`, or `s.len()` when `c`
/// does not occur.
pub open spec fn idx_of_first(s: Seq<char>, c: char) -> int
    decreases s.len(),
{
    if s.len() == 0 {
        0
    } else if s[0] == c {
        0
    } else {
        1 + idx_of_first(s.skip(1), c)
    }
}

/// What the first-occurrence index means.
pub proof fn lemma_idx_of_first(s: Seq<char>, c: char)
    ensures
        0 <= idx_of_first(s, c) <= s.len(),
        idx_of_first(s, c) < s.len() ==> s[idx_of_first(s, c)] == c,
        forall|j: int| 0 <= j < idx_of_first(s, c) ==> s[j] != c,
    decreases s.len(),
{
    if s.len() > 0 && s[0] != c {
        lemma_idx_of_first(s.skip(1), c);
        assert(forall|j: int|
            0 <= j < idx_of_first(s.skip(1), c) ==> s.skip(1)[j] != c);
        assert forall|j: int| 0 <= j < idx_of_first(s, c) implies s[j] != c by {
            if j > 0 {
                assert(s.skip(1)[j - 1] != c);
            }
        }
    }
}

/// Whether `c` is a decimal digit.
pub open spec fn is_digit(c: char) -> bool {
    '0' <= c <= '9'
}

/// The value of a decimal digit character.
pub open spec fn digit_val(c: char) -> nat {
    (c as nat - '0' as nat) as nat
}

/// A non-empty sequence of decimal digits.
pub open spec fn is_digit_seq(s: Seq<char>) -> bool {
    s.len() > 0 && forall|i: int| 0 <= i < s.len() ==> is_digit(#[trigger] s[i])
}

/// The number a sequence of decimal digits denotes.
pub open spec fn dec_val(s: Seq<char>) -> nat
    decreases s.len(),
{
    if s.len() == 0 {
        0
    } else {
        dec_val(s.take(s.len() - 1)) * 10 + digit_val(s[s.len() - 1])
    }
}

/// The value of a digit string dominates the value of each of its prefixes.
pub proof fn lemma_dec_val_prefix(s: Seq<char>, i: int)
    requires
        0 <= i <= s.len(),
    ensures
        dec_val(s.take(i)) <= dec_val(s),
    decreases s.len(),
{
    if i < s.len() {
        lemma_dec_val_prefix(s.take(s.len() - 1), i);
        assert(s.take(s.len() - 1).take(i) =~= s.take(i));
    } else {
        assert(s.take(i) =~= s);
    }
}

/// Parses a decimal number; `None` on a non-digit, an empty string, or a
/// value too large to represent.
pub fn try_parse_usize(s: &str) -> (r: Option<usize>)
    ensures
        match r {
            Some(v) => is_digit_seq(s@) && v == dec_val(s@) && dec_val(s@) <= usize::MAX,
            None => !is_digit_seq(s@) || dec_val(s@) > usize::MAX,
        },
{
    let n = s.unicode_len();
    if n == 0 {
        return None;
    }
    let mut acc: usize = 0;
    let mut i: usize = 0;
    proof {
        assert(s@.take(0) =~= Seq::<char>::empty());
    }
    while i < n
        invariant
            i <= n,
            n == s@.len(),
            acc == dec_val(s@.take(i as int)),
            forall|j: int| 0 <= j < i ==> is_digit(#[trigger] s@[j]),
        decreases n - i,
    {
        let c = s.get_char(i);
        if !('0' <= c && c <= '9') {
            return None;
        }
        let d: usize = (c as u32 as usize) - ('0' as u32 as usize);
        let shifted = match acc.checked_mul(10) {
            Some(v) => v,
            None => {
                proof {
                    lemma_dec_val_prefix(s@, i + 1);
                    assert(s@.take(i + 1).take(i as int) =~= s@.take(i as int));
                }
                return None;
            },
        };
        let next = match shifted.checked_add(d) {
            Some(v) => v,
            None => {
                proof {
                    lemma_dec_val_prefix(s@, i + 1);
                    assert(s@.take(i + 1).take(i as int) =~= s@.take(i as int));
                }
                return None;
            },
        };
        proof {
            assert(s@.take(i + 1).take(i as int) =~= s@.take(i as int));
            assert(s@.take(i + 1)[i as int] == s@[i as int]);
        }
        acc = next;
        i = i + 1;
    }
    proof {
        assert(s@.take(n as int) =~= s@);
    }
    Some(acc)
}

} // verus!
