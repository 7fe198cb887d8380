//! Character-level helpers on which the parsers of the library are built.
//!
//! Text is handled as `Vec<char>` inside the library; the specifications speak
//! of `Seq<char>`, the view of `str` and `String`.

use vstd::prelude::*;

verus! {

/// The characters of `s`, in order.
///
/// Calls `str::chars` and collects the iterator; the standard library
/// documents that it yields the `char`s of the string in order.
#[verifier::external_body]
pub(crate) fn chars_of(s: &str) -> (r: Vec<char>)
    ensures
        r@ == s@,
{
    s.chars().collect()
}

/// The string made of the characters `v`.
///
/// Collects the characters into a `String` with `FromIterator<char>`, which
/// the standard library documents as appending each `char` in order.
#[verifier::external_body]
pub(crate) fn string_of(v: &Vec<char>) -> (r: String)
    ensures
        r@ == v@,
{
    v.iter().collect()
}

/// Whether `c` is an ASCII decimal digit.
pub open spec fn is_ascii_digit(c: char) -> bool {
    '0' <= c && c <= '9'
}

/// Whether `c` has the Unicode `White_Space` property, as `char::is_whitespace`
/// documents.
pub open spec fn is_whitespace(c: char) -> bool {
    ('\u{9}' <= c && c <= '\u{d}') || c == ' ' || c == '\u{85}' || c == '\u{a0}'
        || c == '\u{1680}' || ('\u{2000}' <= c && c <= '\u{200a}') || c == '\u{2028}'
        || c == '\u{2029}' || c == '\u{202f}' || c == '\u{205f}' || c == '\u{3000}'
}

/// Executable form of [`is_whitespace`].
pub fn whitespace(c: char) -> (r: bool)
    ensures
        r == is_whitespace(c),
{
    ('\u{9}' <= c && c <= '\u{d}') || c == ' ' || c == '\u{85}' || c == '\u{a0}'
        || c == '\u{1680}' || ('\u{2000}' <= c && c <= '\u{200a}') || c == '\u{2028}'
        || c == '\u{2029}' || c == '\u{202f}' || c == '\u{205f}' || c == '\u{3000}'
}

/// `s` without its leading whitespace (`str::trim_start`).
pub open spec fn trim_start(s: Seq<char>) -> Seq<char>
    decreases s.len(),
{
    if s.len() > 0 && is_whitespace(s[0]) {
        trim_start(s.drop_first())
    } else {
        s
    }
}

/// `s` without its trailing whitespace (`str::trim_end`).
pub open spec fn trim_end(s: Seq<char>) -> Seq<char>
    decreases s.len(),
{
    if s.len() > 0 && is_whitespace(s.last()) {
        trim_end(s.drop_last())
    } else {
        s
    }
}

/// `s` without leading and trailing whitespace (`str::trim`).
pub open spec fn trim(s: Seq<char>) -> Seq<char> {
    trim_end(trim_start(s))
}

/// Copy of `v[a..b]`.
pub fn slice(v: &Vec<char>, a: usize, b: usize) -> (r: Vec<char>)
    requires
        a <= b <= v@.len(),
    ensures
        r@ == v@.subrange(a as int, b as int),
{
    let mut r: Vec<char> = Vec::new();
    let mut i: usize = a;
    while i < b
        invariant
            a <= i <= b <= v@.len(),
            r@ == v@.subrange(a as int, i as int),
        decreases b - i,
    {
        r.push(v[i]);
        i = i + 1;
    }
    r
}

proof fn lemma_trim_start_skip(s: Seq<char>, i: int)
    requires
        0 <= i <= s.len(),
        forall|j: int| 0 <= j < i ==> is_whitespace(#[trigger] s[j]),
    ensures
        trim_start(s) == trim_start(s.skip(i)),
    decreases i,
{
    if i > 0 {
        assert(s.drop_first().skip(i - 1) =~= s.skip(i));
        lemma_trim_start_skip(s.drop_first(), i - 1);
    } else {
        assert(s.skip(0) =~= s);
    }
}

proof fn lemma_trim_end_take(s: Seq<char>, i: int)
    requires
        0 <= i <= s.len(),
        forall|j: int| i <= j < s.len() ==> is_whitespace(#[trigger] s[j]),
    ensures
        trim_end(s) == trim_end(s.take(i)),
    decreases s.len() - i,
{
    if i < s.len() {
        assert(s.drop_last().take(i) =~= s.take(i));
        lemma_trim_end_take(s.drop_last(), i);
    } else {
        assert(s.take(i) =~= s);
    }
}

/// `s` without leading and trailing whitespace.
pub fn trim_chars(s: &Vec<char>) -> (r: Vec<char>)
    ensures
        r@ == trim(s@),
{
    let mut a: usize = 0;
    while a < s.len() && whitespace(s[a])
        invariant
            a <= s@.len(),
            forall|j: int| 0 <= j < a ==> is_whitespace(#[trigger] s@[j]),
        decreases s@.len() - a,
    {
        a = a + 1;
    }
    proof {
        lemma_trim_start_skip(s@, a as int);
        assert(trim_start(s@.skip(a as int)) == s@.skip(a as int));
    }
    let mut b: usize = s.len();
    while b > a && whitespace(s[b - 1])
        invariant
            a <= b <= s@.len(),
            forall|j: int| b <= j < s@.len() ==> is_whitespace(#[trigger] s@[j]),
        decreases b,
    {
        b = b - 1;
    }
    proof {
        let t = s@.skip(a as int);
        assert forall|j: int| (b - a) <= j < t.len() implies is_whitespace(#[trigger] t[j]) by {
            assert(t[j] == s@[j + a]);
        }
        lemma_trim_end_take(t, b - a);
        assert(t.take(b - a) =~= s@.subrange(a as int, b as int));
    }
    slice(s, a, b)
}

/// The first position of `c` in `s`, if any (`str::find` with a `char`).
pub open spec fn find_char(s: Seq<char>, c: char) -> Option<int> {
    if exists|i: int| 0 <= i < s.len() && s[i] == c {
        Some(choose|i: int| 0 <= i < s.len() && s[i] == c && forall|j: int| 0 <= j < i ==> s[j] != c)
    } else {
        None
    }
}

/// The last position of `c` in `s`, if any (`str::rfind` with a `char`).
pub open spec fn rfind_char(s: Seq<char>, c: char) -> Option<int> {
    if exists|i: int| 0 <= i < s.len() && s[i] == c {
        Some(
            choose|i: int|
                0 <= i < s.len() && s[i] == c && forall|j: int| i < j < s.len() ==> s[j] != c,
        )
    } else {
        None
    }
}

/// `str::split_once` with a `char`: the text before and after the first `c`.
pub open spec fn split_once(s: Seq<char>, c: char) -> Option<(Seq<char>, Seq<char>)> {
    match find_char(s, c) {
        Some(i) => Some((s.take(i), s.skip(i + 1))),
        None => None,
    }
}

/// `str::rsplit_once` with a `char`: the text before and after the last `c`.
pub open spec fn rsplit_once(s: Seq<char>, c: char) -> Option<(Seq<char>, Seq<char>)> {
    match rfind_char(s, c) {
        Some(i) => Some((s.take(i), s.skip(i + 1))),
        None => None,
    }
}

/// Executable form of [`find_char`].
pub fn find(s: &Vec<char>, c: char) -> (r: Option<usize>)
    ensures
        match r {
            Some(i) => find_char(s@, c) == Some(i as int) && i < s@.len() && s@[i as int] == c,
            None => find_char(s@, c) is None,
        },
{
    let mut i: usize = 0;
    while i < s.len()
        invariant
            i <= s@.len(),
            forall|j: int| 0 <= j < i ==> s@[j] != c,
        decreases s@.len() - i,
    {
        if s[i] == c {
            let ghost k = choose|k: int|
                0 <= k < s@.len() && s@[k] == c && forall|j: int| 0 <= j < k ==> s@[j] != c;
            assert(0 <= i < s@.len() && s@[i as int] == c && forall|j: int|
                0 <= j < i ==> s@[j] != c);
            assert(k == i);
            return Some(i);
        }
        i = i + 1;
    }
    None
}

/// Executable form of [`rfind_char`].
pub fn rfind(s: &Vec<char>, c: char) -> (r: Option<usize>)
    ensures
        match r {
            Some(i) => rfind_char(s@, c) == Some(i as int) && i < s@.len() && s@[i as int] == c,
            None => rfind_char(s@, c) is None,
        },
{
    let mut i: usize = s.len();
    while i > 0
        invariant
            i <= s@.len(),
            forall|j: int| i <= j < s@.len() ==> s@[j] != c,
        decreases i,
    {
        if s[i - 1] == c {
            let ghost k = choose|k: int|
                0 <= k < s@.len() && s@[k] == c && forall|j: int| k < j < s@.len() ==> s@[j]
                    != c;
            assert(0 <= i - 1 < s@.len() && s@[i - 1] == c && forall|j: int|
                i - 1 < j < s@.len() ==> s@[j] != c);
            assert(k == i - 1);
            return Some(i - 1);
        }
        i = i - 1;
    }
    None
}

/// Executable form of [`split_once`].
pub fn split_once_at(s: &Vec<char>, c: char) -> (r: Option<(Vec<char>, Vec<char>)>)
    ensures
        match r {
            Some((a, b)) => split_once(s@, c) == Some((a@, b@)),
            None => split_once(s@, c) is None,
        },
{
    match find(s, c) {
        Some(i) => {
            let n = s.len();
            let a = slice(s, 0, i);
            let b = slice(s, i + 1, n);
            assert(a@ =~= s@.take(i as int));
            assert(b@ =~= s@.skip(i + 1));
            Some((a, b))
        },
        None => None,
    }
}

/// Executable form of [`rsplit_once`].
pub fn rsplit_once_at(s: &Vec<char>, c: char) -> (r: Option<(Vec<char>, Vec<char>)>)
    ensures
        match r {
            Some((a, b)) => rsplit_once(s@, c) == Some((a@, b@)),
            None => rsplit_once(s@, c) is None,
        },
{
    match rfind(s, c) {
        Some(i) => {
            let n = s.len();
            let a = slice(s, 0, i);
            let b = slice(s, i + 1, n);
            assert(a@ =~= s@.take(i as int));
            assert(b@ =~= s@.skip(i + 1));
            Some((a, b))
        },
        None => None,
    }
}

/// Whether `s` begins with `p`.
pub open spec fn starts_with(s: Seq<char>, p: Seq<char>) -> bool {
    p.len() <= s.len() && s.take(p.len() as int) == p
}

/// Whether `s` ends with `p`.
pub open spec fn ends_with(s: Seq<char>, p: Seq<char>) -> bool {
    p.len() <= s.len() && s.skip(s.len() - p.len()) == p
}

/// Whether `p` occurs in `s` at position `i`.
pub open spec fn occurs_at(s: Seq<char>, p: Seq<char>, i: int) -> bool {
    0 <= i && i + p.len() <= s.len() && s.subrange(i, i + p.len()) == p
}

/// Whether `p` occurs in `s` at position `i` (executable).
pub fn matches_at(s: &Vec<char>, p: &Vec<char>, i: usize) -> (r: bool)
    ensures
        r == occurs_at(s@, p@, i as int),
{
    let n = s.len();
    if i > n || p.len() > n - i {
        return false;
    }
    let mut k: usize = 0;
    while k < p.len()
        invariant
            n == s@.len(),
            i <= n,
            i + p@.len() <= n,
            k <= p@.len(),
            forall|j: int| 0 <= j < k ==> s@[i + j] == p@[j],
        decreases p@.len() - k,
    {
        if s[i + k] != p[k] {
            assert(s@.subrange(i as int, i + p@.len())[k as int] != p@[k as int]);
            return false;
        }
        k = k + 1;
    }
    assert(s@.subrange(i as int, i + p@.len()) =~= p@);
    true
}

/// Whether `s` begins with `p` (executable).
pub fn has_prefix(s: &Vec<char>, p: &Vec<char>) -> (r: bool)
    ensures
        r == starts_with(s@, p@),
{
    let r = matches_at(s, p, 0);
    assert(s@.subrange(0, p@.len() as int) =~= s@.take(p@.len() as int));
    r
}

/// Whether `s` ends with `p` (executable).
pub fn has_suffix(s: &Vec<char>, p: &Vec<char>) -> (r: bool)
    ensures
        r == ends_with(s@, p@),
{
    if p.len() > s.len() {
        return false;
    }
    let r = matches_at(s, p, s.len() - p.len());
    assert(s@.subrange(s@.len() - p@.len(), s@.len() as int) =~= s@.skip(
        s@.len() - p@.len(),
    ));
    r
}

/// Whether the two character sequences are equal (executable).
pub fn same_chars(a: &Vec<char>, b: &Vec<char>) -> (r: bool)
    ensures
        r == (a@ == b@),
{
    if a.len() != b.len() {
        return false;
    }
    let r = matches_at(a, b, 0);
    assert(a@.subrange(0, b@.len() as int) =~= a@);
    r
}

/// Whether `s` equals the literal `lit`.
pub fn is_literal(s: &Vec<char>, lit: &str) -> (r: bool)
    ensures
        r == (s@ == lit@),
{
    let l = chars_of(lit);
    same_chars(s, &l)
}

/// `str::trim_end_matches` with a `char`: `s` without all trailing `c`.
pub open spec fn strip_trailing(s: Seq<char>, c: char) -> Seq<char>
    decreases s.len(),
{
    if s.len() > 0 && s.last() == c {
        strip_trailing(s.drop_last(), c)
    } else {
        s
    }
}

/// Executable form of [`strip_trailing`].
pub fn strip_trailing_char(s: &Vec<char>, c: char) -> (r: Vec<char>)
    ensures
        r@ == strip_trailing(s@, c),
{
    let mut b: usize = s.len();
    assert(s@.take(s@.len() as int) =~= s@);
    while b > 0 && s[b - 1] == c
        invariant
            b <= s@.len(),
            strip_trailing(s@, c) == strip_trailing(s@.take(b as int), c),
        decreases b,
    {
        assert(s@.take(b as int).drop_last() =~= s@.take(b - 1));
        b = b - 1;
    }
    let r = slice(s, 0, b);
    assert(r@ =~= s@.take(b as int));
    r
}

/// `str::trim_start_matches` with a string pattern: `s` without every
/// leading repetition of `p`.
pub open spec fn strip_leading_seq(s: Seq<char>, p: Seq<char>) -> Seq<char>
    decreases s.len(),
{
    if p.len() > 0 && starts_with(s, p) {
        strip_leading_seq(s.skip(p.len() as int), p)
    } else {
        s
    }
}

/// `str::trim_end_matches` with a string pattern: `s` without every
/// trailing repetition of `p`.
pub open spec fn strip_trailing_seq(s: Seq<char>, p: Seq<char>) -> Seq<char>
    decreases s.len(),
{
    if p.len() > 0 && ends_with(s, p) {
        strip_trailing_seq(s.take(s.len() - p.len()), p)
    } else {
        s
    }
}

/// Executable form of [`strip_leading_seq`].
pub fn strip_leading_literal(s: &Vec<char>, lit: &str) -> (r: Vec<char>)
    ensures
        r@ == strip_leading_seq(s@, lit@),
{
    let p = chars_of(lit);
    if p.len() == 0 {
        return slice(s, 0, s.len());
    }
    let mut a: usize = 0;
    assert(s@.skip(0) =~= s@);
    while a < s.len() && matches_at(s, &p, a)
        invariant
            a <= s@.len(),
            p@ == lit@,
            p@.len() > 0,
            strip_leading_seq(s@, p@) == strip_leading_seq(s@.skip(a as int), p@),
        decreases s@.len() - a,
    {
        assert(s@.skip(a as int).take(p@.len() as int) =~= s@.subrange(a as int, a + p@.len()));
        assert(s@.skip(a as int).skip(p@.len() as int) =~= s@.skip(a + p@.len()));
        a = a + p.len();
    }
    proof {
        if a + p@.len() <= s@.len() {
            assert(s@.skip(a as int).take(p@.len() as int) =~= s@.subrange(
                a as int,
                a + p@.len(),
            ));
        }
    }
    let r = slice(s, a, s.len());
    assert(r@ =~= s@.skip(a as int));
    r
}

/// Executable form of [`strip_trailing_seq`].
pub fn strip_trailing_literal(s: &Vec<char>, lit: &str) -> (r: Vec<char>)
    ensures
        r@ == strip_trailing_seq(s@, lit@),
{
    let p = chars_of(lit);
    if p.len() == 0 {
        return slice(s, 0, s.len());
    }
    let mut b: usize = s.len();
    assert(s@.take(s@.len() as int) =~= s@);
    while b >= p.len() && matches_at(s, &p, b - p.len())
        invariant
            b <= s@.len(),
            p@ == lit@,
            p@.len() > 0,
            strip_trailing_seq(s@, p@) == strip_trailing_seq(s@.take(b as int), p@),
        decreases b,
    {
        assert(s@.take(b as int).skip(b - p@.len()) =~= s@.subrange(b - p@.len(), b as int));
        assert(s@.take(b as int).take(b - p@.len()) =~= s@.take(b - p@.len()));
        b = b - p.len();
    }
    proof {
        if b >= p@.len() {
            assert(s@.take(b as int).skip(b - p@.len()) =~= s@.subrange(
                b - p@.len(),
                b as int,
            ));
        }
    }
    let r = slice(s, 0, b);
    assert(r@ =~= s@.take(b as int));
    r
}

/// The first position at which `p` occurs in `s`, if any (`str::find` with a
/// string pattern).
pub open spec fn find_sub(s: Seq<char>, p: Seq<char>) -> Option<int> {
    if exists|i: int| occurs_at(s, p, i) {
        Some(choose|i: int| occurs_at(s, p, i) && forall|j: int| 0 <= j < i ==> !occurs_at(s, p, j))
    } else {
        None
    }
}

/// Executable form of [`find_sub`].
pub fn find_literal(s: &Vec<char>, p: &Vec<char>) -> (r: Option<usize>)
    ensures
        match r {
            Some(i) => find_sub(s@, p@) == Some(i as int) && occurs_at(s@, p@, i as int),
            None => find_sub(s@, p@) is None,
        },
{
    let n = s.len();
    let mut i: usize = 0;
    while i < n
        invariant
            n == s@.len(),
            i <= n,
            forall|j: int| 0 <= j < i ==> !occurs_at(s@, p@, j),
        decreases n - i,
    {
        if matches_at(s, p, i) {
            let ghost k = choose|k: int|
                occurs_at(s@, p@, k) && forall|j: int| 0 <= j < k ==> !occurs_at(s@, p@, j);
            assert(occurs_at(s@, p@, i as int) && forall|j: int|
                0 <= j < i ==> !occurs_at(s@, p@, j));
            assert(k == i);
            return Some(i);
        }
        i = i + 1;
    }
    if matches_at(s, p, n) {
        let ghost k = choose|k: int|
            occurs_at(s@, p@, k) && forall|j: int| 0 <= j < k ==> !occurs_at(s@, p@, j);
        assert(occurs_at(s@, p@, n as int) && forall|j: int|
            0 <= j < n ==> !occurs_at(s@, p@, j));
        assert(k == n);
        return Some(n);
    }
    assert forall|j: int| !occurs_at(s@, p@, j) by {
        if 0 <= j && j + p@.len() <= s@.len() && j < n {
            assert(!occurs_at(s@, p@, j));
        }
    }
    None
}

/// `str::split` with a non-empty string pattern: the pieces of `s` between
/// the occurrences of `p`, found from the left.
#[verifier::opaque]
pub open spec fn split_by(s: Seq<char>, p: Seq<char>) -> Seq<Seq<char>>
    decreases s.len(),
{
    if p.len() == 0 {
        seq![s]
    } else {
        match find_sub(s, p) {
            Some(i) => if occurs_at(s, p, i) {
                seq![s.take(i)] + split_by(s.skip(i + p.len()), p)
            } else {
                seq![s]
            },
            None => seq![s],
        }
    }
}

proof fn lemma_split_found(s: Seq<char>, p: Seq<char>, i: int)
    requires
        p.len() > 0,
        find_sub(s, p) == Some(i),
        occurs_at(s, p, i),
    ensures
        split_by(s, p) == seq![s.take(i)] + split_by(s.skip(i + p.len()), p),
{
    reveal(split_by);
}

proof fn lemma_split_none(s: Seq<char>, p: Seq<char>)
    requires
        find_sub(s, p) is None,
    ensures
        split_by(s, p) == seq![s],
{
    reveal(split_by);
}

fn split_first(rest: &Vec<char>, p: &Vec<char>) -> (r: Option<(Vec<char>, Vec<char>)>)
    requires
        p@.len() > 0,
    ensures
        match r {
            Some((head, tail)) => split_by(rest@, p@) == seq![head@] + split_by(tail@, p@)
                && tail@.len() < rest@.len(),
            None => split_by(rest@, p@) == seq![rest@],
        },
{
    match find_literal(rest, p) {
        Some(i) => {
            let head = slice(rest, 0, i);
            let n = rest.len();
            let tail = slice(rest, i + p.len(), n);
            proof {
                assert(head@ =~= rest@.take(i as int));
                assert(tail@ =~= rest@.skip(i + p@.len()));
                lemma_split_found(rest@, p@, i as int);
            }
            Some((head, tail))
        },
        None => {
            proof {
                lemma_split_none(rest@, p@);
            }
            None
        },
    }
}

/// Executable form of [`split_by`].
pub fn split_literal(s: &Vec<char>, p: &Vec<char>) -> (r: Vec<Vec<char>>)
    requires
        p@.len() > 0,
    ensures
        r@.len() == split_by(s@, p@).len(),
        forall|i: int| 0 <= i < r@.len() ==> (#[trigger] r@[i])@ == split_by(s@, p@)[i],
{
    let mut out: Vec<Vec<char>> = Vec::new();
    let ghost mut done: Seq<Seq<char>> = seq![];
    let mut rest = slice(s, 0, s.len());
    assert(rest@ =~= s@);
    loop
        invariant
            p@.len() > 0,
            out@.len() == done.len(),
            forall|k: int| 0 <= k < out@.len() ==> (#[trigger] out@[k])@ == done[k],
            split_by(s@, p@) == done + split_by(rest@, p@),
        decreases rest@.len(),
    {
        match split_first(&rest, p) {
            Some((head, tail)) => {
                proof {
                    assert(done + split_by(rest@, p@) =~= done.push(head@) + split_by(tail@, p@));
                    done = done.push(head@);
                }
                out.push(head);
                rest = tail;
            },
            None => {
                proof {
                    assert(done + split_by(rest@, p@) =~= done.push(rest@));
                    done = done.push(rest@);
                }
                out.push(rest);
                return out;
            },
        }
    }
}

/// `str::replace`: every occurrence of the non-empty `p` in `s`, found from
/// the left and without overlap, replaced by `t`.
pub open spec fn replace_all(s: Seq<char>, p: Seq<char>, t: Seq<char>) -> Seq<char>
    decreases s.len(),
{
    if s.len() == 0 {
        s
    } else if p.len() > 0 && starts_with(s, p) {
        t + replace_all(s.skip(p.len() as int), p, t)
    } else {
        seq![s[0]] + replace_all(s.skip(1), p, t)
    }
}

/// Executable form of [`replace_all`].
pub fn replace_literal(s: &Vec<char>, p: &Vec<char>, t: &Vec<char>) -> (r: Vec<char>)
    ensures
        r@ == replace_all(s@, p@, t@),
{
    let mut out: Vec<char> = Vec::new();
    let mut i: usize = 0;
    assert(s@.skip(0) =~= s@);
    while i < s.len()
        invariant
            i <= s@.len(),
            replace_all(s@, p@, t@) == out@ + replace_all(s@.skip(i as int), p@, t@),
        decreases s@.len() - i,
    {
        let ghost rest = s@.skip(i as int);
        if p.len() > 0 && matches_at(s, p, i) {
            assert(rest.take(p@.len() as int) =~= s@.subrange(i as int, i + p@.len()));
            assert(rest.skip(p@.len() as int) =~= s@.skip(i + p@.len()));
            let ghost old_out = out@;
            let mut k: usize = 0;
            while k < t.len()
                invariant
                    k <= t@.len(),
                    out@ == old_out + t@.take(k as int),
                decreases t@.len() - k,
            {
                out.push(t[k]);
                assert(t@.take(k + 1) =~= t@.take(k as int).push(t@[k as int]));
                k = k + 1;
            }
            assert(t@.take(t@.len() as int) =~= t@);
            assert(out@ + replace_all(s@.skip(i + p@.len()), p@, t@) =~= old_out + (t@
                + replace_all(s@.skip(i + p@.len()), p@, t@)));
            i = i + p.len();
        } else {
            proof {
                if p@.len() > 0 && p@.len() <= rest.len() {
                    assert(rest.take(p@.len() as int) =~= s@.subrange(i as int, i + p@.len()));
                }
            }
            assert(rest.skip(1) =~= s@.skip(i + 1));
            assert(rest[0] == s@[i as int]);
            let ghost old_out = out@;
            out.push(s[i]);
            assert(out@ + replace_all(s@.skip(i + 1), p@, t@) =~= old_out + (seq![s@[i as int]]
                + replace_all(s@.skip(i + 1), p@, t@)));
            i = i + 1;
        }
    }
    assert(s@.skip(i as int).len() == 0);
    assert(out@ + replace_all(s@.skip(i as int), p@, t@) =~= out@);
    out
}

/// Appends the characters of `src` to `out`.
pub fn append_chars(out: &mut Vec<char>, src: &Vec<char>)
    ensures
        final(out)@ == old(out)@ + src@,
{
    let mut k: usize = 0;
    while k < src.len()
        invariant
            k <= src@.len(),
            out@ == old(out)@ + src@.take(k as int),
        decreases src@.len() - k,
    {
        out.push(src[k]);
        assert(src@.take(k + 1) =~= src@.take(k as int).push(src@[k as int]));
        k = k + 1;
    }
    assert(src@.take(src@.len() as int) =~= src@);
}

/// Appends the characters of `lit` to `out`.
pub fn append_str(out: &mut Vec<char>, lit: &str)
    ensures
        final(out)@ == old(out)@ + lit@,
{
    let l = chars_of(lit);
    append_chars(out, &l);
}

/// `l` without one trailing carriage return.
pub open spec fn strip_cr(l: Seq<char>) -> Seq<char> {
    if l.len() > 0 && l.last() == '\r' {
        l.drop_last()
    } else {
        l
    }
}

/// `str::lines`: the pieces of `s` between newlines, a carriage return
/// before a newline removed, and no piece after a final newline.
pub open spec fn lines(s: Seq<char>) -> Seq<Seq<char>> {
    let segs = split_by(s, "\n"@);
    let n = if segs.len() > 0 && segs.last().len() == 0 {
        segs.len() - 1
    } else {
        segs.len() as int
    };
    Seq::new(
        n as nat,
        |i: int|
            if i < segs.len() - 1 {
                strip_cr(segs[i])
            } else {
                segs[i]
            },
    )
}

/// Trimming a text that ends in whitespace gives what trimming it without
/// that last character gives.
pub proof fn lemma_trim_drop_last_space(y: Seq<char>)
    requires
        y.len() > 0,
        is_whitespace(y.last()),
    ensures
        trim(y) == trim(y.drop_last()),
    decreases y.len(),
{
    if is_whitespace(y[0]) {
        if y.len() == 1 {
            assert(y.drop_first().len() == 0);
            assert(trim_start(y) == trim_start(y.drop_first()));
            assert(y.drop_last().len() == 0);
        } else {
            let z = y.drop_first();
            assert(z.last() == y.last());
            lemma_trim_drop_last_space(z);
            assert(y.drop_last()[0] == y[0]);
            assert(y.drop_last().drop_first() =~= z.drop_last());
            assert(trim_start(y.drop_last()) == trim_start(y.drop_last().drop_first()));
        }
    } else {
        assert(y.len() > 1);
        assert(trim_start(y) == y);
        assert(y.drop_last()[0] == y[0]);
        assert(trim_start(y.drop_last()) == y.drop_last());
        assert(trim_end(y) == trim_end(y.drop_last()));
    }
}

/// Trimming after `strip_cr` is trimming: a carriage return is whitespace.
pub proof fn lemma_trim_strip_cr(y: Seq<char>)
    ensures
        trim(strip_cr(y)) == trim(y),
{
    if y.len() > 0 && y.last() == '\r' {
        lemma_trim_drop_last_space(y);
    }
}

/// Trimming the end first changes nothing of what trimming gives.
pub proof fn lemma_trim_trim_end(v: Seq<char>)
    ensures
        trim(trim_end(v)) == trim(v),
    decreases v.len(),
{
    if v.len() > 0 && is_whitespace(v.last()) {
        lemma_trim_trim_end(v.drop_last());
        lemma_trim_drop_last_space(v);
    }
}

/// After a text `p` that does not end in whitespace, trimming the end of
/// `p + v` trims the end of `v`.
pub proof fn lemma_trim_end_after(p: Seq<char>, v: Seq<char>)
    requires
        p.len() > 0,
        !is_whitespace(p.last()),
    ensures
        trim_end(p + v) == p + trim_end(v),
    decreases v.len(),
{
    if v.len() == 0 {
        assert(p + v =~= p);
    } else if is_whitespace(v.last()) {
        assert((p + v).drop_last() =~= p + v.drop_last());
        lemma_trim_end_after(p, v.drop_last());
    } else {
        assert((p + v).last() == v.last());
    }
}

/// A newline occurs in `t` at `i` where `t` has `\n` there.
proof fn lemma_occurs_newline(t: Seq<char>, i: int)
    ensures
        occurs_at(t, "\n"@, i) <==> (0 <= i < t.len() && t[i] == '\n'),
{
    reveal_strlit("\n");
    if 0 <= i < t.len() && t[i] == '\n' {
        assert(t.subrange(i, i + 1) =~= "\n"@);
    }
    if occurs_at(t, "\n"@, i) {
        assert(t.subrange(i, i + 1)[0] == t[i]);
    }
}

/// Where `s` has a newline at `k`, it has a first one, at or before `k`.
proof fn lemma_first_newline(s: Seq<char>, k: int)
    requires
        0 <= k < s.len(),
        s[k] == '\n',
    ensures
        exists|i: int| 0 <= i <= k && s[i] == '\n' && forall|j: int| 0 <= j < i ==> s[j] != '\n',
    decreases k,
{
    if exists|j: int| 0 <= j < k && s[j] == '\n' {
        let j = choose|j: int| 0 <= j < k && s[j] == '\n';
        lemma_first_newline(s, j);
    } else {
        assert(forall|j: int| 0 <= j < k ==> s[j] != '\n');
    }
}

/// The first newline of `t` is at `i`.
proof fn lemma_find_newline(t: Seq<char>, i: int)
    requires
        0 <= i < t.len(),
        t[i] == '\n',
        forall|j: int| 0 <= j < i ==> t[j] != '\n',
    ensures
        find_sub(t, "\n"@) == Some(i),
{
    lemma_occurs_newline(t, i);
    assert forall|j: int| 0 <= j < i implies !occurs_at(t, "\n"@, j) by {
        lemma_occurs_newline(t, j);
    }
    assert(occurs_at(t, "\n"@, i) && forall|j: int| 0 <= j < i ==> !occurs_at(t, "\n"@, j));
    assert(exists|k: int| occurs_at(t, "\n"@, k));
    let c = find_sub(t, "\n"@)->0;
    assert(occurs_at(t, "\n"@, c) && forall|j: int| 0 <= j < c ==> !occurs_at(t, "\n"@, j));
    lemma_occurs_newline(t, c);
    if i < c {
        assert(!occurs_at(t, "\n"@, i));
    }
}

/// A text without newlines has none to find.
proof fn lemma_no_newline(t: Seq<char>)
    requires
        forall|j: int| 0 <= j < t.len() ==> t[j] != '\n',
    ensures
        find_sub(t, "\n"@) is None,
{
    assert forall|k: int| !occurs_at(t, "\n"@, k) by {
        lemma_occurs_newline(t, k);
    }
}

/// Split at the first newline of `t`, at `i`.
proof fn lemma_split_first_newline(t: Seq<char>, i: int)
    requires
        0 <= i < t.len(),
        t[i] == '\n',
        forall|j: int| 0 <= j < i ==> t[j] != '\n',
    ensures
        split_by(t, "\n"@) == seq![t.take(i)] + split_by(t.skip(i + 1), "\n"@),
{
    reveal_strlit("\n");
    lemma_find_newline(t, i);
    lemma_occurs_newline(t, i);
    lemma_split_found(t, "\n"@, i);
}

/// A text without newlines is one piece.
proof fn lemma_split_no_newline(t: Seq<char>)
    requires
        forall|j: int| 0 <= j < t.len() ==> t[j] != '\n',
    ensures
        split_by(t, "\n"@) == seq![t],
{
    lemma_no_newline(t);
    lemma_split_none(t, "\n"@);
}

/// Splitting `s`, a newline, and a text `l` without newlines at newlines
/// gives the pieces of `s` and then `l`.
pub proof fn lemma_split_newline_append(s: Seq<char>, l: Seq<char>)
    requires
        forall|j: int| 0 <= j < l.len() ==> l[j] != '\n',
    ensures
        split_by(s + "\n"@ + l, "\n"@) == split_by(s, "\n"@) + seq![l],
    decreases s.len(),
{
    reveal_strlit("\n");
    let nl = "\n"@;
    let x = s + nl + l;
    assert(nl =~= seq!['\n']);
    if exists|i: int| 0 <= i < s.len() && s[i] == '\n' {
        let k = choose|i: int| 0 <= i < s.len() && s[i] == '\n';
        lemma_first_newline(s, k);
        let i = choose|i: int| 0 <= i <= k && s[i] == '\n' && forall|j: int| 0 <= j < i ==> s[j] != '\n';
        assert forall|j: int| 0 <= j < i implies x[j] != '\n' by {
            assert(x[j] == s[j]);
        }
        assert(x[i] == s[i]);
        lemma_split_first_newline(x, i);
        lemma_split_first_newline(s, i);
        assert(x.take(i) =~= s.take(i));
        assert(x.skip(i + 1) =~= s.skip(i + 1) + nl + l);
        lemma_split_newline_append(s.skip(i + 1), l);
        assert(split_by(x, nl) =~= split_by(s, nl) + seq![l]);
    } else {
        lemma_split_no_newline(s);
        let n = s.len() as int;
        assert forall|j: int| 0 <= j < n implies x[j] != '\n' by {
            assert(x[j] == s[j]);
        }
        assert(x[n] == '\n');
        lemma_split_first_newline(x, n);
        assert(x.take(n) =~= s);
        assert(x.skip(n + 1) =~= l);
        lemma_split_no_newline(l);
        assert(split_by(x, nl) =~= split_by(s, nl) + seq![l]);
    }
}

/// Splitting gives at least one piece.
pub proof fn lemma_split_nonempty(s: Seq<char>, p: Seq<char>)
    ensures
        split_by(s, p).len() >= 1,
{
    reveal(split_by);
}

/// Executable form of [`lines`].
pub fn lines_of(s: &str) -> (r: Vec<Vec<char>>)
    ensures
        r@.len() == lines(s@).len(),
        forall|i: int| 0 <= i < r@.len() ==> (#[trigger] r@[i])@ == lines(s@)[i],
{
    let all = chars_of(s);
    let nl = chars_of("\n");
    proof {
        reveal_strlit("\n");
    }
    let segs = split_literal(&all, &nl);
    let ghost sp = split_by(s@, "\n"@);
    let count: usize = if segs.len() > 0 && segs[segs.len() - 1].len() == 0 {
        segs.len() - 1
    } else {
        segs.len()
    };
    let mut out: Vec<Vec<char>> = Vec::new();
    let mut i: usize = 0;
    while i < count
        invariant
            count <= segs@.len(),
            segs@.len() == sp.len(),
            sp == split_by(s@, "\n"@),
            forall|k: int| 0 <= k < segs@.len() ==> (#[trigger] segs@[k])@ == sp[k],
            count == lines(s@).len(),
            i <= count,
            out@.len() == i,
            forall|k: int| 0 <= k < i ==> (#[trigger] out@[k])@ == lines(s@)[k],
        decreases count - i,
    {
        let seg = &segs[i];
        let line = if i + 1 < segs.len() && seg.len() > 0 && seg[seg.len() - 1] == '\r' {
            slice(seg, 0, seg.len() - 1)
        } else {
            slice(seg, 0, seg.len())
        };
        proof {
            assert(seg@ == sp[i as int]);
            if i + 1 < segs@.len() && seg@.len() > 0 && seg@.last() == '\r' {
                assert(line@ =~= seg@.drop_last());
            } else {
                assert(line@ =~= seg@);
            }
        }
        out.push(line);
        i = i + 1;
    }
    out
}

/// `Path::join` on text: a name that starts with `/` replaces the base,
/// otherwise the two are put together with one `/` between them.
pub open spec fn path_join(base: Seq<char>, name: Seq<char>) -> Seq<char> {
    if starts_with(name, "/"@) || base.len() == 0 {
        name
    } else if ends_with(base, "/"@) {
        base + name
    } else {
        base + "/"@ + name
    }
}

/// The directory that contains `path`: the text before its last `/` (`/`
/// itself for a path right under the root, nothing without a `/`).
pub open spec fn path_parent(path: Seq<char>) -> Seq<char> {
    match rfind_char(path, '/') {
        Some(i) => if i == 0 {
            "/"@
        } else {
            path.take(i)
        },
        None => seq![],
    }
}

/// Executable form of [`path_join`].
pub fn join_path(base: &str, name: &str) -> (r: String)
    ensures
        r@ == path_join(base@, name@),
{
    let b = chars_of(base);
    let n = chars_of(name);
    let slash = chars_of("/");
    if has_prefix(&n, &slash) || b.len() == 0 {
        return name.to_owned();
    }
    let mut out = b;
    if !has_suffix(&out, &slash) {
        append_str(&mut out, "/");
    }
    append_chars(&mut out, &n);
    string_of(&out)
}

/// Executable form of [`path_parent`].
pub fn parent_path(path: &str) -> (r: String)
    ensures
        r@ == path_parent(path@),
{
    let p = chars_of(path);
    match rfind(&p, '/') {
        Some(i) => {
            if i == 0 {
                "/".to_owned()
            } else {
                let r = slice(&p, 0, i);
                assert(r@ =~= p@.take(i as int));
                string_of(&r)
            }
        },
        None => String::new(),
    }
}

/// `a` comes before `b` in the order of Rust strings (code point by code
/// point, a prefix first).
pub open spec fn seq_lt(a: Seq<char>, b: Seq<char>) -> bool
    decreases a.len(),
{
    if a.len() == 0 {
        b.len() > 0
    } else if b.len() == 0 {
        false
    } else if (a[0] as int) < (b[0] as int) {
        true
    } else if a[0] == b[0] {
        seq_lt(a.drop_first(), b.drop_first())
    } else {
        false
    }
}

/// The order of strings is transitive.
pub proof fn lemma_seq_lt_transitive(a: Seq<char>, b: Seq<char>, c: Seq<char>)
    requires
        seq_lt(a, b),
        seq_lt(b, c),
    ensures
        seq_lt(a, c),
    decreases a.len(),
{
    if a.len() > 0 && b.len() > 0 && c.len() > 0 && a[0] == b[0] && b[0] == c[0] {
        lemma_seq_lt_transitive(a.drop_first(), b.drop_first(), c.drop_first());
    }
}

/// No string comes before itself, and of two different strings one comes
/// first.
pub proof fn lemma_seq_lt_total(a: Seq<char>, b: Seq<char>)
    ensures
        !(seq_lt(a, b) && seq_lt(b, a)),
        a != b ==> seq_lt(a, b) || seq_lt(b, a),
        !seq_lt(a, a),
    decreases a.len(),
{
    if a.len() > 0 {
        lemma_seq_lt_total(a.drop_first(), a.drop_first());
    }
    if a.len() > 0 && b.len() > 0 {
        lemma_seq_lt_total(a.drop_first(), b.drop_first());
        if a[0] == b[0] && a != b {
            assert(a =~= seq![a[0]] + a.drop_first());
            assert(b =~= seq![b[0]] + b.drop_first());
        }
    } else if a.len() == 0 && b.len() == 0 {
        assert(a =~= b);
    }
}

/// Executable form of [`seq_lt`].
pub fn chars_lt(a: &Vec<char>, b: &Vec<char>) -> (r: bool)
    ensures
        r == seq_lt(a@, b@),
{
    let mut i: usize = 0;
    assert(a@.skip(0) =~= a@);
    assert(b@.skip(0) =~= b@);
    loop
        invariant
            i <= a@.len(),
            i <= b@.len(),
            seq_lt(a@, b@) == seq_lt(a@.skip(i as int), b@.skip(i as int)),
        decreases a@.len() - i,
    {
        let ghost sa = a@.skip(i as int);
        let ghost sb = b@.skip(i as int);
        if i == a.len() {
            return i < b.len();
        }
        if i == b.len() {
            return false;
        }
        assert(sa[0] == a@[i as int] && sb[0] == b@[i as int]);
        if a[i] < b[i] {
            return true;
        }
        if a[i] != b[i] {
            return false;
        }
        assert(sa.drop_first() =~= a@.skip(i + 1));
        assert(sb.drop_first() =~= b@.skip(i + 1));
        i = i + 1;
    }
}

/// `s` in lower case, as `str::to_lowercase` gives it.
pub uninterp spec fn lowercase_of(s: Seq<char>) -> Seq<char>;

/// `str::to_lowercase`.
///
/// Trusted: the result is the name [`lowercase_of`] of the argument.
#[verifier::external_body]
pub(crate) fn to_lowercase(s: &str) -> (r: String)
    ensures
        r@ == lowercase_of(s@),
{
    s.to_lowercase()
}

} // verus!
