//! Character-level helpers on strings, each stated over the string's view
//! as a sequence of chars.

use vstd::prelude::*;

verus! {

/// True when `needle` occurs in `hay` as a contiguous block of chars.
pub open spec fn is_infix(needle: Seq<char>, hay: Seq<char>) -> bool {
    exists|i: int|
        0 <= i && i + needle.len() <= hay.len() && #[trigger] hay.subrange(i, i + needle.len())
            == needle
}

/// Compares two strings char by char.
pub fn chars_equal(a: &str, b: &str) -> (res: bool)
    ensures
        res == (a@ == b@),
{
    let n = a.unicode_len();
    if n != b.unicode_len() {
        return false;
    }
    let mut i: usize = 0;
    while i < n
        invariant
            n == a@.len(),
            n == b@.len(),
            i <= n,
            forall|j: int| 0 <= j < i ==> a@[j] == b@[j],
        decreases n - i,
    {
        if a.get_char(i) != b.get_char(i) {
            return false;
        }
        i = i + 1;
    }
    assert(a@ =~= b@);
    true
}

/// Position of the first occurrence of `c` in `s`.
pub fn first_index_of(s: &str, c: char) -> (res: Option<usize>)
    ensures
        match res {
            Some(i) => s@.index_of_first(c) == Some(i as int),
            None => s@.index_of_first(c) is None,
        },
{
    proof {
        s@.index_of_first_ensures(c);
    }
    let n = s.unicode_len();
    let mut i: usize = 0;
    while i < n
        invariant
            n == s@.len(),
            i <= n,
            forall|j: int| 0 <= j < i ==> s@[j] != c,
        decreases n - i,
    {
        if s.get_char(i) == c {
            proof {
                s@.index_of_first_ensures(c);
            }
            return Some(i);
        }
        i = i + 1;
    }
    None
}

/// Position of the last occurrence of `c` in `s`.
pub fn last_index_of(s: &str, c: char) -> (res: Option<usize>)
    ensures
        match res {
            Some(i) => s@.index_of_last(c) == Some(i as int),
            None => s@.index_of_last(c) is None,
        },
{
    proof {
        s@.index_of_last_ensures(c);
    }
    let n = s.unicode_len();
    let mut i: usize = n;
    while i > 0
        invariant
            n == s@.len(),
            i <= n,
            forall|j: int| i <= j < n ==> s@[j] != c,
        decreases i,
    {
        if s.get_char(i - 1) == c {
            proof {
                s@.index_of_last_ensures(c);
            }
            return Some(i - 1);
        }
        i = i - 1;
    }
    None
}

/// Whether `needle` occurs in `hay`.
pub fn contains_str(hay: &str, needle: &str) -> (res: bool)
    ensures
        res == is_infix(needle@, hay@),
{
    let n = hay.unicode_len();
    let m = needle.unicode_len();
    if m > n {
        assert(!is_infix(needle@, hay@));
        return false;
    }
    if m == 0 {
        assert(hay@.subrange(0int, 0int + needle@.len()) =~= needle@);
        return true;
    }
    let mut i: usize = 0;
    while i <= n - m
        invariant
            n == hay@.len(),
            m == needle@.len(),
            0 < m <= n,
            i <= n - m + 1,
            forall|k: int| 0 <= k < i ==> #[trigger] hay@.subrange(k, k + m) != needle@,
        decreases n - m + 1 - i,
    {
        let mut j: usize = 0;
        let mut same = true;
        while j < m
            invariant
                n == hay@.len(),
                m == needle@.len(),
                i + m <= n,
                j <= m,
                same ==> forall|t: int| 0 <= t < j ==> hay@[i + t] == needle@[t],
                !same ==> hay@.subrange(i as int, i + m) != needle@,
            decreases m - j,
        {
            if same && hay.get_char(i + j) != needle.get_char(j) {
                same = false;
                assert(hay@.subrange(i as int, i + m)[j as int] != needle@[j as int]);
            }
            j = j + 1;
        }
        if same {
            assert(hay@.subrange(i as int, i + m) =~= needle@);
            return true;
        }
        i = i + 1;
    }
    assert forall|k: int| 0 <= k && k + needle@.len() <= hay@.len() implies #[trigger] hay@.subrange(
        k,
        k + needle@.len(),
    ) != needle@ by {}
    false
}

/// Unicode `White_Space`, the chars that `str::trim` removes.
pub open spec fn is_white_space(c: char) -> bool {
    ||| c == ' '
    ||| ('\u{9}' <= c && c <= '\u{d}')
    ||| c == '\u{85}'
    ||| c == '\u{a0}'
    ||| c == '\u{1680}'
    ||| ('\u{2000}' <= c && c <= '\u{200a}')
    ||| c == '\u{2028}'
    ||| c == '\u{2029}'
    ||| c == '\u{202f}'
    ||| c == '\u{205f}'
    ||| c == '\u{3000}'
}

/// `s` without its leading and trailing white space: `s[start..end]` where
/// `start` is the first char that is not white space and `end` is one past
/// the last (empty when every char is white space).
pub open spec fn trimmed(s: Seq<char>) -> Seq<char> {
    if exists|i: int| 0 <= i < s.len() && !is_white_space(#[trigger] s[i]) {
        let start = choose|i: int|
            0 <= i < s.len() && !is_white_space(s[i]) && forall|j: int|
                0 <= j < i ==> is_white_space(#[trigger] s[j]);
        let last = choose|l: int|
            0 <= l < s.len() && !is_white_space(s[l]) && forall|j: int|
                l < j < s.len() ==> is_white_space(#[trigger] s[j]);
        s.subrange(start, last + 1)
    } else {
        Seq::empty()
    }
}

fn is_white_space_char(c: char) -> (res: bool)
    ensures
        res == is_white_space(c),
{
    c == ' ' || ('\u{9}' <= c && c <= '\u{d}') || c == '\u{85}' || c == '\u{a0}' || c
        == '\u{1680}' || ('\u{2000}' <= c && c <= '\u{200a}') || c == '\u{2028}' || c
        == '\u{2029}' || c == '\u{202f}' || c == '\u{205f}' || c == '\u{3000}'
}

/// Removes leading and trailing white space, as `str::trim` does.
pub fn trim(s: &str) -> (res: &str)
    ensures
        res@ == trimmed(s@),
{
    let n = s.unicode_len();
    let mut start: usize = 0;
    while start < n && is_white_space_char(s.get_char(start))
        invariant
            n == s@.len(),
            start <= n,
            forall|j: int| 0 <= j < start ==> is_white_space(#[trigger] s@[j]),
        decreases n - start,
    {
        start = start + 1;
    }
    if start == n {
        assert(!exists|i: int| 0 <= i < s@.len() && !is_white_space(#[trigger] s@[i]));
        let r = s.substring_char(0, 0);
        assert(r@ =~= Seq::<char>::empty());
        return r;
    }
    let mut end: usize = n;
    while end > start && is_white_space_char(s.get_char(end - 1))
        invariant
            n == s@.len(),
            start < n,
            !is_white_space(s@[start as int]),
            start < end <= n,
            forall|j: int| end <= j < n ==> is_white_space(#[trigger] s@[j]),
        decreases end,
    {
        end = end - 1;
    }
    let r = s.substring_char(start, end);
    proof {
        let sq = s@;
        assert(!is_white_space(sq[start as int]));
        let a = choose|i: int|
            0 <= i < sq.len() && !is_white_space(sq[i]) && forall|j: int|
                0 <= j < i ==> is_white_space(#[trigger] sq[j]);
        let b = choose|l: int|
            0 <= l < sq.len() && !is_white_space(sq[l]) && forall|j: int|
                l < j < sq.len() ==> is_white_space(#[trigger] sq[j]);
        assert(0 <= start < sq.len() && !is_white_space(sq[start as int]) && forall|j: int|
            0 <= j < start ==> is_white_space(#[trigger] sq[j]));
        assert(0 <= end - 1 < sq.len() && !is_white_space(sq[end - 1]) && forall|j: int|
            end - 1 < j < sq.len() ==> is_white_space(#[trigger] sq[j]));
        if a < start {
        }
        if a > start {
            assert(is_white_space(sq[start as int]));
        }
        if b < end - 1 {
            assert(is_white_space(sq[end - 1]));
        }
        if b > end - 1 {
            assert(is_white_space(sq[b]));
        }
        assert(trimmed(sq) == sq.subrange(start as int, end as int));
    }
    r
}

/// Spaces, tabs, line feeds and carriage returns are white space; letters
/// and digits are not.
pub proof fn lemma_white_space_chars(c: char)
    ensures
        is_white_space(' ') && is_white_space('\t') && is_white_space('\n') && is_white_space(
            '\r',
        ),
        ('0' <= c && c <= '9') || ('a' <= c && c <= 'z') || ('A' <= c && c <= 'Z')
            ==> !is_white_space(c),
{
}

/// Trimming keeps a middle part of the text: it is empty or starts and ends
/// with a char that is not white space, and only white space is cut off
/// around it. Trimming twice is trimming once.
pub proof fn lemma_trimmed_shape(s: Seq<char>)
    ensures
        exists|i: int, j: int|
            0 <= i <= j <= s.len() && #[trigger] s.subrange(i, j) == trimmed(s) && (forall|t: int|
                0 <= t < i ==> is_white_space(#[trigger] s[t])) && (forall|t: int|
                j <= t < s.len() ==> is_white_space(#[trigger] s[t])),
        trimmed(s).len() > 0 ==> !is_white_space(trimmed(s)[0]) && !is_white_space(
            trimmed(s).last(),
        ),
        trimmed(trimmed(s)) == trimmed(s),
{
    if exists|i: int| 0 <= i < s.len() && !is_white_space(#[trigger] s[i]) {
        let start = choose|i: int|
            0 <= i < s.len() && !is_white_space(s[i]) && forall|j: int|
                0 <= j < i ==> is_white_space(#[trigger] s[j]);
        let last = choose|l: int|
            0 <= l < s.len() && !is_white_space(s[l]) && forall|j: int|
                l < j < s.len() ==> is_white_space(#[trigger] s[j]);
        lemma_first_non_white(s);
        lemma_last_non_white(s);
        assert(start <= last) by {
            if start > last {
                assert(is_white_space(s[start]));
            }
        }
        let t = trimmed(s);
        assert(t == s.subrange(start, last + 1));
        assert(s.subrange(start, last + 1) == trimmed(s));
        assert(t[0] == s[start]);
        assert(t.last() == s[last]);
        // trimming the trimmed text cuts nothing more
        assert(!is_white_space(t[0]));
        lemma_first_non_white(t);
        lemma_last_non_white(t);
        let st = choose|i: int|
            0 <= i < t.len() && !is_white_space(t[i]) && forall|j: int|
                0 <= j < i ==> is_white_space(#[trigger] t[j]);
        let lt = choose|l: int|
            0 <= l < t.len() && !is_white_space(t[l]) && forall|j: int|
                l < j < t.len() ==> is_white_space(#[trigger] t[j]);
        if st > 0 {
            assert(is_white_space(t[0]));
        }
        if lt < t.len() - 1 {
            assert(is_white_space(t[t.len() - 1]));
        }
        assert(t.subrange(st, lt + 1) =~= t);
    } else {
        assert(s.subrange(s.len() as int, s.len() as int) =~= trimmed(s));
        assert(trimmed(s) =~= Seq::<char>::empty());
        assert(trimmed(Seq::<char>::empty()) =~= Seq::<char>::empty());
    }
}

proof fn lemma_first_non_white(s: Seq<char>)
    requires
        exists|i: int| 0 <= i < s.len() && !is_white_space(#[trigger] s[i]),
    ensures
        exists|i: int|
            0 <= i < s.len() && !is_white_space(s[i]) && forall|j: int|
                0 <= j < i ==> is_white_space(#[trigger] s[j]),
    decreases s.len(),
{
    if !is_white_space(s[0]) {
        assert(0 <= 0 < s.len() && !is_white_space(s[0]) && forall|j: int|
            0 <= j < 0 ==> is_white_space(#[trigger] s[j]));
    } else {
        let w = choose|i: int| 0 <= i < s.len() && !is_white_space(#[trigger] s[i]);
        let r = s.drop_first();
        assert(r[w - 1] == s[w]);
        lemma_first_non_white(r);
        let i = choose|i: int|
            0 <= i < r.len() && !is_white_space(r[i]) && forall|j: int|
                0 <= j < i ==> is_white_space(#[trigger] r[j]);
        assert(s[i + 1] == r[i]);
        assert forall|j: int| 0 <= j < i + 1 implies is_white_space(#[trigger] s[j]) by {
            if j > 0 {
                assert(s[j] == r[j - 1]);
            }
        }
    }
}

#[verifier::rlimit(40)]
proof fn lemma_last_non_white(s: Seq<char>)
    requires
        exists|i: int| 0 <= i < s.len() && !is_white_space(#[trigger] s[i]),
    ensures
        exists|l: int|
            0 <= l < s.len() && !is_white_space(s[l]) && forall|j: int|
                l < j < s.len() ==> is_white_space(#[trigger] s[j]),
    decreases s.len(),
{
    let n = s.len() - 1;
    if !is_white_space(s[n]) {
        assert(0 <= n < s.len() && !is_white_space(s[n]) && forall|j: int|
            n < j < s.len() ==> is_white_space(#[trigger] s[j]));
    } else {
        let w = choose|i: int| 0 <= i < s.len() && !is_white_space(#[trigger] s[i]);
        let r = s.drop_last();
        assert(r[w] == s[w]);
        lemma_last_non_white(r);
        let l = choose|l: int|
            0 <= l < r.len() && !is_white_space(r[l]) && forall|j: int|
                l < j < r.len() ==> is_white_space(#[trigger] r[j]);
        assert(s[l] == r[l]);
        assert forall|j: int| l < j < s.len() implies is_white_space(#[trigger] s[j]) by {
            if j < n {
                assert(s[j] == r[j]);
            }
        }
        assert(0 <= l < s.len() && !is_white_space(s[l]) && forall|j: int|
            l < j < s.len() ==> is_white_space(#[trigger] s[j]));
    }
}

} // verus!
