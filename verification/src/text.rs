//! Character-sequence searching: single-character and substring occurrence.

use vstd::prelude::*;

verus! {

/// True when `sub` occurs in `s` starting at index `i`.
pub open spec fn match_at(s: Seq<char>, sub: Seq<char>, i: int) -> bool {
    0 <= i && i + sub.len() <= s.len() && forall|j: int|
        0 <= j < sub.len() ==> s[i + j] == sub[j]
}

/// True when `sub` occurs somewhere in `s`.
pub open spec fn contains_seq(s: Seq<char>, sub: Seq<char>) -> bool {
    exists|i: int| match_at(s, sub, i)
}

/// True when the character `c` occurs in `s`.
pub open spec fn has_char(s: Seq<char>, c: char) -> bool {
    exists|i: int| 0 <= i < s.len() && s[i] == c
}

/// Index of the first occurrence of `c` in `s`; equals `s.len()` when `c`
/// does not occur (see `lemma_first_index`).
pub open spec fn first_index(s: Seq<char>, c: char) -> int
    decreases s.len(),
{
    if s.len() == 0 {
        0
    } else if s[0] == c {
        0
    } else {
        1 + first_index(s.drop_first(), c)
    }
}

/// `first_index` really is the index of the first occurrence.
pub proof fn lemma_first_index(s: Seq<char>, c: char)
    ensures
        !has_char(s, c) ==> first_index(s, c) == s.len(),
        has_char(s, c) ==> 0 <= first_index(s, c) < s.len() && s[first_index(s, c)] == c
            && forall|j: int| 0 <= j < first_index(s, c) ==> s[j] != c,
    decreases s.len(),
{
    if s.len() == 0 {
        assert(!has_char(s, c));
    } else if s[0] == c {
        assert(has_char(s, c));
    } else {
        let t = s.drop_first();
        lemma_first_index(t, c);
        assert(forall|j: int| 0 <= j < t.len() ==> t[j] == s[j + 1]);
        if has_char(s, c) {
            let w = choose|i: int| 0 <= i < s.len() && s[i] == c;
            assert(t[w - 1] == c);
            assert(has_char(t, c));
        }
        if has_char(t, c) {
            let w = choose|i: int| 0 <= i < t.len() && t[i] == c;
            assert(s[w + 1] == c);
            assert(has_char(s, c));
            let fi = first_index(t, c);
            assert(first_index(s, c) == 1 + fi);
            assert forall|j: int| 0 <= j < 1 + fi implies s[j] != c by {
                if j > 0 {
                    assert(t[j - 1] == s[j]);
                    assert(t[j - 1] != c);
                }
            }
        }
    }
}

/// Splits `s` at every occurrence of `sep`; separators are dropped, empty
/// pieces are kept, and a string without `sep` yields itself as the only piece.
pub open spec fn split_on(s: Seq<char>, sep: char) -> Seq<Seq<char>>
    decreases s.len(),
{
    if s.len() == 0 {
        seq![s]
    } else if s[0] == sep {
        seq![Seq::<char>::empty()] + split_on(s.drop_first(), sep)
    } else {
        let rest = split_on(s.drop_first(), sep);
        seq![seq![s[0]] + rest[0]] + rest.drop_first()
    }
}

/// A split always yields at least one piece.
pub proof fn lemma_split_on_len(s: Seq<char>, sep: char)
    ensures
        split_on(s, sep).len() >= 1,
    decreases s.len(),
{
    if s.len() != 0 {
        lemma_split_on_len(s.drop_first(), sep);
    }
}

/// Splitting a string in which `sep` does not occur yields that string alone.
pub proof fn lemma_split_on_none(s: Seq<char>, sep: char)
    requires
        !has_char(s, sep),
    ensures
        split_on(s, sep) == seq![s],
    decreases s.len(),
{
    if s.len() == 0 {
    } else {
        let t = s.drop_first();
        assert(s[0] != sep);
        assert forall|j: int| 0 <= j < t.len() implies t[j] != sep by {
            assert(t[j] == s[j + 1]);
            assert(!(0 <= j + 1 < s.len() && s[j + 1] == sep));
        }
        lemma_split_on_none(t, sep);
        assert(split_on(s, sep) =~~= seq![seq![s[0]] + t]);
        assert(seq![s[0]] + t =~= s);
        assert(split_on(s, sep) =~~= seq![s]);
    }
}

/// Splitting at the first occurrence of `sep` peels off the prefix before it.
pub proof fn lemma_split_on_first(s: Seq<char>, sep: char, i: int)
    requires
        0 <= i < s.len(),
        s[i] == sep,
        forall|j: int| 0 <= j < i ==> s[j] != sep,
    ensures
        split_on(s, sep) == seq![s.subrange(0, i)] + split_on(
            s.subrange(i + 1, s.len() as int),
            sep,
        ),
    decreases i,
{
    if i == 0 {
        assert(s[0] == sep);
        assert(s.subrange(0, 0) =~= Seq::<char>::empty());
        assert(s.subrange(1, s.len() as int) =~= s.drop_first());
        assert(split_on(s, sep) =~~= seq![s.subrange(0, 0)] + split_on(
            s.subrange(1, s.len() as int),
            sep,
        ));
    } else {
        let t = s.drop_first();
        assert(s[0] != sep);
        assert(t[i - 1] == sep);
        assert forall|j: int| 0 <= j < i - 1 implies t[j] != sep by {
            assert(t[j] == s[j + 1]);
        }
        lemma_split_on_first(t, sep, i - 1);
        let rest = split_on(t, sep);
        assert(rest == seq![t.subrange(0, i - 1)] + split_on(
            t.subrange(i, t.len() as int),
            sep,
        ));
        lemma_split_on_len(t.subrange(i, t.len() as int), sep);
        assert(rest[0] == t.subrange(0, i - 1));
        assert(seq![s[0]] + t.subrange(0, i - 1) =~= s.subrange(0, i));
        assert(rest.drop_first() =~= split_on(t.subrange(i, t.len() as int), sep));
        assert(t.subrange(i, t.len() as int) =~= s.subrange(i + 1, s.len() as int));
        assert(split_on(s, sep) =~~= seq![s.subrange(0, i)] + split_on(
            s.subrange(i + 1, s.len() as int),
            sep,
        ));
    }
}

/// True when two adjacent occurrences of `c` stand somewhere in `s`.
pub open spec fn has_double(s: Seq<char>, c: char) -> bool {
    exists|i: int| 0 <= i && i + 1 < s.len() && #[trigger] s[i] == c && s[i + 1] == c
}

/// Index of the first adjacent pair of `c` in `s` (see `lemma_first_double`).
pub open spec fn first_double(s: Seq<char>, c: char) -> int
    decreases s.len(),
{
    if s.len() < 2 {
        0
    } else if s[0] == c && s[1] == c {
        0
    } else {
        1 + first_double(s.drop_first(), c)
    }
}

/// `first_double` really is the index of the first adjacent pair.
pub proof fn lemma_first_double(s: Seq<char>, c: char)
    ensures
        has_double(s, c) ==> {
            let i = first_double(s, c);
            0 <= i && i + 1 < s.len() && s[i] == c && s[i + 1] == c && forall|j: int|
                0 <= j < i ==> !(#[trigger] s[j] == c && s[j + 1] == c)
        },
    decreases s.len(),
{
    if s.len() < 2 {
        assert(!has_double(s, c));
    } else if s[0] == c && s[1] == c {
    } else {
        let t = s.drop_first();
        lemma_first_double(t, c);
        assert(forall|j: int| 0 <= j < t.len() ==> t[j] == s[j + 1]);
        if has_double(s, c) {
            let w = choose|i: int| 0 <= i && i + 1 < s.len() && #[trigger] s[i] == c && s[i + 1] == c;
            assert(w >= 1);
            assert(t[w - 1] == c && t[w] == c);
            assert(has_double(t, c));
            let fi = first_double(t, c);
            assert(first_double(s, c) == 1 + fi);
            assert forall|j: int| 0 <= j < 1 + fi implies !(#[trigger] s[j] == c && s[j + 1] == c) by {
                if j > 0 {
                    assert(t[j - 1] == s[j] && t[j] == s[j + 1]);
                }
            }
        }
    }
}

/// Finds the first occurrence of `c` in `s` within the index range
/// `[from, to)`.
pub fn find_char_in(s: &str, from: usize, to: usize, c: char) -> (r: Option<usize>)
    requires
        from <= to <= s@.len(),
    ensures
        match r {
            Some(i) => from <= i < to && s@[i as int] == c && forall|j: int|
                from <= j < i ==> s@[j] != c,
            None => forall|j: int| from <= j < to ==> s@[j] != c,
        },
{
    let mut i: usize = from;
    while i < to
        invariant
            from <= i <= to <= s@.len(),
            forall|j: int| from <= j < i ==> s@[j] != c,
        decreases to - i,
    {
        if s.get_char(i) == c {
            return Some(i);
        }
        i += 1;
    }
    None
}

/// Finds the first adjacent pair of `c` in `s`, pinned to `first_double`.
pub fn find_double(s: &str, c: char) -> (r: Option<usize>)
    ensures
        match r {
            Some(i) => has_double(s@, c) && i == first_double(s@, c),
            None => !has_double(s@, c),
        },
{
    let n = s.unicode_len();
    if n < 2 {
        assert(!has_double(s@, c));
        return None;
    }
    let mut i: usize = 0;
    while i < n - 1
        invariant
            0 <= i <= n,
            n == s@.len(),
            n >= 2,
            forall|j: int| 0 <= j < i ==> !(#[trigger] s@[j] == c && s@[j + 1] == c),
        decreases n - i,
    {
        if s.get_char(i) == c && s.get_char(i + 1) == c {
            proof {
                lemma_first_double(s@, c);
                assert(has_double(s@, c));
                let fd = first_double(s@, c);
                if fd < i {
                    assert(s@[fd] == c && s@[fd + 1] == c);
                    assert(false);
                }
                if fd > i {
                    assert(!(s@[i as int] == c && s@[i + 1] == c));
                    assert(false);
                }
            }
            return Some(i);
        }
        i += 1;
    }
    assert(!has_double(s@, c));
    None
}

/// Finds the first occurrence of `c` anywhere in `s`, pinned to `first_index`.
pub fn find_char(s: &str, c: char) -> (r: Option<usize>)
    ensures
        match r {
            Some(i) => has_char(s@, c) && i == first_index(s@, c),
            None => !has_char(s@, c) && first_index(s@, c) == s@.len(),
        },
{
    let n = s.unicode_len();
    let r = find_char_in(s, 0, n, c);
    proof {
        lemma_first_index(s@, c);
        match r {
            Some(i) => {
                assert(s@[i as int] == c);
                assert(has_char(s@, c));
                let fi = first_index(s@, c);
                if fi < i {
                    assert(s@[fi] == c);
                    assert(false);
                }
                if fi > i {
                    assert(s@[i as int] != c);
                    assert(false);
                }
            },
            None => {
                assert(!has_char(s@, c));
            },
        }
    }
    r
}

/// Decides whether `sub` occurs in `s` starting at index `i`.
fn matches_at(s: &str, sub: &str, i: usize) -> (r: bool)
    requires
        i + sub@.len() <= s@.len(),
    ensures
        r == match_at(s@, sub@, i as int),
{
    let n = s.unicode_len();
    let m = sub.unicode_len();
    let mut j: usize = 0;
    while j < m
        invariant
            j <= m,
            n == s@.len(),
            m == sub@.len(),
            i + m <= n,
            forall|l: int| 0 <= l < j ==> s@[i + l] == sub@[l],
        decreases m - j,
    {
        if s.get_char(i + j) != sub.get_char(j) {
            assert(!match_at(s@, sub@, i as int));
            return false;
        }
        j += 1;
    }
    true
}

/// Decides whether `sub` occurs anywhere in `s`.
pub fn contains_sub(s: &str, sub: &str) -> (r: bool)
    ensures
        r == contains_seq(s@, sub@),
{
    let n = s.unicode_len();
    let m = sub.unicode_len();
    if m > n {
        assert(forall|i: int| !match_at(s@, sub@, i));
        return false;
    }
    let mut i: usize = 0;
    while i <= n - m
        invariant
            m <= n,
            n == s@.len(),
            m == sub@.len(),
            i <= n - m + 1,
            forall|k: int| 0 <= k < i ==> !match_at(s@, sub@, k),
        decreases n + 1 - m - i,
    {
        if matches_at(s, sub, i) {
            return true;
        }
        i += 1;
    }
    assert(forall|k: int| !match_at(s@, sub@, k));
    false
}

} // verus!
