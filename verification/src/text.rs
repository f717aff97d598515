//! Character-level helpers on strings, each proved against a spec over `Seq<char>`.

use vstd::prelude::*;

verus! {

/// An optional string by its characters.
pub open spec fn text_option(o: Option<String>) -> Option<Seq<char>> {
    match o {
        Some(s) => Some(s@),
        None => None,
    }
}

/// The text of an optional string slice.
pub open spec fn text_option_str(o: Option<&str>) -> Option<Seq<char>> {
    match o {
        Some(s) => Some(s@),
        None => None,
    }
}

/// The pieces of `s` between occurrences of `sep`, as `str::split` with a `char` pattern
/// yields them: always at least one piece, and `n` separators give `n + 1` pieces.
pub open spec fn split_on(s: Seq<char>, sep: char) -> Seq<Seq<char>>
    decreases s.len(),
{
    if s.len() == 0 {
        seq![Seq::<char>::empty()]
    } else {
        let rest = split_on(s.drop_last(), sep);
        if s.last() == sep {
            rest.push(Seq::<char>::empty())
        } else {
            rest.update(rest.len() - 1, rest.last().push(s.last()))
        }
    }
}

pub proof fn lemma_split_nonempty(s: Seq<char>, sep: char)
    ensures
        split_on(s, sep).len() >= 1,
    decreases s.len(),
{
    if s.len() > 0 {
        lemma_split_nonempty(s.drop_last(), sep);
    }
}

/// The last piece of `s` split on `sep`: everything after the last `sep`, or all of `s`.
pub open spec fn last_piece(s: Seq<char>, sep: char) -> Seq<char> {
    split_on(s, sep).last()
}

/// Splits `s` on `sep`; the result's views are exactly `split_on(s@, sep)`.
pub fn split_char(s: &str, sep: char) -> (parts: Vec<String>)
    ensures
        parts@.map_values(|p: String| p@) == split_on(s@, sep),
{
    let n = s.unicode_len();
    let mut parts: Vec<String> = Vec::new();
    let mut start: usize = 0;
    let mut i: usize = 0;
    proof {
        assert(s@.take(0) =~= Seq::<char>::empty());
    }
    while i < n
        invariant
            n == s@.len(),
            start <= i <= n,
            split_on(s@.take(i as int), sep) =~= parts@.map_values(|p: String| p@).push(
                s@.subrange(start as int, i as int),
            ),
        decreases n - i,
    {
        let c = s.get_char(i);
        proof {
            assert(s@.take(i + 1).drop_last() =~= s@.take(i as int));
            assert(s@.take(i + 1).last() == c);
        }
        if c == sep {
            let piece = s.substring_char(start, i);
            let ghost old_parts = parts@;
            parts.push(String::from_str(piece));
            proof {
                assert(parts@.map_values(|p: String| p@) =~= old_parts.map_values(|p: String| p@).push(piece@));
                assert(s@.subrange((i + 1) as int, (i + 1) as int) =~= Seq::<char>::empty());
            }
            start = i + 1;
        } else {
            proof {
                assert(s@.subrange(start as int, i + 1) =~= s@.subrange(start as int, i as int).push(c));
            }
        }
        i = i + 1;
    }
    let last = s.substring_char(start, n);
    let ghost before = parts@;
    parts.push(String::from_str(last));
    proof {
        assert(s@.take(n as int) =~= s@);
        assert(parts@.map_values(|p: String| p@) =~= before.map_values(|p: String| p@).push(last@));
    }
    parts
}


/// The last piece of a split holds no separator.
pub proof fn lemma_last_piece_has_no_sep(s: Seq<char>, sep: char)
    ensures
        !last_piece(s, sep).contains(sep),
    decreases s.len(),
{
    lemma_split_nonempty(s, sep);
    if s.len() > 0 {
        lemma_last_piece_has_no_sep(s.drop_last(), sep);
        lemma_split_nonempty(s.drop_last(), sep);
        if s.last() != sep {
            let prev = last_piece(s.drop_last(), sep);
            assert(last_piece(s, sep) == prev.push(s.last()));
            assert forall|i: int| 0 <= i < prev.push(s.last()).len() implies prev.push(s.last())[i] != sep by {
                if i < prev.len() {
                    assert(prev[i] != sep);
                }
            }
        }
    }
}

/// Index just past the last `sep` in `s`, or 0 when `s` holds none.
pub open spec fn after_last(s: Seq<char>, sep: char) -> int
    decreases s.len(),
{
    if s.len() == 0 {
        0
    } else if s.last() == sep {
        s.len() as int
    } else {
        after_last(s.drop_last(), sep)
    }
}

pub proof fn lemma_last_piece_is_suffix(s: Seq<char>, sep: char)
    ensures
        0 <= after_last(s, sep) <= s.len(),
        last_piece(s, sep) == s.subrange(after_last(s, sep), s.len() as int),
    decreases s.len(),
{
    lemma_split_nonempty(s, sep);
    if s.len() == 0 {
        assert(s.subrange(0, 0) =~= Seq::<char>::empty());
    } else {
        lemma_last_piece_is_suffix(s.drop_last(), sep);
        lemma_split_nonempty(s.drop_last(), sep);
        if s.last() == sep {
            assert(s.subrange(s.len() as int, s.len() as int) =~= Seq::<char>::empty());
        } else {
            let k = after_last(s.drop_last(), sep);
            assert(s.subrange(k, s.len() as int) =~= s.drop_last().subrange(k, s.len() - 1).push(s.last()));
        }
    }
}

/// Position just past the last occurrence of `sep` in `s` (0 when there is none).
pub fn find_after_last(s: &str, sep: char) -> (k: usize)
    ensures
        k == after_last(s@, sep),
        k <= s@.len(),
{
    let n = s.unicode_len();
    let mut i: usize = n;
    proof {
        assert(s@.take(n as int) =~= s@);
    }
    while i > 0
        invariant
            i <= n == s@.len(),
            after_last(s@, sep) == after_last(s@.take(i as int), sep),
        decreases i,
    {
        let c = s.get_char(i - 1);
        proof {
            assert(s@.take(i as int).drop_last() =~= s@.take(i - 1));
        }
        if c == sep {
            return i;
        }
        i = i - 1;
    }
    0
}


/// Whether the two strings hold the same characters.
pub fn str_eq(a: &str, b: &str) -> (r: bool)
    ensures
        r == (a@ == b@),
{
    let n = a.unicode_len();
    if n != b.unicode_len() {
        return false;
    }
    let mut i: usize = 0;
    while i < n
        invariant
            n == a@.len() == b@.len(),
            i <= n,
            forall|j: int| 0 <= j < i ==> a@[j] == b@[j],
        decreases n - i,
    {
        if a.get_char(i) != b.get_char(i) {
            return false;
        }
        i = i + 1;
    }
    proof {
        assert(a@ =~= b@);
    }
    true
}

/// Whether `s` begins with `prefix`.
pub fn starts_with(s: &str, prefix: &str) -> (r: bool)
    ensures
        r == (prefix@.len() <= s@.len() && s@.take(prefix@.len() as int) == prefix@),
{
    let n = prefix.unicode_len();
    if n > s.unicode_len() {
        return false;
    }
    let head = s.substring_char(0, n);
    proof {
        assert(head@ =~= s@.take(n as int));
    }
    str_eq(head, prefix)
}

/// Unicode `White_Space` characters, the set that `char::is_whitespace` and `str::trim` use.
pub open spec fn is_white_space(c: char) -> bool {
    ||| ('\u{9}' <= c && c <= '\u{d}')
    ||| c == ' '
    ||| c == '\u{85}'
    ||| c == '\u{a0}'
    ||| c == '\u{1680}'
    ||| ('\u{2000}' <= c && c <= '\u{200a}')
    ||| c == '\u{2028}'
    ||| c == '\u{2029}'
    ||| c == '\u{202f}'
    ||| c == '\u{205f}'
    ||| c == '\u{3000}'
}

pub fn white_space(c: char) -> (r: bool)
    ensures
        r == is_white_space(c),
{
    ('\u{9}' <= c && c <= '\u{d}') || c == ' ' || c == '\u{85}' || c == '\u{a0}' || c == '\u{1680}'
        || ('\u{2000}' <= c && c <= '\u{200a}') || c == '\u{2028}' || c == '\u{2029}' || c
        == '\u{202f}' || c == '\u{205f}' || c == '\u{3000}'
}

/// Number of leading white-space characters of `s`.
pub open spec fn leading_ws(s: Seq<char>) -> nat
    decreases s.len(),
{
    if s.len() > 0 && is_white_space(s[0]) {
        1 + leading_ws(s.drop_first())
    } else {
        0
    }
}

/// `s` with leading and trailing white space removed, as `str::trim` gives it.
pub open spec fn trimmed(s: Seq<char>) -> Seq<char>
    decreases s.len(),
{
    if s.len() > 0 && is_white_space(s[0]) {
        trimmed(s.drop_first())
    } else if s.len() > 0 && is_white_space(s.last()) {
        trimmed(s.drop_last())
    } else {
        s
    }
}

proof fn lemma_trimmed_window(s: Seq<char>, lo: int, hi: int)
    requires
        0 <= lo <= hi <= s.len(),
        forall|j: int| 0 <= j < lo ==> is_white_space(#[trigger] s[j]),
        forall|j: int| hi <= j < s.len() ==> is_white_space(#[trigger] s[j]),
        lo < hi ==> !is_white_space(s[lo]) && !is_white_space(s[hi - 1]),
        lo == hi ==> hi == s.len(),
    ensures
        trimmed(s) == s.subrange(lo, hi),
    decreases s.len(),
{
    if s.len() > 0 && is_white_space(s[0]) {
        assert(lo > 0);
        let t = s.drop_first();
        if lo == hi {
            lemma_trimmed_window(t, lo - 1, hi - 1);
        } else {
            lemma_trimmed_window(t, lo - 1, hi - 1);
        }
        assert(t.subrange(lo - 1, hi - 1) =~= s.subrange(lo, hi));
    } else if s.len() > 0 && is_white_space(s.last()) {
        assert(hi < s.len());
        let t = s.drop_last();
        lemma_trimmed_window(t, lo, hi);
        assert(t.subrange(lo, hi) =~= s.subrange(lo, hi));
    } else {
        if s.len() > 0 {
            assert(lo == 0);
            assert(hi == s.len());
        }
        assert(s.subrange(lo, hi) =~= s);
    }
}

/// `s` without leading and trailing white space (`str::trim`).
pub fn trim(s: &str) -> (r: &str)
    ensures
        r@ == trimmed(s@),
{
    let n = s.unicode_len();
    let mut lo: usize = 0;
    while lo < n && white_space(s.get_char(lo))
        invariant
            n == s@.len(),
            lo <= n,
            forall|j: int| 0 <= j < lo ==> is_white_space(#[trigger] s@[j]),
        decreases n - lo,
    {
        lo = lo + 1;
    }
    let mut hi: usize = n;
    while hi > lo && white_space(s.get_char(hi - 1))
        invariant
            n == s@.len(),
            lo <= hi <= n,
            forall|j: int| hi <= j < n ==> is_white_space(#[trigger] s@[j]),
        decreases hi,
    {
        hi = hi - 1;
    }
    proof {
        if lo < hi {
            assert(!is_white_space(s@[lo as int]));
        } else {
            assert(lo == n || !is_white_space(s@[lo as int]));
            if lo < n {
                assert(false);
            }
        }
        lemma_trimmed_window(s@, lo as int, hi as int);
    }
    s.substring_char(lo, hi)
}

/// The pieces joined with `sep` between consecutive ones.
pub open spec fn join_with(parts: Seq<Seq<char>>, sep: char) -> Seq<char>
    decreases parts.len(),
{
    if parts.len() == 0 {
        Seq::<char>::empty()
    } else if parts.len() == 1 {
        parts[0]
    } else {
        join_with(parts.drop_last(), sep).push(sep) + parts.last()
    }
}

} // verus!
