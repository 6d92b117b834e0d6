//! Character-level building blocks: whitespace, trimming, splitting, line
//! breaking, substring search and decimal rendering, each stated over
//! `Seq<char>` and implemented over `Vec<char>`.
use vstd::prelude::*;

verus! {

// ---------------------------------------------------------------------------
// Whitespace
// ---------------------------------------------------------------------------

/// The Unicode `White_Space` property, listed code point by code point.
pub open spec fn is_white_space(c: char) -> bool {
    let u = c as int;
    ||| u == 0x20
    ||| (0x09 <= u && u <= 0x0d)
    ||| u == 0x85
    ||| u == 0xa0
    ||| u == 0x1680
    ||| (0x2000 <= u && u <= 0x200a)
    ||| u == 0x2028
    ||| u == 0x2029
    ||| u == 0x202f
    ||| u == 0x205f
    ||| u == 0x3000
}

/// Whether `c` has the Unicode `White_Space` property, as
/// `char::is_whitespace` tells it.
pub fn char_is_whitespace(c: char) -> (r: bool)
    ensures
        r == is_white_space(c),
{
    c == ' ' || ('\u{9}' <= c && c <= '\u{d}') || c == '\u{85}' || c == '\u{a0}' || c == '\u{1680}'
        || ('\u{2000}' <= c && c <= '\u{200a}') || c == '\u{2028}' || c == '\u{2029}' || c == '\u{202f}'
        || c == '\u{205f}' || c == '\u{3000}'
}

/// What `str::trim_start` leaves: the text without its leading whitespace.
pub open spec fn trim_start(s: Seq<char>) -> Seq<char>
    decreases s.len(),
{
    if s.len() > 0 && is_white_space(s[0]) {
        trim_start(s.drop_first())
    } else {
        s
    }
}

/// What `str::trim_end` leaves: the text without its trailing whitespace.
pub open spec fn trim_end(s: Seq<char>) -> Seq<char>
    decreases s.len(),
{
    if s.len() > 0 && is_white_space(s.last()) {
        trim_end(s.drop_last())
    } else {
        s
    }
}

/// What `str::trim` leaves: whitespace removed at both ends.
pub open spec fn trim(s: Seq<char>) -> Seq<char> {
    trim_end(trim_start(s))
}

/// Whether a text holds only whitespace (or nothing).
pub open spec fn is_blank(s: Seq<char>) -> bool {
    trim(s).len() == 0
}

pub proof fn lemma_trim_start_skip(s: Seq<char>, i: int)
    requires
        0 <= i <= s.len(),
        forall|j: int| 0 <= j < i ==> is_white_space(#[trigger] s[j]),
    ensures
        trim_start(s) == trim_start(s.skip(i)),
    decreases i,
{
    if i > 0 {
        assert(is_white_space(s[0]));
        assert(s.drop_first().skip(i - 1) =~= s.skip(i));
        assert forall|j: int| 0 <= j < i - 1 implies is_white_space(#[trigger] s.drop_first()[j]) by {
            assert(s.drop_first()[j] == s[j + 1]);
        }
        lemma_trim_start_skip(s.drop_first(), i - 1);
    } else {
        assert(s.skip(0) =~= s);
    }
}

/// A text that starts with a non-whitespace character is its own `trim_start`.
pub proof fn lemma_trim_start_stop(s: Seq<char>)
    requires
        s.len() == 0 || !is_white_space(s[0]),
    ensures
        trim_start(s) == s,
{
}

pub proof fn lemma_trim_end_stop(s: Seq<char>)
    requires
        s.len() == 0 || !is_white_space(s.last()),
    ensures
        trim_end(s) == s,
{
}

/// Finds the part of `v[lo..hi]` that `str::trim_start` leaves.
pub fn trim_start_from(v: &Vec<char>, lo: usize, hi: usize) -> (r: usize)
    requires
        lo <= hi <= v@.len(),
    ensures
        lo <= r <= hi,
        v@.subrange(r as int, hi as int) == trim_start(v@.subrange(lo as int, hi as int)),
{
    let mut i = lo;
    while i < hi && char_is_whitespace(v[i])
        invariant
            lo <= i <= hi <= v@.len(),
            trim_start(v@.subrange(lo as int, hi as int)) == trim_start(v@.subrange(i as int, hi as int)),
        decreases hi - i,
    {
        proof {
            let s = v@.subrange(i as int, hi as int);
            assert(s.drop_first() =~= v@.subrange(i + 1, hi as int));
        }
        i = i + 1;
    }
    proof {
        let s = v@.subrange(i as int, hi as int);
        lemma_trim_start_stop(s);
    }
    i
}

/// Finds the part of `v[lo..hi]` that `str::trim_end` leaves.
pub fn trim_end_to(v: &Vec<char>, lo: usize, hi: usize) -> (r: usize)
    requires
        lo <= hi <= v@.len(),
    ensures
        lo <= r <= hi,
        v@.subrange(lo as int, r as int) == trim_end(v@.subrange(lo as int, hi as int)),
{
    let mut j = hi;
    while j > lo && char_is_whitespace(v[j - 1])
        invariant
            lo <= j <= hi <= v@.len(),
            trim_end(v@.subrange(lo as int, hi as int)) == trim_end(v@.subrange(lo as int, j as int)),
        decreases j - lo,
    {
        proof {
            let s = v@.subrange(lo as int, j as int);
            assert(s.drop_last() =~= v@.subrange(lo as int, j - 1));
        }
        j = j - 1;
    }
    proof {
        let s = v@.subrange(lo as int, j as int);
        lemma_trim_end_stop(s);
    }
    j
}

/// Finds the part of `v[lo..hi]` that `str::trim` leaves.
pub fn trim_range(v: &Vec<char>, lo: usize, hi: usize) -> (r: (usize, usize))
    requires
        lo <= hi <= v@.len(),
    ensures
        lo <= r.0 <= r.1 <= hi,
        v@.subrange(r.0 as int, r.1 as int) == trim(v@.subrange(lo as int, hi as int)),
{
    let a = trim_start_from(v, lo, hi);
    let b = trim_end_to(v, a, hi);
    (a, b)
}

// ---------------------------------------------------------------------------
// Conversions between `str`, `String` and `Vec<char>`
// ---------------------------------------------------------------------------

/// The characters of a text, in order.
pub fn chars_of(s: &str) -> (v: Vec<char>)
    ensures
        v@ == s@,
{
    let mut v: Vec<char> = Vec::new();
    for c in it: s.chars()
        invariant
            it.seq() == s@,
            v@.len() == it.index(),
            v@ == s@.take(v@.len() as int),
    {
        proof {
            assert(s@.take(v@.len() + 1int) =~= s@.take(v@.len() as int).push(c));
        }
        v.push(c);
    }
    proof {
        assert(s@.take(v@.len() as int) =~= s@);
    }
    v
}


/// Calls `String::push`, which appends one character to the text.
#[verifier::external_body]
pub(crate) fn string_push(s: &mut String, c: char)
    ensures
        final(s)@ == old(s)@.push(c),
{
    s.push(c)
}

/// The text made of `v[lo..hi]`.
pub fn string_from(v: &Vec<char>, lo: usize, hi: usize) -> (r: String)
    requires
        lo <= hi <= v@.len(),
    ensures
        r@ == v@.subrange(lo as int, hi as int),
{
    let mut r = String::new();
    let mut i = lo;
    while i < hi
        invariant
            lo <= i <= hi <= v@.len(),
            r@ == v@.subrange(lo as int, i as int),
        decreases hi - i,
    {
        string_push(&mut r, v[i]);
        proof {
            assert(v@.subrange(lo as int, i + 1) =~= v@.subrange(lo as int, i as int).push(v@[i as int]));
        }
        i = i + 1;
    }
    r
}

/// The text made of all of `v`.
pub fn string_of(v: &Vec<char>) -> (r: String)
    ensures
        r@ == v@,
{
    let r = string_from(v, 0, v.len());
    proof {
        assert(v@.subrange(0, v@.len() as int) =~= v@);
    }
    r
}

/// Appends `v[lo..hi]` to `out`.
pub fn extend_range(out: &mut Vec<char>, v: &Vec<char>, lo: usize, hi: usize)
    requires
        lo <= hi <= v@.len(),
    ensures
        final(out)@ == old(out)@ + v@.subrange(lo as int, hi as int),
{
    let ghost start = out@;
    let mut i = lo;
    while i < hi
        invariant
            lo <= i <= hi <= v@.len(),
            out@ == start + v@.subrange(lo as int, i as int),
        decreases hi - i,
    {
        out.push(v[i]);
        proof {
            assert(v@.subrange(lo as int, i + 1) =~= v@.subrange(lo as int, i as int).push(v@[i as int]));
            assert(start + v@.subrange(lo as int, i + 1) =~= (start + v@.subrange(lo as int, i as int)).push(v@[i as int]));
        }
        i = i + 1;
    }
}

/// Appends all of `v` to `out`.
pub fn extend_all(out: &mut Vec<char>, v: &Vec<char>)
    ensures
        final(out)@ == old(out)@ + v@,
{
    extend_range(out, v, 0, v.len());
    proof {
        assert(v@.subrange(0, v@.len() as int) =~= v@);
    }
}

/// Appends the characters of `s` to `out`.
pub fn extend_str(out: &mut Vec<char>, s: &str)
    ensures
        final(out)@ == old(out)@ + s@,
{
    let v = chars_of(s);
    extend_all(out, &v);
}

// ---------------------------------------------------------------------------
// Searching and splitting
// ---------------------------------------------------------------------------

/// The separators that texts are split at.
#[derive(Clone, Copy)]
pub enum Sep {
    /// One given character.
    Char(char),
    /// Whitespace, `,` and `;`: what separates the terms of a search query.
    QueryPunct,
}

/// Whether `c` separates pieces under `sep`.
pub open spec fn is_sep(sep: Sep, c: char) -> bool {
    match sep {
        Sep::Char(d) => c == d,
        Sep::QueryPunct => is_white_space(c) || c == ',' || c == ';',
    }
}

/// The index of the first separator in `s`, or -1 where there is none.
pub open spec fn first_sep(s: Seq<char>, sep: Sep) -> int
    decreases s.len(),
{
    if s.len() == 0 {
        -1
    } else if is_sep(sep, s[0]) {
        0
    } else {
        let r = first_sep(s.drop_first(), sep);
        if r < 0 {
            -1
        } else {
            r + 1
        }
    }
}

/// `first_sep` is -1 exactly when no separator occurs, and else names the
/// first separator.
pub proof fn lemma_first_sep(s: Seq<char>, sep: Sep)
    ensures
        first_sep(s, sep) == -1 || 0 <= first_sep(s, sep) < s.len(),
        first_sep(s, sep) == -1 ==> forall|j: int| 0 <= j < s.len() ==> !is_sep(sep, #[trigger] s[j]),
        0 <= first_sep(s, sep) ==> is_sep(sep, s[first_sep(s, sep)]),
        0 <= first_sep(s, sep) ==> forall|j: int| 0 <= j < first_sep(s, sep) ==> !is_sep(sep, #[trigger] s[j]),
    decreases s.len(),
{
    if s.len() > 0 && !is_sep(sep, s[0]) {
        let t = s.drop_first();
        lemma_first_sep(t, sep);
        let r = first_sep(t, sep);
        if r == -1 {
            assert forall|j: int| 0 <= j < s.len() implies !is_sep(sep, #[trigger] s[j]) by {
                if j > 0 {
                    assert(s[j] == t[j - 1]);
                }
            }
        } else {
            assert forall|j: int| 0 <= j < r + 1 implies !is_sep(sep, #[trigger] s[j]) by {
                if j > 0 {
                    assert(s[j] == t[j - 1]);
                }
            }
            assert(s[r + 1] == t[r]);
        }
    }
}

/// A separator-free prefix followed by a separator fixes `first_sep`.
pub proof fn lemma_first_sep_at(s: Seq<char>, sep: Sep, k: int)
    requires
        0 <= k <= s.len(),
        forall|j: int| 0 <= j < k ==> !is_sep(sep, #[trigger] s[j]),
        k == s.len() || is_sep(sep, s[k]),
    ensures
        first_sep(s, sep) == (if k == s.len() { -1 } else { k }),
    decreases k,
{
    if k > 0 {
        assert forall|j: int| 0 <= j < k - 1 implies !is_sep(sep, #[trigger] s.drop_first()[j]) by {
            assert(s.drop_first()[j] == s[j + 1]);
        }
        lemma_first_sep_at(s.drop_first(), sep, k - 1);
    }
}

/// Finds the first separator in `v[lo..hi]`, as an index into `v`.
pub fn find_sep(v: &Vec<char>, lo: usize, hi: usize, sep: Sep) -> (r: Option<usize>)
    requires
        lo <= hi <= v@.len(),
    ensures
        match r {
            Some(k) => lo <= k < hi && first_sep(v@.subrange(lo as int, hi as int), sep) == k - lo,
            None => first_sep(v@.subrange(lo as int, hi as int), sep) == -1,
        },
{
    let mut i = lo;
    while i < hi
        invariant
            lo <= i <= hi <= v@.len(),
            forall|j: int| lo <= j < i ==> !is_sep(sep, #[trigger] v@[j]),
        decreases hi - i,
    {
        let c = v[i];
        let hit = match sep {
            Sep::Char(d) => c == d,
            Sep::QueryPunct => char_is_whitespace(c) || c == ',' || c == ';',
        };
        if hit {
            proof {
                let s = v@.subrange(lo as int, hi as int);
                assert forall|j: int| 0 <= j < i - lo implies !is_sep(sep, #[trigger] s[j]) by {
                    assert(s[j] == v@[lo + j]);
                }
                lemma_first_sep_at(s, sep, i - lo);
            }
            return Some(i);
        }
        i = i + 1;
    }
    proof {
        let s = v@.subrange(lo as int, hi as int);
        assert forall|j: int| 0 <= j < hi - lo implies !is_sep(sep, #[trigger] s[j]) by {
            assert(s[j] == v@[lo + j]);
        }
        lemma_first_sep_at(s, sep, hi - lo);
    }
    None
}

/// The pieces between separators, as `str::split` yields them: empty pieces
/// included, and always at least one piece.
pub open spec fn split(s: Seq<char>, sep: Sep) -> Seq<Seq<char>>
    decreases s.len(),
{
    let k = first_sep(s, sep);
    if 0 <= k < s.len() {
        seq![s.take(k)] + split(s.skip(k + 1), sep)
    } else {
        seq![s]
    }
}

/// A line without the carriage return that ends it, if any.
pub open spec fn strip_cr(l: Seq<char>) -> Seq<char> {
    if l.len() > 0 && l.last() == '\r' {
        l.drop_last()
    } else {
        l
    }
}

/// The lines of a text as `str::lines` yields them: split at `\n`, a `\r`
/// before the `\n` dropped, and no empty line after a final `\n`.
pub open spec fn lines(s: Seq<char>) -> Seq<Seq<char>>
    decreases s.len(),
{
    if s.len() == 0 {
        seq![]
    } else {
        let k = first_sep(s, Sep::Char('\n'));
        if 0 <= k < s.len() {
            seq![strip_cr(s.take(k))] + lines(s.skip(k + 1))
        } else {
            seq![s]
        }
    }
}

/// Where the pieces of `v[lo..hi]` split at `sep` lie in `v`.
pub fn split_ranges(v: &Vec<char>, lo: usize, hi: usize, sep: Sep) -> (r: Vec<(usize, usize)>)
    requires
        lo <= hi <= v@.len(),
    ensures
        r@.len() == split(v@.subrange(lo as int, hi as int), sep).len(),
        forall|k: int|
            0 <= k < r@.len() ==> {
                &&& lo <= (#[trigger] r@[k]).0 <= r@[k].1 <= hi
                &&& v@.subrange(r@[k].0 as int, r@[k].1 as int) == split(
                    v@.subrange(lo as int, hi as int),
                    sep,
                )[k]
            },
{
    let mut r: Vec<(usize, usize)> = Vec::new();
    let ghost whole = split(v@.subrange(lo as int, hi as int), sep);
    let ghost mut done: Seq<Seq<char>> = seq![];
    let mut pos = lo;
    loop
        invariant
            lo <= pos <= hi <= v@.len(),
            whole == split(v@.subrange(lo as int, hi as int), sep),
            whole == done + split(v@.subrange(pos as int, hi as int), sep),
            r@.len() == done.len(),
            forall|k: int|
                0 <= k < r@.len() ==> {
                    &&& lo <= (#[trigger] r@[k]).0 <= r@[k].1 <= hi
                    &&& v@.subrange(r@[k].0 as int, r@[k].1 as int) == done[k]
                },
        decreases hi - pos,
    {
        let ghost rest = v@.subrange(pos as int, hi as int);
        match find_sep(v, pos, hi, sep) {
            Some(k) => {
                proof {
                    assert(rest.take(k - pos) =~= v@.subrange(pos as int, k as int));
                    assert(rest.skip(k - pos + 1) =~= v@.subrange(k + 1, hi as int));
                    done = done.push(v@.subrange(pos as int, k as int));
                    assert(whole =~= done + split(v@.subrange(k + 1, hi as int), sep));
                }
                r.push((pos, k));
                pos = k + 1;
            },
            None => {
                proof {
                    done = done.push(rest);
                    assert(whole =~= done);
                }
                r.push((pos, hi));
                return r;
            },
        }
    }
}

/// Where the lines of `v` lie in `v`.
pub fn line_ranges(v: &Vec<char>) -> (r: Vec<(usize, usize)>)
    ensures
        r@.len() == lines(v@).len(),
        forall|k: int|
            0 <= k < r@.len() ==> {
                &&& (#[trigger] r@[k]).0 <= r@[k].1 <= v@.len()
                &&& v@.subrange(r@[k].0 as int, r@[k].1 as int) == lines(v@)[k]
            },
{
    let n = v.len();
    let mut r: Vec<(usize, usize)> = Vec::new();
    let ghost whole = lines(v@);
    let ghost mut done: Seq<Seq<char>> = seq![];
    let mut pos: usize = 0;
    proof {
        assert(v@.subrange(0, n as int) =~= v@);
    }
    while pos < n
        invariant
            pos <= n == v@.len(),
            whole == lines(v@),
            whole == done + lines(v@.subrange(pos as int, n as int)),
            r@.len() == done.len(),
            forall|k: int|
                0 <= k < r@.len() ==> {
                    &&& (#[trigger] r@[k]).0 <= r@[k].1 <= n
                    &&& v@.subrange(r@[k].0 as int, r@[k].1 as int) == done[k]
                },
        decreases n - pos,
    {
        let ghost rest = v@.subrange(pos as int, n as int);
        match find_sep(v, pos, n, Sep::Char('\n')) {
            Some(k) => {
                let end = if k > pos && v[k - 1] == '\r' {
                    k - 1
                } else {
                    k
                };
                proof {
                    let l = v@.subrange(pos as int, k as int);
                    assert(rest.take(k - pos) =~= l);
                    assert(rest.skip(k - pos + 1) =~= v@.subrange(k + 1, n as int));
                    assert(v@.subrange(pos as int, end as int) =~= strip_cr(l));
                    done = done.push(strip_cr(l));
                    assert(whole =~= done + lines(v@.subrange(k + 1, n as int)));
                }
                r.push((pos, end));
                pos = k + 1;
            },
            None => {
                proof {
                    done = done.push(rest);
                    assert(lines(v@.subrange(n as int, n as int)) =~= seq![]);
                    assert(whole =~= done);
                }
                r.push((pos, n));
                pos = n;
            },
        }
    }
    proof {
        assert(lines(v@.subrange(n as int, n as int)) =~= seq![]);
        assert(whole =~= done);
    }
    r
}

/// Whether `pat` occurs in `s` starting at index `i`.
pub open spec fn occurs_at(s: Seq<char>, pat: Seq<char>, i: int) -> bool {
    0 <= i && i + pat.len() <= s.len() && s.subrange(i, i + pat.len()) == pat
}

/// Whether `pat` occurs somewhere in `s` (`str::contains`).
pub open spec fn has_substring(s: Seq<char>, pat: Seq<char>) -> bool {
    exists|i: int| occurs_at(s, pat, i)
}

/// How many times `pat` occurs in `s` without overlap, matched from the
/// left (`str::matches(..).count()`); an empty `pat` matches at each of the
/// `s.len() + 1` positions.
pub open spec fn count_matches(s: Seq<char>, pat: Seq<char>) -> nat
    decreases s.len(),
{
    if pat.len() == 0 {
        s.len() + 1
    } else if s.len() < pat.len() {
        0
    } else if s.take(pat.len() as int) == pat {
        1 + count_matches(s.skip(pat.len() as int), pat)
    } else {
        count_matches(s.drop_first(), pat)
    }
}

/// Whether `pat` occurs in `s` at index `i`.
pub fn matches_at(s: &Vec<char>, pat: &Vec<char>, i: usize) -> (r: bool)
    ensures
        r == occurs_at(s@, pat@, i as int),
{
    if i > s.len() || pat.len() > s.len() - i {
        return false;
    }
    let n = s.len();
    let mut j: usize = 0;
    while j < pat.len()
        invariant
            n == s@.len(),
            i + pat@.len() <= s@.len(),
            j <= pat@.len(),
            forall|k: int| 0 <= k < j ==> s@[i + k] == pat@[k],
        decreases pat@.len() - j,
    {
        if s[i + j] != pat[j] {
            proof {
                assert(s@.subrange(i as int, i + pat@.len())[j as int] == s@[i + j]);
            }
            return false;
        }
        j = j + 1;
    }
    proof {
        assert(s@.subrange(i as int, i + pat@.len()) =~= pat@);
    }
    true
}

/// Whether `pat` occurs in `s` (`str::contains`).
pub fn contains_chars(s: &Vec<char>, pat: &Vec<char>) -> (r: bool)
    ensures
        r == has_substring(s@, pat@),
{
    if pat.len() > s.len() {
        proof {
            assert forall|i: int| !occurs_at(s@, pat@, i) by {}
        }
        return false;
    }
    let last = s.len() - pat.len();
    let mut i: usize = 0;
    while i <= last
        invariant
            last + pat@.len() == s@.len(),
            forall|k: int| 0 <= k < i ==> !occurs_at(s@, pat@, k),
        decreases last + 1 - i,
    {
        if matches_at(s, pat, i) {
            return true;
        }
        if i == last {
            proof {
                assert forall|k: int| !occurs_at(s@, pat@, k) by {
                    if 0 <= k <= last {
                        assert(k < i || k == i);
                    }
                }
            }
            return false;
        }
        i = i + 1;
    }
    false
}

/// Counts the non-overlapping occurrences of a non-empty `pat` in `s`.
pub fn count_matches_exec(s: &Vec<char>, pat: &Vec<char>) -> (r: usize)
    requires
        pat@.len() > 0,
    ensures
        r == count_matches(s@, pat@),
        r <= s@.len(),
{
    let n = s.len();
    let m = pat.len();
    let mut i: usize = 0;
    let mut count: usize = 0;
    proof {
        assert(s@.skip(0) =~= s@);
    }
    while m <= n - i
        invariant
            n == s@.len(),
            m == pat@.len() > 0,
            i <= n,
            count <= i,
            count_matches(s@, pat@) == count + count_matches(s@.skip(i as int), pat@),
        decreases n - i,
    {
        let ghost rest = s@.skip(i as int);
        proof {
            assert(rest.take(m as int) =~= s@.subrange(i as int, i + m));
        }
        if matches_at(s, pat, i) {
            proof {
                assert(rest.skip(m as int) =~= s@.skip(i + m));
            }
            count = count + 1;
            i = i + m;
        } else {
            proof {
                assert(rest.drop_first() =~= s@.skip(i + 1));
            }
            i = i + 1;
        }
    }
    count
}

// ---------------------------------------------------------------------------
// Joining
// ---------------------------------------------------------------------------

/// The pieces put one after another with `sep` between them (`join`).
pub open spec fn join(parts: Seq<Seq<char>>, sep: Seq<char>) -> Seq<char>
    decreases parts.len(),
{
    if parts.len() == 0 {
        seq![]
    } else if parts.len() == 1 {
        parts[0]
    } else {
        join(parts.drop_last(), sep) + sep + parts.last()
    }
}

/// The pieces put one after another (`concat`).
pub open spec fn concat(parts: Seq<Seq<char>>) -> Seq<char>
    decreases parts.len(),
{
    if parts.len() == 0 {
        seq![]
    } else {
        concat(parts.drop_last()) + parts.last()
    }
}

// ---------------------------------------------------------------------------
// Decimal numbers
// ---------------------------------------------------------------------------

/// The character of a decimal digit.
pub open spec fn digit_char(d: nat) -> char {
    ((48 + d) as u8) as char
}

/// The decimal notation of `n`, without sign or leading zeros (`Display`).
pub open spec fn decimal(n: nat) -> Seq<char>
    decreases n,
{
    if n < 10 {
        seq![digit_char(n)]
    } else {
        decimal(n / 10).push(digit_char(n % 10))
    }
}

/// Appends the decimal notation of `n` to `out`.
pub fn push_decimal(out: &mut Vec<char>, n: u128)
    ensures
        final(out)@ == old(out)@ + decimal(n as nat),
    decreases n,
{
    if n >= 10 {
        push_decimal(out, n / 10);
    }
    let d = (n % 10) as u8;
    out.push((48 + d) as char);
    proof {
        if n >= 10 {
            assert(old(out)@ + decimal(n as nat) =~= old(out)@ + decimal((n / 10) as nat) + seq![digit_char((n % 10) as nat)]);
        } else {
            assert(old(out)@ + decimal(n as nat) =~= old(out)@.push(digit_char(n as nat)));
        }
    }
}

// ---------------------------------------------------------------------------
// Ordering and case
// ---------------------------------------------------------------------------

/// Whether `a` sorts before `b` when texts are ordered as `String` orders
/// them: character by character by code point, a proper prefix first.
pub open spec fn lex_less(a: Seq<char>, b: Seq<char>) -> bool
    decreases a.len(),
{
    if a.len() == 0 {
        b.len() > 0
    } else if b.len() == 0 {
        false
    } else if a[0] != b[0] {
        (a[0] as int) < (b[0] as int)
    } else {
        lex_less(a.drop_first(), b.drop_first())
    }
}

pub proof fn lemma_lex_less_irreflexive(a: Seq<char>)
    ensures
        !lex_less(a, a),
    decreases a.len(),
{
    if a.len() > 0 {
        lemma_lex_less_irreflexive(a.drop_first());
    }
}

pub proof fn lemma_lex_less_total(a: Seq<char>, b: Seq<char>)
    ensures
        a == b || lex_less(a, b) || lex_less(b, a),
    decreases a.len(),
{
    if a.len() > 0 && b.len() > 0 && a[0] == b[0] {
        lemma_lex_less_total(a.drop_first(), b.drop_first());
        if a.drop_first() == b.drop_first() {
            assert(a =~= seq![a[0]] + a.drop_first());
            assert(b =~= seq![b[0]] + b.drop_first());
        }
    } else if a.len() == 0 && b.len() == 0 {
        assert(a =~= b);
    } else if a.len() > 0 && b.len() > 0 {
        assert(a[0] != b[0]);
        assert((a[0] as int) != (b[0] as int));
    }
}

pub proof fn lemma_lex_less_asymmetric(a: Seq<char>, b: Seq<char>)
    ensures
        !(lex_less(a, b) && lex_less(b, a)),
    decreases a.len(),
{
    if a.len() > 0 && b.len() > 0 && a[0] == b[0] {
        lemma_lex_less_asymmetric(a.drop_first(), b.drop_first());
    }
}

pub proof fn lemma_lex_less_transitive(a: Seq<char>, b: Seq<char>, c: Seq<char>)
    requires
        lex_less(a, b),
        lex_less(b, c),
    ensures
        lex_less(a, c),
    decreases a.len(),
{
    if a.len() > 0 && b.len() > 0 && c.len() > 0 && a[0] == b[0] && b[0] == c[0] {
        lemma_lex_less_transitive(a.drop_first(), b.drop_first(), c.drop_first());
    }
}

/// Whether `a` sorts before `b` as `String` orders them.
pub fn lex_less_exec(a: &Vec<char>, b: &Vec<char>) -> (r: bool)
    ensures
        r == lex_less(a@, b@),
{
    let mut i: usize = 0;
    proof {
        assert(a@.skip(0) =~= a@);
        assert(b@.skip(0) =~= b@);
    }
    loop
        invariant
            i <= a@.len(),
            i <= b@.len(),
            lex_less(a@, b@) == lex_less(a@.skip(i as int), b@.skip(i as int)),
        decreases a@.len() - i,
    {
        if i == a.len() {
            return i < b.len();
        }
        if i == b.len() {
            return false;
        }
        if a[i] != b[i] {
            return a[i] < b[i];
        }
        proof {
            assert(a@.skip(i as int).drop_first() =~= a@.skip(i + 1));
            assert(b@.skip(i as int).drop_first() =~= b@.skip(i + 1));
        }
        i = i + 1;
    }
}

/// Whether two texts are equal, character for character.
pub fn chars_eq(a: &Vec<char>, b: &Vec<char>) -> (r: bool)
    ensures
        r == (a@ == b@),
{
    if a.len() != b.len() {
        return false;
    }
    let mut i: usize = 0;
    while i < a.len()
        invariant
            a@.len() == b@.len(),
            i <= a@.len(),
            forall|k: int| 0 <= k < i ==> a@[k] == b@[k],
        decreases a@.len() - i,
    {
        if a[i] != b[i] {
            return false;
        }
        i = i + 1;
    }
    proof {
        assert(a@ =~= b@);
    }
    true
}

/// Whether a character is ASCII.
pub open spec fn is_ascii_char(c: char) -> bool {
    (c as int) < 128
}

/// Whether every character of a text is ASCII.
pub open spec fn all_ascii(s: Seq<char>) -> bool {
    forall|i: int| 0 <= i < s.len() ==> is_ascii_char(#[trigger] s[i])
}

/// An ASCII capital letter made small; every other character unchanged.
pub open spec fn ascii_lower_char(c: char) -> char {
    if 65 <= (c as int) && (c as int) <= 90 {
        ((c as int) + 32) as char
    } else {
        c
    }
}

/// A text with its ASCII capital letters made small.
pub open spec fn ascii_lower(s: Seq<char>) -> Seq<char> {
    Seq::new(s.len(), |i: int| ascii_lower_char(s[i]))
}

/// What `str::to_lowercase` makes of a text. Unicode's case mapping takes
/// pages to state; only the name is given here.
pub uninterp spec fn lowercase(s: Seq<char>) -> Seq<char>;

/// Calls `str::to_lowercase`. Its result depends on the text alone, and is
/// named `lowercase` of it. Two facts are stated besides: each character is
/// mapped to one or more characters (`char::to_lowercase` documents "one or
/// more"), so the result is no shorter; and on ASCII text Unicode's mapping
/// makes `A`-`Z` into `a`-`z` and keeps every other character. What it does
/// to other characters is left unsaid.
#[verifier::external_body]
pub(crate) fn to_lowercase(s: &str) -> (r: String)
    ensures
        r@ == lowercase(s@),
        r@.len() >= s@.len(),
        all_ascii(s@) ==> r@ == ascii_lower(s@),
{
    s.to_lowercase()
}


// ---------------------------------------------------------------------------
// Facts about trimming, splitting and joining
// ---------------------------------------------------------------------------

pub proof fn lemma_trim_start_len(s: Seq<char>)
    ensures
        trim_start(s).len() <= s.len(),
        s.len() > 0 && is_white_space(s[0]) ==> trim_start(s).len() < s.len(),
    decreases s.len(),
{
    if s.len() > 0 && is_white_space(s[0]) {
        lemma_trim_start_len(s.drop_first());
    }
}

pub proof fn lemma_trim_end_len(s: Seq<char>)
    ensures
        trim_end(s).len() <= s.len(),
        s.len() > 0 && is_white_space(s.last()) ==> trim_end(s).len() < s.len(),
    decreases s.len(),
{
    if s.len() > 0 && is_white_space(s.last()) {
        lemma_trim_end_len(s.drop_last());
    }
}

/// A text is its own trim exactly when it is empty or begins and ends with
/// a non-whitespace character.
pub proof fn lemma_trimmed(s: Seq<char>)
    ensures
        trim(s) == s <==> (s.len() == 0 || (!is_white_space(s[0]) && !is_white_space(s.last()))),
{
    lemma_trim_start_len(s);
    lemma_trim_end_len(trim_start(s));
    if s.len() > 0 && !is_white_space(s[0]) && !is_white_space(s.last()) {
        lemma_trim_start_stop(s);
        lemma_trim_end_stop(s);
    }
    if s.len() > 0 && !is_white_space(s[0]) {
        lemma_trim_start_stop(s);
        lemma_trim_end_len(s);
    }
}

/// Whitespace before a text that does not begin with whitespace is what
/// `trim_start` removes.
pub proof fn lemma_trim_start_prefix(w: Seq<char>, s: Seq<char>)
    requires
        forall|j: int| 0 <= j < w.len() ==> is_white_space(#[trigger] w[j]),
        s.len() == 0 || !is_white_space(s[0]),
    ensures
        trim_start(w + s) == s,
{
    let ws = w + s;
    assert forall|j: int| 0 <= j < w.len() implies is_white_space(#[trigger] ws[j]) by {
        assert(ws[j] == w[j]);
    }
    lemma_trim_start_skip(ws, w.len() as int);
    assert(ws.skip(w.len() as int) =~= s);
    lemma_trim_start_stop(s);
}

/// Splitting at a separator that stands between two texts splits each.
pub proof fn lemma_split_around(x: Seq<char>, c: char, y: Seq<char>)
    ensures
        split(x + seq![c] + y, Sep::Char(c)) == split(x, Sep::Char(c)) + split(y, Sep::Char(c)),
    decreases x.len(),
{
    let s = x + seq![c] + y;
    let sep = Sep::Char(c);
    lemma_first_sep(x, sep);
    let k = first_sep(x, sep);
    if k == -1 {
        assert forall|j: int| 0 <= j < x.len() implies !is_sep(sep, #[trigger] s[j]) by {
            assert(s[j] == x[j]);
        }
        assert(s[x.len() as int] == c);
        lemma_first_sep_at(s, sep, x.len() as int);
        assert(s.take(x.len() as int) =~= x);
        assert(s.skip(x.len() + 1int) =~= y);
        lemma_first_sep_at(x, sep, x.len() as int);
    } else {
        assert forall|j: int| 0 <= j < k implies !is_sep(sep, #[trigger] s[j]) by {
            assert(s[j] == x[j]);
        }
        assert(s[k] == x[k]);
        lemma_first_sep_at(s, sep, k);
        assert(s.take(k) =~= x.take(k));
        assert(s.skip(k + 1) =~= x.skip(k + 1) + seq![c] + y);
        lemma_split_around(x.skip(k + 1), c, y);
    }
}

/// A text without the separator is one piece.
pub proof fn lemma_split_none(x: Seq<char>, sep: Sep)
    requires
        forall|j: int| 0 <= j < x.len() ==> !is_sep(sep, #[trigger] x[j]),
    ensures
        split(x, sep) == seq![x],
{
    lemma_first_sep_at(x, sep, x.len() as int);
}

/// Pieces that hold no comma are what splitting their comma-joined text at
/// commas gives back.
pub proof fn lemma_split_join(parts: Seq<Seq<char>>, c: char)
    requires
        parts.len() > 0,
        forall|i: int, j: int| 0 <= i < parts.len() && 0 <= j < parts[i].len() ==> #[trigger] parts[i][j] != c,
    ensures
        split(join(parts, seq![c]), Sep::Char(c)) == parts,
    decreases parts.len(),
{
    let last = parts.last();
    assert forall|j: int| 0 <= j < last.len() implies !is_sep(Sep::Char(c), #[trigger] last[j]) by {
        assert(parts[parts.len() - 1][j] != c);
    }
    lemma_split_none(last, Sep::Char(c));
    if parts.len() == 1 {
        assert(split(join(parts, seq![c]), Sep::Char(c)) =~= parts);
    } else {
        let init = parts.drop_last();
        assert forall|i: int, j: int| 0 <= i < init.len() && 0 <= j < init[i].len() implies #[trigger] init[i][j] != c by {
            assert(init[i] == parts[i]);
        }
        lemma_split_join(init, c);
        lemma_split_around(join(init, seq![c]), c, last);
        assert(join(parts, seq![c]) == join(init, seq![c]) + seq![c] + last);
        assert(split(join(parts, seq![c]), Sep::Char(c)) =~= parts);
    }
}

/// A character that is neither the separator nor in any piece is not in
/// their join.
pub proof fn lemma_join_avoids(parts: Seq<Seq<char>>, sep: Seq<char>, d: char)
    requires
        forall|j: int| 0 <= j < sep.len() ==> #[trigger] sep[j] != d,
        forall|i: int, j: int| 0 <= i < parts.len() && 0 <= j < parts[i].len() ==> #[trigger] parts[i][j] != d,
    ensures
        forall|j: int| 0 <= j < join(parts, sep).len() ==> #[trigger] join(parts, sep)[j] != d,
    decreases parts.len(),
{
    if parts.len() == 1 {
        assert forall|j: int| 0 <= j < parts[0].len() implies #[trigger] parts[0][j] != d by {}
    } else if parts.len() > 1 {
        let init = parts.drop_last();
        assert forall|i: int, j: int| 0 <= i < init.len() && 0 <= j < init[i].len() implies #[trigger] init[i][j] != d by {
            assert(init[i] == parts[i]);
        }
        lemma_join_avoids(init, sep, d);
        let a = join(init, sep);
        let last = parts.last();
        assert forall|j: int| 0 <= j < join(parts, sep).len() implies #[trigger] join(parts, sep)[j] != d by {
            let whole = a + sep + last;
            assert(join(parts, sep) == whole);
            if j < a.len() {
                assert(whole[j] == a[j]);
            } else if j < a.len() + sep.len() {
                assert(whole[j] == sep[j - a.len()]);
            } else {
                assert(whole[j] == last[j - a.len() - sep.len()]);
                assert(parts[parts.len() - 1][j - a.len() - sep.len()] != d);
            }
        }
    }
}


/// A text without line breaks is a single line, or none where it is empty.
pub proof fn lemma_lines_single(x: Seq<char>)
    requires
        !x.contains('\n'),
        x.len() > 0,
    ensures
        lines(x) == seq![x],
{
    assert forall|j: int| 0 <= j < x.len() implies !is_sep(Sep::Char('\n'), #[trigger] x[j]) by {
        if x[j] == '\n' {
            assert(x.contains('\n'));
        }
    }
    lemma_first_sep_at(x, Sep::Char('\n'), x.len() as int);
}

/// A line break after a text that ends in neither a line break nor a
/// carriage return separates the lines of the two texts.
pub proof fn lemma_lines_around(a: Seq<char>, b: Seq<char>)
    requires
        a.len() > 0,
        a.last() != '\n',
        a.last() != '\r',
    ensures
        lines(a + seq!['\n'] + b) == lines(a) + lines(b),
    decreases a.len(),
{
    let s = a + seq!['\n'] + b;
    let sep = Sep::Char('\n');
    lemma_first_sep(a, sep);
    let k = first_sep(a, sep);
    if k == -1 {
        assert forall|j: int| 0 <= j < a.len() implies !is_sep(sep, #[trigger] s[j]) by {
            assert(s[j] == a[j]);
        }
        assert(s[a.len() as int] == '\n');
        lemma_first_sep_at(s, sep, a.len() as int);
        assert(s.take(a.len() as int) =~= a);
        assert(s.skip(a.len() + 1int) =~= b);
        assert(!a.contains('\n'));
        lemma_lines_single(a);
    } else {
        assert forall|j: int| 0 <= j < k implies !is_sep(sep, #[trigger] s[j]) by {
            assert(s[j] == a[j]);
        }
        assert(s[k] == a[k]);
        lemma_first_sep_at(s, sep, k);
        assert(k < a.len() - 1);
        assert(s.take(k) =~= a.take(k));
        let a2 = a.skip(k + 1);
        assert(s.skip(k + 1) =~= a2 + seq!['\n'] + b);
        assert(a2.last() == a.last());
        lemma_lines_around(a2, b);
    }
}

/// The last character of a join is that of its last piece.
pub proof fn lemma_join_last(parts: Seq<Seq<char>>, sep: Seq<char>)
    requires
        parts.len() > 0,
        parts.last().len() > 0,
    ensures
        join(parts, sep).len() > 0,
        join(parts, sep).last() == parts.last().last(),
{
}

/// Lines without line breaks that are not empty and do not end in a
/// carriage return are what breaking their joined text into lines gives.
pub proof fn lemma_lines_join(ls: Seq<Seq<char>>)
    requires
        forall|i: int| 0 <= i < ls.len() ==> (#[trigger] ls[i]).len() > 0 && !ls[i].contains('\n')
            && ls[i].last() != '\r',
    ensures
        lines(join(ls, seq!['\n'])) == ls,
    decreases ls.len(),
{
    if ls.len() == 0 {
        assert(lines(join(ls, seq!['\n'])) =~= ls);
    } else if ls.len() == 1 {
        assert(ls[0].len() > 0);
        lemma_lines_single(ls[0]);
        assert(lines(join(ls, seq!['\n'])) =~= ls);
    } else {
        let init = ls.drop_last();
        assert forall|i: int| 0 <= i < init.len() implies (#[trigger] init[i]).len() > 0 && !init[i].contains('\n')
            && init[i].last() != '\r' by {
            assert(init[i] == ls[i]);
        }
        lemma_lines_join(init);
        let a = join(init, seq!['\n']);
        assert(init.last() == ls[ls.len() - 2]);
        lemma_join_last(init, seq!['\n']);
        assert(a.last() != '\n') by {
            let l = init.last();
            if l.last() == '\n' {
                assert(l.contains('\n'));
            }
        }
        assert(ls.last() == ls[ls.len() - 1]);
        lemma_lines_around(a, ls.last());
        lemma_lines_single(ls.last());
        assert(lines(join(ls, seq!['\n'])) =~= ls);
    }
}


/// A character in neither of two texts is not in the two together.
pub proof fn lemma_concat_avoids(a: Seq<char>, b: Seq<char>, c: char)
    requires
        !a.contains(c),
        !b.contains(c),
    ensures
        !(a + b).contains(c),
{
    if (a + b).contains(c) {
        let j = choose|j: int| 0 <= j < (a + b).len() && (a + b)[j] == c;
        if j < a.len() {
            assert(a[j] == c);
        } else {
            assert(b[j - a.len()] == c);
        }
    }
}


/// What `trim_start` leaves is a suffix, and begins with a non-whitespace
/// character where it is not empty.
pub proof fn lemma_trim_start_suffix(s: Seq<char>) -> (j: int)
    ensures
        0 <= j <= s.len(),
        trim_start(s) == s.skip(j),
        trim_start(s).len() > 0 ==> !is_white_space(trim_start(s)[0]),
        forall|i: int| 0 <= i < j ==> is_white_space(#[trigger] s[i]),
    decreases s.len(),
{
    if s.len() > 0 && is_white_space(s[0]) {
        let j = lemma_trim_start_suffix(s.drop_first());
        assert(s.drop_first().skip(j) =~= s.skip(j + 1));
        assert forall|i: int| 0 <= i < j + 1 implies is_white_space(#[trigger] s[i]) by {
            if i > 0 {
                assert(s[i] == s.drop_first()[i - 1]);
            }
        }
        j + 1
    } else {
        assert(s.skip(0) =~= s);
        0
    }
}

/// What `trim_end` leaves is a prefix, and ends with a non-whitespace
/// character where it is not empty.
pub proof fn lemma_trim_end_prefix(s: Seq<char>) -> (j: int)
    ensures
        0 <= j <= s.len(),
        trim_end(s) == s.take(j),
        trim_end(s).len() > 0 ==> !is_white_space(trim_end(s).last()),
        forall|i: int| j <= i < s.len() ==> is_white_space(#[trigger] s[i]),
    decreases s.len(),
{
    if s.len() > 0 && is_white_space(s.last()) {
        let j = lemma_trim_end_prefix(s.drop_last());
        assert(s.drop_last().take(j) =~= s.take(j));
        assert forall|i: int| j <= i < s.len() implies is_white_space(#[trigger] s[i]) by {
            if i < s.len() - 1 {
                assert(s[i] == s.drop_last()[i]);
            }
        }
        j
    } else {
        assert(s.take(s.len() as int) =~= s);
        s.len() as int
    }
}

/// What `trim` leaves is a part of the text that is its own trim.
pub proof fn lemma_trim_part(s: Seq<char>) -> (r: (int, int))
    ensures
        0 <= r.0 <= r.1 <= s.len(),
        trim(s) == s.subrange(r.0, r.1),
        trim(trim(s)) == trim(s),
{
    let a = lemma_trim_start_suffix(s);
    let ts = trim_start(s);
    let b = lemma_trim_end_prefix(ts);
    assert(ts.take(b) =~= s.subrange(a, a + b));
    let t = trim(s);
    if t.len() > 0 {
        assert(t[0] == ts[0]);
    }
    lemma_trimmed(t);
    (a, a + b)
}

/// A character not in a text is not in any part of it.
pub proof fn lemma_subrange_avoids(s: Seq<char>, a: int, b: int, c: char)
    requires
        0 <= a <= b <= s.len(),
        !s.contains(c),
    ensures
        !s.subrange(a, b).contains(c),
{
    if s.subrange(a, b).contains(c) {
        let j = choose|j: int| 0 <= j < b - a && s.subrange(a, b)[j] == c;
        assert(s[a + j] == c);
    }
}

/// A character not in a text is not in its trim.
pub proof fn lemma_trim_avoids(s: Seq<char>, c: char)
    requires
        !s.contains(c),
    ensures
        !trim(s).contains(c),
        !trim_start(s).contains(c),
{
    let r = lemma_trim_part(s);
    lemma_subrange_avoids(s, r.0, r.1, c);
    let j = lemma_trim_start_suffix(s);
    lemma_subrange_avoids(s, j, s.len() as int, c);
    assert(s.skip(j) =~= s.subrange(j, s.len() as int));
}

/// The pieces of a split hold no separator, and no character that the whole
/// text does not hold.
pub proof fn lemma_split_pieces_avoid(s: Seq<char>, c: char, d: char)
    requires
        !s.contains(d),
    ensures
        forall|i: int| 0 <= i < split(s, Sep::Char(c)).len() ==> !(#[trigger] split(s, Sep::Char(c))[i]).contains(c)
            && !split(s, Sep::Char(c))[i].contains(d),
    decreases s.len(),
{
    let sep = Sep::Char(c);
    lemma_first_sep(s, sep);
    let k = first_sep(s, sep);
    let ps = split(s, sep);
    if 0 <= k < s.len() {
        let head = s.take(k);
        lemma_subrange_avoids(s, 0, k, d);
        assert(s.subrange(0, k) =~= head);
        assert(!head.contains(c)) by {
            if head.contains(c) {
                let j = choose|j: int| 0 <= j < head.len() && head[j] == c;
                assert(s[j] == c);
            }
        }
        let tail = s.skip(k + 1);
        lemma_subrange_avoids(s, k + 1, s.len() as int, d);
        assert(s.subrange(k + 1, s.len() as int) =~= tail);
        lemma_split_pieces_avoid(tail, c, d);
        assert forall|i: int| 0 <= i < ps.len() implies !(#[trigger] ps[i]).contains(c) && !ps[i].contains(d) by {
            if i > 0 {
                assert(ps[i] == split(tail, sep)[i - 1]);
            }
        }
    } else {
        assert(!s.contains(c)) by {
            if s.contains(c) {
                let j = choose|j: int| 0 <= j < s.len() && s[j] == c;
                assert(is_sep(sep, s[j]));
            }
        }
    }
}


/// `trim_end` keeps a prefix of the text that ends with a non-whitespace
/// character.
pub proof fn lemma_trim_end_keeps(s: Seq<char>, i: int)
    requires
        0 < i <= s.len(),
        !is_white_space(s[i - 1]),
    ensures
        trim_end(s).len() >= i,
        trim_end(s).take(i) == s.take(i),
    decreases s.len(),
{
    if s.len() > i && is_white_space(s.last()) {
        lemma_trim_end_keeps(s.drop_last(), i);
        assert(s.drop_last().take(i) =~= s.take(i));
    } else if s.len() == i || !is_white_space(s.last()) {
    }
}


/// Whether a text holds only whitespace.
pub open spec fn all_white(w: Seq<char>) -> bool {
    forall|j: int| 0 <= j < w.len() ==> is_white_space(#[trigger] w[j])
}

pub proof fn lemma_trim_end_take(s: Seq<char>, i: int)
    requires
        0 <= i <= s.len(),
        forall|j: int| i <= j < s.len() ==> is_white_space(#[trigger] s[j]),
    ensures
        trim_end(s) == trim_end(s.take(i)),
    decreases s.len() - i,
{
    if i < s.len() {
        assert(is_white_space(s[s.len() - 1]));
        assert(s.drop_last().take(i) =~= s.take(i));
        assert forall|j: int| i <= j < s.len() - 1 implies is_white_space(#[trigger] s.drop_last()[j]) by {
            assert(s.drop_last()[j] == s[j]);
        }
        lemma_trim_end_take(s.drop_last(), i);
    } else {
        assert(s.take(i) =~= s);
    }
}

/// A text of whitespace trims to nothing.
pub proof fn lemma_trim_all_white(w: Seq<char>)
    requires
        all_white(w),
    ensures
        trim(w).len() == 0,
        trim_start(w).len() == 0,
{
    lemma_trim_start_skip(w, w.len() as int);
    assert(w.skip(w.len() as int) =~= Seq::<char>::empty());
}

/// Whitespace before a text does not change its trim.
pub proof fn lemma_trim_white_before(w: Seq<char>, y: Seq<char>)
    requires
        all_white(w),
    ensures
        trim(w + y) == trim(y),
{
    let s = w + y;
    assert forall|j: int| 0 <= j < w.len() implies is_white_space(#[trigger] s[j]) by {
        assert(s[j] == w[j]);
    }
    lemma_trim_start_skip(s, w.len() as int);
    assert(s.skip(w.len() as int) =~= y);
}

/// Whitespace after a text does not change its trim.
pub proof fn lemma_trim_white_after(y: Seq<char>, w: Seq<char>)
    requires
        all_white(w),
    ensures
        trim(y + w) == trim(y),
{
    let s = y + w;
    let j = lemma_trim_start_suffix(y);
    assert forall|i: int| 0 <= i < j implies is_white_space(#[trigger] s[i]) by {
        assert(s[i] == y[i]);
    }
    if j < y.len() {
        lemma_trim_start_skip(s, j);
        assert(s.skip(j) =~= y.skip(j) + w);
        assert(y.skip(j)[0] == y[j]);
        lemma_trim_start_stop(s.skip(j));
        let ys = y.skip(j);
        let sw = ys + w;
        assert forall|i: int| ys.len() <= i < sw.len() implies is_white_space(#[trigger] sw[i]) by {
            assert(sw[i] == w[i - ys.len()]);
        }
        lemma_trim_end_take(sw, ys.len() as int);
        assert(sw.take(ys.len() as int) =~= ys);
    } else {
        assert forall|i: int| 0 <= i < s.len() implies is_white_space(#[trigger] s[i]) by {
            if i < y.len() {
                assert(s[i] == y[i]);
            } else {
                assert(s[i] == w[i - y.len()]);
            }
        }
        lemma_trim_all_white(s);
        assert(y.skip(j) =~= Seq::<char>::empty());
    }
}

/// Dropping a carriage return at the end does not change the trim.
pub proof fn lemma_trim_strip_cr(y: Seq<char>)
    ensures
        trim(strip_cr(y)) == trim(y),
{
    if y.len() > 0 && y.last() == '\r' {
        let w = seq!['\r'];
        assert(is_white_space('\r'));
        lemma_trim_white_after(y.drop_last(), w);
        assert(y.drop_last() + w =~= y);
    }
}


// ---------------------------------------------------------------------------
// Facts about making ASCII capitals small
// ---------------------------------------------------------------------------

/// Making ASCII capitals small turns no character into whitespace, `,` or
/// `;`, and none of those into another character.
pub proof fn lemma_ascii_lower_char_sep(c: char)
    ensures
        is_white_space(ascii_lower_char(c)) == is_white_space(c),
        is_sep(Sep::QueryPunct, ascii_lower_char(c)) == is_sep(Sep::QueryPunct, c),
{
}

/// A text and its small-letter form have their first query separator at
/// the same place.
pub proof fn lemma_first_sep_ascii_lower(s: Seq<char>)
    ensures
        first_sep(ascii_lower(s), Sep::QueryPunct) == first_sep(s, Sep::QueryPunct),
    decreases s.len(),
{
    if s.len() > 0 {
        lemma_ascii_lower_char_sep(s[0]);
        assert(ascii_lower(s).drop_first() =~= ascii_lower(s.drop_first()));
        lemma_first_sep_ascii_lower(s.drop_first());
    }
}

/// Splitting a text's small-letter form at query separators gives the
/// small-letter forms of the text's pieces.
pub proof fn lemma_split_ascii_lower(s: Seq<char>)
    ensures
        split(ascii_lower(s), Sep::QueryPunct).len() == split(s, Sep::QueryPunct).len(),
        forall|i: int|
            0 <= i < split(s, Sep::QueryPunct).len() ==> #[trigger] split(ascii_lower(s), Sep::QueryPunct)[i]
                == ascii_lower(split(s, Sep::QueryPunct)[i]),
    decreases s.len(),
{
    let qp = Sep::QueryPunct;
    let k = first_sep(s, qp);
    lemma_first_sep_ascii_lower(s);
    lemma_first_sep(s, qp);
    if 0 <= k < s.len() {
        let t = s.skip(k + 1);
        assert(ascii_lower(s).take(k) =~= ascii_lower(s.take(k)));
        assert(ascii_lower(s).skip(k + 1) =~= ascii_lower(t));
        lemma_split_ascii_lower(t);
        assert(split(s, qp) == seq![s.take(k)] + split(t, qp));
        assert(split(ascii_lower(s), qp) == seq![ascii_lower(s.take(k))] + split(ascii_lower(t), qp));
        assert forall|i: int| 0 <= i < split(s, qp).len() implies #[trigger] split(ascii_lower(s), qp)[i]
            == ascii_lower(split(s, qp)[i]) by {
            if i > 0 {
                assert(split(ascii_lower(s), qp)[i] == split(ascii_lower(t), qp)[i - 1]);
                assert(split(s, qp)[i] == split(t, qp)[i - 1]);
            }
        }
    } else {
        assert(split(s, qp) == seq![s]);
        assert(split(ascii_lower(s), qp) == seq![ascii_lower(s)]);
    }
}

/// Trimming at the start commutes with making ASCII capitals small.
pub proof fn lemma_trim_start_ascii_lower(s: Seq<char>)
    ensures
        trim_start(ascii_lower(s)) == ascii_lower(trim_start(s)),
    decreases s.len(),
{
    if s.len() > 0 {
        lemma_ascii_lower_char_sep(s[0]);
        assert(ascii_lower(s).drop_first() =~= ascii_lower(s.drop_first()));
        lemma_trim_start_ascii_lower(s.drop_first());
    }
}

/// Trimming at the end commutes with making ASCII capitals small.
pub proof fn lemma_trim_end_ascii_lower(s: Seq<char>)
    ensures
        trim_end(ascii_lower(s)) == ascii_lower(trim_end(s)),
    decreases s.len(),
{
    if s.len() > 0 {
        lemma_ascii_lower_char_sep(s.last());
        assert(ascii_lower(s).drop_last() =~= ascii_lower(s.drop_last()));
        lemma_trim_end_ascii_lower(s.drop_last());
    }
}

/// Trimming commutes with making ASCII capitals small.
pub proof fn lemma_trim_ascii_lower(s: Seq<char>)
    ensures
        trim(ascii_lower(s)) == ascii_lower(trim(s)),
{
    lemma_trim_start_ascii_lower(s);
    lemma_trim_end_ascii_lower(trim_start(s));
}


// ---------------------------------------------------------------------------
// Laws of counting, ordering and decimals
// ---------------------------------------------------------------------------

/// Occurrences of a non-empty pattern are counted without overlap: they
/// never number more than fit side by side in the text, and there is one
/// exactly when the pattern occurs somewhere.
pub proof fn lemma_count_matches_bounds(s: Seq<char>, pat: Seq<char>)
    requires
        pat.len() > 0,
    ensures
        count_matches(s, pat) * pat.len() <= s.len(),
        count_matches(s, pat) > 0 <==> has_substring(s, pat),
    decreases s.len(),
{
    if s.len() < pat.len() {
        assert(count_matches(s, pat) == 0);
        assert(0 * pat.len() == 0) by (nonlinear_arith);
        if has_substring(s, pat) {
            let i = choose|i: int| occurs_at(s, pat, i);
            assert(occurs_at(s, pat, i));
        }
    } else if s.take(pat.len() as int) == pat {
        let t = s.skip(pat.len() as int);
        lemma_count_matches_bounds(t, pat);
        assert(count_matches(s, pat) * pat.len() == count_matches(t, pat) * pat.len() + pat.len()) by (nonlinear_arith)
            requires count_matches(s, pat) == 1 + count_matches(t, pat);
        assert(occurs_at(s, pat, 0)) by {
            assert(s.subrange(0, pat.len() as int) =~= s.take(pat.len() as int));
        }
    } else {
        let t = s.drop_first();
        lemma_count_matches_bounds(t, pat);
        assert(count_matches(s, pat) == count_matches(t, pat));
        if has_substring(t, pat) {
            let i = choose|i: int| occurs_at(t, pat, i);
            assert(occurs_at(s, pat, i + 1)) by {
                assert(s.subrange(i + 1, i + 1 + pat.len()) =~= t.subrange(i, i + pat.len()));
            }
        }
        if has_substring(s, pat) {
            let i = choose|i: int| occurs_at(s, pat, i);
            if i == 0 {
                assert(s.subrange(0, pat.len() as int) =~= s.take(pat.len() as int));
            } else {
                assert(t.subrange(i - 1, i - 1 + pat.len()) =~= s.subrange(i, i + pat.len()));
                assert(occurs_at(t, pat, i - 1));
            }
        }
    }
}

/// Texts are ordered as `String` orders them: a proper prefix sorts first,
/// and else the first differing character decides, by code point.
pub proof fn lemma_lex_less_order(a: Seq<char>, x: Seq<char>, c1: char, c2: char, y: Seq<char>, z: Seq<char>)
    ensures
        x.len() > 0 ==> lex_less(a, a + x),
        !lex_less(a + x, a),
        (c1 as int) < (c2 as int) ==> lex_less(a + seq![c1] + y, a + seq![c2] + z),
    decreases a.len(),
{
    if a.len() == 0 {
        assert(a + x =~= x);
        assert((a + seq![c1] + y)[0] == c1);
        assert((a + seq![c2] + z)[0] == c2);
    } else {
        lemma_lex_less_order(a.drop_first(), x, c1, c2, y, z);
        assert((a + x).drop_first() =~= a.drop_first() + x);
        assert((a + x)[0] == a[0]);
        assert((a + seq![c1] + y).drop_first() =~= a.drop_first() + seq![c1] + y);
        assert((a + seq![c2] + z).drop_first() =~= a.drop_first() + seq![c2] + z);
        assert((a + seq![c1] + y)[0] == a[0]);
        assert((a + seq![c2] + z)[0] == a[0]);
    }
}

/// The number that a text of decimal digits denotes, read from the left.
pub open spec fn digits_value(s: Seq<char>) -> int
    decreases s.len(),
{
    if s.len() == 0 {
        0
    } else {
        digits_value(s.drop_last()) * 10 + ((s.last() as int) - 48)
    }
}

/// The decimal notation of a number is made of digits, starts with a zero
/// only for zero itself, and denotes the number.
pub proof fn lemma_decimal_denotes(n: nat)
    ensures
        decimal(n).len() > 0,
        forall|i: int| 0 <= i < decimal(n).len() ==> '0' <= #[trigger] decimal(n)[i] <= '9',
        n > 0 ==> decimal(n)[0] != '0',
        digits_value(decimal(n)) == n,
    decreases n,
{
    if n >= 10 {
        lemma_decimal_denotes(n / 10);
        let d = decimal(n / 10);
        assert(decimal(n).drop_last() =~= d);
        assert(decimal(n)[0] == d[0]);
        assert(decimal(n).last() == digit_char(n % 10));
        assert((digit_char(n % 10) as int) == 48 + n % 10);
        assert(digits_value(decimal(n)) == digits_value(d) * 10 + ((decimal(n).last() as int) - 48));
        assert(n == (n / 10) * 10 + n % 10);
    } else {
        let one = seq![digit_char(n)];
        assert((digit_char(n) as int) == 48 + n);
        assert(one.drop_last() =~= Seq::<char>::empty());
        assert(one.last() == digit_char(n));
        assert(digits_value(one) == digits_value(one.drop_last()) * 10 + ((one.last() as int) - 48));
        assert(digits_value(one.drop_last()) == 0);
    }
}

} // verus!
