use vstd::prelude::*;

verus! {

// Output directory names are derived from an archive's file stem.  Unless the
// caller asks for the full name, any edition marker is removed first: a
// substring of the shape `【...】` or `(... Edition)`, where the elided part is
// one or more characters, none of them a line break, taken as short as
// possible; non-overlapping markers are removed left to right.  The result is
// then trimmed of surrounding whitespace.

/// A character the elided part of a marker may contain: anything but a line break.
pub open spec fn spans_char(c: char) -> bool {
    c != '\n'
}

/// The position of the closing `】` for an elided part that starts before `p`:
/// the first `】` at or after `p`, provided only span characters stand in the
/// way; `None` if a line break or the end of the text comes first.
pub open spec fn close_from(s: Seq<char>, p: int) -> Option<int>
    decreases s.len() - p,
    when 0 <= p <= s.len()
{
    if p >= s.len() {
        None
    } else if s[p] == '】' {
        Some(p)
    } else if !spans_char(s[p]) {
        None
    } else {
        close_from(s, p + 1)
    }
}

/// End (exclusive) of a `【...】` marker starting at `i`, if one starts there.
pub open spec fn bracket_end(s: Seq<char>, i: int) -> Option<int> {
    if 0 <= i && i + 1 < s.len() && s[i] == '【' && spans_char(s[i + 1]) {
        match close_from(s, i + 2) {
            Some(c) => Some(c + 1),
            None => None,
        }
    } else {
        None
    }
}

/// The literal tail ` Edition)` of the parenthesised marker.
pub open spec fn edition_tail() -> Seq<char> {
    seq![' ', 'E', 'd', 'i', 't', 'i', 'o', 'n', ')']
}

/// End (exclusive) of the shortest `(... Edition)` marker whose elided part
/// reaches at least to `m`: the tail is tried at `m` first, and the elided
/// part grows one span character at a time.
pub open spec fn edition_from(s: Seq<char>, m: int) -> Option<int>
    decreases s.len() - m,
    when 0 <= m <= s.len()
{
    if m + 9 > s.len() {
        None
    } else if s.subrange(m, m + 9) == edition_tail() {
        Some(m + 9)
    } else if !spans_char(s[m]) {
        None
    } else {
        edition_from(s, m + 1)
    }
}

/// End (exclusive) of a `(... Edition)` marker starting at `i`, if one starts there.
pub open spec fn edition_end(s: Seq<char>, i: int) -> Option<int> {
    if 0 <= i && i + 1 < s.len() && s[i] == '(' && spans_char(s[i + 1]) {
        edition_from(s, i + 2)
    } else {
        None
    }
}

/// End (exclusive) of a marker starting at `i`, if one starts there.
pub open spec fn match_end(s: Seq<char>, i: int) -> Option<int> {
    if bracket_end(s, i) is Some {
        bracket_end(s, i)
    } else {
        edition_end(s, i)
    }
}

proof fn lemma_close_from_bounds(s: Seq<char>, p: int)
    requires
        0 <= p <= s.len(),
        close_from(s, p) is Some,
    ensures
        p <= close_from(s, p)->0 < s.len(),
    decreases s.len() - p,
{
    if p < s.len() && s[p] != '】' && spans_char(s[p]) {
        lemma_close_from_bounds(s, p + 1);
    }
}

proof fn lemma_edition_from_bounds(s: Seq<char>, m: int)
    requires
        0 <= m <= s.len(),
        edition_from(s, m) is Some,
    ensures
        m + 9 <= edition_from(s, m)->0 <= s.len(),
    decreases s.len() - m,
{
    if m + 9 <= s.len() && s.subrange(m, m + 9) != edition_tail() && spans_char(s[m]) {
        lemma_edition_from_bounds(s, m + 1);
    }
}

proof fn lemma_match_end_bounds(s: Seq<char>, i: int)
    requires
        0 <= i < s.len(),
        match_end(s, i) is Some,
    ensures
        i + 3 <= match_end(s, i)->0 <= s.len(),
{
    if bracket_end(s, i) is Some {
        lemma_close_from_bounds(s, i + 2);
    } else {
        lemma_edition_from_bounds(s, i + 2);
    }
}

/// The text from position `i` on, with every marker removed: a marker starting
/// at the scan position is dropped whole, any other character is kept.
pub open spec fn strip_from(s: Seq<char>, i: int) -> Seq<char>
    decreases s.len() - i,
    when 0 <= i <= s.len()
    via strip_from_decreases
{
    if i >= s.len() {
        Seq::empty()
    } else {
        match match_end(s, i) {
            Some(e) => strip_from(s, e),
            None => seq![s[i]] + strip_from(s, i + 1),
        }
    }
}

#[via_fn]
proof fn strip_from_decreases(s: Seq<char>, i: int) {
    if i < s.len() && match_end(s, i) is Some {
        lemma_match_end_bounds(s, i);
    }
}

/// `s` with all edition markers removed.
pub open spec fn strip_marks(s: Seq<char>) -> Seq<char> {
    strip_from(s, 0)
}

/// A whitespace character, in the sense directory names are trimmed by:
/// the Unicode `White_Space` set.
pub open spec fn is_space_char(c: char) -> bool {
    ||| c == '\u{9}'
    ||| c == '\u{a}'
    ||| c == '\u{b}'
    ||| c == '\u{c}'
    ||| c == '\u{d}'
    ||| c == ' '
    ||| c == '\u{85}'
    ||| c == '\u{a0}'
    ||| c == '\u{1680}'
    ||| c == '\u{2000}'
    ||| c == '\u{2001}'
    ||| c == '\u{2002}'
    ||| c == '\u{2003}'
    ||| c == '\u{2004}'
    ||| c == '\u{2005}'
    ||| c == '\u{2006}'
    ||| c == '\u{2007}'
    ||| c == '\u{2008}'
    ||| c == '\u{2009}'
    ||| c == '\u{200a}'
    ||| c == '\u{2028}'
    ||| c == '\u{2029}'
    ||| c == '\u{202f}'
    ||| c == '\u{205f}'
    ||| c == '\u{3000}'
}

pub open spec fn drop_leading_spaces(s: Seq<char>) -> Seq<char>
    decreases s.len(),
{
    if s.len() > 0 && is_space_char(s[0]) {
        drop_leading_spaces(s.subrange(1, s.len() as int))
    } else {
        s
    }
}

pub open spec fn drop_trailing_spaces(s: Seq<char>) -> Seq<char>
    decreases s.len(),
{
    if s.len() > 0 && is_space_char(s[s.len() - 1]) {
        drop_trailing_spaces(s.drop_last())
    } else {
        s
    }
}

/// `s` without surrounding whitespace.
pub open spec fn trimmed(s: Seq<char>) -> Seq<char> {
    drop_trailing_spaces(drop_leading_spaces(s))
}

proof fn lemma_drop_leading_is_subrange(s: Seq<char>, lo: int)
    requires
        0 <= lo <= s.len(),
        forall|k: int| 0 <= k < lo ==> is_space_char(s[k]),
        lo == s.len() || !is_space_char(s[lo]),
    ensures
        drop_leading_spaces(s) == s.subrange(lo, s.len() as int),
    decreases lo,
{
    if lo == 0 {
        assert(s.subrange(0, s.len() as int) =~= s);
    } else {
        let t = s.subrange(1, s.len() as int);
        lemma_drop_leading_is_subrange(t, lo - 1);
        assert(t.subrange(lo - 1, t.len() as int) =~= s.subrange(lo, s.len() as int));
    }
}

proof fn lemma_drop_trailing_is_subrange(s: Seq<char>, hi: int)
    requires
        0 <= hi <= s.len(),
        forall|k: int| hi <= k < s.len() ==> is_space_char(s[k]),
        hi == 0 || !is_space_char(s[hi - 1]),
    ensures
        drop_trailing_spaces(s) == s.subrange(0, hi),
    decreases s.len(),
{
    if hi == s.len() {
        assert(s.subrange(0, s.len() as int) =~= s);
    } else {
        lemma_drop_trailing_is_subrange(s.drop_last(), hi);
        assert(s.drop_last().subrange(0, hi) =~= s.subrange(0, hi));
    }
}

/// Whether `c` is whitespace in the trimming sense.
pub fn is_space(c: char) -> (b: bool)
    ensures
        b == is_space_char(c),
{
    c == '\u{9}' || c == '\u{a}' || c == '\u{b}' || c == '\u{c}' || c == '\u{d}' || c == ' '
        || c == '\u{85}' || c == '\u{a0}' || c == '\u{1680}' || c == '\u{2000}' || c == '\u{2001}'
        || c == '\u{2002}' || c == '\u{2003}' || c == '\u{2004}' || c == '\u{2005}'
        || c == '\u{2006}' || c == '\u{2007}' || c == '\u{2008}' || c == '\u{2009}'
        || c == '\u{200a}' || c == '\u{2028}' || c == '\u{2029}' || c == '\u{202f}'
        || c == '\u{205f}' || c == '\u{3000}'
}

/// `s` without surrounding whitespace.
pub fn trim_spaces(s: &str) -> (r: String)
    ensures
        r@ == trimmed(s@),
{
    let n = s.unicode_len();
    let mut lo: usize = 0;
    while lo < n && is_space(s.get_char(lo))
        invariant
            0 <= lo <= n,
            n == s@.len(),
            forall|k: int| 0 <= k < lo ==> is_space_char(s@[k]),
        decreases n - lo,
    {
        lo += 1;
    }
    let mut hi: usize = n;
    while hi > lo && is_space(s.get_char(hi - 1))
        invariant
            lo <= hi <= n,
            n == s@.len(),
            forall|k: int| 0 <= k < lo ==> is_space_char(s@[k]),
            forall|k: int| hi <= k < n ==> is_space_char(s@[k]),
        decreases hi,
    {
        hi -= 1;
    }
    proof {
        lemma_drop_leading_is_subrange(s@, lo as int);
        let t = s@.subrange(lo as int, n as int);
        lemma_drop_trailing_is_subrange(t, hi - lo);
        assert(t.subrange(0, hi - lo) =~= s@.subrange(lo as int, hi as int));
    }
    let sub = s.substring_char(lo, hi);
    String::from_str(sub)
}

/// The position of the last occurrence of `c` in `s`.
pub open spec fn last_index_of(s: Seq<char>, c: char) -> Option<int>
    decreases s.len(),
{
    if s.len() == 0 {
        None
    } else if s[s.len() - 1] == c {
        Some(s.len() - 1)
    } else {
        last_index_of(s.drop_last(), c)
    }
}

pub proof fn lemma_last_index_of_at(s: Seq<char>, c: char, k: int)
    requires
        0 <= k < s.len(),
        s[k] == c,
        forall|m: int| k < m < s.len() ==> s[m] != c,
    ensures
        last_index_of(s, c) == Some(k),
    decreases s.len(),
{
    if k < s.len() - 1 {
        lemma_last_index_of_at(s.drop_last(), c, k);
    }
}

pub proof fn lemma_last_index_of_none(s: Seq<char>, c: char)
    requires
        forall|m: int| 0 <= m < s.len() ==> s[m] != c,
    ensures
        last_index_of(s, c) is None,
    decreases s.len(),
{
    if s.len() > 0 {
        lemma_last_index_of_none(s.drop_last(), c);
    }
}

/// The stem of a file name: the part before the final `.`; the whole name when
/// there is no `.`, or when the only `.` is the leading character.
pub open spec fn stem_of(name: Seq<char>) -> Seq<char> {
    match last_index_of(name, '.') {
        None => name,
        Some(d) => if d == 0 {
            name
        } else {
            name.subrange(0, d)
        },
    }
}

/// Whether the marker tail ` Edition)` stands at position `m` of `s`.
fn edition_tail_at(s: &str, m: usize) -> (b: bool)
    requires
        m <= s@.len(),
    ensures
        b == (m + 9 <= s@.len() && s@.subrange(m as int, m as int + 9) == edition_tail()),
{
    let n = s.unicode_len();
    if n < 9 || m > n - 9 {
        return false;
    }
    let b = s.get_char(m) == ' ' && s.get_char(m + 1) == 'E' && s.get_char(m + 2) == 'd'
        && s.get_char(m + 3) == 'i' && s.get_char(m + 4) == 't' && s.get_char(m + 5) == 'i'
        && s.get_char(m + 6) == 'o' && s.get_char(m + 7) == 'n' && s.get_char(m + 8) == ')';
    proof {
        if b {
            assert(s@.subrange(m as int, m as int + 9) =~= edition_tail());
        } else {
            if s@.subrange(m as int, m as int + 9) == edition_tail() {
                assert(forall|k: int|
                    0 <= k < 9 ==> s@.subrange(m as int, m as int + 9)[k] == edition_tail()[k]);
            }
        }
    }
    b
}

/// The closing position for a `【...】` marker, scanning from `p`.
fn close_scan(s: &str, p: usize) -> (r: Option<usize>)
    requires
        p <= s@.len(),
    ensures
        match r {
            Some(c) => close_from(s@, p as int) == Some(c as int) && p <= c < s@.len(),
            None => close_from(s@, p as int) is None,
        },
    decreases s@.len() - p,
{
    let n = s.unicode_len();
    if p >= n {
        None
    } else {
        let c = s.get_char(p);
        if c == '】' {
            Some(p)
        } else if c == '\n' {
            None
        } else {
            close_scan(s, p + 1)
        }
    }
}

/// The end of a `(... Edition)` marker, scanning the tail from `m`.
fn edition_scan(s: &str, m: usize) -> (r: Option<usize>)
    requires
        m <= s@.len(),
    ensures
        match r {
            Some(e) => edition_from(s@, m as int) == Some(e as int) && m + 9 <= e <= s@.len(),
            None => edition_from(s@, m as int) is None,
        },
    decreases s@.len() - m,
{
    let n = s.unicode_len();
    if edition_tail_at(s, m) {
        Some(m + 9)
    } else if n < 9 || m > n - 9 {
        None
    } else if s.get_char(m) == '\n' {
        None
    } else {
        edition_scan(s, m + 1)
    }
}

/// The end of a marker starting at position `i` of `s`, if one starts there.
fn match_at(s: &str, i: usize) -> (r: Option<usize>)
    requires
        i < s@.len(),
    ensures
        match r {
            Some(e) => match_end(s@, i as int) == Some(e as int) && i < e <= s@.len(),
            None => match_end(s@, i as int) is None,
        },
{
    let n = s.unicode_len();
    let c = s.get_char(i);
    if c == '【' {
        if i + 1 < n && s.get_char(i + 1) != '\n' {
            match close_scan(s, i + 2) {
                Some(p) => Some(p + 1),
                None => None,
            }
        } else {
            None
        }
    } else if c == '(' {
        if i + 1 < n && s.get_char(i + 1) != '\n' {
            edition_scan(s, i + 2)
        } else {
            None
        }
    } else {
        None
    }
}

/// `s` with all edition markers removed.
pub fn remove_marks(s: &str) -> (r: String)
    ensures
        r@ == strip_marks(s@),
{
    let n = s.unicode_len();
    let mut out = String::new();
    let mut i: usize = 0;
    while i < n
        invariant
            0 <= i <= n,
            n == s@.len(),
            strip_marks(s@) == out@ + strip_from(s@, i as int),
        decreases n - i,
    {
        match match_at(s, i) {
            Some(e) => {
                i = e;
            },
            None => {
                let piece = s.substring_char(i, i + 1);
                proof {
                    assert(piece@ =~= seq![s@[i as int]]);
                    assert(out@ + (piece@ + strip_from(s@, i + 1)) =~= (out@ + piece@) + strip_from(
                        s@,
                        i + 1,
                    ));
                }
                out.append(piece);
                i += 1;
            },
        }
    }
    proof {
        assert(out@ + strip_from(s@, n as int) =~= out@);
    }
    out
}

/// The output directory name for an archive stem: the stem itself when
/// `fullname` is set, otherwise the stem with edition markers removed;
/// surrounding whitespace trimmed either way.
pub open spec fn dir_name_spec(stem: Seq<char>, fullname: bool) -> Seq<char> {
    if fullname {
        trimmed(stem)
    } else {
        trimmed(strip_marks(stem))
    }
}

/// The output directory name derived from an archive stem.
pub fn dest_dir_name(stem: &str, fullname: bool) -> (r: String)
    ensures
        r@ == dir_name_spec(stem@, fullname),
{
    if fullname {
        trim_spaces(stem)
    } else {
        let bare = remove_marks(stem);
        trim_spaces(bare.as_str())
    }
}

/// The stem of a file name.
pub fn file_stem(name: &str) -> (r: String)
    ensures
        r@ == stem_of(name@),
{
    let n = name.unicode_len();
    let mut j: usize = n;
    while j > 0 && name.get_char(j - 1) != '.'
        invariant
            0 <= j <= n,
            n == name@.len(),
            forall|m: int| j <= m < n ==> name@[m] != '.',
        decreases j,
    {
        j -= 1;
    }
    if j <= 1 {
        proof {
            if j == 0 {
                lemma_last_index_of_none(name@, '.');
            } else {
                lemma_last_index_of_at(name@, '.', 0);
            }
            assert(name@.subrange(0, n as int) =~= name@);
        }
        String::from_str(name.substring_char(0, n))
    } else {
        proof {
            lemma_last_index_of_at(name@, '.', j - 1);
        }
        String::from_str(name.substring_char(0, j - 1))
    }
}

} // verus!
