use vstd::prelude::*;
use crate::names::{last_index_of, lemma_last_index_of_at, lemma_last_index_of_none};

verus! {

// An archive entry is named by a `/`-separated path.  An image entry is one
// whose name ends in `.png` or `.jpg`; its output file name is the path's
// basename: the last path component, with trailing separators and `.`
// components ignored, and no basename at all for an empty path or one that
// ends in the parent component `..`.

/// Whether `tail` ends `s`.
pub open spec fn has_suffix(s: Seq<char>, tail: Seq<char>) -> bool {
    s.len() >= tail.len() && s.subrange(s.len() - tail.len(), s.len() as int) == tail
}

pub open spec fn png_tail() -> Seq<char> {
    seq!['.', 'p', 'n', 'g']
}

pub open spec fn jpg_tail() -> Seq<char> {
    seq!['.', 'j', 'p', 'g']
}

/// Whether an entry name is selected for extraction (the match is
/// case-sensitive).
pub open spec fn is_image_name(s: Seq<char>) -> bool {
    has_suffix(s, png_tail()) || has_suffix(s, jpg_tail())
}

/// Whether the entry name `s` is selected for extraction.
pub fn is_image(s: &str) -> (b: bool)
    ensures
        b == is_image_name(s@),
{
    let n = s.unicode_len();
    if n < 4 {
        proof {
            assert(!has_suffix(s@, png_tail()));
            assert(!has_suffix(s@, jpg_tail()));
        }
        return false;
    }
    let dot = s.get_char(n - 4);
    let c1 = s.get_char(n - 3);
    let c2 = s.get_char(n - 2);
    let c3 = s.get_char(n - 1);
    let b = dot == '.' && ((c1 == 'p' && c2 == 'n' && c3 == 'g') || (c1 == 'j' && c2 == 'p' && c3
        == 'g'));
    proof {
        let pt = s@.subrange(n - 4, n as int);
        assert(pt[0] == s@[n - 4] && pt[1] == s@[n - 3] && pt[2] == s@[n - 2] && pt[3] == s@[n
            - 1]);
        if b {
            if c1 == 'p' {
                assert(pt =~= png_tail());
            } else {
                assert(pt =~= jpg_tail());
            }
        }
    }
    b
}

/// The name with trailing separators and trailing `.` components removed.
pub open spec fn strip_path_tail(s: Seq<char>) -> Seq<char>
    decreases s.len(),
{
    if s.len() == 0 {
        s
    } else if s.last() == '/' {
        strip_path_tail(s.drop_last())
    } else if s.last() == '.' && (s.len() == 1 || s[s.len() - 2] == '/') {
        strip_path_tail(s.drop_last())
    } else {
        s
    }
}

/// The basename of an entry name: its last path component, with trailing
/// separators and `.` components ignored; `None` when nothing remains or the
/// path ends in the parent component `..`.
pub open spec fn base_of(s: Seq<char>) -> Option<Seq<char>> {
    let t = strip_path_tail(s);
    let b = match last_index_of(t, '/') {
        None => t,
        Some(k) => t.subrange(k + 1, t.len() as int),
    };
    if b.len() == 0 || b == seq!['.', '.'] {
        None
    } else {
        Some(b)
    }
}

/// The basename of an entry name.
pub fn base_name(s: &str) -> (r: Option<String>)
    ensures
        match r {
            Some(b) => base_of(s@) == Some(b@),
            None => base_of(s@) is None,
        },
{
    let n = s.unicode_len();
    proof {
        assert(s@.subrange(0, n as int) =~= s@);
    }
    let mut e: usize = n;
    while e > 0 && (s.get_char(e - 1) == '/' || (s.get_char(e - 1) == '.' && (e == 1 || s.get_char(
        e - 2,
    ) == '/')))
        invariant
            0 <= e <= n,
            n == s@.len(),
            strip_path_tail(s@) == strip_path_tail(s@.subrange(0, e as int)),
        decreases e,
    {
        proof {
            let t = s@.subrange(0, e as int);
            assert(t.drop_last() =~= s@.subrange(0, e - 1));
        }
        e -= 1;
    }
    proof {
        let t = s@.subrange(0, e as int);
        if e > 0 {
            assert(t.last() == s@[e - 1]);
            if e >= 2 {
                assert(t[e - 2] == s@[e - 2]);
            }
            assert(strip_path_tail(t) == t);
        }
    }
    let ghost t = strip_path_tail(s@);
    let mut b: usize = e;
    while b > 0 && s.get_char(b - 1) != '/'
        invariant
            0 <= b <= e <= n,
            n == s@.len(),
            t == s@.subrange(0, e as int),
            forall|m: int| b <= m < e ==> s@[m] != '/',
        decreases b,
    {
        b -= 1;
    }
    proof {
        if b == 0 {
            assert(forall|m: int| 0 <= m < t.len() ==> t[m] == s@[m] && s@[m] != '/');
            lemma_last_index_of_none(t, '/');
            assert(t.subrange(0, e as int) =~= t);
        } else {
            assert(t[b - 1] == s@[b - 1] && s@[b - 1] == '/');
            assert(forall|m: int| b <= m < t.len() ==> t[m] == s@[m] && s@[m] != '/');
            lemma_last_index_of_at(t, '/', b - 1);
        }
        assert(t.subrange(b as int, e as int) =~= s@.subrange(b as int, e as int));
    }
    if b == e {
        return None;
    }
    if e - b == 2 && s.get_char(b) == '.' && s.get_char(b + 1) == '.' {
        proof {
            assert(s@.subrange(b as int, e as int) =~= seq!['.', '.']);
        }
        return None;
    }
    proof {
        let sub = s@.subrange(b as int, e as int);
        if sub == seq!['.', '.'] {
            assert(sub.len() == 2 && sub[0] == '.' && sub[1] == '.');
            assert(s@[b as int] == '.' && s@[b + 1] == '.');
        }
    }
    Some(String::from_str(s.substring_char(b, e)))
}

} // verus!
