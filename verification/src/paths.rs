//! A model of filesystem paths as plain strings of `/`-separated segments.
//!
//! Every definition here is a total function of the path string: the final
//! segment (file name), the directory prefix (parent), the extension of the
//! final segment, and segment membership anywhere in a path's ancestry.

use vstd::prelude::*;

verus! {

/// Index of the last occurrence of `c` in `s`, or `-1` if `c` does not occur.
pub open spec fn last_index_of_char(s: Seq<char>, c: char) -> int
    decreases s.len(),
{
    if s.len() == 0 {
        -1
    } else if s.last() == c {
        s.len() - 1
    } else {
        last_index_of_char(s.drop_last(), c)
    }
}

/// `last_index_of_char` is in range, points at `c`, and nothing after it is `c`.
pub proof fn lemma_last_index_of_char(s: Seq<char>, c: char)
    ensures
        -1 <= last_index_of_char(s, c) < s.len(),
        last_index_of_char(s, c) >= 0 ==> s[last_index_of_char(s, c)] == c,
        forall|j: int| last_index_of_char(s, c) < j < s.len() ==> s[j] != c,
    decreases s.len(),
{
    if s.len() != 0 && s.last() != c {
        lemma_last_index_of_char(s.drop_last(), c);
        assert forall|j: int| last_index_of_char(s, c) < j < s.len() implies s[j] != c by {
            if j < s.len() - 1 {
                assert(s.drop_last()[j] == s[j]);
            }
        }
    }
}

/// Appending one character either makes it the last occurrence or leaves the
/// last occurrence unchanged.
pub proof fn lemma_last_index_push(p: Seq<char>, x: char, c: char)
    ensures
        last_index_of_char(p.push(x), c) == if x == c {
            p.len() as int
        } else {
            last_index_of_char(p, c)
        },
{
    let q = p.push(x);
    assert(q.last() == x);
    assert(q.drop_last() =~= p);
}

/// The final path segment: everything after the last `/` (the whole string
/// when there is no `/`).
pub open spec fn file_name_of(s: Seq<char>) -> Seq<char> {
    s.subrange(last_index_of_char(s, '/') + 1, s.len() as int)
}

/// The directory prefix: everything strictly before the last `/` (empty when
/// there is no `/`).
pub open spec fn parent_of(s: Seq<char>) -> Seq<char> {
    if last_index_of_char(s, '/') < 0 {
        Seq::empty()
    } else {
        s.subrange(0, last_index_of_char(s, '/'))
    }
}

/// The directory prefix is strictly shorter than a non-empty path.
pub proof fn lemma_parent_shorter(s: Seq<char>)
    requires
        s.len() > 0,
    ensures
        parent_of(s).len() < s.len(),
{
    lemma_last_index_of_char(s, '/');
}

/// The final segment of `s` has extension `ext`: the part after the last `.`
/// equals `ext`, and that `.` is not the segment's first character.
pub open spec fn extension_matches(s: Seq<char>, ext: Seq<char>) -> bool {
    let name = file_name_of(s);
    let dot = last_index_of_char(name, '.');
    dot > 0 && name.subrange(dot + 1, name.len() as int) == ext
}

/// Some ancestor of `s` (including `s` itself) has `seg` as its final
/// segment: `seg` occurs as a whole segment in the path.
pub open spec fn has_ancestor_segment(s: Seq<char>, seg: Seq<char>) -> bool
    decreases s.len(),
    via has_ancestor_segment_decreases
{
    if s.len() == 0 {
        false
    } else if file_name_of(s) == seg {
        true
    } else {
        has_ancestor_segment(parent_of(s), seg)
    }
}

#[via_fn]
proof fn has_ancestor_segment_decreases(s: Seq<char>, seg: Seq<char>) {
    if s.len() > 0 {
        lemma_parent_shorter(s);
    }
}

/// Index of the last occurrence of `c` in `s`, if any.
fn last_char_index(s: &str, c: char) -> (r: Option<usize>)
    ensures
        match r {
            Some(i) => i == last_index_of_char(s@, c),
            None => last_index_of_char(s@, c) == -1,
        },
{
    let n = s.unicode_len();
    let mut i: usize = 0;
    let mut found: Option<usize> = None;
    while i < n
        invariant
            i <= n,
            n == s@.len(),
            match found {
                Some(k) => k < i && k == last_index_of_char(s@.subrange(0, i as int), c),
                None => last_index_of_char(s@.subrange(0, i as int), c) == -1,
            },
        decreases n - i,
    {
        let ch = s.get_char(i);
        proof {
            lemma_last_index_push(s@.subrange(0, i as int), s@[i as int], c);
            assert(s@.subrange(0, i as int).push(s@[i as int]) =~= s@.subrange(
                0,
                i + 1 as int,
            ));
        }
        if ch == c {
            found = Some(i);
        }
        i = i + 1;
    }
    proof {
        assert(s@.subrange(0, n as int) =~= s@);
    }
    found
}

/// Character-for-character string equality.
pub fn str_eq(a: &str, b: &str) -> (r: bool)
    ensures
        r == (a@ == b@),
{
    let n = a.unicode_len();
    if n != b.unicode_len() {
        return false;
    }
    let mut i: usize = 0;
    while i < n
        invariant
            i <= n,
            n == a@.len(),
            n == b@.len(),
            forall|j: int| 0 <= j < i ==> a@[j] == b@[j],
        decreases n - i,
    {
        if a.get_char(i) != b.get_char(i) {
            return false;
        }
        i = i + 1;
    }
    proof {
        assert(a@ =~= b@);
    }
    true
}

/// The final segment of `s` as a slice of `s`.
fn file_name_part<'a>(s: &'a str) -> (r: &'a str)
    ensures
        r@ == file_name_of(s@),
{
    let n = s.unicode_len();
    match last_char_index(s, '/') {
        Some(j) => {
            proof {
                lemma_last_index_of_char(s@, '/');
            }
            s.substring_char(j + 1, n)
        },
        None => {
            proof {
                assert(s@.subrange(0, n as int) =~= s@);
            }
            s
        },
    }
}

/// The directory prefix of `s` as a slice of `s`.
fn parent_part<'a>(s: &'a str) -> (r: &'a str)
    ensures
        r@ == parent_of(s@),
{
    match last_char_index(s, '/') {
        Some(j) => {
            proof {
                lemma_last_index_of_char(s@, '/');
            }
            s.substring_char(0, j)
        },
        None => {
            let r = s.substring_char(0, 0);
            proof {
                assert(r@ =~= Seq::<char>::empty());
            }
            r
        },
    }
}

/// The directory prefix of `s` as an owned string.
pub fn parent_string(s: &str) -> (r: String)
    ensures
        r@ == parent_of(s@),
{
    parent_part(s).to_owned()
}

/// The final segment of `s` as an owned string.
pub fn file_name_string(s: &str) -> (r: String)
    ensures
        r@ == file_name_of(s@),
{
    file_name_part(s).to_owned()
}

/// Whether the final segment of `path` equals `name`.
pub fn file_name_is(path: &str, name: &str) -> (r: bool)
    ensures
        r == (file_name_of(path@) == name@),
{
    str_eq(file_name_part(path), name)
}

/// Whether the final segment of `path` has extension `extension`.
pub fn has_extension(path: &str, extension: &str) -> (r: bool)
    ensures
        r == extension_matches(path@, extension@),
{
    let name = file_name_part(path);
    let n = name.unicode_len();
    match last_char_index(name, '.') {
        Some(dot) => {
            if dot > 0 {
                proof {
                    lemma_last_index_of_char(name@, '.');
                }
                str_eq(name.substring_char(dot + 1, n), extension)
            } else {
                false
            }
        },
        None => false,
    }
}

/// Whether some ancestor of `path` (including itself) has `parent` as its
/// final segment.
pub fn has_parent(path: &str, parent: &str) -> (r: bool)
    ensures
        r == has_ancestor_segment(path@, parent@),
    decreases path@.len(),
{
    if path.unicode_len() == 0 {
        false
    } else if file_name_is(path, parent) {
        true
    } else {
        proof {
            lemma_parent_shorter(path@);
        }
        has_parent(parent_part(path), parent)
    }
}

} // verus!
