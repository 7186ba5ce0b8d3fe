//! Paths as text: the extension of the last segment, and how it is compared.

use vstd::prelude::*;

verus! {

/// A character that separates the segments of a path: `/` or `\`.
pub open spec fn is_separator(c: char) -> bool {
    c == '/' || c == '\\'
}

/// The index of the last character that is a dot or a separator, or -1 if
/// the text holds neither.
pub open spec fn last_mark(s: Seq<char>) -> int
    decreases s.len(),
{
    if s.len() == 0 {
        -1
    } else if s.last() == '.' || is_separator(s.last()) {
        s.len() - 1
    } else {
        last_mark(s.drop_last())
    }
}

/// The extension of a path: the text after the final dot of its last
/// segment. A last segment without a dot has none; one that ends in a dot
/// has the empty extension.
pub open spec fn extension(path: Seq<char>) -> Option<Seq<char>> {
    let mark = last_mark(path);
    if mark >= 0 && path[mark] == '.' {
        Some(path.skip(mark + 1))
    } else {
        None
    }
}

/// The code of a character, with the upper-case ASCII letters mapped to
/// their lower-case forms.
pub open spec fn ascii_fold(c: char) -> u32 {
    if 'A' <= c && c <= 'Z' {
        (c as u32 + 32) as u32
    } else {
        c as u32
    }
}

/// The two texts are equal but for the case of ASCII letters.
pub open spec fn eq_ignore_ascii_case(a: Seq<char>, b: Seq<char>) -> bool {
    &&& a.len() == b.len()
    &&& forall|i: int| 0 <= i < a.len() ==> ascii_fold(#[trigger] a[i]) == ascii_fold(b[i])
}

/// The path has an extension, and it is `wanted` but for the case of ASCII letters.
pub open spec fn has_extension(path: Seq<char>, wanted: Seq<char>) -> bool {
    match extension(path) {
        Some(found) => eq_ignore_ascii_case(found, wanted),
        None => false,
    }
}

proof fn lemma_last_mark(s: Seq<char>, k: int)
    requires
        -1 <= k < s.len(),
        k >= 0 ==> s[k] == '.' || is_separator(s[k]),
        forall|j: int| k < j < s.len() ==> (#[trigger] s[j]) != '.' && !is_separator(s[j]),
    ensures
        last_mark(s) == k,
    decreases s.len(),
{
    if s.len() > 0 && k < s.len() - 1 {
        assert(s.last() == s[s.len() - 1]);
        let front = s.drop_last();
        assert forall|j: int| k < j < front.len() implies (#[trigger] front[j]) != '.'
            && !is_separator(front[j]) by {
            assert(front[j] == s[j]);
        }
        lemma_last_mark(front, k);
    }
}

fn fold_case(c: char) -> (code: u32)
    ensures
        code == ascii_fold(c),
{
    if 'A' <= c && c <= 'Z' {
        c as u32 + 32
    } else {
        c as u32
    }
}

/// Where the extension of `path` begins, if it has one.
pub fn extension_start(path: &[char]) -> (start: Option<usize>)
    ensures
        match start {
            Some(k) => k <= path.len() && extension(path@) == Some(path@.skip(k as int)),
            None => extension(path@) is None,
        },
{
    let mut i: usize = path.len();
    while i > 0
        invariant
            i <= path.len(),
            forall|j: int| i <= j < path.len() ==> (#[trigger] path@[j]) != '.' && !is_separator(path@[j]),
        decreases i,
    {
        let c = path[i - 1];
        if c == '.' {
            proof {
                lemma_last_mark(path@, i - 1);
            }
            return Some(i);
        }
        if c == '/' || c == '\\' {
            proof {
                lemma_last_mark(path@, i - 1);
            }
            return None;
        }
        i -= 1;
    }
    proof {
        lemma_last_mark(path@, -1);
    }
    None
}

/// Whether `path` has the extension `wanted`, whatever the case of ASCII letters.
pub fn path_has_extension(path: &[char], wanted: &[char]) -> (has: bool)
    ensures
        has == has_extension(path@, wanted@),
{
    let start = match extension_start(path) {
        Some(start) => start,
        None => {
            return false;
        },
    };
    let ghost found = path@.skip(start as int);
    if path.len() - start != wanted.len() {
        return false;
    }
    let mut i: usize = 0;
    while i < wanted.len()
        invariant
            start <= path.len(),
            path.len() - start == wanted.len(),
            i <= wanted.len(),
            found == path@.skip(start as int),
            extension(path@) == Some(found),
            forall|j: int| 0 <= j < i ==> ascii_fold(#[trigger] found[j]) == ascii_fold(wanted@[j]),
        decreases wanted.len() - i,
    {
        if fold_case(path[start + i]) != fold_case(wanted[i]) {
            assert(found[i as int] == path@[start + i]);
            return false;
        }
        assert(found[i as int] == path@[start + i]);
        i += 1;
    }
    true
}

} // verus!
