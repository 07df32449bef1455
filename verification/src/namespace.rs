//! Path rules of the metadata namespace: which strings are directory and
//! file paths, what a path's parent is, and which name a path contributes
//! to a directory listing.

use crate::text::{
    concat2, contains_char, is_last_index_of, is_single_char, last_index_of, owned, slash,
    starts_with_str, substring,
};
use vstd::prelude::*;
use vstd::string::StrSliceExecFns;

verus! {

/// The root directory `/`.
pub open spec fn root() -> Seq<char> {
    seq!['/']
}

/// Absolute, free of NUL characters, and without a trailing `/` (the root excepted).
pub open spec fn dir_path_ok(p: Seq<char>) -> bool {
    &&& p.len() > 0
    &&& p[0] == '/'
    &&& !p.contains('\0')
    &&& !(p.len() > 1 && p.last() == '/')
}

/// A directory path other than the root.
pub open spec fn file_path_ok(p: Seq<char>) -> bool {
    dir_path_ok(p) && p != root()
}

/// The directory that holds `p`: everything before the last `/`, or the root.
pub open spec fn parent_of(p: Seq<char>) -> Seq<char> {
    if p == root() {
        root()
    } else {
        let i = choose|i: int| is_last_index_of(p, '/', i);
        if i == 0 {
            root()
        } else {
            p.subrange(0, i)
        }
    }
}

/// `i` is the first position of `c` in `s`.
pub open spec fn is_first_index_of(s: Seq<char>, c: char, i: int) -> bool {
    &&& 0 <= i < s.len()
    &&& s[i] == c
    &&& forall|j: int| 0 <= j < i ==> s[j] != c
}

/// The characters of `s` before its first `/`.
pub open spec fn first_segment(s: Seq<char>) -> Seq<char> {
    if s.contains('/') {
        s.subrange(0, choose|i: int| is_first_index_of(s, '/', i))
    } else {
        s
    }
}

/// `p` followed by `/`.
pub open spec fn with_slash(p: Seq<char>) -> Seq<char> {
    p.push('/')
}

/// The name that `candidate` contributes to a listing of `parent`: the first
/// path segment below `parent`, if `candidate` lies below it.
pub open spec fn child_name(parent: Seq<char>, candidate: Seq<char>) -> Option<Seq<char>> {
    if parent == root() {
        if candidate == root() || !(candidate.len() > 0 && candidate[0] == '/') {
            None
        } else if candidate.len() == 1 {
            None
        } else {
            Some(first_segment(candidate.skip(1)))
        }
    } else {
        let prefix = with_slash(parent);
        if !prefix.is_prefix_of(candidate) || candidate.len() == prefix.len() {
            None
        } else {
            Some(first_segment(candidate.skip(prefix.len() as int)))
        }
    }
}

/// Checks the directory-path rules.
pub fn is_valid_directory_path(path: &str) -> (r: bool)
    ensures
        r == dir_path_ok(path@),
{
    let n = path.unicode_len();
    if n == 0 {
        return false;
    }
    if path.get_char(0) != '/' {
        return false;
    }
    if contains_char(path, '\0') {
        return false;
    }
    if n > 1 && path.get_char(n - 1) == '/' {
        return false;
    }
    true
}

/// Checks the file-path rules.
pub fn is_valid_file_path(path: &str) -> (r: bool)
    ensures
        r == file_path_ok(path@),
{
    is_valid_directory_path(path) && !is_single_char(path, '/')
}

/// Whether `path` is the root.
pub fn is_root(path: &str) -> (r: bool)
    ensures
        r == (path@ == root()),
{
    is_single_char(path, '/')
}

/// The root is a valid directory path.
pub proof fn lemma_root_ok()
    ensures
        dir_path_ok(root()),
        !file_path_ok(root()),
{
    assert(!root().contains('\0')) by {
        if root().contains('\0') {
            let i = choose|i: int| 0 <= i < root().len() && root()[i] == '\0';
            assert(root()[i] == '/');
        }
    }
}

/// The last position of `/` in a path is unique.
pub proof fn lemma_last_index_unique(s: Seq<char>, c: char, i: int, j: int)
    requires
        is_last_index_of(s, c, i),
        is_last_index_of(s, c, j),
    ensures
        i == j,
{
}

/// The parent directory of a valid path.
pub fn parent_path(path: &str) -> (r: String)
    requires
        dir_path_ok(path@),
    ensures
        r@ == parent_of(path@),
{
    proof {
        lemma_root_ok();
    }
    if is_root(path) {
        return owned(slash());
    }
    match last_index_of(path, '/') {
        Some(i) => {
            proof {
                let j = choose|j: int| is_last_index_of(path@, '/', j);
                lemma_last_index_unique(path@, '/', i as int, j);
            }
            if i == 0 {
                owned(slash())
            } else {
                substring(path, 0, i)
            }
        },
        None => {
            assert(path@[0] == '/');
            assert(path@.contains('/'));
            owned(slash())
        },
    }
}

/// The characters of `s` before its first `/`.
pub fn first_path_segment(s: &str) -> (r: String)
    ensures
        r@ == first_segment(s@),
{
    let n = s.unicode_len();
    let mut i: usize = 0;
    while i < n
        invariant
            n == s@.len(),
            i <= n,
            forall|j: int| 0 <= j < i ==> s@[j] != '/',
        decreases n - i,
    {
        if s.get_char(i) == '/' {
            proof {
                assert(is_first_index_of(s@, '/', i as int));
                assert(s@.contains('/'));
                let k = choose|k: int| is_first_index_of(s@, '/', k);
                assert(k == i);
            }
            return substring(s, 0, i);
        }
        i = i + 1;
    }
    assert(!s@.contains('/'));
    owned(s)
}

/// The name that `candidate` contributes to a listing of `parent`.
pub fn direct_child_name(parent: &str, candidate: &str) -> (r: Option<String>)
    ensures
        match (r, child_name(parent@, candidate@)) {
            (Some(a), Some(b)) => a@ == b,
            (None, None) => true,
            _ => false,
        },
{
    let n = candidate.unicode_len();
    if is_root(parent) {
        if is_root(candidate) || n == 0 || candidate.get_char(0) != '/' {
            return None;
        }
        if n == 1 {
            return None;
        }
        let rest = substring(candidate, 1, n);
        assert(rest@ =~= candidate@.skip(1));
        return Some(first_path_segment(rest.as_str()));
    }
    let prefix = concat2(parent, slash());
    assert(prefix@ =~= with_slash(parent@));
    if !starts_with_str(candidate, prefix.as_str()) {
        return None;
    }
    let m = prefix.unicode_len();
    if n == m {
        return None;
    }
    let rest = substring(candidate, m, n);
    assert(rest@ =~= candidate@.skip(m as int));
    Some(first_path_segment(rest.as_str()))
}

} // verus!
