//! Character-level string helpers shared by the path, metadata and
//! configuration logic. Every helper states its result over the `Seq<char>`
//! view of its arguments.

use vstd::prelude::*;
use vstd::string::StrSliceExecFns;
use vstd::string::StringExecFns;

verus! {

/// Code-point order on characters.
pub open spec fn char_lt(a: char, b: char) -> bool {
    (a as int) < (b as int)
}

/// Lexicographic order on character sequences. Rust orders `String`s by
/// their UTF-8 bytes, which agrees with the order of their code points.
pub open spec fn seq_lt(a: Seq<char>, b: Seq<char>) -> bool
    decreases a.len(),
{
    if a.len() == 0 {
        b.len() > 0
    } else if b.len() == 0 {
        false
    } else if a[0] != b[0] {
        char_lt(a[0], b[0])
    } else {
        seq_lt(a.drop_first(), b.drop_first())
    }
}

/// `seq_lt` is irreflexive.
pub proof fn lemma_seq_lt_irreflexive(a: Seq<char>)
    ensures
        !seq_lt(a, a),
    decreases a.len(),
{
    if a.len() > 0 {
        lemma_seq_lt_irreflexive(a.drop_first());
    }
}

/// `seq_lt` is transitive.
pub proof fn lemma_seq_lt_transitive(a: Seq<char>, b: Seq<char>, c: Seq<char>)
    requires
        seq_lt(a, b),
        seq_lt(b, c),
    ensures
        seq_lt(a, c),
    decreases a.len(),
{
    if a.len() > 0 && b.len() > 0 && c.len() > 0 {
        if a[0] == b[0] && b[0] == c[0] {
            lemma_seq_lt_transitive(a.drop_first(), b.drop_first(), c.drop_first());
        }
    }
}

/// Two different sequences are ordered one way or the other.
pub proof fn lemma_seq_lt_total(a: Seq<char>, b: Seq<char>)
    requires
        a != b,
    ensures
        seq_lt(a, b) || seq_lt(b, a),
    decreases a.len(),
{
    if a.len() > 0 && b.len() > 0 {
        if a[0] == b[0] {
            if a.drop_first() =~= b.drop_first() {
                assert(a =~= seq![a[0]] + a.drop_first());
                assert(b =~= seq![b[0]] + b.drop_first());
                assert(a =~= b);
            } else {
                lemma_seq_lt_total(a.drop_first(), b.drop_first());
            }
        } else {
            assert((a[0] as int) != (b[0] as int));
        }
    } else if a.len() == 0 && b.len() == 0 {
        assert(a =~= b);
    }
}

/// Whether `a` comes strictly before `b` in code-point order.
pub fn str_less(a: &str, b: &str) -> (r: bool)
    ensures
        r == seq_lt(a@, b@),
{
    let la = a.unicode_len();
    let lb = b.unicode_len();
    let mut i: usize = 0;
    assert(a@.skip(0) =~= a@);
    assert(b@.skip(0) =~= b@);
    while i < la && i < lb
        invariant
            la == a@.len(),
            lb == b@.len(),
            i <= la,
            i <= lb,
            seq_lt(a@, b@) == seq_lt(a@.skip(i as int), b@.skip(i as int)),
        decreases la - i,
    {
        let ca = a.get_char(i);
        let cb = b.get_char(i);
        assert(a@.skip(i as int)[0] == ca);
        assert(b@.skip(i as int)[0] == cb);
        if ca != cb {
            return (ca as u32) < (cb as u32);
        }
        assert(a@.skip(i as int).drop_first() =~= a@.skip(i + 1));
        assert(b@.skip(i as int).drop_first() =~= b@.skip(i + 1));
        i = i + 1;
    }
    i < lb && i == la
}

/// Whether two strings hold the same characters.
pub fn str_equal(a: &str, b: &str) -> (r: bool)
    ensures
        r == (a@ == b@),
{
    let la = a.unicode_len();
    let lb = b.unicode_len();
    if la != lb {
        return false;
    }
    let mut i: usize = 0;
    while i < la
        invariant
            la == a@.len(),
            lb == b@.len(),
            la == lb,
            i <= la,
            a@.subrange(0, i as int) =~= b@.subrange(0, i as int),
        decreases la - i,
    {
        if a.get_char(i) != b.get_char(i) {
            return false;
        }
        assert(a@.subrange(0, i + 1) =~= a@.subrange(0, i as int).push(a@[i as int]));
        assert(b@.subrange(0, i + 1) =~= b@.subrange(0, i as int).push(b@[i as int]));
        i = i + 1;
    }
    assert(a@ =~= a@.subrange(0, la as int));
    assert(b@ =~= b@.subrange(0, lb as int));
    true
}

/// Whether `s` holds the character `c`.
pub fn contains_char(s: &str, c: char) -> (r: bool)
    ensures
        r == s@.contains(c),
{
    let n = s.unicode_len();
    let mut i: usize = 0;
    while i < n
        invariant
            n == s@.len(),
            i <= n,
            forall|j: int| 0 <= j < i ==> s@[j] != c,
        decreases n - i,
    {
        if s.get_char(i) == c {
            return true;
        }
        i = i + 1;
    }
    false
}

/// Whether `s` begins with the characters of `prefix`.
pub fn starts_with_str(s: &str, prefix: &str) -> (r: bool)
    ensures
        r == prefix@.is_prefix_of(s@),
{
    let n = s.unicode_len();
    let m = prefix.unicode_len();
    if m > n {
        return false;
    }
    let mut i: usize = 0;
    while i < m
        invariant
            n == s@.len(),
            m == prefix@.len(),
            m <= n,
            i <= m,
            forall|j: int| 0 <= j < i ==> s@[j] == prefix@[j],
        decreases m - i,
    {
        if s.get_char(i) != prefix.get_char(i) {
            return false;
        }
        i = i + 1;
    }
    assert(prefix@ =~= s@.subrange(0, m as int));
    true
}

/// Whether `s` is the one-character string made of `c`.
pub fn is_single_char(s: &str, c: char) -> (r: bool)
    ensures
        r == (s@ == seq![c]),
{
    let n = s.unicode_len();
    if n != 1 {
        return false;
    }
    let r = s.get_char(0) == c;
    if r {
        assert(s@ =~= seq![c]);
    }
    r
}

/// Index of the last occurrence of `c` in `s`, if any.
pub open spec fn is_last_index_of(s: Seq<char>, c: char, i: int) -> bool {
    &&& 0 <= i < s.len()
    &&& s[i] == c
    &&& forall|j: int| i < j < s.len() ==> s[j] != c
}

/// Finds the last position of `c` in `s`.
pub fn last_index_of(s: &str, c: char) -> (r: Option<usize>)
    ensures
        match r {
            Some(i) => is_last_index_of(s@, c, i as int),
            None => !s@.contains(c),
        },
{
    let n = s.unicode_len();
    let mut i: usize = n;
    while i > 0
        invariant
            n == s@.len(),
            i <= n,
            forall|j: int| i <= j < n ==> s@[j] != c,
        decreases i,
    {
        if s.get_char(i - 1) == c {
            return Some(i - 1);
        }
        i = i - 1;
    }
    None
}

/// The characters of `s` from position `from` up to (not including) `to`.
pub fn substring(s: &str, from: usize, to: usize) -> (r: String)
    requires
        from <= to <= s@.len(),
    ensures
        r@ == s@.subrange(from as int, to as int),
{
    String::from_str(s.substring_char(from, to))
}

/// A copy of `s` as an owned string.
pub fn owned(s: &str) -> (r: String)
    ensures
        r@ == s@,
{
    String::from_str(s)
}

/// The concatenation of `a` and `b`.
pub fn concat2(a: &str, b: &str) -> (r: String)
    ensures
        r@ == a@ + b@,
{
    String::from_str(a).concat(b)
}

/// The concatenation of `a`, `b` and `c`.
pub fn concat3(a: &str, b: &str, c: &str) -> (r: String)
    ensures
        r@ == a@ + b@ + c@,
{
    String::from_str(a).concat(b).concat(c)
}

/// The one-character string `"/"`.
pub fn slash() -> (r: &'static str)
    ensures
        r@ == seq!['/'],
{
    proof {
        reveal_strlit("/");
    }
    "/"
}

/// A clone of every string in `v`.
pub fn clone_strings(v: &[String]) -> (r: Vec<String>)
    ensures
        r@ == v@,
{
    let mut out: Vec<String> = Vec::new();
    let mut i: usize = 0;
    while i < v.len()
        invariant
            i <= v.len(),
            out@ =~= v@.subrange(0, i as int),
        decreases v.len() - i,
    {
        out.push(v[i].clone());
        i = i + 1;
    }
    assert(out@ =~= v@);
    out
}

/// The character views of a sequence of strings.
pub open spec fn views(v: Seq<String>) -> Seq<Seq<char>> {
    v.map_values(|s: String| s@)
}

/// Strictly increasing in code-point order (hence without repeats).
pub open spec fn sorted_strict(v: Seq<String>) -> bool {
    forall|i: int, j: int| 0 <= i < j < v.len() ==> seq_lt(#[trigger] v[i]@, #[trigger] v[j]@)
}

/// The character sequences held in a list of strings.
pub open spec fn string_set(v: Seq<String>) -> Set<Seq<char>> {
    Set::new(|k: Seq<char>| exists|i: int| 0 <= i < v.len() && v[i]@ == k)
}

/// Appending a string adds its characters to the set.
pub proof fn lemma_string_set_push(v: Seq<String>, x: String)
    ensures
        string_set(v.push(x)) == string_set(v).insert(x@),
{
    let w = v.push(x);
    assert forall|k: Seq<char>| #[trigger] string_set(w).contains(k) <==> string_set(v).insert(
        x@,
    ).contains(k) by {
        if string_set(w).contains(k) {
            let j = choose|j: int| 0 <= j < w.len() && w[j]@ == k;
            if j < v.len() {
                assert(v[j]@ == k);
            }
        }
        if string_set(v).contains(k) {
            let j = choose|j: int| 0 <= j < v.len() && v[j]@ == k;
            assert(w[j]@ == k);
        }
        if k == x@ {
            assert(w[v.len() as int]@ == k);
        }
    }
    assert(string_set(w) =~= string_set(v).insert(x@));
}

/// Adds `s` to a strictly sorted list unless an equal string is already there.
pub fn insert_sorted_unique(v: &mut Vec<String>, s: String)
    requires
        sorted_strict(old(v)@),
    ensures
        sorted_strict(final(v)@),
        string_set(final(v)@) == string_set(old(v)@).insert(s@),
{
    let n = v.len();
    let mut i: usize = 0;
    while i < n && str_less(v[i].as_str(), s.as_str())
        invariant
            n == v@.len(),
            i <= n,
            forall|j: int| 0 <= j < i ==> seq_lt(#[trigger] v@[j]@, s@),
        decreases n - i,
    {
        i = i + 1;
    }
    if i < n && str_equal(v[i].as_str(), s.as_str()) {
        assert(string_set(v@) =~= string_set(v@).insert(s@)) by {
            assert(v@[i as int]@ == s@);
        }
        return;
    }
    let ghost old_v = v@;
    proof {
        if i < n {
            lemma_seq_lt_total(old_v[i as int]@, s@);
        }
    }
    v.insert(i, s);
    proof {
        let nv = v@;
        assert(nv =~= old_v.insert(i as int, nv[i as int]));
        assert forall|a: int, b: int| 0 <= a < b < nv.len() implies seq_lt(
            #[trigger] nv[a]@,
            #[trigger] nv[b]@,
        ) by {
            if b < i {
                assert(seq_lt(old_v[a]@, old_v[b]@));
            } else if b == i {
                assert(seq_lt(old_v[a]@, nv[i as int]@));
            } else if a == i {
                if b - 1 > i {
                    assert(seq_lt(old_v[i as int]@, old_v[b - 1]@));
                    lemma_seq_lt_transitive(nv[i as int]@, old_v[i as int]@, old_v[b - 1]@);
                }
            } else if a < i {
                assert(seq_lt(old_v[a]@, nv[i as int]@));
                assert(seq_lt(nv[i as int]@, nv[b]@)) by {
                    if b - 1 > i {
                        assert(seq_lt(old_v[i as int]@, old_v[b - 1]@));
                        lemma_seq_lt_transitive(nv[i as int]@, old_v[i as int]@, old_v[b - 1]@);
                    }
                }
                lemma_seq_lt_transitive(nv[a]@, nv[i as int]@, nv[b]@);
            } else {
                assert(seq_lt(old_v[a - 1]@, old_v[b - 1]@));
            }
        }
        assert forall|k: Seq<char>| #[trigger] string_set(nv).contains(k) <==> string_set(
            old_v,
        ).insert(nv[i as int]@).contains(k) by {
            if string_set(nv).contains(k) {
                let j = choose|j: int| 0 <= j < nv.len() && nv[j]@ == k;
                if j < i {
                    assert(old_v[j]@ == k);
                } else if j > i {
                    assert(old_v[j - 1]@ == k);
                }
            }
            if string_set(old_v).contains(k) {
                let j = choose|j: int| 0 <= j < old_v.len() && old_v[j]@ == k;
                if j < i {
                    assert(nv[j]@ == k);
                } else {
                    assert(nv[j + 1]@ == k);
                }
            }
            if k == nv[i as int]@ {
                assert(nv[i as int]@ == k);
            }
        }
        assert(string_set(nv) =~= string_set(old_v).insert(nv[i as int]@));
    }
}

/// Unicode `White_Space`, the property that `char::is_whitespace` and
/// `str::trim` go by.
pub open spec fn is_white_space(c: char) -> bool {
    ||| '\t' <= c && c <= '\r'
    ||| c == ' '
    ||| c == '\u{85}'
    ||| c == '\u{a0}'
    ||| c == '\u{1680}'
    ||| '\u{2000}' <= c && c <= '\u{200a}'
    ||| c == '\u{2028}'
    ||| c == '\u{2029}'
    ||| c == '\u{202f}'
    ||| c == '\u{205f}'
    ||| c == '\u{3000}'
}

fn white_space(c: char) -> (r: bool)
    ensures
        r == is_white_space(c),
{
    ('\t' <= c && c <= '\r') || c == ' ' || c == '\u{85}' || c == '\u{a0}' || c == '\u{1680}'
        || ('\u{2000}' <= c && c <= '\u{200a}') || c == '\u{2028}' || c == '\u{2029}' || c
        == '\u{202f}' || c == '\u{205f}' || c == '\u{3000}'
}

/// `s` without its leading white space.
pub open spec fn trim_start(s: Seq<char>) -> Seq<char>
    decreases s.len(),
{
    if s.len() > 0 && is_white_space(s[0]) {
        trim_start(s.drop_first())
    } else {
        s
    }
}

/// `s` without its trailing white space.
pub open spec fn trim_end(s: Seq<char>) -> Seq<char>
    decreases s.len(),
{
    if s.len() > 0 && is_white_space(s.last()) {
        trim_end(s.drop_last())
    } else {
        s
    }
}

/// `s` without leading and trailing white space, as `str::trim` gives it.
pub open spec fn trimmed(s: Seq<char>) -> Seq<char> {
    trim_end(trim_start(s))
}

/// `s` with leading and trailing white space removed.
pub fn trim(s: &str) -> (r: String)
    ensures
        r@ == trimmed(s@),
{
    let n = s.unicode_len();
    let mut lo: usize = 0;
    assert(s@.subrange(0, n as int) =~= s@);
    while lo < n && white_space(s.get_char(lo))
        invariant
            n == s@.len(),
            lo <= n,
            trim_start(s@) == trim_start(s@.subrange(lo as int, n as int)),
        decreases n - lo,
    {
        assert(s@.subrange(lo as int, n as int).drop_first() =~= s@.subrange(lo + 1, n as int));
        lo = lo + 1;
    }
    assert(trim_start(s@) == s@.subrange(lo as int, n as int));
    let mut hi: usize = n;
    while hi > lo && white_space(s.get_char(hi - 1))
        invariant
            n == s@.len(),
            lo <= hi <= n,
            trimmed(s@) == trim_end(s@.subrange(lo as int, hi as int)),
        decreases hi - lo,
    {
        assert(s@.subrange(lo as int, hi as int).drop_last() =~= s@.subrange(
            lo as int,
            hi - 1,
        ));
        hi = hi - 1;
    }
    substring(s, lo, hi)
}

/// `c` with ASCII upper-case letters made lower-case.
pub open spec fn ascii_lower_char(c: char) -> char {
    if 'A' <= c && c <= 'Z' {
        ((c as int) + 32) as char
    } else {
        c
    }
}

/// `s` with ASCII upper-case letters made lower-case, as
/// `str::to_ascii_lowercase` gives it.
pub open spec fn ascii_lower(s: Seq<char>) -> Seq<char> {
    s.map_values(|c: char| ascii_lower_char(c))
}

/// A copy of `s` with ASCII letters in lower case.
pub fn to_ascii_lowercase(s: &str) -> (r: String)
    ensures
        r@ == ascii_lower(s@),
{
    let n = s.unicode_len();
    let mut out = String::new();
    let mut i: usize = 0;
    while i < n
        invariant
            n == s@.len(),
            i <= n,
            out@ =~= ascii_lower(s@.subrange(0, i as int)),
        decreases n - i,
    {
        let c = s.get_char(i);
        let l = if 'A' <= c && c <= 'Z' {
            ((c as u8) + 32) as char
        } else {
            c
        };
        out.push(l);
        assert(ascii_lower(s@.subrange(0, i + 1)) =~= ascii_lower(s@.subrange(0, i as int)).push(
            l,
        ));
        i = i + 1;
    }
    assert(s@.subrange(0, n as int) =~= s@);
    out
}

/// `pat` occurs in `s` starting at `i`.
pub open spec fn occurs_at(s: Seq<char>, pat: Seq<char>, i: int) -> bool {
    0 <= i && i + pat.len() <= s.len() && s.subrange(i, i + pat.len()) == pat
}

/// Whether `pat` occurs anywhere in `s`.
pub fn contains_text(s: &str, pat: &str) -> (r: bool)
    ensures
        r == exists|i: int| occurs_at(s@, pat@, i),
{
    let n = s.unicode_len();
    let m = pat.unicode_len();
    if m > n {
        assert forall|i: int| !occurs_at(s@, pat@, i) by {}
        return false;
    }
    if m == 0 {
        assert(s@.subrange(0, 0) =~= pat@);
        assert(occurs_at(s@, pat@, 0));
        return true;
    }
    let mut i: usize = 0;
    while i <= n - m
        invariant
            n == s@.len(),
            m == pat@.len(),
            1 <= m <= n,
            i <= n - m + 1,
            forall|j: int| 0 <= j < i ==> !occurs_at(s@, pat@, j),
        decreases n - m + 1 - i,
    {
        let sub = s.substring_char(i, i + m);
        if str_equal(sub, pat) {
            assert(occurs_at(s@, pat@, i as int));
            return true;
        }
        i = i + 1;
    }
    assert forall|j: int| !occurs_at(s@, pat@, j) by {
        if 0 <= j && j + m <= n {
            assert(j < i);
        }
    }
    false
}

} // verus!
