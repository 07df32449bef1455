//! Canonical paths and the object ids derived from them. A path is
//! absolute, free of NUL and of `..` segments; its canonical form drops
//! empty and `.` segments.

use crate::encoding::{blake3_digest, digest, hex_lower, to_hex};
use crate::text::{contains_char, is_last_index_of, str_equal};
use vstd::prelude::*;
use vstd::string::StrSliceExecFns;
use vstd::string::StringExecFns;

verus! {

/// Why a path cannot be resolved.
#[derive(Debug, Clone, Copy, PartialEq, Eq, Structural)]
pub enum PathResolverError {
    InvalidPath,
}

impl PathResolverError {
    /// The human-readable text of the error.
    pub fn message(&self) -> (r: String)
        ensures
            r@ == "invalid path"@,
    {
        String::from_str("invalid path")
    }
}

/// A path in canonical form with its object id.
#[derive(Debug, Clone)]
pub struct ResolvedPath {
    pub canonical_path: String,
    pub object_id: String,
}

/// Where the last `/` of `p` stands.
pub open spec fn last_slash(p: Seq<char>) -> int {
    choose|i: int| is_last_index_of(p, '/', i)
}

/// The pieces of `p` between slashes, as `str::split('/')` gives them.
pub open spec fn segments(p: Seq<char>) -> Seq<Seq<char>>
    decreases p.len(),
{
    if p.contains('/') {
        let i = last_slash(p);
        if 0 <= i < p.len() {
            segments(p.take(i)).push(p.skip(i + 1))
        } else {
            seq![p]
        }
    } else {
        seq![p]
    }
}

/// The segments that a canonical path keeps: neither empty nor `.`.
pub open spec fn kept(segs: Seq<Seq<char>>) -> Seq<Seq<char>>
    decreases segs.len(),
{
    if segs.len() == 0 {
        Seq::empty()
    } else if segs.last().len() == 0 || segs.last() == "."@ {
        kept(segs.drop_last())
    } else {
        kept(segs.drop_last()).push(segs.last())
    }
}

/// Each segment preceded by a slash, in order.
pub open spec fn slash_joined(segs: Seq<Seq<char>>) -> Seq<char>
    decreases segs.len(),
{
    if segs.len() == 0 {
        Seq::empty()
    } else {
        slash_joined(segs.drop_last()) + seq!['/'] + segs.last()
    }
}

/// Some segment is `..`.
pub open spec fn has_parent_ref(segs: Seq<Seq<char>>) -> bool {
    exists|i: int| 0 <= i < segs.len() && segs[i] == ".."@
}

/// The canonical form of `p`, if `p` has one.
pub open spec fn normalized(p: Seq<char>) -> Option<Seq<char>> {
    if p.len() == 0 || p[0] != '/' || p.contains('\0') || has_parent_ref(segments(p)) {
        None
    } else if kept(segments(p)).len() == 0 {
        Some(seq!['/'])
    } else {
        Some(slash_joined(kept(segments(p))))
    }
}

/// A slash ends the last segment and opens an empty one.
proof fn lemma_segments_slash(q: Seq<char>)
    ensures
        segments(q.push('/')) == segments(q).push(Seq::<char>::empty()),
{
    let r = q.push('/');
    assert(is_last_index_of(r, '/', q.len() as int));
    assert(r.contains('/')) by {
        assert(r[q.len() as int] == '/');
    }
    let i = last_slash(r);
    assert(is_last_index_of(r, '/', i));
    assert(i == q.len());
    assert(r.take(i) =~= q);
    assert(r.skip(i + 1) =~= Seq::<char>::empty());
}

/// Any other character extends the last segment.
proof fn lemma_segments_extend(q: Seq<char>, c: char)
    requires
        c != '/',
    ensures
        segments(q).len() > 0,
        segments(q.push(c)) == segments(q).drop_last().push(segments(q).last().push(c)),
{
    let r = q.push(c);
    if q.contains('/') {
        let i = last_slash(q);
        let w = choose|w: int| 0 <= w < q.len() && q[w] == '/';
        assert(exists|j: int| is_last_index_of(q, '/', j)) by {
            lemma_last_slash_exists(q, w);
        }
        assert(is_last_index_of(q, '/', i));
        assert(is_last_index_of(r, '/', i));
        assert(r.contains('/')) by {
            assert(r[i] == '/');
        }
        let k = last_slash(r);
        assert(is_last_index_of(r, '/', k));
        assert(k == i) by {
            if k < i {
                assert(r[i] == '/');
            } else if k > i {
                assert(r[k] == '/');
                assert(k < q.len()) by {
                    if k == q.len() {
                        assert(r[k] == c);
                    }
                }
                assert(q[k] == '/');
            }
        }
        assert(r.take(i) =~= q.take(i));
        assert(r.skip(i + 1) =~= q.skip(i + 1).push(c));
    } else {
        assert(!r.contains('/')) by {
            if r.contains('/') {
                let j = choose|j: int| 0 <= j < r.len() && r[j] == '/';
                assert(j < q.len());
                assert(q[j] == '/');
            }
        }
    }
}

/// Joining segments with slashes gives an empty text only when there are
/// no segments.
proof fn lemma_slash_joined_len(segs: Seq<Seq<char>>)
    ensures
        (slash_joined(segs).len() == 0) == (segs.len() == 0),
    decreases segs.len(),
{
    if segs.len() > 0 {
        lemma_slash_joined_len(segs.drop_last());
    }
}

/// A sequence holding `/` has a last `/`.
proof fn lemma_last_slash_exists(q: Seq<char>, w: int)
    requires
        0 <= w < q.len(),
        q[w] == '/',
    ensures
        exists|j: int| is_last_index_of(q, '/', j),
    decreases q.len() - w,
{
    if exists|j: int| w < j < q.len() && q[j] == '/' {
        let j = choose|j: int| w < j < q.len() && q[j] == '/';
        lemma_last_slash_exists(q, j);
    } else {
        assert(is_last_index_of(q, '/', w));
    }
}

/// The canonical form of an absolute path: runs of slashes and `.`
/// segments collapse; a path that is empty, relative, holds NUL, or holds a
/// `..` segment has none.
pub fn normalize(path: &str) -> (r: Result<String, PathResolverError>)
    ensures
        match normalized(path@) {
            Some(c) => r matches Ok(s) && s@ == c,
            None => r is Err,
        },
{
    let n = path.unicode_len();
    if n == 0 || path.get_char(0) != '/' || contains_char(path, '\0') {
        return Err(PathResolverError::InvalidPath);
    }
    let ghost p = path@;
    let mut out = String::new();
    let mut cur = String::new();
    let mut bad = false;
    let ghost mut done: Seq<Seq<char>> = Seq::empty();
    let mut i: usize = 0;
    proof {
        assert(p.take(0) =~= Seq::<char>::empty());
        assert(cur@ =~= Seq::<char>::empty());
        assert(!p.take(0).contains('/'));
        assert(Seq::<Seq<char>>::empty().push(cur@) =~= seq![p.take(0)]);
        assert(out@ =~= Seq::<char>::empty());
    }
    while i < n
        invariant
            n == p.len(),
            p == path@,
            i <= n,
            segments(p.take(i as int)) == done.push(cur@),
            !bad ==> out@ == slash_joined(kept(done)),
            bad == has_parent_ref(done),
        decreases n - i,
    {
        let c = path.get_char(i);
        proof {
            assert(p.take(i + 1) =~= p.take(i as int).push(c));
        }
        if c == '/' {
            proof {
                lemma_segments_slash(p.take(i as int));
            }
            let ghost old_done = done;
            if str_equal(cur.as_str(), "..") {
                bad = true;
            } else if cur.as_str().unicode_len() > 0 && !str_equal(cur.as_str(), ".") {
                out.push('/');
                out = out.concat(cur.as_str());
            }
            proof {
                done = done.push(cur@);
                assert(done.drop_last() =~= old_done);
                assert(done.last() == cur@);
                if !bad {
                    if cur@.len() > 0 && cur@ != "."@ {
                        assert(kept(done) == kept(old_done).push(cur@));
                        assert(kept(done).drop_last() =~= kept(old_done));
                    } else {
                        assert(kept(done) == kept(old_done));
                    }
                }
                if bad {
                    if cur@ == ".."@ {
                        assert(done[done.len() - 1] == ".."@);
                    } else {
                        let k = choose|k: int| 0 <= k < old_done.len() && old_done[k] == ".."@;
                        assert(done[k] == ".."@);
                    }
                } else {
                    assert forall|k: int| 0 <= k < done.len() implies done[k] != ".."@ by {
                        if k < old_done.len() {
                            assert(done[k] == old_done[k]);
                        }
                    }
                }
            }
            cur = String::new();
        } else {
            proof {
                lemma_segments_extend(p.take(i as int), c);
            }
            cur.push(c);
        }
        i = i + 1;
    }
    proof {
        assert(p.take(n as int) =~= p);
    }
    let ghost segs = done.push(cur@);
    if str_equal(cur.as_str(), "..") {
        assert(segs[segs.len() - 1] == ".."@);
        return Err(PathResolverError::InvalidPath);
    }
    if bad {
        let ghost k = choose|k: int| 0 <= k < done.len() && done[k] == ".."@;
        assert(segs[k] == ".."@);
        return Err(PathResolverError::InvalidPath);
    }
    proof {
        assert(segs.drop_last() =~= done);
        assert forall|k: int| 0 <= k < segs.len() implies segs[k] != ".."@ by {
            if k < done.len() {
                assert(segs[k] == done[k]);
            }
        }
    }
    if cur.as_str().unicode_len() > 0 && !str_equal(cur.as_str(), ".") {
        out.push('/');
        out = out.concat(cur.as_str());
        assert(segs.last() == cur@);
        assert(kept(segs) == kept(done).push(cur@));
        assert(kept(segs).drop_last() =~= kept(done));
    } else {
        assert(segs.last() == cur@);
        assert(kept(segs) == kept(done));
    }
    proof {
        lemma_slash_joined_len(kept(segs));
    }
    if out.as_str().unicode_len() == 0 {
        return Ok(String::from_str(crate::text::slash()));
    }
    Ok(out)
}

/// A segment holds neither a slash nor NUL.
pub open spec fn plain_segment(s: Seq<char>) -> bool {
    !s.contains('/') && !s.contains('\0')
}

/// The segments of a path without NUL are plain.
proof fn lemma_segments_plain(p: Seq<char>)
    requires
        !p.contains('\0'),
    ensures
        forall|k: int| 0 <= k < segments(p).len() ==> plain_segment(#[trigger] segments(p)[k]),
    decreases p.len(),
{
    if p.contains('/') {
        let w = choose|w: int| 0 <= w < p.len() && p[w] == '/';
        lemma_last_slash_exists(p, w);
        let i = last_slash(p);
        assert(is_last_index_of(p, '/', i));
        let head = p.take(i);
        let tail = p.skip(i + 1);
        assert(!head.contains('\0')) by {
            if head.contains('\0') {
                let j = choose|j: int| 0 <= j < head.len() && head[j] == '\0';
                assert(p[j] == '\0');
            }
        }
        lemma_segments_plain(head);
        assert(plain_segment(tail)) by {
            if tail.contains('/') {
                let j = choose|j: int| 0 <= j < tail.len() && tail[j] == '/';
                assert(p[i + 1 + j] == '/');
            }
            if tail.contains('\0') {
                let j = choose|j: int| 0 <= j < tail.len() && tail[j] == '\0';
                assert(p[i + 1 + j] == '\0');
            }
        }
        let segs = segments(p);
        assert(segs == segments(head).push(tail));
        assert forall|k: int| 0 <= k < segs.len() implies plain_segment(#[trigger] segs[k]) by {
            if k < segs.len() - 1 {
                assert(segs[k] == segments(head)[k]);
            }
        }
    } else {
        assert(segments(p) == seq![p]);
    }
}

/// A slash followed by a segment without slashes adds that segment.
proof fn lemma_segments_append(x: Seq<char>, w: Seq<char>)
    requires
        !w.contains('/'),
    ensures
        segments(x + seq!['/'] + w) == segments(x).push(w),
    decreases w.len(),
{
    if w.len() == 0 {
        assert(x + seq!['/'] + w =~= x.push('/'));
        assert(w =~= Seq::<char>::empty());
        lemma_segments_slash(x);
    } else {
        let v = w.drop_last();
        let c = w.last();
        assert(!v.contains('/')) by {
            if v.contains('/') {
                let j = choose|j: int| 0 <= j < v.len() && v[j] == '/';
                assert(w[j] == '/');
            }
        }
        assert(c != '/') by {
            assert(w[w.len() - 1] == c);
        }
        lemma_segments_append(x, v);
        assert(x + seq!['/'] + w =~= (x + seq!['/'] + v).push(c));
        lemma_segments_extend(x + seq!['/'] + v, c);
        let big = segments(x + seq!['/'] + v);
        assert(big == segments(x).push(v));
        assert(big.drop_last() =~= segments(x));
        assert(big.last() == v);
        assert(v.push(c) =~= w);
        assert(segments(x + seq!['/'] + w) == big.drop_last().push(big.last().push(c)));
    }
}

/// Splitting segments joined with slashes gives an empty first segment and
/// then the segments.
proof fn lemma_segments_of_joined(segs: Seq<Seq<char>>)
    requires
        forall|k: int| 0 <= k < segs.len() ==> !(#[trigger] segs[k]).contains('/'),
    ensures
        segments(slash_joined(segs)) == seq![Seq::<char>::empty()] + segs,
    decreases segs.len(),
{
    if segs.len() == 0 {
        assert(!Seq::<char>::empty().contains('/'));
        assert(segments(Seq::<char>::empty()) == seq![Seq::<char>::empty()]);
        assert(seq![Seq::<char>::empty()] + segs =~= seq![Seq::<char>::empty()]);
    } else {
        let init = segs.drop_last();
        assert forall|k: int| 0 <= k < init.len() implies !(#[trigger] init[k]).contains('/') by {
            assert(init[k] == segs[k]);
        }
        lemma_segments_of_joined(init);
        assert(!segs.last().contains('/')) by {
            assert(segs[segs.len() - 1] == segs.last());
        }
        lemma_segments_append(slash_joined(init), segs.last());
        assert((seq![Seq::<char>::empty()] + init).push(segs.last()) =~= seq![Seq::<char>::empty()]
            + segs);
    }
}

/// A segment a canonical path keeps.
pub open spec fn kept_segment(s: Seq<char>) -> bool {
    s.len() > 0 && s != "."@ && s != ".."@ && plain_segment(s)
}

/// The kept segments are the plain ones that are neither empty nor `.`.
proof fn lemma_kept_members(segs: Seq<Seq<char>>)
    requires
        forall|k: int| 0 <= k < segs.len() ==> plain_segment(#[trigger] segs[k]),
        !has_parent_ref(segs),
    ensures
        forall|k: int| 0 <= k < kept(segs).len() ==> kept_segment(#[trigger] kept(segs)[k]),
    decreases segs.len(),
{
    if segs.len() > 0 {
        let init = segs.drop_last();
        assert forall|k: int| 0 <= k < init.len() implies plain_segment(#[trigger] init[k]) by {
            assert(init[k] == segs[k]);
        }
        assert(!has_parent_ref(init)) by {
            if has_parent_ref(init) {
                let k = choose|k: int| 0 <= k < init.len() && init[k] == ".."@;
                assert(segs[k] == ".."@);
            }
        }
        lemma_kept_members(init);
        let last = segs.last();
        assert(plain_segment(last)) by {
            assert(segs[segs.len() - 1] == last);
        }
        assert(last != ".."@) by {
            assert(segs[segs.len() - 1] == last);
        }
        if !(last.len() == 0 || last == "."@) {
            let r = kept(segs);
            assert(r == kept(init).push(last));
            assert forall|k: int| 0 <= k < r.len() implies kept_segment(#[trigger] r[k]) by {
                if k < r.len() - 1 {
                    assert(r[k] == kept(init)[k]);
                }
            }
        }
    }
}

/// Segments that are all kept, after an empty one, are kept as they are.
proof fn lemma_kept_of_clean(segs: Seq<Seq<char>>)
    requires
        forall|k: int| 0 <= k < segs.len() ==> kept_segment(#[trigger] segs[k]),
    ensures
        kept(seq![Seq::<char>::empty()] + segs) == segs,
        !has_parent_ref(seq![Seq::<char>::empty()] + segs),
    decreases segs.len(),
{
    let all = seq![Seq::<char>::empty()] + segs;
    if segs.len() == 0 {
        assert(all =~= seq![Seq::<char>::empty()]);
        assert(all.drop_last() =~= Seq::<Seq<char>>::empty());
        assert(kept(all) == kept(all.drop_last()));
        reveal_strlit("..");
        assert(!has_parent_ref(all)) by {
            if has_parent_ref(all) {
                let k = choose|k: int| 0 <= k < all.len() && all[k] == ".."@;
                assert(all[k].len() == 0);
            }
        }
    } else {
        let init = segs.drop_last();
        assert forall|k: int| 0 <= k < init.len() implies kept_segment(#[trigger] init[k]) by {
            assert(init[k] == segs[k]);
        }
        lemma_kept_of_clean(init);
        assert(all.drop_last() =~= seq![Seq::<char>::empty()] + init);
        assert(all.last() == segs.last());
        assert(kept_segment(segs.last())) by {
            assert(segs[segs.len() - 1] == segs.last());
        }
        assert(kept(all) == init.push(segs.last()));
        assert(init.push(segs.last()) =~= segs);
        assert(!has_parent_ref(all)) by {
            if has_parent_ref(all) {
                let k = choose|k: int| 0 <= k < all.len() && all[k] == ".."@;
                if k == 0 {
                    reveal_strlit("..");
                    assert(all[k].len() == 0);
                } else {
                    assert(all[k] == segs[k - 1]);
                }
            }
        }
    }
}

/// Joined plain segments begin with a slash and hold no NUL.
proof fn lemma_joined_shape(segs: Seq<Seq<char>>)
    requires
        segs.len() > 0,
        forall|k: int| 0 <= k < segs.len() ==> plain_segment(#[trigger] segs[k]),
    ensures
        slash_joined(segs).len() > 0,
        slash_joined(segs)[0] == '/',
        !slash_joined(segs).contains('\0'),
    decreases segs.len(),
{
    let init = segs.drop_last();
    let j = slash_joined(segs);
    assert(j == slash_joined(init) + seq!['/'] + segs.last());
    assert(plain_segment(segs.last())) by {
        assert(segs[segs.len() - 1] == segs.last());
    }
    if init.len() > 0 {
        assert forall|k: int| 0 <= k < init.len() implies plain_segment(#[trigger] init[k]) by {
            assert(init[k] == segs[k]);
        }
        lemma_joined_shape(init);
        assert(j[0] == slash_joined(init)[0]);
    } else {
        assert(slash_joined(init).len() == 0);
        assert(j[0] == '/');
    }
    assert(!j.contains('\0')) by {
        if j.contains('\0') {
            let k = choose|k: int| 0 <= k < j.len() && j[k] == '\0';
            let a = slash_joined(init).len() as int;
            if k < a {
                assert(slash_joined(init)[k] == '\0');
                if init.len() > 0 {
                    assert(slash_joined(init).contains('\0'));
                }
            } else if k > a {
                assert(segs.last()[k - a - 1] == '\0');
                assert(segs.last().contains('\0'));
            }
        }
    }
}

/// A canonical path is its own canonical form.
pub proof fn law_normalize_idempotent(p: Seq<char>)
    requires
        normalized(p) is Some,
    ensures
        normalized(normalized(p).unwrap()) == normalized(p),
{
    let segs = segments(p);
    lemma_segments_plain(p);
    lemma_kept_members(segs);
    let k = kept(segs);
    let c = normalized(p).unwrap();
    if k.len() == 0 {
        assert(c == seq!['/']);
        assert(c =~= Seq::<char>::empty().push('/'));
        lemma_segments_slash(Seq::<char>::empty());
        assert(!Seq::<char>::empty().contains('/'));
        assert(segments(c) =~= seq![Seq::<char>::empty(), Seq::<char>::empty()]);
        let e = Seq::<Seq<char>>::empty();
        lemma_kept_of_clean(e);
        assert(seq![Seq::<char>::empty()] + e =~= seq![Seq::<char>::empty()]);
        assert(segments(c).drop_last() =~= seq![Seq::<char>::empty()]);
        assert(kept(segments(c)) == kept(seq![Seq::<char>::empty()]));
        reveal_strlit("..");
        assert(!has_parent_ref(segments(c))) by {
            if has_parent_ref(segments(c)) {
                let j = choose|j: int| 0 <= j < segments(c).len() && segments(c)[j] == ".."@;
                assert(segments(c)[j].len() == 0);
            }
        }
        assert(!c.contains('\0')) by {
            if c.contains('\0') {
                let j = choose|j: int| 0 <= j < c.len() && c[j] == '\0';
                assert(c[j] == '/');
            }
        }
    } else {
        assert(c == slash_joined(k));
        assert forall|j: int| 0 <= j < k.len() implies plain_segment(#[trigger] k[j]) by {
            assert(kept_segment(k[j]));
        }
        assert forall|j: int| 0 <= j < k.len() implies !(#[trigger] k[j]).contains('/') by {
            assert(kept_segment(k[j]));
        }
        lemma_joined_shape(k);
        lemma_segments_of_joined(k);
        lemma_kept_of_clean(k);
    }
}

/// Maps paths to their canonical form and object id.
pub trait PathResolver {
    fn resolve(&self, path: &str) -> Result<ResolvedPath, PathResolverError>;
}

/// The object id of a canonical path: `oid:` and the lowercase hexadecimal
/// BLAKE3 digest of its UTF-8 bytes.
pub open spec fn object_id_of(canonical: Seq<char>) -> Seq<char> {
    "oid:"@ + hex_lower(blake3_digest(vstd::utf8::encode_utf8(canonical)))
}

/// The resolver that normalizes paths and hashes their canonical form.
pub struct DefaultPathResolver;

impl DefaultPathResolver {
    /// The resolver.
    pub fn new() -> (r: Self) {
        DefaultPathResolver
    }
}

impl PathResolver for DefaultPathResolver {
    fn resolve(&self, path: &str) -> (r: Result<ResolvedPath, PathResolverError>)
        ensures
            match normalized(path@) {
                Some(c) => r matches Ok(rp) && rp.canonical_path@ == c && rp.object_id@
                    == object_id_of(c),
                None => r is Err,
            },
    {
        let canonical = normalize(path)?;
        let d = digest(canonical.as_str().as_bytes());
        let object_id = String::from_str("oid:").concat(to_hex(d.as_slice()).as_str());
        Ok(ResolvedPath { canonical_path: canonical, object_id })
    }
}

} // verus!
