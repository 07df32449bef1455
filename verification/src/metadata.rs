//! The metadata store: versioned file records with compare-and-swap
//! commits, tombstones, idempotent replay of WAL transactions, and a
//! directory namespace.

use crate::keyed::{entry_map, key_at, keys_unique, lemma_entry_map_at, lemma_entry_map_push, StrMap, StrSet};
use crate::namespace::{
    child_name, dir_path_ok, direct_child_name, file_path_ok, is_root, is_valid_directory_path,
    is_valid_file_path, lemma_root_ok, parent_of, parent_path, root, with_slash,
};
use crate::text::{clone_strings, lemma_string_set_push, concat2, owned, slash, starts_with_str, substring, insert_sorted_unique, sorted_strict, string_set, views};
use vstd::prelude::*;
use vstd::string::StrSliceExecFns;

verus! {

/// The stored record of one file path.
#[derive(Debug)]
pub struct FileMetadataState {
    pub version: u64,
    pub last_tx_id: Option<String>,
    pub chunk_ids: Vec<String>,
    pub chunk_hashes: Vec<String>,
    pub tombstoned: bool,
}

/// A file record over character sequences.
pub ghost struct FileView {
    pub version: u64,
    pub last_tx_id: Option<Seq<char>>,
    pub chunk_ids: Seq<Seq<char>>,
    pub chunk_hashes: Seq<Seq<char>>,
    pub tombstoned: bool,
}

/// The character view of an optional string.
pub open spec fn opt_view(o: Option<String>) -> Option<Seq<char>> {
    match o {
        Some(s) => Some(s@),
        None => None,
    }
}

impl View for FileMetadataState {
    type V = FileView;

    open spec fn view(&self) -> FileView {
        FileView {
            version: self.version,
            last_tx_id: opt_view(self.last_tx_id),
            chunk_ids: views(self.chunk_ids@),
            chunk_hashes: views(self.chunk_hashes@),
            tombstoned: self.tombstoned,
        }
    }
}

impl FileMetadataState {
    /// A field-by-field copy.
    pub fn duplicate(&self) -> (r: Self)
        ensures
            r@ == self@,
    {
        FileMetadataState {
            version: self.version,
            last_tx_id: match &self.last_tx_id {
                Some(t) => Some(t.clone()),
                None => None,
            },
            chunk_ids: clone_strings(self.chunk_ids.as_slice()),
            chunk_hashes: clone_strings(self.chunk_hashes.as_slice()),
            tombstoned: self.tombstoned,
        }
    }
}

/// The record a path gets before its first committed write.
pub open spec fn fresh_file() -> FileView {
    FileView {
        version: 0,
        last_tx_id: None,
        chunk_ids: Seq::empty(),
        chunk_hashes: Seq::empty(),
        tombstoned: false,
    }
}

/// Why a metadata operation was refused.
#[derive(Debug)]
pub enum MetadataError {
    CasConflict,
    InvalidChunkVector,
    Poisoned,
    Io(String),
    Serde(String),
    Sqlite(String),
    InvalidPath,
    ParentMissing,
    DirectoryNotFound,
    DirectoryNotEmpty,
    PathTypeConflict,
    PathNotFound,
}

/// The text of each error.
pub open spec fn error_text(e: MetadataError) -> Seq<char> {
    match e {
        MetadataError::CasConflict => "cas conflict"@,
        MetadataError::InvalidChunkVector => "invalid chunk vector: ids and hashes length mismatch"@,
        MetadataError::Poisoned => "internal lock poisoned"@,
        MetadataError::Io(m) => "metadata io error: "@ + m@,
        MetadataError::Serde(m) => "metadata serialization error: "@ + m@,
        MetadataError::Sqlite(m) => "metadata sqlite error: "@ + m@,
        MetadataError::InvalidPath => "invalid namespace path"@,
        MetadataError::ParentMissing => "parent directory does not exist"@,
        MetadataError::DirectoryNotFound => "directory not found"@,
        MetadataError::DirectoryNotEmpty => "directory not empty"@,
        MetadataError::PathTypeConflict => "path type conflict"@,
        MetadataError::PathNotFound => "path not found"@,
    }
}

impl MetadataError {
    /// The human-readable text of the error.
    pub fn message(&self) -> (r: String)
        ensures
            r@ == error_text(*self),
    {
        match self {
            MetadataError::CasConflict => String::from_str("cas conflict"),
            MetadataError::InvalidChunkVector => String::from_str(
                "invalid chunk vector: ids and hashes length mismatch",
            ),
            MetadataError::Poisoned => String::from_str("internal lock poisoned"),
            MetadataError::Io(m) => String::from_str("metadata io error: ").concat(m.as_str()),
            MetadataError::Serde(m) => String::from_str("metadata serialization error: ").concat(
                m.as_str(),
            ),
            MetadataError::Sqlite(m) => String::from_str("metadata sqlite error: ").concat(
                m.as_str(),
            ),
            MetadataError::InvalidPath => String::from_str("invalid namespace path"),
            MetadataError::ParentMissing => String::from_str("parent directory does not exist"),
            MetadataError::DirectoryNotFound => String::from_str("directory not found"),
            MetadataError::DirectoryNotEmpty => String::from_str("directory not empty"),
            MetadataError::PathTypeConflict => String::from_str("path type conflict"),
            MetadataError::PathNotFound => String::from_str("path not found"),
        }
    }
}

/// The whole metadata store over character sequences.
pub ghost struct MetaView {
    pub files: Map<Seq<char>, FileView>,
    pub dirs: Set<Seq<char>>,
    pub applied: Set<Seq<char>>,
}

/// A live (not tombstoned) file is recorded at `p`.
pub open spec fn is_live(files: Map<Seq<char>, FileView>, p: Seq<char>) -> bool {
    files.contains_key(p) && !files[p].tombstoned
}

/// The names listed under `parent`: one per directory or live file below it.
pub open spec fn children_of(
    parent: Seq<char>,
    dirs: Set<Seq<char>>,
    files: Map<Seq<char>, FileView>,
) -> Set<Seq<char>> {
    Set::new(
        |n: Seq<char>|
            (exists|d: Seq<char>| #[trigger] dirs.contains(d) && child_name(parent, d) == Some(n))
                || (exists|p: Seq<char>| #[trigger]
                files.contains_key(p) && !files[p].tombstoned && child_name(parent, p) == Some(n)),
    )
}

/// The state a store starts in: no files, only the root directory.
pub open spec fn initial_view() -> MetaView {
    MetaView { files: Map::empty(), dirs: Set::empty().insert(root()), applied: Set::empty() }
}

/// What `create_directory` does.
pub open spec fn create_dir_outcome(m: MetaView, p: Seq<char>) -> Result<MetaView, MetadataError> {
    if !dir_path_ok(p) {
        Err(MetadataError::InvalidPath)
    } else if p != root() && !m.dirs.contains(parent_of(p)) {
        Err(MetadataError::ParentMissing)
    } else if is_live(m.files, p) {
        Err(MetadataError::PathTypeConflict)
    } else {
        Ok(MetaView { files: m.files.remove(p), dirs: m.dirs.insert(p), applied: m.applied })
    }
}

/// What `remove_directory` does.
pub open spec fn remove_dir_outcome(m: MetaView, p: Seq<char>) -> Result<MetaView, MetadataError> {
    if !dir_path_ok(p) || p == root() {
        Err(MetadataError::InvalidPath)
    } else if !m.dirs.contains(p) {
        Err(MetadataError::DirectoryNotFound)
    } else if children_of(p, m.dirs, m.files) != Set::<Seq<char>>::empty() {
        Err(MetadataError::DirectoryNotEmpty)
    } else {
        Ok(MetaView { dirs: m.dirs.remove(p), ..m })
    }
}

/// What `list_children` is owed: an error, or the listing as a set.
pub open spec fn list_outcome(m: MetaView, p: Seq<char>) -> Result<Set<Seq<char>>, MetadataError> {
    if !dir_path_ok(p) {
        Err(MetadataError::InvalidPath)
    } else if !m.dirs.contains(p) {
        Err(MetadataError::DirectoryNotFound)
    } else {
        Ok(children_of(p, m.dirs, m.files))
    }
}

/// The record table after a write has looked up (and, if missing, created) `p`.
pub open spec fn files_with_entry(files: Map<Seq<char>, FileView>, p: Seq<char>) -> Map<
    Seq<char>,
    FileView,
> {
    if files.contains_key(p) {
        files
    } else {
        files.insert(p, fresh_file())
    }
}

/// The path checks a write makes before it looks at versions.
pub open spec fn write_precheck(
    m: MetaView,
    p: Seq<char>,
    ids: Seq<Seq<char>>,
    hashes: Seq<Seq<char>>,
) -> Option<MetadataError> {
    if !file_path_ok(p) {
        Some(MetadataError::InvalidPath)
    } else if ids.len() != hashes.len() {
        Some(MetadataError::InvalidChunkVector)
    } else if !m.dirs.contains(parent_of(p)) {
        Some(MetadataError::ParentMissing)
    } else if m.dirs.contains(p) {
        Some(MetadataError::PathTypeConflict)
    } else {
        None
    }
}

/// A write passes its checks, is not a replay, and matches the stored version.
pub open spec fn write_commits(
    m: MetaView,
    tx: Seq<char>,
    p: Seq<char>,
    expected: u64,
    ids: Seq<Seq<char>>,
    hashes: Seq<Seq<char>>,
) -> bool {
    let f = files_with_entry(m.files, p)[p];
    &&& write_precheck(m, p, ids, hashes) is None
    &&& !m.applied.contains(tx)
    &&& f.last_tx_id != Some(tx)
    &&& f.version == expected
}

/// What a WAL write commit does: the result and the resulting store.
pub open spec fn write_outcome(
    m: MetaView,
    tx: Seq<char>,
    p: Seq<char>,
    expected: u64,
    ids: Seq<Seq<char>>,
    hashes: Seq<Seq<char>>,
) -> (Result<(), MetadataError>, MetaView) {
    match write_precheck(m, p, ids, hashes) {
        Some(e) => (Err(e), m),
        None => if m.applied.contains(tx) {
            (Ok(()), m)
        } else {
            let f = files_with_entry(m.files, p)[p];
            if f.last_tx_id == Some(tx) {
                (Ok(()), m)
            } else if f.version != expected {
                (Err(MetadataError::CasConflict), m)
            } else {
                (
                    Ok(()),
                    MetaView {
                        files: m.files.insert(
                            p,
                            FileView {
                                version: (f.version + 1) as u64,
                                last_tx_id: Some(tx),
                                chunk_ids: ids,
                                chunk_hashes: hashes,
                                tombstoned: false,
                            },
                        ),
                        dirs: m.dirs,
                        applied: m.applied.insert(tx),
                    },
                )
            }
        },
    }
}

/// A delete is not a replay and matches the stored version of an existing record.
pub open spec fn delete_commits(m: MetaView, tx: Seq<char>, p: Seq<char>, expected: u64) -> bool {
    &&& !m.applied.contains(tx)
    &&& m.files.contains_key(p)
    &&& m.files[p].version == expected
}

/// What a WAL delete commit does: the result and the resulting store.
pub open spec fn delete_outcome(m: MetaView, tx: Seq<char>, p: Seq<char>, expected: u64) -> (
    Result<(), MetadataError>,
    MetaView,
) {
    if m.applied.contains(tx) {
        (Ok(()), m)
    } else if !m.files.contains_key(p) || m.files[p].version != expected {
        (Err(MetadataError::CasConflict), m)
    } else {
        let f = m.files[p];
        (
            Ok(()),
            MetaView {
                files: m.files.insert(
                    p,
                    FileView {
                        version: (f.version + 1) as u64,
                        last_tx_id: Some(tx),
                        tombstoned: true,
                        ..f
                    },
                ),
                dirs: m.dirs,
                applied: m.applied.insert(tx),
            },
        )
    }
}

/// What a committed read returns: version, chunk ids and chunk hashes of a live file.
pub open spec fn read_outcome(m: MetaView, p: Seq<char>) -> Option<
    (u64, Seq<Seq<char>>, Seq<Seq<char>>),
> {
    if is_live(m.files, p) {
        let f = m.files[p];
        Some((f.version, f.chunk_ids, f.chunk_hashes))
    } else {
        None
    }
}

/// The stored version of `p`, or 0 for a path never recorded.
pub open spec fn version_outcome(m: MetaView, p: Seq<char>) -> u64 {
    if m.files.contains_key(p) {
        m.files[p].version
    } else {
        0
    }
}

/// The record at `p` has spent its version counter: a commit that expects
/// `u64::MAX` would have to advance past it, so the store refuses it.
pub open spec fn version_spent(m: MetaView, p: Seq<char>, expected: u64) -> bool {
    expected == u64::MAX && version_outcome(m, p) == u64::MAX
}

/// The chunk ids referenced by live files.
pub open spec fn live_chunk_set(files: Map<Seq<char>, FileView>) -> Set<Seq<char>> {
    Set::new(
        |c: Seq<char>|
            exists|p: Seq<char>| #[trigger]
                files.contains_key(p) && !files[p].tombstoned && files[p].chunk_ids.contains(c),
    )
}

/// The views of an optional committed read.
pub open spec fn read_view_of(r: Option<(u64, Vec<String>, Vec<String>)>) -> Option<
    (u64, Seq<Seq<char>>, Seq<Seq<char>>),
> {
    match r {
        Some((v, ids, hashes)) => Some((v, views(ids@), views(hashes@))),
        None => None,
    }
}


/// `p` lies strictly below directory `dir`.
pub open spec fn under(dir: Seq<char>, p: Seq<char>) -> bool {
    with_slash(dir).is_prefix_of(p)
}

/// Where a directory rename from `src` to `dst` moves path `p`.
pub open spec fn moved_path(src: Seq<char>, dst: Seq<char>, p: Seq<char>) -> Seq<char> {
    if p == src {
        dst
    } else if under(src, p) {
        with_slash(dst) + p.skip(src.len() + 1int)
    } else {
        p
    }
}

/// The path below `src` that a rename to `dst` moves onto `k`.
pub open spec fn source_of(src: Seq<char>, dst: Seq<char>, k: Seq<char>) -> Seq<char> {
    with_slash(src) + k.skip(dst.len() + 1int)
}

/// The directories after moving `src` to `dst`.
pub open spec fn renamed_dirs(dirs: Set<Seq<char>>, src: Seq<char>, dst: Seq<char>) -> Set<
    Seq<char>,
> {
    Set::new(|d: Seq<char>| exists|o: Seq<char>| #[trigger] dirs.contains(o) && moved_path(src, dst, o) == d)
}

/// The records a directory move leaves in place (all but those below `src`, and `dst`).
pub open spec fn kept_files(files: Map<Seq<char>, FileView>, src: Seq<char>, dst: Seq<char>) -> Map<
    Seq<char>,
    FileView,
> {
    Map::new(|p: Seq<char>| files.contains_key(p) && !under(src, p) && p != dst, |p: Seq<char>| files[p])
}

/// `k` is where a record below `src` lands.
pub open spec fn is_moved_target(
    files: Map<Seq<char>, FileView>,
    src: Seq<char>,
    dst: Seq<char>,
    k: Seq<char>,
) -> bool {
    under(dst, k) && files.contains_key(source_of(src, dst, k))
}

/// A record below `src` would land on a live record that stays in place.
pub open spec fn dir_move_conflict(
    files: Map<Seq<char>, FileView>,
    src: Seq<char>,
    dst: Seq<char>,
) -> bool {
    exists|k: Seq<char>| #[trigger]
        is_moved_target(files, src, dst, k) && is_live(kept_files(files, src, dst), k)
}

/// The records after a directory move: moved records replace what was at their target.
pub open spec fn moved_files(files: Map<Seq<char>, FileView>, src: Seq<char>, dst: Seq<char>) -> Map<
    Seq<char>,
    FileView,
> {
    let kept = kept_files(files, src, dst);
    Map::new(
        |k: Seq<char>| is_moved_target(files, src, dst, k) || kept.contains_key(k),
        |k: Seq<char>|
            if is_moved_target(files, src, dst, k) {
                files[source_of(src, dst, k)]
            } else {
                kept[k]
            },
    )
}

/// What `rename_path` does: the result and the resulting store. A refused
/// rename leaves the store as it was.
pub open spec fn rename_outcome(m: MetaView, src: Seq<char>, dst: Seq<char>) -> (
    Result<(), MetadataError>,
    MetaView,
) {
    if !dir_path_ok(src) || !dir_path_ok(dst) || src == root() || dst == root() || src == dst {
        (Err(MetadataError::InvalidPath), m)
    } else if !m.dirs.contains(src) && !is_live(m.files, src) {
        (Err(MetadataError::PathNotFound), m)
    } else if !m.dirs.contains(parent_of(dst)) {
        (Err(MetadataError::ParentMissing), m)
    } else if m.dirs.contains(dst) || is_live(m.files, dst) {
        (Err(MetadataError::PathTypeConflict), m)
    } else if m.dirs.contains(src) {
        if under(src, dst) {
            (Err(MetadataError::PathTypeConflict), m)
        } else {
            if dir_move_conflict(m.files, src, dst) {
                (Err(MetadataError::PathTypeConflict), m)
            } else {
                (
                    Ok(()),
                    MetaView {
                        files: moved_files(m.files, src, dst),
                        dirs: renamed_dirs(m.dirs, src, dst),
                        applied: m.applied,
                    },
                )
            }
        }
    } else {
        let files1 = m.files.remove(dst);
        (Ok(()), MetaView { files: files1.remove(src).insert(dst, files1[src]), ..m })
    }
}

/// A path moved by a directory rename lands neither on the old directory
/// nor below it, unless the destination lies above the source.
pub proof fn lemma_moved_path_leaves_source(src: Seq<char>, dst: Seq<char>, o: Seq<char>)
    requires
        src != dst,
        !under(src, dst),
        !under(dst, src),
    ensures
        moved_path(src, dst, o) != src,
        !under(src, moved_path(src, dst, o)),
{
    let a = with_slash(src);
    let b = with_slash(dst);
    if o != src && under(src, o) {
        let r = o.skip(src.len() + 1int);
        let mv = b + r;
        assert(moved_path(src, dst, o) == mv);
        if mv == src {
            assert(b =~= src.subrange(0, b.len() as int));
            assert(b.is_prefix_of(src));
        }
        if a.is_prefix_of(mv) {
            if a.len() == b.len() {
                assert(a =~= b) by {
                    assert forall|k: int| 0 <= k < a.len() implies a[k] == b[k] by {
                        assert(a[k] == mv[k]);
                        assert(mv[k] == b[k]);
                    }
                }
                assert(src =~= a.drop_last());
                assert(dst =~= b.drop_last());
            } else if a.len() < b.len() {
                assert(a.len() <= dst.len());
                assert forall|k: int| 0 <= k < a.len() implies a[k] == dst[k] by {
                    assert(a[k] == mv[k]);
                    assert(mv[k] == b[k]);
                }
                assert(a.is_prefix_of(dst));
            } else {
                assert(b.len() <= src.len());
                assert forall|k: int| 0 <= k < b.len() implies b[k] == src[k] by {
                    assert(a[k] == mv[k]);
                    assert(mv[k] == b[k]);
                }
                assert(b.is_prefix_of(src));
            }
        }
    }
}

/// A directory rename moves the directory: afterwards the old path and
/// every path below it are no longer directories, the new path is one, and
/// each directory that was below the old path is below the new one. (In a
/// namespace where every directory's parent is a directory, the destination
/// never lies above the source, since it would itself be a directory.)
pub proof fn law_renamed_directory_leaves_its_old_place(m: MetaView, src: Seq<char>, dst: Seq<char>)
    requires
        rename_outcome(m, src, dst).0 is Ok,
        m.dirs.contains(src),
        !under(dst, src),
    ensures
        !rename_outcome(m, src, dst).1.dirs.contains(src),
        forall|d: Seq<char>|
            under(src, d) ==> !(#[trigger] rename_outcome(m, src, dst).1.dirs.contains(d)),
        rename_outcome(m, src, dst).1.dirs.contains(dst),
        forall|o: Seq<char>|
            m.dirs.contains(o) && under(src, o) ==> #[trigger] rename_outcome(
                m,
                src,
                dst,
            ).1.dirs.contains(moved_path(src, dst, o)),
{
    let r = rename_outcome(m, src, dst).1;
    assert(r.dirs == renamed_dirs(m.dirs, src, dst));
    if r.dirs.contains(src) {
        let o = choose|o: Seq<char>| #[trigger] m.dirs.contains(o) && moved_path(src, dst, o) == src;
        lemma_moved_path_leaves_source(src, dst, o);
    }
    assert forall|d: Seq<char>| under(src, d) implies !(#[trigger] r.dirs.contains(d)) by {
        if r.dirs.contains(d) {
            let o = choose|o: Seq<char>| #[trigger] m.dirs.contains(o) && moved_path(src, dst, o) == d;
            lemma_moved_path_leaves_source(src, dst, o);
        }
    }
    assert(moved_path(src, dst, src) == dst);
    assert forall|o: Seq<char>| m.dirs.contains(o) && under(src, o) implies #[trigger] r.dirs.contains(
        moved_path(src, dst, o),
    ) by {
    }
}

/// Moving a path below `src` and moving it back are inverse.
pub proof fn lemma_move_inverse(src: Seq<char>, dst: Seq<char>, p: Seq<char>, k: Seq<char>)
    ensures
        under(src, p) ==> under(dst, moved_path(src, dst, p)) && source_of(
            src,
            dst,
            moved_path(src, dst, p),
        ) == p,
        under(dst, k) ==> under(src, source_of(src, dst, k)) && moved_path(
            src,
            dst,
            source_of(src, dst, k),
        ) == k,
{
    if under(src, p) {
        let t = moved_path(src, dst, p);
        if p == src {
            assert(p.len() >= src.len() + 1);
        }
        assert(t =~= with_slash(dst) + p.skip(src.len() + 1int));
        assert(with_slash(dst) =~= t.subrange(0, dst.len() + 1int));
        assert(t.skip(dst.len() + 1int) =~= p.skip(src.len() + 1int));
        assert(source_of(src, dst, t) =~= with_slash(src) + p.skip(src.len() + 1int));
        assert(p =~= with_slash(src) + p.skip(src.len() + 1int));
    }
    if under(dst, k) {
        let q = source_of(src, dst, k);
        assert(with_slash(src) =~= q.subrange(0, src.len() + 1int));
        assert(q != src);
        assert(q.skip(src.len() + 1int) =~= k.skip(dst.len() + 1int));
        assert(k =~= with_slash(dst) + k.skip(dst.len() + 1int));
    }
}

/// Whether `p` lies strictly below directory `dir`.
pub fn is_under(dir: &str, p: &str) -> (r: bool)
    ensures
        r == under(dir@, p@),
{
    let prefix = concat2(dir, slash());
    assert(prefix@ =~= with_slash(dir@));
    starts_with_str(p, prefix.as_str())
}

/// Where a directory rename from `src` to `dst` moves `p`.
pub fn relocate(src: &str, dst: &str, p: &str) -> (r: String)
    ensures
        r@ == moved_path(src@, dst@, p@),
{
    if crate::text::str_equal(p, src) {
        return owned(dst);
    }
    let src_prefix = concat2(src, slash());
    assert(src_prefix@ =~= with_slash(src@));
    if starts_with_str(p, src_prefix.as_str()) {
        let n = p.unicode_len();
        let m = src_prefix.unicode_len();
        let rest = substring(p, m, n);
        let dst_prefix = concat2(dst, slash());
        assert(dst_prefix@ =~= with_slash(dst@));
        assert(rest@ =~= p@.skip(src@.len() + 1int));
        return concat2(dst_prefix.as_str(), rest.as_str());
    }
    owned(p)
}

/// The metadata tables: file records, directories and applied transaction ids.
/// The file table that storing each record of `s` in turn builds; a later
/// record of a path replaces an earlier one.
pub open spec fn stored_files(s: Seq<(String, FileMetadataState)>) -> Map<Seq<char>, FileView>
    decreases s.len(),
{
    if s.len() == 0 {
        Map::empty()
    } else {
        stored_files(s.drop_last()).insert(s.last().0@, s.last().1@)
    }
}

/// The record views of an entry list.
pub open spec fn record_views(e: Seq<(String, FileMetadataState)>) -> Map<Seq<char>, FileView> {
    entry_map(e).map_values(|f: FileMetadataState| f@)
}

pub struct MetadataState {
    files: StrMap<FileMetadataState>,
    directories: StrSet,
    applied_transactions: StrSet,
}

impl MetadataState {
    /// The tables hold no repeated keys.
    pub closed spec fn wf(&self) -> bool {
        self.files.wf() && self.directories.wf() && self.applied_transactions.wf()
    }

    /// The store over character sequences.
    pub closed spec fn view(&self) -> MetaView {
        MetaView {
            files: self.files@.map_values(|f: FileMetadataState| f@),
            dirs: self.directories@,
            applied: self.applied_transactions@,
        }
    }

    /// The stored record of a live file at `p`, as a read view.
    pub closed spec fn record_of(&self, p: Seq<char>) -> Option<ReadView> {
        if is_live(self@.files, p) {
            let f = self.files@[p];
            Some(ReadView { version: f.version, chunk_ids: f.chunk_ids, chunk_hashes: f.chunk_hashes })
        } else {
            None
        }
    }

    /// The stored record reads as the committed record of the view.
    pub proof fn lemma_record_of(&self, p: Seq<char>)
        ensures
            read_view_opt(self.record_of(p)) == read_outcome(self@, p),
    {
    }

    /// A store holding only the root directory.
    pub fn new() -> (s: Self)
        ensures
            s.wf(),
            s@ == initial_view(),
    {
        let mut directories = StrSet::new();
        directories.insert(owned(slash()));
        let s = MetadataState { files: StrMap::new(), directories, applied_transactions: StrSet::new() };
        assert(s@.files =~= Map::<Seq<char>, FileView>::empty());
        assert(s@.dirs =~= Set::<Seq<char>>::empty().insert(root()));
        s
    }

    /// Every file record, as a list without repeated paths.
    pub fn export_files(&self) -> (r: Vec<(String, FileMetadataState)>)
        requires
            self.wf(),
        ensures
            stored_files(r@) == self@.files,
    {
        let e = self.files.as_slice();
        let ghost es = e@;
        let mut out: Vec<(String, FileMetadataState)> = Vec::new();
        let mut i: usize = 0;
        assert(es.take(0) =~= Seq::<(String, FileMetadataState)>::empty());
        assert(record_views(es.take(0)) =~= Map::<Seq<char>, FileView>::empty());
        while i < e.len()
            invariant
                es == e@,
                keys_unique(es),
                i <= es.len(),
                out@.len() == i,
                forall|j: int| 0 <= j < i ==> (#[trigger] out@[j]).0@ == es[j].0@ && out@[j].1@
                    == es[j].1@,
                stored_files(out@) == record_views(es.take(i as int)),
            decreases es.len() - i,
        {
            let ghost before = out@;
            out.push((e[i].0.clone(), e[i].1.duplicate()));
            proof {
                let t = es.take(i + 1);
                assert(t.drop_last() =~= es.take(i as int));
                assert(t == es.take(i as int).push(es[i as int]));
                assert(keys_unique(t)) by {
                    assert forall|a: int, b: int| 0 <= a < b < t.len() implies #[trigger] t[a].0@
                        != #[trigger] t[b].0@ by {
                        assert(t[a] == es[a]);
                        assert(t[b] == es[b]);
                    }
                }
                lemma_entry_map_push(es.take(i as int), es[i as int]);
                assert(out@.drop_last() =~= before);
                assert(record_views(t) =~= record_views(es.take(i as int)).insert(
                    es[i as int].0@,
                    es[i as int].1@,
                ));
            }
            i = i + 1;
        }
        assert(es.take(es.len() as int) =~= es);
        assert(record_views(es) =~= self@.files);
        out
    }

    /// Every directory.
    pub fn export_directories(&self) -> (r: Vec<String>)
        ensures
            string_set(r@) == self@.dirs,
    {
        clone_strings(self.directories.as_slice())
    }

    /// Every applied transaction id.
    pub fn export_applied(&self) -> (r: Vec<String>)
        ensures
            string_set(r@) == self@.applied,
    {
        clone_strings(self.applied_transactions.as_slice())
    }

    /// The store whose file table stores each record of `files` in turn and
    /// whose directories and applied ids are those listed.
    pub fn from_parts(
        files: &[(String, FileMetadataState)],
        directories: &[String],
        applied: &[String],
    ) -> (s: Self)
        ensures
            s.wf(),
            s@ == (MetaView {
                files: stored_files(files@),
                dirs: string_set(directories@),
                applied: string_set(applied@),
            }),
    {
        let mut table: StrMap<FileMetadataState> = StrMap::new();
        let mut i: usize = 0;
        assert(files@.take(0) =~= Seq::<(String, FileMetadataState)>::empty());
        assert(table@.map_values(|f: FileMetadataState| f@) =~= Map::<Seq<char>, FileView>::empty());
        while i < files.len()
            invariant
                i <= files@.len(),
                table.wf(),
                table@.map_values(|f: FileMetadataState| f@) == stored_files(files@.take(i as int)),
            decreases files@.len() - i,
        {
            let ghost before = table@;
            table.insert(files[i].0.clone(), files[i].1.duplicate());
            proof {
                let t = files@.take(i + 1);
                assert(t.drop_last() =~= files@.take(i as int));
                assert(t.last() == files@[i as int]);
                assert(table@.map_values(|f: FileMetadataState| f@) =~= before.map_values(
                    |f: FileMetadataState| f@,
                ).insert(files@[i as int].0@, files@[i as int].1@));
            }
            i = i + 1;
        }
        assert(files@.take(files@.len() as int) =~= files@);
        let dirs = Self::string_table(directories);
        let done = Self::string_table(applied);
        MetadataState { files: table, directories: dirs, applied_transactions: done }
    }

    /// A set of the listed strings.
    fn string_table(items: &[String]) -> (s: StrSet)
        ensures
            s.wf(),
            s@ == string_set(items@),
    {
        let mut set = StrSet::new();
        let mut i: usize = 0;
        assert(items@.take(0) =~= Seq::<String>::empty());
        assert(string_set(items@.take(0)) =~= Set::<Seq<char>>::empty());
        while i < items.len()
            invariant
                i <= items@.len(),
                set.wf(),
                set@ == string_set(items@.take(i as int)),
            decreases items@.len() - i,
        {
            set.insert(items[i].clone());
            proof {
                assert(items@.take(i + 1) =~= items@.take(i as int).push(items@[i as int]));
                lemma_string_set_push(items@.take(i as int), items@[i as int]);
            }
            i = i + 1;
        }
        assert(items@.take(items@.len() as int) =~= items@);
        set
    }

    /// Stores `f` under `p`.
    fn put_file(&mut self, p: String, f: FileMetadataState)
        requires
            old(self).wf(),
        ensures
            final(self).wf(),
            final(self)@ == (MetaView { files: old(self)@.files.insert(p@, f@), ..old(self)@ }),
    {
        let ghost pv = p@;
        let ghost fv = f@;
        self.files.insert(p, f);
        assert(self@.files =~= old(self)@.files.insert(pv, fv));
    }

    /// Drops the record of `p`, if any.
    fn drop_file(&mut self, p: &str)
        requires
            old(self).wf(),
        ensures
            final(self).wf(),
            final(self)@ == (MetaView { files: old(self)@.files.remove(p@), ..old(self)@ }),
    {
        self.files.remove(p);
        assert(self@.files =~= old(self)@.files.remove(p@));
    }

    /// Whether a live file is recorded at `p`.
    pub fn is_live_file_at_path(&self, p: &str) -> (r: bool)
        requires
            self.wf(),
        ensures
            r == is_live(self@.files, p@),
    {
        match self.files.get(p) {
            Some(f) => !f.tombstoned,
            None => false,
        }
    }

    /// The record stored at `p`, copied.
    pub fn get(&self, p: &str) -> (r: Option<FileMetadataState>)
        requires
            self.wf(),
        ensures
            match r {
                Some(f) => self@.files.contains_key(p@) && f@ == self@.files[p@],
                None => !self@.files.contains_key(p@),
            },
    {
        match self.files.get(p) {
            Some(f) => Some(f.duplicate()),
            None => None,
        }
    }

    /// Version, chunk ids and chunk hashes of the live file at `p`.
    pub fn read_committed(&self, p: &str) -> (r: Option<(u64, Vec<String>, Vec<String>)>)
        requires
            self.wf(),
        ensures
            read_view_of(r) == read_outcome(self@, p@),
    {
        match self.files.get(p) {
            Some(f) => {
                if f.tombstoned {
                    None
                } else {
                    Some(
                        (
                            f.version,
                            clone_strings(f.chunk_ids.as_slice()),
                            clone_strings(f.chunk_hashes.as_slice()),
                        ),
                    )
                }
            },
            None => None,
        }
    }

    /// The stored version of `p`, or 0.
    pub fn current_version(&self, p: &str) -> (r: u64)
        requires
            self.wf(),
        ensures
            r == version_outcome(self@, p@),
    {
        match self.files.get(p) {
            Some(f) => f.version,
            None => 0,
        }
    }

    /// The names directly below `parent`, sorted and without repeats.
    pub fn collect_children(&self, parent: &str) -> (r: Vec<String>)
        requires
            self.wf(),
        ensures
            sorted_strict(r@),
            string_set(r@) == children_of(parent@, self@.dirs, self@.files),
    {
        let mut out: Vec<String> = Vec::new();
        let ghost dir_items = self.directories.items();
        let ghost file_entries = self.files.entries();
        let nd = self.directories.len();
        let mut i: usize = 0;
        assert(string_set(out@) =~= Set::<Seq<char>>::empty());
        while i < nd
            invariant
                nd == dir_items.len(),
                dir_items == self.directories.items(),
                i <= nd,
                sorted_strict(out@),
                string_set(out@) == Set::new(
                    |n: Seq<char>|
                        exists|j: int|
                            0 <= j < i && child_name(parent@, #[trigger] dir_items[j]@) == Some(n),
                ),
            decreases nd - i,
        {
            let d = self.directories.item(i);
            let ghost before = string_set(out@);
            match direct_child_name(parent, d.as_str()) {
                Some(name) => {
                    let ghost nv = name@;
                    insert_sorted_unique(&mut out, name);
                    assert(string_set(out@) =~= Set::new(
                        |n: Seq<char>|
                            exists|j: int|
                                0 <= j < i + 1 && child_name(parent@, #[trigger] dir_items[j]@)
                                    == Some(n),
                    )) by {
                        assert(child_name(parent@, dir_items[i as int]@) == Some(nv));
                    }
                },
                None => {
                    assert(string_set(out@) =~= Set::new(
                        |n: Seq<char>|
                            exists|j: int|
                                0 <= j < i + 1 && child_name(parent@, #[trigger] dir_items[j]@)
                                    == Some(n),
                    ));
                },
            }
            i = i + 1;
        }
        let nf = self.files.len();
        let mut k: usize = 0;
        while k < nf
            invariant
                nd == dir_items.len(),
                dir_items == self.directories.items(),
                nf == file_entries.len(),
                file_entries == self.files.entries(),
                k <= nf,
                sorted_strict(out@),
                string_set(out@) == Set::new(
                    |n: Seq<char>|
                        (exists|j: int|
                            0 <= j < nd && child_name(parent@, #[trigger] dir_items[j]@) == Some(n))
                            || (exists|j: int|
                            0 <= j < k && !(#[trigger] file_entries[j]).1.tombstoned && child_name(
                                parent@,
                                file_entries[j].0@,
                            ) == Some(n)),
                ),
            decreases nf - k,
        {
            let path = self.files.key(k);
            let state = self.files.value(k);
            if !state.tombstoned {
                match direct_child_name(parent, path.as_str()) {
                    Some(name) => {
                        let ghost nv = name@;
                        insert_sorted_unique(&mut out, name);
                        assert(string_set(out@) =~= Set::new(
                            |n: Seq<char>|
                                (exists|j: int|
                                    0 <= j < nd && child_name(parent@, #[trigger] dir_items[j]@)
                                        == Some(n)) || (exists|j: int|
                                    0 <= j < k + 1 && !(#[trigger] file_entries[j]).1.tombstoned
                                        && child_name(parent@, file_entries[j].0@) == Some(n)),
                        )) by {
                            assert(child_name(parent@, file_entries[k as int].0@) == Some(nv));
                        }
                    },
                    None => {
                        assert(string_set(out@) =~= Set::new(
                            |n: Seq<char>|
                                (exists|j: int|
                                    0 <= j < nd && child_name(parent@, #[trigger] dir_items[j]@)
                                        == Some(n)) || (exists|j: int|
                                    0 <= j < k + 1 && !(#[trigger] file_entries[j]).1.tombstoned
                                        && child_name(parent@, file_entries[j].0@) == Some(n)),
                        ));
                    },
                }
            } else {
                assert(string_set(out@) =~= Set::new(
                    |n: Seq<char>|
                        (exists|j: int|
                            0 <= j < nd && child_name(parent@, #[trigger] dir_items[j]@) == Some(n))
                            || (exists|j: int|
                            0 <= j < k + 1 && !(#[trigger] file_entries[j]).1.tombstoned
                                && child_name(parent@, file_entries[j].0@) == Some(n)),
                ));
            }
            k = k + 1;
        }
        proof {
            let cs = children_of(parent@, self@.dirs, self@.files);
            assert forall|n: Seq<char>| #[trigger] string_set(out@).contains(n) <==> cs.contains(
                n,
            ) by {
                if string_set(out@).contains(n) {
                    if exists|j: int|
                        0 <= j < nd && child_name(parent@, #[trigger] dir_items[j]@) == Some(n) {
                        let j = choose|j: int|
                            0 <= j < nd && child_name(parent@, #[trigger] dir_items[j]@) == Some(n);
                        assert(self@.dirs.contains(dir_items[j]@));
                    } else {
                        let j = choose|j: int|
                            0 <= j < nf && !(#[trigger] file_entries[j]).1.tombstoned && child_name(
                                parent@,
                                file_entries[j].0@,
                            ) == Some(n);
                        lemma_entry_map_at(file_entries, j);
                        assert(self@.files.contains_key(file_entries[j].0@));
                    }
                }
                if cs.contains(n) {
                    if exists|d: Seq<char>| #[trigger]
                        self@.dirs.contains(d) && child_name(parent@, d) == Some(n) {
                        let d = choose|d: Seq<char>| #[trigger]
                            self@.dirs.contains(d) && child_name(parent@, d) == Some(n);
                        let j = choose|j: int| 0 <= j < dir_items.len() && dir_items[j]@ == d;
                        assert(child_name(parent@, dir_items[j]@) == Some(n));
                    } else {
                        let p = choose|p: Seq<char>| #[trigger]
                            self@.files.contains_key(p) && !self@.files[p].tombstoned
                                && child_name(parent@, p) == Some(n);
                        let j = choose|j: int| 0 <= j < file_entries.len() && file_entries[j].0@ == p;
                        lemma_entry_map_at(file_entries, j);
                        assert(!file_entries[j].1.tombstoned);
                    }
                }
            }
            assert(string_set(out@) =~= cs);
        }
        out
    }

    /// Creates directory `p` (reclaiming a tombstoned file record at `p`).
    pub fn create_directory(&mut self, p: &str) -> (r: Result<(), MetadataError>)
        requires
            old(self).wf(),
        ensures
            final(self).wf(),
            match create_dir_outcome(old(self)@, p@) {
                Ok(m) => r is Ok && final(self)@ == m,
                Err(e) => r == Err::<(), MetadataError>(e) && final(self)@ == old(self)@,
            },
    {
        if !is_valid_directory_path(p) {
            return Err(MetadataError::InvalidPath);
        }
        if !is_root(p) {
            let parent = parent_path(p);
            if !self.directories.contains(parent.as_str()) {
                return Err(MetadataError::ParentMissing);
            }
        }
        if self.is_live_file_at_path(p) {
            return Err(MetadataError::PathTypeConflict);
        }
        self.drop_file(p);
        self.directories.insert(owned(p));
        Ok(())
    }

    /// The sorted names directly below directory `p`.
    pub fn list_children(&self, p: &str) -> (r: Result<Vec<String>, MetadataError>)
        requires
            self.wf(),
        ensures
            match list_outcome(self@, p@) {
                Ok(names) => r matches Ok(v) && sorted_strict(v@) && string_set(v@) == names,
                Err(e) => r == Err::<Vec<String>, MetadataError>(e),
            },
    {
        if !is_valid_directory_path(p) {
            return Err(MetadataError::InvalidPath);
        }
        if !self.directories.contains(p) {
            return Err(MetadataError::DirectoryNotFound);
        }
        Ok(self.collect_children(p))
    }

    /// Removes the empty directory `p`.
    pub fn remove_directory(&mut self, p: &str) -> (r: Result<(), MetadataError>)
        requires
            old(self).wf(),
        ensures
            final(self).wf(),
            match remove_dir_outcome(old(self)@, p@) {
                Ok(m) => r is Ok && final(self)@ == m,
                Err(e) => r == Err::<(), MetadataError>(e) && final(self)@ == old(self)@,
            },
    {
        if !is_valid_directory_path(p) {
            return Err(MetadataError::InvalidPath);
        }
        if is_root(p) {
            return Err(MetadataError::InvalidPath);
        }
        if !self.directories.contains(p) {
            return Err(MetadataError::DirectoryNotFound);
        }
        let children = self.collect_children(p);
        if children.len() > 0 {
            assert(string_set(children@).contains(children@[0]@));
            return Err(MetadataError::DirectoryNotEmpty);
        }
        assert(string_set(children@) =~= Set::<Seq<char>>::empty());
        self.directories.remove(p);
        Ok(())
    }

    /// Applies a committed WAL write: compare-and-swap on the version,
    /// idempotent for a transaction already applied.
    pub fn apply_write(
        &mut self,
        tx_id: &str,
        file_path: &str,
        expected_version: u64,
        chunk_ids: &[String],
        chunk_hashes: &[String],
    ) -> (r: Result<(), MetadataError>)
        requires
            old(self).wf(),
            !(write_commits(old(self)@, tx_id@, file_path@, expected_version, views(chunk_ids@), views(chunk_hashes@))
                && expected_version == u64::MAX),
        ensures
            final(self).wf(),
            (r, final(self)@) == write_outcome(
                old(self)@,
                tx_id@,
                file_path@,
                expected_version,
                views(chunk_ids@),
                views(chunk_hashes@),
            ),
    {
        if !is_valid_file_path(file_path) {
            return Err(MetadataError::InvalidPath);
        }
        if chunk_ids.len() != chunk_hashes.len() {
            return Err(MetadataError::InvalidChunkVector);
        }
        let parent = parent_path(file_path);
        if !self.directories.contains(parent.as_str()) {
            return Err(MetadataError::ParentMissing);
        }
        if self.directories.contains(file_path) {
            return Err(MetadataError::PathTypeConflict);
        }
        if self.applied_transactions.contains(tx_id) {
            return Ok(());
        }
        // A path without a record stands at version 0 with no transaction;
        // nothing is stored for it unless the write goes through.
        let (version, same_tx) = match self.files.get(file_path) {
            Some(f) => {
                let same = match &f.last_tx_id {
                    Some(t) => crate::text::str_equal(t.as_str(), tx_id),
                    None => false,
                };
                (f.version, same)
            },
            None => (0, false),
        };
        if same_tx {
            return Ok(());
        }
        if version != expected_version {
            return Err(MetadataError::CasConflict);
        }
        let updated = FileMetadataState {
            version: version + 1,
            last_tx_id: Some(owned(tx_id)),
            chunk_ids: clone_strings(chunk_ids),
            chunk_hashes: clone_strings(chunk_hashes),
            tombstoned: false,
        };
        self.put_file(owned(file_path), updated);
        self.applied_transactions.insert(owned(tx_id));
        Ok(())
    }

    /// Applies a committed WAL delete: tombstones the record on a version
    /// match, idempotent for a transaction already applied.
    pub fn apply_delete(&mut self, tx_id: &str, file_path: &str, expected_version: u64) -> (r:
        Result<(), MetadataError>)
        requires
            old(self).wf(),
            !(delete_commits(old(self)@, tx_id@, file_path@, expected_version) && expected_version
                == u64::MAX),
        ensures
            final(self).wf(),
            (r, final(self)@) == delete_outcome(old(self)@, tx_id@, file_path@, expected_version),
    {
        if self.applied_transactions.contains(tx_id) {
            return Ok(());
        }
        let updated = match self.files.get(file_path) {
            Some(f) => {
                if f.version != expected_version {
                    return Err(MetadataError::CasConflict);
                }
                FileMetadataState {
                    version: f.version + 1,
                    last_tx_id: Some(owned(tx_id)),
                    chunk_ids: clone_strings(f.chunk_ids.as_slice()),
                    chunk_hashes: clone_strings(f.chunk_hashes.as_slice()),
                    tombstoned: true,
                }
            },
            None => {
                return Err(MetadataError::CasConflict);
            },
        };
        self.put_file(owned(file_path), updated);
        self.applied_transactions.insert(owned(tx_id));
        Ok(())
    }

    /// Directory renames: every directory at or below `src` moves below `dst`.
    fn move_directories(&mut self, src: &str, dst: &str)
        requires
            old(self).wf(),
        ensures
            final(self).wf(),
            final(self)@ == (MetaView { dirs: renamed_dirs(old(self)@.dirs, src@, dst@), ..old(self)@ }),
    {
        let mut moved = StrSet::new();
        let ghost items = self.directories.items();
        let n = self.directories.len();
        let mut i: usize = 0;
        while i < n
            invariant
                n == items.len(),
                items == self.directories.items(),
                i <= n,
                moved.wf(),
                moved@ == Set::new(
                    |d: Seq<char>|
                        exists|j: int| 0 <= j < i && moved_path(src@, dst@, #[trigger] items[j]@) == d,
                ),
            decreases n - i,
        {
            let target = relocate(src, dst, self.directories.item(i).as_str());
            moved.insert(target);
            assert(moved@ =~= Set::new(
                |d: Seq<char>|
                    exists|j: int| 0 <= j < i + 1 && moved_path(src@, dst@, #[trigger] items[j]@) == d,
            ));
            i = i + 1;
        }
        proof {
            let want = renamed_dirs(old(self)@.dirs, src@, dst@);
            assert forall|d: Seq<char>| #[trigger] moved@.contains(d) <==> want.contains(d) by {
                if moved@.contains(d) {
                    let j = choose|j: int| 0 <= j < n && moved_path(src@, dst@, #[trigger] items[j]@) == d;
                    assert(old(self)@.dirs.contains(items[j]@));
                }
                if want.contains(d) {
                    let o = choose|o: Seq<char>| #[trigger]
                        old(self)@.dirs.contains(o) && moved_path(src@, dst@, o) == d;
                    let j = choose|j: int| 0 <= j < items.len() && items[j]@ == o;
                    assert(moved_path(src@, dst@, items[j]@) == d);
                }
            }
            assert(moved@ =~= want);
        }
        self.directories = moved;
    }

    /// Moves every record below `src` to the same place below `dst`, unless
    /// one would land on a live record that stays in place.
    fn move_files_below(&mut self, src: &str, dst: &str) -> (r: Result<(), MetadataError>)
        requires
            old(self).wf(),
        ensures
            final(self).wf(),
            if dir_move_conflict(old(self)@.files, src@, dst@) {
                r == Err::<(), MetadataError>(MetadataError::PathTypeConflict) && final(self)@
                    == old(self)@
            } else {
                r == Ok::<(), MetadataError>(()) && final(self)@ == (MetaView {
                    files: moved_files(old(self)@.files, src@, dst@),
                    ..old(self)@
                })
            },
    {
        let ghost e = self.files.entries();
        let ghost fv = self@.files;
        let n = self.files.len();
        let mut kept: StrMap<FileMetadataState> = StrMap::new();
        let mut i: usize = 0;
        while i < n
            invariant
                n == e.len(),
                e == self.files.entries(),
                self.wf(),
                self@ == old(self)@,
                keys_unique(e),
                fv == self@.files,
                fv == entry_map(e).map_values(|f: FileMetadataState| f@),
                i <= n,
                kept.wf(),
                forall|p: Seq<char>| #[trigger]
                    kept@.contains_key(p) <==> (exists|j: int|
                        0 <= j < i && e[j].0@ == p && !under(src@, p) && p != dst@),
                forall|p: Seq<char>| #[trigger] kept@.contains_key(p) ==> kept@[p]@ == fv[p],
            decreases n - i,
        {
            let p = self.files.key(i);
            if !is_under(src, p.as_str()) && !crate::text::str_equal(p.as_str(), dst) {
                proof {
                    lemma_entry_map_at(e, i as int);
                }
                let v = self.files.value(i).duplicate();
                kept.insert(p.clone(), v);
            }
            i = i + 1;
        }
        let ghost kv = kept@.map_values(|f: FileMetadataState| f@);
        proof {
            let want = kept_files(fv, src@, dst@);
            assert forall|p: Seq<char>| #[trigger] kv.contains_key(p) <==> want.contains_key(p) by {
                if want.contains_key(p) {
                    assert(entry_map(e).contains_key(p));
                    let j = choose|j: int| key_at(e, p, j);
                    assert(0 <= j < n && e[j].0@ == p);
                    assert(kept@.contains_key(p));
                }
                if kv.contains_key(p) {
                    assert(kept@.contains_key(p));
                    let j = choose|j: int|
                        0 <= j < n && e[j].0@ == p && !under(src@, p) && p != dst@;
                    assert(key_at(e, p, j));
                    assert(entry_map(e).contains_key(p));
                }
            }
            assert(kv =~= want);
        }
        let mut i: usize = 0;
        while i < n
            invariant
                n == e.len(),
                e == self.files.entries(),
                self.wf(),
                self@ == old(self)@,
                keys_unique(e),
                fv == self@.files,
                fv == entry_map(e).map_values(|f: FileMetadataState| f@),
                kept.wf(),
                kv == kept@.map_values(|f: FileMetadataState| f@),
                kv == kept_files(fv, src@, dst@),
                i <= n,
                forall|j: int|
                    0 <= j < i && under(src@, #[trigger] e[j].0@) ==> !is_live(
                        kv,
                        moved_path(src@, dst@, e[j].0@),
                    ),
            decreases n - i,
        {
            let p = self.files.key(i);
            if is_under(src, p.as_str()) {
                let target = relocate(src, dst, p.as_str());
                let live = match kept.get(target.as_str()) {
                    Some(f) => !f.tombstoned,
                    None => false,
                };
                if live {
                    proof {
                        let k = target@;
                        lemma_move_inverse(src@, dst@, p@, k);
                        lemma_entry_map_at(e, i as int);
                        assert(is_moved_target(fv, src@, dst@, k));
                        assert(is_live(kv, k));
                    }
                    return Err(MetadataError::PathTypeConflict);
                }
            }
            i = i + 1;
        }
        proof {
            assert forall|k: Seq<char>| #[trigger] is_moved_target(fv, src@, dst@, k) implies !is_live(
                kv,
                k,
            ) by {
                let q = source_of(src@, dst@, k);
                lemma_move_inverse(src@, dst@, q, k);
                let j = choose|j: int| key_at(e, q, j);
                assert(under(src@, e[j].0@));
            }
        }
        let mut result = kept;
        let mut i: usize = 0;
        while i < n
            invariant
                n == e.len(),
                e == self.files.entries(),
                self.wf(),
                self@ == old(self)@,
                keys_unique(e),
                fv == self@.files,
                fv == entry_map(e).map_values(|f: FileMetadataState| f@),
                kv == kept_files(fv, src@, dst@),
                result.wf(),
                i <= n,
                forall|k: Seq<char>| #[trigger]
                    result@.contains_key(k) <==> (kv.contains_key(k) || exists|j: int|
                        0 <= j < i && under(src@, #[trigger] e[j].0@) && moved_path(src@, dst@, e[j].0@)
                            == k),
                forall|k: Seq<char>| #[trigger]
                    result@.contains_key(k) ==> result@[k]@ == (if exists|j: int|
                        0 <= j < i && under(src@, #[trigger] e[j].0@) && moved_path(src@, dst@, e[j].0@)
                            == k {
                        fv[source_of(src@, dst@, k)]
                    } else {
                        kv[k]
                    }),
            decreases n - i,
        {
            let p = self.files.key(i);
            if is_under(src, p.as_str()) {
                let target = relocate(src, dst, p.as_str());
                proof {
                    lemma_entry_map_at(e, i as int);
                    lemma_move_inverse(src@, dst@, p@, target@);
                }
                let v = self.files.value(i).duplicate();
                result.insert(target, v);
                proof {
                    assert forall|k: Seq<char>| #[trigger] result@.contains_key(k) implies result@[k]@
                        == (if exists|j: int|
                        0 <= j < i + 1 && under(src@, #[trigger] e[j].0@) && moved_path(
                            src@,
                            dst@,
                            e[j].0@,
                        ) == k {
                        fv[source_of(src@, dst@, k)]
                    } else {
                        kv[k]
                    }) by {
                        if exists|j: int|
                            0 <= j < i && under(src@, #[trigger] e[j].0@) && moved_path(
                                src@,
                                dst@,
                                e[j].0@,
                            ) == k {
                            let j = choose|j: int|
                                0 <= j < i && under(src@, #[trigger] e[j].0@) && moved_path(
                                    src@,
                                    dst@,
                                    e[j].0@,
                                ) == k;
                            lemma_move_inverse(src@, dst@, e[j].0@, k);
                        }
                    }
                }
            }
            i = i + 1;
        }
        proof {
            let want = moved_files(fv, src@, dst@);
            let rv = result@.map_values(|f: FileMetadataState| f@);
            assert forall|k: Seq<char>| #[trigger] rv.contains_key(k) <==> want.contains_key(k) by {
                if is_moved_target(fv, src@, dst@, k) {
                    let q = source_of(src@, dst@, k);
                    lemma_move_inverse(src@, dst@, q, k);
                    let j = choose|j: int| key_at(e, q, j);
                    assert(under(src@, e[j].0@) && moved_path(src@, dst@, e[j].0@) == k);
                }
                if exists|j: int|
                    0 <= j < n && under(src@, #[trigger] e[j].0@) && moved_path(src@, dst@, e[j].0@)
                        == k {
                    let j = choose|j: int|
                        0 <= j < n && under(src@, #[trigger] e[j].0@) && moved_path(src@, dst@, e[j].0@)
                            == k;
                    lemma_move_inverse(src@, dst@, e[j].0@, k);
                    lemma_entry_map_at(e, j);
                }
            }
            assert forall|k: Seq<char>| #[trigger] rv.contains_key(k) implies rv[k] == want[k] by {
                if is_moved_target(fv, src@, dst@, k) {
                    let q = source_of(src@, dst@, k);
                    lemma_move_inverse(src@, dst@, q, k);
                    let j = choose|j: int| key_at(e, q, j);
                    assert(under(src@, e[j].0@) && moved_path(src@, dst@, e[j].0@) == k);
                } else if exists|j: int|
                    0 <= j < n && under(src@, #[trigger] e[j].0@) && moved_path(src@, dst@, e[j].0@)
                        == k {
                    let j = choose|j: int|
                        0 <= j < n && under(src@, #[trigger] e[j].0@) && moved_path(src@, dst@, e[j].0@)
                            == k;
                    lemma_move_inverse(src@, dst@, e[j].0@, k);
                    lemma_entry_map_at(e, j);
                }
            }
            assert(rv =~= want);
        }
        self.files = result;
        Ok(())
    }

    /// Moves a live file or a directory tree from `src` to `dst`.
    pub fn rename_in_state(&mut self, src: &str, dst: &str) -> (r: Result<(), MetadataError>)
        requires
            old(self).wf(),
            dir_path_ok(src@),
            dir_path_ok(dst@),
            src@ != root(),
            dst@ != root(),
            src@ != dst@,
        ensures
            final(self).wf(),
            (r, final(self)@) == rename_outcome(old(self)@, src@, dst@),
    {
        let src_is_dir = self.directories.contains(src);
        let src_is_file = self.is_live_file_at_path(src);
        if !src_is_dir && !src_is_file {
            return Err(MetadataError::PathNotFound);
        }
        let dst_parent = parent_path(dst);
        if !self.directories.contains(dst_parent.as_str()) {
            return Err(MetadataError::ParentMissing);
        }
        if self.directories.contains(dst) || self.is_live_file_at_path(dst) {
            return Err(MetadataError::PathTypeConflict);
        }
        if src_is_dir {
            if is_under(src, dst) {
                return Err(MetadataError::PathTypeConflict);
            }
            let ghost m = self@;
            // The records are moved first: a landing conflict refuses the
            // rename before any directory has moved.
            let r = self.move_files_below(src, dst);
            if r.is_err() {
                return r;
            }
            self.move_directories(src, dst);
            proof {
                assert(self@.dirs == renamed_dirs(m.dirs, src@, dst@));
                assert(self@.files == moved_files(m.files, src@, dst@));
            }
            return r;
        }
        self.drop_file(dst);
        let ghost mid = self@;
        assert(mid.files.contains_key(src@));
        match self.files.remove(src) {
            Some(v) => {
                let ghost vv = v@;
                assert(mid.files[src@] == vv);
                self.files.insert(owned(dst), v);
                assert(self@.files =~= mid.files.remove(src@).insert(dst@, vv));
                Ok(())
            },
            None => {
                assert(false);
                Err(MetadataError::PathNotFound)
            },
        }
    }

    /// Validates both paths, then renames.
    pub fn rename_path(&mut self, src: &str, dst: &str) -> (r: Result<(), MetadataError>)
        requires
            old(self).wf(),
        ensures
            final(self).wf(),
            (r, final(self)@) == rename_outcome(old(self)@, src@, dst@),
    {
        if !is_valid_directory_path(src) || !is_valid_directory_path(dst) {
            return Err(MetadataError::InvalidPath);
        }
        if is_root(src) || is_root(dst) || crate::text::str_equal(src, dst) {
            return Err(MetadataError::InvalidPath);
        }
        self.rename_in_state(src, dst)
    }

    /// The chunk ids referenced by live files, each once.
    pub fn all_live_chunk_ids(&self) -> (r: Vec<String>)
        requires
            self.wf(),
        ensures
            crate::keyed::items_unique(r@),
            string_set(r@) == live_chunk_set(self@.files),
    {
        let mut set = StrSet::new();
        let ghost entries = self.files.entries();
        let n = self.files.len();
        let mut i: usize = 0;
        while i < n
            invariant
                n == entries.len(),
                entries == self.files.entries(),
                i <= n,
                set.wf(),
                set@ == Set::new(
                    |c: Seq<char>|
                        exists|j: int|
                            0 <= j < i && !(#[trigger] entries[j]).1.tombstoned && views(
                                entries[j].1.chunk_ids@,
                            ).contains(c),
                ),
            decreases n - i,
        {
            let f = self.files.value(i);
            let ghost before = set@;
            if !f.tombstoned {
                let m = f.chunk_ids.len();
                let mut k: usize = 0;
                while k < m
                    invariant
                        m == f.chunk_ids@.len(),
                        k <= m,
                        set.wf(),
                        set@ == before.union(
                            Set::new(
                                |c: Seq<char>|
                                    exists|q: int| 0 <= q < k && (#[trigger] f.chunk_ids@[q])@ == c,
                            ),
                        ),
                    decreases m - k,
                {
                    set.insert(f.chunk_ids[k].clone());
                    assert(set@ =~= before.union(
                        Set::new(
                            |c: Seq<char>|
                                exists|q: int| 0 <= q < k + 1 && (#[trigger] f.chunk_ids@[q])@ == c,
                        ),
                    ));
                    k = k + 1;
                }
                assert forall|c: Seq<char>|
                    views(f.chunk_ids@).contains(c) <==> (exists|q: int|
                        0 <= q < m && (#[trigger] f.chunk_ids@[q])@ == c) by {
                    if views(f.chunk_ids@).contains(c) {
                        let q = choose|q: int| 0 <= q < m && views(f.chunk_ids@)[q] == c;
                        assert(f.chunk_ids@[q]@ == c);
                    }
                    if exists|q: int| 0 <= q < m && (#[trigger] f.chunk_ids@[q])@ == c {
                        let q = choose|q: int| 0 <= q < m && (#[trigger] f.chunk_ids@[q])@ == c;
                        assert(views(f.chunk_ids@)[q] == c);
                    }
                }
            }
            assert(set@ =~= Set::new(
                |c: Seq<char>|
                    exists|j: int|
                        0 <= j < i + 1 && !(#[trigger] entries[j]).1.tombstoned && views(
                            entries[j].1.chunk_ids@,
                        ).contains(c),
            ));
            i = i + 1;
        }
        proof {
            let target = live_chunk_set(self@.files);
            assert forall|c: Seq<char>| #[trigger] set@.contains(c) <==> target.contains(c) by {
                if set@.contains(c) {
                    let j = choose|j: int|
                        0 <= j < n && !(#[trigger] entries[j]).1.tombstoned && views(
                            entries[j].1.chunk_ids@,
                        ).contains(c);
                    lemma_entry_map_at(entries, j);
                    assert(self@.files.contains_key(entries[j].0@));
                }
                if target.contains(c) {
                    let p = choose|p: Seq<char>| #[trigger]
                        self@.files.contains_key(p) && !self@.files[p].tombstoned
                            && self@.files[p].chunk_ids.contains(c);
                    let j = choose|j: int| 0 <= j < entries.len() && entries[j].0@ == p;
                    lemma_entry_map_at(entries, j);
                    assert(!entries[j].1.tombstoned);
                }
            }
            assert(set@ =~= target);
        }
        set.into_items()
    }
}

} // verus!

verus! {


/// A write that passes its checks, carries a new transaction and names the
/// stored version commits; a committed read then returns exactly the
/// written chunks under the next version.
pub proof fn law_committed_write_is_read_back(
    m: MetaView,
    tx: Seq<char>,
    p: Seq<char>,
    expected: u64,
    ids: Seq<Seq<char>>,
    hashes: Seq<Seq<char>>,
)
    requires
        write_commits(m, tx, p, expected, ids, hashes),
        expected < u64::MAX,
    ensures
        write_outcome(m, tx, p, expected, ids, hashes).0 is Ok,
        read_outcome(write_outcome(m, tx, p, expected, ids, hashes).1, p) == Some(
            ((expected + 1) as u64, ids, hashes),
        ),
        write_outcome(m, tx, p, expected, ids, hashes).1.applied.contains(tx),
{
}

/// Replaying a write that succeeded succeeds again and changes nothing.
pub proof fn law_write_replay_is_idempotent(
    m: MetaView,
    tx: Seq<char>,
    p: Seq<char>,
    expected: u64,
    ids: Seq<Seq<char>>,
    hashes: Seq<Seq<char>>,
)
    requires
        write_outcome(m, tx, p, expected, ids, hashes).0 is Ok,
    ensures
        write_outcome(write_outcome(m, tx, p, expected, ids, hashes).1, tx, p, expected, ids, hashes)
            == (Ok::<(), MetadataError>(()), write_outcome(m, tx, p, expected, ids, hashes).1),
{
    let m2 = write_outcome(m, tx, p, expected, ids, hashes).1;
    if !m.applied.contains(tx) {
        let f = files_with_entry(m.files, p)[p];
        if f.last_tx_id == Some(tx) {
            assert(files_with_entry(m2.files, p) == m2.files);
        }
    }
}

/// A fresh transaction that names a version other than the stored one (0
/// for a path without a record) is refused as a conflict and changes nothing.
pub proof fn law_stale_write_conflicts(
    m: MetaView,
    tx: Seq<char>,
    p: Seq<char>,
    expected: u64,
    ids: Seq<Seq<char>>,
    hashes: Seq<Seq<char>>,
)
    requires
        write_precheck(m, p, ids, hashes) is None,
        !m.applied.contains(tx),
        files_with_entry(m.files, p)[p].last_tx_id != Some(tx),
        files_with_entry(m.files, p)[p].version != expected,
    ensures
        write_outcome(m, tx, p, expected, ids, hashes).0 == Err::<(), MetadataError>(
            MetadataError::CasConflict,
        ),
        write_outcome(m, tx, p, expected, ids, hashes).1 == m,
{
}

/// Changes are atomic: a refused write, delete or rename leaves the whole
/// store (records, directories and applied transactions) as it was.
pub proof fn law_refused_change_keeps_store(
    m: MetaView,
    tx: Seq<char>,
    p: Seq<char>,
    q: Seq<char>,
    expected: u64,
    ids: Seq<Seq<char>>,
    hashes: Seq<Seq<char>>,
)
    ensures
        write_outcome(m, tx, p, expected, ids, hashes).0 is Err ==> write_outcome(
            m,
            tx,
            p,
            expected,
            ids,
            hashes,
        ).1 == m,
        delete_outcome(m, tx, p, expected).0 is Err ==> delete_outcome(m, tx, p, expected).1 == m,
        rename_outcome(m, p, q).0 is Err ==> rename_outcome(m, p, q).1 == m,
{
}

/// A committed delete hides the file from committed reads and advances its version.
pub proof fn law_delete_hides_file(m: MetaView, tx: Seq<char>, p: Seq<char>, expected: u64)
    requires
        delete_commits(m, tx, p, expected),
        expected < u64::MAX,
    ensures
        delete_outcome(m, tx, p, expected).0 is Ok,
        read_outcome(delete_outcome(m, tx, p, expected).1, p) is None,
        version_outcome(delete_outcome(m, tx, p, expected).1, p) == expected + 1,
{
}

/// Replaying a delete that succeeded succeeds again and changes nothing.
pub proof fn law_delete_replay_is_idempotent(m: MetaView, tx: Seq<char>, p: Seq<char>, expected: u64)
    requires
        delete_outcome(m, tx, p, expected).0 is Ok,
    ensures
        delete_outcome(delete_outcome(m, tx, p, expected).1, tx, p, expected) == (
            Ok::<(), MetadataError>(()),
            delete_outcome(m, tx, p, expected).1,
        ),
{
}

/// A write or delete of `p` leaves what is read at any other path as it was.
pub proof fn law_commits_touch_only_their_path(
    m: MetaView,
    tx: Seq<char>,
    p: Seq<char>,
    expected: u64,
    ids: Seq<Seq<char>>,
    hashes: Seq<Seq<char>>,
    q: Seq<char>,
)
    requires
        q != p,
    ensures
        read_outcome(write_outcome(m, tx, p, expected, ids, hashes).1, q) == read_outcome(m, q),
        read_outcome(delete_outcome(m, tx, p, expected).1, q) == read_outcome(m, q),
{
}

/// A renamed file is read at its new path with the record it had, and no
/// longer at its old path.
pub proof fn law_file_rename_moves_record(m: MetaView, src: Seq<char>, dst: Seq<char>)
    requires
        rename_outcome(m, src, dst).0 is Ok,
        !m.dirs.contains(src),
    ensures
        read_outcome(rename_outcome(m, src, dst).1, dst) == read_outcome(m, src),
        read_outcome(rename_outcome(m, src, dst).1, src) is None,
{
}

/// A created directory exists afterwards, and no file is read at its path.
pub proof fn law_created_directory_exists(m: MetaView, p: Seq<char>)
    requires
        create_dir_outcome(m, p) is Ok,
    ensures
        create_dir_outcome(m, p)->Ok_0.dirs.contains(p),
        read_outcome(create_dir_outcome(m, p)->Ok_0, p) is None,
{
}

/// A directory with children cannot be removed.
pub proof fn law_nonempty_directory_is_kept(m: MetaView, p: Seq<char>)
    requires
        dir_path_ok(p),
        p != root(),
        m.dirs.contains(p),
        children_of(p, m.dirs, m.files) != Set::<Seq<char>>::empty(),
    ensures
        remove_dir_outcome(m, p) == Err::<MetaView, MetadataError>(MetadataError::DirectoryNotEmpty),
{
}

/// A new store reads no file and lists nothing under the root.
pub proof fn law_initial_store_is_empty(p: Seq<char>)
    ensures
        read_outcome(initial_view(), p) is None,
        list_outcome(initial_view(), root()) == Ok::<Set<Seq<char>>, MetadataError>(
            Set::<Seq<char>>::empty(),
        ),
{
    lemma_root_ok();
    assert(children_of(root(), initial_view().dirs, initial_view().files) =~= Set::<
        Seq<char>,
    >::empty());
}

/// What a committed read hands to callers outside the WAL hooks.
pub struct ReadView {
    pub version: u64,
    pub chunk_ids: Vec<String>,
    pub chunk_hashes: Vec<String>,
}

/// The views of an optional read view.
pub open spec fn read_view_opt(r: Option<ReadView>) -> Option<(u64, Seq<Seq<char>>, Seq<Seq<char>>)> {
    match r {
        Some(v) => Some((v.version, views(v.chunk_ids@), views(v.chunk_hashes@))),
        None => None,
    }
}

/// Reads of committed file state with typed errors: the version, chunk ids
/// and chunk hashes of a live record, `None` for a missing or deleted file.
pub trait MetadataReadHook {
    fn read_committed(&self, file_path: &str) -> Result<
        Option<(u64, Vec<String>, Vec<String>)>,
        MetadataError,
    >;
}

/// Reads of committed file state, for the read path.
pub trait MetadataRead {
    /// The committed record of `p` in this store: version, chunk ids and
    /// chunk hashes of a live file, `None` for a missing or deleted one.
    spec fn committed(&self, p: &str) -> Option<ReadView>;

    /// Answers with the committed record of `file_path`, unless the store
    /// fails.
    fn read_committed(&self, file_path: &str) -> (r: Result<Option<ReadView>, String>)
        ensures
            r matches Ok(v) ==> read_view_opt(v) == read_view_opt(self.committed(file_path)),
    ;
}

/// Directory operations of a metadata store.
pub trait MetadataNamespace {
    fn create_directory(&mut self, path: &str) -> Result<(), String>;

    fn list_children(&self, path: &str) -> Result<Vec<String>, String>;

    fn remove_directory(&mut self, path: &str) -> Result<(), String>;

    fn rename_path(&mut self, src: &str, dst: &str) -> Result<(), String>;
}

/// `m` reads `p`, under any string naming it, as a live file at `version`
/// with chunk ids `ids` and chunk hashes `hashes`.
pub open spec fn reads_back<M: MetadataRead>(
    m: M,
    p: Seq<char>,
    version: int,
    ids: Seq<Seq<char>>,
    hashes: Seq<Seq<char>>,
) -> bool {
    forall|q: &str|
        q@ == p ==> (read_view_opt(#[trigger] m.committed(q)) matches Some((v, i, h)) && v
            == version && i == ids && h == hashes)
}

/// `a` and `b` read every path alike.
pub open spec fn reads_alike<M: MetadataRead>(a: M, b: M) -> bool {
    forall|q: &str| #![trigger a.committed(q)] read_view_opt(a.committed(q)) == read_view_opt(b.committed(q))
}

/// Applies committed WAL writes.
pub trait MetadataCommit: MetadataRead + Sized {
    /// Commits a write that expects the file at `expected_version`. A
    /// success leaves the file readable at the next version with the given
    /// chunks, or (for a transaction already applied) changes no read.
    fn commit_write(
        &mut self,
        tx_id: &str,
        file_path: &str,
        expected_version: u64,
        chunk_ids: &[String],
        chunk_hashes: &[String],
    ) -> (r: Result<(), String>)
        ensures
            r is Ok ==> reads_back(
                *final(self),
                file_path@,
                expected_version + 1,
                views(chunk_ids@),
                views(chunk_hashes@),
            ) || reads_alike(*old(self), *final(self)),
    ;
}

/// Applies committed WAL deletes.
pub trait MetadataDelete {
    fn commit_delete(&mut self, tx_id: &str, file_path: &str, expected_version: u64) -> Result<
        (),
        String,
    >;
}

/// The WAL write hook of a metadata store, with typed errors.
pub trait MetadataWalHook {
    fn commit_from_wal(
        &mut self,
        tx_id: &str,
        file_path: &str,
        expected_version: u64,
        chunk_ids: &[String],
        chunk_hashes: &[String],
    ) -> Result<(), MetadataError>;

    fn current_version(&self, file_path: &str) -> Result<u64, MetadataError>;
}

/// The WAL delete hook of a metadata store, with typed errors.
pub trait MetadataDeleteHook {
    fn tombstone_from_wal(&mut self, tx_id: &str, file_path: &str, expected_version: u64) -> Result<
        (),
        MetadataError,
    >;
}

/// A metadata store held in memory.
pub struct InMemoryMetadataHook {
    state: MetadataState,
}

impl InMemoryMetadataHook {
    #[verifier::type_invariant]
    spec fn inv(self) -> bool {
        self.state.wf()
    }

    /// The store over character sequences.
    pub closed spec fn view(&self) -> MetaView {
        self.state@
    }

    /// The stored record of a live file at `p`, as a read view.
    pub closed spec fn record(&self, p: Seq<char>) -> Option<ReadView> {
        self.state.record_of(p)
    }

    /// The stored record reads as the committed record of the view.
    pub proof fn lemma_record(&self, p: Seq<char>)
        ensures
            read_view_opt(self.record(p)) == read_outcome(self@, p),
    {
        self.state.lemma_record_of(p);
    }

    /// A store holding only the root directory.
    pub fn new() -> (h: Self)
        ensures
            h@ == initial_view(),
    {
        InMemoryMetadataHook { state: MetadataState::new() }
    }

    /// The tables of the store: file records, directories, applied ids.
    pub fn export(&self) -> (r: (Vec<(String, FileMetadataState)>, Vec<String>, Vec<String>))
        ensures
            stored_files(r.0@) == self@.files,
            string_set(r.1@) == self@.dirs,
            string_set(r.2@) == self@.applied,
    {
        proof {
            use_type_invariant(self);
        }
        (self.state.export_files(), self.state.export_directories(), self.state.export_applied())
    }

    /// The store that the given tables describe; a later record of a path
    /// replaces an earlier one.
    pub fn from_parts(
        files: &[(String, FileMetadataState)],
        directories: &[String],
        applied: &[String],
    ) -> (h: Self)
        ensures
            h@ == (MetaView {
                files: stored_files(files@),
                dirs: string_set(directories@),
                applied: string_set(applied@),
            }),
    {
        InMemoryMetadataHook { state: MetadataState::from_parts(files, directories, applied) }
    }

    /// Takes the tables out, leaving a fresh store behind.
    fn take_state(&mut self) -> (st: MetadataState)
        ensures
            st.wf(),
            st@ == old(self)@,
    {
        proof {
            use_type_invariant(&*self);
        }
        let mut st = MetadataState::new();
        std::mem::swap(&mut st, &mut self.state);
        st
    }

    /// The record stored at `file_path`, copied.
    pub fn get(&self, file_path: &str) -> (r: Result<Option<FileMetadataState>, MetadataError>)
        ensures
            match r {
                Ok(Some(f)) => self@.files.contains_key(file_path@) && f@ == self@.files[file_path@],
                Ok(None) => !self@.files.contains_key(file_path@),
                Err(_) => false,
            },
    {
        proof {
            use_type_invariant(self);
        }
        Ok(self.state.get(file_path))
    }

    /// The chunk ids referenced by live files, each once.
    /// The version, chunk ids and chunk hashes of the live record at
    /// `file_path`, `None` for a missing or deleted file.
    pub fn committed_record(&self, file_path: &str) -> (r: Option<(u64, Vec<String>, Vec<String>)>)
        ensures
            read_view_of(r) == read_outcome(self@, file_path@),
    {
        proof {
            use_type_invariant(self);
        }
        self.state.read_committed(file_path)
    }

    pub fn all_live_chunk_ids(&self) -> (r: Result<Vec<String>, MetadataError>)
        ensures
            match r {
                Ok(ids) => crate::keyed::items_unique(ids@) && string_set(ids@) == live_chunk_set(
                    self@.files,
                ),
                Err(_) => false,
            },
    {
        proof {
            use_type_invariant(self);
        }
        Ok(self.state.all_live_chunk_ids())
    }

    /// Creates a directory whose parent exists.
    pub fn create_directory(&mut self, path: &str) -> (r: Result<(), MetadataError>)
        ensures
            match create_dir_outcome(old(self)@, path@) {
                Ok(m) => r is Ok && final(self)@ == m,
                Err(e) => r == Err::<(), MetadataError>(e) && final(self)@ == old(self)@,
            },
    {
        let mut st = self.take_state();
        let r = st.create_directory(path);
        self.state = st;
        r
    }

    /// The sorted names directly below a directory.
    pub fn list_children(&self, path: &str) -> (r: Result<Vec<String>, MetadataError>)
        ensures
            match list_outcome(self@, path@) {
                Ok(names) => r matches Ok(v) && sorted_strict(v@) && string_set(v@) == names,
                Err(e) => r == Err::<Vec<String>, MetadataError>(e),
            },
    {
        proof {
            use_type_invariant(self);
        }
        self.state.list_children(path)
    }

    /// Removes an empty directory other than the root.
    pub fn remove_directory(&mut self, path: &str) -> (r: Result<(), MetadataError>)
        ensures
            match remove_dir_outcome(old(self)@, path@) {
                Ok(m) => r is Ok && final(self)@ == m,
                Err(e) => r == Err::<(), MetadataError>(e) && final(self)@ == old(self)@,
            },
    {
        let mut st = self.take_state();
        let r = st.remove_directory(path);
        self.state = st;
        r
    }

    /// Moves a live file or a directory tree.
    pub fn rename_path(&mut self, src: &str, dst: &str) -> (r: Result<(), MetadataError>)
        ensures
            (r, final(self)@) == rename_outcome(old(self)@, src@, dst@),
    {
        let mut st = self.take_state();
        let r = st.rename_path(src, dst);
        self.state = st;
        r
    }
}

impl MetadataWalHook for InMemoryMetadataHook {
    fn commit_from_wal(
        &mut self,
        tx_id: &str,
        file_path: &str,
        expected_version: u64,
        chunk_ids: &[String],
        chunk_hashes: &[String],
    ) -> (r: Result<(), MetadataError>)
        ensures
            version_spent(old(self)@, file_path@, expected_version) ==> r == Err::<(), MetadataError>(
                MetadataError::CasConflict,
            ) && final(self)@ == old(self)@,
            !version_spent(old(self)@, file_path@, expected_version) ==> (r, final(self)@)
                == write_outcome(
                old(self)@,
                tx_id@,
                file_path@,
                expected_version,
                views(chunk_ids@),
                views(chunk_hashes@),
            ),
    {
        proof {
            use_type_invariant(&*self);
        }
        if expected_version == u64::MAX && self.state.current_version(file_path) == u64::MAX {
            return Err(MetadataError::CasConflict);
        }
        let mut st = self.take_state();
        let r = st.apply_write(tx_id, file_path, expected_version, chunk_ids, chunk_hashes);
        self.state = st;
        r
    }

    fn current_version(&self, file_path: &str) -> (r: Result<u64, MetadataError>)
        ensures
            r == Ok::<u64, MetadataError>(version_outcome(self@, file_path@)),
    {
        proof {
            use_type_invariant(self);
        }
        Ok(self.state.current_version(file_path))
    }
}

impl MetadataDeleteHook for InMemoryMetadataHook {
    fn tombstone_from_wal(&mut self, tx_id: &str, file_path: &str, expected_version: u64) -> (r:
        Result<(), MetadataError>)
        ensures
            version_spent(old(self)@, file_path@, expected_version) ==> r == Err::<(), MetadataError>(
                MetadataError::CasConflict,
            ) && final(self)@ == old(self)@,
            !version_spent(old(self)@, file_path@, expected_version) ==> (r, final(self)@)
                == delete_outcome(old(self)@, tx_id@, file_path@, expected_version),
    {
        proof {
            use_type_invariant(&*self);
        }
        if expected_version == u64::MAX && self.state.current_version(file_path) == u64::MAX {
            return Err(MetadataError::CasConflict);
        }
        let mut st = self.take_state();
        let r = st.apply_delete(tx_id, file_path, expected_version);
        self.state = st;
        r
    }
}

/// Turns a typed result into one carrying the error's text.
fn with_text(r: Result<(), MetadataError>) -> (out: Result<(), String>)
    ensures
        match out {
            Ok(()) => r is Ok,
            Err(m) => r matches Err(e) && m@ == error_text(e),
        },
{
    match r {
        Ok(()) => Ok(()),
        Err(e) => Err(e.message()),
    }
}

impl MetadataCommit for InMemoryMetadataHook {
    fn commit_write(
        &mut self,
        tx_id: &str,
        file_path: &str,
        expected_version: u64,
        chunk_ids: &[String],
        chunk_hashes: &[String],
    ) -> (r: Result<(), String>)
        ensures
            ({
                let (res, m) = if version_spent(old(self)@, file_path@, expected_version) {
                    (Err(MetadataError::CasConflict), old(self)@)
                } else {
                    write_outcome(
                        old(self)@,
                        tx_id@,
                        file_path@,
                        expected_version,
                        views(chunk_ids@),
                        views(chunk_hashes@),
                    )
                };
                &&& final(self)@ == m
                &&& match r {
                    Ok(()) => res is Ok,
                    Err(msg) => res matches Err(e) && msg@ == error_text(e),
                }
            }),
    {
        let r = with_text(
            self.commit_from_wal(tx_id, file_path, expected_version, chunk_ids, chunk_hashes),
        );
        proof {
            assert forall|q: &str| #![trigger self.committed(q)] read_view_opt(self.committed(q))
                == read_outcome(self@, q@) by {
                self.lemma_record(q@);
            }
            assert forall|q: &str| #![trigger old(self).committed(q)] read_view_opt(
                old(self).committed(q),
            ) == read_outcome(old(self)@, q@) by {
                old(self).lemma_record(q@);
            }
        }
        r
    }
}

impl MetadataDelete for InMemoryMetadataHook {
    fn commit_delete(&mut self, tx_id: &str, file_path: &str, expected_version: u64) -> (r: Result<
        (),
        String,
    >)
        ensures
            ({
                let (res, m) = if version_spent(old(self)@, file_path@, expected_version) {
                    (Err(MetadataError::CasConflict), old(self)@)
                } else {
                    delete_outcome(old(self)@, tx_id@, file_path@, expected_version)
                };
                &&& final(self)@ == m
                &&& match r {
                    Ok(()) => res is Ok,
                    Err(msg) => res matches Err(e) && msg@ == error_text(e),
                }
            }),
    {
        with_text(self.tombstone_from_wal(tx_id, file_path, expected_version))
    }
}

impl MetadataRead for InMemoryMetadataHook {
    open spec fn committed(&self, p: &str) -> Option<ReadView> {
        self.record(p@)
    }

    fn read_committed(&self, file_path: &str) -> (r: Result<Option<ReadView>, String>)
        ensures
            r matches Ok(v) && read_view_opt(v) == read_outcome(self@, file_path@),
    {
        proof {
            self.lemma_record(file_path@);
        }
        match self.committed_record(file_path) {
            Some((version, chunk_ids, chunk_hashes)) => Ok(
                Some(ReadView { version, chunk_ids, chunk_hashes }),
            ),
            None => Ok(None),
        }
    }
}

} // verus!
