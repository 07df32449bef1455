//! Staging slots for writes in flight: one slot per transaction, a quota on
//! open slots, a committed mark, and purging of what a crash left behind.

use crate::clock::system_now;
use crate::keyed::{entry_map, key_at, lemma_entry_map_at, lemma_entry_map_len, StrMap};
use crate::namespace::is_first_index_of;
use crate::text::{concat2, owned, starts_with_str, str_equal, substring, trim, trimmed};
use std::time::SystemTime;
use vstd::prelude::*;
use vstd::string::StrSliceExecFns;
use vstd::string::StringExecFns;

verus! {

/// Why a staging operation failed.
#[derive(Debug)]
pub enum StagingError {
    QuotaExceeded,
    SlotNotFound,
    Poisoned,
    InvalidSlotId,
    Io(String),
}

/// The text of each error.
pub open spec fn staging_error_text(e: StagingError) -> Seq<char> {
    match e {
        StagingError::QuotaExceeded => "staging quota exceeded"@,
        StagingError::SlotNotFound => "slot not found"@,
        StagingError::Poisoned => "staging lock poisoned"@,
        StagingError::InvalidSlotId => "invalid slot id"@,
        StagingError::Io(m) => "staging io error: "@ + m@,
    }
}

impl StagingError {
    /// The human-readable text of the error.
    pub fn message(&self) -> (r: String)
        ensures
            r@ == staging_error_text(*self),
    {
        match self {
            StagingError::QuotaExceeded => String::from_str("staging quota exceeded"),
            StagingError::SlotNotFound => String::from_str("slot not found"),
            StagingError::Poisoned => String::from_str("staging lock poisoned"),
            StagingError::InvalidSlotId => String::from_str("invalid slot id"),
            StagingError::Io(m) => String::from_str("staging io error: ").concat(m.as_str()),
        }
    }
}

/// Two dots stand at `i` and `i + 1`.
pub open spec fn dots_at(id: Seq<char>, i: int) -> bool {
    0 <= i < id.len() - 1 && id[i] == '.' && id[i + 1] == '.'
}

/// A slot id names one directory entry: non-empty, and free of `/`, `\`,
/// NUL and `..`.
pub open spec fn slot_id_ok(id: Seq<char>) -> bool {
    &&& id.len() > 0
    &&& !id.contains('/')
    &&& !id.contains('\\')
    &&& !id.contains('\0')
    &&& !(exists|i: int| dots_at(id, i))
}

/// Checks a slot id, as a store on disk does before using it as a name.
pub fn validate_slot_id(tx_id: &str) -> (r: Result<(), StagingError>)
    ensures
        match r {
            Ok(()) => slot_id_ok(tx_id@),
            Err(e) => !slot_id_ok(tx_id@) && e == StagingError::InvalidSlotId,
        },
{
    let n = tx_id.unicode_len();
    if n == 0 || crate::text::contains_char(tx_id, '/') || crate::text::contains_char(tx_id, '\\')
        || crate::text::contains_char(tx_id, '\0') {
        return Err(StagingError::InvalidSlotId);
    }
    let mut i: usize = 0;
    while i + 1 < n
        invariant
            n == tx_id@.len(),
            i < n,
            forall|j: int| 0 <= j < i ==> !#[trigger] dots_at(tx_id@, j),
        decreases n - i,
    {
        if tx_id.get_char(i) == '.' && tx_id.get_char(i + 1) == '.' {
            assert(dots_at(tx_id@, i as int));
            return Err(StagingError::InvalidSlotId);
        }
        i = i + 1;
    }
    Ok(())
}

/// Staging of transactions, by slot id.
pub trait StagingManager {
    fn begin_slot(&mut self, tx_id: &str, path: &str) -> Result<(), StagingError>;

    fn mark_committed(&mut self, tx_id: &str) -> Result<(), StagingError>;

    fn cleanup_slot(&mut self, tx_id: &str) -> Result<(), StagingError>;

    fn purge_stale_uncommitted(&mut self) -> Result<usize, StagingError>;

    /// Removes every slot and counts them. A store that keeps no slots of
    /// its own removes nothing.
    fn purge_all_slots(&mut self) -> (r: Result<usize, StagingError>)
        default_ensures
            r matches Ok(n) && n == 0,
    {
        Ok(0)
    }
}

/// One staging slot.
#[derive(Debug)]
pub struct Slot {
    pub path: String,
    pub created_at: SystemTime,
    pub committed: bool,
}

/// A slot over character sequences.
pub ghost struct SlotView {
    pub path: Seq<char>,
    pub committed: bool,
}

impl View for Slot {
    type V = SlotView;

    open spec fn view(&self) -> SlotView {
        SlotView { path: self.path@, committed: self.committed }
    }
}

impl Slot {
    /// A field-by-field copy.
    pub fn duplicate(&self) -> (r: Self)
        ensures
            r@ == self@,
    {
        Slot { path: self.path.clone(), created_at: self.created_at, committed: self.committed }
    }
}

/// The slots that survive a purge of uncommitted slots.
pub open spec fn committed_only(m: Map<Seq<char>, SlotView>) -> Map<Seq<char>, SlotView> {
    Map::new(|k: Seq<char>| m.contains_key(k) && m[k].committed, |k: Seq<char>| m[k])
}

/// Staging slots held in memory.
pub struct InMemoryStaging {
    quota: usize,
    slots: StrMap<Slot>,
}

impl InMemoryStaging {
    #[verifier::type_invariant]
    spec fn inv(self) -> bool {
        &&& self.slots.wf()
        &&& self.quota >= 1
        &&& self.slots.entries().len() <= self.quota
    }

    /// Open slots by transaction id.
    pub closed spec fn view(&self) -> Map<Seq<char>, SlotView> {
        self.slots@.map_values(|s: Slot| s@)
    }

    proof fn lemma_view_dom(&self)
        ensures
            self@.dom() == self.slots@.dom(),
    {
        assert(self@.dom() =~= self.slots@.dom());
    }

    /// Most slots open at once.
    pub closed spec fn quota(&self) -> usize {
        self.quota
    }

    /// A staging area with no slots, allowing `quota` of them (at least 1).
    pub fn new(quota: usize) -> (s: Self)
        ensures
            s@ == Map::<Seq<char>, SlotView>::empty(),
            s.quota() == (if quota >= 1 { quota } else { 1 }),
    {
        let s = InMemoryStaging { quota: if quota >= 1 { quota } else { 1 }, slots: StrMap::new() };
        assert(s@ =~= Map::<Seq<char>, SlotView>::empty());
        s
    }

    /// The open slots are finite and at most the quota.
    pub fn count(&self) -> (n: usize)
        ensures
            n == self@.len(),
            self@.dom().finite(),
            n <= self.quota(),
    {
        proof {
            use_type_invariant(self);
            lemma_entry_map_len(self.slots.entries());
            self.lemma_view_dom();
        }
        self.slots.len()
    }

    /// Number of open slots.
    pub fn active_slots(&self) -> (r: Result<usize, StagingError>)
        ensures
            r matches Ok(n) && n == self@.len() && n <= self.quota(),
    {
        Ok(self.count())
    }

    /// A copy of the slot of `tx_id`.
    pub fn slot(&self, tx_id: &str) -> (r: Option<Slot>)
        ensures
            match r {
                Some(s) => self@.contains_key(tx_id@) && s@ == self@[tx_id@],
                None => !self@.contains_key(tx_id@),
            },
    {
        proof {
            use_type_invariant(self);
        }
        match self.slots.get(tx_id) {
            Some(s) => Some(s.duplicate()),
            None => None,
        }
    }
}

impl StagingManager for InMemoryStaging {
    fn begin_slot(&mut self, tx_id: &str, path: &str) -> (r: Result<(), StagingError>)
        ensures
            final(self).quota() == old(self).quota(),
            old(self)@.contains_key(tx_id@) ==> r is Ok && final(self)@ == old(self)@,
            !old(self)@.contains_key(tx_id@) && old(self)@.len() >= old(self).quota() ==> r
                == Err::<(), StagingError>(StagingError::QuotaExceeded) && final(self)@ == old(
                self)@,
            !old(self)@.contains_key(tx_id@) && old(self)@.len() < old(self).quota() ==> r is Ok
                && final(self)@ == old(self)@.insert(
                tx_id@,
                SlotView { path: path@, committed: false },
            ),
    {
        proof {
            use_type_invariant(&*self);
            lemma_entry_map_len(self.slots.entries());
            self.lemma_view_dom();
        }
        if self.slots.contains_key(tx_id) {
            return Ok(());
        }
        if self.slots.len() >= self.quota {
            return Err(StagingError::QuotaExceeded);
        }
        let slot = Slot { path: owned(path), created_at: system_now(), committed: false };
        let mut slots = StrMap::new();
        std::mem::swap(&mut slots, &mut self.slots);
        let ghost before = slots@;
        slots.insert(owned(tx_id), slot);
        proof {
            lemma_entry_map_len(slots.entries());
            assert(slots@.dom() =~= before.dom().insert(tx_id@));
            lemma_entry_map_len(old(self).slots.entries());
        }
        self.slots = slots;
        assert(self@ =~= old(self)@.insert(tx_id@, SlotView { path: path@, committed: false }));
        Ok(())
    }

    fn mark_committed(&mut self, tx_id: &str) -> (r: Result<(), StagingError>)
        ensures
            final(self).quota() == old(self).quota(),
            old(self)@.contains_key(tx_id@) ==> r is Ok && final(self)@ == old(self)@.insert(
                tx_id@,
                SlotView { committed: true, ..old(self)@[tx_id@] },
            ),
            !old(self)@.contains_key(tx_id@) ==> r == Err::<(), StagingError>(
                StagingError::SlotNotFound,
            ) && final(self)@ == old(self)@,
    {
        proof {
            use_type_invariant(&*self);
        }
        let updated = match self.slots.get(tx_id) {
            Some(s) => Slot { path: s.path.clone(), created_at: s.created_at, committed: true },
            None => {
                return Err(StagingError::SlotNotFound);
            },
        };
        let mut slots = StrMap::new();
        std::mem::swap(&mut slots, &mut self.slots);
        let ghost before = slots@;
        slots.insert(owned(tx_id), updated);
        proof {
            lemma_entry_map_len(slots.entries());
            assert(slots@.dom() =~= before.dom());
            lemma_entry_map_len(old(self).slots.entries());
        }
        self.slots = slots;
        assert(self@ =~= old(self)@.insert(tx_id@, SlotView { committed: true, ..old(self)@[tx_id@] }));
        Ok(())
    }

    fn cleanup_slot(&mut self, tx_id: &str) -> (r: Result<(), StagingError>)
        ensures
            final(self).quota() == old(self).quota(),
            r is Ok,
            final(self)@ == old(self)@.remove(tx_id@),
    {
        proof {
            use_type_invariant(&*self);
        }
        let mut slots = StrMap::new();
        std::mem::swap(&mut slots, &mut self.slots);
        let ghost before = slots@;
        slots.remove(tx_id);
        proof {
            lemma_entry_map_len(slots.entries());
            lemma_entry_map_len(old(self).slots.entries());
            assert(slots@.dom() =~= before.dom().remove(tx_id@));
            if before.dom().contains(tx_id@) {
                assert(slots@.dom().len() == before.dom().len() - 1);
            } else {
                assert(slots@.dom() =~= before.dom());
            }
        }
        self.slots = slots;
        assert(self@ =~= old(self)@.remove(tx_id@));
        Ok(())
    }

    fn purge_stale_uncommitted(&mut self) -> (r: Result<usize, StagingError>)
        ensures
            final(self).quota() == old(self).quota(),
            final(self)@ == committed_only(old(self)@),
            r matches Ok(n) && n == old(self)@.len() - final(self)@.len(),
    {
        proof {
            use_type_invariant(&*self);
            lemma_entry_map_len(self.slots.entries());
        }
        let ghost e = self.slots.entries();
        let n = self.slots.len();
        let mut kept: StrMap<Slot> = StrMap::new();
        let mut i: usize = 0;
        while i < n
            invariant
                n == e.len(),
                e == self.slots.entries(),
                crate::keyed::keys_unique(e),
                i <= n,
                kept.wf(),
                kept.entries().len() <= i,
                forall|k: Seq<char>| #[trigger]
                    kept@.contains_key(k) <==> (exists|j: int| 0 <= j < i && e[j].0@ == k && e[j].1.committed),
                forall|k: Seq<char>| #[trigger]
                    kept@.contains_key(k) ==> entry_map(e).contains_key(k) && kept@[k]@ == entry_map(e)[k]@,
            decreases n - i,
        {
            if self.slots.value(i).committed {
                proof {
                    lemma_entry_map_at(e, i as int);
                    lemma_entry_map_len(kept.entries());
                    if kept@.contains_key(e[i as int].0@) {
                        let j = choose|j: int| 0 <= j < i && e[j].0@ == e[i as int].0@ && e[j].1.committed;
                        assert(e[j].0@ != e[i as int].0@);
                    }
                }
                let ghost before = kept@;
                let ghost before_len = kept.entries().len();
                kept.insert(self.slots.key(i).clone(), self.slots.value(i).duplicate());
                proof {
                    lemma_entry_map_len(kept.entries());
                    assert(kept@.dom() =~= before.dom().insert(e[i as int].0@));
                }
            }
            i = i + 1;
        }
        proof {
            let want = committed_only(old(self)@);
            let kv = kept@.map_values(|s: Slot| s@);
            assert forall|k: Seq<char>| #[trigger] kv.contains_key(k) <==> want.contains_key(k) by {
                if kv.contains_key(k) {
                    let j = choose|j: int| 0 <= j < n && e[j].0@ == k && e[j].1.committed;
                    lemma_entry_map_at(e, j);
                }
                if want.contains_key(k) {
                    let j = choose|j: int| key_at(e, k, j);
                    lemma_entry_map_at(e, j);
                }
            }
            assert(kv =~= want);
            lemma_entry_map_len(kept.entries());
            assert(kv.dom() =~= kept@.dom());
            self.lemma_view_dom();
        }
        let removed = n - kept.len();
        self.slots = kept;
        proof {
            self.lemma_view_dom();
        }
        Ok(removed)
    }

    fn purge_all_slots(&mut self) -> (r: Result<usize, StagingError>)
        ensures
            final(self).quota() == old(self).quota(),
            final(self)@ == Map::<Seq<char>, SlotView>::empty(),
            r matches Ok(n) && n == old(self)@.len(),
    {
        proof {
            use_type_invariant(&*self);
        }
        let n = self.count();
        self.slots = StrMap::new();
        assert(self@ =~= Map::<Seq<char>, SlotView>::empty());
        Ok(n)
    }
}

/// `line` without one trailing carriage return.
pub open spec fn strip_cr(line: Seq<char>) -> Seq<char> {
    if line.len() > 0 && line.last() == '\r' {
        line.drop_last()
    } else {
        line
    }
}

/// The first line of `s` (without its ending) and what follows its line
/// feed, as `str::lines` splits text; the last line may lack a line feed.
pub open spec fn first_line(s: Seq<char>) -> (Seq<char>, Option<Seq<char>>) {
    if s.contains('\n') {
        let i = choose|i: int| is_first_index_of(s, '\n', i);
        (strip_cr(s.take(i)), Some(s.skip(i + 1)))
    } else {
        (s, None)
    }
}

/// The text after `key` on the first line of `s` that starts with `key`.
pub open spec fn field_value(s: Seq<char>, key: Seq<char>) -> Option<Seq<char>>
    decreases s.len(),
{
    if s.len() == 0 {
        None
    } else {
        let (line, rest) = first_line(s);
        if key.is_prefix_of(line) {
            Some(line.skip(key.len() as int))
        } else {
            match rest {
                Some(r) => if r.len() < s.len() {
                    field_value(r, key)
                } else {
                    None
                },
                None => None,
            }
        }
    }
}

/// The slot metadata file of a slot: its path and committed mark.
pub open spec fn slot_meta(path: Seq<char>, committed: bool) -> Seq<char> {
    "path="@ + path + "\n"@ + "committed="@ + (if committed {
        "1"@
    } else {
        "0"@
    }) + "\n"@
}

/// The metadata text that records a slot.
pub fn slot_meta_text(path: &str, committed: bool) -> (r: String)
    ensures
        r@ == slot_meta(path@, committed),
{
    String::from_str("path=").concat(path).concat("\n").concat("committed=").concat(
        if committed {
            "1"
        } else {
            "0"
        },
    ).concat("\n")
}

/// The position of the first line feed in `s` at or after `from`.
fn next_line_feed(s: &str, from: usize) -> (r: Option<usize>)
    requires
        from <= s@.len(),
    ensures
        match r {
            Some(i) => from <= i < s@.len() && s@[i as int] == '\n' && forall|j: int|
                from <= j < i ==> s@[j] != '\n',
            None => forall|j: int| from <= j < s@.len() ==> s@[j] != '\n',
        },
{
    let n = s.unicode_len();
    let mut i = from;
    while i < n
        invariant
            n == s@.len(),
            from <= i <= n,
            forall|j: int| from <= j < i ==> s@[j] != '\n',
        decreases n - i,
    {
        if s.get_char(i) == '\n' {
            return Some(i);
        }
        i = i + 1;
    }
    None
}

/// The value of the first line of `data` that starts with `key`.
pub fn read_field(data: &str, key: &str) -> (r: Option<String>)
    ensures
        match field_value(data@, key@) {
            Some(v) => r matches Some(x) && x@ == v,
            None => r is None,
        },
{
    let n = data.unicode_len();
    let mut pos: usize = 0;
    assert(data@.skip(0) =~= data@);
    while pos < n
        invariant
            n == data@.len(),
            pos <= n,
            field_value(data@, key@) == field_value(data@.skip(pos as int), key@),
        decreases n - pos,
    {
        let ghost rest = data@.skip(pos as int);
        let (end, next) = match next_line_feed(data, pos) {
            Some(i) => (i, i + 1),
            None => (n, n),
        };
        let mut line = substring(data, pos, end);
        let ln = line.as_str().unicode_len();
        if end < n && ln > 0 && line.as_str().get_char(ln - 1) == '\r' {
            line = substring(line.as_str(), 0, ln - 1);
        }
        proof {
            if end < n {
                let k = (end - pos) as int;
                assert(is_first_index_of(rest, '\n', k));
                assert(rest.contains('\n')) by {
                    assert(rest[k] == '\n');
                }
                let c = choose|i: int| is_first_index_of(rest, '\n', i);
                assert(c == k) by {
                    if c < k {
                        assert(rest[c] == data@[pos + c]);
                    } else if c > k {
                        assert(rest[k] == '\n');
                    }
                }
                assert(rest.take(k) =~= data@.subrange(pos as int, end as int));
                assert(rest.skip(k + 1) =~= data@.skip(end + 1));
            } else {
                assert(!rest.contains('\n')) by {
                    if rest.contains('\n') {
                        let j = choose|j: int| 0 <= j < rest.len() && rest[j] == '\n';
                        assert(data@[pos + j] == '\n');
                    }
                }
                assert(rest =~= data@.subrange(pos as int, n as int));
            }
        }
        if starts_with_str(line.as_str(), key) {
            let kl = key.unicode_len();
            let ll = line.as_str().unicode_len();
            return Some(substring(line.as_str(), kl, ll));
        }
        if end == n {
            return None;
        }
        pos = next;
    }
    None
}

/// Whether slot metadata marks the slot committed: its first
/// `committed=` line holds `1`, surrounding white space aside.
pub fn slot_meta_committed(data: &str) -> (r: bool)
    ensures
        r == (field_value(data@, "committed="@) matches Some(v) && trimmed(v) == "1"@),
{
    match read_field(data, "committed=") {
        Some(v) => {
            let t = trim(v.as_str());
            str_equal(t.as_str(), "1")
        },
        None => false,
    }
}

/// The path that slot metadata records, or the empty string.
pub fn slot_meta_path(data: &str) -> (r: String)
    ensures
        match field_value(data@, "path="@) {
            Some(v) => r@ == v,
            None => r@ == Seq::<char>::empty(),
        },
{
    match read_field(data, "path=") {
        Some(v) => v,
        None => String::new(),
    }
}

/// Slot metadata reads back the path and the committed mark it was
/// written with, for a path without line breaks.
#[verifier::spinoff_prover]
#[verifier::rlimit(40)]
pub proof fn law_slot_meta_round_trip(path: Seq<char>, committed: bool)
    requires
        !path.contains('\n'),
        !path.contains('\r'),
    ensures
        field_value(slot_meta(path, committed), "path="@) == Some(path),
        field_value(slot_meta(path, committed), "committed="@) == Some(
            if committed {
                "1"@
            } else {
                "0"@
            },
        ),
{
    reveal_strlit("path=");
    reveal_strlit("\n");
    reveal_strlit("committed=");
    reveal_strlit("1");
    reveal_strlit("0");
    let flag: Seq<char> = if committed {
        "1"@
    } else {
        "0"@
    };
    let text = slot_meta(path, committed);
    let first = "path="@ + path;
    let second = "committed="@ + flag;
    assert(text =~= first + seq!['\n'] + second + seq!['\n']);
    let k = first.len() as int;
    assert(is_first_index_of(text, '\n', k)) by {
        assert forall|j: int| 0 <= j < k implies text[j] != '\n' by {
            if j >= 5 {
                assert(text[j] == path[j - 5]);
            }
        }
    }
    assert(text.contains('\n')) by {
        assert(text[k] == '\n');
    }
    let c = choose|i: int| is_first_index_of(text, '\n', i);
    assert(c == k);
    assert(text.take(k) =~= first);
    assert(first.len() == 0 || first.last() != '\r') by {
        if path.len() > 0 {
            assert(first.last() == path.last());
            assert(path[path.len() - 1] != '\r');
        }
    }
    assert(strip_cr(first) == first);
    let rest = text.skip(k + 1);
    assert(rest =~= second + seq!['\n']);
    assert("path="@.is_prefix_of(first));
    assert(first.skip(5) =~= path);
    assert(!"committed="@.is_prefix_of(first)) by {
        assert(first[0] == 'p');
    }
    let m = second.len() as int;
    assert(is_first_index_of(rest, '\n', m));
    assert(rest.contains('\n')) by {
        assert(rest[m] == '\n');
    }
    let c2 = choose|i: int| is_first_index_of(rest, '\n', i);
    assert(c2 == m);
    assert(rest.take(m) =~= second);
    assert(strip_cr(second) == second);
    assert("committed="@.is_prefix_of(second));
    assert(second.skip(10) =~= flag);
    assert(field_value(rest, "committed="@) == Some(flag));
}

} // verus!
