//! Finite maps and sets keyed by strings, kept as vectors without repeated
//! keys. Their views are a `Map` and a `Set` over the character sequences
//! of the keys.

use crate::text::{str_equal, string_set};
use vstd::prelude::*;

verus! {

/// No key occurs twice.
pub open spec fn keys_unique<V>(e: Seq<(String, V)>) -> bool {
    forall|i: int, j: int| 0 <= i < j < e.len() ==> #[trigger] e[i].0@ != #[trigger] e[j].0@
}

/// Entry `i` carries key `k`.
pub open spec fn key_at<V>(e: Seq<(String, V)>, k: Seq<char>, i: int) -> bool {
    0 <= i < e.len() && e[i].0@ == k
}

/// The map that an entry list stands for.
pub open spec fn entry_map<V>(e: Seq<(String, V)>) -> Map<Seq<char>, V> {
    Map::new(
        |k: Seq<char>| exists|i: int| key_at(e, k, i),
        |k: Seq<char>| e[choose|i: int| key_at(e, k, i)].1,
    )
}

/// The keys of an entry list, in order.
pub open spec fn entry_keys<V>(e: Seq<(String, V)>) -> Seq<Seq<char>> {
    e.map_values(|p: (String, V)| p.0@)
}

/// Entry `i` of a list without repeated keys is what the map holds for its key.
pub proof fn lemma_entry_map_at<V>(e: Seq<(String, V)>, i: int)
    requires
        keys_unique(e),
        0 <= i < e.len(),
    ensures
        entry_map(e).contains_key(e[i].0@),
        entry_map(e)[e[i].0@] == e[i].1,
{
    assert(key_at(e, e[i].0@, i));
    let j = choose|j: int| key_at(e, e[i].0@, j);
    if j != i {
        if j < i {
            assert(e[j].0@ != e[i].0@);
        } else {
            assert(e[i].0@ != e[j].0@);
        }
    }
}

/// Appending an entry whose key is new adds that key to the map.
pub proof fn lemma_entry_map_push<V>(e: Seq<(String, V)>, x: (String, V))
    requires
        keys_unique(e.push(x)),
    ensures
        entry_map(e.push(x)) == entry_map(e).insert(x.0@, x.1),
{
    let f = e.push(x);
    assert(keys_unique(e)) by {
        assert forall|a: int, b: int| 0 <= a < b < e.len() implies #[trigger] e[a].0@
            != #[trigger] e[b].0@ by {
            assert(f[a] == e[a]);
            assert(f[b] == e[b]);
        }
    }
    assert forall|k: Seq<char>| #[trigger] entry_map(f).contains_key(k) <==> entry_map(e).insert(
        x.0@,
        x.1,
    ).contains_key(k) by {
        if entry_map(f).contains_key(k) {
            let j = choose|j: int| key_at(f, k, j);
            if j < e.len() {
                assert(key_at(e, k, j));
            }
        }
        if k != x.0@ && entry_map(e).contains_key(k) {
            let j = choose|j: int| key_at(e, k, j);
            assert(key_at(f, k, j));
        }
        if k == x.0@ {
            assert(key_at(f, k, e.len() as int));
        }
    }
    assert forall|k: Seq<char>| #[trigger] entry_map(f).contains_key(k) implies entry_map(f)[k]
        == entry_map(e).insert(x.0@, x.1)[k] by {
        let j = choose|j: int| key_at(f, k, j);
        lemma_entry_map_at(f, j);
        if j < e.len() {
            assert(f[j] == e[j]);
            assert(f[j].0@ != f[e.len() as int].0@);
            assert(f[e.len() as int] == x);
            lemma_entry_map_at(e, j);
        } else {
            assert(f[j] == x);
        }
    }
    assert(entry_map(f) =~= entry_map(e).insert(x.0@, x.1));
}

/// The map of a list without repeated keys is finite and has one key per entry.
pub proof fn lemma_entry_map_len<V>(e: Seq<(String, V)>)
    requires
        keys_unique(e),
    ensures
        entry_map(e).dom() =~= entry_keys(e).to_set(),
        entry_map(e).dom().finite(),
        entry_map(e).len() == e.len(),
{
    let ks = entry_keys(e);
    assert forall|k: Seq<char>| entry_map(e).dom().contains(k) <==> ks.to_set().contains(k) by {
        if entry_map(e).dom().contains(k) {
            let i = choose|i: int| key_at(e, k, i);
            assert(ks[i] == k);
        }
        if ks.to_set().contains(k) {
            assert(ks.contains(k));
            let i = choose|i: int| 0 <= i < ks.len() && ks[i] == k;
            assert(key_at(e, k, i));
        }
    }
    assert(ks.no_duplicates()) by {
        assert forall|i: int, j: int| 0 <= i < ks.len() && 0 <= j < ks.len() && i != j implies ks[i]
            != ks[j] by {
            if i < j {
                assert(e[i].0@ != e[j].0@);
            } else {
                assert(e[j].0@ != e[i].0@);
            }
        }
    }
    ks.unique_seq_to_set();
    vstd::seq_lib::seq_to_set_is_finite(ks);
}

/// A map from strings to `V` kept as a vector of entries.
pub struct StrMap<V> {
    entries: Vec<(String, V)>,
}

impl<V> StrMap<V> {
    /// The entries, in storage order.
    pub closed spec fn entries(&self) -> Seq<(String, V)> {
        self.entries@
    }

    /// No key is stored twice.
    pub open spec fn wf(&self) -> bool {
        keys_unique(self.entries())
    }

    /// The map the entries stand for.
    pub open spec fn view(&self) -> Map<Seq<char>, V> {
        entry_map(self.entries())
    }

    /// An empty map.
    pub fn new() -> (m: Self)
        ensures
            m.wf(),
            m.entries() == Seq::<(String, V)>::empty(),
            m@ == Map::<Seq<char>, V>::empty(),
    {
        let m = StrMap { entries: Vec::new() };
        assert(m@ =~= Map::<Seq<char>, V>::empty());
        m
    }

    /// Number of entries.
    pub fn len(&self) -> (n: usize)
        ensures
            n == self.entries().len(),
    {
        self.entries.len()
    }

    /// The entries, in storage order.
    pub fn as_slice(&self) -> (r: &[(String, V)])
        ensures
            r@ == self.entries(),
    {
        self.entries.as_slice()
    }

    /// The key of entry `i`.
    pub fn key(&self, i: usize) -> (k: &String)
        requires
            i < self.entries().len(),
        ensures
            *k == self.entries()[i as int].0,
    {
        &self.entries[i].0
    }

    /// The value of entry `i`.
    pub fn value(&self, i: usize) -> (v: &V)
        requires
            i < self.entries().len(),
        ensures
            *v == self.entries()[i as int].1,
    {
        &self.entries[i].1
    }

    /// Position of the entry with key `k`.
    pub fn find(&self, k: &str) -> (r: Option<usize>)
        requires
            self.wf(),
        ensures
            match r {
                Some(i) => i < self.entries().len() && self.entries()[i as int].0@ == k@
                    && self@.contains_key(k@) && self@[k@] == self.entries()[i as int].1,
                None => !self@.contains_key(k@),
            },
    {
        let mut i: usize = 0;
        while i < self.entries.len()
            invariant
                i <= self.entries@.len(),
                keys_unique(self.entries@),
                forall|j: int| 0 <= j < i ==> self.entries@[j].0@ != k@,
            decreases self.entries@.len() - i,
        {
            if str_equal(self.entries[i].0.as_str(), k) {
                proof {
                    lemma_entry_map_at(self.entries@, i as int);
                }
                return Some(i);
            }
            i = i + 1;
        }
        None
    }

    /// Whether `k` is a key.
    pub fn contains_key(&self, k: &str) -> (r: bool)
        requires
            self.wf(),
        ensures
            r == self@.contains_key(k@),
    {
        self.find(k).is_some()
    }

    /// The value stored under `k`.
    pub fn get(&self, k: &str) -> (r: Option<&V>)
        requires
            self.wf(),
        ensures
            match r {
                Some(v) => self@.contains_key(k@) && *v == self@[k@],
                None => !self@.contains_key(k@),
            },
    {
        match self.find(k) {
            Some(i) => Some(&self.entries[i].1),
            None => None,
        }
    }

    /// Stores `v` under `k`, replacing any earlier value.
    pub fn insert(&mut self, k: String, v: V)
        requires
            old(self).wf(),
        ensures
            final(self).wf(),
            final(self)@ == old(self)@.insert(k@, v),
    {
        let ghost kv = k@;
        match self.find(k.as_str()) {
            Some(i) => {
                let ghost old_e = self.entries@;
                self.entries[i] = (k, v);
                proof {
                    let e = self.entries@;
                    assert(e == old_e.update(i as int, e[i as int]));
                    assert forall|a: int, b: int| 0 <= a < b < e.len() implies #[trigger] e[a].0@
                        != #[trigger] e[b].0@ by {
                        assert(old_e[a].0@ != old_e[b].0@);
                    }
                    assert forall|key: Seq<char>| #[trigger]
                        entry_map(e).contains_key(key) <==> entry_map(old_e).insert(
                            kv,
                            v,
                        ).contains_key(key) by {
                        if entry_map(e).contains_key(key) {
                            let j = choose|j: int| key_at(e, key, j);
                            if j != i {
                                assert(key_at(old_e, key, j));
                            }
                        }
                        if key != kv && entry_map(old_e).contains_key(key) {
                            let j = choose|j: int| key_at(old_e, key, j);
                            assert(key_at(e, key, j));
                        }
                        if key == kv {
                            assert(key_at(e, key, i as int));
                        }
                    }
                    assert forall|key: Seq<char>| #[trigger]
                        entry_map(e).contains_key(key) implies entry_map(e)[key] == entry_map(
                        old_e,
                    ).insert(kv, v)[key] by {
                        let j = choose|j: int| key_at(e, key, j);
                        lemma_entry_map_at(e, j);
                        if j != i {
                            lemma_entry_map_at(old_e, j);
                        }
                    }
                    assert(entry_map(e) =~= entry_map(old_e).insert(kv, v));
                }
            },
            None => {
                let ghost old_e = self.entries@;
                self.entries.push((k, v));
                proof {
                    let e = self.entries@;
                    assert forall|a: int, b: int| 0 <= a < b < e.len() implies #[trigger] e[a].0@
                        != #[trigger] e[b].0@ by {
                        if b < old_e.len() {
                            assert(old_e[a].0@ != old_e[b].0@);
                        } else {
                            assert(key_at(old_e, e[a].0@, a));
                        }
                    }
                    assert forall|key: Seq<char>| #[trigger]
                        entry_map(e).contains_key(key) <==> entry_map(old_e).insert(
                            kv,
                            v,
                        ).contains_key(key) by {
                        if entry_map(e).contains_key(key) {
                            let j = choose|j: int| key_at(e, key, j);
                            if j < old_e.len() {
                                assert(key_at(old_e, key, j));
                            }
                        }
                        if key != kv && entry_map(old_e).contains_key(key) {
                            let j = choose|j: int| key_at(old_e, key, j);
                            assert(key_at(e, key, j));
                        }
                        if key == kv {
                            assert(key_at(e, key, old_e.len() as int));
                        }
                    }
                    assert forall|key: Seq<char>| #[trigger]
                        entry_map(e).contains_key(key) implies entry_map(e)[key] == entry_map(
                        old_e,
                    ).insert(kv, v)[key] by {
                        let j = choose|j: int| key_at(e, key, j);
                        lemma_entry_map_at(e, j);
                        if j < old_e.len() {
                            lemma_entry_map_at(old_e, j);
                        }
                    }
                    assert(entry_map(e) =~= entry_map(old_e).insert(kv, v));
                }
            },
        }
    }

    /// Removes entry `i`; the other entries keep their order.
    pub fn remove_at(&mut self, i: usize) -> (r: (String, V))
        requires
            old(self).wf(),
            i < old(self).entries().len(),
        ensures
            final(self).wf(),
            r == old(self).entries()[i as int],
            final(self).entries() == old(self).entries().remove(i as int),
            final(self)@ == old(self)@.remove(r.0@),
    {
        let ghost old_e = self.entries@;
        let r = self.entries.remove(i);
        proof {
            let e = self.entries@;
            let kv = r.0@;
            assert(e =~= old_e.remove(i as int));
            assert forall|a: int, b: int| 0 <= a < b < e.len() implies #[trigger] e[a].0@
                != #[trigger] e[b].0@ by {
                let oa = if a < i { a } else { a + 1 };
                let ob = if b < i { b } else { b + 1 };
                assert(e[a] == old_e[oa]);
                assert(e[b] == old_e[ob]);
                assert(old_e[oa].0@ != old_e[ob].0@);
            }
            assert forall|key: Seq<char>| #[trigger]
                entry_map(e).contains_key(key) <==> entry_map(old_e).remove(kv).contains_key(
                    key,
                ) by {
                if entry_map(e).contains_key(key) {
                    let j = choose|j: int| key_at(e, key, j);
                    let oj = if j < i { j } else { j + 1 };
                    assert(key_at(old_e, key, oj));
                    if key == kv {
                        if oj < i {
                            assert(old_e[oj].0@ != old_e[i as int].0@);
                        } else {
                            assert(old_e[i as int].0@ != old_e[oj].0@);
                        }
                    }
                }
                if key != kv && entry_map(old_e).contains_key(key) {
                    let j = choose|j: int| key_at(old_e, key, j);
                    assert(j != i);
                    let nj = if j < i { j } else { j - 1 };
                    assert(key_at(e, key, nj));
                }
            }
            assert forall|key: Seq<char>| #[trigger]
                entry_map(e).contains_key(key) implies entry_map(e)[key] == entry_map(
                old_e,
            ).remove(kv)[key] by {
                let j = choose|j: int| key_at(e, key, j);
                lemma_entry_map_at(e, j);
                let oj = if j < i { j } else { j + 1 };
                lemma_entry_map_at(old_e, oj);
            }
            assert(entry_map(e) =~= entry_map(old_e).remove(kv));
        }
        r
    }

    /// Removes the entry with key `k`, handing back its value.
    pub fn remove(&mut self, k: &str) -> (r: Option<V>)
        requires
            old(self).wf(),
        ensures
            final(self).wf(),
            final(self)@ == old(self)@.remove(k@),
            match r {
                Some(v) => old(self)@.contains_key(k@) && v == old(self)@[k@],
                None => !old(self)@.contains_key(k@),
            },
    {
        match self.find(k) {
            Some(i) => {
                let (_, v) = self.remove_at(i);
                Some(v)
            },
            None => {
                assert(self@.remove(k@) =~= self@);
                None
            },
        }
    }
}

/// A finite set of strings kept as a vector without repeats.
pub struct StrSet {
    items: Vec<String>,
}

/// No string occurs twice.
pub open spec fn items_unique(s: Seq<String>) -> bool {
    forall|i: int, j: int| 0 <= i < j < s.len() ==> #[trigger] s[i]@ != #[trigger] s[j]@
}

impl StrSet {
    /// The members, in storage order.
    pub closed spec fn items(&self) -> Seq<String> {
        self.items@
    }

    /// No member is stored twice.
    pub open spec fn wf(&self) -> bool {
        items_unique(self.items())
    }

    /// The set the members stand for.
    pub open spec fn view(&self) -> Set<Seq<char>> {
        string_set(self.items())
    }

    /// The members, in storage order.
    pub fn as_slice(&self) -> (r: &[String])
        ensures
            r@ == self.items(),
    {
        self.items.as_slice()
    }

    /// An empty set.
    pub fn new() -> (s: Self)
        ensures
            s.wf(),
            s.items() == Seq::<String>::empty(),
            s@ == Set::<Seq<char>>::empty(),
    {
        let s = StrSet { items: Vec::new() };
        assert(s@ =~= Set::<Seq<char>>::empty());
        s
    }

    /// Number of members.
    pub fn len(&self) -> (n: usize)
        ensures
            n == self.items().len(),
    {
        self.items.len()
    }

    /// Member `i`.
    pub fn item(&self, i: usize) -> (s: &String)
        requires
            i < self.items().len(),
        ensures
            *s == self.items()[i as int],
    {
        &self.items[i]
    }

    /// Gives up the members as a vector.
    pub fn into_items(self) -> (r: Vec<String>)
        ensures
            r@ == self.items(),
    {
        self.items
    }

    /// Position of `k`.
    pub fn find(&self, k: &str) -> (r: Option<usize>)
        ensures
            match r {
                Some(i) => i < self.items().len() && self.items()[i as int]@ == k@ && self@.contains(
                    k@,
                ),
                None => !self@.contains(k@),
            },
    {
        let mut i: usize = 0;
        while i < self.items.len()
            invariant
                i <= self.items@.len(),
                forall|j: int| 0 <= j < i ==> self.items@[j]@ != k@,
            decreases self.items@.len() - i,
        {
            if str_equal(self.items[i].as_str(), k) {
                return Some(i);
            }
            i = i + 1;
        }
        None
    }

    /// Whether `k` is a member.
    pub fn contains(&self, k: &str) -> (r: bool)
        ensures
            r == self@.contains(k@),
    {
        self.find(k).is_some()
    }

    /// Adds `k`.
    pub fn insert(&mut self, k: String)
        requires
            old(self).wf(),
        ensures
            final(self).wf(),
            final(self)@ == old(self)@.insert(k@),
    {
        if self.find(k.as_str()).is_none() {
            let ghost old_s = self.items@;
            self.items.push(k);
            proof {
                let s = self.items@;
                assert forall|a: int, b: int| 0 <= a < b < s.len() implies #[trigger] s[a]@
                    != #[trigger] s[b]@ by {
                    if b < old_s.len() {
                        assert(old_s[a]@ != old_s[b]@);
                    } else {
                        assert(string_set(old_s).contains(s[a]@));
                    }
                }
                assert forall|key: Seq<char>| #[trigger]
                    string_set(s).contains(key) <==> string_set(old_s).insert(s.last()@).contains(
                        key,
                    ) by {
                    if string_set(s).contains(key) {
                        let j = choose|j: int| 0 <= j < s.len() && s[j]@ == key;
                        if j < old_s.len() {
                            assert(old_s[j]@ == key);
                        }
                    }
                    if string_set(old_s).contains(key) {
                        let j = choose|j: int| 0 <= j < old_s.len() && old_s[j]@ == key;
                        assert(s[j]@ == key);
                    }
                    if key == s.last()@ {
                        assert(s[old_s.len() as int]@ == key);
                    }
                }
                assert(string_set(s) =~= string_set(old_s).insert(s.last()@));
            }
        } else {
            assert(self@.insert(k@) =~= self@);
        }
    }

    /// Removes `k`.
    pub fn remove(&mut self, k: &str)
        requires
            old(self).wf(),
        ensures
            final(self).wf(),
            final(self)@ == old(self)@.remove(k@),
    {
        match self.find(k) {
            Some(i) => {
                let ghost old_s = self.items@;
                self.items.remove(i);
                proof {
                    let s = self.items@;
                    assert(s =~= old_s.remove(i as int));
                    assert forall|a: int, b: int| 0 <= a < b < s.len() implies #[trigger] s[a]@
                        != #[trigger] s[b]@ by {
                        let oa = if a < i { a } else { a + 1 };
                        let ob = if b < i { b } else { b + 1 };
                        assert(old_s[oa]@ != old_s[ob]@);
                    }
                    assert forall|key: Seq<char>| #[trigger]
                        string_set(s).contains(key) <==> string_set(old_s).remove(k@).contains(key) by {
                        if string_set(s).contains(key) {
                            let j = choose|j: int| 0 <= j < s.len() && s[j]@ == key;
                            let oj = if j < i { j } else { j + 1 };
                            assert(old_s[oj]@ == key);
                            if key == k@ {
                                if oj < i {
                                    assert(old_s[oj]@ != old_s[i as int]@);
                                } else {
                                    assert(old_s[i as int]@ != old_s[oj]@);
                                }
                            }
                        }
                        if key != k@ && string_set(old_s).contains(key) {
                            let j = choose|j: int| 0 <= j < old_s.len() && old_s[j]@ == key;
                            let nj = if j < i { j } else { j - 1 };
                            assert(s[nj]@ == key);
                        }
                    }
                    assert(string_set(s) =~= string_set(old_s).remove(k@));
                }
            },
            None => {
                assert(self@.remove(k@) =~= self@);
            },
        }
    }
}

} // verus!
