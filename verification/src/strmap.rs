//! A map keyed by strings that keeps its entries in order.
//!
//! It serves as the map and the set of names throughout the library: a
//! lookup finds the entry of a key, an insert of an existing key replaces its
//! value in place, iteration goes by position, and an ordered insert keeps
//! the keys ascending where they were.

use vstd::prelude::*;
use crate::text::{seq_lt, chars_of, chars_lt, lemma_seq_lt_total, lemma_seq_lt_transitive};

verus! {

/// The first position of key `k` among `s`, if any.
#[verifier::opaque]
pub open spec fn index_of_key<V>(s: Seq<(Seq<char>, V)>, k: Seq<char>) -> Option<int> {
    if exists|i: int| 0 <= i < s.len() && s[i].0 == k {
        Some(choose|i: int| 0 <= i < s.len() && s[i].0 == k && forall|j: int| 0 <= j < i ==> s[j].0 != k)
    } else {
        None
    }
}

/// Whether key `k` occurs among `s`.
pub open spec fn has_key<V>(s: Seq<(Seq<char>, V)>, k: Seq<char>) -> bool {
    exists|i: int| 0 <= i < s.len() && s[i].0 == k
}

/// The value of the entry of key `k` among `s`, if any.
pub open spec fn lookup<V>(s: Seq<(Seq<char>, V)>, k: Seq<char>) -> Option<V> {
    match index_of_key(s, k) {
        Some(i) => Some(s[i].1),
        None => None,
    }
}

/// No key occurs twice among `s`.
pub open spec fn distinct_keys<V>(s: Seq<(Seq<char>, V)>) -> bool {
    forall|i: int, j: int| 0 <= i < s.len() && 0 <= j < s.len() && i != j ==> s[i].0 != s[j].0
}

/// The entries `s` after `insert(k, v)`: the value of an existing key is
/// replaced in place, a new key is appended.
pub open spec fn inserted<V>(s: Seq<(Seq<char>, V)>, k: Seq<char>, v: V) -> Seq<(Seq<char>, V)> {
    match index_of_key(s, k) {
        Some(i) => s.update(i, (k, v)),
        None => s.push((k, v)),
    }
}

/// The entries `s` after `remove(k)`.
pub open spec fn removed<V>(s: Seq<(Seq<char>, V)>, k: Seq<char>) -> Seq<(Seq<char>, V)> {
    match index_of_key(s, k) {
        Some(i) => s.remove(i),
        None => s,
    }
}

/// The keys of `s`, in order.
pub open spec fn keys_of<V>(s: Seq<(Seq<char>, V)>) -> Seq<Seq<char>> {
    s.map_values(|e: (Seq<char>, V)| e.0)
}

/// In a sequence without repeated keys, the position of an entry is the
/// position of its key.
pub proof fn lemma_index_of_distinct<V>(s: Seq<(Seq<char>, V)>, i: int)
    requires
        distinct_keys(s),
        0 <= i < s.len(),
    ensures
        index_of_key(s, s[i].0) == Some(i),
        lookup(s, s[i].0) == Some(s[i].1),
{
    reveal(index_of_key);
    let k = s[i].0;
    assert(0 <= i < s.len() && s[i].0 == k && forall|j: int| 0 <= j < i ==> s[j].0 != k);
}

/// Map from strings to `V`, in insertion order, with each key at most once.
pub struct StrMap<V> {
    entries: Vec<(String, V)>,
}

impl<V> View for StrMap<V> {
    type V = Seq<(Seq<char>, V)>;

    closed spec fn view(&self) -> Seq<(Seq<char>, V)> {
        self.entries@.map_values(|e: (String, V)| (e.0@, e.1))
    }
}

impl<V> StrMap<V> {
    #[verifier::type_invariant]
    spec fn keys_unique(self) -> bool {
        distinct_keys(self@)
    }

    /// The empty map.
    pub fn new() -> (r: Self)
        ensures
            r@ == Seq::<(Seq<char>, V)>::empty(),
    {
        let r = StrMap { entries: Vec::new() };
        assert(r@ =~= Seq::<(Seq<char>, V)>::empty());
        r
    }

    /// No key of the map occurs twice.
    pub fn unique(&self) -> (r: bool)
        ensures
            r,
            distinct_keys(self@),
    {
        proof {
            use_type_invariant(self);
        }
        true
    }

    /// Number of entries.
    pub fn len(&self) -> (r: usize)
        ensures
            r == self@.len(),
    {
        self.entries.len()
    }

    /// Whether the map has no entry.
    pub fn is_empty(&self) -> (r: bool)
        ensures
            r == (self@.len() == 0),
    {
        self.entries.len() == 0
    }

    /// The key of the entry at position `i`.
    pub fn key_at(&self, i: usize) -> (r: &String)
        requires
            i < self@.len(),
        ensures
            r@ == self@[i as int].0,
    {
        &self.entries[i].0
    }

    /// The value of the entry at position `i`.
    pub fn value_at(&self, i: usize) -> (r: &V)
        requires
            i < self@.len(),
        ensures
            *r == self@[i as int].1,
    {
        &self.entries[i].1
    }

    /// The position of key `k`, if the map has it.
    pub fn position(&self, k: &str) -> (r: Option<usize>)
        ensures
            match r {
                Some(i) => index_of_key(self@, k@) == Some(i as int) && i < self@.len()
                    && self@[i as int].0 == k@,
                None => index_of_key(self@, k@) is None && !has_key(self@, k@),
            },
    {
        reveal(index_of_key);
        let key = k.to_owned();
        let mut i: usize = 0;
        while i < self.entries.len()
            invariant
                key@ == k@,
                i <= self@.len(),
                self@.len() == self.entries@.len(),
                forall|j: int| 0 <= j < i ==> self@[j].0 != k@,
            decreases self@.len() - i,
        {
            if self.entries[i].0 == key {
                reveal(index_of_key);
                assert(self@[i as int].0 == k@);
                let ghost c = choose|c: int|
                    0 <= c < self@.len() && self@[c].0 == k@ && forall|j: int|
                        0 <= j < c ==> self@[j].0 != k@;
                assert(0 <= i < self@.len() && self@[i as int].0 == k@ && forall|j: int|
                    0 <= j < i ==> self@[j].0 != k@);
                assert(c == i);
                return Some(i);
            }
            i = i + 1;
        }
        None
    }

    /// Whether the map has key `k`.
    pub fn contains_key(&self, k: &str) -> (r: bool)
        ensures
            r == has_key(self@, k@),
    {
        self.position(k).is_some()
    }

    /// The value of key `k`, if the map has it.
    pub fn get(&self, k: &str) -> (r: Option<&V>)
        ensures
            match r {
                Some(v) => lookup(self@, k@) == Some(*v),
                None => lookup(self@, k@) is None && !has_key(self@, k@),
            },
    {
        match self.position(k) {
            Some(i) => Some(&self.entries[i].1),
            None => None,
        }
    }

    /// Gives key `k` the value `v`: the value of an existing key is replaced
    /// in place, a new key is appended.
    pub fn insert(&mut self, k: String, v: V)
        ensures
            final(self)@ == inserted(old(self)@, k@, v),
    {
        proof {
            use_type_invariant(&*self);
        }
        let ghost old_view = self@;
        match self.position(k.as_str()) {
            Some(i) => {
                let mut entries = Vec::new();
                std::mem::swap(&mut entries, &mut self.entries);
                let _ = entries.remove(i);
                entries.insert(i, (k, v));
                assert(entries@.map_values(|e: (String, V)| (e.0@, e.1)) =~= old_view.update(
                    i as int,
                    (k@, v),
                ));
                self.entries = entries;
            },
            None => {
                let mut entries = Vec::new();
                std::mem::swap(&mut entries, &mut self.entries);
                entries.push((k, v));
                assert(entries@.map_values(|e: (String, V)| (e.0@, e.1)) =~= old_view.push(
                    (k@, v),
                ));
                self.entries = entries;
            },
        }
    }

    /// Removes the entry of key `k` and gives back its value.
    pub fn remove(&mut self, k: &str) -> (r: Option<V>)
        ensures
            final(self)@ == removed(old(self)@, k@),
            r == lookup(old(self)@, k@),
            !has_key(final(self)@, k@),
    {
        proof {
            use_type_invariant(&*self);
        }
        let ghost old_view = self@;
        match self.position(k) {
            Some(i) => {
                let mut entries = Vec::new();
                std::mem::swap(&mut entries, &mut self.entries);
                let (_, v) = entries.remove(i);
                assert(entries@.map_values(|e: (String, V)| (e.0@, e.1)) =~= old_view.remove(
                    i as int,
                ));
                self.entries = entries;
                assert forall|j: int| 0 <= j < self@.len() implies self@[j].0 != k@ by {
                    if j < i {
                        assert(self@[j] == old_view[j]);
                    } else {
                        assert(self@[j] == old_view[j + 1]);
                    }
                }
                Some(v)
            },
            None => None,
        }
    }

    /// Takes the entry at position `i` out of the map.
    pub fn take_at(&mut self, i: usize) -> (r: (String, V))
        requires
            i < old(self)@.len(),
        ensures
            final(self)@ == old(self)@.remove(i as int),
            r.0@ == old(self)@[i as int].0,
            r.1 == old(self)@[i as int].1,
    {
        proof {
            use_type_invariant(&*self);
        }
        let ghost old_view = self@;
        let mut entries = Vec::new();
        std::mem::swap(&mut entries, &mut self.entries);
        let r = entries.remove(i);
        assert(entries@.map_values(|e: (String, V)| (e.0@, e.1)) =~= old_view.remove(i as int));
        self.entries = entries;
        r
    }

    /// Puts an entry whose key the map does not have at position `i`.
    pub fn put_at(&mut self, i: usize, k: String, v: V)
        requires
            i <= old(self)@.len(),
            !has_key(old(self)@, k@),
        ensures
            final(self)@ == old(self)@.insert(i as int, (k@, v)),
    {
        proof {
            use_type_invariant(&*self);
        }
        let ghost old_view = self@;
        let mut entries = Vec::new();
        std::mem::swap(&mut entries, &mut self.entries);
        entries.insert(i, (k, v));
        assert(entries@.map_values(|e: (String, V)| (e.0@, e.1)) =~= old_view.insert(
            i as int,
            (k@, v),
        ));
        self.entries = entries;
    }

    /// The entries of the map, in order, as pairs.
    pub fn into_entries(self) -> (r: Vec<(String, V)>)
        ensures
            r@.len() == self@.len(),
            forall|i: int| 0 <= i < r@.len() ==> (#[trigger] r@[i]).0@ == self@[i].0 && r@[i].1
                == self@[i].1,
    {
        self.entries
    }
}

impl StrMap<String> {
    /// A copy of the map.
    pub fn duplicate(&self) -> (r: StrMap<String>)
        ensures
            r@ == self@,
    {
        proof {
            use_type_invariant(self);
        }
        let mut entries: Vec<(String, String)> = Vec::new();
        let mut i: usize = 0;
        while i < self.entries.len()
            invariant
                i <= self.entries@.len(),
                distinct_keys(self@),
                entries@.map_values(|e: (String, String)| (e.0@, e.1)) =~= self@.take(i as int),
            decreases self.entries@.len() - i,
        {
            let k = self.entries[i].0.clone();
            let v = self.entries[i].1.clone();
            let ghost before = entries@.map_values(|e: (String, String)| (e.0@, e.1));
            entries.push((k, v));
            assert(entries@.map_values(|e: (String, String)| (e.0@, e.1)) =~= before.push(
                self@[i as int],
            ));
            assert(self@.take(i + 1) =~= self@.take(i as int).push(self@[i as int]));
            i = i + 1;
        }
        assert(self@.take(self@.len() as int) =~= self@);
        StrMap { entries }
    }
}

/// A copy of a list of strings.
pub fn copy_strings(v: &Vec<String>) -> (r: Vec<String>)
    ensures
        r@ == v@,
{
    let mut r: Vec<String> = Vec::new();
    let mut i: usize = 0;
    while i < v.len()
        invariant
            i <= v@.len(),
            r@ == v@.take(i as int),
        decreases v@.len() - i,
    {
        r.push(v[i].clone());
        assert(v@.take(i + 1) =~= v@.take(i as int).push(v@[i as int]));
        i = i + 1;
    }
    assert(v@.take(v@.len() as int) =~= v@);
    r
}

/// The contents of an optional list.
pub open spec fn opt_seq<T>(o: Option<Vec<T>>) -> Option<Seq<T>> {
    match o {
        Some(v) => Some(v@),
        None => None,
    }
}

/// A copy of an optional list of strings.
pub fn copy_opt_strings(v: &Option<Vec<String>>) -> (r: Option<Vec<String>>)
    ensures
        opt_seq(r) == opt_seq(*v),
{
    match v {
        Some(list) => Some(copy_strings(list)),
        None => None,
    }
}

proof fn lemma_first_witness<V>(s: Seq<(Seq<char>, V)>, k: Seq<char>, w: int)
    requires
        0 <= w < s.len(),
        s[w].0 == k,
    ensures
        exists|i: int| 0 <= i < s.len() && s[i].0 == k && forall|j: int| 0 <= j < i ==> s[j].0 != k,
    decreases w,
{
    if exists|j: int| 0 <= j < w && s[j].0 == k {
        let j = choose|j: int| 0 <= j < w && s[j].0 == k;
        lemma_first_witness(s, k, j);
    } else {
        assert(0 <= w < s.len() && s[w].0 == k && forall|j: int| 0 <= j < w ==> s[j].0 != k);
    }
}

/// [`index_of_key`] is the first position of the key, and there is one
/// exactly when the key occurs.
pub proof fn lemma_index_of_key<V>(s: Seq<(Seq<char>, V)>, k: Seq<char>)
    ensures
        has_key(s, k) ==> (index_of_key(s, k) matches Some(i) && 0 <= i < s.len() && s[i].0 == k
            && forall|j: int| 0 <= j < i ==> s[j].0 != k),
        !has_key(s, k) ==> index_of_key(s, k) is None,
        lookup(s, k) is Some <==> has_key(s, k),
{
    reveal(index_of_key);
    if has_key(s, k) {
        let w = choose|w: int| 0 <= w < s.len() && s[w].0 == k;
        lemma_first_witness(s, k, w);
    }
}

/// The keys after an insert are the keys before and the inserted one.
pub proof fn lemma_inserted_keys<V>(s: Seq<(Seq<char>, V)>, k: Seq<char>, v: V, x: Seq<char>)
    ensures
        has_key(inserted(s, k, v), x) <==> (has_key(s, x) || x == k),
{
    lemma_index_of_key(s, k);
    let t = inserted(s, k, v);
    match index_of_key(s, k) {
        Some(i) => {
            if has_key(s, x) {
                let w = choose|w: int| 0 <= w < s.len() && s[w].0 == x;
                assert(t[w].0 == x);
            }
            if x == k {
                assert(t[i].0 == x);
            }
            if has_key(t, x) {
                let w = choose|w: int| 0 <= w < t.len() && t[w].0 == x;
                if w != i {
                    assert(s[w].0 == x);
                }
            }
        },
        None => {
            if has_key(s, x) {
                let w = choose|w: int| 0 <= w < s.len() && s[w].0 == x;
                assert(t[w].0 == x);
            }
            if x == k {
                assert(t[s.len() as int].0 == x);
            }
            if has_key(t, x) {
                let w = choose|w: int| 0 <= w < t.len() && t[w].0 == x;
                if w < s.len() {
                    assert(s[w].0 == x);
                }
            }
        },
    }
}

/// After an insert, the inserted key has the inserted value and every other
/// key keeps its value.
pub proof fn lemma_inserted_lookup<V>(s: Seq<(Seq<char>, V)>, k: Seq<char>, v: V, x: Seq<char>)
    ensures
        lookup(inserted(s, k, v), x) == if x == k {
            Some(v)
        } else {
            lookup(s, x)
        },
{
    let t = inserted(s, k, v);
    lemma_index_of_key(s, k);
    lemma_index_of_key(s, x);
    lemma_inserted_keys(s, k, v, x);
    lemma_index_of_key(t, x);
    if has_key(t, x) {
        let c = index_of_key(t, x)->0;
        if x == k {
            match index_of_key(s, k) {
                Some(i) => {
                    assert(t[i].0 == x);
                    assert(!(c < i));
                    assert(!(i < c));
                },
                None => {
                    assert(!(c < s.len()));
                },
            }
        } else if has_key(s, x) {
            let a = index_of_key(s, x)->0;
            match index_of_key(s, k) {
                Some(i) => {
                    assert(t[a].0 == x);
                    assert(!(c < a));
                    assert(!(a < c));
                },
                None => {
                    assert(t[a].0 == x);
                    assert(!(c < a));
                    assert(!(a < c));
                },
            }
        }
    }
}

/// The entries of a map of strings with the values by their view.
pub open spec fn str_entries(s: Seq<(Seq<char>, String)>) -> Seq<(Seq<char>, Seq<char>)> {
    s.map_values(|e: (Seq<char>, String)| (e.0, e.1@))
}

/// Positions of keys do not depend on the values.
pub proof fn lemma_str_entries_index(s: Seq<(Seq<char>, String)>, k: Seq<char>)
    ensures
        index_of_key(str_entries(s), k) == index_of_key(s, k),
        has_key(str_entries(s), k) == has_key(s, k),
{
    let t = str_entries(s);
    lemma_index_of_key(s, k);
    lemma_index_of_key(t, k);
    if has_key(s, k) {
        let w = choose|w: int| 0 <= w < s.len() && s[w].0 == k;
        assert(t[w].0 == k);
        let a = index_of_key(s, k)->0;
        let b = index_of_key(t, k)->0;
        assert(t[a].0 == k);
        assert(s[b].0 == k);
    }
    if has_key(t, k) {
        let w = choose|w: int| 0 <= w < t.len() && t[w].0 == k;
        assert(s[w].0 == k);
    }
}

/// Inserting into a map of strings, seen through the values' views.
pub proof fn lemma_str_entries_inserted(s: Seq<(Seq<char>, String)>, k: Seq<char>, v: String)
    ensures
        str_entries(inserted(s, k, v)) == inserted(str_entries(s), k, v@),
{
    lemma_str_entries_index(s, k);
    lemma_index_of_key(s, k);
    match index_of_key(s, k) {
        Some(i) => {
            assert(str_entries(s.update(i, (k, v))) =~= str_entries(s).update(i, (k, v@)));
        },
        None => {
            assert(str_entries(s.push((k, v))) =~= str_entries(s).push((k, v@)));
        },
    }
}

impl StrMap<()> {
    /// A copy of the set.
    pub fn duplicate_set(&self) -> (r: StrMap<()>)
        ensures
            r@ == self@,
    {
        proof {
            use_type_invariant(self);
        }
        let mut entries: Vec<(String, ())> = Vec::new();
        let mut i: usize = 0;
        while i < self.entries.len()
            invariant
                i <= self.entries@.len(),
                distinct_keys(self@),
                entries@.map_values(|e: (String, ())| (e.0@, e.1)) =~= self@.take(i as int),
            decreases self.entries@.len() - i,
        {
            let k = self.entries[i].0.clone();
            let ghost before = entries@.map_values(|e: (String, ())| (e.0@, e.1));
            entries.push((k, ()));
            assert(entries@.map_values(|e: (String, ())| (e.0@, e.1)) =~= before.push(
                self@[i as int],
            ));
            assert(self@.take(i + 1) =~= self@.take(i as int).push(self@[i as int]));
            i = i + 1;
        }
        assert(self@.take(self@.len() as int) =~= self@);
        StrMap { entries }
    }
}

/// Every value after an insert is the inserted one or a value from before.
pub proof fn lemma_inserted_values<V>(s: Seq<(Seq<char>, V)>, k: Seq<char>, v: V, j: int)
    requires
        0 <= j < inserted(s, k, v).len(),
    ensures
        inserted(s, k, v)[j].1 == v || exists|i: int| 0 <= i < s.len() && s[i].1 == inserted(s, k, v)[j].1,
{
    lemma_index_of_key(s, k);
    let t = inserted(s, k, v);
    match index_of_key(s, k) {
        Some(i) => {
            if j != i {
                assert(s[j].1 == t[j].1);
            }
        },
        None => {
            if j < s.len() {
                assert(s[j].1 == t[j].1);
            }
        },
    }
}

/// Each entry after an insertion is the new one or an entry from before.
pub proof fn lemma_inserted_index<V>(s: Seq<(Seq<char>, V)>, k: Seq<char>, v: V, j: int)
    requires
        0 <= j < inserted(s, k, v).len(),
    ensures
        inserted(s, k, v)[j] == (k, v) || exists|i: int| 0 <= i < s.len() && s[i] == inserted(s, k, v)[j],
{
    lemma_index_of_key(s, k);
    let t = inserted(s, k, v);
    match index_of_key(s, k) {
        Some(i) => {
            if j != i {
                assert(s[j] == t[j]);
            }
        },
        None => {
            if j < s.len() {
                assert(s[j] == t[j]);
            }
        },
    }
}

/// Lookups after a removal, in a sequence without repeated keys.
pub proof fn lemma_removed_lookup<V>(s: Seq<(Seq<char>, V)>, k: Seq<char>, x: Seq<char>)
    requires
        distinct_keys(s),
    ensures
        lookup(removed(s, k), x) == if x == k {
            None
        } else {
            lookup(s, x)
        },
{
    lemma_index_of_key(s, k);
    lemma_index_of_key(s, x);
    let t = removed(s, k);
    lemma_index_of_key(t, x);
    match index_of_key(s, k) {
        Some(i) => {
            assert(t == s.remove(i));
            if x == k {
                if has_key(t, x) {
                    let w = choose|w: int| 0 <= w < t.len() && t[w].0 == x;
                    if w < i {
                        assert(t[w] == s[w]);
                    } else {
                        assert(t[w] == s[w + 1]);
                    }
                }
            } else {
                if has_key(s, x) {
                    let c = index_of_key(s, x)->0;
                    let c2 = if c < i { c } else { c - 1 };
                    assert(t[c2] == s[c]);
                    let d = index_of_key(t, x)->0;
                    let d2 = if d < i { d } else { d + 1 };
                    assert(s[d2] == t[d]);
                    assert(c == d2);
                }
                if has_key(t, x) {
                    let w = choose|w: int| 0 <= w < t.len() && t[w].0 == x;
                    if w < i {
                        assert(t[w] == s[w]);
                    } else {
                        assert(t[w] == s[w + 1]);
                    }
                }
            }
        },
        None => {},
    }
}

/// The first key of a non-empty sequence is at position 0.
pub proof fn lemma_index_of_distinct_first<V>(s: Seq<(Seq<char>, V)>)
    requires
        s.len() > 0,
    ensures
        index_of_key(s, s[0].0) == Some(0int),
{
    reveal(index_of_key);
    assert(0 <= 0 < s.len() && s[0].0 == s[0].0 && forall|j: int| 0 <= j < 0 ==> (#[trigger] s[j]).0 != s[0].0);
}

/// The keys of `s` come in ascending order.
pub open spec fn sorted_keys<V>(s: Seq<(Seq<char>, V)>) -> bool {
    forall|i: int, j: int| 0 <= i < j < s.len() ==> seq_lt(#[trigger] s[i].0, #[trigger] s[j].0)
}

/// The first position from `i` on whose key comes after `k`, or the length.
pub open spec fn first_after<V>(s: Seq<(Seq<char>, V)>, k: Seq<char>, i: int) -> int
    decreases s.len() - i,
{
    if i >= s.len() {
        s.len() as int
    } else if seq_lt(k, s[i].0) {
        i
    } else {
        first_after(s, k, i + 1)
    }
}

/// The entries `s` after `insert_ordered(k, v)`: the value of an existing key
/// is replaced in place, a new key goes before the first key that comes
/// after it.
pub open spec fn ordered_inserted<V>(s: Seq<(Seq<char>, V)>, k: Seq<char>, v: V) -> Seq<(Seq<char>, V)> {
    match index_of_key(s, k) {
        Some(i) => s.update(i, (k, v)),
        None => s.insert(first_after(s, k, 0), (k, v)),
    }
}

/// Where [`first_after`] stops: no key before it comes after `k`.
proof fn lemma_first_after<V>(s: Seq<(Seq<char>, V)>, k: Seq<char>, i: int)
    requires
        0 <= i <= s.len(),
    ensures
        i <= first_after(s, k, i) <= s.len(),
        forall|j: int| i <= j < first_after(s, k, i) ==> !seq_lt(k, #[trigger] s[j].0),
        first_after(s, k, i) < s.len() ==> seq_lt(k, s[first_after(s, k, i)].0),
    decreases s.len() - i,
{
    if i < s.len() && !seq_lt(k, s[i].0) {
        lemma_first_after(s, k, i + 1);
    }
}

impl<V> StrMap<V> {
    /// Gives key `k` the value `v`, keeping keys in ascending order: the
    /// value of an existing key is replaced in place, a new key goes before
    /// the first key that comes after it.
    pub fn insert_ordered(&mut self, k: String, v: V)
        ensures
            final(self)@ == ordered_inserted(old(self)@, k@, v),
    {
        if self.contains_key(k.as_str()) {
            proof {
                lemma_index_of_key(self@, k@);
            }
            self.insert(k, v);
            return;
        }
        proof {
            lemma_index_of_key(self@, k@);
        }
        let kc = chars_of(k.as_str());
        let mut i: usize = 0;
        while i < self.len()
            invariant
                kc@ == k@,
                i <= self@.len(),
                first_after(self@, k@, i as int) == first_after(self@, k@, 0),
            ensures
                i == first_after(self@, k@, 0),
            decreases self@.len() - i,
        {
            let c = chars_of(self.key_at(i).as_str());
            if chars_lt(&kc, &c) {
                break;
            }
            i = i + 1;
        }
        self.put_at(i, k, v);
    }
}

/// Inserting in order keeps the keys in ascending order.
pub proof fn lemma_ordered_inserted_sorted<V>(s: Seq<(Seq<char>, V)>, k: Seq<char>, v: V)
    requires
        sorted_keys(s),
    ensures
        sorted_keys(ordered_inserted(s, k, v)),
{
    lemma_index_of_key(s, k);
    let t = ordered_inserted(s, k, v);
    match index_of_key(s, k) {
        Some(i) => {
            assert forall|a: int, b: int| 0 <= a < b < t.len() implies seq_lt(#[trigger] t[a].0, #[trigger] t[b].0) by {
                assert(s[a].0 == t[a].0 && s[b].0 == t[b].0);
            }
        },
        None => {
            let p = first_after(s, k, 0);
            lemma_first_after(s, k, 0);
            assert forall|a: int, b: int| 0 <= a < b < t.len() implies seq_lt(#[trigger] t[a].0, #[trigger] t[b].0) by {
                if a < p && b == p {
                    lemma_seq_lt_total(s[a].0, k);
                    assert(s[a].0 != k);
                } else if a == p && b > p {
                    assert(seq_lt(k, s[p].0));
                    if b - 1 > p {
                        lemma_seq_lt_transitive(k, s[p].0, s[b - 1].0);
                    }
                } else if a < p && b > p {
                    assert(seq_lt(s[a].0, s[b - 1].0));
                }
            }
        },
    }
}

/// Removing a key keeps the keys in ascending order.
pub proof fn lemma_removed_sorted<V>(s: Seq<(Seq<char>, V)>, k: Seq<char>)
    requires
        sorted_keys(s),
    ensures
        sorted_keys(removed(s, k)),
{
    lemma_index_of_key(s, k);
    let t = removed(s, k);
    match index_of_key(s, k) {
        Some(i) => {
            assert forall|a: int, b: int| 0 <= a < b < t.len() implies seq_lt(#[trigger] t[a].0, #[trigger] t[b].0) by {
                let a0 = if a < i { a } else { a + 1 };
                let b0 = if b < i { b } else { b + 1 };
                assert(t[a] == s[a0] && t[b] == s[b0]);
            }
        },
        None => {},
    }
}

/// [`first_after`] reads only the keys.
proof fn lemma_first_after_keys<V, W>(s: Seq<(Seq<char>, V)>, t: Seq<(Seq<char>, W)>, k: Seq<char>, i: int)
    requires
        0 <= i,
        s.len() == t.len(),
        forall|j: int| 0 <= j < s.len() ==> s[j].0 == t[j].0,
    ensures
        first_after(s, k, i) == first_after(t, k, i),
    decreases s.len() - i,
{
    if i < s.len() {
        assert(s[i].0 == t[i].0);
        lemma_first_after_keys(s, t, k, i + 1);
    }
}

/// Inserting in order into a map of strings, seen through the values' views.
pub proof fn lemma_str_entries_ordered(s: Seq<(Seq<char>, String)>, k: Seq<char>, v: String)
    ensures
        str_entries(ordered_inserted(s, k, v)) == ordered_inserted(str_entries(s), k, v@),
{
    lemma_str_entries_index(s, k);
    lemma_index_of_key(s, k);
    match index_of_key(s, k) {
        Some(i) => {
            assert(str_entries(s.update(i, (k, v))) =~= str_entries(s).update(i, (k, v@)));
        },
        None => {
            lemma_first_after_keys(s, str_entries(s), k, 0);
            lemma_first_after(s, k, 0);
            let p = first_after(s, k, 0);
            assert(str_entries(s.insert(p, (k, v))) =~= str_entries(s).insert(p, (k, v@)));
        },
    }
}

/// Removing from a map of strings, seen through the values' views.
pub proof fn lemma_str_entries_removed(s: Seq<(Seq<char>, String)>, k: Seq<char>)
    ensures
        str_entries(removed(s, k)) == removed(str_entries(s), k),
{
    lemma_str_entries_index(s, k);
    lemma_index_of_key(s, k);
    match index_of_key(s, k) {
        Some(i) => {
            assert(str_entries(s.remove(i)) =~= str_entries(s).remove(i));
        },
        None => {},
    }
}

/// After an ordered insert into entries without repeated keys, the
/// inserted key has the inserted value, every other key keeps its value, and
/// still no key is repeated.
pub proof fn law_ordered_insert_lookup<V>(s: Seq<(Seq<char>, V)>, k: Seq<char>, v: V, x: Seq<char>)
    requires
        distinct_keys(s),
    ensures
        distinct_keys(ordered_inserted(s, k, v)),
        lookup(ordered_inserted(s, k, v), x) == if x == k {
            Some(v)
        } else {
            lookup(s, x)
        },
{
    lemma_index_of_key(s, k);
    lemma_index_of_key(s, x);
    let t = ordered_inserted(s, k, v);
    match index_of_key(s, k) {
        Some(i) => {
            assert(t == inserted(s, k, v));
            lemma_inserted_lookup(s, k, v, x);
            assert forall|a: int, b: int| 0 <= a < t.len() && 0 <= b < t.len() && a != b implies t[a].0 != t[b].0 by {
                if a == i {
                    assert(s[i].0 == k);
                }
                if b == i {
                    assert(s[i].0 == k);
                }
            }
        },
        None => {
            let p = first_after(s, k, 0);
            lemma_first_after(s, k, 0);
            assert(t == s.insert(p, (k, v)));
            assert forall|a: int, b: int| 0 <= a < t.len() && 0 <= b < t.len() && a != b implies t[a].0 != t[b].0 by {
                let a0 = if a < p { a } else { a - 1 };
                let b0 = if b < p { b } else { b - 1 };
                if a != p && b != p {
                    assert(t[a] == s[a0] && t[b] == s[b0]);
                } else if a == p {
                    assert(t[b] == s[b0]);
                } else {
                    assert(t[a] == s[a0]);
                }
            }
            lemma_index_of_distinct(t, p);
            if x != k {
                if has_key(s, x) {
                    let i = index_of_key(s, x)->0;
                    let j = if i < p { i } else { i + 1 };
                    assert(t[j] == s[i]);
                    lemma_index_of_distinct(t, j);
                    lemma_index_of_distinct(s, i);
                } else {
                    lemma_index_of_key(t, x);
                    if has_key(t, x) {
                        let j = choose|j: int| 0 <= j < t.len() && t[j].0 == x;
                        let i = if j < p { j } else { j - 1 };
                        assert(s[i].0 == x);
                    }
                }
            }
        },
    }
}

/// After removing a key from entries without repeated keys, that key has no
/// value and every other key keeps its value.
pub proof fn law_removed_lookup<V>(s: Seq<(Seq<char>, V)>, k: Seq<char>, x: Seq<char>)
    requires
        distinct_keys(s),
    ensures
        lookup(removed(s, k), x) == if x == k {
            None
        } else {
            lookup(s, x)
        },
{
    lemma_index_of_key(s, k);
    lemma_index_of_key(s, x);
    let t = removed(s, k);
    lemma_index_of_key(t, x);
    match index_of_key(s, k) {
        Some(i) => {
            assert(t == s.remove(i));
            if has_key(t, x) {
                let j = choose|j: int| 0 <= j < t.len() && t[j].0 == x;
                let j0 = if j < i { j } else { j + 1 };
                assert(t[j] == s[j0]);
                assert(s[j0].0 == x);
                if x != k {
                    let c = index_of_key(t, x)->0;
                    let c0 = if c < i { c } else { c + 1 };
                    assert(t[c] == s[c0]);
                    lemma_index_of_distinct(s, c0);
                }
            } else if x != k && has_key(s, x) {
                let w = index_of_key(s, x)->0;
                assert(w != i);
                let w1 = if w < i { w } else { w - 1 };
                assert(t[w1] == s[w]);
            }
        },
        None => {},
    }
}

/// A key left after a remove was there before.
pub proof fn lemma_removed_keys<V>(s: Seq<(Seq<char>, V)>, k: Seq<char>, x: Seq<char>)
    ensures
        has_key(removed(s, k), x) ==> has_key(s, x),
{
    lemma_index_of_key(s, k);
    let t = removed(s, k);
    if has_key(t, x) {
        let j = choose|j: int| 0 <= j < t.len() && t[j].0 == x;
        match index_of_key(s, k) {
            Some(i) => {
                let j0 = if j < i { j } else { j + 1 };
                assert(t[j] == s[j0]);
            },
            None => {},
        }
    }
}

/// The entries `acc` after the entries `add` were inserted in order, one
/// after the other; a later value takes the place of an earlier one.
pub open spec fn insert_all_ordered(acc: Seq<(Seq<char>, Seq<char>)>, add: Seq<(Seq<char>, Seq<char>)>) -> Seq<(Seq<char>, Seq<char>)>
    decreases add.len(),
{
    if add.len() == 0 {
        acc
    } else {
        ordered_inserted(insert_all_ordered(acc, add.drop_last()), add.last().0, add.last().1)
    }
}

/// Inserts every entry of `add` into `acc` in order.
pub fn merge_ordered(acc: &mut StrMap<String>, add: &StrMap<String>)
    ensures
        str_entries(final(acc)@) == insert_all_ordered(str_entries(old(acc)@), str_entries(add@)),
        sorted_keys(old(acc)@) ==> sorted_keys(final(acc)@),
{
    let ghost start = str_entries(acc@);
    let ghost was_sorted = sorted_keys(acc@);
    let mut i: usize = 0;
    while i < add.len()
        invariant
            i <= add@.len(),
            str_entries(acc@) == insert_all_ordered(start, str_entries(add@).take(i as int)),
            was_sorted ==> sorted_keys(acc@),
        decreases add@.len() - i,
    {
        let k = add.key_at(i).clone();
        let v = add.value_at(i).clone();
        proof {
            lemma_str_entries_ordered(acc@, k@, v);
            if sorted_keys(acc@) {
                lemma_ordered_inserted_sorted(acc@, k@, v);
            }
            let t = str_entries(add@).take(i + 1);
            assert(t.drop_last() =~= str_entries(add@).take(i as int));
            assert(t.last() == (k@, v@));
        }
        acc.insert_ordered(k, v);
        i = i + 1;
    }
    assert(str_entries(add@).take(add@.len() as int) =~= str_entries(add@));
}

/// A copy of `m` with its keys in ascending order, built by inserting its
/// entries in order.
pub fn sorted_copy(m: &StrMap<String>) -> (r: StrMap<String>)
    ensures
        str_entries(r@) == insert_all_ordered(seq![], str_entries(m@)),
        sorted_keys(r@),
{
    let mut r: StrMap<String> = StrMap::new();
    assert(str_entries(r@) =~= Seq::<(Seq<char>, Seq<char>)>::empty());
    merge_ordered(&mut r, m);
    r
}

} // verus!
