//! A map from string keys to values, kept in key order.
//!
//! Keys are ordered character by character, with `/` ranking below every other
//! character. For normalized relative paths this is the order of their
//! components, which is how the index lists its entries.

use vstd::prelude::*;
use crate::text::str_chars;

verus! {

/// The rank of a character in the key order: `/` first, then by code point.
pub open spec fn char_rank(c: char) -> int {
    if c == '/' {
        0
    } else {
        (c as u32) as int + 1
    }
}

/// Whether key `a` comes strictly before key `b`.
pub open spec fn key_less(a: Seq<char>, b: Seq<char>) -> bool
    decreases a.len(),
{
    if a.len() == 0 {
        b.len() > 0
    } else if b.len() == 0 {
        false
    } else if a[0] == b[0] {
        key_less(a.drop_first(), b.drop_first())
    } else {
        char_rank(a[0]) < char_rank(b[0])
    }
}

/// The key order is irreflexive.
pub proof fn lemma_key_less_irreflexive(a: Seq<char>)
    ensures
        !key_less(a, a),
    decreases a.len(),
{
    if a.len() > 0 {
        lemma_key_less_irreflexive(a.drop_first());
    }
}

/// Distinct characters have distinct ranks.
proof fn lemma_rank_injective(c: char, d: char)
    requires
        c != d,
    ensures
        char_rank(c) != char_rank(d),
{
    broadcast use vstd::utf8::char_u32_cast;

    if c != '/' && d != '/' {
        let u = c as u32;
        let w = d as u32;
        assert(u as char == c);
        assert(w as char == d);
    }
}

/// The key order is total.
pub proof fn lemma_key_less_total(a: Seq<char>, b: Seq<char>)
    ensures
        key_less(a, b) || a == b || key_less(b, a),
    decreases a.len(),
{
    if a.len() > 0 && b.len() > 0 {
        if a[0] == b[0] {
            lemma_key_less_total(a.drop_first(), b.drop_first());
            if a.drop_first() == b.drop_first() {
                assert(a =~= seq![a[0]] + a.drop_first());
                assert(b =~= seq![b[0]] + b.drop_first());
            }
        } else {
            lemma_rank_injective(a[0], b[0]);
        }
    } else if a.len() == 0 && b.len() == 0 {
        assert(a =~= b);
    }
}

/// The key order is transitive.
pub proof fn lemma_key_less_transitive(a: Seq<char>, b: Seq<char>, c: Seq<char>)
    requires
        key_less(a, b),
        key_less(b, c),
    ensures
        key_less(a, c),
    decreases a.len(),
{
    if a.len() > 0 && a[0] == b[0] && b[0] == c[0] {
        lemma_key_less_transitive(a.drop_first(), b.drop_first(), c.drop_first());
    }
}

/// The key order is asymmetric.
pub proof fn lemma_key_less_asymmetric(a: Seq<char>, b: Seq<char>)
    requires
        key_less(a, b),
    ensures
        !key_less(b, a),
{
    if key_less(b, a) {
        lemma_key_less_transitive(a, b, a);
        lemma_key_less_irreflexive(a);
    }
}

/// Compares two keys: -1, 0 or 1 as `a` comes before, equals or comes after `b`.
pub fn compare_keys(a: &str, b: &str) -> (r: i8)
    ensures
        r == 0 <==> a@ == b@,
        r < 0 <==> key_less(a@, b@),
        r > 0 <==> key_less(b@, a@),
{
    let x = str_chars(a);
    let y = str_chars(b);
    let mut i: usize = 0;
    assert(x@.skip(0) =~= x@);
    assert(y@.skip(0) =~= y@);
    while i < x.len() && i < y.len()
        invariant
            x@ == a@,
            y@ == b@,
            i <= x@.len(),
            i <= y@.len(),
            x@.subrange(0, i as int) == y@.subrange(0, i as int),
            key_less(a@, b@) == key_less(x@.skip(i as int), y@.skip(i as int)),
            key_less(b@, a@) == key_less(y@.skip(i as int), x@.skip(i as int)),
        decreases x@.len() - i,
    {
        let c: char = x[i];
        let d: char = y[i];
        assert(x@.skip(i as int).drop_first() =~= x@.skip(i + 1));
        assert(y@.skip(i as int).drop_first() =~= y@.skip(i + 1));
        if c != d {
            let less: bool = if c == '/' {
                true
            } else if d == '/' {
                false
            } else {
                (c as u32) < (d as u32)
            };
            proof {
                lemma_rank_injective(c, d);
                assert(less == (char_rank(c) < char_rank(d)));
            }
            proof {
                if a@ == b@ {
                    assert(x@[i as int] == y@[i as int]);
                }
            }
            if less {
                proof {
                    lemma_key_less_asymmetric(a@, b@);
                }
                return -1;
            } else {
                proof {
                    lemma_key_less_asymmetric(b@, a@);
                }
                return 1;
            }
        }
        assert(x@.subrange(0, i + 1) =~= x@.subrange(0, i as int).push(c));
        assert(y@.subrange(0, i + 1) =~= y@.subrange(0, i as int).push(d));
        i = i + 1;
    }
    if x.len() == y.len() {
        assert(x@ =~= x@.subrange(0, i as int));
        assert(y@ =~= y@.subrange(0, i as int));
        proof {
            lemma_key_less_irreflexive(a@);
        }
        0
    } else if x.len() < y.len() {
        assert(x@.skip(i as int).len() == 0);
        proof {
            if a@ == b@ {
                assert(x@.len() == y@.len());
            }
        }
        -1
    } else {
        assert(y@.skip(i as int).len() == 0);
        proof {
            if a@ == b@ {
                assert(x@.len() == y@.len());
            }
        }
        1
    }
}

/// The characters of each string.
pub open spec fn string_views(ks: Seq<String>) -> Seq<Seq<char>> {
    Seq::new(ks.len(), |i: int| ks[i]@)
}

/// Whether the keys of `entries` are strictly increasing.
pub open spec fn keys_sorted<V>(entries: Seq<(String, V)>) -> bool {
    forall|i: int, j: int|
        0 <= i < j < entries.len() ==> #[trigger] key_less(entries[i].0@, entries[j].0@)
}

/// The position of key `k` among `entries`, if it is there.
pub open spec fn key_index<V>(entries: Seq<(String, V)>, k: Seq<char>) -> int {
    choose|i: int| 0 <= i < entries.len() && entries[i].0@ == k
}

/// The map that sorted `entries` stand for.
pub open spec fn entries_map<V>(entries: Seq<(String, V)>) -> Map<Seq<char>, V> {
    Map::new(
        |k: Seq<char>| exists|i: int| 0 <= i < entries.len() && entries[i].0@ == k,
        |k: Seq<char>| entries[key_index(entries, k)].1,
    )
}

/// A map from string keys to values, its entries kept in key order.
#[derive(Debug)]
pub struct KeyedMap<V> {
    entries: Vec<(String, V)>,
}

impl<V> KeyedMap<V> {
    #[verifier::type_invariant]
    spec fn sorted(self) -> bool {
        keys_sorted(self.entries@)
    }

    /// The entries, in key order.
    pub closed spec fn entry_seq(self) -> Seq<(String, V)> {
        self.entries@
    }

    /// The keys, in order.
    pub open spec fn key_seq(self) -> Seq<Seq<char>> {
        Seq::new(self.entry_seq().len(), |i: int| self.entry_seq()[i].0@)
    }

    /// The map.
    pub open spec fn as_map(self) -> Map<Seq<char>, V> {
        entries_map(self.entry_seq())
    }

    /// An empty map.
    pub fn new() -> (m: Self)
        ensures
            m.entry_seq() == Seq::<(String, V)>::empty(),
            m.as_map() == Map::<Seq<char>, V>::empty(),
    {
        let m = KeyedMap { entries: Vec::new() };
        assert(m.as_map() =~= Map::<Seq<char>, V>::empty());
        m
    }

    /// The number of entries.
    pub fn len(&self) -> (n: usize)
        ensures
            n == self.entry_seq().len(),
            n == self.as_map().len(),
            keys_sorted(self.entry_seq()),
    {
        proof {
            use_type_invariant(self);
            lemma_entries_map_len(self.entries@);
        }
        self.entries.len()
    }

    /// Whether there are no entries.
    pub fn is_empty(&self) -> (b: bool)
        ensures
            b == (self.entry_seq().len() == 0),
            b == (self.as_map() == Map::<Seq<char>, V>::empty()),
    {
        if self.entries.len() == 0 {
            assert(self.as_map() =~= Map::<Seq<char>, V>::empty());
            true
        } else {
            assert(self.as_map().dom().contains(self.entries@[0].0@));
            false
        }
    }

    /// The entry at position `i` in key order.
    pub fn entry_at(&self, i: usize) -> (e: &(String, V))
        requires
            i < self.entry_seq().len(),
        ensures
            *e == self.entry_seq()[i as int],
    {
        &self.entries[i]
    }

    /// Where key `k` is, or where it would go.
    fn find(&self, k: &str) -> (r: (usize, bool))
        ensures
            r.0 <= self.entry_seq().len(),
            forall|i: int| 0 <= i < r.0 ==> key_less(#[trigger] self.entry_seq()[i].0@, k@),
            r.1 ==> r.0 < self.entry_seq().len() && self.entry_seq()[r.0 as int].0@ == k@,
            !r.1 ==> forall|i: int|
                r.0 <= i < self.entry_seq().len() ==> key_less(k@, #[trigger] self.entry_seq()[i].0@),
    {
        proof {
            use_type_invariant(self);
        }
        let mut i: usize = 0;
        while i < self.entries.len()
            invariant
                i <= self.entries@.len(),
                keys_sorted(self.entries@),
                forall|j: int| 0 <= j < i ==> key_less(#[trigger] self.entries@[j].0@, k@),
            decreases self.entries@.len() - i,
        {
            let c = compare_keys(self.entries[i].0.as_str(), k);
            if c == 0 {
                return (i, true);
            }
            if c > 0 {
                assert forall|j: int| i <= j < self.entries@.len() implies key_less(
                    k@,
                    #[trigger] self.entries@[j].0@,
                ) by {
                    if j > i {
                        lemma_key_less_transitive(k@, self.entries@[i as int].0@, self.entries@[j].0@);
                    }
                }
                return (i, false);
            }
            i = i + 1;
        }
        (i, false)
    }

    /// The value of key `k`.
    pub fn get(&self, k: &str) -> (r: Option<&V>)
        ensures
            r is Some <==> self.as_map().dom().contains(k@),
            r matches Some(v) ==> *v == self.as_map()[k@],
    {
        proof {
            use_type_invariant(self);
        }
        let (i, found) = self.find(k);
        if found {
            proof {
                lemma_entries_map_at(self.entries@, i as int);
            }
            Some(&self.entries[i].1)
        } else {
            proof {
                lemma_entries_map_absent(self.entries@, k@, i as int);
            }
            None
        }
    }

    /// Whether key `k` has a value.
    pub fn contains_key(&self, k: &str) -> (b: bool)
        ensures
            b == self.as_map().dom().contains(k@),
    {
        self.get(k).is_some()
    }

    /// Sets the value of key `k` to `v`; returns the value it had.
    pub fn insert(&mut self, k: String, v: V) -> (r: Option<V>)
        ensures
            final(self).as_map() == old(self).as_map().insert(k@, v),
            r is Some <==> old(self).as_map().dom().contains(k@),
            r matches Some(w) ==> w == old(self).as_map()[k@],
    {
        proof {
            use_type_invariant(&*self);
        }
        let ghost old_entries = self.entries@;
        let (i, found) = self.find(k.as_str());
        if found {
            proof {
                lemma_entries_map_at(old_entries, i as int);
            }
            let mut entries: Vec<(String, V)> = Vec::new();
            std::mem::swap(&mut entries, &mut self.entries);
            let old_entry = entries.remove(i);
            entries.insert(i, (k, v));
            assert(entries@ =~= old_entries.update(i as int, (k, v)));
            proof {
                lemma_entries_map_update(old_entries, i as int, k, v);
            }
            self.entries = entries;
            Some(old_entry.1)
        } else {
            proof {
                lemma_entries_map_absent(old_entries, k@, i as int);
                lemma_entries_map_insert(old_entries, i as int, k, v);
            }
            let mut entries: Vec<(String, V)> = Vec::new();
            std::mem::swap(&mut entries, &mut self.entries);
            entries.insert(i, (k, v));
            self.entries = entries;
            None
        }
    }

    /// Removes key `k`; returns the value it had.
    pub fn remove(&mut self, k: &str) -> (r: Option<V>)
        ensures
            final(self).as_map() == old(self).as_map().remove(k@),
            r is Some <==> old(self).as_map().dom().contains(k@),
            r matches Some(w) ==> w == old(self).as_map()[k@],
    {
        proof {
            use_type_invariant(&*self);
        }
        let ghost old_entries = self.entries@;
        let (i, found) = self.find(k);
        if found {
            proof {
                lemma_entries_map_at(old_entries, i as int);
                lemma_entries_map_remove(old_entries, i as int);
            }
            let mut entries: Vec<(String, V)> = Vec::new();
            std::mem::swap(&mut entries, &mut self.entries);
            let e = entries.remove(i);
            self.entries = entries;
            Some(e.1)
        } else {
            proof {
                lemma_entries_map_absent(old_entries, k@, i as int);
            }
            assert(old_entries.len() == self.entries@.len());
            assert(self.as_map() =~= old(self).as_map().remove(k@));
            None
        }
    }

    /// The keys, in order.
    pub fn keys(&self) -> (ks: Vec<String>)
        ensures
            string_views(ks@) == self.key_seq(),
    {
        let mut ks: Vec<String> = Vec::new();
        let mut i: usize = 0;
        while i < self.entries.len()
            invariant
                i <= self.entries@.len(),
                ks@.len() == i,
                forall|j: int| 0 <= j < i ==> #[trigger] ks@[j]@ == self.entries@[j].0@,
            decreases self.entries@.len() - i,
        {
            ks.push(self.entries[i].0.clone());
            i = i + 1;
        }
        assert(string_views(ks@) =~= self.key_seq());
        ks
    }
}

pub proof fn lemma_entries_map_at<V>(entries: Seq<(String, V)>, i: int)
    requires
        keys_sorted(entries),
        0 <= i < entries.len(),
    ensures
        entries_map(entries).dom().contains(entries[i].0@),
        entries_map(entries)[entries[i].0@] == entries[i].1,
{
    let k = entries[i].0@;
    assert(exists|j: int| 0 <= j < entries.len() && entries[j].0@ == k);
    let j = key_index(entries, k);
    if j != i {
        if j < i {
            assert(key_less(entries[j].0@, entries[i].0@));
        } else {
            assert(key_less(entries[i].0@, entries[j].0@));
        }
        lemma_key_less_irreflexive(k);
    }
}

pub proof fn lemma_entries_map_absent<V>(entries: Seq<(String, V)>, k: Seq<char>, p: int)
    requires
        0 <= p <= entries.len(),
        forall|i: int| 0 <= i < p ==> key_less(#[trigger] entries[i].0@, k),
        forall|i: int| p <= i < entries.len() ==> key_less(k, #[trigger] entries[i].0@),
    ensures
        !entries_map(entries).dom().contains(k),
{
    if exists|j: int| 0 <= j < entries.len() && entries[j].0@ == k {
        let j = choose|j: int| 0 <= j < entries.len() && entries[j].0@ == k;
        lemma_key_less_irreflexive(k);
        if j < p {
            assert(key_less(entries[j].0@, k));
        } else {
            assert(key_less(k, entries[j].0@));
        }
    }
}

proof fn lemma_entries_map_update<V>(entries: Seq<(String, V)>, i: int, k: String, v: V)
    requires
        keys_sorted(entries),
        0 <= i < entries.len(),
        entries[i].0@ == k@,
    ensures
        keys_sorted(entries.update(i, (k, v))),
        entries_map(entries.update(i, (k, v))) == entries_map(entries).insert(k@, v),
{
    let e2 = entries.update(i, (k, v));
    assert forall|a: int, b: int| 0 <= a < b < e2.len() implies #[trigger] key_less(
        e2[a].0@,
        e2[b].0@,
    ) by {
        assert(key_less(entries[a].0@, entries[b].0@));
    }
    let m1 = entries_map(e2);
    let m2 = entries_map(entries).insert(k@, v);
    assert forall|x: Seq<char>| #[trigger] m1.dom().contains(x) implies m2.dom().contains(x)
        && m1[x] == m2[x] by {
        let j = key_index(e2, x);
        lemma_entries_map_at(e2, j);
        if x != k@ {
            lemma_entries_map_at(entries, j);
        } else {
            lemma_entries_map_at(e2, i);
        }
    }
    assert forall|x: Seq<char>| #[trigger] m2.dom().contains(x) implies m1.dom().contains(x) by {
        if x != k@ {
            let j = key_index(entries, x);
            assert(e2[j].0@ == x);
        } else {
            assert(e2[i].0@ == x);
        }
    }
    assert(m1 =~= m2);
}

pub proof fn lemma_entries_map_insert<V>(entries: Seq<(String, V)>, p: int, k: String, v: V)
    requires
        keys_sorted(entries),
        0 <= p <= entries.len(),
        forall|i: int| 0 <= i < p ==> key_less(#[trigger] entries[i].0@, k@),
        forall|i: int| p <= i < entries.len() ==> key_less(k@, #[trigger] entries[i].0@),
    ensures
        keys_sorted(entries.insert(p, (k, v))),
        entries_map(entries.insert(p, (k, v))) == entries_map(entries).insert(k@, v),
{
    let e2 = entries.insert(p, (k, v));
    lemma_key_less_irreflexive(k@);
    assert forall|a: int, b: int| 0 <= a < b < e2.len() implies #[trigger] key_less(
        e2[a].0@,
        e2[b].0@,
    ) by {
        if b < p {
            assert(key_less(entries[a].0@, entries[b].0@));
        } else if b == p {
        } else if a < p {
            lemma_key_less_transitive(e2[a].0@, k@, e2[b].0@);
        } else if a == p {
        } else {
            assert(key_less(entries[a - 1].0@, entries[b - 1].0@));
        }
    }
    lemma_entries_map_absent(entries, k@, p);
    assert forall|x: Seq<char>| #![auto] entries_map(e2).dom().contains(x) implies entries_map(
        e2,
    )[x] == entries_map(entries).insert(k@, v)[x] && entries_map(entries).insert(k@, v).dom().contains(x) by {
        let j = key_index(e2, x);
        lemma_entries_map_at(e2, j);
        if j < p {
            lemma_entries_map_at(entries, j);
        } else if j > p {
            lemma_entries_map_at(entries, j - 1);
        }
    }
    assert forall|x: Seq<char>| #![auto] entries_map(entries).insert(k@, v).dom().contains(
        x,
    ) implies entries_map(e2).dom().contains(x) by {
        if x != k@ {
            let j = key_index(entries, x);
            if j < p {
                assert(e2[j].0@ == x);
            } else {
                assert(e2[j + 1].0@ == x);
            }
        } else {
            assert(e2[p].0@ == x);
        }
    }
    assert(entries_map(e2) =~= entries_map(entries).insert(k@, v));
}

proof fn lemma_entries_map_remove<V>(entries: Seq<(String, V)>, i: int)
    requires
        keys_sorted(entries),
        0 <= i < entries.len(),
    ensures
        keys_sorted(entries.remove(i)),
        entries_map(entries.remove(i)) == entries_map(entries).remove(entries[i].0@),
{
    let k = entries[i].0@;
    let e2 = entries.remove(i);
    assert forall|a: int, b: int| 0 <= a < b < e2.len() implies #[trigger] key_less(
        e2[a].0@,
        e2[b].0@,
    ) by {
        let a2 = if a < i { a } else { a + 1 };
        let b2 = if b < i { b } else { b + 1 };
        assert(key_less(entries[a2].0@, entries[b2].0@));
    }
    let m1 = entries_map(e2);
    let m2 = entries_map(entries).remove(k);
    lemma_key_less_irreflexive(k);
    assert forall|x: Seq<char>| #[trigger] m1.dom().contains(x) implies m2.dom().contains(x)
        && m1[x] == m2[x] by {
        let j = key_index(e2, x);
        lemma_entries_map_at(e2, j);
        let j2 = if j < i { j } else { j + 1 };
        assert(e2[j] == entries[j2]);
        lemma_entries_map_at(entries, j2);
        if x == k {
            if j2 < i {
                assert(key_less(entries[j2].0@, entries[i].0@));
            } else {
                assert(key_less(entries[i].0@, entries[j2].0@));
            }
        }
    }
    assert forall|x: Seq<char>| #[trigger] m2.dom().contains(x) implies m1.dom().contains(x) by {
        let j = key_index(entries, x);
        if j < i {
            assert(e2[j].0@ == x);
        } else {
            assert(j != i);
            assert(e2[j - 1].0@ == x);
        }
    }
    assert(m1 =~= m2);
}

/// The keys of a sequence of entries are finitely many.
pub proof fn lemma_entries_map_finite<V>(entries: Seq<(String, V)>)
    ensures
        entries_map(entries).dom().finite(),
{
    let ks = Seq::new(entries.len(), |i: int| entries[i].0@);
    vstd::seq_lib::seq_to_set_is_finite(ks);
    assert forall|k: Seq<char>| #[trigger] entries_map(entries).dom().contains(k) implies ks.to_set().contains(k) by {
        let i = choose|i: int| 0 <= i < entries.len() && entries[i].0@ == k;
        assert(ks[i] == k);
    }
    vstd::set_lib::lemma_len_subset(entries_map(entries).dom(), ks.to_set());
}

proof fn lemma_entries_map_len<V>(entries: Seq<(String, V)>)
    requires
        keys_sorted(entries),
    ensures
        entries_map(entries).dom().finite(),
        entries_map(entries).len() == entries.len(),
    decreases entries.len(),
{
    if entries.len() == 0 {
        assert(entries_map(entries).dom() =~= Set::<Seq<char>>::empty());
    } else {
        let last = entries.len() - 1;
        let e2 = entries.remove(last);
        lemma_entries_map_remove(entries, last);
        lemma_entries_map_len(e2);
        lemma_entries_map_at(entries, last);
        assert(entries_map(entries).dom() =~= entries_map(e2).dom().insert(entries[last].0@));
    }
}

} // verus!
