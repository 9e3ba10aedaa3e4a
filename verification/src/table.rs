//! A map that can be walked by index: a list of keys and values in which no
//! key occurs twice, and where to find them in it.
use std::collections::HashMap;

use vstd::prelude::*;
use vstd::std_specs::hash::*;

use crate::types::IngressId;

verus! {

broadcast use vstd::std_specs::hash::group_hash_axioms;

/// A key: something that can be compared, with a number by which it is found.
pub trait Key: View + Sized {
    /// The number of a key. Keys may share one.
    spec fn code(k: Self::V) -> u64;

    fn to_code(&self) -> (r: u64)
        ensures
            r == Self::code(self@),
    ;

    fn same_key(&self, o: &Self) -> (r: bool)
        ensures
            r == (self@ == o@),
    ;
}

impl Key for IngressId {
    open spec fn code(k: IngressId) -> u64 {
        k as u64
    }

    fn to_code(&self) -> (r: u64) {
        *self as u64
    }

    fn same_key(&self, o: &Self) -> (r: bool) {
        *self == *o
    }
}

/// A list of keys and values in which no key occurs twice.
#[derive(Debug)]
pub struct Table<K, V> {
    entries: Vec<(K, V)>,
    /// Where the keys with a number are.
    index: HashMap<u64, Vec<usize>>,
}

/// Whether places are told.
spec fn tells(places: Seq<usize>, i: int) -> bool {
    exists|k: int| 0 <= k < places.len() && #[trigger] places[k] == i
}

/// Whether these are places of keys with a number, none twice.
spec fn places_ok<K: Key, V>(s: Seq<(K, V)>, c: u64, places: Seq<usize>) -> bool {
    &&& places.no_duplicates()
    &&& forall|k: int| 0 <= k < places.len() ==> (#[trigger] places[k]) < s.len() && K::code(s[places[k] as int].0@) == c
}

/// Whether the index tells where each key is, and nothing else.
spec fn indexed<K: Key, V>(s: Seq<(K, V)>, index: Map<u64, Vec<usize>>) -> bool {
    &&& forall|c: u64| #[trigger] index.contains_key(c) ==> places_ok(s, c, index[c]@)
    &&& forall|i: int|
        0 <= i < s.len() ==> index.contains_key(K::code((#[trigger] s[i]).0@)) && tells(
            index[K::code(s[i].0@)]@,
            i,
        )
}

/// Whether a list has a key.
spec fn listed_key<K: View, V>(s: Seq<(K, V)>, k: K::V) -> bool {
    exists|i: int| 0 <= i < s.len() && (#[trigger] s[i]).0@ == k
}

/// Where a list has a key.
spec fn place<K: View, V>(s: Seq<(K, V)>, k: K::V) -> int {
    choose|i: int| 0 <= i < s.len() && (#[trigger] s[i]).0@ == k
}

spec fn distinct<K: View, V>(s: Seq<(K, V)>) -> bool {
    forall|i: int, j: int| 0 <= i < j < s.len() ==> (#[trigger] s[i]).0@ != (#[trigger] s[j]).0@
}

spec fn as_map<K: View, V>(s: Seq<(K, V)>) -> Map<K::V, V> {
    Map::new(|k: K::V| listed_key(s, k), |k: K::V| s[place(s, k)].1)
}

proof fn lemma_at<K: View, V>(s: Seq<(K, V)>, i: int)
    requires
        distinct(s),
        0 <= i < s.len(),
    ensures
        as_map(s).contains_key(s[i].0@),
        as_map(s)[s[i].0@] == s[i].1,
{
    let k = s[i].0@;
    assert(listed_key(s, k));
    let j = place(s, k);
    assert(s[j].0@ == k);
    if j < i {
        assert(s[j].0@ != s[i].0@);
    }
    if i < j {
        assert(s[i].0@ != s[j].0@);
    }
}

proof fn lemma_push<K: View, V>(s: Seq<(K, V)>, e: (K, V))
    requires
        distinct(s),
        !listed_key(s, e.0@),
    ensures
        distinct(s.push(e)),
        as_map(s.push(e)) == as_map(s).insert(e.0@, e.1),
{
    let t = s.push(e);
    assert forall|i: int, j: int| 0 <= i < j < t.len() implies (#[trigger] t[i]).0@ != (#[trigger] t[j]).0@ by {
        if j == s.len() {
            assert(s[i].0@ != e.0@);
        }
    }
    assert forall|k: K::V| as_map(t).contains_key(k) == as_map(s).insert(e.0@, e.1).contains_key(k) by {
        if listed_key(s, k) {
            let i = place(s, k);
            assert(t[i].0@ == k);
        }
        if listed_key(t, k) {
            let i = place(t, k);
            if i < s.len() {
                assert(s[i].0@ == k);
            }
        }
        assert(t[s.len() as int].0@ == e.0@);
    }
    assert forall|k: K::V| as_map(t).contains_key(k) implies as_map(t)[k] == as_map(s).insert(e.0@, e.1)[k] by {
        let i = place(t, k);
        lemma_at(t, i);
        if i < s.len() {
            assert(s[i].0@ == k);
            lemma_at(s, i);
        }
    }
    assert(as_map(t) =~= as_map(s).insert(e.0@, e.1));
}

proof fn lemma_set<K: View, V>(s: Seq<(K, V)>, i: int, e: (K, V))
    requires
        distinct(s),
        0 <= i < s.len(),
        s[i].0@ == e.0@,
    ensures
        distinct(s.update(i, e)),
        as_map(s.update(i, e)) == as_map(s).insert(e.0@, e.1),
{
    let t = s.update(i, e);
    assert forall|a: int| 0 <= a < t.len() implies (#[trigger] t[a]).0@ == s[a].0@ by {}
    assert(distinct(t)) by {
        assert forall|a: int, b: int| 0 <= a < b < t.len() implies (#[trigger] t[a]).0@ != (#[trigger] t[b]).0@ by {
            assert(s[a].0@ != s[b].0@);
        }
    }
    lemma_at(s, i);
    assert forall|k: K::V| as_map(t).contains_key(k) == as_map(s).contains_key(k) by {
        if listed_key(s, k) {
            let a = place(s, k);
            assert(t[a].0@ == k);
        }
        if listed_key(t, k) {
            let a = place(t, k);
            assert(s[a].0@ == k);
        }
    }
    assert forall|k: K::V| as_map(t).contains_key(k) implies as_map(t)[k] == as_map(s).insert(e.0@, e.1)[k] by {
        let a = place(t, k);
        assert(s[a].0@ == k);
        lemma_at(t, a);
        lemma_at(s, a);
        if a != i {
            if a < i {
                assert(s[a].0@ != s[i].0@);
            } else {
                assert(s[i].0@ != s[a].0@);
            }
        }
    }
    assert(as_map(t) =~= as_map(s).insert(e.0@, e.1));
}

/// A list with one entry less: the last one takes its place.
spec fn taken_out<T>(s: Seq<T>, i: int) -> Seq<T> {
    s.update(i, s.last()).drop_last()
}

proof fn lemma_remove<K: View, V>(s: Seq<(K, V)>, i: int)
    requires
        distinct(s),
        0 <= i < s.len(),
    ensures
        distinct(taken_out(s, i)),
        as_map(taken_out(s, i)) == as_map(s).remove(s[i].0@),
{
    let t = taken_out(s, i);
    let n = s.len() - 1;
    let from = |a: int|
        if a == i {
            n
        } else {
            a
        };
    assert forall|a: int| 0 <= a < t.len() implies #[trigger] t[a] == s[from(a)] by {}
    assert forall|a: int, b: int| 0 <= a < b < t.len() implies (#[trigger] t[a]).0@ != (#[trigger] t[b]).0@ by {
        let (x, y) = (from(a), from(b));
        assert(t[a] == s[x] && t[b] == s[y]);
        if x < y {
            assert(s[x].0@ != s[y].0@);
        } else {
            assert(s[y].0@ != s[x].0@);
        }
    }
    assert forall|k: K::V| as_map(t).contains_key(k) == as_map(s).remove(s[i].0@).contains_key(k) by {
        if listed_key(s, k) && k != s[i].0@ {
            let a = place(s, k);
            if a == n {
                assert(t[i].0@ == k);
            } else {
                assert(t[a].0@ == k);
            }
        }
        if listed_key(t, k) {
            let a = place(t, k);
            let x = from(a);
            assert(t[a] == s[x]);
            assert(s[x].0@ == k);
            if x < i {
                assert(s[x].0@ != s[i].0@);
            } else {
                assert(s[i].0@ != s[x].0@);
            }
        }
    }
    assert forall|k: K::V| as_map(t).contains_key(k) implies as_map(t)[k] == as_map(s).remove(s[i].0@)[k] by {
        let a = place(t, k);
        lemma_at(t, a);
        assert(t[a] == s[from(a)]);
        lemma_at(s, from(a));
    }
    assert(as_map(t) =~= as_map(s).remove(s[i].0@));
}

/// The places without one.
fn without_place(places: &Vec<usize>, i: usize) -> (r: Vec<usize>)
    requires
        places@.no_duplicates(),
    ensures
        r@.no_duplicates(),
        forall|x: int| #[trigger] tells(r@, x) == (tells(places@, x) && x != i),
{
    let mut out: Vec<usize> = Vec::new();
    let mut k: usize = 0;
    while k < places.len()
        invariant
            k <= places@.len(),
            places@.no_duplicates(),
            out@.no_duplicates(),
            forall|x: int| #[trigger] tells(out@, x) == (tells(places@.take(k as int), x) && x != i),
        decreases places@.len() - k,
    {
        let p: usize = places[k];
        let ghost before = out@;
        let ghost some = places@.take(k as int);
        let ghost next = places@.take(k + 1);
        proof {
            assert(next =~= some.push(p));
            if tells(some, p as int) {
                let y = choose|y: int| 0 <= y < some.len() && #[trigger] some[y] == p as int;
                assert(places@[y] == places@[k as int]);
            }
            assert forall|x: int| #[trigger] tells(next, x) == (tells(some, x) || x == p) by {
                lemma_tells_push(some, p, x);
            }
        }
        if p != i {
            out.push(p);
            proof {
                assert forall|x: int| #[trigger] tells(out@, x) == (tells(before, x) || x == p) by {
                    lemma_tells_push(before, p, x);
                }
                assert(!tells(before, p as int));
                assert(out@.no_duplicates()) by {
                    assert forall|a: int, b: int| 0 <= a < b < out@.len() implies out@[a] != out@[b] by {
                        if b == before.len() && out@[a] == p {
                            assert(before[a] == p as int);
                        }
                    }
                }
            }
        }
        k = k + 1;
    }
    assert(places@.take(k as int) =~= places@);
    out
}

proof fn lemma_tells_push(places: Seq<usize>, p: usize, x: int)
    ensures
        tells(places.push(p), x) == (tells(places, x) || x == p),
{
    let next = places.push(p);
    if tells(places, x) {
        let k = choose|k: int| 0 <= k < places.len() && #[trigger] places[k] == x;
        assert(next[k] == x);
    }
    if tells(next, x) && x != p {
        let k = choose|k: int| 0 <= k < next.len() && #[trigger] next[k] == x;
        assert(places[k] == x);
    }
    assert(next[places.len() as int] == p);
}

/// What the places of a number are, as a set.
spec fn told_of(index: Map<u64, Vec<usize>>, c: u64, i: int) -> bool {
    index.contains_key(c) && tells(index[c]@, i)
}

/// Where the keys are, by the places that are told: an index is in order if
/// it tells for each number just the places of the keys with it.
proof fn lemma_indexed<K: Key, V>(s: Seq<(K, V)>, index: Map<u64, Vec<usize>>)
    requires
        forall|c: u64| #[trigger] index.contains_key(c) ==> index[c]@.no_duplicates(),
        forall|c: u64, i: int| #[trigger] told_of(index, c, i) == (0 <= i < s.len() && K::code(s[i].0@) == c),
    ensures
        indexed(s, index),
{
    assert forall|c: u64| #[trigger] index.contains_key(c) implies places_ok(s, c, index[c]@) by {
        assert forall|k: int| 0 <= k < index[c]@.len() implies (#[trigger] index[c]@[k]) < s.len() && K::code(
            s[index[c]@[k] as int].0@,
        ) == c by {
            assert(tells(index[c]@, index[c]@[k] as int));
            assert(told_of(index, c, index[c]@[k] as int));
        }
    }
    assert forall|i: int| 0 <= i < s.len() implies index.contains_key(K::code((#[trigger] s[i]).0@)) && tells(
        index[K::code(s[i].0@)]@,
        i,
    ) by {
        assert(told_of(index, K::code(s[i].0@), i));
    }
}

/// An index in order tells for each number just the places of the keys with
/// it.
proof fn lemma_told<K: Key, V>(s: Seq<(K, V)>, index: Map<u64, Vec<usize>>)
    requires
        indexed(s, index),
    ensures
        forall|c: u64, i: int| #[trigger] told_of(index, c, i) == (0 <= i < s.len() && K::code(s[i].0@) == c),
{
    assert forall|c: u64, i: int| #[trigger] told_of(index, c, i) == (0 <= i < s.len() && K::code(s[i].0@) == c) by {
        if told_of(index, c, i) {
            let k = choose|k: int| 0 <= k < index[c]@.len() && #[trigger] index[c]@[k] == i;
            assert(places_ok(s, c, index[c]@));
        }
    }
}

/// Adds a place to those of a number.
fn tell_place(index: &mut HashMap<u64, Vec<usize>>, c: u64, i: usize)
    requires
        forall|d: u64| #[trigger] old(index)@.contains_key(d) ==> old(index)@[d]@.no_duplicates(),
        !told_of(old(index)@, c, i as int),
    ensures
        forall|d: u64| #[trigger] final(index)@.contains_key(d) ==> final(index)@[d]@.no_duplicates(),
        forall|d: u64, x: int| #[trigger]
            told_of(final(index)@, d, x) == (told_of(old(index)@, d, x) || d == c && x == i),
{
    let mut places: Vec<usize> = match index.remove(&c) {
        Some(v) => v,
        None => Vec::new(),
    };
    let ghost before = places@;
    places.push(i);
    proof {
        assert forall|x: int| #[trigger] tells(places@, x) == (tells(before, x) || x == i) by {
            lemma_tells_push(before, i, x);
        }
        assert(!tells(before, i as int)) by {
            if tells(before, i as int) {
                assert(told_of(old(index)@, c, i as int));
            }
        }
        assert(places@.no_duplicates()) by {
            assert forall|a: int, b: int| 0 <= a < b < places@.len() implies places@[a] != places@[b] by {
                if b == before.len() && places@[a] == i {
                    assert(before[a] == i as int);
                }
            }
        }
    }
    index.insert(c, places);
    proof {
        assert forall|d: u64, x: int| #[trigger] told_of(index@, d, x) == (told_of(old(index)@, d, x) || d == c && x
            == i) by {
            if d == c {
                assert(index@[d]@ == places@);
                assert(tells(places@, x) == (tells(before, x) || x == i));
                assert(told_of(old(index)@, c, x) == tells(before, x));
            }
        }
    }
}

/// Takes a place from those of a number.
fn forget_place(index: &mut HashMap<u64, Vec<usize>>, c: u64, i: usize)
    requires
        forall|d: u64| #[trigger] old(index)@.contains_key(d) ==> old(index)@[d]@.no_duplicates(),
    ensures
        forall|d: u64| #[trigger] final(index)@.contains_key(d) ==> final(index)@[d]@.no_duplicates(),
        forall|d: u64, x: int| #[trigger]
            told_of(final(index)@, d, x) == (told_of(old(index)@, d, x) && !(d == c && x == i)),
{
    match index.remove(&c) {
        Some(v) => {
            let left = without_place(&v, i);
            if left.len() > 0 {
                index.insert(c, left);
            }
            proof {
                assert forall|d: u64, x: int| #[trigger] told_of(index@, d, x) == (told_of(old(index)@, d, x) && !(d
                    == c && x == i)) by {
                    if d == c {
                        assert(tells(left@, x) == (tells(v@, x) && x != i));
                    }
                }
            }
        },
        None => {},
    }
}

impl<K: Key, V> View for Table<K, V> {
    type V = Map<<K as View>::V, V>;

    closed spec fn view(&self) -> Map<<K as View>::V, V> {
        as_map(self.entries@)
    }
}

impl<K: Key, V> Table<K, V> {
    /// No key occurs twice, and each is found by its number.
    pub closed spec fn wf(self) -> bool {
        distinct(self.entries@) && indexed(self.entries@, self.index@)
    }

    /// The number of entries.
    pub closed spec fn size(self) -> nat {
        self.entries@.len()
    }

    /// The key of the entry at `i`.
    pub closed spec fn key(self, i: int) -> K::V {
        self.entries@[i].0@
    }

    /// Every key has one index, and every index has a key.
    pub proof fn lemma_keys(self)
        requires
            self.wf(),
        ensures
            self@.dom().finite(),
            self@.dom().len() == self.size(),
            forall|i: int| 0 <= i < self.size() ==> self@.contains_key(#[trigger] self.key(i)),
            forall|i: int, j: int| 0 <= i < j < self.size() ==> #[trigger] self.key(i) != #[trigger] self.key(j),
            forall|k: K::V| #[trigger] self@.contains_key(k) ==> exists|i: int| 0 <= i < self.size() && #[trigger] self.key(i) == k,
    {
        let s = self.entries@;
        assert forall|i: int| 0 <= i < self.size() implies self@.contains_key(#[trigger] self.key(i)) by {
            lemma_at(s, i);
        }
        assert forall|i: int, j: int| 0 <= i < j < self.size() implies #[trigger] self.key(i) != #[trigger] self.key(
            j,
        ) by {
            assert(s[i].0@ != s[j].0@);
        }
        assert forall|k: K::V| #[trigger] self@.contains_key(k) implies exists|i: int|
            0 <= i < self.size() && #[trigger] self.key(i) == k by {
            let i = place(s, k);
            assert(self.key(i) == k);
        }
        let ks = Seq::new(s.len(), |i: int| self.key(i));
        assert(ks.no_duplicates()) by {
            assert forall|i: int, j: int| 0 <= i < ks.len() && 0 <= j < ks.len() && i != j implies ks[i] != ks[j] by {
                if i < j {
                    assert(self.key(i) != self.key(j));
                } else {
                    assert(self.key(j) != self.key(i));
                }
            }
        }
        assert(ks.to_set() =~= self@.dom()) by {
            assert forall|k: K::V| self@.dom().contains(k) implies #[trigger] ks.to_set().contains(k) by {
                let i = choose|i: int| 0 <= i < self.size() && #[trigger] self.key(i) == k;
                assert(ks[i] == k);
            }
        }
        ks.unique_seq_to_set();
        vstd::seq_lib::seq_to_set_is_finite(ks);
    }

    pub fn new() -> (r: Self)
        ensures
            r.wf(),
            r@ == Map::<K::V, V>::empty(),
            r.size() == 0,
    {
        let r = Table { entries: Vec::new(), index: HashMap::new() };
        assert(r@ =~= Map::<K::V, V>::empty());
        r
    }

    pub fn len(&self) -> (r: usize)
        ensures
            r == self.size(),
    {
        self.entries.len()
    }

    pub fn key_at(&self, i: usize) -> (r: &K)
        requires
            i < self.size(),
        ensures
            r@ == self.key(i as int),
    {
        &self.entries[i].0
    }

    pub fn value_at(&self, i: usize) -> (r: &V)
        requires
            self.wf(),
            i < self.size(),
        ensures
            self@.contains_key(self.key(i as int)),
            *r == self@[self.key(i as int)],
    {
        proof {
            lemma_at(self.entries@, i as int);
        }
        &self.entries[i].1
    }

    fn find(&self, k: &K) -> (r: Option<usize>)
        requires
            self.wf(),
        ensures
            match r {
                Some(i) => i < self.entries@.len() && self.entries@[i as int].0@ == k@,
                None => !listed_key(self.entries@, k@),
            },
    {
        let c: u64 = k.to_code();
        let places: &Vec<usize> = match self.index.get(&c) {
            Some(v) => v,
            None => {
                proof {
                    if listed_key(self.entries@, k@) {
                        let i = place(self.entries@, k@);
                        assert(self.index@.contains_key(K::code(self.entries@[i].0@)));
                    }
                }
                return None;
            },
        };
        let mut n: usize = 0;
        while n < places.len()
            invariant
                n <= places@.len(),
                places_ok(self.entries@, c, places@),
                forall|x: int| 0 <= x < n ==> self.entries@[(#[trigger] places@[x]) as int].0@ != k@,
            decreases places@.len() - n,
        {
            let i: usize = places[n];
            if self.entries[i].0.same_key(k) {
                return Some(i);
            }
            n = n + 1;
        }
        proof {
            if listed_key(self.entries@, k@) {
                let i = place(self.entries@, k@);
                assert(tells(self.index@[K::code(self.entries@[i].0@)]@, i));
                let x = choose|x: int| 0 <= x < places@.len() && #[trigger] places@[x] == i;
            }
        }
        None
    }

    /// Takes out the entry at a place. The last one takes its place.
    fn take_out(&mut self, i: usize) -> (r: (K, V))
        requires
            old(self).wf(),
            i < old(self).entries@.len(),
        ensures
            final(self).wf(),
            final(self).entries@ == taken_out(old(self).entries@, i as int),
            r == old(self).entries@[i as int],
            final(self)@ == old(self)@.remove(r.0@),
    {
        let n: usize = self.entries.len();
        let last: usize = n - 1;
        let ghost s = self.entries@;
        let c: u64 = self.entries[i].0.to_code();
        let d: u64 = self.entries[last].0.to_code();
        proof {
            lemma_told(s, self.index@);
            lemma_remove(s, i as int);
        }
        forget_place(&mut self.index, c, i);
        if i != last {
            forget_place(&mut self.index, d, last);
            tell_place(&mut self.index, d, i);
        }
        let r = self.entries.swap_remove(i);
        proof {
            let t = taken_out(s, i as int);
            assert(self.entries@ =~= t);
            assert forall|e: u64, x: int| #[trigger] told_of(self.index@, e, x) == (0 <= x < t.len() && K::code(
                t[x].0@,
            ) == e) by {
                if 0 <= x < t.len() {
                    assert(t[x] == s[if x == i {
                        last as int
                    } else {
                        x
                    }]);
                }
            }
            lemma_indexed(t, self.index@);
        }
        r
    }

    pub fn get(&self, k: &K) -> (r: Option<&V>)
        requires
            self.wf(),
        ensures
            match r {
                Some(v) => self@.contains_key(k@) && *v == self@[k@],
                None => !self@.contains_key(k@),
            },
    {
        match self.find(k) {
            Some(i) => {
                proof {
                    lemma_at(self.entries@, i as int);
                }
                Some(&self.entries[i].1)
            },
            None => None,
        }
    }

    /// Puts a value under a key, in the place of the one that was there.
    pub fn insert(&mut self, k: K, v: V)
        requires
            old(self).wf(),
        ensures
            final(self).wf(),
            final(self)@ == old(self)@.insert(k@, v),
    {
        match self.find(&k) {
            Some(i) => {
                proof {
                    lemma_set(self.entries@, i as int, (k, v));
                    lemma_told(self.entries@, self.index@);
                    lemma_indexed(self.entries@.update(i as int, (k, v)), self.index@);
                }
                self.entries.set(i, (k, v));
            },
            None => {
                let n: usize = self.entries.len();
                let c: u64 = k.to_code();
                let ghost t = self.entries@.push((k, v));
                proof {
                    lemma_push(self.entries@, (k, v));
                    lemma_told(self.entries@, self.index@);
                }
                tell_place(&mut self.index, c, n);
                proof {
                    assert forall|e: u64, x: int| #[trigger] told_of(self.index@, e, x) == (0 <= x < t.len()
                        && K::code(t[x].0@) == e) by {}
                    lemma_indexed(t, self.index@);
                }
                self.entries.push((k, v));
            },
        }
    }

    /// Takes out the last entry.
    pub fn pop(&mut self) -> (r: (K, V))
        requires
            old(self).wf(),
            old(self).size() > 0,
        ensures
            final(self).wf(),
            final(self).size() == old(self).size() - 1,
            old(self)@.contains_key(r.0@),
            r.1 == old(self)@[r.0@],
            final(self)@ == old(self)@.remove(r.0@),
    {
        let n: usize = self.entries.len();
        proof {
            lemma_at(self.entries@, n - 1);
        }
        self.take_out(n - 1)
    }

    /// Takes out what is under a key.
    pub fn remove(&mut self, k: &K) -> (r: Option<V>)
        requires
            old(self).wf(),
        ensures
            final(self).wf(),
            final(self)@ == old(self)@.remove(k@),
            match r {
                Some(v) => old(self)@.contains_key(k@) && v == old(self)@[k@],
                None => !old(self)@.contains_key(k@),
            },
    {
        match self.find(k) {
            Some(i) => {
                proof {
                    lemma_at(self.entries@, i as int);
                }
                let (_, v) = self.take_out(i);
                Some(v)
            },
            None => {
                assert(self@.remove(k@) =~= self@);
                None
            },
        }
    }
}

} // verus!
