//! Walks over all prefixes of a store, in chunks: between two chunks nothing
//! of the store is held.
use vstd::prelude::*;

use crate::store::{
    distinct_keys, has_key, listed, PrefixRecord, Record, RecordView, RouteStore, Stored, StoreView,
};
use crate::types::{IngressId, Prefix, PrefixKey, RouteStatus};

verus! {

/// The number of prefixes whose records are fetched at once.
pub const DUMP_KEY_CHUNK: usize = 512;

/// A record as a dump shows it: not withdrawn, nor its ingress, and with
/// something to tell.
pub open spec fn current<M: Stored>(s: StoreView<M::V>, p: PrefixKey, m: IngressId) -> Option<RecordView<M::V>> {
    match s.shown(p, m, false, true) {
        Some(r) => if !(r.status is Withdrawn) && M::tells(r.meta) {
            Some(r)
        } else {
            None
        },
        None => None,
    }
}

/// Whether `v` holds each record of `p` that a dump shows, once, in any
/// order.
pub open spec fn current_listed<M: Stored>(s: StoreView<M::V>, p: PrefixKey, v: Seq<Record<M>>) -> bool {
    &&& forall|i: int| 0 <= i < v.len() ==> current::<M>(s, p, (#[trigger] v[i]).multi_uniq_id) == Some(v[i]@)
    &&& forall|i: int, j: int|
        0 <= i < j < v.len() ==> (#[trigger] v[i]).multi_uniq_id != (#[trigger] v[j]).multi_uniq_id
    &&& forall|m: IngressId|
        (#[trigger] current::<M>(s, p, m)) is Some ==> exists|i: int|
            0 <= i < v.len() && (#[trigger] v[i]).multi_uniq_id == m
}

/// Whether `v` holds each prefix of `keys` of which a dump shows a record,
/// once, with all such records.
pub open spec fn dumped<M: Stored>(s: StoreView<M::V>, keys: Seq<Prefix>, v: Seq<PrefixRecord<M>>) -> bool {
    &&& forall|i: int|
        0 <= i < v.len() ==> {
            &&& (#[trigger] v[i]).prefix.wf()
            &&& has_key(keys, v[i].prefix@)
            &&& v[i].meta@.len() > 0
            &&& current_listed::<M>(s, v[i].prefix@, v[i].meta@)
        }
    &&& forall|i: int, j: int| 0 <= i < j < v.len() ==> (#[trigger] v[i]).prefix@ != (#[trigger] v[j]).prefix@
    &&& forall|p: PrefixKey, m: IngressId|
        has_key(keys, p) && (#[trigger] current::<M>(s, p, m)) is Some ==> exists|i: int|
            0 <= i < v.len() && (#[trigger] v[i]).prefix@ == p
}

/// The records of a prefix that a dump shows.
pub fn current_records<M: Stored>(store: &RouteStore<M>, prefix: &Prefix) -> (r: Vec<Record<M>>)
    requires
        store.wf(),
        prefix.wf(),
    ensures
        current_listed::<M>(store@, prefix@, r@),
{
    let ghost s = store@;
    let ghost p = prefix@;
    let mut rest = store.get_records_for_prefix(prefix, None, true);
    let ghost all = rest@;
    let mut out: Vec<Record<M>> = Vec::new();
    let ghost mut from: Seq<int> = Seq::empty();
    let ghost mut to: Seq<int> = Seq::new(all.len(), |i: int| 0int);
    while rest.len() > 0
        invariant
            s == store@,
            p == prefix@,
            listed(s, p, None, true, all),
            rest@.len() <= all.len(),
            rest@ == all.take(rest@.len() as int),
            from.len() == out@.len(),
            to.len() == all.len(),
            forall|j: int| 0 <= j < out@.len() ==> rest@.len() <= #[trigger] from[j] < all.len() && all[from[j]] == out@[j],
            forall|j: int, l: int| 0 <= j < l < out@.len() ==> #[trigger] from[j] > #[trigger] from[l],
            forall|j: int|
                0 <= j < out@.len() ==> current::<M>(s, p, (#[trigger] out@[j]).multi_uniq_id) == Some(out@[j]@),
            forall|k: int|
                rest@.len() <= k < all.len() && current::<M>(s, p, all[k].multi_uniq_id) is Some ==> 0 <= #[trigger] to[k]
                    < out@.len() && out@[to[k]] == all[k],
        decreases rest@.len(),
    {
        let ghost n = rest@.len() - 1;
        match rest.pop() {
            Some(rec) => {
                assert(rec == all[n]);
                assert(s.shown(p, rec.multi_uniq_id, false, true) == Some(rec@));
                if rec.status != RouteStatus::Withdrawn && rec.meta.tells_something() {
                    proof {
                        to = to.update(n, out@.len() as int);
                        from = from.push(n);
                    }
                    out.push(rec);
                }
            },
            None => {},
        }
        assert(rest@ =~= all.take(n));
    }
    proof {
        assert forall|j: int, l: int| 0 <= j < l < out@.len() implies (#[trigger] out@[j]).multi_uniq_id != (
        #[trigger] out@[l]).multi_uniq_id by {
            assert(from[j] > from[l]);
            assert(all[from[l]].multi_uniq_id != all[from[j]].multi_uniq_id);
        }
        assert forall|m: IngressId| (#[trigger] current::<M>(s, p, m)) is Some implies exists|i: int|
            0 <= i < out@.len() && (#[trigger] out@[i]).multi_uniq_id == m by {
            assert(s.shown(p, m, false, true) is Some);
            let k = choose|k: int| 0 <= k < all.len() && (#[trigger] all[k]).multi_uniq_id == m;
            assert(out@[to[k]].multi_uniq_id == m);
        }
    }
    out
}

/// A walk over the prefixes that a store had when it began.
#[derive(Debug)]
pub struct DumpCursor {
    pub keys: Vec<Prefix>,
    pub next: usize,
}

/// Whether a prefix is of a family, if one is meant.
pub open spec fn in_family(family: Option<bool>, p: PrefixKey) -> bool {
    match family {
        Some(v4) => p.0 == v4,
        None => true,
    }
}

impl DumpCursor {
    /// No prefix occurs twice, and the walk is within them.
    pub open spec fn wf(self) -> bool {
        distinct_keys(self.keys@) && self.next <= self.keys@.len()
    }

    pub fn done(&self) -> (r: bool)
        ensures
            r == (self.next >= self.keys@.len()),
    {
        self.next >= self.keys.len()
    }

    /// Begins a walk over the prefixes of a store, of one family or of both.
    pub fn new<M: Stored>(store: &RouteStore<M>, family: Option<bool>) -> (r: Self)
        requires
            store.wf(),
        ensures
            r.wf(),
            r.next == 0,
            forall|p: PrefixKey| #[trigger]
                has_key(r.keys@, p) == (store@.has_prefix(p) && in_family(family, p)),
    {
        let all = store.prefixes();
        let mut keys: Vec<Prefix> = Vec::new();
        let ghost mut from: Seq<int> = Seq::empty();
        let ghost mut to: Seq<int> = Seq::empty();
        let mut i: usize = 0;
        while i < all.len()
            invariant
                i <= all@.len(),
                distinct_keys(all@),
                from.len() == keys@.len(),
                to.len() == i,
                forall|j: int|
                    0 <= j < keys@.len() ==> 0 <= #[trigger] from[j] < i && all@[from[j]] == keys@[j] && in_family(
                        family,
                        keys@[j]@,
                    ),
                forall|j: int, l: int| 0 <= j < l < keys@.len() ==> #[trigger] from[j] < #[trigger] from[l],
                forall|k: int|
                    0 <= k < i && in_family(family, all@[k]@) ==> 0 <= #[trigger] to[k] < keys@.len()
                        && keys@[to[k]] == all@[k],
            decreases all@.len() - i,
        {
            let key = all[i];
            let meant = match family {
                Some(v4) => key.is_v4() == v4,
                None => true,
            };
            assert(meant == in_family(family, key@));
            proof {
                to = to.push(keys@.len() as int);
            }
            if meant {
                proof {
                    from = from.push(i as int);
                }
                keys.push(key);
            }
            i = i + 1;
        }
        proof {
            assert forall|j: int| 0 <= j < keys@.len() implies (#[trigger] keys@[j]).wf() by {
                assert(all@[from[j]] == keys@[j]);
            }
            assert forall|j: int, l: int| 0 <= j < l < keys@.len() implies (#[trigger] keys@[j])@ != (
            #[trigger] keys@[l])@ by {
                assert(from[j] < from[l]);
                assert(all@[from[j]]@ != all@[from[l]]@);
            }
            assert forall|p: PrefixKey| #[trigger] has_key(keys@, p) == (has_key(all@, p) && in_family(family, p)) by {
                if has_key(keys@, p) {
                    let j = choose|j: int| 0 <= j < keys@.len() && (#[trigger] keys@[j])@ == p;
                    assert(all@[from[j]]@ == p);
                }
                if has_key(all@, p) && in_family(family, p) {
                    let k = choose|k: int| 0 <= k < all@.len() && (#[trigger] all@[k])@ == p;
                    assert(keys@[to[k]]@ == p);
                }
            }
        }
        DumpCursor { keys, next: 0 }
    }

    /// Where the next chunk ends.
    pub open spec fn chunk_end(self) -> int {
        if self.keys@.len() - self.next <= DUMP_KEY_CHUNK {
            self.keys@.len() as int
        } else {
            self.next + DUMP_KEY_CHUNK
        }
    }

    /// Where the next chunk ends.
    pub fn end(&self) -> (r: usize)
        requires
            self.wf(),
        ensures
            r == self.chunk_end(),
            self.next <= r <= self.keys@.len(),
            !(self.next >= self.keys@.len()) ==> self.next < r,
    {
        if self.keys.len() - self.next <= DUMP_KEY_CHUNK {
            self.keys.len()
        } else {
            self.next + DUMP_KEY_CHUNK
        }
    }

    /// Fetches the records of the next chunk of prefixes.
    pub fn next_chunk<M: Stored>(&mut self, store: &RouteStore<M>) -> (r: Vec<PrefixRecord<M>>)
        requires
            old(self).wf(),
            store.wf(),
        ensures
            final(self).wf(),
            final(self).keys@ == old(self).keys@,
            final(self).next == old(self).chunk_end(),
            dumped::<M>(store@, old(self).keys@.subrange(old(self).next as int, old(self).chunk_end()), r@),
    {
        let ghost s = store@;
        let start: usize = self.next;
        let end: usize = self.end();
        let ghost part = self.keys@.subrange(start as int, end as int);
        let mut out: Vec<PrefixRecord<M>> = Vec::new();
        let ghost mut from: Seq<int> = Seq::empty();
        let mut i: usize = start;
        while i < end
            invariant
                start <= i <= end <= self.keys@.len(),
                *self == *old(self),
                self.wf(),
                store.wf(),
                s == store@,
                part == self.keys@.subrange(start as int, end as int),
                from.len() == out@.len(),
                forall|j: int|
                    0 <= j < out@.len() ==> start <= #[trigger] from[j] < i && self.keys@[from[j]] == out@[j].prefix,
                forall|j: int, l: int| 0 <= j < l < out@.len() ==> #[trigger] from[j] < #[trigger] from[l],
                forall|j: int|
                    0 <= j < out@.len() ==> {
                        &&& (#[trigger] out@[j]).prefix.wf()
                        &&& out@[j].meta@.len() > 0
                        &&& current_listed::<M>(s, out@[j].prefix@, out@[j].meta@)
                    },
                forall|k: int, m: IngressId|
                    start <= k < i && (#[trigger] current::<M>(s, (#[trigger] self.keys@[k])@, m)) is Some ==> in_dump(
                        out@,
                        self.keys@[k]@,
                    ),
            decreases end - i,
        {
            let key = self.keys[i];
            let ghost before = out@;
            let meta = current_records(store, &key);
            if meta.len() > 0 {
                proof {
                    from = from.push(i as int);
                }
                out.push(PrefixRecord { prefix: key, meta });
                assert(out@[before.len() as int].prefix@ == key@);
                assert(in_dump(out@, key@));
            }
            proof {
                assert forall|k: int, m: IngressId|
                    start <= k < i + 1 && (#[trigger] current::<M>(s, (#[trigger] self.keys@[k])@, m)) is Some implies in_dump(
                    out@,
                    self.keys@[k]@,
                ) by {
                    if k < i {
                        assert(in_dump(before, self.keys@[k]@));
                        let j = choose|j: int| 0 <= j < before.len() && (#[trigger] before[j]).prefix@ == self.keys@[k]@;
                        assert(out@[j].prefix@ == self.keys@[k]@);
                    }
                }
            }
            i = i + 1;
        }
        proof {
            assert forall|j: int| 0 <= j < out@.len() implies has_key(part, (#[trigger] out@[j]).prefix@) by {
                assert(part[from[j] - start] == out@[j].prefix);
            }
            assert forall|j: int, l: int| 0 <= j < l < out@.len() implies (#[trigger] out@[j]).prefix@ != (
            #[trigger] out@[l]).prefix@ by {
                assert(from[j] < from[l]);
                assert(self.keys@[from[j]]@ != self.keys@[from[l]]@);
            }
            assert forall|p: PrefixKey, m: IngressId| has_key(part, p) && (#[trigger] current::<M>(s, p, m)) is Some implies exists|
                i: int,
            | 0 <= i < out@.len() && (#[trigger] out@[i]).prefix@ == p by {
                let k = choose|k: int| 0 <= k < part.len() && (#[trigger] part[k])@ == p;
                assert(self.keys@[start + k]@ == p);
                assert(in_dump(out@, p));
            }
        }
        self.next = end;
        out
    }
}

/// Whether a dump has a prefix.
pub open spec fn in_dump<M>(v: Seq<PrefixRecord<M>>, p: PrefixKey) -> bool {
    exists|i: int| 0 <= i < v.len() && (#[trigger] v[i]).prefix@ == p
}

/// Two chunks of a walk make up the dump of the prefixes of both: nothing is
/// lost between them and nothing comes twice.
pub proof fn chunks_add_up<M: Stored>(
    s: StoreView<M::V>,
    a: Seq<Prefix>,
    b: Seq<Prefix>,
    v: Seq<PrefixRecord<M>>,
    w: Seq<PrefixRecord<M>>,
)
    requires
        dumped::<M>(s, a, v),
        dumped::<M>(s, b, w),
        distinct_keys(a + b),
    ensures
        dumped::<M>(s, a + b, v + w),
{
    let t = v + w;
    let keys = a + b;
    assert forall|p: PrefixKey| #[trigger] has_key(keys, p) == (has_key(a, p) || has_key(b, p)) by {
        if has_key(a, p) {
            let i = choose|i: int| 0 <= i < a.len() && (#[trigger] a[i])@ == p;
            assert(keys[i]@ == p);
        }
        if has_key(b, p) {
            let i = choose|i: int| 0 <= i < b.len() && (#[trigger] b[i])@ == p;
            assert(keys[a.len() + i]@ == p);
        }
        if has_key(keys, p) {
            let i = choose|i: int| 0 <= i < keys.len() && (#[trigger] keys[i])@ == p;
            if i < a.len() {
                assert(a[i]@ == p);
            } else {
                assert(b[i - a.len()]@ == p);
            }
        }
    }
    assert forall|i: int| 0 <= i < t.len() implies {
        &&& (#[trigger] t[i]).prefix.wf()
        &&& has_key(keys, t[i].prefix@)
        &&& t[i].meta@.len() > 0
        &&& current_listed::<M>(s, t[i].prefix@, t[i].meta@)
    } by {
        if i < v.len() {
            assert(t[i] == v[i]);
        } else {
            assert(t[i] == w[i - v.len()]);
        }
    }
    assert forall|i: int, j: int| 0 <= i < j < t.len() implies (#[trigger] t[i]).prefix@ != (#[trigger] t[j]).prefix@ by {
        if i < v.len() && j >= v.len() {
            let x = choose|x: int| 0 <= x < a.len() && (#[trigger] a[x])@ == v[i].prefix@;
            let y = choose|y: int| 0 <= y < b.len() && (#[trigger] b[y])@ == w[j - v.len()].prefix@;
            assert(has_key(a, v[i].prefix@));
            assert(has_key(b, w[j - v.len()].prefix@));
            assert(keys[x]@ != keys[a.len() + y]@);
        } else if j < v.len() {
            assert(v[i].prefix@ != v[j].prefix@);
        } else {
            assert(w[i - v.len()].prefix@ != w[j - v.len()].prefix@);
        }
    }
    assert forall|p: PrefixKey, m: IngressId| has_key(keys, p) && (#[trigger] current::<M>(s, p, m)) is Some implies exists|
        i: int,
    | 0 <= i < t.len() && (#[trigger] t[i]).prefix@ == p by {
        if has_key(a, p) {
            let i = choose|i: int| 0 <= i < v.len() && (#[trigger] v[i]).prefix@ == p;
            assert(t[i].prefix@ == p);
        } else {
            let i = choose|i: int| 0 <= i < w.len() && (#[trigger] w[i]).prefix@ == p;
            assert(t[v.len() + i].prefix@ == p);
        }
    }
}

} // verus!
