//! How much the tables hold, and which ingresses it comes from.
use std::collections::HashMap;

use vstd::prelude::*;
use vstd::std_specs::hash::*;

use crate::flowspec::{rule_octets, FlowSpecRuleSet, RuleView};
use crate::pamap::RotondaPaMap;
use crate::register::RegisterSummary;
use crate::rib::Rib;
use crate::rib_query::{counts, told_number, StoreCounts};
use crate::store::{distinct_keys, has_key, listed, Record, RouteStore, StoreView};
use crate::types::{IngressId, Prefix, PrefixKey, RouteStatus};

verus! {

broadcast use vstd::std_specs::hash::group_hash_axioms;

/// A record, by its prefix and its ingress.
pub type SlotKey = (PrefixKey, IngressId);

/// Whether a list holds each record of a store once.
pub open spec fn walks<T>(s: StoreView<T>, keys: Seq<SlotKey>) -> bool {
    keys.no_duplicates() && forall|k: SlotKey| #[trigger] keys.contains(k) == s.records.contains_key(k)
}

/// Whether a record is in use: neither it nor its ingress is withdrawn.
pub open spec fn in_use<T>(s: StoreView<T>, k: SlotKey) -> bool {
    s.shown(k.0, k.1, false, true) matches Some(r) && !(r.status is Withdrawn)
}

/// The number of records that are in use.
pub open spec fn count_used<T>(s: StoreView<T>, keys: Seq<SlotKey>) -> nat
    decreases keys.len(),
{
    if keys.len() == 0 {
        0
    } else {
        count_used(s, keys.drop_last()) + if in_use(s, keys.last()) {
            1nat
        } else {
            0
        }
    }
}

/// The number of records of an ingress.
pub open spec fn count_of(keys: Seq<SlotKey>, m: IngressId) -> nat
    decreases keys.len(),
{
    if keys.len() == 0 {
        0
    } else {
        count_of(keys.drop_last(), m) + if keys.last().1 == m {
            1nat
        } else {
            0
        }
    }
}

/// The number of rules in some records.
pub open spec fn count_rules(s: StoreView<Seq<RuleView>>, keys: Seq<SlotKey>) -> nat
    decreases keys.len(),
{
    if keys.len() == 0 {
        0
    } else {
        count_rules(s, keys.drop_last()) + s.records[keys.last()].meta.len()
    }
}

/// The octets of the rules in some records.
pub open spec fn count_octets(s: StoreView<Seq<RuleView>>, keys: Seq<SlotKey>) -> nat
    decreases keys.len(),
{
    if keys.len() == 0 {
        0
    } else {
        count_octets(s, keys.drop_last()) + rule_octets(s.records[keys.last()].meta)
    }
}

/// Whether rows tell the number of records of each ingress that has any.
pub open spec fn tells_shares(keys: Seq<SlotKey>, rows: Seq<(IngressId, usize)>) -> bool {
    &&& forall|i: int| 0 <= i < rows.len() ==> (#[trigger] rows[i]).1 == told_number(count_of(keys, rows[i].0))
    &&& forall|i: int, j: int| 0 <= i < j < rows.len() ==> (#[trigger] rows[i]).0 != (#[trigger] rows[j]).0
    &&& forall|i: int| 0 <= i < rows.len() ==> count_of(keys, (#[trigger] rows[i]).0) > 0
    &&& forall|m: IngressId|
        #[trigger] count_of(keys, m) > 0 ==> exists|i: int| 0 <= i < rows.len() && (#[trigger] rows[i]).0 == m
}

/// The number of rows with more than a number of records.
pub open spec fn count_over(rows: Seq<(IngressId, usize)>, n: usize) -> nat
    decreases rows.len(),
{
    if rows.len() == 0 {
        0
    } else {
        count_over(rows.drop_last(), n) + if rows.last().1 > n {
            1nat
        } else {
            0
        }
    }
}

/// The number of ingresses that are told one by one.
pub const TOP_SHARES: usize = 10;

/// Whether the rows with the most records come first, in order, and as many
/// of them as are told.
pub open spec fn ranks(rows: Seq<(IngressId, usize)>, top: Seq<(IngressId, usize)>) -> bool {
    &&& forall|i: int, j: int| 0 <= i < j < top.len() ==> (#[trigger] top[i]).1 >= (#[trigger] top[j]).1
    &&& exists|rest: Seq<(IngressId, usize)>| #[trigger]
        (top + rest).to_multiset() == rows.to_multiset() && (top.len() == TOP_SHARES || (top.len() < TOP_SHARES
            && rest.len() == 0)) && forall|i: int, j: int|
            0 <= i < top.len() && 0 <= j < rest.len() ==> (#[trigger] top[i]).1 >= (#[trigger] rest[j]).1
}

/// How the routes of a store are split up.
#[derive(Debug)]
pub struct RouteSplit {
    pub active: usize,
    pub withdrawn: usize,
    /// The number of ingresses that have routes.
    pub store_muis: usize,
    /// The most routes that an ingress has.
    pub max: usize,
    pub over_1m: usize,
    pub over_100k: usize,
    /// The ingresses with the most routes.
    pub top: Vec<(IngressId, usize)>,
}

/// Whether routes are split up like this.
pub open spec fn splits<T>(s: StoreView<T>, r: RouteSplit) -> bool {
    exists|keys: Seq<SlotKey>, rows: Seq<(IngressId, usize)>| #[trigger]
        walks(s, keys) && #[trigger] tells_shares(keys, rows) && {
            &&& r.active == told_number(count_used(s, keys))
            &&& r.withdrawn == told_number((keys.len() - count_used(s, keys)) as nat)
            &&& r.store_muis == rows.len()
            &&& ranks(rows, r.top@)
            &&& r.max == (if r.top@.len() > 0 {
                r.top@[0].1
            } else {
                0
            })
            &&& r.over_1m == count_over(rows, 1_000_000)
            &&& r.over_100k == count_over(rows, 100_000)
        }
}

/// How many rules there are, and how much room they take.
#[derive(Debug)]
pub struct RuleSplit {
    pub rules: usize,
    pub bytes: usize,
    pub store_muis: usize,
}

/// Whether there are as many rules.
pub open spec fn rules_split(s: StoreView<Seq<RuleView>>, r: RuleSplit) -> bool {
    exists|keys: Seq<SlotKey>, rows: Seq<(IngressId, usize)>| #[trigger]
        walks(s, keys) && #[trigger] tells_shares(keys, rows) && {
            &&& r.rules == told_number(count_rules(s, keys))
            &&& r.bytes == told_number(count_octets(s, keys))
            &&& r.store_muis == rows.len()
        }
}

/// The records of each ingress, counted up.
struct Shares {
    counts: HashMap<IngressId, usize>,
    muis: Vec<IngressId>,
}

impl Shares {
    spec fn of(self, keys: Seq<SlotKey>) -> bool {
        &&& self.muis@.no_duplicates()
        &&& forall|i: int| 0 <= i < self.muis@.len() ==> self.counts@.contains_key(#[trigger] self.muis@[i])
        &&& forall|m: IngressId| #[trigger] self.counts@.contains_key(m) ==> self.muis@.contains(m)
        &&& forall|m: IngressId| #[trigger] self.counts@.contains_key(m) ==> self.counts@[m] == told_number(count_of(keys, m))
        &&& forall|m: IngressId| self.counts@.contains_key(m) == ((#[trigger] count_of(keys, m)) > 0)
    }

    fn new() -> (r: Self)
        ensures
            r.of(Seq::empty()),
    {
        Shares { counts: HashMap::new(), muis: Vec::new() }
    }

    /// Counts one record more.
    fn bump(&mut self, m: IngressId, Ghost(keys): Ghost<Seq<SlotKey>>, Ghost(p): Ghost<PrefixKey>)
        requires
            old(self).of(keys),
        ensures
            final(self).of(keys.push((p, m))),
    {
        let ghost more = keys.push((p, m));
        let ghost before = self.muis@;
        proof {
            assert(more.drop_last() =~= keys);
            assert forall|x: IngressId| #[trigger] count_of(more, x) == count_of(keys, x) + (if x == m {
                1nat
            } else {
                0
            }) by {}
        }
        let n: usize = match self.counts.get(&m) {
            Some(n) => *n,
            None => {
                assert(count_of(keys, m) == 0);
                0
            },
        };
        if !self.counts.contains_key(&m) {
            self.muis.push(m);
            proof {
                assert(self.muis@[before.len() as int] == m);
                assert forall|x: IngressId| before.contains(x) implies self.muis@.contains(x) by {
                    let i = choose|i: int| 0 <= i < before.len() && before[i] == x;
                    assert(self.muis@[i] == x);
                }
                assert forall|i: int| 0 <= i < before.len() implies before[i] != m by {
                    assert(old(self).counts@.contains_key(before[i]));
                }
            }
        }
        self.counts.insert(m, n.saturating_add(1));
        proof {
            assert forall|i: int| 0 <= i < self.muis@.len() implies self.counts@.contains_key(
                #[trigger] self.muis@[i],
            ) by {
                if i < before.len() {
                    assert(old(self).counts@.contains_key(before[i]));
                }
            }
        }
    }

    /// The records of each ingress.
    fn rows(&self, Ghost(keys): Ghost<Seq<SlotKey>>) -> (r: Vec<(IngressId, usize)>)
        requires
            self.of(keys),
        ensures
            tells_shares(keys, r@),
    {
        let mut out: Vec<(IngressId, usize)> = Vec::new();
        let mut i: usize = 0;
        while i < self.muis.len()
            invariant
                i <= self.muis@.len(),
                self.of(keys),
                out@.len() == i,
                forall|j: int|
                    0 <= j < i ==> (#[trigger] out@[j]).0 == self.muis@[j] && out@[j].1 == told_number(
                        count_of(keys, out@[j].0),
                    ),
            decreases self.muis@.len() - i,
        {
            let m: IngressId = self.muis[i];
            assert(self.counts@.contains_key(self.muis@[i as int]));
            let n: usize = match self.counts.get(&m) {
                Some(n) => *n,
                None => 0,
            };
            out.push((m, n));
            i = i + 1;
        }
        proof {
            assert forall|i: int| 0 <= i < out@.len() implies count_of(keys, (#[trigger] out@[i]).0) > 0 by {
                assert(self.counts@.contains_key(self.muis@[i]));
            }
            assert forall|m: IngressId| #[trigger] count_of(keys, m) > 0 implies exists|i: int|
                0 <= i < out@.len() && (#[trigger] out@[i]).0 == m by {
                assert(self.counts@.contains_key(m));
                let i = choose|i: int| 0 <= i < self.muis@.len() && self.muis@[i] == m;
                assert(out@[i].0 == m);
            }
        }
        out
    }
}

/// The records of a prefix, as keys.
spec fn keys_of<M>(p: PrefixKey, recs: Seq<Record<M>>) -> Seq<SlotKey> {
    Seq::new(recs.len(), |j: int| (p, recs[j].multi_uniq_id))
}

/// Whether a list holds each record of the first prefixes once.
spec fn walked<T>(s: StoreView<T>, ps: Seq<Prefix>, n: int, keys: Seq<SlotKey>) -> bool {
    &&& keys.no_duplicates()
    &&& forall|k: SlotKey| #[trigger]
        keys.contains(k) == (s.records.contains_key(k) && has_key(ps.take(n), k.0))
}

proof fn lemma_walked<M: View>(
    s: StoreView<M::V>,
    ps: Seq<Prefix>,
    n: int,
    keys: Seq<SlotKey>,
    recs: Seq<Record<M>>,
)
    requires
        0 <= n < ps.len(),
        distinct_keys(ps),
        walked(s, ps, n, keys),
        listed(s, ps[n]@, None, true, recs),
    ensures
        walked(s, ps, n + 1, keys + keys_of(ps[n]@, recs)),
        forall|j: int| 0 <= j < recs.len() ==> s.records.contains_key(#[trigger] keys_of(ps[n]@, recs)[j]),
{
    let p = ps[n]@;
    let new = keys_of(p, recs);
    let all = keys + new;
    assert forall|j: int| 0 <= j < recs.len() implies s.records.contains_key(#[trigger] new[j]) by {
        assert(s.shown(p, recs[j].multi_uniq_id, false, true) == Some(recs[j]@));
    }
    assert(!has_key(ps.take(n), p)) by {
        if has_key(ps.take(n), p) {
            let i = choose|i: int| 0 <= i < ps.take(n).len() && (#[trigger] ps.take(n)[i])@ == p;
            assert(ps[i]@ == ps[n]@);
        }
    }
    assert forall|i: int, j: int| 0 <= i < all.len() && 0 <= j < all.len() && i != j implies all[i] != all[j] by {
        if i < keys.len() && j >= keys.len() {
            assert(keys.contains(all[i]));
        }
        if j < keys.len() && i >= keys.len() {
            assert(keys.contains(all[j]));
        }
        if i >= keys.len() && j >= keys.len() {
            let a = i - keys.len();
            let b = j - keys.len();
            if a < b {
                assert(recs[a].multi_uniq_id != recs[b].multi_uniq_id);
            } else {
                assert(recs[b].multi_uniq_id != recs[a].multi_uniq_id);
            }
        }
    }
    assert forall|k: SlotKey| #[trigger] all.contains(k) == (s.records.contains_key(k) && has_key(
        ps.take(n + 1),
        k.0,
    )) by {
        if all.contains(k) {
            let i = choose|i: int| 0 <= i < all.len() && all[i] == k;
            if i < keys.len() {
                assert(keys.contains(k));
                let a = choose|a: int| 0 <= a < ps.take(n).len() && (#[trigger] ps.take(n)[a])@ == k.0;
                assert(ps.take(n + 1)[a]@ == k.0);
            } else {
                assert(new[i - keys.len()] == k);
                assert(ps.take(n + 1)[n]@ == k.0);
            }
        }
        if s.records.contains_key(k) && has_key(ps.take(n + 1), k.0) {
            let a = choose|a: int| 0 <= a < ps.take(n + 1).len() && (#[trigger] ps.take(n + 1)[a])@ == k.0;
            if a < n {
                assert(ps.take(n)[a]@ == k.0);
                assert(keys.contains(k));
                let i = choose|i: int| 0 <= i < keys.len() && keys[i] == k;
                assert(all[i] == k);
            } else {
                assert(s.shown(p, k.1, false, true) is Some);
                let j = choose|j: int| 0 <= j < recs.len() && (#[trigger] recs[j]).multi_uniq_id == k.1;
                assert(all[keys.len() + j] == k);
            }
        }
    }
}

proof fn lemma_walked_all<T>(s: StoreView<T>, ps: Seq<Prefix>, keys: Seq<SlotKey>)
    requires
        walked(s, ps, ps.len() as int, keys),
        forall|p: PrefixKey| #[trigger] has_key(ps, p) == s.has_prefix(p),
    ensures
        walks(s, keys),
{
    assert(ps.take(ps.len() as int) =~= ps);
    assert forall|k: SlotKey| #[trigger] keys.contains(k) == s.records.contains_key(k) by {
        if s.records.contains_key(k) {
            assert(s.records.contains_key((k.0, k.1)));
            assert(s.has_prefix(k.0));
        }
    }
}

proof fn lemma_used_bound<T>(s: StoreView<T>, keys: Seq<SlotKey>)
    ensures
        count_used(s, keys) <= keys.len(),
    decreases keys.len(),
{
    if keys.len() > 0 {
        lemma_used_bound(s, keys.drop_last());
    }
}

/// Takes out the row with the most records.
fn take_greatest(rows: &mut Vec<(IngressId, usize)>) -> (r: (IngressId, usize))
    requires
        old(rows)@.len() > 0,
    ensures
        final(rows)@.push(r).to_multiset() == old(rows)@.to_multiset(),
        final(rows)@.len() == old(rows)@.len() - 1,
        forall|i: int| 0 <= i < final(rows)@.len() ==> r.1 >= (#[trigger] final(rows)@[i]).1,
        old(rows)@.contains(r),
        forall|i: int| 0 <= i < final(rows)@.len() ==> old(rows)@.contains(#[trigger] final(rows)@[i]),
{
    let ghost all = rows@;
    let mut best: usize = 0;
    let mut i: usize = 1;
    while i < rows.len()
        invariant
            1 <= i <= rows@.len(),
            best < i,
            rows@ == all,
            forall|j: int| 0 <= j < i ==> all[best as int].1 >= (#[trigger] all[j]).1,
        decreases rows@.len() - i,
    {
        if rows[i].1 > rows[best].1 {
            best = i;
        }
        i = i + 1;
    }
    let r = rows.remove(best);
    proof {
        let rest = all.remove(best as int);
        assert(rows@ =~= rest);
        let a = all.take(best as int);
        let b = all.skip(best + 1);
        assert(all =~= a + (seq![r] + b));
        assert(rest =~= a + b);
        broadcast use vstd::seq_lib::group_to_multiset_ensures;

        vstd::seq_lib::lemma_multiset_commutative(a, seq![r] + b);
        vstd::seq_lib::lemma_multiset_commutative(seq![r], b);
        vstd::seq_lib::lemma_multiset_commutative(a, b);
        assert(rest.push(r) =~= rest + seq![r]);
        vstd::seq_lib::lemma_multiset_commutative(rest, seq![r]);
        assert(rest.push(r).to_multiset() =~= all.to_multiset());
        assert forall|i: int| 0 <= i < rows@.len() implies r.1 >= (#[trigger] rows@[i]).1 && all.contains(rows@[i]) by {
            if i < best {
                assert(rows@[i] == all[i]);
            } else {
                assert(rows@[i] == all[i + 1]);
            }
        }
        assert(all[best as int] == r);
    }
    r
}

/// The rows with the most records.
fn rank(rows: Vec<(IngressId, usize)>) -> (r: Vec<(IngressId, usize)>)
    ensures
        ranks(rows@, r@),
{
    let ghost all = rows@;
    let mut rest = rows;
    let mut top: Vec<(IngressId, usize)> = Vec::new();
    assert((top@ + rest@) =~= rest@);
    while top.len() < TOP_SHARES && rest.len() > 0
        invariant
            top@.len() <= TOP_SHARES,
            (top@ + rest@).to_multiset() == all.to_multiset(),
            forall|i: int, j: int| 0 <= i < j < top@.len() ==> (#[trigger] top@[i]).1 >= (#[trigger] top@[j]).1,
            forall|i: int, j: int|
                0 <= i < top@.len() && 0 <= j < rest@.len() ==> (#[trigger] top@[i]).1 >= (#[trigger] rest@[j]).1,
        decreases rest@.len(),
    {
        let ghost t = top@;
        let ghost u = rest@;
        let row = take_greatest(&mut rest);
        top.push(row);
        proof {
            broadcast use vstd::seq_lib::group_to_multiset_ensures;

            let v = rest@;
            assert(top@ + v =~= t + (seq![row] + v));
            assert(v.push(row) =~= v + seq![row]);
            vstd::seq_lib::lemma_multiset_commutative(t, seq![row] + v);
            vstd::seq_lib::lemma_multiset_commutative(seq![row], v);
            vstd::seq_lib::lemma_multiset_commutative(v, seq![row]);
            vstd::seq_lib::lemma_multiset_commutative(t, u);
            assert((top@ + v).to_multiset() =~= all.to_multiset());
            let k = choose|k: int| 0 <= k < u.len() && u[k] == row;
            assert forall|i: int, j: int| 0 <= i < j < top@.len() implies (#[trigger] top@[i]).1 >= (
            #[trigger] top@[j]).1 by {
                if j == t.len() {
                    assert(t[i].1 >= u[k].1);
                }
            }
            assert forall|i: int, j: int| 0 <= i < top@.len() && 0 <= j < v.len() implies (#[trigger] top@[i]).1 >= (
            #[trigger] v[j]).1 by {
                if i < t.len() {
                    assert(u.contains(v[j]));
                    let l = choose|l: int| 0 <= l < u.len() && u[l] == v[j];
                    assert(t[i].1 >= u[l].1);
                }
            }
        }
    }
    proof {
        let left = rest@;
        assert((top@ + left).to_multiset() == all.to_multiset());
    }
    top
}

/// Counts the rows with more than a number of records.
fn over(rows: &Vec<(IngressId, usize)>, n: usize) -> (r: usize)
    ensures
        r == count_over(rows@, n),
{
    let mut c: usize = 0;
    let mut i: usize = 0;
    assert(rows@.take(0) =~= Seq::empty());
    while i < rows.len()
        invariant
            c <= i <= rows@.len(),
            c == count_over(rows@.take(i as int), n),
        decreases rows@.len() - i,
    {
        assert(rows@.take(i + 1).drop_last() =~= rows@.take(i as int));
        if rows[i].1 > n {
            c = c + 1;
        }
        i = i + 1;
    }
    assert(rows@.take(i as int) =~= rows@);
    c
}

/// Splits up the routes of a store.
fn split_routes(store: &RouteStore<RotondaPaMap>) -> (r: RouteSplit)
    requires
        store.wf(),
    ensures
        splits(store@, r),
{
    let ghost s = store@;
    let ps = store.prefixes();
    let ghost mut keys: Seq<SlotKey> = Seq::empty();
    let mut shares = Shares::new();
    let mut active: usize = 0;
    let mut withdrawn: usize = 0;
    let mut i: usize = 0;
    proof {
        assert(walked(s, ps@, 0, keys));
    }
    while i < ps.len()
        invariant
            i <= ps@.len(),
            store.wf(),
            s == store@,
            distinct_keys(ps@),
            walked(s, ps@, i as int, keys),
            shares.of(keys),
            active == told_number(count_used(s, keys)),
            withdrawn == told_number((keys.len() - count_used(s, keys)) as nat),
        decreases ps@.len() - i,
    {
        let recs = store.get_records_for_prefix(&ps[i], None, true);
        let ghost base = keys;
        let ghost new = keys_of(ps@[i as int]@, recs@);
        proof {
            lemma_walked(s, ps@, i as int, keys, recs@);
            assert(base + new.take(0) =~= base);
        }
        let mut j: usize = 0;
        while j < recs.len()
            invariant
                i < ps@.len(),
                j <= recs@.len(),
                s == store@,
                new == keys_of(ps@[i as int]@, recs@),
                listed(s, ps@[i as int]@, None, true, recs@),
                keys == base + new.take(j as int),
                shares.of(keys),
                active == told_number(count_used(s, keys)),
                withdrawn == told_number((keys.len() - count_used(s, keys)) as nat),
            decreases recs@.len() - j,
        {
            let m: IngressId = recs[j].multi_uniq_id;
            let ghost p = ps@[i as int]@;
            let ghost more = keys.push((p, m));
            proof {
                assert(s.shown(p, m, false, true) == Some(recs@[j as int]@));
                assert(more.drop_last() =~= keys);
                assert(more =~= base + new.take(j + 1));
                lemma_used_bound(s, keys);
            }
            shares.bump(m, Ghost(keys), Ghost(p));
            let gone = match recs[j].status {
                RouteStatus::Withdrawn => true,
                _ => false,
            };
            if gone {
                withdrawn = withdrawn.saturating_add(1);
            } else {
                active = active.saturating_add(1);
            }
            proof {
                keys = more;
            }
            j = j + 1;
        }
        assert(new.take(j as int) =~= new);
        i = i + 1;
    }
    let rows = shares.rows(Ghost(keys));
    let store_muis: usize = rows.len();
    let over_1m: usize = over(&rows, 1_000_000);
    let over_100k: usize = over(&rows, 100_000);
    let ghost list = rows@;
    let top = rank(rows);
    let max: usize = if top.len() > 0 {
        top[0].1
    } else {
        0
    };
    let r = RouteSplit { active, withdrawn, store_muis, max, over_1m, over_100k, top };
    proof {
        lemma_walked_all(s, ps@, keys);
        assert(walks(s, keys) && tells_shares(keys, list));
    }
    r
}

/// Counts the rules of a store.
fn split_rules(store: &RouteStore<FlowSpecRuleSet>) -> (r: RuleSplit)
    requires
        store.wf(),
    ensures
        rules_split(store@, r),
{
    let ghost s = store@;
    let ps = store.prefixes();
    let ghost mut keys: Seq<SlotKey> = Seq::empty();
    let mut shares = Shares::new();
    let mut rules: usize = 0;
    let mut bytes: usize = 0;
    let mut i: usize = 0;
    proof {
        assert(walked(s, ps@, 0, keys));
    }
    while i < ps.len()
        invariant
            i <= ps@.len(),
            store.wf(),
            s == store@,
            distinct_keys(ps@),
            walked(s, ps@, i as int, keys),
            shares.of(keys),
            rules == told_number(count_rules(s, keys)),
            bytes == told_number(count_octets(s, keys)),
        decreases ps@.len() - i,
    {
        let recs = store.get_records_for_prefix(&ps[i], None, true);
        let ghost base = keys;
        let ghost new = keys_of(ps@[i as int]@, recs@);
        proof {
            lemma_walked(s, ps@, i as int, keys, recs@);
            assert(base + new.take(0) =~= base);
        }
        let mut j: usize = 0;
        while j < recs.len()
            invariant
                i < ps@.len(),
                j <= recs@.len(),
                s == store@,
                new == keys_of(ps@[i as int]@, recs@),
                listed(s, ps@[i as int]@, None, true, recs@),
                keys == base + new.take(j as int),
                shares.of(keys),
                rules == told_number(count_rules(s, keys)),
                bytes == told_number(count_octets(s, keys)),
            decreases recs@.len() - j,
        {
            let m: IngressId = recs[j].multi_uniq_id;
            let ghost p = ps@[i as int]@;
            let ghost more = keys.push((p, m));
            proof {
                assert(s.shown(p, m, false, true) == Some(recs@[j as int]@));
                assert(s.records[(p, m)].meta == recs@[j as int].meta@);
                assert(more.drop_last() =~= keys);
                assert(more =~= base + new.take(j + 1));
            }
            shares.bump(m, Ghost(keys), Ghost(p));
            rules = rules.saturating_add(recs[j].meta.rule_count());
            bytes = bytes.saturating_add(recs[j].meta.byte_size());
            proof {
                keys = more;
            }
            j = j + 1;
        }
        assert(new.take(j as int) =~= new);
        i = i + 1;
    }
    let rows = shares.rows(Ghost(keys));
    let r = RuleSplit { rules, bytes, store_muis: rows.len() };
    proof {
        lemma_walked_all(s, ps@, keys);
        assert(walks(s, keys) && tells_shares(keys, rows@));
    }
    r
}

/// How much the tables hold.
#[derive(Debug)]
pub struct MemoryReport {
    pub stores: Vec<StoreCounts>,
    pub ingresses: RegisterSummary,
    /// How rules, unicast and multicast routes are split up, where that was
    /// asked for: it takes a walk over everything.
    pub split: Option<(RuleSplit, RouteSplit, RouteSplit)>,
}

impl Rib {
    /// Tells how much the tables hold.
    pub fn report_memory(&self, status_split: bool) -> (r: MemoryReport)
        requires
            self.wf(),
        ensures
            r.stores@.len() == 3,
            counts(r.stores@[0], "unicast"@, self.unicast@),
            counts(r.stores@[1], "multicast"@, self.multicast@),
            counts(r.stores@[2], "flowspec"@, self.flowspec@),
            r.ingresses.summarizes(self.ingress_register@),
            r.split is Some == status_split,
            r.split matches Some((rules, unicast, multicast)) ==> {
                &&& rules_split(self.flowspec@, rules)
                &&& splits(self.unicast@, unicast)
                &&& splits(self.multicast@, multicast)
            },
    {
        MemoryReport {
            stores: self.store_counts(),
            ingresses: self.ingress_register.memory_summary(),
            split: if status_split {
                Some((split_rules(&self.flowspec), split_routes(&self.unicast), split_routes(&self.multicast)))
            } else {
                None
            },
        }
    }
}

} // verus!
