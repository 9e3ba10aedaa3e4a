//! A store of records under a prefix and an ingress. The records hang in a
//! prefix store of the `rotonda-store` crate; what they stand for is kept
//! beside it, each in a place of its own, together with the prefixes that have
//! records. The logical time that the prefix store has for a record is the
//! number of that place; the record's own time is in the place.
use std::collections::HashSet;

use vstd::prelude::*;
use vstd::std_specs::hash::*;

use crate::raw_store::{
    lists_visible, raw_get, raw_insert, raw_is_withdrawn_v4, raw_is_withdrawn_v6, raw_mark_active_v4,
    raw_mark_active_v6, raw_mark_withdrawn, raw_mark_withdrawn_for_prefix, raw_mark_withdrawn_v4,
    raw_mark_withdrawn_v6, raw_new, raw_records, raw_slots, raw_visible, raw_withdrawn_v4, raw_withdrawn_v6,
    RawRecord, RawStore, RawValue,
};
use crate::types::{covers, valid_key, IngressId, Prefix, PrefixKey, RouteStatus};

verus! {

broadcast use vstd::std_specs::hash::group_hash_axioms;

/// What a record can stand for: a value that can be copied.
pub trait Stored: View + Sized {
    /// Whether there is anything to tell of a value.
    spec fn tells(v: Self::V) -> bool;

    fn duplicate(&self) -> (r: Self)
        ensures
            r@ == self@,
    ;

    fn tells_something(&self) -> (r: bool)
        ensures
            r == Self::tells(self@),
    ;
}

/// One record of a prefix.
#[derive(Debug)]
pub struct Record<M> {
    pub multi_uniq_id: IngressId,
    pub ltime: u64,
    pub status: RouteStatus,
    pub meta: M,
}

/// What a record holds.
#[verifier::ext_equal]
pub struct RecordView<T> {
    pub ltime: u64,
    pub status: RouteStatus,
    pub meta: T,
}

impl<M: View> View for Record<M> {
    type V = RecordView<M::V>;

    open spec fn view(&self) -> RecordView<M::V> {
        RecordView { ltime: self.ltime, status: self.status, meta: self.meta@ }
    }
}

/// The records of one prefix.
#[derive(Debug)]
pub struct PrefixRecord<M> {
    pub prefix: Prefix,
    pub meta: Vec<Record<M>>,
}

/// What an insertion did: whether it made the first record of its prefix,
/// whether its ingress had none for that prefix, and how many records the
/// prefix has now.
#[derive(Clone, Copy, Debug)]
pub struct UpsertReport {
    pub cas_count: usize,
    pub prefix_new: bool,
    pub mui_new: bool,
    pub mui_count: usize,
}

/// The content of a store: its records, the ingresses that are withdrawn as a
/// whole in each family, and the prefixes that it has met.
#[verifier::ext_equal]
pub struct StoreView<T> {
    pub records: Map<(PrefixKey, IngressId), RecordView<T>>,
    pub gone_v4: Set<IngressId>,
    pub gone_v6: Set<IngressId>,
    pub known: Set<PrefixKey>,
}

impl<T> StoreView<T> {
    /// The ingresses of a family that are withdrawn as a whole.
    pub open spec fn gone(self, is_v4: bool) -> Set<IngressId> {
        if is_v4 {
            self.gone_v4
        } else {
            self.gone_v6
        }
    }

    /// Whether there is a record, whatever its status.
    pub open spec fn holds(self, p: PrefixKey, mui: IngressId) -> bool {
        self.records.contains_key((p, mui))
    }

    /// The ingresses that have a record for a prefix.
    pub open spec fn muis(self, p: PrefixKey) -> Set<IngressId> {
        Set::new(|m: IngressId| self.holds(p, m))
    }

    /// Whether a prefix has a record.
    pub open spec fn has_prefix(self, p: PrefixKey) -> bool {
        exists|m: IngressId| #[trigger] self.records.contains_key((p, m))
    }

    /// A record as it is shown. With withdrawn records, all are, and those of
    /// a withdrawn ingress are shown as withdrawn. Without, only active
    /// records are, and those of a withdrawn ingress only to who asks for
    /// that ingress.
    pub open spec fn shown(
        self,
        p: PrefixKey,
        mui: IngressId,
        by_mui: bool,
        include_withdrawn: bool,
    ) -> Option<RecordView<T>> {
        if !self.holds(p, mui) {
            None
        } else {
            let rec = self.records[(p, mui)];
            let gone = self.gone(p.0).contains(mui);
            if include_withdrawn {
                Some(
                    RecordView {
                        ltime: rec.ltime,
                        status: if gone {
                            RouteStatus::Withdrawn
                        } else {
                            rec.status
                        },
                        meta: rec.meta,
                    },
                )
            } else if rec.status is Active && (by_mui || !gone) {
                Some(rec)
            } else {
                None
            }
        }
    }

    /// Whether a prefix has a record that is shown.
    pub open spec fn shows(self, p: PrefixKey, mui: Option<IngressId>, include_withdrawn: bool) -> bool {
        exists|m: IngressId|
            wanted(mui, m) && (#[trigger] self.shown(p, m, mui is Some, include_withdrawn)) is Some
    }

    /// The content with one record put in its place.
    pub open spec fn with_record(self, p: PrefixKey, mui: IngressId, rec: RecordView<T>) -> Self {
        StoreView {
            records: self.records.insert((p, mui), rec),
            known: self.known.insert(p),
            ..self
        }
    }

    /// The content with an ingress withdrawn in the families that are told.
    pub open spec fn with_gone(self, mui: IngressId, v4: bool, v6: bool) -> Self {
        StoreView {
            gone_v4: if v4 {
                self.gone_v4.insert(mui)
            } else {
                self.gone_v4
            },
            gone_v6: if v6 {
                self.gone_v6.insert(mui)
            } else {
                self.gone_v6
            },
            ..self
        }
    }

    /// The content with the withdrawal of an ingress in one family ended.
    pub open spec fn with_back(self, mui: IngressId, is_v4: bool) -> Self {
        StoreView {
            gone_v4: if is_v4 {
                self.gone_v4.remove(mui)
            } else {
                self.gone_v4
            },
            gone_v6: if is_v4 {
                self.gone_v6
            } else {
                self.gone_v6.remove(mui)
            },
            ..self
        }
    }

    /// The content without any trace of an ingress.
    pub open spec fn without_mui(self, mui: IngressId) -> Self {
        StoreView {
            records: self.records.remove_keys(Set::new(|k: (PrefixKey, IngressId)| k.1 == mui)),
            gone_v4: self.gone_v4.remove(mui),
            gone_v6: self.gone_v6.remove(mui),
            ..self
        }
    }
}

/// A record that is withdrawn and stands for `blank`.
pub open spec fn blank_record<T>(blank: T) -> RecordView<T> {
    RecordView { ltime: 0, status: RouteStatus::Withdrawn, meta: blank }
}

/// The records of some ingresses in a scope.
pub open spec fn records_in(ids: Set<IngressId>, scope: Scope) -> Set<(PrefixKey, IngressId)> {
    Set::new(|k: (PrefixKey, IngressId)| ids.contains(k.1) && scope.has(k.0))
}

/// Whether the records of `sel`, and nothing else, were overwritten with a
/// blank one.
pub open spec fn blanked<T>(
    before: StoreView<T>,
    after: StoreView<T>,
    sel: Set<(PrefixKey, IngressId)>,
    blank: T,
) -> bool {
    &&& after.gone_v4 == before.gone_v4
    &&& after.gone_v6 == before.gone_v6
    &&& after.known == before.known
    &&& after.records.dom() == before.records.dom()
    &&& forall|k: (PrefixKey, IngressId)| #[trigger]
        after.records.contains_key(k) ==> after.records[k] == (if sel.contains(k) {
            blank_record(blank)
        } else {
            before.records[k]
        })
}

proof fn lemma_blanked_twice<T>(
    a: StoreView<T>,
    b: StoreView<T>,
    c: StoreView<T>,
    s: Set<(PrefixKey, IngressId)>,
    t: Set<(PrefixKey, IngressId)>,
    blank: T,
)
    requires
        blanked(a, b, s, blank),
        blanked(b, c, t, blank),
    ensures
        blanked(a, c, s.union(t), blank),
{
    assert forall|k: (PrefixKey, IngressId)| #[trigger] c.records.contains_key(k) implies c.records[k] == (if s.union(
        t,
    ).contains(k) {
        blank_record(blank)
    } else {
        a.records[k]
    }) by {
        assert(b.records.contains_key(k));
    }
}

proof fn lemma_blanked_same<T>(
    a: StoreView<T>,
    b: StoreView<T>,
    s: Set<(PrefixKey, IngressId)>,
    t: Set<(PrefixKey, IngressId)>,
    blank: T,
)
    requires
        blanked(a, b, s, blank),
        forall|k: (PrefixKey, IngressId)| #[trigger] b.records.contains_key(k) ==> s.contains(k) == t.contains(k),
    ensures
        blanked(a, b, t, blank),
{
}

/// Whether a query that may be limited to one ingress wants `m`.
pub open spec fn wanted(mui: Option<IngressId>, m: IngressId) -> bool {
    mui matches Some(w) ==> w == m
}

/// Whether `v` holds each record of `p` that is shown, once, in any order.
pub open spec fn listed<M: View>(
    s: StoreView<M::V>,
    p: PrefixKey,
    mui: Option<IngressId>,
    include_withdrawn: bool,
    v: Seq<Record<M>>,
) -> bool {
    &&& forall|i: int|
        0 <= i < v.len() ==> wanted(mui, (#[trigger] v[i]).multi_uniq_id) && s.shown(
            p,
            v[i].multi_uniq_id,
            mui is Some,
            include_withdrawn,
        ) == Some(v[i]@)
    &&& forall|i: int, j: int|
        0 <= i < j < v.len() ==> (#[trigger] v[i]).multi_uniq_id != (#[trigger] v[j]).multi_uniq_id
    &&& forall|m: IngressId|
        wanted(mui, m) && (#[trigger] s.shown(p, m, mui is Some, include_withdrawn)) is Some ==> exists|
            i: int,
        |
            0 <= i < v.len() && (#[trigger] v[i]).multi_uniq_id == m
}

/// A part of the prefixes of a store.
#[derive(Clone, Copy, Debug)]
pub enum Scope {
    /// All of them.
    All,
    /// Those of IPv4, or those of IPv6.
    Family(bool),
    /// Those that cover a prefix, without that prefix.
    LessSpecific(Prefix),
    /// Those that a prefix covers, without that prefix.
    MoreSpecific(Prefix),
}

impl Scope {
    pub open spec fn has(self, p: PrefixKey) -> bool {
        match self {
            Scope::All => true,
            Scope::Family(is_v4) => p.0 == is_v4,
            Scope::LessSpecific(q) => covers(p, q@) && p != q@,
            Scope::MoreSpecific(q) => covers(q@, p) && p != q@,
        }
    }

    pub fn includes(&self, p: &Prefix) -> (r: bool)
        ensures
            r == self.has(p@),
    {
        match self {
            Scope::All => true,
            Scope::Family(is_v4) => p.is_v4() == *is_v4,
            Scope::LessSpecific(q) => p.covers_prefix(q) && !p.equals(q),
            Scope::MoreSpecific(q) => q.covers_prefix(p) && !p.equals(q),
        }
    }
}

/// Whether `v` holds each prefix of `scope` that has a record that is shown,
/// once, with all such records, in any order.
pub open spec fn set_listed<M: View>(
    s: StoreView<M::V>,
    scope: Scope,
    mui: Option<IngressId>,
    include_withdrawn: bool,
    v: Seq<PrefixRecord<M>>,
) -> bool {
    &&& forall|i: int|
        0 <= i < v.len() ==> {
            &&& (#[trigger] v[i]).prefix.wf()
            &&& scope.has(v[i].prefix@)
            &&& v[i].meta@.len() > 0
            &&& listed(s, v[i].prefix@, mui, include_withdrawn, v[i].meta@)
        }
    &&& forall|i: int, j: int| 0 <= i < j < v.len() ==> (#[trigger] v[i]).prefix@ != (#[trigger] v[j]).prefix@
    &&& forall|p: PrefixKey|
        scope.has(p) && #[trigger] s.shows(p, mui, include_withdrawn) ==> exists|i: int|
            0 <= i < v.len() && (#[trigger] v[i]).prefix@ == p
}

/// What to answer a query for a prefix with: the prefix itself or the longest
/// that covers it.
#[derive(Clone, Copy, Debug, PartialEq, Eq, Structural)]
pub enum MatchType {
    ExactMatch,
    LongestMatch,
}

/// A query for a prefix.
#[derive(Clone, Copy, Debug)]
pub struct MatchOptions {
    pub match_type: MatchType,
    pub include_withdrawn: bool,
    pub include_less_specifics: bool,
    pub include_more_specifics: bool,
    pub mui: Option<IngressId>,
}

/// The answer to a query for a prefix.
#[derive(Debug)]
pub struct QueryResult<M> {
    pub prefix: Option<Prefix>,
    pub records: Vec<Record<M>>,
    pub less_specifics: Option<Vec<PrefixRecord<M>>>,
    pub more_specifics: Option<Vec<PrefixRecord<M>>>,
}

/// Whether `p` is the longest prefix with a record that covers `search`.
pub open spec fn is_longest<T>(s: StoreView<T>, search: PrefixKey, p: PrefixKey) -> bool {
    &&& s.has_prefix(p)
    &&& covers(p, search)
    &&& forall|q: PrefixKey| #[trigger] s.has_prefix(q) && covers(q, search) ==> q.2 <= p.2
}

/// Whether `found` is the prefix that a query lands on, if any. A prefix all
/// of whose records are withdrawn is landed on as well.
pub open spec fn lands_on<T>(
    s: StoreView<T>,
    search: PrefixKey,
    match_type: MatchType,
    found: Option<PrefixKey>,
) -> bool {
    match match_type {
        MatchType::ExactMatch => found == (if s.has_prefix(search) {
            Some(search)
        } else {
            None
        }),
        MatchType::LongestMatch => match found {
            Some(p) => is_longest(s, search, p),
            None => forall|q: PrefixKey| #[trigger] s.has_prefix(q) ==> !covers(q, search),
        },
    }
}

/// Whether `r` answers a query: with the records that are shown of the prefix
/// that it lands on, or none, and with the less and more specific prefixes
/// that were asked for.
pub open spec fn answers<M: View>(s: StoreView<M::V>, search: Prefix, o: MatchOptions, r: QueryResult<M>) -> bool {
    &&& exists|found: Option<PrefixKey>| #[trigger]
        lands_on(s, search@, o.match_type, found) && match r.prefix {
            Some(p) => found == Some(p@) && p.wf() && s.shows(p@, o.mui, o.include_withdrawn) && listed(
                s,
                p@,
                o.mui,
                o.include_withdrawn,
                r.records@,
            ),
            None => r.records@.len() == 0 && (found matches Some(p) ==> !s.shows(p, o.mui, o.include_withdrawn)),
        }
    &&& r.less_specifics is Some == o.include_less_specifics
    &&& r.more_specifics is Some == o.include_more_specifics
    &&& r.less_specifics matches Some(v) ==> set_listed(
        s,
        Scope::LessSpecific(search),
        o.mui,
        o.include_withdrawn,
        v@,
    )
    &&& r.more_specifics matches Some(v) ==> set_listed(
        s,
        Scope::MoreSpecific(search),
        o.mui,
        o.include_withdrawn,
        v@,
    )
}

/// What a record stands for, with the prefix, the ingress and the time of the
/// record.
#[derive(Debug)]
struct Held<M> {
    prefix: Prefix,
    mui: IngressId,
    ltime: u64,
    value: M,
}

/// Whether a place holds what the record of `k` stands for.
spec fn held_for<M>(values: Seq<Option<Held<M>>>, h: int, k: (PrefixKey, IngressId)) -> bool {
    &&& 0 <= h < values.len()
    &&& values[h] is Some
    &&& values[h]->Some_0.prefix@ == k.0
    &&& values[h]->Some_0.mui == k.1
}

/// Whether a record stands for something. One that does not may have the
/// number of a place that was given to another.
spec fn live<M>(
    raw: Map<(PrefixKey, IngressId), RawValue>,
    values: Seq<Option<Held<M>>>,
    k: (PrefixKey, IngressId),
) -> bool {
    raw.contains_key(k) && held_for(values, raw[k].0 as int, k)
}

/// The records that stand for something.
spec fn live_keys<M>(raw: Map<(PrefixKey, IngressId), RawValue>, values: Seq<Option<Held<M>>>) -> Set<
    (PrefixKey, IngressId),
> {
    Set::new(|k: (PrefixKey, IngressId)| live(raw, values, k))
}

/// The records that stand for something, with what they stand for.
spec fn live_records<M: View>(
    raw: Map<(PrefixKey, IngressId), RawValue>,
    values: Seq<Option<Held<M>>>,
) -> Map<(PrefixKey, IngressId), RecordView<M::V>> {
    Map::new(
        |k: (PrefixKey, IngressId)| live(raw, values, k),
        |k: (PrefixKey, IngressId)|
            RecordView {
                ltime: values[raw[k].0 as int]->Some_0.ltime,
                status: raw[k].1,
                meta: values[raw[k].0 as int]->Some_0.value@,
            },
    )
}

/// Whether `keys` lists a prefix.
pub open spec fn has_key(keys: Seq<Prefix>, p: PrefixKey) -> bool {
    exists|i: int| 0 <= i < keys.len() && (#[trigger] keys[i])@ == p
}

/// Whether `keys` lists no prefix twice, and all are in canonical form.
pub open spec fn distinct_keys(keys: Seq<Prefix>) -> bool {
    &&& forall|i: int| 0 <= i < keys.len() ==> (#[trigger] keys[i]).wf()
    &&& forall|i: int, j: int| 0 <= i < j < keys.len() ==> (#[trigger] keys[i])@ != (#[trigger] keys[j])@
}

/// Each record has the number of a place, and what is in a place belongs to a
/// record with that number. The other places are free.
spec fn handles_ok<M>(
    raw: Map<(PrefixKey, IngressId), RawValue>,
    values: Seq<Option<Held<M>>>,
    free: Seq<u64>,
) -> bool {
    &&& forall|k: (PrefixKey, IngressId)| #[trigger]
        raw.contains_key(k) ==> (raw[k].0 as int) < values.len()
    &&& forall|h: int|
        0 <= h < values.len() && (#[trigger] values[h]) is Some ==> {
            let k = (values[h]->Some_0.prefix@, values[h]->Some_0.mui);
            raw.contains_key(k) && raw[k].0 == h
        }
    &&& free.no_duplicates()
    &&& forall|i: int| 0 <= i < free.len() ==> (#[trigger] free[i] as int) < values.len() && values[free[i] as int] is None
    &&& forall|h: int| 0 <= h < values.len() && (#[trigger] values[h]) is None ==> free.contains(h as u64)
    &&& live_keys(raw, values).finite()
    &&& live_keys(raw, values).len() + free.len() == values.len()
    &&& values.len() <= usize::MAX
}

/// Something is put into a place that was free or new.
proof fn lemma_place_taken<M>(
    raw: Map<(PrefixKey, IngressId), RawValue>,
    values: Seq<Option<Held<M>>>,
    free: Seq<u64>,
    k: (PrefixKey, IngressId),
    rec: RawValue,
    held: Held<M>,
    now: Seq<Option<Held<M>>>,
    left: Seq<u64>,
)
    requires
        handles_ok(raw, values, free),
        !live(raw, values, k),
        held.prefix@ == k.0,
        held.mui == k.1,
        if free.len() > 0 {
            &&& rec.0 == free.last()
            &&& now == values.update(rec.0 as int, Some(held))
            &&& left == free.drop_last()
        } else {
            &&& rec.0 == values.len()
            &&& values.len() < usize::MAX
            &&& now == values.push(Some(held))
            &&& left == free
        },
    ensures
        handles_ok(raw.insert(k, rec), now, left),
        live_keys(raw.insert(k, rec), now) == live_keys(raw, values).insert(k),
        forall|x: (PrefixKey, IngressId)| #[trigger]
            live(raw, values, x) ==> now[raw[x].0 as int] == values[raw[x].0 as int] && x != k,
{
    let after = raw.insert(k, rec);
    let h = rec.0 as int;
    if free.len() > 0 {
        assert(values[free[free.len() - 1] as int] is None);
    }
    assert forall|i: int| 0 <= i < now.len() && (#[trigger] now[i]) is Some implies {
        let x = (now[i]->Some_0.prefix@, now[i]->Some_0.mui);
        after.contains_key(x) && after[x].0 == i
    } by {
        if i != h {
            assert(now[i] == values[i]);
            let x = (values[i]->Some_0.prefix@, values[i]->Some_0.mui);
            assert(live(raw, values, x));
        }
    }
    assert forall|i: int| 0 <= i < left.len() implies (#[trigger] left[i] as int) < now.len() && now[left[i] as int] is None by {
        assert(left[i] == free[i]);
        if free.len() > 0 {
            assert(free[i] != free[free.len() - 1]);
        }
    }
    assert forall|i: int| 0 <= i < now.len() && (#[trigger] now[i]) is None implies left.contains(i as u64) by {
        assert(values[i] is None);
        let j = choose|j: int| 0 <= j < free.len() && free[j] == i as u64;
        if free.len() > 0 {
            assert(j != free.len() - 1);
            assert(left[j] == i as u64);
        }
    }
    assert forall|x: (PrefixKey, IngressId)| #[trigger] live(after, now, x) == (live(raw, values, x) || x == k) by {
        if x != k && raw.contains_key(x) {
            if raw[x].0 == h && h < values.len() {
                assert(values[h] is None);
            }
        }
    }
    assert(live_keys(after, now) =~= live_keys(raw, values).insert(k));
}

/// What is in a place is replaced.
proof fn lemma_place_kept<M>(
    raw: Map<(PrefixKey, IngressId), RawValue>,
    values: Seq<Option<Held<M>>>,
    free: Seq<u64>,
    k: (PrefixKey, IngressId),
    rec: RawValue,
    held: Held<M>,
)
    requires
        handles_ok(raw, values, free),
        live(raw, values, k),
        rec.0 == raw[k].0,
        held.prefix@ == k.0,
        held.mui == k.1,
    ensures
        handles_ok(raw.insert(k, rec), values.update(rec.0 as int, Some(held)), free),
        live_keys(raw.insert(k, rec), values.update(rec.0 as int, Some(held))) == live_keys(raw, values),
        forall|x: (PrefixKey, IngressId)| #[trigger]
            live(raw, values, x) && x != k ==> values.update(rec.0 as int, Some(held))[raw[x].0 as int]
                == values[raw[x].0 as int],
{
    let after = raw.insert(k, rec);
    let now = values.update(rec.0 as int, Some(held));
    let h = rec.0 as int;
    assert forall|i: int| 0 <= i < now.len() && (#[trigger] now[i]) is Some implies {
        let x = (now[i]->Some_0.prefix@, now[i]->Some_0.mui);
        after.contains_key(x) && after[x].0 == i
    } by {
        if i != h {
            assert(now[i] == values[i]);
        }
    }
    assert forall|i: int| 0 <= i < free.len() implies (#[trigger] free[i] as int) < now.len() && now[free[i] as int] is None by {
        assert(values[free[i] as int] is None);
    }
    assert forall|i: int| 0 <= i < now.len() && (#[trigger] now[i]) is None implies free.contains(i as u64) by {
        assert(values[i] is None);
    }
    assert forall|x: (PrefixKey, IngressId)| #[trigger] live(after, now, x) == live(raw, values, x) by {}
    assert(live_keys(after, now) =~= live_keys(raw, values));
}

/// A place is given back.
proof fn lemma_place_freed<M>(
    raw: Map<(PrefixKey, IngressId), RawValue>,
    values: Seq<Option<Held<M>>>,
    free: Seq<u64>,
    k: (PrefixKey, IngressId),
)
    requires
        handles_ok(raw, values, free),
        live(raw, values, k),
    ensures
        handles_ok(raw, values.update(raw[k].0 as int, None), free.push(raw[k].0)),
        !live(raw, values.update(raw[k].0 as int, None), k),
{
    let h = raw[k].0 as int;
    let now = values.update(h, None);
    let more = free.push(raw[k].0);
    assert forall|i: int| 0 <= i < now.len() && (#[trigger] now[i]) is Some implies {
        let x = (now[i]->Some_0.prefix@, now[i]->Some_0.mui);
        raw.contains_key(x) && raw[x].0 == i
    } by {
        assert(now[i] == values[i]);
    }
    assert forall|i: int| 0 <= i < free.len() implies #[trigger] free[i] != raw[k].0 by {
        assert(values[free[i] as int] is None);
    }
    assert(more.no_duplicates());
    assert forall|i: int| 0 <= i < more.len() implies (#[trigger] more[i] as int) < now.len() && now[more[i] as int] is None by {
        if i < free.len() {
            assert(more[i] == free[i]);
        }
    }
    assert forall|i: int| 0 <= i < now.len() && (#[trigger] now[i]) is None implies more.contains(i as u64) by {
        if i == h {
            assert(more[free.len() as int] == i as u64);
        } else {
            assert(values[i] is None);
            let j = choose|j: int| 0 <= j < free.len() && free[j] == i as u64;
            assert(more[j] == i as u64);
        }
    }
    assert forall|x: (PrefixKey, IngressId)| #[trigger] live(raw, now, x) == (live(raw, values, x) && x != k) by {
        if live(raw, values, x) && x != k {
            assert(raw[x].0 != h);
        }
    }
    assert(live_keys(raw, now) =~= live_keys(raw, values).remove(k));
}

/// What a prefix store handed out for a query: each wanted record that it
/// shows, once.
spec fn all_found(
    rib: RawStore,
    p: PrefixKey,
    mui: Option<IngressId>,
    include_withdrawn: bool,
    found: Seq<RawRecord>,
) -> bool {
    &&& forall|k: int|
        0 <= k < found.len() ==> wanted(mui, (#[trigger] found[k]).mui) && raw_visible(
            rib,
            p,
            found[k].mui,
            mui is Some,
            include_withdrawn,
        ) == Some(found[k])
    &&& forall|k: int, l: int| 0 <= k < l < found.len() ==> (#[trigger] found[k]).mui != (#[trigger] found[l]).mui
    &&& forall|m: IngressId|
        wanted(mui, m) && (#[trigger] raw_visible(rib, p, m, mui is Some, include_withdrawn)) is Some ==> exists|k: int|
            0 <= k < found.len() && (#[trigger] found[k]).mui == m
}

proof fn lemma_found(
    rib: RawStore,
    p: PrefixKey,
    mui: Option<IngressId>,
    include_withdrawn: bool,
    found: Seq<RawRecord>,
)
    requires
        match mui {
            Some(m) => if found.len() == 0 {
                raw_visible(rib, p, m, true, include_withdrawn) is None
            } else {
                found.len() == 1 && raw_visible(rib, p, m, true, include_withdrawn) == Some(found[0])
            },
            None => lists_visible(rib, p, include_withdrawn, found),
        },
    ensures
        all_found(rib, p, mui, include_withdrawn, found),
{
    match mui {
        Some(w) => {
            assert forall|m: IngressId|
                wanted(mui, m) && (#[trigger] raw_visible(rib, p, m, mui is Some, include_withdrawn)) is Some implies exists|
                k: int,
            | 0 <= k < found.len() && (#[trigger] found[k]).mui == m by {
                assert(found[0].mui == m);
            }
        },
        None => {},
    }
}

/// Of those, each that stands for something, once.
spec fn all_live<M>(
    rib: RawStore,
    values: Seq<Option<Held<M>>>,
    p: PrefixKey,
    mui: Option<IngressId>,
    include_withdrawn: bool,
    v: Seq<RawRecord>,
) -> bool {
    &&& forall|k: int|
        0 <= k < v.len() ==> wanted(mui, (#[trigger] v[k]).mui) && live(raw_records(rib), values, (p, v[k].mui))
            && raw_visible(rib, p, v[k].mui, mui is Some, include_withdrawn) == Some(v[k])
    &&& forall|k: int, l: int| 0 <= k < l < v.len() ==> (#[trigger] v[k]).mui != (#[trigger] v[l]).mui
    &&& forall|m: IngressId|
        wanted(mui, m) && live(raw_records(rib), values, (p, m)) && (#[trigger] raw_visible(
            rib,
            p,
            m,
            mui is Some,
            include_withdrawn,
        )) is Some ==> exists|k: int| 0 <= k < v.len() && (#[trigger] v[k]).mui == m
}

/// The content that a prefix store and the values beside it make up.
spec fn content<M: View>(rib: RawStore, values: Seq<Option<Held<M>>>) -> StoreView<M::V> {
    StoreView {
        records: live_records(raw_records(rib), values),
        gone_v4: raw_withdrawn_v4(rib),
        gone_v6: raw_withdrawn_v6(rib),
        known: raw_slots(rib),
    }
}

/// What is shown is what the prefix store shows of the records that stand for
/// something.
proof fn lemma_shown<M: View>(
    rib: RawStore,
    values: Seq<Option<Held<M>>>,
    p: PrefixKey,
    mui: IngressId,
    by_mui: bool,
    include_withdrawn: bool,
)
    ensures
        ({
            let raw = raw_visible(rib, p, mui, by_mui, include_withdrawn);
            let shown = content(rib, values).shown(p, mui, by_mui, include_withdrawn);
            if live(raw_records(rib), values, (p, mui)) {
                match raw {
                    Some(rec) => rec.mui == mui && shown == Some(
                        RecordView {
                            ltime: values[rec.ltime as int]->Some_0.ltime,
                            status: rec.status,
                            meta: values[rec.ltime as int]->Some_0.value@,
                        },
                    ),
                    None => shown is None,
                }
            } else {
                shown is None
            }
        }),
{
}

proof fn lemma_count<M: View>(rib: RawStore, values: Seq<Option<Held<M>>>, p: PrefixKey, v: Seq<RawRecord>)
    requires
        all_live(rib, values, p, None, true, v),
    ensures
        content(rib, values).muis(p).finite(),
        content(rib, values).muis(p).len() == v.len(),
        v.len() > 0 <==> content(rib, values).has_prefix(p),
{
    let s = content(rib, values);
    let ids = v.map_values(|r: RawRecord| r.mui);
    assert(ids.no_duplicates()) by {
        assert forall|i: int, j: int| 0 <= i < ids.len() && 0 <= j < ids.len() && i != j implies ids[i] != ids[j] by {
            assert(ids[i] == v[i].mui && ids[j] == v[j].mui);
        }
    }
    assert forall|m: IngressId| s.muis(p).contains(m) implies #[trigger] ids.to_set().contains(m) by {
        assert(raw_visible(rib, p, m, false, true) is Some);
        let k = choose|k: int| 0 <= k < v.len() && (#[trigger] v[k]).mui == m;
        assert(ids[k] == m);
    }
    assert forall|m: IngressId| ids.to_set().contains(m) implies #[trigger] s.muis(p).contains(m) by {
        let k = choose|k: int| 0 <= k < ids.len() && ids[k] == m;
        assert(v[k].mui == m);
    }
    assert(ids.to_set() =~= s.muis(p));
    ids.unique_seq_to_set();
    vstd::seq_lib::seq_to_set_is_finite(ids);
    if v.len() > 0 {
        assert(s.records.contains_key((p, v[0].mui)));
    }
    if s.has_prefix(p) {
        let m = choose|m: IngressId| #[trigger] s.records.contains_key((p, m));
        assert(s.muis(p).contains(m));
        assert(ids.to_set().contains(m));
    }
}

/// The prefixes of a family that have a record.
pub open spec fn prefixes_of<T>(s: StoreView<T>, is_v4: bool) -> Set<PrefixKey> {
    Set::new(|p: PrefixKey| s.has_prefix(p) && p.0 == is_v4)
}

/// Whether one of the first `n` keys is `p`.
spec fn keys_before(keys: Seq<Prefix>, n: int, p: PrefixKey) -> bool {
    exists|k: int| 0 <= k < n && (#[trigger] keys[k])@ == p
}

proof fn lemma_keys_before(keys: Seq<Prefix>, n: int)
    requires
        0 <= n < keys.len(),
    ensures
        forall|p: PrefixKey| #[trigger] keys_before(keys, n + 1, p) == (keys_before(keys, n, p) || keys[n]@ == p),
{
    assert forall|p: PrefixKey| #[trigger] keys_before(keys, n + 1, p) == (keys_before(keys, n, p) || keys[n]@ == p) by {
        if keys_before(keys, n, p) {
            let k = choose|k: int| 0 <= k < n && (#[trigger] keys[k])@ == p;
            assert(keys[k]@ == p);
        }
        if keys[n]@ == p {
            assert(keys_before(keys, n + 1, p));
        }
    }
}

/// The records of some ingresses under one prefix.
spec fn pairs(p: PrefixKey, ids: Set<IngressId>) -> Set<(PrefixKey, IngressId)> {
    Set::new(|k: (PrefixKey, IngressId)| k.0 == p && ids.contains(k.1))
}

/// As many pairs as there are second halves.
proof fn lemma_pairs(p: PrefixKey, ids: Set<IngressId>)
    requires
        ids.finite(),
    ensures
        pairs(p, ids).finite(),
        pairs(p, ids).len() == ids.len(),
    decreases ids.len(),
{
    if ids.len() == 0 {
        assert(ids =~= Set::empty());
        assert(pairs(p, ids) =~= Set::empty());
    } else {
        let m = ids.choose();
        let rest = ids.remove(m);
        lemma_pairs(p, rest);
        assert(pairs(p, ids) =~= pairs(p, rest).insert((p, m)));
    }
}

proof fn lemma_key_pushed<T>(
    before: StoreView<T>,
    after: StoreView<T>,
    keys: Seq<Prefix>,
    now: Seq<Prefix>,
    prefix: Prefix,
    mui: IngressId,
    pushed: bool,
)
    requires
        after.records.dom() == before.records.dom().insert((prefix@, mui)),
        distinct_keys(keys),
        forall|p: PrefixKey| #[trigger] has_key(keys, p) == before.has_prefix(p),
        pushed == !before.has_prefix(prefix@),
        prefix.wf(),
        now == (if pushed {
            keys.push(prefix)
        } else {
            keys
        }),
    ensures
        distinct_keys(now),
        forall|p: PrefixKey| #[trigger] has_key(now, p) == after.has_prefix(p),
{
    assert(!pushed ==> has_key(keys, prefix@));
    assert(pushed ==> !has_key(keys, prefix@));
    assert forall|p: PrefixKey| #[trigger] has_key(now, p) == after.has_prefix(p) by {
        if has_key(now, p) {
            let i = choose|i: int| 0 <= i < now.len() && (#[trigger] now[i])@ == p;
            if i < keys.len() {
                assert(keys[i]@ == p);
                assert(has_key(keys, p));
                let m = choose|m: IngressId| #[trigger] before.records.contains_key((p, m));
                assert(after.records.contains_key((p, m)));
            } else {
                assert(after.records.contains_key((p, mui)));
            }
        }
        if after.has_prefix(p) {
            let m = choose|m: IngressId| #[trigger] after.records.contains_key((p, m));
            if (p, m) == (prefix@, mui) {
                if pushed {
                    assert(now[keys.len() as int]@ == p);
                }
            } else {
                assert(before.records.contains_key((p, m)));
                assert(has_key(keys, p));
                let i = choose|i: int| 0 <= i < keys.len() && (#[trigger] keys[i])@ == p;
                assert(now[i]@ == p);
            }
        }
    }
}

proof fn lemma_muis_inserted<T>(before: StoreView<T>, after: StoreView<T>, p: PrefixKey, mui: IngressId, new: bool)
    requires
        after.records.dom() == before.records.dom().insert((p, mui)),
        new == !before.holds(p, mui),
        before.muis(p).finite(),
    ensures
        after.muis(p).finite(),
        after.muis(p).len() == before.muis(p).len() + (if new {
            1int
        } else {
            0
        }),
{
    assert(after.muis(p) =~= before.muis(p).insert(mui));
}

/// A list of shown records tells whether there are any.
pub proof fn lemma_shows<M: View>(
    s: StoreView<M::V>,
    p: PrefixKey,
    mui: Option<IngressId>,
    include_withdrawn: bool,
    v: Seq<Record<M>>,
)
    requires
        listed(s, p, mui, include_withdrawn, v),
    ensures
        s.shows(p, mui, include_withdrawn) == (v.len() > 0),
{
    if v.len() > 0 {
        assert(s.shown(p, v[0].multi_uniq_id, mui is Some, include_withdrawn) is Some);
    }
}

/// A prefix with a shown record has a record.
pub proof fn lemma_shows_has<T>(s: StoreView<T>, p: PrefixKey, mui: Option<IngressId>, include_withdrawn: bool)
    requires
        s.shows(p, mui, include_withdrawn),
    ensures
        s.has_prefix(p),
{
    let m = choose|m: IngressId|
        wanted(mui, m) && (#[trigger] s.shown(p, m, mui is Some, include_withdrawn)) is Some;
    assert(s.records.contains_key((p, m)));
}

/// A store of records under a prefix and an ingress.
pub struct RouteStore<M> {
    rib: RawStore,
    /// What records stand for, each in a place of its own.
    values: Vec<Option<Held<M>>>,
    /// The places with nothing in them.
    free: Vec<u64>,
    keys: Vec<Prefix>,
}

impl<M: Stored> View for RouteStore<M> {
    type V = StoreView<<M as View>::V>;

    closed spec fn view(&self) -> StoreView<<M as View>::V> {
        content(self.rib, self.values@)
    }
}

impl<M: Stored> RouteStore<M> {
    /// Each record has a value of its own, and `keys` lists the prefixes that
    /// have a record.
    pub closed spec fn wf(self) -> bool {
        &&& handles_ok(raw_records(self.rib), self.values@, self.free@)
        &&& distinct_keys(self.keys@)
        &&& forall|p: PrefixKey| #[trigger] has_key(self.keys@, p) == self@.has_prefix(p)
        &&& forall|k: (PrefixKey, IngressId)| #[trigger]
            raw_records(self.rib).contains_key(k) ==> raw_slots(self.rib).contains(k.0)
    }

    /// An empty store.
    pub fn new() -> (r: Result<Self, String>)
        ensures
            r matches Ok(s) && s.wf() && s@ == (StoreView::<M::V> {
                records: Map::empty(),
                gone_v4: Set::empty(),
                gone_v6: Set::empty(),
                known: Set::empty(),
            }),
    {
        let rib = raw_new()?;
        let s = RouteStore { rib, values: Vec::new(), free: Vec::new(), keys: Vec::new() };
        assert(live_keys(raw_records(s.rib), s.values@) =~= Set::empty());
        assert(s@.records =~= Map::<(PrefixKey, IngressId), RecordView<M::V>>::empty());
        assert forall|p: PrefixKey| #[trigger] has_key(s.keys@, p) == s@.has_prefix(p) by {}
        Ok(s)
    }

    /// Whether an ingress is withdrawn as a whole in a family.
    pub fn mui_is_withdrawn(&self, mui: IngressId, is_v4: bool) -> (r: bool)
        ensures
            r == self@.gone(is_v4).contains(mui),
    {
        if is_v4 {
            raw_is_withdrawn_v4(&self.rib, mui)
        } else {
            raw_is_withdrawn_v6(&self.rib, mui)
        }
    }

    /// Withdraws an ingress as a whole, in both families.
    pub fn mark_mui_as_withdrawn(&mut self, mui: IngressId)
        requires
            old(self).wf(),
        ensures
            final(self).wf(),
            final(self)@ == old(self)@.with_gone(mui, true, true),
    {
        let _ = raw_mark_withdrawn(&mut self.rib, mui);
        assert(self@.records == old(self)@.records);
        assert(forall|p: PrefixKey| #[trigger] self@.has_prefix(p) == old(self)@.has_prefix(p));
    }

    /// Withdraws an ingress as a whole in one family.
    pub fn mark_family_as_withdrawn(&mut self, mui: IngressId, is_v4: bool)
        requires
            old(self).wf(),
        ensures
            final(self).wf(),
            final(self)@ == old(self)@.with_gone(mui, is_v4, !is_v4),
    {
        if is_v4 {
            let _ = raw_mark_withdrawn_v4(&mut self.rib, mui);
        } else {
            let _ = raw_mark_withdrawn_v6(&mut self.rib, mui);
        }
        assert(self@.records == old(self)@.records);
        assert(forall|p: PrefixKey| #[trigger] self@.has_prefix(p) == old(self)@.has_prefix(p));
    }

    /// Ends the withdrawal of an ingress in one family.
    pub fn mark_family_as_active(&mut self, mui: IngressId, is_v4: bool)
        requires
            old(self).wf(),
        ensures
            final(self).wf(),
            final(self)@ == old(self)@.with_back(mui, is_v4),
    {
        if is_v4 {
            let _ = raw_mark_active_v4(&mut self.rib, mui);
        } else {
            let _ = raw_mark_active_v6(&mut self.rib, mui);
        }
        assert(self@.records == old(self)@.records);
        assert(forall|p: PrefixKey| #[trigger] self@.has_prefix(p) == old(self)@.has_prefix(p));
    }

    /// The prefixes that have a record, in any order.
    pub fn prefixes(&self) -> (r: &Vec<Prefix>)
        requires
            self.wf(),
        ensures
            distinct_keys(r@),
            forall|p: PrefixKey| #[trigger] has_key(r@, p) == self@.has_prefix(p),
    {
        &self.keys
    }

    /// The number of the place of a record, whether it stands for something or
    /// not.
    fn handle_of(&self, prefix: &Prefix, mui: IngressId) -> (r: Option<u64>)
        requires
            prefix.wf(),
        ensures
            match r {
                Some(h) => raw_records(self.rib).contains_key((prefix@, mui)) && raw_records(self.rib)[(
                    prefix@,
                    mui,
                )].0 == h,
                None => !raw_records(self.rib).contains_key((prefix@, mui)),
            },
    {
        match raw_get(&self.rib, prefix, Some(mui), true) {
            Ok(Some(v)) => Some(v[0].ltime),
            _ => None,
        }
    }

    /// Whether a place holds what the record of a prefix and an ingress stands
    /// for.
    fn holds_for(&self, h: u64, prefix: &Prefix, mui: IngressId) -> (r: bool)
        requires
            (h as int) < self.values@.len(),
        ensures
            r == held_for(self.values@, h as int, (prefix@, mui)),
    {
        assert(self.values@.len() == self.values.len());
        match &self.values[h as usize] {
            Some(x) => x.prefix.equals(prefix) && x.mui == mui,
            None => false,
        }
    }

    /// Whether there is a record, whatever its status.
    pub fn contains(&self, prefix: &Prefix, mui: IngressId) -> (r: bool)
        requires
            self.wf(),
            prefix.wf(),
        ensures
            r == self@.holds(prefix@, mui),
    {
        match self.handle_of(prefix, mui) {
            Some(h) => {
                assert(raw_records(self.rib).contains_key((prefix@, mui)));
                self.holds_for(h, prefix, mui)
            },
            None => false,
        }
    }

    /// The records of a prefix that are shown and stand for something.
    fn live_records_for_prefix(&self, prefix: &Prefix, mui: Option<IngressId>, include_withdrawn: bool) -> (r: Vec<
        RawRecord,
    >)
        requires
            self.wf_but_keys(),
            prefix.wf(),
        ensures
            all_live(self.rib, self.values@, prefix@, mui, include_withdrawn, r@),
    {
        let found: Vec<RawRecord> = match raw_get(&self.rib, prefix, mui, include_withdrawn) {
            Ok(Some(v)) => v,
            _ => Vec::new(),
        };
        proof {
            lemma_found(self.rib, prefix@, mui, include_withdrawn, found@);
        }
        let ghost raw = raw_records(self.rib);
        let mut out: Vec<RawRecord> = Vec::new();
        let ghost mut from: Seq<int> = Seq::empty();
        let ghost mut to: Seq<int> = Seq::empty();
        let mut i: usize = 0;
        while i < found.len()
            invariant
                i <= found.len(),
                raw == raw_records(self.rib),
                handles_ok(raw, self.values@, self.free@),
                all_found(self.rib, prefix@, mui, include_withdrawn, found@),
                from.len() == out@.len(),
                to.len() == i,
                forall|j: int| 0 <= j < out@.len() ==> 0 <= #[trigger] from[j] < i && found@[from[j]] == out@[j],
                forall|j: int, l: int| 0 <= j < l < out@.len() ==> #[trigger] from[j] < #[trigger] from[l],
                forall|j: int| 0 <= j < out@.len() ==> live(raw, self.values@, (prefix@, (#[trigger] out@[j]).mui)),
                forall|k: int|
                    0 <= k < i && live(raw, self.values@, (prefix@, found@[k].mui)) ==> 0 <= #[trigger] to[k]
                        < out@.len() && out@[to[k]] == found@[k],
            decreases found.len() - i,
        {
            let rec = found[i];
            assert(raw.contains_key((prefix@, rec.mui)));
            if self.holds_for(rec.ltime, prefix, rec.mui) {
                proof {
                    to = to.push(out@.len() as int);
                    from = from.push(i as int);
                }
                out.push(rec);
            } else {
                proof {
                    to = to.push(0);
                }
            }
            i = i + 1;
        }
        proof {
            assert forall|j: int, l: int| 0 <= j < l < out@.len() implies (#[trigger] out@[j]).mui != (
            #[trigger] out@[l]).mui by {
                assert(from[j] < from[l]);
            }
            assert forall|j: int| 0 <= j < out@.len() implies wanted(mui, (#[trigger] out@[j]).mui) && raw_visible(
                self.rib,
                prefix@,
                out@[j].mui,
                mui is Some,
                include_withdrawn,
            ) == Some(out@[j]) by {
                assert(found@[from[j]] == out@[j]);
            }
            assert forall|m: IngressId|
                wanted(mui, m) && live(raw, self.values@, (prefix@, m)) && (#[trigger] raw_visible(
                    self.rib,
                    prefix@,
                    m,
                    mui is Some,
                    include_withdrawn,
                )) is Some implies exists|j: int| 0 <= j < out@.len() && (#[trigger] out@[j]).mui == m by {
                let k = choose|k: int| 0 <= k < found@.len() && (#[trigger] found@[k]).mui == m;
                assert(out@[to[k]].mui == m);
            }
        }
        out
    }

    /// The number of records of a prefix, whatever their status.
    fn count_records(&self, prefix: &Prefix) -> (r: usize)
        requires
            self.wf_but_keys(),
            prefix.wf(),
        ensures
            self@.muis(prefix@).finite(),
            r == self@.muis(prefix@).len(),
            r > 0 <==> self@.has_prefix(prefix@),
    {
        let found = self.live_records_for_prefix(prefix, None, true);
        proof {
            lemma_count(self.rib, self.values@, prefix@, found@);
        }
        found.len()
    }

    /// The records of a prefix that are shown, of all ingresses or of one.
    pub fn get_records_for_prefix(&self, prefix: &Prefix, mui: Option<IngressId>, include_withdrawn: bool) -> (r:
        Vec<Record<M>>)
        requires
            self.wf(),
            prefix.wf(),
        ensures
            listed(self@, prefix@, mui, include_withdrawn, r@),
    {
        let found = self.live_records_for_prefix(prefix, mui, include_withdrawn);
        let ghost s = self@;
        let mut out: Vec<Record<M>> = Vec::new();
        let mut i: usize = 0;
        while i < found.len()
            invariant
                i <= found.len(),
                out@.len() == i,
                s == self@,
                handles_ok(raw_records(self.rib), self.values@, self.free@),
                all_live(self.rib, self.values@, prefix@, mui, include_withdrawn, found@),
                forall|j: int|
                    0 <= j < i ==> found@[j].mui == (#[trigger] out@[j]).multi_uniq_id && s.shown(
                        prefix@,
                        out@[j].multi_uniq_id,
                        mui is Some,
                        include_withdrawn,
                    ) == Some(out@[j]@),
            decreases found.len() - i,
        {
            let rec = found[i];
            proof {
                lemma_shown(self.rib, self.values@, prefix@, rec.mui, mui is Some, include_withdrawn);
            }
            match &self.values[rec.ltime as usize] {
                Some(x) => {
                    out.push(
                        Record {
                            multi_uniq_id: rec.mui,
                            ltime: x.ltime,
                            status: rec.status,
                            meta: x.value.duplicate(),
                        },
                    );
                },
                None => {},
            }
            i = i + 1;
        }
        proof {
            assert forall|m: IngressId|
                wanted(mui, m) && (#[trigger] s.shown(prefix@, m, mui is Some, include_withdrawn)) is Some implies exists|
                i: int,
            | 0 <= i < out@.len() && (#[trigger] out@[i]).multi_uniq_id == m by {
                lemma_shown(self.rib, self.values@, prefix@, m, mui is Some, include_withdrawn);
                let k = choose|k: int| 0 <= k < found@.len() && (#[trigger] found@[k]).mui == m;
                assert(out@[k].multi_uniq_id == m);
            }
        }
        out
    }

    /// Puts a record in the place of its prefix and ingress. A record that
    /// was there is replaced.
    pub fn insert(&mut self, prefix: &Prefix, rec: Record<M>) -> (r: Result<UpsertReport, String>)
        requires
            old(self).wf(),
            prefix.wf(),
        ensures
            final(self).wf(),
            r matches Ok(report) && {
                &&& final(self)@ == old(self)@.with_record(prefix@, rec.multi_uniq_id, rec@)
                &&& report.prefix_new == !old(self)@.has_prefix(prefix@)
                &&& report.mui_new == !old(self)@.holds(prefix@, rec.multi_uniq_id)
                &&& final(self)@.muis(prefix@).finite()
                &&& report.mui_count == final(self)@.muis(prefix@).len()
            },
    {
        let mui: IngressId = rec.multi_uniq_id;
        let ghost key = (prefix@, mui);
        let ghost view = rec@;
        let mui_new = !self.contains(prefix, mui);
        let count: usize = self.count_records(prefix);
        let ghost raw = raw_records(self.rib);
        let ghost values = self.values@;
        let ghost free = self.free@;
        proof {
            assert(self@.records.dom() =~= live_keys(raw, values));
        }
        let place: Option<u64> = if mui_new {
            self.free.pop()
        } else {
            self.handle_of(prefix, mui)
        };
        let h: u64 = match place {
            Some(h) => h,
            None => self.values.len() as u64,
        };
        let ghost value = (h, rec.status);
        let cas_count: usize = match raw_insert(
            &mut self.rib,
            prefix,
            RawRecord { mui, ltime: h, status: rec.status },
        ) {
            Ok(n) => n,
            Err(e) => return Err(e),
        };
        let held = Held { prefix: *prefix, mui, ltime: rec.ltime, value: rec.meta };
        let ghost it = held;
        if (h as usize) < self.values.len() {
            self.values.set(h as usize, Some(held));
        } else {
            self.values.push(Some(held));
        }
        assert(self.values@.len() == self.values.len());
        if count == 0 {
            self.keys.push(*prefix);
        }
        proof {
            let now = raw_records(self.rib);
            let before = old(self)@.records;
            if mui_new {
                lemma_place_taken(raw, values, free, key, value, it, self.values@, self.free@);
            } else {
                lemma_place_kept(raw, values, free, key, value, it);
            }
            assert(self@.records.dom() =~= live_keys(now, self.values@));
            assert(self@.records =~= before.insert(key, view)) by {
                assert forall|k: (PrefixKey, IngressId)| k != key && #[trigger] before.contains_key(k) implies self@.records[k]
                    == before[k] by {
                    assert(live(raw, values, k));
                }
            }
            lemma_key_pushed(old(self)@, self@, old(self).keys@, self.keys@, *prefix, mui, count == 0);
            lemma_muis_inserted(old(self)@, self@, prefix@, mui, mui_new);
            lemma_pairs(prefix@, self@.muis(prefix@));
            vstd::set_lib::lemma_len_subset(pairs(prefix@, self@.muis(prefix@)), live_keys(now, self.values@));
        }
        Ok(
            UpsertReport {
                cas_count,
                prefix_new: count == 0,
                mui_new,
                mui_count: if mui_new {
                    count + 1
                } else {
                    count
                },
            },
        )
    }

    /// Gives a place another time, if it holds what the record of a prefix and
    /// an ingress stands for.
    fn note_time(&mut self, h: u64, prefix: &Prefix, mui: IngressId, ltime: u64)
        requires
            (h as int) < old(self).values@.len(),
        ensures
            final(self).rib == old(self).rib,
            final(self).free == old(self).free,
            final(self).keys == old(self).keys,
            final(self).values@ == (if held_for(old(self).values@, h as int, (prefix@, mui)) {
                old(self).values@.update(
                    h as int,
                    Some(Held { ltime, ..old(self).values@[h as int]->Some_0 }),
                )
            } else {
                old(self).values@
            }),
    {
        if self.holds_for(h, prefix, mui) {
            assert(self.values@.len() == self.values.len());
            self.values.push(None);
            match self.values.swap_remove(h as usize) {
                Some(x) => {
                    let Held { prefix: p, mui: m, ltime: _, value } = x;
                    self.values.set(h as usize, Some(Held { prefix: p, mui: m, ltime, value }));
                },
                None => {},
            }
            assert(self.values@ =~= old(self).values@.update(
                h as int,
                Some(Held { ltime, ..old(self).values@[h as int]->Some_0 }),
            ));
        }
    }

    /// Gives a record the status withdrawn. It is an error if the store has
    /// not met the prefix; from then on it has.
    pub fn mark_mui_as_withdrawn_for_prefix(&mut self, prefix: &Prefix, mui: IngressId, ltime: u64) -> (r: Result<
        (),
        String,
    >)
        requires
            old(self).wf(),
            prefix.wf(),
        ensures
            final(self).wf(),
            r is Ok == old(self)@.known.contains(prefix@),
            final(self)@ == (StoreView {
                records: if old(self)@.holds(prefix@, mui) {
                    old(self)@.records.insert(
                        (prefix@, mui),
                        RecordView {
                            ltime,
                            status: RouteStatus::Withdrawn,
                            meta: old(self)@.records[(prefix@, mui)].meta,
                        },
                    )
                } else {
                    old(self)@.records
                },
                known: old(self)@.known.insert(prefix@),
                ..old(self)@
            }),
    {
        let place: Option<u64> = self.handle_of(prefix, mui);
        let h: u64 = match place {
            Some(h) => h,
            None => 0,
        };
        let r = raw_mark_withdrawn_for_prefix(&mut self.rib, prefix, mui, h);
        let ghost key = (prefix@, mui);
        assert(raw_records(self.rib).dom() =~= raw_records(old(self).rib).dom());
        if place.is_some() {
            assert(raw_records(old(self).rib).contains_key(key));
            self.note_time(h, prefix, mui, ltime);
        }
        proof {
            assert(raw_records(self.rib).dom() =~= raw_records(old(self).rib).dom());
            let raw = raw_records(old(self).rib);
            let values = old(self).values@;
            if old(self)@.holds(prefix@, mui) {
                lemma_place_kept(
                    raw,
                    values,
                    self.free@,
                    key,
                    (h, RouteStatus::Withdrawn),
                    Held { ltime, ..values[h as int]->Some_0 },
                );
            }
            assert(live_keys(raw_records(self.rib), self.values@) =~= live_keys(raw, values)) by {
                assert forall|k: (PrefixKey, IngressId)| #[trigger]
                    live(raw_records(self.rib), self.values@, k) == live(raw, values, k) by {}
            }
            assert(self@.records.dom() =~= old(self)@.records.dom());
            if old(self)@.holds(prefix@, mui) {
                let rec = RecordView {
                    ltime,
                    status: RouteStatus::Withdrawn,
                    meta: old(self)@.records[key].meta,
                };
                assert(self@.records =~= old(self)@.records.insert(key, rec)) by {
                    assert forall|k: (PrefixKey, IngressId)| k != key && #[trigger] old(self)@.records.contains_key(
                        k,
                    ) implies self@.records[k] == old(self)@.records[k] by {
                        assert(live(raw, values, k));
                    }
                }
            } else {
                assert(self@.records =~= old(self)@.records);
            }
            assert forall|p: PrefixKey| #[trigger] self@.has_prefix(p) == old(self)@.has_prefix(p) by {
                if self@.has_prefix(p) {
                    let m = choose|m: IngressId| #[trigger] self@.records.contains_key((p, m));
                    assert(old(self)@.records.contains_key((p, m)));
                }
                if old(self)@.has_prefix(p) {
                    let m = choose|m: IngressId| #[trigger] old(self)@.records.contains_key((p, m));
                    assert(self@.records.contains_key((p, m)));
                }
            }
        }
        r
    }

    /// Drops every record of an ingress and ends its withdrawal.
    pub fn remove_mui(&mut self, mui: IngressId)
        requires
            old(self).wf(),
        ensures
            final(self).wf(),
            final(self)@ == old(self)@.without_mui(mui),
    {
        let ghost raw = raw_records(self.rib);
        let ghost before = self.values@;
        let n: usize = self.keys.len();
        let mut i: usize = 0;
        while i < n
            invariant
                i <= n,
                n == self.keys@.len(),
                self.rib == old(self).rib,
                self.keys@ == old(self).keys@,
                raw == raw_records(self.rib),
                before == old(self).values@,
                before.len() == self.values@.len(),
                handles_ok(raw, self.values@, self.free@),
                distinct_keys(self.keys@),
                forall|h: int|
                    0 <= h < before.len() ==> (#[trigger] self.values@[h]) is None || self.values@[h] == before[h],
                forall|h: int|
                    0 <= h < before.len() && (before[h] matches Some(x) && x.mui != mui) ==> #[trigger] self.values@[h]
                        == before[h],
                forall|j: int| 0 <= j < i ==> !live(raw, self.values@, ((#[trigger] self.keys@[j])@, mui)),
            decreases n - i,
        {
            match self.handle_of(&self.keys[i], mui) {
                Some(h) => {
                    let ghost k = (self.keys@[i as int]@, mui);
                    assert(raw.contains_key(k));
                    if self.holds_for(h, &self.keys[i], mui) {
                        proof {
                            lemma_place_freed(raw, self.values@, self.free@, k);
                        }
                        self.values.set(h as usize, None);
                        self.free.push(h);
                    }
                },
                None => {},
            }
            i = i + 1;
        }
        let _ = raw_mark_active_v4(&mut self.rib, mui);
        let _ = raw_mark_active_v6(&mut self.rib, mui);
        proof {
            assert forall|k: (PrefixKey, IngressId)| #[trigger] live(raw, self.values@, k) == (live(raw, before, k)
                && k.1 != mui) by {
                if k.1 == mui && live(raw, self.values@, k) {
                    assert(live(raw, before, k));
                    assert(old(self)@.records.contains_key((k.0, mui)));
                    assert(has_key(old(self).keys@, k.0));
                    let j = choose|j: int| 0 <= j < self.keys@.len() && (#[trigger] self.keys@[j])@ == k.0;
                    assert(k == (self.keys@[j]@, mui));
                }
                if live(raw, before, k) && k.1 != mui {
                    assert(self.values@[raw[k].0 as int] == before[raw[k].0 as int]);
                }
            }
            assert(self@.records =~= old(self)@.without_mui(mui).records);
        }
        self.drop_empty_keys();
    }

    /// A prefix that has a record is one that the store has met.
    pub proof fn lemma_known(self)
        requires
            self.wf(),
        ensures
            forall|k: (PrefixKey, IngressId)| #[trigger] self@.records.contains_key(k) ==> self@.known.contains(k.0),
    {
        assert forall|k: (PrefixKey, IngressId)| #[trigger] self@.records.contains_key(k) implies self@.known.contains(
            k.0,
        ) by {
            assert(raw_records(self.rib).contains_key(k));
        }
    }

    /// A prefix that has a record is in canonical form.
    pub proof fn lemma_valid_keys(self)
        requires
            self.wf(),
        ensures
            forall|p: PrefixKey| #[trigger] self@.has_prefix(p) ==> valid_key(p),
    {
        assert forall|p: PrefixKey| #[trigger] self@.has_prefix(p) implies valid_key(p) by {
            assert(has_key(self.keys@, p));
            let i = choose|i: int| 0 <= i < self.keys@.len() && (#[trigger] self.keys@[i])@ == p;
            assert(self.keys@[i].wf());
        }
    }

    /// Overwrites one record with a blank one, if it is there.
    fn blank_one(&mut self, prefix: &Prefix, mui: IngressId, blank: &M)
        requires
            old(self).wf(),
            prefix.wf(),
        ensures
            final(self).wf(),
            blanked(old(self)@, final(self)@, set![(prefix@, mui)], blank@),
    {
        proof {
            self.lemma_known();
        }
        if !self.contains(prefix, mui) {
            return;
        }
        assert(self@.records.contains_key((prefix@, mui)));
        assert(self@.known.insert(prefix@) =~= self@.known);
        let _ = self.insert(
            prefix,
            Record { multi_uniq_id: mui, ltime: 0, status: RouteStatus::Withdrawn, meta: blank.duplicate() },
        );
        assert(self@.records.dom() =~= old(self)@.records.dom());
    }

    /// Overwrites the records of some ingresses under one prefix with blank
    /// ones.
    fn blank_prefix(&mut self, prefix: &Prefix, ids: &HashSet<IngressId>, blank: &M)
        requires
            old(self).wf(),
            prefix.wf(),
        ensures
            final(self).wf(),
            blanked(
                old(self)@,
                final(self)@,
                Set::new(|k: (PrefixKey, IngressId)| k.0 == prefix@ && ids@.contains(k.1)),
                blank@,
            ),
    {
        let found = self.live_records_for_prefix(prefix, None, true);
        let ghost rib0 = self.rib;
        let ghost values0 = self.values@;
        let ghost all = Set::new(|k: (PrefixKey, IngressId)| k.0 == prefix@ && ids@.contains(k.1));
        let ghost mut done: Set<(PrefixKey, IngressId)> = Set::empty();
        let mut i: usize = 0;
        assert(blanked(self@, self@, done, blank@));
        while i < found.len()
            invariant
                i <= found@.len(),
                self.wf(),
                prefix.wf(),
                all == Set::new(|k: (PrefixKey, IngressId)| k.0 == prefix@ && ids@.contains(k.1)),
                blanked(old(self)@, self@, done, blank@),
                forall|k: (PrefixKey, IngressId)| #[trigger]
                    done.contains(k) ==> k.0 == prefix@ && ids@.contains(k.1),
                forall|j: int| 0 <= j < i && ids@.contains((#[trigger] found@[j]).mui) ==> done.contains((prefix@, found@[j].mui)),
            decreases found@.len() - i,
        {
            let mui: IngressId = found[i].mui;
            if ids.contains(&mui) {
                let ghost before = self@;
                self.blank_one(prefix, mui, blank);
                proof {
                    lemma_blanked_twice(old(self)@, before, self@, done, set![(prefix@, mui)], blank@);
                    done = done.union(set![(prefix@, mui)]);
                }
            }
            i = i + 1;
        }
        proof {
            let s0 = content(rib0, values0);
            assert forall|k: (PrefixKey, IngressId)| #[trigger] self@.records.contains_key(k) implies done.contains(k)
                == all.contains(k) by {
                if all.contains(k) {
                    assert(old(self)@.records.contains_key(k));
                    assert(live(raw_records(rib0), values0, (prefix@, k.1)));
                    assert(raw_visible(rib0, prefix@, k.1, false, true) is Some);
                    let j = choose|j: int| 0 <= j < found@.len() && (#[trigger] found@[j]).mui == k.1;
                    assert(done.contains((prefix@, found@[j].mui)));
                }
            }
            lemma_blanked_same(old(self)@, self@, done, all, blank@);
        }
    }

    /// Overwrites the records of some ingresses in a scope with blank ones.
    pub fn blank_records(&mut self, ids: &HashSet<IngressId>, scope: &Scope, blank: &M)
        requires
            old(self).wf(),
        ensures
            final(self).wf(),
            blanked(old(self)@, final(self)@, records_in(ids@, *scope), blank@),
    {
        let n: usize = self.keys.len();
        let mut keys: Vec<Prefix> = Vec::new();
        let mut i: usize = 0;
        while i < n
            invariant
                i <= n,
                n == self.keys@.len(),
                keys@ == self.keys@.take(i as int),
            decreases n - i,
        {
            keys.push(self.keys[i]);
            assert(self.keys@.take(i + 1) =~= self.keys@.take(i as int).push(self.keys@[i as int]));
            i = i + 1;
        }
        assert(keys@ =~= self.keys@);
        let ghost mut done: Set<(PrefixKey, IngressId)> = Set::empty();
        let ghost all = records_in(ids@, *scope);
        let mut i: usize = 0;
        assert(blanked(self@, self@, done, blank@));
        while i < n
            invariant
                i <= n,
                n == keys@.len(),
                self.wf(),
                distinct_keys(keys@),
                all == records_in(ids@, *scope),
                blanked(old(self)@, self@, done, blank@),
                forall|k: (PrefixKey, IngressId)| #[trigger]
                    done.contains(k) ==> all.contains(k),
                forall|j: int, m: IngressId|
                    0 <= j < i && all.contains(((#[trigger] keys@[j])@, m)) ==> #[trigger] done.contains((keys@[j]@, m)),
            decreases n - i,
        {
            let key = keys[i];
            if scope.includes(&key) {
                let ghost before = self@;
                self.blank_prefix(&key, ids, blank);
                proof {
                    let sel = Set::new(|k: (PrefixKey, IngressId)| k.0 == key@ && ids@.contains(k.1));
                    lemma_blanked_twice(old(self)@, before, self@, done, sel, blank@);
                    done = done.union(sel);
                }
            }
            i = i + 1;
        }
        proof {
            assert forall|k: (PrefixKey, IngressId)| #[trigger] self@.records.contains_key(k) implies done.contains(k)
                == all.contains(k) by {
                if all.contains(k) {
                    assert(old(self)@.records.contains_key((k.0, k.1)));
                    assert(old(self)@.has_prefix(k.0));
                    assert(has_key(keys@, k.0));
                    let j = choose|j: int| 0 <= j < keys@.len() && (#[trigger] keys@[j])@ == k.0;
                    assert(done.contains((keys@[j]@, k.1)));
                }
            }
            lemma_blanked_same(old(self)@, self@, done, all, blank@);
        }
    }

    /// Whether `count_records` can be asked: all of `wf` but that the keys
    /// may list prefixes without records.
    spec fn wf_but_keys(self) -> bool {
        &&& handles_ok(raw_records(self.rib), self.values@, self.free@)
        &&& distinct_keys(self.keys@)
        &&& forall|p: PrefixKey| #[trigger] self@.has_prefix(p) ==> has_key(self.keys@, p)
        &&& forall|k: (PrefixKey, IngressId)| #[trigger]
            raw_records(self.rib).contains_key(k) ==> raw_slots(self.rib).contains(k.0)
    }

    /// Forgets the prefixes that have no record any more.
    fn drop_empty_keys(&mut self)
        requires
            old(self).wf_but_keys(),
        ensures
            final(self).wf(),
            final(self)@ == old(self)@,
    {
        let mut kept: Vec<Prefix> = Vec::new();
        let ghost mut from: Seq<int> = Seq::empty();
        let mut i: usize = 0;
        while i < self.keys.len()
            invariant
                i <= self.keys@.len(),
                *self == *old(self),
                self.wf_but_keys(),
                from.len() == kept@.len(),
                forall|j: int| 0 <= j < kept@.len() ==> 0 <= #[trigger] from[j] < i && self.keys@[from[j]] == kept@[j],
                forall|j: int, l: int| 0 <= j < l < kept@.len() ==> #[trigger] from[j] < #[trigger] from[l],
                forall|j: int| 0 <= j < kept@.len() ==> self@.has_prefix((#[trigger] kept@[j])@),
                forall|k: int|
                    0 <= k < i && self@.has_prefix((#[trigger] self.keys@[k])@) ==> has_key(kept@, self.keys@[k]@),
            decreases self.keys@.len() - i,
        {
            let key = self.keys[i];
            let count: usize = self.count_records(&key);
            let ghost was = kept@;
            if count > 0 {
                proof {
                    from = from.push(i as int);
                }
                kept.push(key);
                assert(kept@[was.len() as int]@ == key@);
            }
            proof {
                assert forall|k: int| 0 <= k < i + 1 && self@.has_prefix((#[trigger] self.keys@[k])@) implies has_key(
                    kept@,
                    self.keys@[k]@,
                ) by {
                    if k < i {
                        assert(has_key(was, self.keys@[k]@));
                        let j = choose|j: int| 0 <= j < was.len() && (#[trigger] was[j])@ == self.keys@[k]@;
                        assert(kept@[j]@ == self.keys@[k]@);
                    }
                }
            }
            i = i + 1;
        }
        proof {
            assert forall|j: int, l: int| 0 <= j < l < kept@.len() implies (#[trigger] kept@[j])@ != (
            #[trigger] kept@[l])@ by {
                assert(from[j] < from[l]);
            }
            assert forall|j: int| 0 <= j < kept@.len() implies (#[trigger] kept@[j]).wf() by {
                assert(self.keys@[from[j]] == kept@[j]);
            }
            assert forall|p: PrefixKey| #[trigger] has_key(kept@, p) == self@.has_prefix(p) by {
                if self@.has_prefix(p) {
                    let k = choose|k: int| 0 <= k < self.keys@.len() && (#[trigger] self.keys@[k])@ == p;
                    assert(self@.has_prefix(self.keys@[k]@));
                }
            }
        }
        self.keys = kept;
    }

    /// The number of prefixes that have a record, of IPv4 and of IPv6.
    pub fn count_prefixes(&self) -> (r: (usize, usize))
        requires
            self.wf(),
        ensures
            prefixes_of(self@, true).finite(),
            prefixes_of(self@, false).finite(),
            r.0 == prefixes_of(self@, true).len(),
            r.1 == prefixes_of(self@, false).len(),
            r.0 + r.1 <= usize::MAX,
    {
        let ghost s = self@;
        let mut v4: usize = 0;
        let mut v6: usize = 0;
        let ghost mut a: Set<PrefixKey> = Set::empty();
        let ghost mut b: Set<PrefixKey> = Set::empty();
        let mut i: usize = 0;
        while i < self.keys.len()
            invariant
                i <= self.keys@.len(),
                self.wf(),
                s == self@,
                v4 + v6 == i,
                a.finite() && b.finite(),
                v4 == a.len(),
                v6 == b.len(),
                forall|p: PrefixKey| #[trigger] a.contains(p) ==> prefixes_of(s, true).contains(p) && keys_before(self.keys@, i as int, p),
                forall|p: PrefixKey| #[trigger] b.contains(p) ==> prefixes_of(s, false).contains(p) && keys_before(self.keys@, i as int, p),
                forall|k: int|
                    0 <= k < i ==> if (#[trigger] self.keys@[k])@.0 {
                        a.contains(self.keys@[k]@)
                    } else {
                        b.contains(self.keys@[k]@)
                    },
            decreases self.keys@.len() - i,
        {
            let key = self.keys[i];
            proof {
                assert(has_key(self.keys@, self.keys@[i as int]@));
                if keys_before(self.keys@, i as int, key@) {
                    let k = choose|k: int| 0 <= k < i && (#[trigger] self.keys@[k])@ == key@;
                    assert(self.keys@[k]@ != self.keys@[i as int]@);
                }
                lemma_keys_before(self.keys@, i as int);
            }
            if key.is_v4() {
                v4 = v4 + 1;
                proof {
                    a = a.insert(key@);
                }
            } else {
                v6 = v6 + 1;
                proof {
                    b = b.insert(key@);
                }
            }
            i = i + 1;
        }
        proof {
            assert forall|p: PrefixKey| s.has_prefix(p) implies (if p.0 {
                a.contains(p)
            } else {
                b.contains(p)
            }) by {
                assert(has_key(self.keys@, p));
                let k = choose|k: int| 0 <= k < self.keys@.len() && (#[trigger] self.keys@[k])@ == p;
            }
            assert(a =~= prefixes_of(s, true));
            assert(b =~= prefixes_of(s, false));
        }
        (v4, v6)
    }

    /// The number of records, whatever their status, or the greatest number.
    pub fn count_routes(&self) -> (r: usize)
        requires
            self.wf(),
        ensures
            self@.records.dom().finite(),
            r == (if self@.records.dom().len() <= usize::MAX {
                self@.records.dom().len() as usize
            } else {
                usize::MAX
            }),
    {
        let ghost s = self@;
        let mut n: usize = 0;
        let ghost mut seen: Set<(PrefixKey, IngressId)> = Set::empty();
        let mut i: usize = 0;
        while i < self.keys.len()
            invariant
                i <= self.keys@.len(),
                self.wf(),
                s == self@,
                seen.finite(),
                n == (if seen.len() <= usize::MAX {
                    seen.len() as usize
                } else {
                    usize::MAX
                }),
                forall|k: (PrefixKey, IngressId)| #[trigger]
                    seen.contains(k) ==> s.records.contains_key(k) && keys_before(self.keys@, i as int, k.0),
                forall|j: int, m: IngressId|
                    0 <= j < i && s.records.contains_key(((#[trigger] self.keys@[j])@, m)) ==> #[trigger] seen.contains(
                        (self.keys@[j]@, m),
                    ),
            decreases self.keys@.len() - i,
        {
            let key = self.keys[i];
            let c: usize = self.count_records(&key);
            proof {
                if keys_before(self.keys@, i as int, key@) {
                    let k = choose|k: int| 0 <= k < i && (#[trigger] self.keys@[k])@ == key@;
                    assert(self.keys@[k]@ != self.keys@[i as int]@);
                }
                lemma_keys_before(self.keys@, i as int);
                let ids = s.muis(key@);
                let add = pairs(key@, ids);
                lemma_pairs(key@, ids);
                assert(seen.disjoint(add));
                vstd::set_lib::lemma_set_disjoint_lens(seen, add);
                seen = seen + add;
            }
            n = n.saturating_add(c);
            i = i + 1;
        }
        proof {
            assert forall|k: (PrefixKey, IngressId)| s.records.contains_key(k) implies #[trigger] seen.contains(k) by {
                assert(s.records.contains_key((k.0, k.1)));
                assert(s.has_prefix(k.0));
                assert(has_key(self.keys@, k.0));
                let j = choose|j: int| 0 <= j < self.keys@.len() && (#[trigger] self.keys@[j])@ == k.0;
                assert(seen.contains((self.keys@[j]@, k.1)));
            }
            assert(seen =~= s.records.dom());
        }
        n
    }

    /// The prefixes of a scope that have a record that is shown, with those
    /// records.
    pub fn prefix_records(&self, scope: &Scope, mui: Option<IngressId>, include_withdrawn: bool) -> (r: Vec<
        PrefixRecord<M>,
    >)
        requires
            self.wf(),
        ensures
            set_listed(self@, *scope, mui, include_withdrawn, r@),
    {
        let ghost s = self@;
        let mut out: Vec<PrefixRecord<M>> = Vec::new();
        let ghost mut from: Seq<int> = Seq::empty();
        let ghost mut to: Seq<int> = Seq::empty();
        let mut i: usize = 0;
        while i < self.keys.len()
            invariant
                i <= self.keys@.len(),
                self.wf(),
                s == self@,
                from.len() == out@.len(),
                to.len() == i,
                forall|j: int|
                    0 <= j < out@.len() ==> 0 <= #[trigger] from[j] < i && self.keys@[from[j]] == out@[j].prefix,
                forall|j: int, l: int| 0 <= j < l < out@.len() ==> #[trigger] from[j] < #[trigger] from[l],
                forall|j: int|
                    0 <= j < out@.len() ==> {
                        &&& (#[trigger] out@[j]).prefix.wf()
                        &&& scope.has(out@[j].prefix@)
                        &&& out@[j].meta@.len() > 0
                        &&& listed(s, out@[j].prefix@, mui, include_withdrawn, out@[j].meta@)
                    },
                forall|k: int|
                    0 <= k < i && scope.has(self.keys@[k]@) && s.shows(self.keys@[k]@, mui, include_withdrawn) ==> 0
                        <= #[trigger] to[k] < out@.len() && out@[to[k]].prefix == self.keys@[k],
            decreases self.keys@.len() - i,
        {
            let key = self.keys[i];
            let ghost n = out@.len() as int;
            assert(key.wf());
            let mut added = false;
            if scope.includes(&key) {
                let meta = self.get_records_for_prefix(&key, mui, include_withdrawn);
                proof {
                    lemma_shows(s, key@, mui, include_withdrawn, meta@);
                }
                if meta.len() > 0 {
                    added = true;
                    out.push(PrefixRecord { prefix: key, meta });
                }
            }
            proof {
                to = to.push(n);
                if added {
                    from = from.push(i as int);
                }
            }
            i = i + 1;
        }
        proof {
            assert forall|j: int, l: int| 0 <= j < l < out@.len() implies (#[trigger] out@[j]).prefix@ != (
            #[trigger] out@[l]).prefix@ by {
                assert(from[j] < from[l]);
                assert(self.keys@[from[j]] == out@[j].prefix);
                assert(self.keys@[from[l]] == out@[l].prefix);
            }
            assert forall|p: PrefixKey| scope.has(p) && #[trigger] s.shows(p, mui, include_withdrawn) implies exists|
                i: int,
            | 0 <= i < out@.len() && (#[trigger] out@[i]).prefix@ == p by {
                lemma_shows_has(s, p, mui, include_withdrawn);
                assert(has_key(self.keys@, p));
                let k = choose|k: int| 0 <= k < self.keys@.len() && (#[trigger] self.keys@[k])@ == p;
                assert(out@[to[k]].prefix == self.keys@[k]);
            }
        }
        out
    }

    /// The longest prefix with a record that covers `search`, if any.
    fn longest_match(&self, search: &Prefix) -> (r: Option<Prefix>)
        requires
            self.wf(),
        ensures
            match r {
                Some(p) => p.wf() && is_longest(self@, search@, p@),
                None => forall|q: PrefixKey| #[trigger] self@.has_prefix(q) ==> !covers(q, search@),
            },
    {
        let mut best: Option<Prefix> = None;
        let mut i: usize = 0;
        while i < self.keys.len()
            invariant
                i <= self.keys@.len(),
                self.wf(),
                best matches Some(p) ==> p.wf() && self@.has_prefix(p@) && covers(p@, search@),
                forall|k: int|
                    0 <= k < i && covers((#[trigger] self.keys@[k])@, search@) ==> best is Some && self.keys@[k]@.2
                        <= best->Some_0@.2,
            decreases self.keys@.len() - i,
        {
            let key = self.keys[i];
            proof {
                assert(has_key(self.keys@, self.keys@[i as int]@));
            }
            if key.covers_prefix(search) {
                match best {
                    Some(b) => {
                        if b.len < key.len {
                            best = Some(key);
                        }
                    },
                    None => {
                        best = Some(key);
                    },
                }
            }
            i = i + 1;
        }
        proof {
            assert forall|q: PrefixKey| #[trigger] self@.has_prefix(q) && covers(q, search@) implies best is Some
                && q.2 <= best->Some_0@.2 by {
                assert(has_key(self.keys@, q));
                let k = choose|k: int| 0 <= k < self.keys@.len() && (#[trigger] self.keys@[k])@ == q;
                assert(covers(self.keys@[k]@, search@));
            }
        }
        best
    }

    /// Answers a query for a prefix.
    pub fn match_prefix(&self, search: &Prefix, options: &MatchOptions) -> (r: QueryResult<M>)
        requires
            self.wf(),
            search.wf(),
        ensures
            answers(self@, *search, *options, r),
    {
        let landed: Option<Prefix> = match options.match_type {
            MatchType::ExactMatch => {
                if self.count_records(search) > 0 {
                    Some(*search)
                } else {
                    None
                }
            },
            MatchType::LongestMatch => self.longest_match(search),
        };
        let ghost found: Option<PrefixKey> = match landed {
            Some(p) => Some(p@),
            None => None,
        };
        assert(lands_on(self@, search@, options.match_type, found));
        let mut prefix: Option<Prefix> = None;
        let mut records: Vec<Record<M>> = Vec::new();
        match landed {
            Some(p) => {
                let meta = self.get_records_for_prefix(&p, options.mui, options.include_withdrawn);
                proof {
                    lemma_shows(self@, p@, options.mui, options.include_withdrawn, meta@);
                }
                if meta.len() > 0 {
                    prefix = Some(p);
                    records = meta;
                }
            },
            None => {},
        }
        let less_specifics = if options.include_less_specifics {
            Some(self.prefix_records(&Scope::LessSpecific(*search), options.mui, options.include_withdrawn))
        } else {
            None
        };
        let more_specifics = if options.include_more_specifics {
            Some(self.prefix_records(&Scope::MoreSpecific(*search), options.mui, options.include_withdrawn))
        } else {
            None
        };
        QueryResult { prefix, records, less_specifics, more_specifics }
    }
}

} // verus!
