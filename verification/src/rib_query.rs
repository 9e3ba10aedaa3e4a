//! What a table holds: how much, and the routes that are in use.
use vstd::prelude::*;

use crate::dump::{chunks_add_up, dumped, DumpCursor};
use crate::flowspec::FlowSpecRuleSet;
use crate::pamap::RotondaPaMap;
use crate::rib::Rib;
use crate::store::{
    answers, distinct_keys, has_key, prefixes_of, set_listed, MatchOptions, PrefixRecord, QueryResult, RouteStore, Scope, Stored,
    StoreView,
};
use crate::types::{IngressId, Prefix, PrefixKey};

verus! {

/// The number of dumps of a whole table that may go on at once.
pub const MAX_CONCURRENT_DUMPS: usize = 8;

/// The number of dumps of a whole table that are going on.
#[derive(Debug)]
pub struct ActiveDumps {
    count: usize,
}

impl View for ActiveDumps {
    type V = nat;

    closed spec fn view(&self) -> nat {
        self.count as nat
    }
}

impl ActiveDumps {
    /// No dump is going on.
    pub fn new() -> (r: Self)
        ensures
            r@ == 0,
    {
        ActiveDumps { count: 0 }
    }
}

/// A place among the dumps that are going on.
#[derive(Debug)]
#[must_use]
pub struct DumpGuard;

impl DumpGuard {
    /// Takes a place, whether there is one or not. It counts all the same.
    pub fn enter(active: &mut ActiveDumps) -> (r: DumpGuard)
        requires
            old(active)@ < usize::MAX,
        ensures
            final(active)@ == old(active)@ + 1,
    {
        active.count = active.count + 1;
        DumpGuard
    }

    /// Takes a place if there is one left.
    pub fn try_enter(active: &mut ActiveDumps) -> (r: Option<DumpGuard>)
        ensures
            r is Some == (old(active)@ < MAX_CONCURRENT_DUMPS),
            final(active)@ == (if r is Some {
                old(active)@ + 1
            } else {
                old(active)@
            }),
            old(active)@ <= MAX_CONCURRENT_DUMPS ==> final(active)@ <= MAX_CONCURRENT_DUMPS,
    {
        if active.count >= MAX_CONCURRENT_DUMPS {
            None
        } else {
            active.count = active.count + 1;
            Some(DumpGuard)
        }
    }

    /// Gives a place back.
    pub fn leave(self, active: &mut ActiveDumps)
        requires
            old(active)@ > 0,
        ensures
            final(active)@ == old(active)@ - 1,
    {
        active.count = active.count - 1;
    }

    /// The number of dumps that are going on.
    pub fn active(active: &ActiveDumps) -> (r: usize)
        ensures
            r == active@,
    {
        active.count
    }
}

/// What is done with the places for dumps.
pub enum DumpOp {
    Enter,
    TryEnter,
    Leave,
}

impl DumpOp {
    /// Whether a place is taken.
    pub open spec fn takes(self, count: nat) -> bool {
        self is Enter || self is TryEnter && count < MAX_CONCURRENT_DUMPS
    }

    /// What it does to the number of dumps that are going on.
    pub open spec fn done(self, before: nat, after: nat) -> bool {
        match self {
            DumpOp::Leave => before > 0 && after == before - 1,
            _ => after == before + (if self.takes(before) {
                1nat
            } else {
                0
            }),
        }
    }
}

/// The number of places that are taken, one after the other.
pub open spec fn places_taken(counts: Seq<nat>, ops: Seq<DumpOp>) -> nat
    decreases ops.len(),
{
    if ops.len() == 0 {
        0
    } else {
        places_taken(counts, ops.drop_last()) + (if ops.last().takes(counts[ops.len() - 1]) {
            1nat
        } else {
            0
        })
    }
}

/// How often something is done.
pub open spec fn times_done(ops: Seq<DumpOp>, op: DumpOp) -> nat
    decreases ops.len(),
{
    if ops.len() == 0 {
        0
    } else {
        times_done(ops.drop_last(), op) + (if ops.last() == op {
            1nat
        } else {
            0
        })
    }
}

/// Whether one thing after the other was done.
pub open spec fn dump_ops_done(counts: Seq<nat>, ops: Seq<DumpOp>) -> bool {
    &&& counts.len() == ops.len() + 1
    &&& forall|i: int| 0 <= i < ops.len() ==> (#[trigger] ops[i]).done(counts[i], counts[i + 1])
}

/// After any sequence of operations, the count is that at the start and the
/// places that were taken since, less those that were given back. Only places
/// that are taken whether there is one or not can take a count within the
/// limit beyond it, and a count beyond it any further.
pub proof fn the_count_is_the_places_held(counts: Seq<nat>, ops: Seq<DumpOp>)
    requires
        dump_ops_done(counts, ops),
    ensures
        counts.last() + times_done(ops, DumpOp::Leave) == counts[0] + places_taken(counts, ops),
        counts[0] <= MAX_CONCURRENT_DUMPS ==> counts.last() <= MAX_CONCURRENT_DUMPS + times_done(ops, DumpOp::Enter),
        counts[0] > MAX_CONCURRENT_DUMPS ==> counts.last() <= counts[0] + times_done(ops, DumpOp::Enter),
    decreases ops.len(),
{
    if ops.len() > 0 {
        let n = ops.len() - 1;
        let (c, o) = (counts.drop_last(), ops.drop_last());
        assert forall|i: int| 0 <= i < o.len() implies (#[trigger] o[i]).done(c[i], c[i + 1]) by {
            assert(o[i] == ops[i]);
        }
        the_count_is_the_places_held(c, o);
        assert(ops[n].done(counts[n], counts[n + 1]));
        lemma_places_taken(counts, c, o);
    }
}

/// The number of places taken depends on the counts before alone.
proof fn lemma_places_taken(counts: Seq<nat>, c: Seq<nat>, ops: Seq<DumpOp>)
    requires
        c == counts.drop_last(),
        ops.len() < counts.len(),
    ensures
        places_taken(counts, ops) == places_taken(c, ops),
    decreases ops.len(),
{
    if ops.len() > 0 {
        lemma_places_taken(counts, c, ops.drop_last());
        assert(c[ops.len() - 1] == counts[ops.len() - 1]);
    }
}

/// What an insertion did.
#[derive(Clone, Copy, Debug, PartialEq, Eq, Structural)]
pub enum StoreInsertionEffect {
    RoutesWithdrawn(usize),
    RoutesRemoved(usize),
    RouteAdded,
    RouteUpdated,
}

/// How much a store holds. A prefix has as many routes as there are ingresses
/// that have one for it.
#[derive(Clone, Copy, Debug)]
pub struct StoreCounts {
    pub name: &'static str,
    pub prefixes: usize,
    pub prefixes_v4: usize,
    pub prefixes_v6: usize,
    pub routes: usize,
}

/// A number, or the greatest that can be told.
pub open spec fn told_number(n: nat) -> usize {
    if n <= usize::MAX {
        n as usize
    } else {
        usize::MAX
    }
}

/// Whether counts are those of a store.
pub open spec fn counts<T>(c: StoreCounts, name: Seq<char>, s: StoreView<T>) -> bool {
    &&& c.name@ == name
    &&& c.prefixes_v4 == prefixes_of(s, true).len()
    &&& c.prefixes_v6 == prefixes_of(s, false).len()
    &&& c.prefixes == prefixes_of(s, true).len() + prefixes_of(s, false).len()
    &&& c.routes == told_number(s.records.dom().len())
}

/// Counts what a store holds.
fn count_store<M: Stored>(name: &'static str, store: &RouteStore<M>) -> (r: StoreCounts)
    requires
        store.wf(),
    ensures
        counts(r, name@, store@),
{
    let (prefixes_v4, prefixes_v6) = store.count_prefixes();
    StoreCounts { name, prefixes: prefixes_v4 + prefixes_v6, prefixes_v4, prefixes_v6, routes: store.count_routes() }
}

/// Whether an answer holds nothing at all.
pub open spec fn is_void<M>(r: QueryResult<M>) -> bool {
    r.records@.len() == 0 && r.less_specifics is None && r.more_specifics is None
}

/// Whether nothing is found in a store that is asked.
pub open spec fn finds_nothing<M: View>(s: StoreView<M::V>, search: Prefix, o: MatchOptions) -> bool {
    exists|r: QueryResult<M>| #[trigger] answers(s, search, o, r) && is_void(r)
}

fn check_void<M>(r: &QueryResult<M>) -> (b: bool)
    ensures
        b == is_void(*r),
{
    r.records.len() == 0 && r.less_specifics.is_none() && r.more_specifics.is_none()
}

/// Whether a dump holds all prefixes of a store that have a route that is in
/// use, with all such routes.
pub open spec fn whole<M: Stored>(s: StoreView<M::V>, v: Seq<PrefixRecord<M>>) -> bool {
    exists|keys: Seq<Prefix>| #[trigger]
        dumped::<M>(s, keys, v) && forall|p: PrefixKey| #[trigger] has_key(keys, p) == s.has_prefix(p)
}

/// Whether a list holds the prefixes for which an ingress has a route that is
/// in use, first those of IPv4. An ingress that is withdrawn has none.
pub open spec fn of_ingress<M: View>(s: StoreView<M::V>, id: IngressId, v: Seq<PrefixRecord<M>>) -> bool {
    exists|n: int|
        #![trigger v.take(n)]
        0 <= n <= v.len() && family_of_ingress(s, id, true, v.take(n)) && family_of_ingress(s, id, false, v.skip(n))
}

pub open spec fn family_of_ingress<M: View>(
    s: StoreView<M::V>,
    id: IngressId,
    is_v4: bool,
    v: Seq<PrefixRecord<M>>,
) -> bool {
    if s.gone(is_v4).contains(id) {
        v.len() == 0
    } else {
        set_listed(s, Scope::Family(is_v4), Some(id), false, v)
    }
}

/// The routes of an ingress in one family that are in use.
fn routes_of<M: Stored>(store: &RouteStore<M>, id: IngressId, is_v4: bool) -> (r: Vec<PrefixRecord<M>>)
    requires
        store.wf(),
    ensures
        family_of_ingress(store@, id, is_v4, r@),
{
    if store.mui_is_withdrawn(id, is_v4) {
        Vec::new()
    } else {
        store.prefix_records(&Scope::Family(is_v4), Some(id), false)
    }
}

impl Rib {
    /// The store of unicast routes.
    pub fn store(&self) -> (r: Result<&RouteStore<RotondaPaMap>, String>)
        ensures
            r matches Ok(s) && *s == self.unicast,
    {
        Ok(&self.unicast)
    }

    /// How much each store holds.
    pub fn store_counts(&self) -> (r: Vec<StoreCounts>)
        requires
            self.wf(),
        ensures
            r@.len() == 3,
            counts(r@[0], "unicast"@, self.unicast@),
            counts(r@[1], "multicast"@, self.multicast@),
            counts(r@[2], "flowspec"@, self.flowspec@),
    {
        let mut res: Vec<StoreCounts> = Vec::new();
        res.push(count_store("unicast", &self.unicast));
        res.push(count_store("multicast", &self.multicast));
        res.push(count_store("flowspec", &self.flowspec));
        res
    }

    /// Answers a query for a prefix from the unicast routes, or, if there is
    /// nothing at all, from the multicast routes.
    pub fn match_prefix(&self, prefix: &Prefix, match_options: &MatchOptions) -> (r: QueryResult<RotondaPaMap>)
        requires
            self.wf(),
            prefix.wf(),
        ensures
            ({
                ||| answers(self.unicast@, *prefix, *match_options, r) && !is_void(r)
                ||| finds_nothing::<RotondaPaMap>(self.unicast@, *prefix, *match_options) && answers(
                    self.multicast@,
                    *prefix,
                    *match_options,
                    r,
                ) && !is_void(r)
                ||| answers(self.unicast@, *prefix, *match_options, r) && is_void(r) && finds_nothing::<RotondaPaMap>(
                    self.multicast@,
                    *prefix,
                    *match_options,
                )
            }),
    {
        let unicast = self.unicast.match_prefix(prefix, match_options);
        if check_void(&unicast) {
            let multicast = self.multicast.match_prefix(prefix, match_options);
            if !check_void(&multicast) {
                assert(finds_nothing::<RotondaPaMap>(self.unicast@, *prefix, *match_options)) by {
                    assert(answers(self.unicast@, *prefix, *match_options, unicast) && is_void(unicast));
                }
                return multicast;
            }
            assert(finds_nothing::<RotondaPaMap>(self.multicast@, *prefix, *match_options)) by {
                assert(answers(self.multicast@, *prefix, *match_options, multicast) && is_void(multicast));
            }
        }
        unicast
    }

    /// All unicast routes that are in use.
    pub fn iter_all_prefix_records(&self) -> (r: Vec<PrefixRecord<RotondaPaMap>>)
        requires
            self.wf(),
        ensures
            whole::<RotondaPaMap>(self.unicast@, r@),
    {
        let mut cursor = self.prefix_stream();
        let ghost keys = cursor.keys@;
        let mut out: Vec<PrefixRecord<RotondaPaMap>> = Vec::new();
        assert(dumped::<RotondaPaMap>(self.unicast@, keys.take(0), out@));
        while !cursor.done()
            invariant
                self.wf(),
                cursor.wf(),
                cursor.keys@ == keys,
                dumped::<RotondaPaMap>(self.unicast@, keys.take(cursor.next as int), out@),
            decreases keys.len() - cursor.next,
        {
            let ghost a = cursor.next as int;
            let ghost before = out@;
            proof {
                assert(cursor.chunk_end() > a);
            }
            let ghost b = cursor.chunk_end();
            let mut chunk = self.stream_prefix_records(&mut cursor);
            let ghost more = chunk@;
            out.append(&mut chunk);
            proof {
                assert(out@ =~= before + more);
                assert(keys.take(a) + keys.subrange(a, b) =~= keys.take(b));
                assert(distinct_keys(keys.take(b)));
                chunks_add_up::<RotondaPaMap>(self.unicast@, keys.take(a), keys.subrange(a, b), before, more);
            }
        }
        assert(keys.take(keys.len() as int) =~= keys);
        out
    }

    /// Begins a walk over the unicast routes.
    pub fn prefix_stream(&self) -> (r: DumpCursor)
        requires
            self.wf(),
        ensures
            r.wf(),
            r.next == 0,
            forall|p: PrefixKey| #[trigger] has_key(r.keys@, p) == self.unicast@.has_prefix(p),
    {
        DumpCursor::new(&self.unicast, None)
    }

    /// The next unicast routes of a walk that are in use.
    pub fn stream_prefix_records(&self, cursor: &mut DumpCursor) -> (r: Vec<PrefixRecord<RotondaPaMap>>)
        requires
            self.wf(),
            old(cursor).wf(),
        ensures
            final(cursor).wf(),
            final(cursor).keys@ == old(cursor).keys@,
            final(cursor).next == old(cursor).chunk_end(),
            dumped::<RotondaPaMap>(
                self.unicast@,
                old(cursor).keys@.subrange(old(cursor).next as int, old(cursor).chunk_end()),
                r@,
            ),
    {
        cursor.next_chunk(&self.unicast)
    }

    /// Begins a walk over the FlowSpec rules.
    pub fn flowspec_stream(&self) -> (r: DumpCursor)
        requires
            self.wf(),
        ensures
            r.wf(),
            r.next == 0,
            forall|p: PrefixKey| #[trigger] has_key(r.keys@, p) == self.flowspec@.has_prefix(p),
    {
        DumpCursor::new(&self.flowspec, None)
    }

    /// The next FlowSpec rules of a walk that are in use.
    pub fn stream_flowspec_records(&self, cursor: &mut DumpCursor) -> (r: Vec<PrefixRecord<FlowSpecRuleSet>>)
        requires
            self.wf(),
            old(cursor).wf(),
        ensures
            final(cursor).wf(),
            final(cursor).keys@ == old(cursor).keys@,
            final(cursor).next == old(cursor).chunk_end(),
            dumped::<FlowSpecRuleSet>(
                self.flowspec@,
                old(cursor).keys@.subrange(old(cursor).next as int, old(cursor).chunk_end()),
                r@,
            ),
    {
        cursor.next_chunk(&self.flowspec)
    }

    /// The unicast routes of an ingress that are in use.
    pub fn match_ingress_id(&self, ingress_id: IngressId) -> (r: Vec<PrefixRecord<RotondaPaMap>>)
        requires
            self.wf(),
        ensures
            of_ingress(self.unicast@, ingress_id, r@),
    {
        let mut res = routes_of(&self.unicast, ingress_id, true);
        let ghost first = res@;
        let mut v6 = routes_of(&self.unicast, ingress_id, false);
        let ghost second = v6@;
        res.append(&mut v6);
        proof {
            let n = first.len() as int;
            assert(res@.take(n) =~= first);
            assert(res@.skip(n) =~= second);
        }
        res
    }
}

} // verus!
