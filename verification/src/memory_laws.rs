//! Laws of the figures that tell how much the tables hold.
use vstd::prelude::*;

use crate::ingress::IngressInfo;
use crate::memory::{
    count_of, count_over, count_used, in_use, ranks, splits, tells_shares, walks, RouteSplit, SlotKey,
};
use crate::register::{ids_with, RegisterSummary};
use crate::rib_query::told_number;
use crate::store::StoreView;
use crate::types::{IngressId, IngressState};

verus! {

/// Each registered ingress is in one of the four states, and counted there.
pub proof fn ingresses_are_counted_by_state(summary: RegisterSummary, infos: Map<IngressId, IngressInfo>)
    requires
        infos.dom().finite(),
        summary.summarizes(infos),
    ensures
        summary.connected + summary.disconnected + summary.non_network + summary.state_unset == summary.total,
        summary.total == infos.dom().len(),
{
    let a = ids_with(infos, |i: IngressInfo| i.state == Some(IngressState::Connected));
    let b = ids_with(infos, |i: IngressInfo| i.state == Some(IngressState::Disconnected));
    let c = ids_with(infos, |i: IngressInfo| i.state == Some(IngressState::NonNetwork));
    let d = ids_with(infos, |i: IngressInfo| i.state == None::<IngressState>);
    vstd::set_lib::lemma_len_subset(a, infos.dom());
    vstd::set_lib::lemma_len_subset(b, infos.dom());
    vstd::set_lib::lemma_len_subset(c, infos.dom());
    vstd::set_lib::lemma_len_subset(d, infos.dom());
    vstd::set_lib::lemma_set_disjoint_lens(a, b);
    vstd::set_lib::lemma_set_disjoint_lens(a.union(b), c);
    vstd::set_lib::lemma_set_disjoint_lens(a.union(b).union(c), d);
    let all = a.union(b).union(c).union(d);
    assert forall|id: IngressId| #[trigger] infos.dom().contains(id) implies all.contains(id) by {
        match infos[id].state {
            Some(IngressState::Connected) => assert(a.contains(id)),
            Some(IngressState::Disconnected) => assert(b.contains(id)),
            Some(IngressState::NonNetwork) => assert(c.contains(id)),
            None => assert(d.contains(id)),
        }
    }
    assert(all =~= infos.dom());
}

/// Whether neither a record nor its ingress is withdrawn.
pub open spec fn counts_as_used<T>(s: StoreView<T>, k: SlotKey) -> bool {
    &&& s.records.contains_key(k)
    &&& !(s.records[k].status is Withdrawn)
    &&& k.0.0 ==> !s.gone_v4.contains(k.1)
    &&& !k.0.0 ==> !s.gone_v6.contains(k.1)
}

/// Each record of a store is counted as active or as withdrawn: as withdrawn
/// just if it or its ingress is.
pub proof fn records_are_counted_once<T>(s: StoreView<T>, r: RouteSplit)
    requires
        splits(s, r),
        s.records.dom().len() <= usize::MAX,
    ensures
        s.records.dom().finite(),
        r.active + r.withdrawn == s.records.dom().len(),
        r.withdrawn == 0 <==> forall|k: SlotKey| #[trigger] s.records.contains_key(k) ==> counts_as_used(s, k),
        r.active == 0 <==> forall|k: SlotKey| #[trigger] s.records.contains_key(k) ==> !counts_as_used(s, k),
{
    let (keys, rows) = choose|keys: Seq<SlotKey>, rows: Seq<(IngressId, usize)>| #[trigger]
        walks(s, keys) && #[trigger] tells_shares(keys, rows) && {
            &&& r.active == told_number(count_used(s, keys))
            &&& r.withdrawn == told_number((keys.len() - count_used(s, keys)) as nat)
            &&& r.store_muis == rows.len()
            &&& ranks(rows, r.top@)
            &&& r.max == (if r.top@.len() > 0 {
                r.top@[0].1
            } else {
                0
            })
            &&& r.over_1m == count_over(rows, 1_000_000)
            &&& r.over_100k == count_over(rows, 100_000)
        };
    assert(keys.to_set() =~= s.records.dom());
    keys.unique_seq_to_set();
    lemma_used(s, keys);
    assert forall|k: SlotKey| #[trigger] s.records.contains_key(k) == keys.contains(k) by {}
}

/// The number of records in use is that of all records just if all are.
proof fn lemma_used<T>(s: StoreView<T>, keys: Seq<SlotKey>)
    requires
        forall|k: SlotKey| #[trigger] keys.contains(k) ==> s.records.contains_key(k),
    ensures
        count_used(s, keys) <= keys.len(),
        count_used(s, keys) == keys.len() <==> forall|k: SlotKey| #[trigger] keys.contains(k) ==> counts_as_used(s, k),
        count_used(s, keys) == 0 <==> forall|k: SlotKey| #[trigger] keys.contains(k) ==> !counts_as_used(s, k),
    decreases keys.len(),
{
    if keys.len() > 0 {
        let rest = keys.drop_last();
        let last = keys.last();
        assert(keys[keys.len() - 1] == last);
        assert(keys.contains(last));
        assert forall|k: SlotKey| #[trigger] rest.contains(k) implies keys.contains(k) by {
            let i = choose|i: int| 0 <= i < rest.len() && rest[i] == k;
            assert(keys[i] == k);
        }
        assert forall|k: SlotKey| #[trigger] keys.contains(k) implies k == last || rest.contains(k) by {
            let i = choose|i: int| 0 <= i < keys.len() && keys[i] == k;
            if i < rest.len() {
                assert(rest[i] == k);
            }
        }
        lemma_used(s, rest);
        assert(in_use(s, last) == counts_as_used(s, last));
    }
}

/// An ingress has a share just if it has a record.
pub proof fn shares_are_those_of_the_ingresses(keys: Seq<SlotKey>, m: IngressId)
    ensures
        (count_of(keys, m) > 0) == (exists|i: int| 0 <= i < keys.len() && (#[trigger] keys[i]).1 == m),
        count_of(keys, m) <= keys.len(),
    decreases keys.len(),
{
    if keys.len() > 0 {
        let rest = keys.drop_last();
        shares_are_those_of_the_ingresses(rest, m);
        if exists|i: int| 0 <= i < rest.len() && (#[trigger] rest[i]).1 == m {
            let i = choose|i: int| 0 <= i < rest.len() && (#[trigger] rest[i]).1 == m;
            assert(keys[i].1 == m);
        }
        if exists|i: int| 0 <= i < keys.len() && (#[trigger] keys[i]).1 == m {
            let i = choose|i: int| 0 <= i < keys.len() && (#[trigger] keys[i]).1 == m;
            if i < rest.len() {
                assert(rest[i].1 == m);
            }
        }
    }
}

} // verus!
