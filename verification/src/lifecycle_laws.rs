//! Laws of the life of an ingress: what a withdrawal, a removal and a sweep
//! take from the table, and what they leave.
use vstd::prelude::*;

use crate::flowspec::RuleView;
use crate::ingress::IngressInfo;
use crate::rib::Rib;
use crate::rib_gc::{after_reap, swept};
use crate::rib_lifecycle::{hit, Targets};
use crate::route::RotondaRoute;
use crate::store::{StoreView, UpsertReport};
use crate::types::{AfiSafiType, IngressId, IngressState, IngressType, PrefixKey, RouteStatus};

verus! {

/// Whether an ingress that is not withdrawn as a whole has an active record.
pub open spec fn is_in_use<T>(s: StoreView<T>, p: PrefixKey, m: IngressId) -> bool {
    &&& s.records.contains_key((p, m))
    &&& s.records[(p, m)].status is Active
    &&& p.0 ==> !s.gone_v4.contains(m)
    &&& !p.0 ==> !s.gone_v6.contains(m)
}

/// Whether two stores have the same record of an ingress for a prefix, in use
/// in both or in neither.
pub open spec fn is_same<T>(a: StoreView<T>, b: StoreView<T>, p: PrefixKey, m: IngressId) -> bool {
    &&& a.records.contains_key((p, m)) == b.records.contains_key((p, m))
    &&& a.records.contains_key((p, m)) ==> a.records[(p, m)] == b.records[(p, m)]
    &&& is_in_use(a, p, m) == is_in_use(b, p, m)
}

/// Whether targets name an ingress in a family: with that family, or with
/// none.
pub open spec fn names(ids: Targets, m: IngressId, family: AfiSafiType) -> bool {
    ids.contains((m, None)) || ids.contains((m, Some(family)))
}

proof fn lemma_names(ids: Targets, m: IngressId, family: AfiSafiType)
    ensures
        hit(ids, m, family) == names(ids, m, family),
{
    if hit(ids, m, family) {
        let i = choose|i: int|
            0 <= i < ids.len() && (#[trigger] ids[i]).0 == m && (ids[i].1 is None || ids[i].1 == Some(family));
        assert(ids[i] == (m, None::<AfiSafiType>) || ids[i] == (m, Some(family)));
    }
    if ids.contains((m, None)) {
        let i = choose|i: int| 0 <= i < ids.len() && ids[i] == (m, None::<AfiSafiType>);
        assert(ids[i].0 == m);
    }
    if ids.contains((m, Some(family))) {
        let i = choose|i: int| 0 <= i < ids.len() && ids[i] == (m, Some(family));
        assert(ids[i].0 == m);
    }
}

proof fn lemma_all_names(ids: Targets, m: IngressId)
    ensures
        hit(ids, m, AfiSafiType::Ipv4Unicast) == names(ids, m, AfiSafiType::Ipv4Unicast),
        hit(ids, m, AfiSafiType::Ipv6Unicast) == names(ids, m, AfiSafiType::Ipv6Unicast),
        hit(ids, m, AfiSafiType::Ipv4Multicast) == names(ids, m, AfiSafiType::Ipv4Multicast),
        hit(ids, m, AfiSafiType::Ipv6Multicast) == names(ids, m, AfiSafiType::Ipv6Multicast),
        hit(ids, m, AfiSafiType::Ipv4FlowSpec) == names(ids, m, AfiSafiType::Ipv4FlowSpec),
        hit(ids, m, AfiSafiType::Ipv6FlowSpec) == names(ids, m, AfiSafiType::Ipv6FlowSpec),
        hit(ids, m, AfiSafiType::L2VpnEvpn) == names(ids, m, AfiSafiType::L2VpnEvpn),
{
    lemma_names(ids, m, AfiSafiType::Ipv4Unicast);
    lemma_names(ids, m, AfiSafiType::Ipv6Unicast);
    lemma_names(ids, m, AfiSafiType::Ipv4Multicast);
    lemma_names(ids, m, AfiSafiType::Ipv6Multicast);
    lemma_names(ids, m, AfiSafiType::Ipv4FlowSpec);
    lemma_names(ids, m, AfiSafiType::Ipv6FlowSpec);
    lemma_names(ids, m, AfiSafiType::L2VpnEvpn);
}

/// After a withdrawal nothing of an ingress is in use in the families in which
/// it was named.
#[verifier::spinoff_prover]
#[verifier::rlimit(30)]
pub proof fn a_withdrawal_takes_what_it_names(
    before: Rib,
    after: Rib,
    ids: Targets,
    retain: bool,
    m: IngressId,
    p: PrefixKey,
)
    requires
        before.withdrawn(after, ids, retain),
    ensures
        names(ids, m, AfiSafiType::Ipv4Unicast) && p.0 ==> !is_in_use(after.unicast@, p, m),
        names(ids, m, AfiSafiType::Ipv6Unicast) && !p.0 ==> !is_in_use(after.unicast@, p, m),
        names(ids, m, AfiSafiType::Ipv4Multicast) && p.0 ==> !is_in_use(after.multicast@, p, m),
        names(ids, m, AfiSafiType::Ipv6Multicast) && !p.0 ==> !is_in_use(after.multicast@, p, m),
        names(ids, m, AfiSafiType::Ipv4FlowSpec) && p.0 ==> !is_in_use(after.flowspec@, p, m),
        names(ids, m, AfiSafiType::Ipv6FlowSpec) && !p.0 ==> !is_in_use(after.flowspec@, p, m),
        names(ids, m, AfiSafiType::L2VpnEvpn) ==> forall|k: Seq<u8>| #[trigger]
            after.evpn@.contains_key((k, m)) ==> !after.evpn@[(k, m)].active && retain,
{
    lemma_all_names(ids, m);
}

/// A withdrawal leaves all of an ingress in the families in which it was not
/// named.
#[verifier::spinoff_prover]
#[verifier::rlimit(30)]
pub proof fn a_withdrawal_leaves_what_it_does_not_name(
    before: Rib,
    after: Rib,
    ids: Targets,
    retain: bool,
    m: IngressId,
    p: PrefixKey,
)
    requires
        before.withdrawn(after, ids, retain),
    ensures
        !names(ids, m, AfiSafiType::Ipv4Unicast) && p.0 ==> is_same(before.unicast@, after.unicast@, p, m),
        !names(ids, m, AfiSafiType::Ipv6Unicast) && !p.0 ==> is_same(before.unicast@, after.unicast@, p, m),
        !names(ids, m, AfiSafiType::Ipv4Multicast) && p.0 ==> is_same(before.multicast@, after.multicast@, p, m),
        !names(ids, m, AfiSafiType::Ipv6Multicast) && !p.0 ==> is_same(before.multicast@, after.multicast@, p, m),
        !names(ids, m, AfiSafiType::Ipv4FlowSpec) && p.0 ==> is_same(before.flowspec@, after.flowspec@, p, m),
        !names(ids, m, AfiSafiType::Ipv6FlowSpec) && !p.0 ==> is_same(before.flowspec@, after.flowspec@, p, m),
        !names(ids, m, AfiSafiType::L2VpnEvpn) ==> forall|k: Seq<u8>| #[trigger]
            after.evpn@.contains_key((k, m)) == before.evpn@.contains_key((k, m)) && (before.evpn@.contains_key((k, m))
                ==> after.evpn@[(k, m)] == before.evpn@[(k, m)]),
        after.ingress_register == before.ingress_register,
{
    lemma_all_names(ids, m);
    if ids.len() > 0 {
        let mid = choose|mid: Rib| #[trigger] before.prepared(mid, ids, retain) && mid.marked(after, ids, retain);
        assert(mid.unicast@.records.contains_key((p, m)) == before.unicast@.records.contains_key((p, m)));
        assert(mid.multicast@.records.contains_key((p, m)) == before.multicast@.records.contains_key((p, m)));
        assert(mid.flowspec@.records.contains_key((p, m)) == before.flowspec@.records.contains_key((p, m)));
    }
}

/// Whether a withdrawal kept or dropped what a store knew of an ingress for a
/// prefix: everything if attributes are retained; else a record without
/// attributes.
pub open spec fn keeps_or_drops(
    a: StoreView<Seq<u8>>,
    b: StoreView<Seq<u8>>,
    p: PrefixKey,
    m: IngressId,
    retain: bool,
) -> bool {
    &&& b.records.contains_key((p, m)) == a.records.contains_key((p, m))
    &&& a.records.contains_key((p, m)) && retain ==> b.records[(p, m)] == a.records[(p, m)]
    &&& a.records.contains_key((p, m)) && !retain ==> b.records[(p, m)].meta == seq![0u8, 1]
        && b.records[(p, m)].status is Withdrawn
}

/// A withdrawal keeps the attributes of the routes that it takes only if they
/// are to be retained.
#[verifier::spinoff_prover]
#[verifier::rlimit(30)]
pub proof fn a_withdrawal_keeps_attributes_only_if_told_to(
    before: Rib,
    after: Rib,
    ids: Targets,
    retain: bool,
    m: IngressId,
    p: PrefixKey,
)
    requires
        ids.len() > 0,
        before.withdrawn(after, ids, retain),
    ensures
        names(ids, m, AfiSafiType::Ipv4Unicast) && p.0 ==> keeps_or_drops(before.unicast@, after.unicast@, p, m, retain),
        names(ids, m, AfiSafiType::Ipv6Unicast) && !p.0 ==> keeps_or_drops(before.unicast@, after.unicast@, p, m, retain),
        names(ids, m, AfiSafiType::Ipv4Multicast) && p.0 ==> keeps_or_drops(
            before.multicast@,
            after.multicast@,
            p,
            m,
            retain,
        ),
        names(ids, m, AfiSafiType::Ipv6Multicast) && !p.0 ==> keeps_or_drops(
            before.multicast@,
            after.multicast@,
            p,
            m,
            retain,
        ),
        (names(ids, m, AfiSafiType::Ipv4FlowSpec) && p.0 || names(ids, m, AfiSafiType::Ipv6FlowSpec) && !p.0)
            && before.flowspec@.records.contains_key((p, m)) ==> after.flowspec@.records.contains_key((p, m))
            && after.flowspec@.records[(p, m)].meta == (if retain {
            before.flowspec@.records[(p, m)].meta
        } else {
            Seq::<RuleView>::empty()
        }),
{
    lemma_all_names(ids, m);
    let mid = choose|mid: Rib| #[trigger] before.prepared(mid, ids, retain) && mid.marked(after, ids, retain);
    assert(mid.unicast@.records.contains_key((p, m)) == before.unicast@.records.contains_key((p, m)));
    assert(mid.multicast@.records.contains_key((p, m)) == before.multicast@.records.contains_key((p, m)));
    assert(mid.flowspec@.records.contains_key((p, m)) == before.flowspec@.records.contains_key((p, m)));
}

/// A removal takes all that the table has of the ingresses that it names, and
/// leaves all that it has of others.
#[verifier::spinoff_prover]
#[verifier::rlimit(30)]
pub proof fn a_removal_takes_just_what_it_names(
    before: Rib,
    after: Rib,
    ids: Seq<IngressId>,
    m: IngressId,
    p: PrefixKey,
)
    requires
        before.removed(after, ids),
    ensures
        ids.contains(m) ==> {
            &&& !after.unicast@.records.contains_key((p, m))
            &&& !after.multicast@.records.contains_key((p, m))
            &&& !after.flowspec@.records.contains_key((p, m))
            &&& !after.unicast@.gone_v4.contains(m) && !after.unicast@.gone_v6.contains(m)
            &&& !after.multicast@.gone_v4.contains(m) && !after.multicast@.gone_v6.contains(m)
            &&& !after.flowspec@.gone_v4.contains(m) && !after.flowspec@.gone_v6.contains(m)
            &&& forall|k: Seq<u8>| !#[trigger] after.evpn@.contains_key((k, m))
        },
        !ids.contains(m) ==> {
            &&& is_same(before.unicast@, after.unicast@, p, m)
            &&& is_same(before.multicast@, after.multicast@, p, m)
            &&& is_same(before.flowspec@, after.flowspec@, p, m)
            &&& forall|k: Seq<u8>| #[trigger]
                after.evpn@.contains_key((k, m)) == before.evpn@.contains_key((k, m)) && (before.evpn@.contains_key((
                k,
                m,
            )) ==> after.evpn@[(k, m)] == before.evpn@[(k, m)])
        },
{
}

/// Whether an ingress is disconnected and of a type that is swept.
pub open spec fn is_swept(infos: Map<IngressId, IngressInfo>, id: IngressId) -> bool {
    &&& infos.contains_key(id)
    &&& infos[id].state == Some(IngressState::Disconnected)
    &&& infos[id].ingress_type == Some(IngressType::BgpViaBmp) || infos[id].ingress_type == Some(IngressType::Bgp)
        || infos[id].ingress_type == Some(IngressType::BgpPath) || infos[id].ingress_type == Some(IngressType::Bmp)
}

/// Whether an ingress is disconnected for good: it was in the sweep before,
/// and none belongs to it, unless it is a path.
pub open spec fn is_done_for(infos: Map<IngressId, IngressInfo>, prev: Set<IngressId>, id: IngressId) -> bool {
    &&& is_swept(infos, id)
    &&& prev.contains(id)
    &&& infos[id].ingress_type == Some(IngressType::BgpPath) || forall|child: IngressId| #[trigger]
        infos.contains_key(child) ==> infos[child].parent_ingress != Some(id)
}

/// A sweep forgets just the ingresses that are disconnected for good, with
/// their routes, and tells which are disconnected.
#[verifier::spinoff_prover]
#[verifier::rlimit(30)]
pub proof fn a_sweep_forgets_just_what_is_done_for(
    before: Rib,
    after: Rib,
    prev: Set<IngressId>,
    id: IngressId,
    p: PrefixKey,
)
    requires
        before.collected(after, prev),
    ensures
        ({
            let infos = before.ingress_register@;
            let routes = is_done_for(infos, prev, id) && infos[id].ingress_type != Some(IngressType::Bmp);
            &&& swept(infos).contains(id) == is_swept(infos, id)
            &&& after.ingress_register@.contains_key(id) == (infos.contains_key(id) && !is_done_for(infos, prev, id))
            &&& after.ingress_register@.contains_key(id) ==> after.ingress_register@[id] == infos[id]
            &&& routes ==> {
                &&& !after.unicast@.records.contains_key((p, id))
                &&& !after.multicast@.records.contains_key((p, id))
                &&& !after.flowspec@.records.contains_key((p, id))
                &&& forall|k: Seq<u8>| !#[trigger] after.evpn@.contains_key((k, id))
                &&& !after.peer_stats@.sessions.contains_key(id)
                &&& !after.peer_stats@.aliases.contains_key(id)
            }
            &&& !routes ==> {
                &&& is_same(before.unicast@, after.unicast@, p, id)
                &&& is_same(before.multicast@, after.multicast@, p, id)
                &&& is_same(before.flowspec@, after.flowspec@, p, id)
                &&& forall|k: Seq<u8>| #[trigger]
                    after.evpn@.contains_key((k, id)) == before.evpn@.contains_key((k, id)) && (
                    before.evpn@.contains_key((k, id)) ==> after.evpn@[(k, id)] == before.evpn@[(k, id)])
            }
        }),
{
}

/// Whether the table has anything of an ingress in use.
pub open spec fn is_busy(rib: Rib, id: IngressId) -> bool {
    ||| exists|k: Seq<u8>| #[trigger] rib.evpn@.contains_key((k, id)) && rib.evpn@[(k, id)].active
    ||| exists|p: PrefixKey| #[trigger] is_in_use(rib.unicast@, p, id)
    ||| exists|p: PrefixKey| #[trigger] is_in_use(rib.multicast@, p, id)
    ||| exists|p: PrefixKey| #[trigger] is_in_use(rib.flowspec@, p, id) && rib.flowspec@.records[(p, id)].meta.len() > 0
}

proof fn lemma_busy(rib: Rib, id: IngressId)
    ensures
        rib.owns_active(id) == is_busy(rib, id),
{
    assert(forall|p: PrefixKey| #[trigger] is_in_use(rib.unicast@, p, id) == (rib.unicast@.shown(p, id, false, false) is Some));
    assert(forall|p: PrefixKey| #[trigger] is_in_use(rib.multicast@, p, id) == (rib.multicast@.shown(p, id, false, false) is Some));
    assert(forall|p: PrefixKey| #[trigger] is_in_use(rib.flowspec@, p, id) == (rib.flowspec@.shown(p, id, false, false) is Some));
    if rib.owns_active(id) {
        if exists|k: (Seq<u8>, IngressId)| #[trigger] rib.evpn@.contains_key(k) && k.1 == id && rib.evpn@[k].active {
            let k = choose|k: (Seq<u8>, IngressId)| #[trigger] rib.evpn@.contains_key(k) && k.1 == id && rib.evpn@[k].active;
            assert(k == (k.0, id));
            assert(rib.evpn@.contains_key((k.0, id)));
        } else if exists|p: PrefixKey| (#[trigger] rib.unicast@.shown(p, id, false, false)) is Some {
            let p = choose|p: PrefixKey| (#[trigger] rib.unicast@.shown(p, id, false, false)) is Some;
            assert(is_in_use(rib.unicast@, p, id));
        } else if exists|p: PrefixKey| (#[trigger] rib.multicast@.shown(p, id, false, false)) is Some {
            let p = choose|p: PrefixKey| (#[trigger] rib.multicast@.shown(p, id, false, false)) is Some;
            assert(is_in_use(rib.multicast@, p, id));
        } else {
            let p = choose|p: PrefixKey|
                (#[trigger] rib.flowspec@.shown(p, id, false, false)) is Some && rib.flowspec@.records[(
                    p,
                    id,
                )].meta.len() > 0;
            assert(is_in_use(rib.flowspec@, p, id));
        }
    }
    if is_busy(rib, id) {
        if exists|p: PrefixKey| #[trigger] is_in_use(rib.unicast@, p, id) {
            let p = choose|p: PrefixKey| #[trigger] is_in_use(rib.unicast@, p, id);
            assert(rib.unicast@.shown(p, id, false, false) is Some);
        } else if exists|p: PrefixKey| #[trigger] is_in_use(rib.multicast@, p, id) {
            let p = choose|p: PrefixKey| #[trigger] is_in_use(rib.multicast@, p, id);
            assert(rib.multicast@.shown(p, id, false, false) is Some);
        } else if exists|p: PrefixKey| #[trigger]
            is_in_use(rib.flowspec@, p, id) && rib.flowspec@.records[(p, id)].meta.len() > 0 {
            let p = choose|p: PrefixKey| #[trigger]
                is_in_use(rib.flowspec@, p, id) && rib.flowspec@.records[(p, id)].meta.len() > 0;
            assert(rib.flowspec@.shown(p, id, false, false) is Some);
        }
    }
}

/// A path is retired if it is connected, has nothing in use, and had nothing
/// in use in the sweep before, with nothing in between; no other ingress is
/// touched.
pub proof fn just_idle_paths_are_retired(rib: Rib, prev: Map<IngressId, u64>, id: IngressId)
    requires
        rib.ingress_register@.contains_key(id),
    ensures
        ({
            let info = rib.ingress_register@[id];
            let now = after_reap(rib.ingress_register@, rib.idle_children(), prev)[id];
            let idle = info.ingress_type == Some(IngressType::BgpPath) && info.state == Some(IngressState::Connected)
                && !is_busy(rib, id);
            &&& rib.idle_children().contains_key(id) == idle
            &&& idle ==> rib.idle_children()[id] == info.path_activity
            &&& idle && prev.contains_key(id) && prev[id] == info.path_activity ==> now == (IngressInfo {
                state: Some(IngressState::Disconnected),
                ..info
            })
            &&& !(idle && prev.contains_key(id) && prev[id] == info.path_activity) ==> now == info
        }),
{
    lemma_busy(rib, id);
}

/// Whether the record of a withdrawn route has the attributes that it had, if
/// they are retained, and none if they are not.
pub open spec fn is_withdrawn_record(
    a: StoreView<Seq<u8>>,
    b: StoreView<Seq<u8>>,
    p: PrefixKey,
    m: IngressId,
    retain: bool,
) -> bool {
    &&& b.records.contains_key((p, m)) == a.records.contains_key((p, m))
    &&& a.records.contains_key((p, m)) ==> b.records[(p, m)].status is Withdrawn && b.records[(p, m)].meta == (
    if retain {
        a.records[(p, m)].meta
    } else {
        seq![0u8, 1]
    })
    &&& forall|q: PrefixKey, n: IngressId|
        (q, n) != (p, m) ==> (#[trigger] b.records.contains_key((q, n)) == a.records.contains_key((q, n)))
            && b.records[(q, n)] == a.records[(q, n)]
    &&& b.gone_v4 == a.gone_v4
    &&& b.gone_v6 == a.gone_v6
}

/// A route that is withdrawn keeps its attributes only if they are to be
/// retained; an EVPN route is kept at all only then. Nothing else changes in
/// its table, and nothing in the others.
#[verifier::spinoff_prover]
#[verifier::rlimit(30)]
pub proof fn a_withdrawn_route_keeps_attributes_only_if_told_to(
    before: Rib,
    after: Rib,
    route: RotondaRoute,
    ltime: u64,
    m: IngressId,
    retain: bool,
    r: Result<UpsertReport, String>,
)
    requires
        before.inserted(after, route, RouteStatus::Withdrawn, ltime, m, retain, r),
    ensures
        match route {
            RotondaRoute::Ipv4Unicast(p, _) => is_withdrawn_record(before.unicast@, after.unicast@, p@, m, retain),
            RotondaRoute::Ipv6Unicast(p, _) => is_withdrawn_record(before.unicast@, after.unicast@, p@, m, retain),
            RotondaRoute::Ipv4Multicast(p, _) => is_withdrawn_record(
                before.multicast@,
                after.multicast@,
                p@,
                m,
                retain,
            ),
            RotondaRoute::Ipv6Multicast(p, _) => is_withdrawn_record(
                before.multicast@,
                after.multicast@,
                p@,
                m,
                retain,
            ),
            RotondaRoute::L2VpnEvpn(n, _) => {
                &&& after.evpn@.contains_key((n.key@, m)) == (retain && before.evpn@.contains_key((n.key@, m)))
                &&& after.evpn@.contains_key((n.key@, m)) ==> !after.evpn@[(n.key@, m)].active && after.evpn@[(
                    n.key@,
                    m,
                )].attributes == before.evpn@[(n.key@, m)].attributes
                &&& forall|k: (Seq<u8>, IngressId)|
                    k != (n.key@, m) ==> (#[trigger] after.evpn@.contains_key(k) == before.evpn@.contains_key(k))
                        && after.evpn@[k] == before.evpn@[k]
            },
            _ => true,
        },
        !(route is Ipv4Unicast || route is Ipv6Unicast) ==> after.unicast == before.unicast,
        !(route is Ipv4Multicast || route is Ipv6Multicast) ==> after.multicast == before.multicast,
        !(route is Ipv4FlowSpec || route is Ipv6FlowSpec) ==> after.flowspec == before.flowspec,
        !(route is L2VpnEvpn) ==> after.evpn == before.evpn,
{
}

} // verus!
