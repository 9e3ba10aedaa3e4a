//! Laws of the gauges and of the register: what they show of the routes that
//! were announced and withdrawn, and of what was told of an ingress.
use vstd::prelude::*;

use crate::flowspec::{has_rule, rule_key, RuleView};
use crate::ingress::IngressInfo;
use crate::peer_stats::{PeerCounts, StatsView};
use crate::register::merged;
use crate::rib::{rules_at, Rib};
use crate::rib_lifecycle::{gauges_reset, Targets};
use crate::route::RotondaRoute;
use crate::store::{StoreView, UpsertReport};
use crate::types::{AfiSafiType, IngressId, IngressState, PrefixKey, RouteStatus};

verus! {

/// The gauge for routes like this one.
pub open spec fn counter(c: PeerCounts, route: RotondaRoute) -> u64 {
    match route {
        RotondaRoute::Ipv4Unicast(_, _) => c.ipv4_unicast,
        RotondaRoute::Ipv6Unicast(_, _) => c.ipv6_unicast,
        RotondaRoute::Ipv4Multicast(_, _) => c.ipv4_multicast,
        RotondaRoute::Ipv6Multicast(_, _) => c.ipv6_multicast,
        RotondaRoute::Ipv4FlowSpec(_, _) => c.ipv4_flowspec,
        RotondaRoute::Ipv6FlowSpec(_, _) => c.ipv6_flowspec,
        RotondaRoute::L2VpnEvpn(_, _) => c.l2vpn_evpn,
    }
}

/// Whether two sets of gauges agree in all but the one for routes like this
/// one.
pub open spec fn others_agree(a: PeerCounts, b: PeerCounts, route: RotondaRoute) -> bool {
    &&& !(route is Ipv4Unicast) ==> a.ipv4_unicast == b.ipv4_unicast
    &&& !(route is Ipv6Unicast) ==> a.ipv6_unicast == b.ipv6_unicast
    &&& !(route is Ipv4Multicast) ==> a.ipv4_multicast == b.ipv4_multicast
    &&& !(route is Ipv6Multicast) ==> a.ipv6_multicast == b.ipv6_multicast
    &&& !(route is Ipv4FlowSpec) ==> a.ipv4_flowspec == b.ipv4_flowspec
    &&& !(route is Ipv6FlowSpec) ==> a.ipv6_flowspec == b.ipv6_flowspec
    &&& !(route is L2VpnEvpn) ==> a.l2vpn_evpn == b.l2vpn_evpn
}

/// Whether an ingress is withdrawn as a whole where routes like this one are
/// kept.
pub open spec fn is_gone(rib: Rib, route: RotondaRoute, mui: IngressId) -> bool {
    match route {
        RotondaRoute::Ipv4Unicast(_, _) => rib.unicast@.gone_v4.contains(mui),
        RotondaRoute::Ipv6Unicast(_, _) => rib.unicast@.gone_v6.contains(mui),
        RotondaRoute::Ipv4Multicast(_, _) => rib.multicast@.gone_v4.contains(mui),
        RotondaRoute::Ipv6Multicast(_, _) => rib.multicast@.gone_v6.contains(mui),
        RotondaRoute::Ipv4FlowSpec(_, _) => rib.flowspec@.gone_v4.contains(mui),
        RotondaRoute::Ipv6FlowSpec(_, _) => rib.flowspec@.gone_v6.contains(mui),
        RotondaRoute::L2VpnEvpn(_, _) => false,
    }
}

/// Whether a store has an active route of an ingress for a prefix.
pub open spec fn has_active(s: StoreView<Seq<u8>>, p: PrefixKey, mui: IngressId) -> bool {
    s.records.contains_key((p, mui)) && s.records[(p, mui)].status is Active
}

/// Whether a store has a rule of an ingress, under any prefix of its family.
pub open spec fn has_rule_of(s: StoreView<Seq<RuleView>>, p: PrefixKey, mui: IngressId, nlri: Seq<u8>) -> bool {
    s.records.contains_key((p, mui)) && exists|i: int|
        0 <= i < s.records[(p, mui)].meta.len() && (#[trigger] s.records[(p, mui)].meta[i]).nlri == nlri
}

/// Whether a table has a route of an ingress, among those that are active.
pub open spec fn has_it(rib: Rib, route: RotondaRoute, mui: IngressId) -> bool {
    !is_gone(rib, route, mui) && match route {
        RotondaRoute::Ipv4Unicast(p, _) | RotondaRoute::Ipv6Unicast(p, _) => has_active(rib.unicast@, p@, mui),
        RotondaRoute::Ipv4Multicast(p, _) | RotondaRoute::Ipv6Multicast(p, _) => has_active(rib.multicast@, p@, mui),
        RotondaRoute::Ipv4FlowSpec(n, _) => has_rule_of(rib.flowspec@, rule_key(n@, true), mui, n@),
        RotondaRoute::Ipv6FlowSpec(n, _) => has_rule_of(rib.flowspec@, rule_key(n@, false), mui, n@),
        RotondaRoute::L2VpnEvpn(n, _) => rib.evpn@.contains_key((n.key@, mui)) && rib.evpn@[(n.key@, mui)].active,
    }
}

/// Whether the routes of an ingress are counted for a session: its own, or
/// that of which it is a path.
pub open spec fn counts_for(s: StatsView, mui: IngressId, session: IngressId) -> bool {
    &&& s.sessions.contains_key(session)
    &&& session == mui || !s.sessions.contains_key(mui) && s.aliases.contains_key(mui) && s.aliases[mui] == session
}

/// A route that comes into the table is counted: the gauge for routes like it
/// goes up by one, and no other gauge of any session moves. One that was
/// there is counted as a duplicate, but for an EVPN route.
#[verifier::spinoff_prover]
#[verifier::rlimit(40)]
pub proof fn a_route_that_comes_is_counted(
    before: Rib,
    after: Rib,
    route: RotondaRoute,
    ltime: u64,
    mui: IngressId,
    retain: bool,
    r: Result<UpsertReport, String>,
    session: IngressId,
)
    requires
        route.wf(),
        counts_for(before.peer_stats@, mui, session),
        !is_gone(before, route, mui),
        before.inserted(after, route, RouteStatus::Active, ltime, mui, retain, r),
    ensures
        after.peer_stats@.sessions.contains_key(session),
        after.peer_stats@.aliases == before.peer_stats@.aliases,
        ({
            let a = before.peer_stats@.sessions[session];
            let b = after.peer_stats@.sessions[session];
            &&& others_agree(a, b, route)
            &&& !has_it(before, route, mui) ==> b.dup_prefix_advertisements == a.dup_prefix_advertisements
            &&& !has_it(before, route, mui) && counter(a, route) < u64::MAX ==> counter(b, route) == counter(a, route)
                + 1
            &&& has_it(before, route, mui) ==> counter(b, route) == counter(a, route)
            &&& has_it(before, route, mui) && !(route is L2VpnEvpn) && a.dup_prefix_advertisements < u64::MAX
                ==> b.dup_prefix_advertisements == a.dup_prefix_advertisements + 1
            &&& route is L2VpnEvpn ==> b.dup_prefix_advertisements == a.dup_prefix_advertisements
        }),
        forall|other: IngressId|
            other != session ==> (#[trigger] after.peer_stats@.sessions.contains_key(other)
                == before.peer_stats@.sessions.contains_key(other)) && after.peer_stats@.sessions[other]
                == before.peer_stats@.sessions[other],
{
}

/// A route that leaves the table is not counted any more: the gauge for
/// routes like it goes down by one, and no other gauge of any session moves.
/// The withdrawal of a route that is not there moves nothing.
#[verifier::spinoff_prover]
#[verifier::rlimit(40)]
pub proof fn a_route_that_goes_is_not_counted(
    before: Rib,
    after: Rib,
    route: RotondaRoute,
    ltime: u64,
    mui: IngressId,
    retain: bool,
    r: Result<UpsertReport, String>,
    session: IngressId,
)
    requires
        route.wf(),
        counts_for(before.peer_stats@, mui, session),
        !is_gone(before, route, mui),
        before.inserted(after, route, RouteStatus::Withdrawn, ltime, mui, retain, r),
    ensures
        after.peer_stats@.sessions.contains_key(session),
        after.peer_stats@.aliases == before.peer_stats@.aliases,
        ({
            let a = before.peer_stats@.sessions[session];
            let b = after.peer_stats@.sessions[session];
            &&& others_agree(a, b, route)
            &&& b.dup_prefix_advertisements == a.dup_prefix_advertisements
            &&& has_it(before, route, mui) && counter(a, route) > 0 ==> counter(b, route) == counter(a, route) - 1
            &&& !has_it(before, route, mui) ==> counter(b, route) == counter(a, route)
        }),
        forall|other: IngressId|
            other != session ==> (#[trigger] after.peer_stats@.sessions.contains_key(other)
                == before.peer_stats@.sessions.contains_key(other)) && after.peer_stats@.sessions[other]
                == before.peer_stats@.sessions[other],
{
}

/// A session that comes back in a family after it was withdrawn there starts
/// to count from its first route on, and is connected.
#[verifier::spinoff_prover]
#[verifier::rlimit(40)]
pub proof fn a_session_that_comes_back_counts_anew(
    before: Rib,
    after: Rib,
    route: RotondaRoute,
    ltime: u64,
    mui: IngressId,
    retain: bool,
    r: Result<UpsertReport, String>,
)
    requires
        route.wf(),
        before.peer_stats@.sessions.contains_key(mui),
        is_gone(before, route, mui),
        before.inserted(after, route, RouteStatus::Active, ltime, mui, retain, r),
    ensures
        after.peer_stats@.sessions.contains_key(mui),
        counter(after.peer_stats@.sessions[mui], route) == 1,
        others_agree(before.peer_stats@.sessions[mui], after.peer_stats@.sessions[mui], route),
        after.peer_stats@.sessions[mui].dup_prefix_advertisements
            == before.peer_stats@.sessions[mui].dup_prefix_advertisements,
        after.ingress_register@.contains_key(mui),
        after.ingress_register@[mui].state == Some(IngressState::Connected),
        !is_gone(after, route, mui),
{
}

/// A route that is in the table after it came, and is not after it went.
#[verifier::spinoff_prover]
#[verifier::rlimit(40)]
pub proof fn the_table_has_what_came(
    before: Rib,
    after: Rib,
    route: RotondaRoute,
    status: RouteStatus,
    ltime: u64,
    mui: IngressId,
    retain: bool,
    r: Result<UpsertReport, String>,
)
    requires
        route.wf(),
        before.inserted(after, route, status, ltime, mui, retain, r),
    ensures
        status is Active ==> has_it(after, route, mui),
        status is Withdrawn ==> !has_it(after, route, mui),
{
    if route is Ipv4FlowSpec || route is Ipv6FlowSpec {
        if status is Active {
            crate::rib_laws::an_announced_rule_is_found(before, after, route, ltime, mui, retain, r);
            let nlri = route.nlri()->Rule_0;
            let key = rule_key(nlri, route is Ipv4FlowSpec);
            let i = choose|i: int|
                0 <= i < rules_at(after.flowspec@, key, mui).len() && (#[trigger] rules_at(
                    after.flowspec@,
                    key,
                    mui,
                )[i]).nlri == nlri && rules_at(after.flowspec@, key, mui)[i].pamap == route.attrs();
            assert(after.flowspec@.records[(key, mui)].meta[i].nlri == nlri);
        }
        if status is Withdrawn {
            crate::rib_laws::a_withdrawn_rule_is_not_found(before, after, route, ltime, mui, retain, r);
            let nlri = route.nlri()->Rule_0;
            let key = rule_key(nlri, route is Ipv4FlowSpec);
            assert(!has_rule(rules_at(after.flowspec@, key, mui), nlri));
        }
    }
}

/// Sessions that lost everything count nothing but the duplicates that they
/// sent; those that lost one family count nothing in that one.
pub proof fn a_session_that_was_withdrawn_counts_nothing(s: StatsView, mui: IngressId, family: Option<AfiSafiType>)
    requires
        s.sessions.contains_key(mui),
    ensures
        ({
            let ids: Targets = seq![(mui, family)];
            let a = s.sessions[mui];
            let b = gauges_reset(s, ids).sessions[mui];
            &&& b.ipv4_unicast == (if family is None || family == Some(AfiSafiType::Ipv4Unicast) {
                0
            } else {
                a.ipv4_unicast
            })
            &&& b.ipv6_unicast == (if family is None || family == Some(AfiSafiType::Ipv6Unicast) {
                0
            } else {
                a.ipv6_unicast
            })
            &&& b.ipv4_multicast == (if family is None || family == Some(AfiSafiType::Ipv4Multicast) {
                0
            } else {
                a.ipv4_multicast
            })
            &&& b.ipv6_multicast == (if family is None || family == Some(AfiSafiType::Ipv6Multicast) {
                0
            } else {
                a.ipv6_multicast
            })
            &&& b.ipv4_flowspec == (if family is None || family == Some(AfiSafiType::Ipv4FlowSpec) {
                0
            } else {
                a.ipv4_flowspec
            })
            &&& b.ipv6_flowspec == (if family is None || family == Some(AfiSafiType::Ipv6FlowSpec) {
                0
            } else {
                a.ipv6_flowspec
            })
            &&& b.l2vpn_evpn == (if family is None || family == Some(AfiSafiType::L2VpnEvpn) {
                0
            } else {
                a.l2vpn_evpn
            })
            &&& b.dup_prefix_advertisements == a.dup_prefix_advertisements
            &&& gauges_reset(s, ids).sessions.remove(mui) == s.sessions.remove(mui)
            &&& gauges_reset(s, ids).aliases == s.aliases
        }),
{
    let ids: Targets = seq![(mui, family)];
    assert(ids.drop_last() =~= Seq::empty());
    reveal_with_fuel(gauges_reset, 2);
    assert(gauges_reset(s, ids).sessions.remove(mui) =~= s.sessions.remove(mui));
}

/// What is told of an ingress replaces what was known; what is not told stays
/// as it was known.
pub proof fn what_is_told_replaces_what_was_known(old_info: IngressInfo, new: IngressInfo)
    ensures
        ({
            let m = merged(old_info, new);
            &&& m.path_activity == old_info.path_activity
            &&& m.ingress_type == (if new.ingress_type is Some { new.ingress_type } else { old_info.ingress_type })
            &&& m.parent_ingress == (if new.parent_ingress is Some {
                new.parent_ingress
            } else {
                old_info.parent_ingress
            })
            &&& m.path_id == (if new.path_id is Some { new.path_id } else { old_info.path_id })
            &&& m.state == (if new.state is Some { new.state } else { old_info.state })
            &&& m.remote_addr == (if new.remote_addr is Some { new.remote_addr } else { old_info.remote_addr })
            &&& m.remote_asn == (if new.remote_asn is Some { new.remote_asn } else { old_info.remote_asn })
            &&& m.local_addr == (if new.local_addr is Some { new.local_addr } else { old_info.local_addr })
            &&& m.bgp_id == (if new.bgp_id is Some { new.bgp_id } else { old_info.bgp_id })
            &&& m.peer_type == (if new.peer_type is Some { new.peer_type } else { old_info.peer_type })
            &&& m.peer_rib_type == (if new.peer_rib_type is Some { new.peer_rib_type } else { old_info.peer_rib_type })
            &&& m.distinguisher == (if new.distinguisher is Some { new.distinguisher } else { old_info.distinguisher })
            &&& m.remote_capabilities == (if new.remote_capabilities is Some {
                new.remote_capabilities
            } else {
                old_info.remote_capabilities
            })
            &&& m.addpath_families == (if new.addpath_families is Some {
                new.addpath_families
            } else {
                old_info.addpath_families
            })
            &&& m.peer_hostname == (if new.peer_hostname is Some { new.peer_hostname } else { old_info.peer_hostname })
            &&& m.peer_software_version == (if new.peer_software_version is Some {
                new.peer_software_version
            } else {
                old_info.peer_software_version
            })
            &&& m.peer_role == (if new.peer_role is Some { new.peer_role } else { old_info.peer_role })
            &&& m.session_up_time == (if new.session_up_time is Some {
                new.session_up_time
            } else {
                old_info.session_up_time
            })
            &&& m.name == (if new.name is Some { new.name } else { old_info.name })
            &&& m.desc == (if new.desc is Some { new.desc } else { old_info.desc })
            &&& m.filename == (if new.filename is Some { new.filename } else { old_info.filename })
        }),
{
}

/// Every FlowSpec update is counted, by its family and by whether it
/// withdraws a rule; no other update is.
pub proof fn flowspec_updates_are_counted(
    before: Rib,
    after: Rib,
    route: RotondaRoute,
    status: RouteStatus,
    ltime: u64,
    mui: IngressId,
    retain: bool,
    r: Result<UpsertReport, String>,
)
    requires
        before.inserted(after, route, status, ltime, mui, retain, r),
        before.flowspec_updates.v4_announced < u64::MAX,
        before.flowspec_updates.v4_withdrawn < u64::MAX,
        before.flowspec_updates.v6_announced < u64::MAX,
        before.flowspec_updates.v6_withdrawn < u64::MAX,
    ensures
        ({
            let a = before.flowspec_updates;
            let b = after.flowspec_updates;
            let gone = status is Withdrawn;
            &&& b.v4_announced == a.v4_announced + (if route is Ipv4FlowSpec && !gone { 1int } else { 0 })
            &&& b.v4_withdrawn == a.v4_withdrawn + (if route is Ipv4FlowSpec && gone { 1int } else { 0 })
            &&& b.v6_announced == a.v6_announced + (if route is Ipv6FlowSpec && !gone { 1int } else { 0 })
            &&& b.v6_withdrawn == a.v6_withdrawn + (if route is Ipv6FlowSpec && gone { 1int } else { 0 })
        }),
{
}

/// The count of the rules of a family goes up with each rule that comes into
/// the table, and down with each one that leaves it; that of the other family
/// does not move.
#[verifier::spinoff_prover]
#[verifier::rlimit(30)]
pub proof fn rules_that_come_and_go_are_counted(
    before: Rib,
    after: Rib,
    route: RotondaRoute,
    status: RouteStatus,
    ltime: u64,
    mui: IngressId,
    retain: bool,
    r: Result<UpsertReport, String>,
)
    requires
        status is Active || status is Withdrawn,
        route.wf(),
        !is_gone(before, route, mui),
        before.inserted(after, route, status, ltime, mui, retain, r),
    ensures
        ({
            let a = before.flowspec_rule_counts;
            let b = after.flowspec_rule_counts;
            let there = has_it(before, route, mui);
            &&& !(route is Ipv4FlowSpec) ==> b.v4 == a.v4
            &&& !(route is Ipv6FlowSpec) ==> b.v6 == a.v6
            &&& route is Ipv4FlowSpec && status is Active && !there && a.v4 < u64::MAX ==> b.v4 == a.v4 + 1
            &&& route is Ipv4FlowSpec && status is Active && there ==> b.v4 == a.v4
            &&& route is Ipv4FlowSpec && status is Withdrawn && there && a.v4 > 0 ==> b.v4 == a.v4 - 1
            &&& route is Ipv4FlowSpec && status is Withdrawn && !there ==> b.v4 == a.v4
            &&& route is Ipv6FlowSpec && status is Active && !there && a.v6 < u64::MAX ==> b.v6 == a.v6 + 1
            &&& route is Ipv6FlowSpec && status is Active && there ==> b.v6 == a.v6
            &&& route is Ipv6FlowSpec && status is Withdrawn && there && a.v6 > 0 ==> b.v6 == a.v6 - 1
            &&& route is Ipv6FlowSpec && status is Withdrawn && !there ==> b.v6 == a.v6
        }),
{
}

/// Whether a store has a record of any ingress for a prefix.
pub open spec fn has_any(s: StoreView<Seq<u8>>, p: PrefixKey) -> bool {
    exists|m: IngressId| #[trigger] s.records.contains_key((p, m))
}

/// The report of an announced route tells whether its prefix had any record
/// before, and whether its ingress had one for it.
pub proof fn an_announcement_is_reported(
    before: Rib,
    after: Rib,
    route: RotondaRoute,
    ltime: u64,
    mui: IngressId,
    retain: bool,
    r: Result<UpsertReport, String>,
)
    requires
        !(route is Ipv4FlowSpec || route is Ipv6FlowSpec),
        !is_gone(before, route, mui),
        route.wf(),
        before.inserted(after, route, RouteStatus::Active, ltime, mui, retain, r),
    ensures
        r matches Ok(report) && match route {
            RotondaRoute::Ipv4Unicast(p, _) | RotondaRoute::Ipv6Unicast(p, _) => {
                &&& report.mui_new == !before.unicast@.records.contains_key((p@, mui))
                &&& report.prefix_new == !has_any(before.unicast@, p@)
            },
            RotondaRoute::Ipv4Multicast(p, _) | RotondaRoute::Ipv6Multicast(p, _) => {
                &&& report.mui_new == !before.multicast@.records.contains_key((p@, mui))
                &&& report.prefix_new == !has_any(before.multicast@, p@)
            },
            RotondaRoute::L2VpnEvpn(n, _) => {
                &&& report.mui_new == !before.evpn@.contains_key((n.key@, mui))
                &&& report.mui_count == 1
            },
            _ => true,
        },
{
}

} // verus!
