//! What holds of a table whatever it is told.
use vstd::prelude::*;

use crate::evpn::EvpnNlri;
use crate::flowspec::{
    has_rule, lemma_take_rule, put_rule, rule_identity_is_its_components, rule_key, rules_distinct, take_rule, RuleView,
};
use crate::pamap::RotondaPaMap;
use crate::register::is_disconnected;
use crate::rib::{rules_at, starts_anew, Rib};
use crate::rib_gc::{after_reap, parent_in_use, swept};
use crate::rib_lifecycle::{counts_exact, hit, lemma_places, places, visible_rules, RulePlace, Targets};
use crate::route::RotondaRoute;
use crate::store::{RecordView, StoreView, UpsertReport};
use crate::types::{AfiSafiType, IngressId, IngressState, IngressType, Prefix, PrefixKey, RouteStatus};

verus! {

/// One of the stores of prefixes.
pub open spec fn prefix_store(rib: Rib, multicast: bool) -> StoreView<Seq<u8>> {
    if multicast {
        rib.multicast@
    } else {
        rib.unicast@
    }
}

/// A route for a prefix, by its family.
pub open spec fn prefix_route(p: Prefix, a: RotondaPaMap, multicast: bool) -> RotondaRoute {
    if multicast && p@.0 {
        RotondaRoute::Ipv4Multicast(p, a)
    } else if multicast {
        RotondaRoute::Ipv6Multicast(p, a)
    } else if p@.0 {
        RotondaRoute::Ipv4Unicast(p, a)
    } else {
        RotondaRoute::Ipv6Unicast(p, a)
    }
}

/// A route that is announced, and for which there is room, is found again as
/// it was announced.
pub proof fn an_announced_route_is_found(
    before: Rib,
    after: Rib,
    p: Prefix,
    a: RotondaPaMap,
    multicast: bool,
    ltime: u64,
    mui: IngressId,
    retain: bool,
    r: Result<UpsertReport, String>,
    by_mui: bool,
)
    requires
        before.inserted(after, prefix_route(p, a, multicast), RouteStatus::Active, ltime, mui, retain, r),
    ensures
        r is Ok,
        prefix_store(after, multicast).shown(p@, mui, by_mui, false) == Some(
            RecordView { ltime, status: RouteStatus::Active, meta: a@ },
        ),
{
}

/// A route that was withdrawn is not found any more, whether its attributes
/// were retained or not.
pub proof fn a_withdrawn_route_is_not_found(
    before: Rib,
    after: Rib,
    p: Prefix,
    a: RotondaPaMap,
    multicast: bool,
    ltime: u64,
    mui: IngressId,
    retain: bool,
    r: Result<UpsertReport, String>,
    by_mui: bool,
)
    requires
        before.inserted(after, prefix_route(p, a, multicast), RouteStatus::Withdrawn, ltime, mui, retain, r),
    ensures
        prefix_store(after, multicast).shown(p@, mui, by_mui, false) is None,
{
}

/// What one ingress announces or withdraws changes nothing of what is shown
/// of another one.
pub proof fn ingresses_do_not_disturb_each_other(
    before: Rib,
    after: Rib,
    p: Prefix,
    a: RotondaPaMap,
    multicast: bool,
    status: RouteStatus,
    ltime: u64,
    mui: IngressId,
    retain: bool,
    r: Result<UpsertReport, String>,
    q: PrefixKey,
    other: IngressId,
    by_mui: bool,
    include_withdrawn: bool,
)
    requires
        before.inserted(after, prefix_route(p, a, multicast), status, ltime, mui, retain, r),
        other != mui,
    ensures
        prefix_store(after, multicast).shown(q, other, by_mui, include_withdrawn) == prefix_store(
            before,
            multicast,
        ).shown(q, other, by_mui, include_withdrawn),
{
}

/// An ingress that was withdrawn in a family and announces a route again has
/// no other route in that family: what it does not announce anew stays gone.
pub proof fn coming_back_brings_no_old_route_back(
    before: Rib,
    after: Rib,
    p: Prefix,
    a: RotondaPaMap,
    multicast: bool,
    ltime: u64,
    mui: IngressId,
    retain: bool,
    r: Result<UpsertReport, String>,
    q: PrefixKey,
    by_mui: bool,
)
    requires
        before.inserted(after, prefix_route(p, a, multicast), RouteStatus::Active, ltime, mui, retain, r),
        prefix_store(before, multicast).gone(p@.0).contains(mui),
        q.0 == p@.0,
        q != p@,
    ensures
        prefix_store(after, multicast).shown(q, mui, by_mui, false) is None,
{
}

/// An ingress that starts anew in a family keeps its routes in the others:
/// those of the other kind of address, and those in the other stores.
pub proof fn a_new_start_spares_other_families(
    before: Rib,
    after: Rib,
    p: Prefix,
    a: RotondaPaMap,
    multicast: bool,
    ltime: u64,
    mui: IngressId,
    retain: bool,
    r: Result<UpsertReport, String>,
    q: PrefixKey,
    by_mui: bool,
    include_withdrawn: bool,
)
    requires
        before.inserted(after, prefix_route(p, a, multicast), RouteStatus::Active, ltime, mui, retain, r),
        q.0 != p@.0,
    ensures
        prefix_store(after, multicast).shown(q, mui, by_mui, include_withdrawn) == prefix_store(
            before,
            multicast,
        ).shown(q, mui, by_mui, include_withdrawn),
        prefix_store(after, !multicast) == prefix_store(before, !multicast),
        after.flowspec@ == before.flowspec@,
        after.evpn@ == before.evpn@,
{
}

/// A FlowSpec rule that is announced, and for which there is room, is found
/// again under its destination prefix or the default route.
pub proof fn an_announced_rule_is_found(
    before: Rib,
    after: Rib,
    route: RotondaRoute,
    ltime: u64,
    mui: IngressId,
    retain: bool,
    r: Result<UpsertReport, String>,
)
    requires
        route is Ipv4FlowSpec || route is Ipv6FlowSpec,
        before.inserted(after, route, RouteStatus::Active, ltime, mui, retain, r),
    ensures
        r is Ok,
        ({
            let nlri = route.nlri()->Rule_0;
            let key = rule_key(nlri, route is Ipv4FlowSpec);
            &&& after.flowspec@.shown(key, mui, false, false) is Some
            &&& exists|i: int|
                0 <= i < rules_at(after.flowspec@, key, mui).len() && (#[trigger] rules_at(
                    after.flowspec@,
                    key,
                    mui,
                )[i]).nlri == nlri && rules_at(after.flowspec@, key, mui)[i].pamap == route.attrs()
        }),
{
    let nlri = route.nlri()->Rule_0;
    let is_v4 = route is Ipv4FlowSpec;
    let key = rule_key(nlri, is_v4);
    let (base, rule) = lemma_rule_put(before, after, nlri, is_v4, route.attrs(), ltime, mui, r->Ok_0);
    assert(rules_at(after.flowspec@, key, mui) == put_rule(base, rule));
    lemma_put_has(base, rule);
}

/// What was there before an announced rule, and the rule as it is stored.
proof fn lemma_rule_put(
    before: Rib,
    after: Rib,
    nlri: Seq<u8>,
    is_v4: bool,
    attrs: Seq<u8>,
    ltime: u64,
    mui: IngressId,
    report: UpsertReport,
) -> (r: (Seq<RuleView>, RuleView))
    requires
        before.inserted_rule(after, nlri, is_v4, attrs, RouteStatus::Active, ltime, mui, Ok(report)),
    ensures
        r.1.nlri == nlri,
        r.1.pamap == attrs,
        rules_at(after.flowspec@, rule_key(nlri, is_v4), mui) == put_rule(r.0, r.1),
        starts_anew(before.flowspec@, is_v4, mui, RouteStatus::Active) ==> r.0.len() == 0,
        !starts_anew(before.flowspec@, is_v4, mui, RouteStatus::Active) ==> r.0 == rules_at(
            before.flowspec@,
            rule_key(nlri, is_v4),
            mui,
        ),
        after.flowspec@.shown(rule_key(nlri, is_v4), mui, false, false) is Some,
{
    let key = rule_key(nlri, is_v4);
    let validity = choose|validity: crate::flowspec::FlowSpecValidity| #[trigger]
        crate::rib::rule_inserted(
            before.flowspec@,
            after.flowspec@,
            key,
            mui,
            ltime,
            RouteStatus::Active,
            RuleView { nlri, pamap: attrs, validity },
            Ok(report),
        );
    let rule = RuleView { nlri, pamap: attrs, validity };
    let base = if starts_anew(before.flowspec@, key.0, mui, RouteStatus::Active) {
        crate::rib::renewed(before.flowspec@, mui, key.0, Seq::<RuleView>::empty())
    } else {
        before.flowspec@
    };
    lemma_rule_key_family(nlri, is_v4);
    (rules_at(base, key, mui), rule)
}

/// A rule is stored under a prefix of its family.
proof fn lemma_rule_key_family(nlri: Seq<u8>, is_v4: bool)
    ensures
        rule_key(nlri, is_v4).0 == is_v4,
{
}

/// A rule that was put into a set is in it.
proof fn lemma_put_has(s: Seq<RuleView>, rule: RuleView)
    ensures
        exists|i: int| 0 <= i < put_rule(s, rule).len() && #[trigger] put_rule(s, rule)[i] == rule,
{
    let t = put_rule(s, rule);
    if has_rule(s, rule.nlri) {
        let i = choose|i: int| 0 <= i < s.len() && (#[trigger] s[i]).nlri == rule.nlri;
        assert(t[i] == rule);
    } else {
        assert(t[s.len() as int] == rule);
    }
}

/// A FlowSpec rule that was withdrawn is not found any more.
pub proof fn a_withdrawn_rule_is_not_found(
    before: Rib,
    after: Rib,
    route: RotondaRoute,
    ltime: u64,
    mui: IngressId,
    retain: bool,
    r: Result<UpsertReport, String>,
)
    requires
        route is Ipv4FlowSpec || route is Ipv6FlowSpec,
        before.inserted(after, route, RouteStatus::Withdrawn, ltime, mui, retain, r),
    ensures
        !has_rule(
            rules_at(after.flowspec@, rule_key(route.nlri()->Rule_0, route is Ipv4FlowSpec), mui),
            route.nlri()->Rule_0,
        ),
{
    let nlri = route.nlri()->Rule_0;
    let key = rule_key(nlri, route is Ipv4FlowSpec);
    lemma_take_rule(rules_at(before.flowspec@, key, mui), nlri);
}

/// An ingress that was withdrawn in a family and announces a FlowSpec rule
/// again has no other rule in that family.
pub proof fn coming_back_brings_no_old_rule_back(
    before: Rib,
    after: Rib,
    route: RotondaRoute,
    ltime: u64,
    mui: IngressId,
    retain: bool,
    r: Result<UpsertReport, String>,
    q: PrefixKey,
    nlri: Seq<u8>,
)
    requires
        route is Ipv4FlowSpec || route is Ipv6FlowSpec,
        before.inserted(after, route, RouteStatus::Active, ltime, mui, retain, r),
        before.flowspec@.gone(route is Ipv4FlowSpec).contains(mui),
        q.0 == (route is Ipv4FlowSpec),
        nlri != route.nlri()->Rule_0,
    ensures
        !has_rule(rules_at(after.flowspec@, q, mui), nlri),
{
    let announced = route.nlri()->Rule_0;
    let is_v4 = route is Ipv4FlowSpec;
    let key = rule_key(announced, is_v4);
    lemma_rule_key_family(announced, is_v4);
    if r is Ok {
        let (base, rule) = lemma_rule_put(before, after, announced, is_v4, route.attrs(), ltime, mui, r->Ok_0);
        if q == key {
            assert(put_rule(base, rule) =~= seq![rule]);
        }
    }
}

/// Announcing or withdrawing a rule leaves all other routes as they are, and
/// the rules of other ingresses.
pub proof fn rules_do_not_disturb_routes(
    before: Rib,
    after: Rib,
    route: RotondaRoute,
    status: RouteStatus,
    ltime: u64,
    mui: IngressId,
    retain: bool,
    r: Result<UpsertReport, String>,
    q: PrefixKey,
    other: IngressId,
)
    requires
        route is Ipv4FlowSpec || route is Ipv6FlowSpec,
        before.inserted(after, route, status, ltime, mui, retain, r),
        other != mui,
    ensures
        after.unicast@ == before.unicast@,
        after.multicast@ == before.multicast@,
        after.evpn@ == before.evpn@,
        rules_at(after.flowspec@, q, other) == rules_at(before.flowspec@, q, other),
{
}

/// An EVPN route that was announced is active, as it was announced; one that
/// was withdrawn is not.
pub proof fn an_evpn_route_is_as_it_was_told(
    before: Rib,
    after: Rib,
    n: EvpnNlri,
    a: RotondaPaMap,
    status: RouteStatus,
    ltime: u64,
    mui: IngressId,
    retain: bool,
    r: Result<UpsertReport, String>,
)
    requires
        before.inserted(after, RotondaRoute::L2VpnEvpn(n, a), status, ltime, mui, retain, r),
    ensures
        status is Active ==> after.evpn@.contains_key((n.key@, mui)) && after.evpn@[(n.key@, mui)].active
            && after.evpn@[(n.key@, mui)].attributes@ == a@,
        status is Withdrawn && after.evpn@.contains_key((n.key@, mui)) ==> !after.evpn@[(n.key@, mui)].active,
{
}

/// Of an ingress that was withdrawn in a family nothing is shown in that
/// family, unless it is asked for by name.
pub proof fn a_withdrawn_ingress_shows_nothing(
    before: Rib,
    after: Rib,
    ids: Targets,
    retain: bool,
    m: IngressId,
    p: PrefixKey,
)
    requires
        before.withdrawn(after, ids, retain),
    ensures
        hit(ids, m, crate::rib::prefix_family(p.0, false)) ==> after.unicast@.shown(p, m, false, false) is None,
        hit(ids, m, crate::rib::prefix_family(p.0, true)) ==> after.multicast@.shown(p, m, false, false) is None,
        hit(ids, m, crate::rib::rule_family(p.0)) ==> after.flowspec@.shown(p, m, false, false) is None,
        forall|k: (Seq<u8>, IngressId)|
            k.1 == m && hit(ids, m, AfiSafiType::L2VpnEvpn) && #[trigger] after.evpn@.contains_key(k)
                ==> !after.evpn@[k].active,
{
}

/// Of ingresses that were not withdrawn everything is shown as before.
pub proof fn a_withdrawal_spares_other_ingresses(
    before: Rib,
    after: Rib,
    ids: Targets,
    retain: bool,
    m: IngressId,
    p: PrefixKey,
    by_mui: bool,
    include_withdrawn: bool,
)
    requires
        before.withdrawn(after, ids, retain),
    ensures
        !hit(ids, m, crate::rib::prefix_family(p.0, false)) ==> after.unicast@.shown(p, m, by_mui, include_withdrawn)
            == before.unicast@.shown(p, m, by_mui, include_withdrawn),
        !hit(ids, m, crate::rib::prefix_family(p.0, true)) ==> after.multicast@.shown(
            p,
            m,
            by_mui,
            include_withdrawn,
        ) == before.multicast@.shown(p, m, by_mui, include_withdrawn),
        !hit(ids, m, crate::rib::rule_family(p.0)) ==> after.flowspec@.shown(p, m, by_mui, include_withdrawn)
            == before.flowspec@.shown(p, m, by_mui, include_withdrawn),
{
    if ids.len() > 0 {
        let mid = choose|mid: Rib| #[trigger] before.prepared(mid, ids, retain) && mid.marked(after, ids, retain);
        assert(mid.unicast@.records.contains_key((p, m)) == before.unicast@.records.contains_key((p, m)));
        assert(mid.multicast@.records.contains_key((p, m)) == before.multicast@.records.contains_key((p, m)));
        assert(mid.flowspec@.records.contains_key((p, m)) == before.flowspec@.records.contains_key((p, m)));
    }
}

/// Of an ingress that was removed there is no trace left: it has no records,
/// and would not start as a withdrawn one.
pub proof fn a_removed_ingress_leaves_no_trace(before: Rib, after: Rib, ids: Seq<IngressId>, m: IngressId, p: PrefixKey)
    requires
        before.removed(after, ids),
        ids.contains(m),
    ensures
        !after.unicast@.holds(p, m) && !after.multicast@.holds(p, m) && !after.flowspec@.holds(p, m),
        !after.unicast@.gone(p.0).contains(m) && !after.multicast@.gone(p.0).contains(m) && !after.flowspec@.gone(
            p.0,
        ).contains(m),
        forall|k: (Seq<u8>, IngressId)| k.1 == m ==> !#[trigger] after.evpn@.contains_key(k),
{
}

/// A sweep forgets no ingress that it did not see disconnected before, none
/// that is connected, and none that others still belong to unless it is a
/// path itself.
pub proof fn a_sweep_forgets_only_what_stays_gone(before: Rib, after: Rib, prev: Set<IngressId>, id: IngressId)
    requires
        before.collected(after, prev),
        before.ingress_register@.contains_key(id),
        !after.ingress_register@.contains_key(id),
    ensures
        prev.contains(id),
        is_disconnected(before.ingress_register@, id),
        parent_in_use(before.ingress_register@, id) ==> before.ingress_register@[id].ingress_type == Some(
            IngressType::BgpPath,
        ),
        swept(before.ingress_register@).contains(id),
{
}

/// A sweep leaves the routes of every ingress that it does not forget.
pub proof fn a_sweep_keeps_the_routes_of_the_others(
    before: Rib,
    after: Rib,
    prev: Set<IngressId>,
    id: IngressId,
    p: PrefixKey,
    by_mui: bool,
    include_withdrawn: bool,
)
    requires
        before.collected(after, prev),
        after.ingress_register@.contains_key(id) || !before.ingress_register@.contains_key(id),
    ensures
        after.unicast@.shown(p, id, by_mui, include_withdrawn) == before.unicast@.shown(
            p,
            id,
            by_mui,
            include_withdrawn,
        ),
        after.multicast@.shown(p, id, by_mui, include_withdrawn) == before.multicast@.shown(
            p,
            id,
            by_mui,
            include_withdrawn,
        ),
        after.flowspec@.shown(p, id, by_mui, include_withdrawn) == before.flowspec@.shown(
            p,
            id,
            by_mui,
            include_withdrawn,
        ),
{
}

/// A path is retired only if it was idle in two sweeps with nothing in
/// between, and never while it owns an active route.
pub proof fn a_path_is_retired_only_after_two_idle_sweeps(
    rib: Rib,
    prev: Map<IngressId, u64>,
    id: IngressId,
)
    requires
        rib.ingress_register@.contains_key(id),
        after_reap(rib.ingress_register@, rib.idle_children(), prev)[id] != rib.ingress_register@[id],
    ensures
        !rib.owns_active(id),
        prev.contains_key(id),
        prev[id] == rib.ingress_register@[id].path_activity,
        rib.ingress_register@[id].ingress_type == Some(IngressType::BgpPath),
        rib.ingress_register@[id].state == Some(IngressState::Connected),
{
}

/// The rules of a family that can be seen, but for those of one ingress under
/// one prefix.
spec fn rules_elsewhere(s: StoreView<Seq<RuleView>>, p: PrefixKey, m: IngressId) -> Set<RulePlace> {
    visible_rules(s, p.0).filter(|t: RulePlace| !(t.0 == p && t.1 == m))
}

/// The number of rules of an ingress under a prefix that can be seen.
spec fn rules_here(s: StoreView<Seq<RuleView>>, p: PrefixKey, m: IngressId) -> nat {
    match s.shown(p, m, false, false) {
        Some(rec) => rec.meta.len(),
        None => 0,
    }
}

proof fn lemma_rules_add_up(s: StoreView<Seq<RuleView>>, p: PrefixKey, m: IngressId)
    requires
        rules_elsewhere(s, p, m).finite(),
    ensures
        visible_rules(s, p.0).finite(),
        visible_rules(s, p.0).len() == rules_elsewhere(s, p, m).len() + rules_here(s, p, m),
{
    let a = rules_elsewhere(s, p, m);
    let b = places(p, m, rules_here(s, p, m));
    lemma_places(p, m, rules_here(s, p, m));
    assert(visible_rules(s, p.0) =~= a.union(b));
    assert(a.disjoint(b));
    vstd::set_lib::lemma_set_disjoint_lens(a, b);
}

/// The counts of rules stay those of the rules that can be seen, where they
/// were and are not at their greatest: with each rule that is announced, and
/// with each one that is withdrawn by an ingress that is not.
pub proof fn rule_counts_stay_exact(
    before: Rib,
    after: Rib,
    route: RotondaRoute,
    status: RouteStatus,
    ltime: u64,
    mui: IngressId,
    retain: bool,
    r: Result<UpsertReport, String>,
)
    requires
        before.wf(),
        route is Ipv4FlowSpec || route is Ipv6FlowSpec,
        status is Active || (status is Withdrawn && !before.flowspec@.gone(route is Ipv4FlowSpec).contains(mui)),
        before.inserted(after, route, status, ltime, mui, retain, r),
        counts_exact(before.flowspec@, before.flowspec_rule_counts),
        visible_rules(before.flowspec@, route is Ipv4FlowSpec).len() < u64::MAX,
        rules_at(before.flowspec@, rule_key(route.nlri()->Rule_0, route is Ipv4FlowSpec), mui).len() > 0
            ==> before.flowspec@.records[(
            rule_key(route.nlri()->Rule_0, route is Ipv4FlowSpec),
            mui,
        )].status is Active,
    ensures
        counts_exact(after.flowspec@, after.flowspec_rule_counts),
{
    let nlri = route.nlri()->Rule_0;
    let is_v4 = route is Ipv4FlowSpec;
    let key = rule_key(nlri, is_v4);
    let s = before.flowspec@;
    let t = after.flowspec@;
    let here = rules_at(s, key, mui);
    lemma_rule_key_family(nlri, is_v4);
    assert(rules_distinct(here)) by {
        if s.holds(key, mui) {
            assert(s.records.contains_key((key, mui)));
        }
    }
    lemma_take_rule(here, nlri);
    if status is Withdrawn && !has_rule(here, nlri) {
    } else {
        assert(rules_elsewhere(t, key, mui) =~= rules_elsewhere(s, key, mui));
        assert(visible_rules(t, !is_v4) =~= visible_rules(s, !is_v4));
        vstd::set_lib::lemma_set_subset_finite(visible_rules(s, is_v4), rules_elsewhere(s, key, mui));
        lemma_rules_add_up(s, key, mui);
        lemma_rules_add_up(t, key, mui);
        if status is Active && r is Err {
        } else if status is Active {
            let (base, rule) = lemma_rule_put(before, after, nlri, is_v4, route.attrs(), ltime, mui, r->Ok_0);
            rule_identity_is_its_components(base, rule);
            assert(rules_here(t, key, mui) == put_rule(base, rule).len());
        } else {
            assert(rules_here(t, key, mui) == take_rule(here, nlri).len());
        }
    }
}

} // verus!
