use std::collections::{HashMap, HashSet};

use netom::evpn::EvpnNlri;
use netom::explode::mk_flowspec_route;
use netom::filter::{ingress_type_matches, RouteSource};
use netom::flowspec::FlowSpecValidity;
use netom::flowspec_query::FlowSpecQueryRow;
use netom::ingress::IngressInfo;
use netom::pamap::RotondaPaMap;
use netom::register::Register;
use netom::rib::{Rib, RuleCounts};
use netom::route::RotondaRoute;
use netom::store::{PrefixRecord, Record};
use netom::table::Table;
use netom::types::{
    AfiSafiType, IngressId, IngressState, IngressType, IpAddress, Prefix, RouteStatus,
};

fn info(ingress_type: IngressType, parent: Option<IngressId>) -> IngressInfo {
    let mut info = IngressInfo::new();
    info.ingress_type = Some(ingress_type);
    info.parent_ingress = parent;
    info
}

fn table(entries: Vec<(IngressId, &IngressInfo)>) -> Table<IngressId, IngressInfo> {
    let mut all = Table::new();
    for (id, info) in entries {
        all.insert(id, info.duplicate());
    }
    all
}

fn v4(octets: [u8; 4], len: u8) -> Prefix {
    Prefix::new(IpAddress::V4(octets), len).unwrap()
}

fn db8() -> Prefix {
    let mut octets = [0u8; 16];
    octets[..4].copy_from_slice(&[0x20, 0x01, 0x0d, 0xb8]);
    Prefix::new(IpAddress::V6(octets), 32).unwrap()
}

#[test]
fn ingress_type_filter_matches_the_session_of_a_path_child() {
    let session = info(IngressType::Bgp, None);
    let child = info(IngressType::BgpPath, Some(1));
    let all = table(vec![(1, &session), (2, &child)]);

    // The session itself, and its per-path children, are both "bgp".
    assert!(ingress_type_matches(IngressType::Bgp, &session, &all));
    assert!(ingress_type_matches(IngressType::Bgp, &child, &all));

    // ... and neither is reachable under another origin.
    assert!(!ingress_type_matches(IngressType::Mrt, &child, &all));
    assert!(!ingress_type_matches(IngressType::BgpViaBmp, &child, &all));

    // Asking for the children explicitly still works.
    assert!(ingress_type_matches(IngressType::BgpPath, &child, &all));
    assert!(!ingress_type_matches(IngressType::BgpPath, &session, &all));
}

#[test]
fn ingress_type_filter_treats_bmp_as_everything_learned_over_bmp() {
    let router = info(IngressType::Bmp, None);
    let peer = info(IngressType::BgpViaBmp, Some(1));
    let child = info(IngressType::BgpPath, Some(2));
    let all = table(vec![(1, &router), (2, &peer), (3, &child)]);

    // A monitored router's own ingress holds no routes, so `bmp` has to
    // reach the peers under it, and their ADD-PATH children.
    assert!(ingress_type_matches(IngressType::Bmp, &peer, &all));
    assert!(ingress_type_matches(IngressType::Bmp, &child, &all));
    assert!(ingress_type_matches(IngressType::BgpViaBmp, &peer, &all));

    // A locally terminated session is not BMP-learned.
    let bgp = info(IngressType::Bgp, None);
    assert!(!ingress_type_matches(IngressType::Bmp, &bgp, &all));
}

#[test]
fn ingress_type_filter_rejects_an_unresolvable_ingress() {
    // A path child whose parent is gone from the register has no session
    // type, so it belongs to no origin rather than to all of them.
    let orphan = info(IngressType::BgpPath, Some(99));
    let all = table(vec![(2, &orphan)]);
    assert!(!ingress_type_matches(IngressType::Bgp, &orphan, &all));
    assert!(!ingress_type_matches(IngressType::Bmp, &orphan, &all));

    let untyped = IngressInfo::new();
    assert!(!ingress_type_matches(IngressType::Bgp, &untyped, &all));
}

fn evpn_route(rd: u8, vni: u8) -> RotondaRoute {
    let mut raw = vec![5, 34];
    raw.extend_from_slice(&[0, 0, 0, 1, 0, 0, 0, rd]);
    raw.extend_from_slice(&[0; 14]);
    raw.extend_from_slice(&[24, 10, 0, 0, 0, 0, 0, 0, 0, 0, 0, vni]);
    RotondaRoute::L2VpnEvpn(
        EvpnNlri::parse(&raw).unwrap(),
        RotondaPaMap::empty_path_attributes(),
    )
}

#[test]
fn evpn_tenants_paths_and_peer_lifecycle() {
    let route = evpn_route;
    let mut rib = test_rib();
    for (rd, ingress) in [(1, 1), (2, 1), (1, 2)] {
        rib.insert(&route(rd, 10), RouteStatus::Active, 0, ingress, true, false).unwrap();
    }
    assert_eq!(rib.evpn_records().len(), 3);
    rib.insert(&route(1, 20), RouteStatus::Active, 1, 1, true, false).unwrap();
    assert_eq!(rib.evpn_records().len(), 3);
    rib.insert(&route(1, 0), RouteStatus::Withdrawn, 2, 1, true, false).unwrap();
    let rows = rib.evpn_records();
    assert_eq!(rows.iter().filter(|r| r.active).count(), 2);
    assert_eq!(rows.iter().find(|r| !r.active).unwrap().nlri.labels, vec![20]);
    rib.withdraw_for_ingress(1, Some(AfiSafiType::Ipv4Unicast), false);
    assert_eq!(rib.evpn_records().len(), 3);
    rib.withdraw_for_ingress(1, Some(AfiSafiType::L2VpnEvpn), false);
    assert_eq!(rib.evpn_records().len(), 1);
    rib.insert(&route(2, 30), RouteStatus::Active, 3, 1, false, false).unwrap();
    assert_eq!(rib.evpn_records().len(), 2);
    rib.remove_for_ingresses(&[2]);
    assert_eq!(rib.evpn_records().len(), 1);
    rib.withdraw_for_ingress(1, None, false);
    assert!(rib.evpn_records().is_empty());
}

fn test_rib() -> Rib {
    Rib::new(Register::new()).unwrap()
}

/// Wrap raw v4 flowspec component bytes into a route.
fn mk_flowspec_v4(raw_components: &[u8]) -> RotondaRoute {
    mk_flowspec_route(AfiSafiType::Ipv4FlowSpec, raw_components.to_vec(), &[]).unwrap()
}

fn validation_attributes(originator: [u8; 4], neighbor_asn: u32) -> Vec<u8> {
    let mut attrs = vec![0x80, 9, 4]; // ORIGINATOR_ID
    attrs.extend_from_slice(&originator);
    attrs.extend_from_slice(&[0x40, 2, 6, 2, 1]); // AS_PATH, one AS_SEQUENCE entry
    attrs.extend_from_slice(&neighbor_asn.to_be_bytes());
    attrs
}

// {dst 10.0.1.0/24, proto =17}
const FS_DST_PROTO: &[u8] = &[0x01, 0x18, 10, 0, 1, 0x03, 0x81, 0x11];
// {dst 10.0.1.0/24, dport =53}
const FS_DST_DPORT: &[u8] = &[0x01, 0x18, 10, 0, 1, 0x05, 0x81, 0x35];
// {proto =17, sport =53}: no destination prefix component
const FS_NO_DST: &[u8] = &[0x03, 0x81, 0x11, 0x06, 0x81, 0x35];

fn flowspec_rows(rib: &Rib) -> Vec<FlowSpecQueryRow> {
    rib.query_flowspec(true, None, false, false, None, None).unwrap()
}

fn streamed_flowspec_records(rib: &Rib) -> usize {
    let mut cursor = rib.flowspec_stream();
    let mut streamed = 0;
    while !cursor.done() {
        streamed += rib.stream_flowspec_records(&mut cursor).len();
    }
    streamed
}

fn unicast(prefix: Prefix) -> RotondaRoute {
    RotondaRoute::Ipv4Unicast(prefix, RotondaPaMap::empty_path_attributes())
}

#[test]
fn route_source_exposes_addpath_session_path_and_internal_child() {
    let session = 7u32;
    let child = 11u32;
    let mut child_info = info(IngressType::BgpPath, Some(session));
    child_info.path_id = Some(42);

    let source = RouteSource::resolve(child, Some(&child_info));
    assert_eq!(source.ingress_id, session);
    assert_eq!(source.path_id, Some(42));
    assert_eq!(source.internal_path_ingress_id, Some(child));

    let plain = RouteSource::resolve(session, None);
    assert_eq!(plain.ingress_id, session);
    assert!(plain.path_id.is_none());
    assert!(plain.internal_path_ingress_id.is_none());
}

#[test]
fn reap_keeps_both_flowspec_families_until_withdrawn() {
    let mut rib = test_rib();
    for is_v4 in [true, false] {
        let id = rib.ingress_register.register();
        let mut child = info(IngressType::BgpPath, Some(999));
        child.path_id = Some(id);
        child.state = Some(IngressState::Connected);
        rib.ingress_register.update_info(id, child);
        let family =
            if is_v4 { AfiSafiType::Ipv4FlowSpec } else { AfiSafiType::Ipv6FlowSpec };
        let route = mk_flowspec_route(family, vec![3, 0x81, 17], &[]).unwrap();
        rib.insert(&route, RouteStatus::Active, 0, id, false, false).unwrap();
        let idle = rib.reap_idle_path_children(Table::new());
        assert!(idle.get(&id).is_none());
        rib.reap_idle_path_children(idle);
        let prev = rib.gc_disconnected_bmp_peers(HashSet::new());
        rib.gc_disconnected_bmp_peers(prev);
        assert_eq!(rib.query_flowspec(is_v4, None, false, false, None, None).unwrap().len(), 1);
        rib.insert(&route, RouteStatus::Withdrawn, 0, id, false, false).unwrap();
        let idle = rib.reap_idle_path_children(Table::new());
        rib.reap_idle_path_children(idle);
        let prev = rib.gc_disconnected_bmp_peers(HashSet::new());
        rib.gc_disconnected_bmp_peers(prev);
        assert!(rib.ingress_register.get(id).is_none());
    }
}

#[test]
fn reconnect_unicast_preserves_reannounced_flowspec() {
    let mut rib = test_rib();
    let mui = 123;
    let flow = mk_flowspec_v4(FS_DST_PROTO);
    let unicast = unicast(v4([198, 51, 100, 0], 24));
    for retain in [false, true] {
        for r in [&flow, &unicast] {
            rib.insert(r, RouteStatus::Active, 0, mui, retain, false).unwrap();
        }
        rib.withdraw_for_ingress(mui, None, retain);
        rib.insert(&flow, RouteStatus::Active, 0, mui, retain, false).unwrap();
        rib.insert(&unicast, RouteStatus::Active, 0, mui, retain, false).unwrap();
        assert_eq!(flowspec_rows(&rib).len(), 1);
        assert_eq!(rib.iter_all_prefix_records().len(), 1);
    }
}

#[test]
fn prefix_family_reset_preserves_other_families_and_drops_stale_routes() {
    let mut rib = test_rib();
    let mui = 456;
    let four = v4([198, 51, 100, 0], 24);
    let stale = v4([203, 0, 113, 0], 24);
    let six = db8();
    let pa = RotondaPaMap::empty_path_attributes;
    let routes = [
        RotondaRoute::Ipv4Unicast(four, pa()),
        RotondaRoute::Ipv4Unicast(stale, pa()),
        RotondaRoute::Ipv6Unicast(six, pa()),
        RotondaRoute::Ipv4Multicast(four, pa()),
        RotondaRoute::Ipv6Multicast(six, pa()),
    ];
    for r in &routes {
        rib.insert(r, RouteStatus::Active, 0, mui, true, false).unwrap();
    }
    rib.withdraw_for_ingress(mui, Some(AfiSafiType::Ipv4Unicast), true);
    // Even an IPv6 update while v4 is withdrawn must not clear v4's flag.
    rib.insert(&routes[2], RouteStatus::Active, 0, mui, true, false).unwrap();
    assert!(rib.store().unwrap().mui_is_withdrawn(mui, true));
    rib.insert(&routes[0], RouteStatus::Active, 0, mui, true, false).unwrap();
    assert_eq!(rib.iter_all_prefix_records().len(), 2);
    assert!(rib.store().unwrap().get_records_for_prefix(&stale, Some(mui), false).is_empty());
    for (index, family) in [
        (2, AfiSafiType::Ipv6Unicast),
        (3, AfiSafiType::Ipv4Multicast),
        (4, AfiSafiType::Ipv6Multicast),
    ] {
        rib.withdraw_for_ingress(mui, Some(family), true);
        rib.insert(&routes[index], RouteStatus::Active, 0, mui, true, false).unwrap();
        assert_eq!(rib.iter_all_prefix_records().len(), 2);
        for prefix in [&four, &six] {
            assert_eq!(rib.multicast.get_records_for_prefix(prefix, Some(mui), false).len(), 1);
        }
    }
}

/// A rule with no destination-prefix component is keyed at the family default
/// route (0.0.0.0/0), shows up in walks/queries there, and is reclaimed by
/// whole-mui removal like any other record.
#[test]
fn flowspec_no_dst_rule_keyed_at_default_route() {
    let mut rib = test_rib();
    let mui: IngressId = 42;
    let route = mk_flowspec_v4(FS_NO_DST);
    assert_eq!(route.index_prefix(), Some(v4([0, 0, 0, 0], 0)));

    rib.insert(&route, RouteStatus::Active, 1, mui, false, false).unwrap();

    let rows = flowspec_rows(&rib);
    assert_eq!(rows.len(), 1);
    assert_eq!(rows[0].key_prefix, v4([0, 0, 0, 0], 0));
    assert_eq!(rows[0].ingress_id, mui);
    assert_eq!(rows[0].rule.nlri, FS_NO_DST);
    assert_eq!(streamed_flowspec_records(&rib), 1);

    // Physical whole-mui reclaim covers the default-route record.
    rib.remove_for_ingresses(&[mui]);
    assert!(flowspec_rows(&rib).is_empty());
    assert_eq!(streamed_flowspec_records(&rib), 0);
}

#[test]
fn flowspec_rules_share_dst_key_and_withdraw_independently() {
    let mut rib = test_rib();
    let mui: IngressId = 7;
    let key = v4([10, 0, 1, 0], 24);
    let rule_a = mk_flowspec_v4(FS_DST_PROTO);
    let rule_b = mk_flowspec_v4(FS_DST_DPORT);
    assert_eq!(rule_a.index_prefix(), Some(key));

    rib.insert(&rule_a, RouteStatus::Active, 1, mui, false, false).unwrap();
    rib.insert(&rule_b, RouteStatus::Active, 2, mui, false, false).unwrap();

    let rows = flowspec_rows(&rib);
    assert_eq!(rows.len(), 2);
    assert!(rows.iter().all(|r| r.key_prefix == key));

    // Re-announcing an existing rule replaces, not duplicates.
    rib.insert(&rule_a, RouteStatus::Active, 3, mui, false, false).unwrap();
    assert_eq!(flowspec_rows(&rib).len(), 2);

    // Withdrawing one rule leaves the other.
    rib.insert(&rule_a, RouteStatus::Withdrawn, 4, mui, false, false).unwrap();
    let rows = flowspec_rows(&rib);
    assert_eq!(rows.len(), 1);
    assert_eq!(rows[0].rule.nlri, FS_DST_DPORT);

    // Withdrawing an unknown rule is a no-op.
    rib.insert(&rule_a, RouteStatus::Withdrawn, 5, mui, false, false).unwrap();
    assert_eq!(flowspec_rows(&rib).len(), 1);

    // Withdrawing the last rule empties the record; nothing remains visible
    // in queries or the dump walk.
    rib.insert(&rule_b, RouteStatus::Withdrawn, 6, mui, false, false).unwrap();
    assert!(flowspec_rows(&rib).is_empty());
    assert_eq!(streamed_flowspec_records(&rib), 0);
}

#[test]
fn flowspec_two_peers_and_prefix_query() {
    let mut rib = test_rib();
    let key = v4([10, 0, 1, 0], 24);
    let rule = mk_flowspec_v4(FS_DST_PROTO);
    rib.insert(&rule, RouteStatus::Active, 1, 1, false, false).unwrap();
    rib.insert(&rule, RouteStatus::Active, 1, 2, false, false).unwrap();
    // no-dst rule from peer 1 sits at 0/0
    let nodst = mk_flowspec_v4(FS_NO_DST);
    rib.insert(&nodst, RouteStatus::Active, 1, 1, false, false).unwrap();

    assert_eq!(flowspec_rows(&rib).len(), 3);

    // Exact-match query on the dst prefix
    let rows = rib.query_flowspec(true, Some(key), false, false, None, None).unwrap();
    assert_eq!(rows.len(), 2);
    assert_eq!(
        rows.iter().map(|r| r.ingress_id).collect::<HashSet<_>>(),
        HashSet::from([1, 2])
    );

    // ... filtered by peer
    let rows = rib.query_flowspec(true, Some(key), false, false, Some(2), None).unwrap();
    assert_eq!(rows.len(), 1);

    // Less-specifics of the dst prefix hold the 0/0 no-dst rule.
    let rows = rib.query_flowspec(true, Some(key), true, false, None, None).unwrap();
    assert_eq!(rows.len(), 3);

    assert!(rib
        .query_flowspec(true, None, false, false, None, Some((2, usize::MAX)))
        .is_err());
    assert!(rib
        .query_flowspec(true, None, false, false, None, Some((usize::MAX, 1)))
        .is_err());
}

#[test]
fn flowspec_validation_states() {
    let mut rib = test_rib();
    let peer_a = rib.ingress_register.register();
    let peer_b = rib.ingress_register.register();
    for (peer, asn) in [(peer_a, 65001), (peer_b, 65002)] {
        let mut info = IngressInfo::new();
        info.remote_asn = Some(asn);
        rib.ingress_register.update_info(peer, info);
    }

    let rule = mk_flowspec_v4(FS_DST_PROTO); // dst 10.0.1.0/24

    // A FlowSpec rule can arrive before its covering unicast route during a
    // dump. It is initially invalid, then becomes valid on the next query
    // without requiring a FlowSpec re-announcement.
    rib.insert(&rule, RouteStatus::Active, 1, peer_a, false, false).unwrap();
    assert_eq!(flowspec_rows(&rib)[0].rule.validity, FlowSpecValidity::Invalid);

    // Best-match unicast route for the rules' dst prefix, from peer A.
    let uni = unicast(v4([10, 0, 0, 0], 16));
    rib.insert(&uni, RouteStatus::Active, 2, peer_a, false, false).unwrap();

    // (a) satisfied: same peer as the best-match unicast route.
    let rows = flowspec_rows(&rib);
    assert_eq!(rows.len(), 1);
    assert_eq!(rows[0].rule.validity, FlowSpecValidity::Valid);

    // (a) violated: rule from a peer that does not hold the best-match
    // unicast route.
    rib.insert(&rule, RouteStatus::Active, 3, peer_b, false, false).unwrap();
    let rows = flowspec_rows(&rib);
    let b_row = rows
        .iter()
        .find(|r| r.ingress_id == peer_b)
        .expect("rule from peer B stored");
    assert_eq!(b_row.rule.validity, FlowSpecValidity::Invalid);
    // ... but it IS stored: invalid rules are the interesting signal.

    // No destination prefix component: unvalidatable, keyed at 0/0.
    let nodst = mk_flowspec_v4(FS_NO_DST);
    rib.insert(&nodst, RouteStatus::Active, 4, peer_a, false, false).unwrap();
    let rows = flowspec_rows(&rib);
    let nodst_row = rows
        .iter()
        .find(|r| r.key_prefix.len == 0)
        .expect("no-dst rule stored");
    assert_eq!(nodst_row.rule.validity, FlowSpecValidity::Unvalidatable);

    // (b) violated: a more-specific unicast route from a different
    // neighboring AS invalidates the existing rule on the next query.
    let more_specific = unicast(v4([10, 0, 1, 128], 25));
    rib.insert(&more_specific, RouteStatus::Active, 5, peer_b, false, false).unwrap();
    let rows = flowspec_rows(&rib);
    let a_row = rows
        .iter()
        .find(|r| r.ingress_id == peer_a && r.key_prefix.len == 24)
        .expect("rule from peer A stored");
    assert_eq!(a_row.rule.validity, FlowSpecValidity::Invalid);
}

#[test]
fn flowspec_validation_uses_route_origin_and_as_path() {
    let mut rib = test_rib();
    let flow_peer = rib.ingress_register.register();
    let route_peer = rib.ingress_register.register();
    let more_specific_peer = rib.ingress_register.register();
    for (peer, bgp_id) in [
        (flow_peer, [192, 0, 2, 1]),
        (route_peer, [192, 0, 2, 2]),
        (more_specific_peer, [192, 0, 2, 3]),
    ] {
        let mut info = IngressInfo::new();
        info.bgp_id = Some(bgp_id);
        info.remote_asn = Some(65000);
        rib.ingress_register.update_info(peer, info);
    }

    let originator = [198, 51, 100, 9];
    let attrs = validation_attributes(originator, 65001);
    let rule =
        mk_flowspec_route(AfiSafiType::Ipv4FlowSpec, FS_DST_PROTO.to_vec(), &attrs).unwrap();
    let covering = RotondaRoute::Ipv4Unicast(
        v4([10, 0, 0, 0], 16),
        RotondaPaMap::from_attributes(&attrs),
    );
    rib.insert(&rule, RouteStatus::Active, 1, flow_peer, false, false).unwrap();
    rib.insert(&covering, RouteStatus::Active, 2, route_peer, false, false).unwrap();

    // Different collector sessions are valid when ORIGINATOR_ID agrees.
    assert_eq!(flowspec_rows(&rib)[0].rule.validity, FlowSpecValidity::Valid);

    let more_specific = RotondaRoute::Ipv4Unicast(
        v4([10, 0, 1, 128], 25),
        RotondaPaMap::from_attributes(&validation_attributes([203, 0, 113, 7], 65002)),
    );
    rib.insert(&more_specific, RouteStatus::Active, 3, more_specific_peer, false, false)
        .unwrap();

    // All three sessions have AS number 65000; only AS_PATH exposes the
    // different neighboring AS that invalidates the rule.
    assert_eq!(flowspec_rows(&rib)[0].rule.validity, FlowSpecValidity::Invalid);
}

#[test]
fn flowspec_mark_withdrawn_and_reactivate() {
    let mut rib = test_rib();
    let mui: IngressId = 9;
    let rule = mk_flowspec_v4(FS_DST_PROTO);
    let unicast_prefix = v4([10, 0, 0, 0], 16);
    let unicast = unicast(unicast_prefix);
    rib.insert(&unicast, RouteStatus::Active, 1, mui, false, false).unwrap();
    rib.insert(&rule, RouteStatus::Active, 1, mui, false, false).unwrap();
    assert_eq!(flowspec_rows(&rib).len(), 1);

    // Peer-down: mark the whole mui withdrawn for the flowspec family.
    rib.withdraw_for_ingress(mui, Some(AfiSafiType::Ipv4FlowSpec), true);
    assert!(flowspec_rows(&rib).is_empty());

    // Re-announcement reactivates the mui (withdrawn-mui bitmap cleared on
    // the insert path) and the rule is visible again.
    rib.insert(&rule, RouteStatus::Active, 2, mui, false, false).unwrap();
    assert_eq!(flowspec_rows(&rib).len(), 1);
    let unicast_records =
        rib.store().unwrap().get_records_for_prefix(&unicast_prefix, Some(mui), false);
    assert!(unicast_records
        .iter()
        .any(|record| record.multi_uniq_id == mui && record.status == RouteStatus::Active));

    // Family-agnostic peer-down (None) also covers flowspec.
    rib.withdraw_for_ingress(mui, None, true);
    assert!(flowspec_rows(&rib).is_empty());
}

#[test]
fn flowspec_reconnect_does_not_resurrect_unannounced_rules() {
    let mut rib = test_rib();
    let mui: IngressId = 10;
    let rule_a = mk_flowspec_v4(FS_DST_PROTO);
    let rule_b = mk_flowspec_v4(FS_DST_DPORT);

    rib.insert(&rule_a, RouteStatus::Active, 1, mui, true, false).unwrap();
    rib.insert(&rule_b, RouteStatus::Active, 2, mui, true, false).unwrap();
    assert_eq!(flowspec_rows(&rib).len(), 2);

    rib.withdraw_for_ingress(mui, None, true);
    assert!(flowspec_rows(&rib).is_empty());

    // The new session announces only A. B belongs to the old session and must
    // remain gone when the MUI is made active again.
    rib.insert(&rule_a, RouteStatus::Active, 3, mui, true, false).unwrap();
    let rows = flowspec_rows(&rib);
    assert_eq!(rows.len(), 1);
    assert_eq!(rows[0].rule.nlri, FS_DST_PROTO);
}

#[test]
fn rule_counts_survive_withdrawals_between_updates() {
    let mut rib = test_rib();
    let mui: IngressId = 91;
    let rule = mk_flowspec_v4(FS_DST_PROTO);
    for ltime in 1..=250 {
        rib.insert(&rule, RouteStatus::Active, ltime * 2, mui, false, false).unwrap();
        if ltime % 5 < 2 {
            rib.withdraw_for_ingress(mui, Some(AfiSafiType::Ipv4FlowSpec), true);
        }
        rib.insert(&rule, RouteStatus::Withdrawn, ltime * 2 + 1, mui, false, false).unwrap();
    }
    rib.insert(&rule, RouteStatus::Active, 1000, mui, false, false).unwrap();
    rib.recount_flowspec_rules();
    assert_eq!(flowspec_rows(&rib).len(), 1);
    assert_eq!(rib.flowspec_rule_counts, RuleCounts { v4: 1, v6: 0 });
}

#[test]
fn a_prefix_is_listed_once_for_each_ingress_that_holds_it() {
    let record = |id: IngressId| Record {
        multi_uniq_id: id,
        ltime: 0,
        status: RouteStatus::Active,
        meta: RotondaPaMap::empty_path_attributes(),
    };
    let first = PrefixRecord {
        prefix: v4([192, 0, 2, 0], 24),
        meta: vec![record(1), record(2), record(1), record(3)],
    };
    let second = PrefixRecord { prefix: db8(), meta: vec![record(3), record(2)] };
    let ids: HashSet<IngressId> = [1, 3, 9].into_iter().collect();
    let mut out: HashMap<IngressId, Vec<Prefix>> = HashMap::new();

    assert_eq!(Rib::group_prefix_by_ingress(&first, &ids, &mut out), 2);
    assert_eq!(Rib::group_prefix_by_ingress(&second, &ids, &mut out), 1);
    assert_eq!(out.len(), 2);
    assert!(out[&1] == vec![first.prefix]);
    assert!(out[&3] == vec![first.prefix, second.prefix]);

    assert_eq!(Rib::group_prefix_by_ingress(&first, &HashSet::new(), &mut out), 0);
    assert_eq!(out.len(), 2);
}
