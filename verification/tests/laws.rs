//! One case each of what holds of the table, the clients and the messages
//! whatever they are told.
use std::collections::{HashMap, HashSet};

use netom::aggregator::RouteAggregator;
use netom::bmp_builder::{
    append_flowspec_nlri, build_peer_down_at, build_peer_up_at, build_route_monitoring_at,
    build_route_monitoring_from_route_at, build_statistics_report_at, flowspec_nlri_encoded_len,
    PeerInfo,
};
use netom::client::{send_update_to_client_at, ClientState, EmitOptions, Payload, Update};
use netom::dump::DUMP_KEY_CHUNK;
use netom::emit::FanInPeerDistinguisher;
use netom::explode::mk_flowspec_route;
use netom::flowspec::{FlowSpecRuleSet, FlowSpecValidity};
use netom::ingress::IngressInfo;
use netom::pamap::{filter_raw_path_attributes, RotondaPaMap};
use netom::peer_stats::{GaugeChange, PeerStats};
use netom::query::QueryFilter;
use netom::register::Register;
use netom::rib::{Rib, RuleCounts, UpdateCounts};
use netom::rib_query::{ActiveDumps, DumpGuard, MAX_CONCURRENT_DUMPS};
use netom::route::RotondaRoute;
use netom::table::Table;
use netom::text::escape_json_string;
use netom::types::{
    AfiSafiType, IngressId, IngressState, IngressType, IpAddress, Prefix, RouteStatus,
};

const OFF: EmitOptions =
    EmitOptions { forward_router_info: false, fan_in_peer_distinguisher: FanInPeerDistinguisher::Off };

// ORIGIN IGP, AS_PATH 65001, NEXT_HOP 192.0.2.1
const ATTRS: &[u8] = &[
    0x40, 1, 1, 0, 0x40, 2, 6, 2, 1, 0, 0, 0xfd, 0xe9, 0x40, 3, 4, 192, 0, 2, 1,
];

fn v4(octets: [u8; 4], len: u8) -> Prefix {
    Prefix::new(IpAddress::V4(octets), len).unwrap()
}

fn unicast(octets: [u8; 4], len: u8, attrs: &[u8]) -> RotondaRoute {
    RotondaRoute::Ipv4Unicast(v4(octets, len), RotondaPaMap::from_attributes(attrs))
}

fn rule(components: &[u8]) -> RotondaRoute {
    mk_flowspec_route(AfiSafiType::Ipv4FlowSpec, components.to_vec(), &[]).unwrap()
}

fn table() -> Rib {
    Rib::new(Register::new()).unwrap()
}

fn told(rib: &mut Rib, route: &RotondaRoute, status: RouteStatus, id: IngressId) {
    assert!(rib.insert(route, status, 0, id, false, false).is_ok());
}

/// The attributes of an active route, if there is one.
fn shown(rib: &Rib, octets: [u8; 4], len: u8, id: IngressId) -> Option<Vec<u8>> {
    let found = rib.unicast.get_records_for_prefix(&v4(octets, len), Some(id), false);
    found.first().map(|rec| rec.meta.raw.clone())
}

/// What is stored of a route, whatever its status.
fn stored(rib: &Rib, octets: [u8; 4], len: u8, id: IngressId) -> Option<(RouteStatus, Vec<u8>)> {
    let found = rib.unicast.get_records_for_prefix(&v4(octets, len), Some(id), true);
    found.first().map(|rec| (rec.status, rec.meta.raw.clone()))
}

fn peer() -> PeerInfo {
    let mut info = IngressInfo::new();
    info.ingress_type = Some(IngressType::BgpViaBmp);
    info.remote_addr = Some(IpAddress::V4([192, 0, 2, 7]));
    info.remote_asn = Some(65001);
    PeerInfo::from_ingress_info(&info)
}

/// A register with one peer behind one router.
fn register_with_peer() -> (Register, IngressId) {
    let mut register = Register::new();
    let router = register.register();
    let mut info = IngressInfo::new();
    info.ingress_type = Some(IngressType::Bmp);
    register.update_info(router, info);
    let id = register.register();
    let mut info = IngressInfo::new();
    info.ingress_type = Some(IngressType::BgpViaBmp);
    info.parent_ingress = Some(router);
    info.remote_addr = Some(IpAddress::V4([192, 0, 2, 7]));
    info.remote_asn = Some(65001);
    info.state = Some(IngressState::Connected);
    register.update_info(id, info);
    (register, id)
}

fn announcement(id: IngressId) -> Update {
    Update::Single(Payload {
        rx_value: unicast([10, 0, 0, 0], 8, ATTRS),
        ingress_id: id,
        route_status: RouteStatus::Active,
    })
}

#[test]
fn an_insertion_tells_what_it_did() {
    let mut rib = table();
    let a = unicast([10, 0, 0, 0], 8, ATTRS);
    let first = rib.insert(&a, RouteStatus::Active, 0, 1, false, false).unwrap();
    assert_eq!((first.prefix_new, first.mui_new, first.mui_count), (true, true, 1));
    let second = rib.insert(&a, RouteStatus::Active, 0, 2, false, false).unwrap();
    assert_eq!((second.prefix_new, second.mui_new, second.mui_count), (false, true, 2));
    let again = rib.insert(&a, RouteStatus::Active, 0, 1, false, false).unwrap();
    assert_eq!((again.prefix_new, again.mui_new, again.mui_count), (false, false, 2));
    let other = rib.insert(
        &unicast([11, 0, 0, 0], 8, ATTRS),
        RouteStatus::Withdrawn,
        0,
        1,
        false,
        false,
    );
    let report = other.unwrap();
    assert_eq!((report.prefix_new, report.mui_new, report.mui_count), (false, false, 0));
    // A withdrawal that keeps attributes wants a prefix that was met.
    let unknown = unicast([12, 0, 0, 0], 8, ATTRS);
    assert!(rib.insert(&unknown, RouteStatus::Withdrawn, 0, 1, true, false).is_err());
    assert!(rib.insert(&unknown, RouteStatus::Withdrawn, 0, 1, true, false).is_ok());
}

#[test]
fn ingresses_keep_to_themselves() {
    let mut rib = table();
    let a = unicast([10, 0, 0, 0], 8, ATTRS);
    let b = unicast([10, 0, 0, 0], 8, &[0x40, 1, 1, 2]);
    told(&mut rib, &a, RouteStatus::Active, 1);
    told(&mut rib, &b, RouteStatus::Active, 2);
    let mut raw = vec![0, 1];
    raw.extend_from_slice(ATTRS);
    assert_eq!(shown(&rib, [10, 0, 0, 0], 8, 1), Some(raw.clone()));
    assert_eq!(shown(&rib, [10, 0, 0, 0], 8, 2), Some(vec![0, 1, 0x40, 1, 1, 2]));
    told(&mut rib, &b, RouteStatus::Withdrawn, 2);
    assert_eq!(shown(&rib, [10, 0, 0, 0], 8, 1), Some(raw.clone()));
    assert_eq!(shown(&rib, [10, 0, 0, 0], 8, 2), None);
    rib.withdraw_for_ingress(2, None, false);
    assert_eq!(shown(&rib, [10, 0, 0, 0], 8, 1), Some(raw));
}

#[test]
fn coming_back_starts_anew_in_one_family() {
    let mut rib = table();
    let flow = rule(&[0x03, 0x81, 0x11]);
    told(&mut rib, &unicast([10, 0, 0, 0], 8, ATTRS), RouteStatus::Active, 1);
    told(&mut rib, &unicast([11, 0, 0, 0], 8, ATTRS), RouteStatus::Active, 1);
    told(&mut rib, &flow, RouteStatus::Active, 1);
    rib.withdraw_for_ingress(1, Some(AfiSafiType::Ipv4Unicast), true);
    told(&mut rib, &unicast([10, 0, 0, 0], 8, ATTRS), RouteStatus::Active, 1);
    assert!(shown(&rib, [10, 0, 0, 0], 8, 1).is_some());
    assert_eq!(shown(&rib, [11, 0, 0, 0], 8, 1), None);
    assert_eq!(stored(&rib, [11, 0, 0, 0], 8, 1), Some((RouteStatus::Withdrawn, vec![0, 1])));
    assert_eq!(rib.query_flowspec(true, None, false, false, None, None).unwrap().len(), 1);
    assert_eq!(
        rib.ingress_register.get(1).unwrap().state,
        Some(IngressState::Connected)
    );
}

#[test]
fn dropped_attributes_leave_a_withdrawn_route() {
    let mut rib = table();
    told(&mut rib, &unicast([10, 0, 0, 0], 8, ATTRS), RouteStatus::Active, 1);
    told(&mut rib, &unicast([10, 0, 0, 0], 8, ATTRS), RouteStatus::Active, 2);
    rib.compact_withdrawn_attributes_for_ingress(1, Some(AfiSafiType::Ipv6Unicast));
    assert!(shown(&rib, [10, 0, 0, 0], 8, 1).is_some());
    rib.compact_withdrawn_attributes_for_ingress(1, Some(AfiSafiType::Ipv4Unicast));
    assert_eq!(stored(&rib, [10, 0, 0, 0], 8, 1), Some((RouteStatus::Withdrawn, vec![0, 1])));
    assert!(shown(&rib, [10, 0, 0, 0], 8, 2).is_some());
    // A bulk withdrawal drops them too, or retains them.
    rib.withdraw_for_ingresses(&[(2, None)], true);
    let kept = stored(&rib, [10, 0, 0, 0], 8, 2).unwrap();
    assert_eq!(kept.0, RouteStatus::Withdrawn);
    assert_eq!(kept.1.len(), 2 + ATTRS.len());
    rib.withdraw_for_ingresses(&[(2, None)], false);
    assert_eq!(stored(&rib, [10, 0, 0, 0], 8, 2), Some((RouteStatus::Withdrawn, vec![0, 1])));
}

#[test]
fn a_removed_ingress_comes_back_as_a_new_one() {
    let mut rib = table();
    told(&mut rib, &unicast([10, 0, 0, 0], 8, ATTRS), RouteStatus::Active, 1);
    told(&mut rib, &unicast([11, 0, 0, 0], 8, ATTRS), RouteStatus::Active, 2);
    rib.withdraw_for_ingress(1, None, true);
    rib.remove_for_ingresses(&[1]);
    assert_eq!(stored(&rib, [10, 0, 0, 0], 8, 1), None);
    assert!(shown(&rib, [11, 0, 0, 0], 8, 2).is_some());
    let report =
        rib.insert(&unicast([10, 0, 0, 0], 8, ATTRS), RouteStatus::Active, 0, 1, true, false).unwrap();
    assert_eq!((report.prefix_new, report.mui_new, report.mui_count), (true, true, 1));
    assert!(shown(&rib, [10, 0, 0, 0], 8, 1).is_some());
}

#[test]
fn only_what_stays_gone_is_forgotten() {
    let (register, id) = register_with_peer();
    let mut rib = Rib::new(register).unwrap();
    told(&mut rib, &unicast([10, 0, 0, 0], 8, ATTRS), RouteStatus::Active, id);
    let mut gone = IngressInfo::new();
    gone.state = Some(IngressState::Disconnected);
    let seen = rib.gc_disconnected_bmp_peers(HashSet::new());
    assert!(seen.is_empty());
    rib.ingress_register.update_info(id, gone.duplicate());
    let seen = rib.gc_disconnected_bmp_peers(seen);
    assert!(seen.contains(&id));
    // It comes back in between, and is kept.
    let mut back = IngressInfo::new();
    back.state = Some(IngressState::Connected);
    rib.ingress_register.update_info(id, back);
    let seen = rib.gc_disconnected_bmp_peers(seen);
    assert!(rib.ingress_register.get(id).is_some());
    assert!(shown(&rib, [10, 0, 0, 0], 8, id).is_some());
    // It goes for good.
    rib.ingress_register.update_info(id, gone);
    let seen = rib.gc_disconnected_bmp_peers(seen);
    rib.gc_disconnected_bmp_peers(seen);
    assert!(rib.ingress_register.get(id).is_none());
    assert_eq!(stored(&rib, [10, 0, 0, 0], 8, id), None);
}

#[test]
fn a_path_is_retired_after_two_idle_sweeps() {
    let (register, session) = register_with_peer();
    let mut rib = Rib::new(register).unwrap();
    let id = rib.ingress_register.register();
    let mut info = IngressInfo::new();
    info.ingress_type = Some(IngressType::BgpPath);
    info.parent_ingress = Some(session);
    info.path_id = Some(1);
    info.state = Some(IngressState::Connected);
    rib.ingress_register.update_info(id, info);
    told(&mut rib, &unicast([10, 0, 0, 0], 8, ATTRS), RouteStatus::Active, id);
    let idle = rib.reap_idle_path_children(Table::new());
    assert!(idle.get(&id).is_none());
    told(&mut rib, &unicast([10, 0, 0, 0], 8, ATTRS), RouteStatus::Withdrawn, id);
    let idle = rib.reap_idle_path_children(idle);
    assert!(idle.get(&id).is_some());
    assert_eq!(rib.ingress_register.get(id).unwrap().state, Some(IngressState::Connected));
    rib.reap_idle_path_children(idle);
    assert_eq!(rib.ingress_register.get(id).unwrap().state, Some(IngressState::Disconnected));
}

#[test]
fn rule_counts_follow_the_rules() {
    let mut rib = table();
    let first = rule(&[0x03, 0x81, 0x11]);
    let second = rule(&[0x03, 0x81, 0x06]);
    told(&mut rib, &first, RouteStatus::Active, 1);
    told(&mut rib, &first, RouteStatus::Active, 1);
    told(&mut rib, &second, RouteStatus::Active, 1);
    assert_eq!(rib.flowspec_rule_counts, RuleCounts { v4: 2, v6: 0 });
    told(&mut rib, &first, RouteStatus::Withdrawn, 1);
    told(&mut rib, &first, RouteStatus::Withdrawn, 1);
    assert_eq!(rib.flowspec_rule_counts, RuleCounts { v4: 1, v6: 0 });
    rib.recount_flowspec_rules();
    assert_eq!(rib.flowspec_rule_counts, RuleCounts { v4: 1, v6: 0 });
}

#[test]
fn a_rule_is_known_by_its_components() {
    let mut set = FlowSpecRuleSet::new();
    let plain = RotondaPaMap::empty_path_attributes();
    let other = RotondaPaMap::from_attributes(ATTRS);
    assert!(!set.upsert(&[3, 0x81, 17], &plain, FlowSpecValidity::NotValidated));
    assert!(set.upsert(&[3, 0x81, 17], &other, FlowSpecValidity::NotValidated));
    assert_eq!(set.rule_count(), 1);
    assert!(!set.upsert(&[3, 0x81, 6], &plain, FlowSpecValidity::NotValidated));
    assert_eq!(set.byte_size(), 3 + 2 + ATTRS.len() + 3 + 2);
    assert!(set.remove(&[3, 0x81, 6]));
    assert!(!set.remove(&[3, 0x81, 6]));
    assert!(set.remove(&[3, 0x81, 17]));
    assert!(set.is_empty());
}

#[test]
fn a_session_is_counted_with_its_paths() {
    let mut stats = PeerStats::new();
    stats.add_session(1);
    stats.add_alias(2, 1);
    assert_eq!(stats.peer_gauge(1), Some(1));
    assert_eq!(stats.peer_gauge(2), Some(1));
    assert_eq!(stats.peer_gauge(3), None);
    stats.note(1, GaugeChange::Added(AfiSafiType::Ipv4Unicast));
    stats.note(2, GaugeChange::Added(AfiSafiType::Ipv4Unicast));
    stats.note(2, GaugeChange::Duplicate);
    stats.note(3, GaugeChange::Added(AfiSafiType::Ipv4Unicast));
    let counts = stats.sessions.get(&1).unwrap();
    assert_eq!(counts.get(AfiSafiType::Ipv4Unicast), 2);
    assert_eq!(counts.dup_prefix_advertisements, 1);
    stats.note(1, GaugeChange::Withdrawn(AfiSafiType::Ipv4Unicast));
    assert_eq!(stats.sessions.get(&1).unwrap().get(AfiSafiType::Ipv4Unicast), 1);
    stats.remove(1);
    assert!(stats.sessions.get(&1).is_none());
}

#[test]
fn chunks_of_a_dump_hold_each_prefix_once() {
    let mut rib = table();
    let n = DUMP_KEY_CHUNK + 3;
    for i in 0..n {
        let route = unicast([10, (i / 256) as u8, (i % 256) as u8, 0], 24, ATTRS);
        told(&mut rib, &route, RouteStatus::Active, 1);
    }
    let mut cursor = rib.prefix_stream();
    let mut sizes = Vec::new();
    let mut met = HashSet::new();
    while !cursor.done() {
        let chunk = rib.stream_prefix_records(&mut cursor);
        sizes.push(chunk.len());
        for pr in &chunk {
            assert_eq!(pr.meta.len(), 1);
            let octets = match pr.prefix.addr {
                IpAddress::V4(o) => o,
                IpAddress::V6(_) => panic!("not a prefix of this table"),
            };
            assert!(met.insert(octets));
        }
    }
    assert_eq!(sizes, vec![DUMP_KEY_CHUNK, 3]);
    assert_eq!(met.len(), n);
}

#[test]
fn a_peer_that_went_down_needs_a_new_peer_up() {
    let (register, id) = register_with_peer();
    let mut client = ClientState::new();
    let now = (0, 0);
    let first = send_update_to_client_at(&mut client, &announcement(id), 0, &register, OFF, now);
    assert_eq!(first.messages.len(), 2);
    assert_eq!(first.messages[0].peer_up, Some(id));
    let second = send_update_to_client_at(&mut client, &announcement(id), 0, &register, OFF, now);
    assert_eq!(second.messages.len(), 1);
    assert!(second.messages[0].peer_up.is_none());
    let down =
        send_update_to_client_at(&mut client, &Update::Withdraw(id, None), 0, &register, OFF, now);
    assert_eq!(down.messages.len(), 1);
    assert_eq!(down.messages[0].bytes[5], 2);
    assert!(!client.has_known_peer(id));
    let again =
        send_update_to_client_at(&mut client, &Update::Withdraw(id, None), 0, &register, OFF, now);
    assert!(again.messages.is_empty());
    let third = send_update_to_client_at(&mut client, &announcement(id), 0, &register, OFF, now);
    assert_eq!(third.messages.len(), 2);
    assert_eq!(third.messages[0].peer_up, Some(id));
}

#[test]
fn every_message_has_the_length_it_tells() {
    let peer = peer();
    let route = unicast([10, 1, 0, 0], 16, ATTRS);
    let mut messages = vec![
        build_peer_up_at(&peer, true, (1, 2)),
        build_peer_down_at(&peer, (1, 2)),
        build_statistics_report_at(&peer, &[0, 0, 0, 0], (1, 2)),
    ];
    let by_route = build_route_monitoring_from_route_at(&peer, &route, false, Some(7), (1, 2)).unwrap();
    let by_prefix = build_route_monitoring_at(
        &peer,
        &v4([10, 1, 0, 0], 16),
        &RotondaPaMap::from_attributes(ATTRS),
        false,
        Some(7),
        (1, 2),
    );
    assert_eq!(Some(by_route.clone()), by_prefix);
    // The NLRI: path id, length in bits, and as many octets as it takes.
    assert_eq!(&by_route[by_route.len() - 7..], &[0, 0, 0, 7, 16, 10, 1]);
    let bgp = &by_route[48..];
    assert_eq!(u16::from_be_bytes([bgp[16], bgp[17]]) as usize, bgp.len());
    messages.push(by_route);
    for message in &messages {
        let told = u32::from_be_bytes([message[1], message[2], message[3], message[4]]);
        assert_eq!(told as usize, message.len());
        // All bear the same header of their peer but for the time.
        assert_eq!(&message[6..40], &messages[0][6..40]);
    }
}

#[test]
fn a_rule_is_as_long_as_it_is_taken_to_be() {
    for n in [0usize, 239, 240, 4095] {
        for path_id in [None, Some(9)] {
            let raw = vec![3u8; n];
            let mut buf = Vec::new();
            append_flowspec_nlri(&mut buf, &raw, path_id);
            assert_eq!(buf.len(), flowspec_nlri_encoded_len(&raw, path_id.is_some()));
        }
    }
}

#[test]
fn attributes_are_kept_but_for_multiprotocol_nlri() {
    let mut attrs = ATTRS.to_vec();
    // MP_REACH_NLRI: IPv6 unicast, next hop 2001:db8::1, no NLRI.
    let mut hop = [0u8; 16];
    hop[..4].copy_from_slice(&[0x20, 1, 0x0d, 0xb8]);
    hop[15] = 1;
    attrs.extend_from_slice(&[0x80, 14, 21, 0, 2, 1, 16]);
    attrs.extend_from_slice(&hop);
    attrs.push(0);
    // MP_UNREACH_NLRI: IPv6 unicast.
    attrs.extend_from_slice(&[0x80, 15, 3, 0, 2, 1]);
    let (kept, next_hop) = filter_raw_path_attributes(&RotondaPaMap::from_attributes(&attrs));
    assert_eq!(kept, ATTRS.to_vec());
    assert_eq!(next_hop, Some(hop.to_vec()));
}

#[test]
fn routes_wait_in_their_group_until_it_is_sent() {
    let now = (0, 0);
    let mut agg = RouteAggregator::new(1 << 20, HashMap::from([(1, peer())]));
    let attrs = RotondaPaMap::from_attributes(ATTRS);
    for i in 0..10u8 {
        assert!(agg.add(1, None, v4([10, i, 0, 0], 16), &attrs, now).is_empty());
    }
    assert!(agg.add(1, None, v4([11, 0, 0, 0], 16), &RotondaPaMap::empty_path_attributes(), now).is_empty());
    // An unknown peer has no routes.
    assert!(agg.add(2, None, v4([11, 0, 0, 0], 16), &attrs, now).is_empty());
    assert_eq!(agg.stats(), (2, 0));
    let mut sizes: Vec<usize> = agg.flush_all(now).iter().map(|m| m.items.len()).collect();
    sizes.sort();
    assert_eq!(sizes, vec![1, 10]);
    assert!(agg.flush_all(now).is_empty());
}

#[test]
fn the_fullest_group_goes_first_when_memory_is_short() {
    let now = (0, 0);
    // Room for two groups with five routes in all.
    let mut agg = RouteAggregator::new(2 * 128 + 5 * 32, HashMap::from([(1, peer())]));
    let many = RotondaPaMap::from_attributes(ATTRS);
    let few = RotondaPaMap::empty_path_attributes();
    assert!(agg.add(1, None, v4([20, 0, 0, 0], 16), &few, now).is_empty());
    for i in 0..4u8 {
        assert!(agg.add(1, None, v4([10, i, 0, 0], 16), &many, now).is_empty());
    }
    let sent = agg.add(1, None, v4([10, 9, 0, 0], 16), &many, now);
    assert_eq!(sent.len(), 1);
    assert_eq!(sent[0].items.len(), 5);
    assert_eq!(agg.stats(), (2, 1));
    let rest = agg.flush_all(now);
    assert_eq!(rest.len(), 1);
    assert_eq!(rest[0].items.len(), 1);
}

#[test]
fn a_group_of_rules_sends_just_those() {
    let now = (0, 0);
    let mut agg = RouteAggregator::new(1 << 20, HashMap::from([(1, peer())]));
    let attrs = RotondaPaMap::from_attributes(ATTRS);
    let rules: [&[u8]; 3] = [&[1, 24, 10, 0, 0], &[3, 0x81, 6], &[1, 8, 10]];
    for rule in rules {
        assert!(agg.add_flowspec(1, None, true, rule, &attrs, now).is_empty());
    }
    let sent = agg.flush_all(now);
    assert_eq!(sent.len(), 1);
    let bgp = &sent[0].bytes[48..];
    assert_eq!(u16::from_be_bytes([bgp[16], bgp[17]]) as usize, bgp.len());
    let mut nlri = Vec::new();
    for rule in rules {
        append_flowspec_nlri(&mut nlri, rule, None);
    }
    // The attribute is the last one: its header, the family and no next hop.
    let mut attr = vec![0x90, 14, 0, 5 + nlri.len() as u8, 0, 1, 133, 0, 0];
    attr.extend_from_slice(&nlri);
    assert!(bgp.ends_with(&attr));
    assert!(agg.flush_all(now).is_empty());
}

#[test]
fn every_added_route_is_sent_once() {
    let now = (0, 0);
    // So little memory that groups are sent all the time.
    let mut agg = RouteAggregator::new(400, HashMap::from([(1, peer()), (2, peer())]));
    let lists = [RotondaPaMap::from_attributes(ATTRS), RotondaPaMap::empty_path_attributes()];
    let mut sent = Vec::new();
    for i in 0..60u8 {
        let id = 1 + u32::from(i % 2);
        let path_id = if i % 3 == 0 { Some(u32::from(i)) } else { None };
        let attrs = &lists[usize::from(i % 5 == 0)];
        if i % 4 == 0 {
            sent.extend(agg.add_flowspec(id, path_id, true, &[1, 16, 10, i], attrs, now));
        } else {
            sent.extend(agg.add(id, path_id, v4([10, i, 0, 0], 16), attrs, now));
        }
    }
    sent.extend(agg.flush_all(now));
    let mut seen = HashSet::new();
    for m in &sent {
        let bgp = &m.bytes[48..];
        assert_eq!(u16::from_be_bytes([bgp[16], bgp[17]]) as usize, bgp.len());
        for item in &m.items {
            assert_eq!(item.path_id.is_some(), m.key.has_path_id);
            assert!(seen.insert((m.key.ingress_id, item.path_id, format!("{:?}", item.nlri))));
        }
    }
    assert_eq!(seen.len(), 60);
    assert_eq!(sent.iter().map(|m| m.items.len()).sum::<usize>(), 60);
    assert!(agg.flush_all(now).is_empty());
}

#[test]
fn the_count_of_dumps_is_the_places_held() {
    let mut active = ActiveDumps::new();
    let mut held = Vec::new();
    for _ in 0..MAX_CONCURRENT_DUMPS {
        held.push(DumpGuard::try_enter(&mut active).unwrap());
    }
    assert!(DumpGuard::try_enter(&mut active).is_none());
    held.push(DumpGuard::enter(&mut active));
    assert_eq!(DumpGuard::active(&active), MAX_CONCURRENT_DUMPS + 1);
    held.pop().unwrap().leave(&mut active);
    assert!(DumpGuard::try_enter(&mut active).is_none());
    held.pop().unwrap().leave(&mut active);
    held.push(DumpGuard::try_enter(&mut active).unwrap());
    assert_eq!(DumpGuard::active(&active), held.len());
}

#[test]
fn escaped_text_is_read_back() {
    let text: String = (0u8..=0xff).map(char::from).collect::<String>() + "\u{2028} \u{1f600}";
    let escaped = escape_json_string(&text);
    let read: String = serde_json::from_str(&format!("\"{escaped}\"")).unwrap();
    assert_eq!(read, text);
}

#[test]
fn a_place_that_was_given_back_serves_another_record() {
    let mut rib = table();
    let (one, two) = (rib.ingress_register.register(), rib.ingress_register.register());
    told(&mut rib, &unicast([10, 0, 0, 0], 8, ATTRS), RouteStatus::Active, one);
    told(&mut rib, &unicast([11, 0, 0, 0], 8, &[]), RouteStatus::Active, two);
    rib.unicast.remove_mui(one);
    told(&mut rib, &unicast([12, 0, 0, 0], 8, &[0x40, 1, 1, 0]), RouteStatus::Active, two);
    // What was removed does not come back with it.
    assert_eq!(stored(&rib, [10, 0, 0, 0], 8, one), None);
    assert_eq!(shown(&rib, [11, 0, 0, 0], 8, two), Some(vec![0, 1]));
    assert_eq!(shown(&rib, [12, 0, 0, 0], 8, two), Some(vec![0, 1, 0x40, 1, 1, 0]));
    told(&mut rib, &unicast([10, 0, 0, 0], 8, ATTRS), RouteStatus::Active, one);
    assert_eq!(rib.unicast.count_routes(), 3);
    assert_eq!(shown(&rib, [12, 0, 0, 0], 8, two), Some(vec![0, 1, 0x40, 1, 1, 0]));
}

#[test]
fn flowspec_updates_are_counted_whatever_comes_of_them() {
    let mut rib = table();
    let first = rule(&[0x03, 0x81, 0x11]);
    told(&mut rib, &first, RouteStatus::Active, 1);
    told(&mut rib, &first, RouteStatus::Active, 1);
    told(&mut rib, &first, RouteStatus::Withdrawn, 1);
    // A rule that is not there is withdrawn.
    told(&mut rib, &first, RouteStatus::Withdrawn, 1);
    told(&mut rib, &first, RouteStatus::Withdrawn, 2);
    told(&mut rib, &unicast([10, 0, 0, 0], 8, ATTRS), RouteStatus::Active, 1);
    let six = mk_flowspec_route(AfiSafiType::Ipv6FlowSpec, vec![0x03, 0x81, 0x11], &[]).unwrap();
    told(&mut rib, &six, RouteStatus::Active, 1);
    let counted =
        UpdateCounts { v4_announced: 2, v4_withdrawn: 3, v6_announced: 1, v6_withdrawn: 0 };
    assert_eq!(rib.flowspec_updates, counted);
    rib.withdraw_for_ingress(1, None, false);
    rib.remove_for_ingresses(&[1]);
    assert_eq!(rib.flowspec_updates, counted);
}

#[test]
fn a_record_keeps_its_own_time() {
    let mut rib = table();
    let p = v4([10, 0, 0, 0], 8);
    for (id, time) in [(1, 40), (2, u64::MAX), (3, 0)] {
        let route = unicast([10, 0, 0, 0], 8, ATTRS);
        assert!(rib.insert(&route, RouteStatus::Active, time, id, false, false).is_ok());
    }
    let time = |rib: &Rib, id: IngressId| {
        rib.unicast.get_records_for_prefix(&p, Some(id), true)[0].ltime
    };
    assert_eq!((time(&rib, 1), time(&rib, 2), time(&rib, 3)), (40, u64::MAX, 0));
    assert!(rib.unicast.mark_mui_as_withdrawn_for_prefix(&p, 2, 7).is_ok());
    assert_eq!((time(&rib, 1), time(&rib, 2), time(&rib, 3)), (40, 7, 0));
    let kept = &rib.unicast.get_records_for_prefix(&p, Some(2), true)[0];
    assert_eq!(kept.status, RouteStatus::Withdrawn);
    assert_eq!(&kept.meta.raw[2..], ATTRS);
}

#[test]
fn the_chunks_of_a_stream_tell_each_route_once() {
    let mut rib = table();
    let n = DUMP_KEY_CHUNK + 3;
    for i in 0..n {
        let route = unicast([10, (i / 256) as u8, (i % 256) as u8, 0], 24, ATTRS);
        told(&mut rib, &route, RouteStatus::Active, 1);
        told(&mut rib, &route, RouteStatus::Active, 2);
    }
    rib.withdraw_for_ingress(2, None, true);
    told(&mut rib, &unicast([10, 0, 0, 0], 24, ATTRS), RouteStatus::Withdrawn, 1);
    let none: Option<&fn(&RotondaPaMap) -> bool> = None;
    let all = v4([0, 0, 0, 0], 0);
    let mut stream =
        rib.jsonl_stream(AfiSafiType::Ipv4Unicast, all, QueryFilter::default(), false).unwrap();
    let mut sizes = Vec::new();
    let mut told_of = HashSet::new();
    while !stream.done() {
        let chunk = rib.write_jsonl_stream(&mut stream, none);
        sizes.push(chunk.len());
        for pr in &chunk {
            for line in stream.lines(pr) {
                let octets = match line.prefix.addr {
                    IpAddress::V4(o) => o,
                    IpAddress::V6(_) => panic!("no such prefix"),
                };
                assert!(told_of.insert((octets, line.ingress_id)));
                assert_eq!(line.ingress_id, 1);
            }
        }
    }
    assert_eq!(sizes.iter().sum::<usize>(), n - 1);
    assert_eq!(told_of.len(), n - 1);
}
