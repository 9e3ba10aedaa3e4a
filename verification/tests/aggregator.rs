use std::collections::HashMap;

use bytes::Bytes;
use netom::aggregator::{AggGroup, AggItem, AggMessage, AggNlri, GroupKey, RouteAggregator};
use netom::bmp_builder::{
    flowspec_nlri_encoded_len, PeerInfo, BMP_MSG_ROUTE_MONITORING, BMP_PER_PEER_HEADER_LEN, MAX_BGP_UPDATE_LEN,
};
use netom::pamap::{filter_raw_path_attributes, RotondaPaMap};
use netom::types::{IngressId, IpAddress, PeerType, Prefix};
use routecore::bgp::message::{SessionConfig, UpdateMessage};
use routecore::bgp::nlri::afisafi::{IsPrefix, Nlri};
use routecore::bgp::types::AfiSafiType as OutsideFamily;

const BMP_COMMON_HEADER_LEN: usize = 6;
const BMP_VERSION: u8 = 3;
const BGP_MSG_UPDATE: u8 = 2;
/// Where the BGP message of a BMP message begins.
const BODY: usize = BMP_COMMON_HEADER_LEN + BMP_PER_PEER_HEADER_LEN;
const NOW: (u32, u32) = (1_700_000_000, 0);

// {dst 10.0.1.0/24, proto =17} raw NLRI (no length header)
const FS_NLRI_A: &[u8] = &[0x01, 0x18, 10, 0, 1, 0x03, 0x81, 0x11];
// {dst 10.0.1.0/24, dport =53}
const FS_NLRI_B: &[u8] = &[0x01, 0x18, 10, 0, 1, 0x05, 0x81, 0x35];

fn v4(octets: [u8; 4], len: u8) -> Prefix {
    Prefix::new(IpAddress::V4(octets), len).unwrap()
}

/// The messages with the number of routes in each.
fn sent(messages: Vec<AggMessage>) -> Vec<(Vec<u8>, usize)> {
    messages.into_iter().map(|m| (m.bytes, m.items.len())).collect()
}

fn agg_test_peer() -> PeerInfo {
    PeerInfo {
        peer_type: PeerType::GlobalInstance,
        peer_flags: 0,
        peer_distinguisher: [0u8; 8],
        peer_address: IpAddress::V4([10, 0, 0, 1]),
        peer_asn: 65000,
        peer_bgp_id: [0u8; 4],
        local_addr: IpAddress::V4([0; 4]),
        peer_hostname: None,
        peer_software_version: None,
        peer_role: None,
        session_up_time: None,
        peer_capabilities: Vec::new(),
        addpath_cap_value: Vec::new(),
        admin_label: None,
    }
}

fn fs_pamap() -> RotondaPaMap {
    // ORIGIN=IGP + EXTENDED_COMMUNITIES traffic-rate 0 (drop)
    RotondaPaMap::from_attributes(&[
        0x40, 1, 1, 0, // ORIGIN
        0xc0, 16, 8, 0x80, 0x06, 0, 0, 0, 0, 0, 0, // drop
    ])
}

/// The aggregator packs multiple path ids of one prefix into one
/// UPDATE, and never mixes path-id and plain NLRI in one group (the
/// wire format would be unparseable).
#[test]
fn aggregator_separates_and_encodes_path_ids() {
    let peer = agg_test_peer();
    let pamap = RotondaPaMap::from_attributes(&[0x40, 1, 1, 0]);
    let mut peer_map: HashMap<IngressId, PeerInfo> = HashMap::new();
    peer_map.insert(7, peer.clone());
    let mut agg = RouteAggregator::new(64 * 1024 * 1024, peer_map);

    let addpath_prefix = v4([10, 0, 0, 0], 24);
    let plain_prefix = v4([10, 9, 0, 0], 16);
    let mut messages: Vec<(Vec<u8>, usize)> = Vec::new();
    // Two paths for one prefix plus one plain route, all sharing one (peer,
    // family, attribute-set).
    messages.extend(sent(agg.add(7, Some(1), addpath_prefix, &pamap, NOW)));
    messages.extend(sent(agg.add(7, Some(2), addpath_prefix, &pamap, NOW)));
    messages.extend(sent(agg.add(7, None, plain_prefix, &pamap, NOW)));
    messages.extend(sent(agg.flush_all(NOW)));
    assert_eq!(
        messages.len(),
        2,
        "path-id and plain NLRI must flush as separate UPDATEs"
    );

    let mut sc_addpath = SessionConfig::modern();
    sc_addpath.add_addpath_rxtx(OutsideFamily::Ipv4Unicast);

    let mut seen_addpath = false;
    let mut seen_plain = false;
    for (msg, _) in &messages {
        let bgp = Bytes::copy_from_slice(&msg[BODY..]);
        // The ADD-PATH message parses with the addpath config into
        // exactly the two path ids; the plain one with the modern
        // config into the single prefix.
        let addpath_parse =
            UpdateMessage::from_octets(bgp.clone(), &sc_addpath)
                .ok()
                .and_then(|upd| {
                    upd.announcements()
                        .ok()?
                        .collect::<Result<Vec<_>, _>>()
                        .ok()
                });
        match addpath_parse.as_deref() {
            Some(
                [Nlri::Ipv4UnicastAddpath(a), Nlri::Ipv4UnicastAddpath(b)],
            ) => {
                let mut pids = [
                    IsPrefix::path_id(a).map(|p| p.0),
                    IsPrefix::path_id(b).map(|p| p.0),
                ];
                pids.sort_unstable();
                assert_eq!(pids, [Some(1), Some(2)]);
                seen_addpath = true;
                continue;
            }
            _ => {}
        }
        let upd =
            UpdateMessage::from_octets(bgp, &SessionConfig::modern())
                .expect("plain UPDATE must parse");
        let anns: Vec<_> =
            upd.announcements().unwrap().map(|n| n.unwrap()).collect();
        assert_eq!(anns.len(), 1);
        seen_plain = true;
    }
    assert!(seen_addpath && seen_plain);
}

/// An aggregated IPv4 message packs every prefix's NLRI into one BGP
/// UPDATE behind a single shared attribute block, with self-consistent
/// length fields and within the BGP size limit.
#[test]
fn aggregated_v4_packs_multiple_nlri() {
    let peer = agg_test_peer();
    let pamap = RotondaPaMap::from_attributes(&[0x40, 1, 1, 0]); // ORIGIN=IGP
    let (pa_bytes, _) = filter_raw_path_attributes(&pamap);
    let prefixes = [v4([10, 1, 0, 0], 24), v4([10, 2, 0, 0], 24), v4([10, 3, 0, 0], 16)];
    let mut agg = RouteAggregator::new(1024 * 1024, HashMap::from([(1u32, peer)]));
    for prefix in prefixes {
        assert!(agg.add(1, None, prefix, &pamap, NOW).is_empty());
    }
    let mut messages = sent(agg.flush_all(NOW));
    assert_eq!(messages.len(), 1);
    let (msg, n) = messages.remove(0);
    assert_eq!(n, 3);

    assert_eq!(msg[0], BMP_VERSION);
    assert_eq!(msg[5], BMP_MSG_ROUTE_MONITORING);
    let bmp_len = u32::from_be_bytes([msg[1], msg[2], msg[3], msg[4]]);
    assert_eq!(bmp_len as usize, msg.len());

    let bgp = &msg[BODY..];
    let bgp_len = u16::from_be_bytes([bgp[16], bgp[17]]) as usize;
    assert_eq!(bgp_len, bgp.len());
    assert_eq!(bgp[18], BGP_MSG_UPDATE);
    assert_eq!(u16::from_be_bytes([bgp[19], bgp[20]]), 0); // Withdrawn=0
    let pa_len = u16::from_be_bytes([bgp[21], bgp[22]]) as usize;
    assert_eq!(pa_len, pa_bytes.len());
    // NLRI: (1+3) + (1+3) + (1+2) = 11 bytes for the three prefixes.
    let nlri = &bgp[23 + pa_len..];
    assert_eq!(nlri.len(), 11);
    assert_eq!(nlri[0], 24);
    assert!(bgp_len <= MAX_BGP_UPDATE_LEN);
}

/// The aggregator splits into a new message at the BGP UPDATE size limit,
/// never exceeds it, accounts for every route, and actually aggregates.
#[test]
fn aggregator_respects_update_size_limit() {
    let peer = agg_test_peer();
    let pamap = RotondaPaMap::from_attributes(&[0x40, 1, 1, 0]);
    let mut messages: Vec<(Vec<u8>, usize)> = Vec::new();
    let mut peer_map: HashMap<IngressId, PeerInfo> = HashMap::new();
    peer_map.insert(7, peer.clone());
    let mut agg = RouteAggregator::new(64 * 1024 * 1024, peer_map);
    for i in 0..5000u32 {
        let p = v4([100, (i >> 8) as u8, (i & 0xff) as u8, 0], 24);
        messages.extend(sent(agg.add(7, None, p, &pamap, NOW)));
    }
    messages.extend(sent(agg.flush_all(NOW)));

    let mut total_routes = 0usize;
    let mut saw_extended = false;
    for (m, n) in &messages {
        total_routes += n;
        let bgp = &m[BODY..];
        let bgp_len = u16::from_be_bytes([bgp[16], bgp[17]]) as usize;
        assert_eq!(bgp_len, bgp.len());
        assert!(bgp_len <= MAX_BGP_UPDATE_LEN);
        saw_extended |= bgp_len > 4096;
    }
    assert_eq!(total_routes, 5000);
    assert!(saw_extended, "aggregator never used extended messages");
    assert!(messages.len() < 100, "expected heavy aggregation");
}

/// Under a tiny budget the aggregator must evict (fullest-first) yet still
/// deliver every route exactly once, with each message within the size
/// limit: it degrades gracefully rather than losing or duplicating
/// routes.
#[test]
fn aggregator_tiny_budget_loses_no_routes() {
    let peer = agg_test_peer();
    // Two distinct attribute sets so multiple groups coexist.
    let pamap_a = RotondaPaMap::from_attributes(&[0x40, 1, 1, 0]); // ORIGIN IGP
    let pamap_b = RotondaPaMap::from_attributes(&[0x40, 1, 1, 2]); // ORIGIN INCOMPLETE
    let mut peer_map: HashMap<IngressId, PeerInfo> = HashMap::new();
    peer_map.insert(7, peer.clone());
    // Budget of 1 KiB forces frequent eviction.
    let mut agg = RouteAggregator::new(1024, peer_map);
    let mut messages: Vec<(Vec<u8>, usize)> = Vec::new();
    for i in 0..2000u32 {
        let p = v4([172, (i >> 8) as u8, (i & 0xff) as u8, 0], 24);
        let pamap = if i % 2 == 0 { &pamap_a } else { &pamap_b };
        messages.extend(sent(agg.add(7, None, p, pamap, NOW)));
    }
    messages.extend(sent(agg.flush_all(NOW)));
    let mut total = 0usize;
    let mut evicted_within_limit = true;
    for (m, n) in &messages {
        total += n;
        let bgp = &m[BODY..];
        let bgp_len = u16::from_be_bytes([bgp[16], bgp[17]]) as usize;
        if bgp_len != bgp.len() || bgp_len > MAX_BGP_UPDATE_LEN {
            evicted_within_limit = false;
        }
    }
    assert_eq!(total, 2000);
    assert!(evicted_within_limit);
    // The budget was small enough that eviction actually fired.
    assert!(agg.stats().1 > 0, "expected budget evictions to occur");
}

/// Two rules sharing one attribute set aggregate into ONE UPDATE with
/// one MP_REACH carrying both NLRI.
#[test]
fn flowspec_aggregation_packs_rules() {
    let peer = agg_test_peer();
    let pamap = fs_pamap();
    let mut agg = RouteAggregator::new(1024 * 1024, HashMap::from([(1u32, peer)]));
    let mut messages: Vec<(Vec<u8>, usize)> = Vec::new();
    messages.extend(sent(agg.add_flowspec(1, None, true, FS_NLRI_A, &pamap, NOW)));
    messages.extend(sent(agg.add_flowspec(1, None, true, FS_NLRI_B, &pamap, NOW)));
    messages.extend(sent(agg.flush_all(NOW)));
    assert_eq!(messages.len(), 1);
    let (msg, n) = &messages[0];
    assert_eq!(*n, 2);
    let bgp = &msg[BODY..];
    let pa_len = u16::from_be_bytes([bgp[21], bgp[22]]) as usize;
    let pas = &bgp[23..23 + pa_len];
    // shared attrs once, then one extended-length MP_REACH
    let mp = &pas[15..];
    assert_eq!(mp[0], 0x90);
    assert_eq!(mp[1], 14);
    let value_len = u16::from_be_bytes([mp[2], mp[3]]) as usize;
    let value = &mp[4..4 + value_len];
    assert_eq!(value[2], 133);
    assert_eq!(value[3], 0); // nh_len 0
    // both NLRI present, each with its length header
    let nlri = &value[5..];
    assert_eq!(nlri[0] as usize, FS_NLRI_A.len());
    assert_eq!(&nlri[1..1 + FS_NLRI_A.len()], FS_NLRI_A);
    let second = &nlri[1 + FS_NLRI_A.len()..];
    assert_eq!(second[0] as usize, FS_NLRI_B.len());
    assert_eq!(&second[1..], FS_NLRI_B);
}

#[test]
fn flowspec_aggregation_uses_extended_messages() {
    let peer = agg_test_peer();
    let pamap = fs_pamap();
    let mut agg = RouteAggregator::new(1024 * 1024, HashMap::from([(1u32, peer)]));
    let nlri_a = vec![1u8; 3000];
    let nlri_b = vec![2u8; 3000];
    let mut messages: Vec<(Vec<u8>, usize)> = Vec::new();
    messages.extend(sent(agg.add_flowspec(1, None, true, &nlri_a, &pamap, NOW)));
    messages.extend(sent(agg.add_flowspec(1, None, true, &nlri_b, &pamap, NOW)));
    messages.extend(sent(agg.flush_all(NOW)));
    assert_eq!(messages.len(), 1);
    assert_eq!(messages[0].1, 2);
    let bgp = &messages[0].0[BODY..];
    let bgp_len = u16::from_be_bytes([bgp[16], bgp[17]]) as usize;
    assert_eq!(bgp_len, bgp.len());
    assert!(bgp_len > 4096);
    assert!(bgp_len <= MAX_BGP_UPDATE_LEN);
}

/// A unicast route and a flowspec rule with the SAME peer and the SAME
/// attribute set must never share an UPDATE.
#[test]
fn flowspec_and_unicast_never_share_an_update() {
    let peer = agg_test_peer();
    let pamap = RotondaPaMap::from_attributes(&[0x40, 1, 1, 0]);
    let mut agg = RouteAggregator::new(1024 * 1024, HashMap::from([(1u32, peer)]));
    let mut messages: Vec<(Vec<u8>, usize)> = Vec::new();
    let prefix = v4([10, 0, 1, 0], 24);
    messages.extend(sent(agg.add(1, None, prefix, &pamap, NOW)));
    messages.extend(sent(agg.add_flowspec(1, None, true, FS_NLRI_A, &pamap, NOW)));
    messages.extend(sent(agg.flush_all(NOW)));
    assert_eq!(messages.len(), 2);
}

/// The flowspec aggregator packs multiple ADD-PATH rules into one
/// UPDATE with per-rule path ids, and never mixes path-id and plain
/// rules in one group (the wire format would be unparseable).
#[test]
fn flowspec_aggregator_separates_and_encodes_path_ids() {
    let peer = agg_test_peer();
    let pamap = fs_pamap();
    let mut agg = RouteAggregator::new(1024 * 1024, HashMap::from([(1u32, peer)]));
    let mut messages: Vec<(Vec<u8>, usize)> = Vec::new();
    // Two ADD-PATH rules and one plain rule, all sharing one (peer, family,
    // attribute-set).
    messages.extend(sent(agg.add_flowspec(1, Some(1), true, FS_NLRI_A, &pamap, NOW)));
    messages.extend(sent(agg.add_flowspec(1, Some(2), true, FS_NLRI_B, &pamap, NOW)));
    messages.extend(sent(agg.add_flowspec(1, None, true, FS_NLRI_A, &pamap, NOW)));
    messages.extend(sent(agg.flush_all(NOW)));
    assert_eq!(
        messages.len(),
        2,
        "path-id and plain rules must flush as separate UPDATEs"
    );

    // Locate each message's MP_REACH NLRI field.
    let nlri_field = |msg: &[u8]| -> Vec<u8> {
        let bgp = &msg[BODY..];
        let pa_len = u16::from_be_bytes([bgp[21], bgp[22]]) as usize;
        let pas = &bgp[23..23 + pa_len];
        let mp = &pas[15..]; // shared ORIGIN + ext-comms first
        assert_eq!(mp[0], 0x90);
        assert_eq!(mp[1], 14);
        let value_len = u16::from_be_bytes([mp[2], mp[3]]) as usize;
        let value = &mp[4..4 + value_len];
        assert_eq!(value[2], 133);
        value[5..].to_vec() // strip AFI/SAFI/nh_len/reserved
    };

    let mut seen_addpath = false;
    let mut seen_plain = false;
    for (msg, n) in &messages {
        let nlri = nlri_field(msg);
        if *n == 2 {
            // ADD-PATH group: pid 1 + header + A, then pid 2 + header
            // + B, in insertion order.
            let mut want = 1u32.to_be_bytes().to_vec();
            want.push(FS_NLRI_A.len() as u8);
            want.extend_from_slice(FS_NLRI_A);
            want.extend_from_slice(&2u32.to_be_bytes());
            want.push(FS_NLRI_B.len() as u8);
            want.extend_from_slice(FS_NLRI_B);
            assert_eq!(nlri, want);
            seen_addpath = true;
        } else {
            // Plain group: length header + A only, no path id.
            let mut want = vec![FS_NLRI_A.len() as u8];
            want.extend_from_slice(FS_NLRI_A);
            assert_eq!(nlri, want);
            seen_plain = true;
        }
    }
    assert!(seen_addpath && seen_plain);
}

#[test]
fn a_group_of_rules_gives_one_message() {
    let key = GroupKey { ingress_id: 7, is_v4: true, has_path_id: true, flowspec: true };
    let pamap = fs_pamap();
    assert!(AggGroup::new(key, &pamap).emit(&agg_test_peer(), NOW).is_none());
    let mut group = AggGroup::new(key, &pamap);
    for (id, rule) in [(5, FS_NLRI_A), (6, FS_NLRI_B), (5, FS_NLRI_A)] {
        let item = AggItem { path_id: Some(id), nlri: AggNlri::Rule(rule.to_vec()) };
        group.push(item, flowspec_nlri_encoded_len(rule, true));
    }
    let len = group.bgp_update_len();
    let message = group.emit(&agg_test_peer(), NOW).unwrap();
    assert_eq!(message.items.len(), 3);
    let update = &message.bytes[BODY..];
    assert_eq!(update.len(), len);
    assert_eq!(u16::from_be_bytes([update[16], update[17]]) as usize, len);
    // One attribute without a next hop holds the rules in order.
    let mut reach = vec![0x90, 14, 0, 5 + 3 * 13, 0, 1, 133, 0, 0];
    for (id, rule) in [(5, FS_NLRI_A), (6, FS_NLRI_B), (5, FS_NLRI_A)] {
        reach.extend_from_slice(&[0, 0, 0, id, 8]);
        reach.extend_from_slice(rule);
    }
    assert!(update.ends_with(&reach));
}

#[test]
fn any_budget_is_kept_as_it_is() {
    let aggregator = RouteAggregator::new(usize::MAX, HashMap::new());
    assert_eq!(aggregator.max_bytes, usize::MAX);
}
