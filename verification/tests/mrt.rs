use std::io::Write;

use bzip2::write::BzEncoder;
use flate2::write::GzEncoder;
use netom::client::Update;
use netom::evpn_rows::EvpnFilter;
use netom::explode::{explode_update, spell_rule};
use netom::mrt_attrs::normalize_mrt_mp_reach;
use netom::mrt_file::{process_file, FileImport};
use netom::mrt_format::{read_peer_index, read_prefix, supported_rib_records, MrtError, MrtPeer};
use netom::mrt_import::{find_existing_peer, mrt_path_ingress, peer_ingress, MrtImportState};
use netom::mrt_source::{digest_text, unpack, OneOrManyPaths};
use netom::pamap::RotondaPaMap;
use netom::register::Register;
use netom::rib::Rib;
use netom::route::RotondaRoute;
use netom::types::{AfiSafiType, IngressState, IngressType, IpAddress, Prefix, RouteStatus};

fn v4(octets: [u8; 4], len: u8) -> Prefix {
    Prefix::new(IpAddress::V4(octets), len).unwrap()
}

fn record(kind: u16, subtype: u16, body: &[u8]) -> Vec<u8> {
    let mut r = 1_700_000_000u32.to_be_bytes().to_vec();
    r.extend_from_slice(&kind.to_be_bytes());
    r.extend_from_slice(&subtype.to_be_bytes());
    r.extend_from_slice(&(body.len() as u32).to_be_bytes());
    r.extend_from_slice(body);
    r
}

/// A peer index table with the given IPv4 peers.
fn peer_index(peers: &[([u8; 4], u32)]) -> Vec<u8> {
    let mut body = vec![192, 0, 2, 254];
    body.extend_from_slice(&[0, 0]);
    body.extend_from_slice(&(peers.len() as u16).to_be_bytes());
    for (addr, asn) in peers {
        body.push(2); // IPv4, four-octet AS number
        body.extend_from_slice(addr);
        body.extend_from_slice(addr);
        body.extend_from_slice(&asn.to_be_bytes());
    }
    record(13, 1, &body)
}

const ATTRS: &[u8] = &[0x40, 1, 1, 0, 0x40, 2, 6, 2, 1, 0, 0, 0xfc, 0];

fn entry(peer: u16, path_id: Option<u32>, attrs: &[u8]) -> Vec<u8> {
    let mut e = peer.to_be_bytes().to_vec();
    e.extend_from_slice(&[0, 0, 0, 1]);
    if let Some(id) = path_id {
        e.extend_from_slice(&id.to_be_bytes());
    }
    e.extend_from_slice(&(attrs.len() as u16).to_be_bytes());
    e.extend_from_slice(attrs);
    e
}

fn table(subtype: u16, nlri: &[u8], entries: &[Vec<u8>]) -> Vec<u8> {
    let mut body = vec![0, 0, 0, 0];
    body.extend_from_slice(nlri);
    body.extend_from_slice(&(entries.len() as u16).to_be_bytes());
    for e in entries {
        body.extend_from_slice(e);
    }
    record(13, subtype, &body)
}

fn bgp(kind: u8, body: &[u8]) -> Vec<u8> {
    let mut m = vec![0xff; 16];
    m.extend_from_slice(&(19 + body.len() as u16).to_be_bytes());
    m.push(kind);
    m.extend_from_slice(body);
    m
}

fn update(withdrawn: &[u8], attrs: &[u8], nlri: &[u8]) -> Vec<u8> {
    let mut body = (withdrawn.len() as u16).to_be_bytes().to_vec();
    body.extend_from_slice(withdrawn);
    body.extend_from_slice(&(attrs.len() as u16).to_be_bytes());
    body.extend_from_slice(attrs);
    body.extend_from_slice(nlri);
    bgp(2, &body)
}

fn session(peer: [u8; 4], asn: u32) -> Vec<u8> {
    let mut body = asn.to_be_bytes().to_vec();
    body.extend_from_slice(&64496u32.to_be_bytes());
    body.extend_from_slice(&[0, 0, 0, 1]);
    body.extend_from_slice(&peer);
    body.extend_from_slice(&[192, 0, 2, 254]);
    body
}

fn message(subtype: u16, peer: [u8; 4], asn: u32, pdu: &[u8]) -> Vec<u8> {
    let mut body = session(peer, asn);
    body.extend_from_slice(pdu);
    record(16, subtype, &body)
}

fn state_change(peer: [u8; 4], asn: u32, old: u16, new: u16) -> Vec<u8> {
    let mut body = session(peer, asn);
    body.extend_from_slice(&old.to_be_bytes());
    body.extend_from_slice(&new.to_be_bytes());
    record(16, 5, &body)
}

fn import(raw: &[u8]) -> (Register, Vec<Update>, Result<(), MrtError>) {
    let mut register = Register::new();
    let parent = register.register();
    let mut state = MrtImportState::new();
    let (updates, result) =
        process_file(&mut register, parent, raw, &"dump.mrt".to_string(), &mut state);
    (register, updates, result)
}

fn prefix_of(route: &RotondaRoute) -> Prefix {
    match route {
        RotondaRoute::Ipv4Unicast(p, _) => *p,
        other => panic!("unexpected route {other:?}"),
    }
}

#[test]
fn a_table_dump_becomes_a_route_for_each_entry() {
    let mut raw = peer_index(&[([10, 0, 0, 1], 65001), ([10, 0, 0, 2], 65002)]);
    raw.extend(table(2, &[24, 198, 51, 100], &[entry(0, None, ATTRS), entry(1, None, ATTRS)]));
    raw.extend(table(2, &[8, 10], &[entry(1, None, ATTRS)]));
    let (register, updates, result) = import(&raw);
    result.unwrap();
    let mut seen = Vec::new();
    for u in &updates {
        match u {
            Update::Single(p) => {
                assert_eq!(p.route_status, RouteStatus::Active);
                assert_eq!(&p.rx_value.rotonda_pamap().raw[2..], ATTRS);
                let info = register.get(p.ingress_id).unwrap();
                assert_eq!(info.ingress_type, Some(IngressType::Mrt));
                assert_eq!(info.filename.as_deref(), Some("dump.mrt"));
                seen.push((prefix_of(&p.rx_value), info.remote_asn.unwrap()));
            }
            other => panic!("unexpected update {other:?}"),
        }
    }
    assert_eq!(
        seen,
        vec![
            (v4([198, 51, 100, 0], 24), 65001),
            (v4([198, 51, 100, 0], 24), 65002),
            (v4([10, 0, 0, 0], 8), 65002),
        ]
    );
}

#[test]
fn paths_of_a_table_dump_get_ingresses_of_their_own() {
    let mut raw = peer_index(&[([10, 0, 0, 1], 65001)]);
    let entries = [entry(0, Some(1), ATTRS), entry(0, Some(2), ATTRS)];
    raw.extend(table(8, &[24, 198, 51, 100], &entries));
    raw.extend(table(8, &[8, 10], &[entry(0, Some(1), ATTRS)]));
    let (register, updates, result) = import(&raw);
    result.unwrap();
    let ids: Vec<u32> = updates
        .iter()
        .map(|u| match u {
            Update::Single(p) => p.ingress_id,
            other => panic!("unexpected update {other:?}"),
        })
        .collect();
    assert_eq!(ids.len(), 3);
    assert_ne!(ids[0], ids[1]);
    assert_eq!(ids[0], ids[2]);
    let child = register.get(ids[1]).unwrap();
    assert_eq!(child.ingress_type, Some(IngressType::BgpPath));
    assert_eq!(child.path_id, Some(2));
    assert_eq!(child.state, Some(IngressState::NonNetwork));
    let peer = register.get(child.parent_ingress.unwrap()).unwrap();
    assert_eq!(peer.addpath_families, Some(vec![0, 1, 1, 3]));
    assert_eq!(child.remote_asn, Some(65001));
}

#[test]
fn messages_announce_and_withdraw() {
    let announce = update(&[], ATTRS, &[24, 198, 51, 100]);
    let withdraw = update(&[24, 198, 51, 100], &[], &[]);
    let mut raw = message(4, [10, 0, 0, 1], 65001, &announce);
    raw.extend(message(4, [10, 0, 0, 1], 65001, &withdraw));
    // Something that is no UPDATE is passed over.
    raw.extend(message(4, [10, 0, 0, 1], 65001, &bgp(4, &[])));
    // So is a record of another kind.
    raw.extend(record(12, 1, &[1, 2, 3]));
    let (_, updates, result) = import(&raw);
    result.unwrap();
    let told: Vec<(RouteStatus, Prefix)> = updates
        .iter()
        .flat_map(|u| match u {
            Update::Single(p) => vec![(p.route_status, prefix_of(&p.rx_value))],
            Update::Bulk(ps) => {
                ps.iter().map(|p| (p.route_status, prefix_of(&p.rx_value))).collect()
            }
            other => panic!("unexpected update {other:?}"),
        })
        .collect();
    let p = v4([198, 51, 100, 0], 24);
    assert_eq!(told, vec![(RouteStatus::Active, p), (RouteStatus::Withdrawn, p)]);
}

#[test]
fn a_session_that_goes_idle_is_withdrawn() {
    let announce = update(&[], ATTRS, &[24, 198, 51, 100]);
    let mut raw = message(4, [10, 0, 0, 1], 65001, &announce);
    raw.extend(state_change([10, 0, 0, 1], 65001, 6, 1));
    raw.extend(state_change([10, 0, 0, 1], 65001, 2, 1));
    let (_, updates, result) = import(&raw);
    result.unwrap();
    let withdrawn = updates
        .iter()
        .filter(|u| matches!(u, Update::Withdraw(..) | Update::WithdrawBulk(_)))
        .count();
    assert_eq!(withdrawn, 1);
}

#[test]
fn what_cannot_be_read_is_told() {
    let text = |raw: &[u8]| import(raw).2.unwrap_err().message();
    assert_eq!(text(&[0; 5]), "parse error: short MRT header");
    let mut cut = record(13, 1, &[0; 8]);
    cut.pop();
    assert_eq!(text(&cut), "error: MRT record exceeds input");
    let mut raw = peer_index(&[([10, 0, 0, 1], 65001)]);
    raw.extend(table(2, &[24, 198, 51, 100], &[entry(9, None, ATTRS)]));
    assert_eq!(text(&raw), "parse error: RIB entry of unknown peer");
    let mut raw = peer_index(&[([10, 0, 0, 1], 65001)]);
    raw.extend(table(2, &[99], &[]));
    assert_eq!(text(&raw), "parse error: malformed RIB record");
    assert_eq!(MrtError::Io("gone".to_string()).message(), "io error: gone");
}

#[test]
fn what_comes_before_a_fault_is_told() {
    let mut raw = peer_index(&[([10, 0, 0, 1], 65001)]);
    raw.extend(table(2, &[8, 10], &[entry(0, None, ATTRS)]));
    raw.extend(table(2, &[99], &[]));
    let (_, updates, result) = import(&raw);
    assert!(result.is_err());
    assert_eq!(updates.len(), 1);
}

#[test]
fn a_file_can_be_read_record_by_record() {
    let mut raw = peer_index(&[([10, 0, 0, 1], 65001)]);
    raw.extend(table(2, &[8, 10], &[entry(0, None, ATTRS)]));
    raw.extend(message(4, [10, 0, 0, 1], 65001, &update(&[], ATTRS, &[24, 198, 51, 100])));
    let mut register = Register::new();
    let parent = register.register();
    let mut state = MrtImportState::new();
    let mut file =
        FileImport::start(&mut register, &state, parent, &raw, &"f".to_string()).unwrap();
    let mut told = 0;
    while !file.done(&raw) {
        let (updates, result) = file.step(&mut register, &mut state, parent, &raw);
        result.unwrap();
        told += updates.iter().map(|u| u.entries()).sum::<usize>();
    }
    assert_eq!(told, 2);
}

#[test]
fn flowspec_rules_of_a_table_dump_are_routes() {
    let mut raw = peer_index(&[([10, 0, 0, 1], 65001)]);
    let mut nlri = vec![0, 1, 133];
    nlri.extend_from_slice(&[8, 0x01, 0x18, 10, 0, 1, 0x03, 0x81, 0x11]);
    raw.extend(table(6, &nlri, &[entry(0, None, ATTRS)]));
    let (_, updates, result) = import(&raw);
    result.unwrap();
    assert_eq!(updates.len(), 1);
    match &updates[0] {
        Update::Single(p) => {
            assert_eq!(p.rx_value.afisafi(), AfiSafiType::Ipv4FlowSpec);
            assert_eq!(p.rx_value.index_prefix(), Some(v4([10, 0, 1, 0], 24)));
        }
        other => panic!("unexpected update {other:?}"),
    }
}

#[test]
fn a_first_look_finds_families_with_path_ids() {
    let mut raw = peer_index(&[([10, 0, 0, 1], 65001)]);
    raw.extend(table(8, &[8, 10], &[entry(0, Some(1), ATTRS)]));
    let mut state = MrtImportState::new();
    state.preflight_bytes(&raw).unwrap();
    let peer = MrtPeer { addr: IpAddress::V4([10, 0, 0, 1]), asn: 65001 };
    assert_eq!(state.encoded_addpath_families(&peer), vec![0, 1, 1, 3]);
    let other = MrtPeer { addr: IpAddress::V4([10, 0, 0, 1]), asn: 65002 };
    assert!(state.encoded_addpath_families(&other).is_empty());
    assert!(state.preflight_bytes(&raw[..raw.len() - 1]).is_err());
}

#[test]
fn a_peer_and_its_paths_keep_their_ingresses() {
    let mut register = Register::new();
    let unit = register.register();
    let mut state = MrtImportState::new();
    let peer = MrtPeer { addr: IpAddress::V4([10, 0, 0, 1]), asn: 65001 };
    assert!(find_existing_peer(&register, unit, &peer).is_none());
    let id = peer_ingress(&mut register, &state, unit, &peer, None).unwrap();
    assert_eq!(peer_ingress(&mut register, &state, unit, &peer, None), Some(id));
    assert_eq!(find_existing_peer(&register, unit, &peer), Some(id));
    let family = AfiSafiType::Ipv6Unicast;
    let one = mrt_path_ingress(&mut register, &mut state, id, 1, family).unwrap();
    let two = mrt_path_ingress(&mut register, &mut state, id, 2, family).unwrap();
    assert_ne!(one, two);
    assert_eq!(mrt_path_ingress(&mut register, &mut state, id, 1, family), Some(one));
    let mut children = state.path_children(&register, id);
    children.sort_unstable();
    assert_eq!(children, vec![one, two]);
    assert_eq!(state.path_child(id, 2), Some(two));
    assert_eq!(register.get(id).unwrap().addpath_families, Some(vec![0, 2, 1, 3]));
}

#[test]
fn packed_files_are_unpacked_by_their_extension() {
    let data = peer_index(&[([10, 0, 0, 1], 65001)]);
    let mut gz = GzEncoder::new(Vec::new(), flate2::Compression::default());
    gz.write_all(&data).unwrap();
    let gz = gz.finish().unwrap();
    let mut bz = BzEncoder::new(Vec::new(), bzip2::Compression::default());
    bz.write_all(&data).unwrap();
    let bz = bz.finish().unwrap();
    assert_eq!(unpack(gz.clone(), Some("gz")).unwrap(), data);
    assert_eq!(unpack(bz.clone(), Some("bz2")).unwrap(), data);
    assert_eq!(unpack(gz.clone(), Some("mrt")).unwrap(), gz);
    assert_eq!(unpack(data.clone(), None).unwrap(), data);
    assert_eq!(unpack(data.clone(), Some("gz")).unwrap_err().message(), "error: gz decoding failed");
    assert_eq!(unpack(data, Some("bz2")).unwrap_err().message(), "error: bz2 decoding failed");
    let mut state = MrtImportState::new();
    state.preflight_file(gz, Some("gz")).unwrap();
    state.preflight_file(bz, Some("bz2")).unwrap();
    assert!(state.preflight_file(vec![1], Some("gz")).is_err());
}

#[test]
fn one_path_or_many_are_walked_in_order() {
    let walk = |paths: &OneOrManyPaths| {
        let mut seen = Vec::new();
        let mut it = paths.iter();
        while let Some(p) = it.next() {
            seen.push(p.clone());
        }
        seen
    };
    assert_eq!(walk(&OneOrManyPaths::One("a".to_string())), vec!["a"]);
    let many = OneOrManyPaths::Many(vec!["a".to_string(), "b".to_string()]);
    assert_eq!(walk(&many), vec!["a", "b"]);
    assert!(walk(&OneOrManyPaths::Many(Vec::new())).is_empty());
}

#[test]
fn a_shortened_next_hop_attribute_is_written_out() {
    // Table dumps hold only the next hop of an MP_REACH_NLRI attribute.
    let prefix = v4([198, 51, 100, 0], 24);
    let short = [0x80, 14, 5, 4, 192, 0, 2, 1];
    let full = normalize_mrt_mp_reach(&short, 1, 1, &prefix);
    assert_eq!(
        full,
        vec![0x80, 14, 13, 0, 1, 1, 4, 192, 0, 2, 1, 0, 24, 198, 51, 100]
    );
    // Other attributes stay as they are.
    assert_eq!(normalize_mrt_mp_reach(ATTRS, 1, 1, &prefix), ATTRS);
}

#[test]
fn the_parts_of_a_file_are_found() {
    let index = peer_index(&[([10, 0, 0, 1], 65001)]);
    let mut raw = record(16, 4, &session([10, 0, 0, 1], 65001));
    raw.extend_from_slice(&index);
    let rib = supported_rib_records(&raw).unwrap();
    assert_eq!(rib, index);
    let peers = read_peer_index(&rib).unwrap();
    assert_eq!(peers.len(), 1);
    assert_eq!(peers[0].asn, 65001);
    assert!(read_peer_index(&raw[..raw.len() - index.len()]).is_none());
    let (p, end) = read_prefix(&[24, 198, 51, 100, 7], true).unwrap();
    assert_eq!((p, end), (v4([198, 51, 100, 0], 24), 4));
    assert!(read_prefix(&[23, 198, 51, 101], true).is_none());
    assert!(read_prefix(&[33, 1, 2, 3, 4, 5], true).is_none());
}

#[test]
fn an_update_is_taken_apart() {
    let mut attrs = ATTRS.to_vec();
    // MP_REACH_NLRI with 2001:db8::/32 and MP_UNREACH_NLRI with an IPv4 rule.
    attrs.extend_from_slice(&[0x80, 14, 26, 0, 2, 1, 16]);
    attrs.extend_from_slice(&[0x20, 1, 0x0d, 0xb8, 0, 0, 0, 0, 0, 0, 0, 0, 0, 0, 0, 1]);
    attrs.extend_from_slice(&[0, 32, 0x20, 1, 0x0d, 0xb8]);
    attrs.extend_from_slice(&[0x80, 15, 12, 0, 1, 133, 8, 0x01, 0x18, 10, 0, 1, 0x03, 0x81, 0x11]);
    let pdu = update(&[8, 10], &attrs, &[24, 198, 51, 100]);
    let told = explode_update(&pdu, false).unwrap().unwrap();
    let families: Vec<AfiSafiType> = told.announced.iter().map(|r| r.route.afisafi()).collect();
    assert_eq!(families.len(), 2);
    assert!(families.contains(&AfiSafiType::Ipv4Unicast));
    assert!(families.contains(&AfiSafiType::Ipv6Unicast));
    assert!(told.announced.iter().all(|r| r.route.rotonda_pamap().raw[2..] == attrs[..]));
    let families: Vec<AfiSafiType> = told.withdrawn.iter().map(|r| r.route.afisafi()).collect();
    assert_eq!(families.len(), 2);
    assert!(families.contains(&AfiSafiType::Ipv4Unicast));
    assert!(families.contains(&AfiSafiType::Ipv4FlowSpec));
    assert!(told.withdrawn.iter().any(|r| matches!(
        &r.route,
        RotondaRoute::Ipv4FlowSpec(n, _) if n == &[0x01, 0x18, 10, 0, 1, 0x03, 0x81, 0x11]
    )));
    assert!(told.announced.iter().all(|r| r.path_id.is_none()));

    assert!(explode_update(&bgp(4, &[]), false).is_none());
    // What the plain fields hold is looked at before, the attributes are not.
    let malformed = update(&[], ATTRS, &[99, 1]);
    assert!(explode_update(&malformed, false).is_none());
    let malformed = update(&[], &[0x80, 15, 5, 0, 2, 1, 200, 1], &[]);
    assert!(matches!(explode_update(&malformed, false), Some(Err(()))));
}

#[test]
fn rules_are_spelled_out_if_they_can_be_read() {
    let rule = [0x01, 0x18, 10, 0, 1, 0x03, 0x81, 0x11];
    assert_eq!(spell_rule(&rule, true).as_deref(), Some("FLOWSPEC-NLRI"));
    assert!(spell_rule(&[0xff], true).is_none());
}

#[test]
fn attributes_are_read_with_their_size_of_as_numbers() {
    let wide = RotondaPaMap::from_attributes(ATTRS);
    assert_eq!(wide.origin_asn(), Some(64512));
    assert_eq!(wide.communities(), None);
    assert_eq!(wide.otc(), None);
    // One AS number of two octets.
    let narrow = RotondaPaMap { raw: vec![3, 0, 0x40, 2, 4, 2, 1, 0xfd, 0xe9] };
    assert_eq!(narrow.origin_asn(), Some(65001));
    assert_eq!(narrow.rov_status(), 3);
    assert_eq!(AfiSafiType::Ipv6Multicast.name(), "Ipv6Multicast");
}

/// An UPDATE that announces one labelled NLRI of a family.
fn labelled(afi: u8, safi: u8, nlri: &[u8]) -> Vec<u8> {
    let mut value = vec![0, afi, safi];
    // The next hop of a VPN has a route distinguisher in front.
    if safi == 128 {
        value.extend_from_slice(&[12, 0, 0, 0, 0, 0, 0, 0, 0]);
    } else {
        value.push(4);
    }
    value.extend_from_slice(&[192, 0, 2, 1, 0]);
    value.extend_from_slice(nlri);
    let mut attrs = vec![0x80, 14, value.len() as u8];
    attrs.extend_from_slice(&value);
    update(&[], &attrs, &[])
}

#[test]
fn labelled_routes_are_passed_over() {
    // 10.0.0.0/24 behind one label.
    let told = explode_update(&labelled(1, 4, &[48, 0, 0, 0x11, 10, 0, 0]), false);
    assert!(told.unwrap().unwrap().announced.is_empty());
    // The same behind a label and a route distinguisher.
    let mut vpn = vec![112, 0, 0, 0x11];
    vpn.extend_from_slice(&[0, 0, 0, 1, 0, 0, 0, 1, 10, 0, 0]);
    let told = explode_update(&labelled(1, 128, &vpn), false);
    assert!(told.unwrap().unwrap().announced.is_empty());
    // A prefix of forty bits is none of IPv4, whether it comes first or not.
    let long = [64, 0, 0, 0x11, 10, 0, 0, 0, 0];
    assert!(matches!(explode_update(&labelled(1, 4, &long), false), Some(Err(()))));
    let mut second = vec![48, 0, 0, 0x11, 10, 0, 0];
    second.extend_from_slice(&long);
    assert!(matches!(explode_update(&labelled(1, 4, &second), false), Some(Err(()))));
    let told = explode_update(&labelled(2, 4, &long), false);
    assert!(told.unwrap().unwrap().announced.is_empty());
    // Withdrawn ones are held to the same.
    let mut attrs = vec![0x80, 15, 3 + long.len() as u8, 0, 1, 4];
    attrs.extend_from_slice(&long);
    assert!(matches!(explode_update(&update(&[], &attrs, &[]), false), Some(Err(()))));
}

#[test]
fn attributes_are_the_first_of_their_kind() {
    // An AS_PATH with an empty sequence at its end.
    let mut attrs = vec![0x40, 2, 14, 2, 2, 0, 0, 0xfd, 0xe9, 0, 0, 0xfd, 0xea, 1, 0, 2, 0];
    attrs.extend_from_slice(&[0xc0, 8, 8, 0, 1, 0, 2, 0, 3, 0, 4]);
    attrs.extend_from_slice(&[0xc0, 8, 4, 9, 9, 9, 9]);
    attrs.extend_from_slice(&[0xc0, 32, 12, 0, 0, 0, 1, 0, 0, 0, 2, 0, 0, 0, 3]);
    attrs.extend_from_slice(&[0xc0, 35, 4, 0, 0, 0xfd, 0xe9]);
    let pamap = RotondaPaMap::from_attributes(&attrs);
    assert_eq!(pamap.origin_asn(), None);
    assert_eq!(pamap.communities(), Some(vec![0x0001_0002, 0x0003_0004]));
    assert_eq!(pamap.large_communities(), Some(vec![(1, 2, 3)]));
    assert_eq!(pamap.otc(), Some(65001));
    // One of the wrong length counts for nothing, nor does a later one.
    let pamap = RotondaPaMap::from_attributes(&[0xc0, 35, 3, 0, 0, 1, 0xc0, 35, 4, 0, 0, 0, 1]);
    assert_eq!(pamap.otc(), None);
    // A sequence behind a set.
    let path = [0x40, 2, 12, 1, 1, 0, 0, 0, 7, 2, 1, 0, 0, 0, 8];
    assert_eq!(RotondaPaMap::from_attributes(&path).origin_asn(), Some(8));
}

#[test]
fn peers_and_paths_keep_their_ingresses_over_files() {
    let mut register = Register::new();
    let parent = register.register();
    let mut state = MrtImportState::new();
    let peers = [([192, 0, 2, 1], 64512), ([192, 0, 2, 2], 64513)];
    let mut first = peer_index(&peers);
    first.extend(table(8, &[8, 10], &[entry(0, Some(1), ATTRS), entry(1, Some(1), ATTRS)]));
    // The peers are in another order here, and there is one path more.
    let mut second = peer_index(&[peers[1], peers[0]]);
    second.extend(table(8, &[8, 11], &[entry(1, Some(1), ATTRS), entry(0, Some(2), ATTRS)]));
    second.extend(table(2, &[8, 12], &[entry(1, None, ATTRS)]));
    let mut from = Vec::new();
    for (file, name) in [(first, "one"), (second, "two")] {
        let (updates, r) = process_file(&mut register, parent, &file, &name.to_string(), &mut state);
        assert!(r.is_ok());
        for update in updates {
            match update {
                Update::Single(p) => {
                    assert_eq!(p.route_status, RouteStatus::Active);
                    from.push(p.ingress_id);
                }
                other => panic!("unexpected update {other:?}"),
            }
        }
    }
    assert_eq!(from.len(), 5);
    assert_eq!(from[0], from[2]);
    assert!(from[0] != from[1] && from[1] != from[3] && from[0] != from[3]);
    let (a, b) = (from[4], register.get(from[1]).unwrap().parent_ingress.unwrap());
    assert_ne!(a, b);
    for (child, peer, path_id) in [(from[0], a, 1), (from[1], b, 1), (from[3], b, 2)] {
        let info = register.get(child).unwrap();
        assert_eq!(info.ingress_type, Some(IngressType::BgpPath));
        assert_eq!((info.parent_ingress, info.path_id), (Some(peer), Some(path_id)));
    }
    for peer in [a, b] {
        let info = register.get(peer).unwrap();
        assert_eq!(info.ingress_type, Some(IngressType::Mrt));
        assert_eq!(info.addpath_families, Some(vec![0, 1, 1, 3]));
    }
}

#[test]
fn a_file_is_told_by_its_digest() {
    assert_eq!(
        digest_text(b"abc"),
        "ba7816bf8f01cfea414140de5dae2223b00361a396177a9cb410ff61f20015ad"
    );
    assert_eq!(
        digest_text(b""),
        "e3b0c44298fc1c149afbf4c8996fb92427ae41e4649b934ca495991b7852b855"
    );
}

/// An IP prefix route for 10.0.0.0/24 of a tenant, with a label.
fn prefix_route(tenant: u8, label: u8) -> Vec<u8> {
    let mut b = vec![5, 34];
    b.extend_from_slice(&[0, 0, 0, 1, 0, 0, 0, tenant]);
    b.extend_from_slice(&[0; 10]);
    b.extend_from_slice(&[0, 0, 0, 9]);
    b.push(24);
    b.extend_from_slice(&[10, 0, 0, 0, 192, 0, 2, 7, 0, 0, label]);
    b
}

/// A MAC/IP route for 10.0.0.1 of a tenant, with two labels.
fn mac_ip_route(tenant: u8) -> Vec<u8> {
    let mut b = vec![2, 40];
    b.extend_from_slice(&[0, 0, 0, 1, 0, 0, 0, tenant]);
    b.extend_from_slice(&[0; 14]);
    b.extend_from_slice(&[48, 2, 0, 0, 0, 0, 1, 32, 10, 0, 0, 1]);
    b.extend_from_slice(&[0, 0, 10, 0, 0, 20]);
    b
}

#[test]
fn evpn_routes_of_an_update_are_stored_by_what_they_hold() {
    let routes = [prefix_route(1, 7), prefix_route(2, 7), mac_ip_route(1)];
    let mut value = vec![0, 25, 70, 4, 192, 0, 2, 1, 0];
    for route in &routes {
        value.extend_from_slice(route);
    }
    let mut attrs = vec![0x40, 1, 1, 0, 0x40, 2, 0, 0x90, 14];
    attrs.extend_from_slice(&(value.len() as u16).to_be_bytes());
    attrs.extend_from_slice(&value);
    let mut gone = vec![0, 25, 70];
    gone.extend_from_slice(&prefix_route(2, 0));
    let mut unreach = vec![0x90, 15];
    unreach.extend_from_slice(&(gone.len() as u16).to_be_bytes());
    unreach.extend_from_slice(&gone);
    let mut raw = message(4, [10, 0, 0, 1], 65001, &update(&[], &attrs, &[]));
    raw.extend(message(4, [10, 0, 0, 1], 65001, &update(&[], &unreach, &[])));

    let (register, updates, result) = import(&raw);
    result.unwrap();
    let payloads: Vec<_> = updates
        .into_iter()
        .flat_map(|u| match u {
            Update::Single(p) => vec![p],
            Update::Bulk(ps) => ps,
            other => panic!("unexpected update {other:?}"),
        })
        .collect();
    assert_eq!(payloads.len(), 4);
    let nlri = |i: usize| match &payloads[i].rx_value {
        RotondaRoute::L2VpnEvpn(n, _) => n,
        other => panic!("unexpected route {other:?}"),
    };
    let mut key = vec![5, 0, 0, 0, 1, 0, 0, 0, 1, 0, 0, 0, 9];
    key.extend_from_slice(b"10.0.0.0/24");
    assert_eq!(nlri(0).key, key);
    assert_eq!((nlri(0).route_type, nlri(0).rd.as_str(), nlri(0).ethernet_tag), (5, "1:1", Some(9)));
    assert_eq!(nlri(0).labels, vec![7]);
    assert_eq!(nlri(0).prefix, Some(v4([10, 0, 0, 0], 24)));
    assert_eq!(nlri(0).raw, routes[0]);
    assert_eq!(nlri(1).rd, "1:2");
    assert_eq!((nlri(2).route_type, nlri(2).mac.as_deref()), (2, Some("02:00:00:00:00:01")));
    assert_eq!(nlri(2).labels, vec![10, 20]);
    // A withdrawal finds the route by its key, whatever its labels.
    assert_eq!(nlri(3).key, nlri(1).key);
    assert_eq!(payloads[3].route_status, RouteStatus::Withdrawn);

    let mut rib = Rib::new(register).unwrap();
    for p in &payloads {
        rib.insert(&p.rx_value, p.route_status, 0, p.ingress_id, true, false).unwrap();
    }
    let rows = rib.evpn_rows(&EvpnFilter { vni: Some(7), ..EvpnFilter::default() });
    assert_eq!(rows.len(), 1);
    assert_eq!(rows[0].route.nlri.key, key);
    assert_eq!(rows[0].overlay.next_hop, Some(IpAddress::V4([192, 0, 2, 1])));
    let tenant = EvpnFilter { rd: Some("1:1".to_string()), ..EvpnFilter::default() };
    let rows = rib.evpn_rows(&tenant);
    let types: Vec<u8> = rows.iter().map(|r| r.route.nlri.route_type).collect();
    assert_eq!(types, vec![2, 5]);
    let all = EvpnFilter { include_withdrawn: true, ..EvpnFilter::default() };
    assert_eq!(rib.evpn_rows(&all).len(), 3);
}
