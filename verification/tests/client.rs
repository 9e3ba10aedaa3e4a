use bytes::Bytes;
use netom::bmp_builder::{build_peer_up, fan_in_distinguisher_tag, PeerInfo};
use netom::client::{
    send_failed, send_update_to_client, send_update_to_client_at, ClientPhase, ClientState,
    EmitOptions, Payload, Update, INGRESS_CACHE_CAPACITY,
};
use netom::client_dump::{enumerate_peers, DumpMessage, TableDump};
use netom::emit::{build_peer_info_for_emit, resolve_admin_label, FanInPeerDistinguisher};
use netom::evpn::EvpnNlri;
use netom::explode::{explode_update, mk_flowspec_route};
use netom::full_dump::perform_initial_dump;
use netom::ingress::IngressInfo;
use netom::mrt_file::process_file;
use netom::mrt_import::MrtImportState;
use netom::pamap::RotondaPaMap;
use netom::register::Register;
use netom::rib::Rib;
use netom::route::RotondaRoute;
use netom::table::Table;
use netom::types::{
    AfiSafiType, IngressId, IngressState, IngressType, IpAddress, Prefix, RouteStatus,
};
use routecore::bgp::message::{SessionConfig, UpdateMessage};
use routecore::bgp::nlri::afisafi::{IsPrefix, Nlri};
use routecore::bgp::types::AfiSafiType as OutsideFamily;

// {dst 10.0.1.0/24, proto =17} raw components (no length header)
const FS_NLRI: &[u8] = &[0x01, 0x18, 10, 0, 1, 0x03, 0x81, 0x11];

const OFF: EmitOptions =
    EmitOptions { forward_router_info: false, fan_in_peer_distinguisher: FanInPeerDistinguisher::Off };

/// What one emitted BMP message is, for sequence assertions.
#[derive(Debug, PartialEq)]
enum MsgKind {
    Initiation,
    PeerUp,
    /// Route Monitoring carrying routes: (afi, safi) of its MP_REACH, or
    /// (1, 1) for a plain IPv4 NLRI-field UPDATE.
    Route(u16, u8),
    /// End-of-RIB for (afi, safi).
    Eor(u16, u8),
}

/// The attributes of an UPDATE, as type code and value.
fn attributes(bgp: &[u8]) -> Vec<(u8, Vec<u8>)> {
    let withdrawn_len = u16::from_be_bytes([bgp[19], bgp[20]]) as usize;
    let at = 21 + withdrawn_len;
    let pa_len = u16::from_be_bytes([bgp[at], bgp[at + 1]]) as usize;
    let pas = &bgp[at + 2..at + 2 + pa_len];
    let mut out = Vec::new();
    let mut pos = 0;
    while pos + 2 < pas.len() {
        let flags = pas[pos];
        let type_code = pas[pos + 1];
        let (attr_len, header_len) = if flags & 0x10 != 0 {
            (u16::from_be_bytes([pas[pos + 2], pas[pos + 3]]) as usize, 4)
        } else {
            (pas[pos + 2] as usize, 3)
        };
        out.push((type_code, pas[pos + header_len..pos + header_len + attr_len].to_vec()));
        pos += header_len + attr_len;
    }
    out
}

fn classify(msg: &[u8]) -> MsgKind {
    match msg[5] {
        4 => MsgKind::Initiation,
        3 => MsgKind::PeerUp,
        0 => {
            // Route Monitoring: BGP UPDATE after common(6) + pph(42).
            let bgp = &msg[48..];
            let withdrawn_len = u16::from_be_bytes([bgp[19], bgp[20]]) as usize;
            let pa_len = u16::from_be_bytes([bgp[21], bgp[22]]) as usize;
            let has_nlri = bgp.len() > 23 + withdrawn_len + pa_len;
            if withdrawn_len == 0 && pa_len == 0 {
                return if has_nlri { MsgKind::Route(1, 1) } else { MsgKind::Eor(1, 1) };
            }
            // Walk attributes for MP_REACH (14) / MP_UNREACH (15).
            for (type_code, value) in attributes(bgp) {
                if type_code == 14 {
                    return MsgKind::Route(u16::from_be_bytes([value[0], value[1]]), value[2]);
                }
                if type_code == 15 {
                    let afi = u16::from_be_bytes([value[0], value[1]]);
                    let safi = value[2];
                    return if value.len() == 3 {
                        MsgKind::Eor(afi, safi)
                    } else {
                        MsgKind::Route(afi, safi)
                    };
                }
            }
            // No MP attribute: plain IPv4 unicast NLRI-field UPDATE.
            MsgKind::Route(1, 1)
        }
        other => panic!("unexpected BMP message type {other}"),
    }
}

fn v4(octets: [u8; 4], len: u8) -> Prefix {
    Prefix::new(IpAddress::V4(octets), len).unwrap()
}

fn session(addr: [u8; 4], asn: u32) -> IngressInfo {
    let mut info = IngressInfo::new();
    info.ingress_type = Some(IngressType::BgpViaBmp);
    info.state = Some(IngressState::Connected);
    info.remote_addr = Some(IpAddress::V4(addr));
    info.remote_asn = Some(asn);
    info
}

fn path_of(parent: IngressId, path_id: u32) -> IngressInfo {
    let mut info = IngressInfo::new();
    info.ingress_type = Some(IngressType::BgpPath);
    info.parent_ingress = Some(parent);
    info.path_id = Some(path_id);
    info
}

fn unicast(prefix: Prefix) -> RotondaRoute {
    RotondaRoute::Ipv4Unicast(prefix, RotondaPaMap::empty_path_attributes())
}

fn payload(route: RotondaRoute, ingress_id: IngressId, route_status: RouteStatus) -> Update {
    Update::Single(Payload { rx_value: route, ingress_id, route_status })
}

/// The whole dump, as messages.
fn dump(rib: &Rib) -> Vec<Vec<u8>> {
    let mut client = ClientState::new();
    let (done, messages, waited) =
        perform_initial_dump(&mut client, rib, "test-sys", "test-descr", OFF);
    assert!(done.done(), "dump must complete");
    assert!(waited.is_empty());
    assert_eq!(client.phase, ClientPhase::Live);
    messages.iter().map(|m| m.bytes().clone()).collect()
}

#[test]
fn evicted_emit_target_reresolves_or_requests_fresh_dump() {
    let mut register = Register::new();
    let mut client = ClientState::new();
    register.update_info(1, path_of(99, 77));
    assert_eq!(client.resolve_emit_target(&register, 1), Some((99, Some(77))));
    for id in 2..=INGRESS_CACHE_CAPACITY as u32 + 1 {
        client.cache_emit_target(id, (99, Some(id)));
    }
    assert_eq!(client.cached_emit_target(1), None);
    assert_eq!(client.resolve_emit_target(&register, 1), Some((99, Some(77))));
    register.infos.remove(&1);
    client.remove_known_peer(99);
    assert_eq!(client.resolve_emit_target(&register, 1), None);
    assert!(client.disconnect_pending);
    // Never emit a fabricated peer header.
    let update = payload(unicast(v4([10, 0, 0, 0], 8)), 1, RouteStatus::Active);
    let emission = send_update_to_client(&mut client, &update, 0, &register, OFF);
    assert!(emission.messages.is_empty());
}

#[test]
fn evpn_dump_replays_active_addpath_and_eor() {
    let mut rib = Rib::new(Register::new()).unwrap();
    let session_id = rib.ingress_register.register();
    let mut info = session([192, 0, 2, 1], 65000);
    info.remote_capabilities = Some(vec![1, 4, 0, 25, 0, 70]);
    info.addpath_families = Some(vec![0, 25, 70, 3]);
    rib.ingress_register.update_info(session_id, info);
    let mut children = Vec::new();
    for pid in [11u32, 22] {
        let child = rib.ingress_register.register();
        let mut info = path_of(session_id, pid);
        info.state = Some(IngressState::Connected);
        rib.ingress_register.update_info(child, info);
        children.push(child);
        let mut raw = vec![5, 34];
        raw.extend_from_slice(&[0, 0, 0, 1, 0, 0, 0, 7]);
        raw.extend_from_slice(&[0; 14]);
        raw.extend_from_slice(&[24, 10, 0, 0, 0, 0, 0, 0, 0, 0, 0, 42]);
        let attrs = RotondaPaMap::from_attributes(&[
            0x40, 1, 1, 0, 0x80, 14, 9, 0, 25, 70, 4, 192, 0, 2, 1, 0,
        ]);
        let route = RotondaRoute::L2VpnEvpn(EvpnNlri::parse(&raw).unwrap(), attrs);
        rib.insert(&route, RouteStatus::Active, 0, child, true, false).unwrap();
    }
    assert_eq!(rib.reap_idle_path_children(Table::new()).len(), 0);
    rib.withdraw_for_ingress(children[1], Some(AfiSafiType::L2VpnEvpn), true);

    let mut kinds = Vec::new();
    for msg in dump(&rib) {
        let kind = classify(&msg);
        if kind == MsgKind::Route(25, 70) {
            let routes = explode_update(&msg[48..], true).unwrap().unwrap().announced;
            assert_eq!(routes.len(), 1);
            assert_eq!(routes[0].path_id, Some(11));
        }
        kinds.push(kind);
    }
    assert_eq!(kinds.iter().filter(|k| **k == MsgKind::PeerUp).count(), 1);
    assert_eq!(kinds.iter().filter(|k| **k == MsgKind::Route(25, 70)).count(), 1);
    assert_eq!(kinds.iter().filter(|k| **k == MsgKind::Eor(25, 70)).count(), 1);
    assert!(
        kinds.iter().position(|k| *k == MsgKind::Route(25, 70)).unwrap()
            < kinds.iter().position(|k| *k == MsgKind::Eor(25, 70)).unwrap()
    );
}

/// Full dump sequence with a unicast+flowspec peer and a flowspec-only peer:
/// Initiation -> one Peer Up per peer -> unicast routes -> flowspec routes
/// (never mixed per UPDATE) -> 4 EoRs per peer, and the flowspec NLRI bytes
/// round-trip verbatim.
#[test]
fn dump_sequence_covers_flowspec() {
    let mut rib = Rib::new(Register::new()).unwrap();

    // Peer 1: unicast + flowspec. Peer 2: flowspec-only.
    let peer1 = rib.ingress_register.register();
    let peer2 = rib.ingress_register.register();
    for (peer, addr) in [(peer1, [10, 9, 9, 1]), (peer2, [10, 9, 9, 2])] {
        let mut info = session(addr, 65000);
        // MP-BGP capability: IPv4 FlowSpec.
        info.remote_capabilities = Some(vec![1, 4, 0, 1, 0, 133]);
        rib.ingress_register.update_info(peer, info);
    }

    let route = unicast(v4([192, 0, 2, 0], 24));
    rib.insert(&route, RouteStatus::Active, 1, peer1, false, false).unwrap();
    let fs_route = mk_flowspec_route(AfiSafiType::Ipv4FlowSpec, FS_NLRI.to_vec(), &[]).unwrap();
    rib.insert(&fs_route, RouteStatus::Active, 2, peer1, false, false).unwrap();
    rib.insert(&fs_route, RouteStatus::Active, 3, peer2, false, false).unwrap();

    let mut kinds = Vec::new();
    let mut flowspec_nlri_seen: Vec<Vec<u8>> = Vec::new();
    for msg in dump(&rib) {
        let kind = classify(&msg);
        if kind == MsgKind::Route(1, 133) {
            // Extract the MP_REACH NLRI: value[5..] after afi(2), safi(1),
            // nh_len(1)=0, reserved(1).
            for (type_code, value) in attributes(&msg[48..]) {
                if type_code == 14 {
                    let mut nlri = &value[5..];
                    while !nlri.is_empty() {
                        let len = nlri[0] as usize;
                        flowspec_nlri_seen.push(nlri[1..1 + len].to_vec());
                        nlri = &nlri[1 + len..];
                    }
                }
            }
        }
        kinds.push(kind);
    }

    // Initiation first.
    assert_eq!(kinds[0], MsgKind::Initiation);
    // Exactly one Peer Up per peer: the flowspec-only peer too.
    let peer_ups = kinds.iter().filter(|k| **k == MsgKind::PeerUp).count();
    assert_eq!(peer_ups, 2);
    // Both flowspec rules re-emitted, NLRI bytes verbatim.
    assert_eq!(flowspec_nlri_seen.len(), 2);
    assert!(flowspec_nlri_seen.iter().all(|n| n == FS_NLRI));
    // The unicast route went out, and never in a SAFI-133 UPDATE.
    assert!(kinds.contains(&MsgKind::Route(1, 1)));
    // All routes precede all EoRs; unicast routes precede flowspec.
    let last_route = kinds.iter().rposition(|k| matches!(k, MsgKind::Route(..))).unwrap();
    let first_eor = kinds.iter().position(|k| matches!(k, MsgKind::Eor(..))).unwrap();
    assert!(last_route < first_eor);
    let last_unicast_route = kinds.iter().rposition(|k| *k == MsgKind::Route(1, 1)).unwrap();
    let first_fs_route = kinds.iter().position(|k| *k == MsgKind::Route(1, 133)).unwrap();
    assert!(last_unicast_route < first_fs_route);
    // Each peer advertised v4 FlowSpec; neither advertised v6.
    let eors: Vec<(u16, u8)> = kinds
        .iter()
        .filter_map(|k| match k {
            MsgKind::Eor(afi, safi) => Some((*afi, *safi)),
            _ => None,
        })
        .collect();
    assert_eq!(eors.len(), 4);
    assert_eq!(eors.iter().filter(|(_, safi)| *safi == 133).count(), 2);
}

/// Full dump with an ADD-PATH session (two path-children holding one prefix
/// each) plus a plain peer: exactly one Peer Up per *session* (none for
/// children), the session's Peer Up advertises cap 69 in both OPENs, both
/// paths are replayed with their path ids under the parent's per-peer header,
/// the plain peer stays path-id-free, and EoRs follow all routes.
#[test]
fn dump_replays_addpath_children_under_parent_session() {
    let mut rib = Rib::new(Register::new()).unwrap();

    // ADD-PATH session with two path-children, plus a plain peer.
    let parent = rib.ingress_register.register();
    let mut info = session([10, 9, 9, 1], 65001);
    info.addpath_families = Some(vec![0, 1, 1, 3]);
    rib.ingress_register.update_info(parent, info);
    let mut children = Vec::new();
    for path_id in [1u32, 2] {
        let child = rib.ingress_register.register();
        let mut info = path_of(parent, path_id);
        info.state = Some(IngressState::Connected);
        info.remote_addr = Some(IpAddress::V4([10, 9, 9, 1]));
        info.remote_asn = Some(65001);
        rib.ingress_register.update_info(child, info);
        children.push(child);
    }
    let plain_peer = rib.ingress_register.register();
    rib.ingress_register.update_info(plain_peer, session([10, 9, 9, 2], 65002));

    let addpath_route = unicast(v4([10, 1, 0, 0], 24));
    for child in &children {
        rib.insert(&addpath_route, RouteStatus::Active, 1, *child, false, false).unwrap();
    }
    let plain_route = unicast(v4([10, 2, 0, 0], 24));
    rib.insert(&plain_route, RouteStatus::Active, 1, plain_peer, false, false).unwrap();

    let mut kinds = Vec::new();
    let mut peer_up_cap69_counts = Vec::new();
    let mut addpath_pids: Vec<u32> = Vec::new();
    let mut plain_prefix_seen = false;
    let cap69 = [69u8, 4, 0, 1, 1, 3];
    let mut sc_addpath = SessionConfig::modern();
    sc_addpath.add_addpath_rxtx(OutsideFamily::Ipv4Unicast);
    for msg in dump(&rib) {
        let kind = classify(&msg);
        if kind == MsgKind::PeerUp {
            peer_up_cap69_counts.push(msg.windows(cap69.len()).filter(|w| *w == cap69).count());
        }
        if kind == MsgKind::Route(1, 1) {
            let bgp = Bytes::copy_from_slice(&msg[48..]);
            // Try ADD-PATH parse first; a plain single-prefix UPDATE parsed
            // with ADD-PATH enabled cannot yield valid Ipv4UnicastAddpath
            // NLRI for our test prefix.
            let parsed_addpath = UpdateMessage::from_octets(bgp.clone(), &sc_addpath)
                .ok()
                .and_then(|upd| upd.announcements().ok()?.collect::<Result<Vec<_>, _>>().ok())
                .filter(|anns| {
                    anns.iter().all(|n| {
                        matches!(
                            n,
                            Nlri::Ipv4UnicastAddpath(a)
                                if a.prefix().to_string() == "10.1.0.0/24"
                        )
                    }) && !anns.is_empty()
                });
            if let Some(anns) = parsed_addpath {
                for n in anns {
                    if let Nlri::Ipv4UnicastAddpath(a) = n {
                        addpath_pids.extend(IsPrefix::path_id(&a).map(|p| p.0));
                    }
                }
            } else {
                let upd = UpdateMessage::from_octets(bgp, &SessionConfig::modern())
                    .expect("plain UPDATE must parse");
                for n in upd.announcements().unwrap() {
                    if let Nlri::Ipv4Unicast(u) = n.unwrap() {
                        assert_eq!(u.prefix().to_string(), "10.2.0.0/24");
                        plain_prefix_seen = true;
                    }
                }
            }
        }
        kinds.push(kind);
    }

    assert_eq!(kinds[0], MsgKind::Initiation);
    // One Peer Up per session: children never become peers.
    assert_eq!(peer_up_cap69_counts.len(), 2);
    // Exactly one of the two Peer Ups advertises cap 69, in both OPENs.
    let mut counts = peer_up_cap69_counts.clone();
    counts.sort_unstable();
    assert_eq!(
        counts,
        vec![0, 2],
        "the ADD-PATH session must advertise cap 69 in both OPENs, the plain peer in neither"
    );
    // Both paths replayed with their ids; the plain route without.
    addpath_pids.sort_unstable();
    assert_eq!(addpath_pids, vec![1, 2]);
    assert!(plain_prefix_seen);
    // All routes precede all EoRs.
    let last_route = kinds.iter().rposition(|k| matches!(k, MsgKind::Route(..))).unwrap();
    let first_eor = kinds.iter().position(|k| matches!(k, MsgKind::Eor(..))).unwrap();
    assert!(last_route < first_eor);
}

fn bgp_update(attrs: &[u8], nlri: &[u8]) -> Vec<u8> {
    let len = 19 + 2 + 2 + attrs.len() + nlri.len();
    let mut bgp = vec![0xff; 16];
    bgp.extend_from_slice(&(len as u16).to_be_bytes());
    bgp.push(2);
    bgp.extend_from_slice(&0u16.to_be_bytes());
    bgp.extend_from_slice(&(attrs.len() as u16).to_be_bytes());
    bgp.extend_from_slice(attrs);
    bgp.extend_from_slice(nlri);
    bgp
}

fn mrt_record(bgp: &[u8], addpath: bool) -> Vec<u8> {
    let peer = [0x20, 0x01, 0x0d, 0xb8, 0, 0, 0, 0, 0, 0, 0, 0, 0, 0, 0, 1];
    let local = [0x20, 0x01, 0x0d, 0xb8, 0, 0, 0, 0, 0, 0, 0, 0, 0, 0, 0, 2];
    let mut body = Vec::new();
    body.extend_from_slice(&64500u32.to_be_bytes());
    body.extend_from_slice(&64496u32.to_be_bytes());
    body.extend_from_slice(&0u16.to_be_bytes());
    body.extend_from_slice(&2u16.to_be_bytes());
    body.extend_from_slice(&peer);
    body.extend_from_slice(&local);
    body.extend_from_slice(bgp);

    let mut record = Vec::new();
    record.extend_from_slice(&1_700_000_000u32.to_be_bytes());
    record.extend_from_slice(&16u16.to_be_bytes());
    record.extend_from_slice(&(if addpath { 9u16 } else { 4u16 }).to_be_bytes());
    record.extend_from_slice(&(body.len() as u32).to_be_bytes());
    record.extend_from_slice(&body);
    record
}

fn store_all(rib: &mut Rib, updates: Vec<Update>) {
    for update in updates {
        match update {
            Update::Single(p) => {
                rib.insert(&p.rx_value, p.route_status, 0, p.ingress_id, false, false).unwrap();
            }
            Update::Bulk(payloads) => {
                for p in payloads {
                    rib.insert(&p.rx_value, p.route_status, 0, p.ingress_id, false, false).unwrap();
                }
            }
            other => panic!("unexpected update {other:?}"),
        }
    }
}

/// Preflight must discover ADD-PATH in a later file before the first route
/// from an earlier file can cause a Peer Up. The resulting Peer Up and
/// UPDATEs must agree on IPv6 ADD-PATH.
#[test]
fn mrt_preflight_keeps_peer_up_and_update_addpath_in_sync() {
    let common_attrs = [
        0x40, 1, 1, 0, // ORIGIN IGP
        0x40, 2, 6, 2, 1, 0, 0, 0xfc, 0x00, // AS_PATH 64512
    ];
    let mut v4_attrs = common_attrs.to_vec();
    v4_attrs.extend_from_slice(&[0x40, 3, 4, 192, 0, 2, 1]);
    let first = mrt_record(&bgp_update(&v4_attrs, &[24, 198, 51, 100]), false);

    let mut mp_value = vec![0, 2, 1, 16];
    mp_value.extend_from_slice(&[0x20, 0x01, 0x0d, 0xb8, 0, 0, 0, 0, 0, 0, 0, 0, 0, 0, 0, 1]);
    mp_value.push(0);
    mp_value.extend_from_slice(&4242u32.to_be_bytes());
    mp_value.extend_from_slice(&[48, 0x20, 0x01, 0x0d, 0xb8, 1, 0]);
    let mut v6_attrs = common_attrs.to_vec();
    v6_attrs.extend_from_slice(&[0x80, 14, mp_value.len() as u8]);
    v6_attrs.extend_from_slice(&mp_value);
    let second = mrt_record(&bgp_update(&v6_attrs, &[]), true);

    let mut rib = Rib::new(Register::new()).unwrap();
    let parent_id = rib.ingress_register.register();
    let mut import_state = MrtImportState::new();
    for bytes in [&first, &second] {
        import_state.preflight_file(bytes.clone(), Some("mrt")).unwrap();
    }

    let (updates, result) = process_file(
        &mut rib.ingress_register,
        parent_id,
        &first,
        &"first.mrt".to_string(),
        &mut import_state,
    );
    result.unwrap();
    store_all(&mut rib, updates);

    let infos = &rib.ingress_register.infos;
    let peer_info = (0..infos.len())
        .map(|i| infos.value_at(i))
        .find(|info| info.ingress_type == Some(IngressType::Mrt))
        .expect("first file must register the MRT peer");
    assert_eq!(peer_info.addpath_families, Some(vec![0, 2, 1, 3]));
    let early_peer_up = build_peer_up(&PeerInfo::from_ingress_info(peer_info), false);
    let v6_cap69 = [69u8, 4, 0, 2, 1, 3];
    assert_eq!(
        early_peer_up.windows(v6_cap69.len()).filter(|window| *window == v6_cap69).count(),
        2,
        "the first possible Peer Up must already advertise later-file IPv6 ADD-PATH"
    );

    let (updates, result) = process_file(
        &mut rib.ingress_register,
        parent_id,
        &second,
        &"second.mrt".to_string(),
        &mut import_state,
    );
    result.unwrap();
    store_all(&mut rib, updates);

    let mut config = SessionConfig::modern();
    config.add_addpath_rxtx(OutsideFamily::Ipv6Unicast);
    let mut peer_ups = 0;
    let mut saw_plain_v4 = false;
    let mut v6_path_ids = Vec::new();
    for message in dump(&rib) {
        match classify(&message) {
            MsgKind::PeerUp => {
                peer_ups += 1;
                assert_eq!(
                    message.windows(v6_cap69.len()).filter(|window| *window == v6_cap69).count(),
                    2
                );
            }
            MsgKind::Route(1, 1) => {
                let update =
                    UpdateMessage::from_octets(Bytes::copy_from_slice(&message[48..]), &config)
                        .expect("plain IPv4 UPDATE must parse with only IPv6 ADD-PATH enabled");
                saw_plain_v4 = update
                    .announcements()
                    .unwrap()
                    .any(|nlri| matches!(nlri, Ok(Nlri::Ipv4Unicast(_))));
            }
            MsgKind::Route(2, 1) => {
                let update =
                    UpdateMessage::from_octets(Bytes::copy_from_slice(&message[48..]), &config)
                        .expect("IPv6 ADD-PATH UPDATE must match Peer Up negotiation");
                for nlri in update.announcements().unwrap() {
                    if let Nlri::Ipv6UnicastAddpath(nlri) = nlri.unwrap() {
                        v6_path_ids.extend(IsPrefix::path_id(&nlri).map(|id| id.0));
                    }
                }
            }
            _ => {}
        }
    }
    assert_eq!(peer_ups, 1);
    assert!(saw_plain_v4);
    assert_eq!(v6_path_ids, vec![4242]);
}

/// The same peer (same address and AS number) attributed to two different
/// upstream BMP routers: the fan-in distinguisher yields two distinct
/// non-zero values when enabled, but stays zero when disabled.
#[test]
fn build_peer_info_stamps_pd_from_parent_ingress() {
    let mut register = Register::new();
    let parent_a = register.register();
    let parent_b = register.register();
    let mut router = IngressInfo::new();
    router.name = Some("router-edge-1".to_string());
    register.update_info(parent_a, router);
    let mut router = IngressInfo::new();
    router.name = Some("router-edge-2".to_string());
    register.update_info(parent_b, router);

    let peer_for = |parent_id| {
        let mut info = IngressInfo::new();
        info.parent_ingress = Some(parent_id);
        info.remote_addr = Some(IpAddress::V6([
            0x20, 0x01, 0x07, 0xf8, 0, 0x6c, 0, 0, 0, 0, 0, 0, 0, 0, 0x02, 0x30,
        ]));
        info.remote_asn = Some(6939);
        info
    };

    let info_a = peer_for(parent_a);
    let info_b = peer_for(parent_b);

    // With fan-in enabled the two upstreams must emit different non-zero
    // distinguishers despite sharing address and AS number.
    let on = FanInPeerDistinguisher::IngressHash;
    let pi_a = build_peer_info_for_emit(&info_a, &register, false, on);
    let pi_b = build_peer_info_for_emit(&info_b, &register, false, on);
    assert_ne!(pi_a.peer_distinguisher, [0u8; 8]);
    assert_ne!(pi_b.peer_distinguisher, [0u8; 8]);
    assert_ne!(pi_a.peer_distinguisher, pi_b.peer_distinguisher);

    // With fan-in disabled both fall back to zero.
    let off = FanInPeerDistinguisher::Off;
    let off_a = build_peer_info_for_emit(&info_a, &register, false, off);
    let off_b = build_peer_info_for_emit(&info_b, &register, false, off);
    assert_eq!(off_a.peer_distinguisher, [0u8; 8]);
    assert_eq!(off_b.peer_distinguisher, [0u8; 8]);
}

/// A peer with no parent ingress must leave the distinguisher unchanged:
/// there is no upstream identity to encode.
#[test]
fn build_peer_info_no_parent_leaves_pd_zero() {
    let register = Register::new();
    let info = IngressInfo::new();
    let pi =
        build_peer_info_for_emit(&info, &register, false, FanInPeerDistinguisher::IngressHash);
    assert_eq!(pi.peer_distinguisher, [0u8; 8]);
}

/// A peer that already carries a real RD (non-zero inbound distinguisher,
/// e.g. a VPN peer) must pass through unmodified even when fan-in stamping is
/// on.
#[test]
fn build_peer_info_preserves_real_rd() {
    let mut register = Register::new();
    let parent = register.register();
    let real_rd = [0u8, 1, 0, 0xfd, 0xe9, 0, 0, 7];
    let mut info = IngressInfo::new();
    info.parent_ingress = Some(parent);
    info.distinguisher = Some(real_rd);
    let pi =
        build_peer_info_for_emit(&info, &register, false, FanInPeerDistinguisher::IngressHash);
    assert_eq!(pi.peer_distinguisher, real_rd);
}

#[test]
fn an_emitted_peer_bears_the_tag_of_its_router() {
    let mut register = Register::new();
    let parent = register.register();
    let mut router = IngressInfo::new();
    router.name = Some("edge".to_string());
    router.desc = Some("no-sysdesc".to_string());
    register.update_info(parent, router);
    let mut info = session([10, 0, 0, 1], 65000);
    info.parent_ingress = Some(parent);
    let pi = build_peer_info_for_emit(&info, &register, true, FanInPeerDistinguisher::IngressHash);
    assert_eq!(pi.peer_distinguisher, fan_in_distinguisher_tag(parent));
    assert_eq!(pi.admin_label.as_deref(), Some(r#"{"sysName":"edge"}"#));
    assert_eq!(resolve_admin_label(&info, &register, false), None);
}

#[test]
fn a_first_route_is_told_after_a_peer_up() {
    let mut register = Register::new();
    let peer = register.register();
    register.update_info(peer, session([10, 0, 0, 1], 65000));
    let mut client = ClientState::new();
    let announce = payload(unicast(v4([10, 0, 0, 0], 8)), peer, RouteStatus::Active);
    let now = (5, 6);
    let first = send_update_to_client_at(&mut client, &announce, 0, &register, OFF, now);
    assert!(first.keep_going);
    assert_eq!(first.messages.len(), 2);
    assert_eq!(first.messages[0].bytes[5], 3);
    assert_eq!(first.messages[0].peer_up, Some(peer));
    assert_eq!(first.messages[1].bytes[5], 0);
    assert!(client.has_known_peer(peer));

    // No second Peer Up, and a withdrawal goes out too.
    let withdraw = payload(unicast(v4([10, 0, 0, 0], 8)), peer, RouteStatus::Withdrawn);
    let second = send_update_to_client_at(&mut client, &withdraw, 0, &register, OFF, now);
    assert_eq!(second.messages.len(), 1);
    // The withdrawn field holds the prefix, and there is nothing else.
    assert_eq!(&second.messages[0].bytes[48 + 19..], &[0, 2, 8, 10, 0, 0]);

    // A Peer Down makes the peer unknown.
    let down = Update::Withdraw(peer, None);
    let third = send_update_to_client_at(&mut client, &down, 0, &register, OFF, now);
    assert_eq!(third.messages.len(), 1);
    assert_eq!(third.messages[0].bytes[5], 2);
    assert!(!client.has_known_peer(peer));
    let again = send_update_to_client_at(&mut client, &down, 0, &register, OFF, now);
    assert!(again.messages.is_empty());
}

#[test]
fn a_peer_up_that_was_not_sent_is_sent_again() {
    let mut register = Register::new();
    let peer = register.register();
    register.update_info(peer, session([10, 0, 0, 1], 65000));
    let mut client = ClientState::new();
    let announce = payload(unicast(v4([10, 0, 0, 0], 8)), peer, RouteStatus::Active);
    let first = send_update_to_client(&mut client, &announce, 0, &register, OFF);
    send_failed(&mut client, &first.messages[0]);
    assert!(!client.has_known_peer(peer));
    let second = send_update_to_client(&mut client, &announce, 0, &register, OFF);
    assert_eq!(second.messages.len(), 2);
}

#[test]
fn a_peer_that_reappears_gets_a_peer_up_once() {
    let mut register = Register::new();
    let peer = register.register();
    register.update_info(peer, session([10, 0, 0, 1], 65000));
    let mut client = ClientState::new();
    let up = Update::IngressReappeared(peer);
    assert_eq!(send_update_to_client(&mut client, &up, 0, &register, OFF).messages.len(), 1);
    assert_eq!(send_update_to_client(&mut client, &up, 0, &register, OFF).messages.len(), 0);
}

#[test]
fn statistics_and_raw_messages_bear_the_header_of_their_peer() {
    let mut register = Register::new();
    let peer = register.register();
    register.update_info(peer, session([10, 0, 0, 1], 65000));
    let mut client = ClientState::new();
    let body = vec![0, 0, 0, 1, 0, 7, 0, 8, 0, 0, 0, 0, 0, 0, 0, 9];
    let stats = Update::PeerStats { ingress_id: peer, body: body.clone() };
    // A peer that the client does not know is told of before.
    let told = send_update_to_client(&mut client, &stats, 0, &register, OFF);
    assert_eq!(told.messages.len(), 2);
    assert_eq!(told.messages[0].bytes[5], 3);
    assert_eq!(told.messages[1].bytes[5], 1);
    assert_eq!(&told.messages[1].bytes[48..], &body[..]);
    let told = send_update_to_client(&mut client, &stats, 0, &register, OFF);
    assert_eq!(told.messages.len(), 1);
    // Nothing is told of a peer that is gone.
    let gone = Update::PeerStats { ingress_id: 99, body };
    assert!(send_update_to_client(&mut client, &gone, 0, &register, OFF).messages.is_empty());

    let mut raw = vec![0u8; 42];
    raw[1] = 0x20;
    raw.extend_from_slice(&bgp_update(&[], &[]));
    let update = Update::RouteMonitoringRaw { ingress_id: peer, body: raw.clone() };
    let told = send_update_to_client(&mut client, &update, 0, &register, OFF);
    assert_eq!(told.messages.len(), 1);
    assert_eq!(told.messages[0].bytes[7] & 0x20, 0x20);
    assert_eq!(&told.messages[0].bytes[48..], &raw[42..]);
}

#[test]
fn updates_wait_while_the_table_is_sent() {
    let mut client = ClientState::new();
    assert_eq!(client.phase, ClientPhase::Dumping);
    assert!(client.buffer_update_if_dumping(Update::Withdraw(7, None)).is_none());
    assert!(client.buffer_update_if_dumping(Update::IngressReappeared(7)).is_none());
    let taken = client.take_buffered_updates();
    assert_eq!(taken.len(), 2);
    assert!(matches!(taken[0], Update::Withdraw(7, None)));
    assert!(client.take_buffered_updates().is_empty());
    assert_eq!(client.phase, ClientPhase::Live);
    assert!(client.buffer_update_if_dumping(Update::Withdraw(7, None)).is_some());
    assert!(client.request_disconnect());
    assert!(!client.request_disconnect());
}

#[test]
fn a_bulk_update_has_one_entry_for_each_route() {
    let route = |n| Payload {
        rx_value: unicast(v4([10, n, 0, 0], 16)),
        ingress_id: 1,
        route_status: RouteStatus::Active,
    };
    assert_eq!(Update::Bulk(vec![route(1), route(2)]).entries(), 2);
    assert_eq!(Update::WithdrawBulk(vec![(1, None)]).entries(), 1);
    assert_eq!(Update::Other.entries(), 0);
}

#[test]
fn a_dump_goes_on_step_by_step() {
    let mut rib = Rib::new(Register::new()).unwrap();
    let peer = rib.ingress_register.register();
    rib.ingress_register.update_info(peer, session([10, 0, 0, 1], 65000));
    for n in 0..3 {
        let route = unicast(v4([10, n, 0, 0], 16));
        rib.insert(&route, RouteStatus::Active, 1, peer, false, false).unwrap();
    }
    assert_eq!(enumerate_peers(&rib.ingress_register), vec![peer]);
    let mut client = ClientState::new();
    let (mut table, first) = TableDump::start(&rib, "sys", "descr", OFF);
    let mut messages = vec![first];
    while !table.done() {
        messages.extend(table.step(&mut client, &rib, OFF));
    }
    assert!(matches!(messages[0], DumpMessage::Initiation(_)));
    assert!(matches!(messages[1], DumpMessage::PeerUp(id, _) if id == peer));
    assert_eq!(messages.iter().map(|m| m.route_count()).sum::<usize>(), 3);
    assert!(matches!(messages.last(), Some(DumpMessage::EndOfRib(id, _)) if *id == peer));
}

#[test]
fn two_paths_of_a_prefix_go_in_one_message() {
    let mut rib = Rib::new(Register::new()).unwrap();
    let parent = rib.ingress_register.register();
    let mut info = session([10, 9, 9, 1], 65001);
    info.addpath_families = Some(vec![0, 1, 1, 3]);
    rib.ingress_register.update_info(parent, info);
    let route = unicast(v4([10, 1, 0, 0], 24));
    for path_id in [1u32, 2] {
        let child = rib.ingress_register.register();
        let mut info = path_of(parent, path_id);
        info.state = Some(IngressState::Connected);
        rib.ingress_register.update_info(child, info);
        rib.insert(&route, RouteStatus::Active, 1, child, false, false).unwrap();
    }
    let messages = dump(&rib);
    let types: Vec<u8> = messages.iter().map(|m| m[5]).collect();
    assert_eq!(types, vec![4, 3, 0, 0]);
    let cap69 = [69u8, 4, 0, 1, 1, 3];
    assert_eq!(messages[1].windows(6).filter(|w| *w == cap69).count(), 2);
    let nlri = &messages[2][messages[2].len() - 16..];
    let (one, two) = ([0, 0, 0, 1, 24, 10, 1, 0], [0, 0, 0, 2, 24, 10, 1, 0]);
    assert!(nlri == [one, two].concat() || nlri == [two, one].concat());
    assert_eq!(classify(&messages[3]), MsgKind::Eor(1, 1));
}

#[test]
fn updates_that_waited_come_after_the_dump() {
    let rib = Rib::new(Register::new()).unwrap();
    let mut client = ClientState::new();
    assert!(client.buffer_update_if_dumping(Update::Withdraw(7, None)).is_none());
    let (_, _, waited) = perform_initial_dump(&mut client, &rib, "test-sys", "test-descr", OFF);
    assert_eq!(waited.len(), 1);
    assert!(matches!(waited[0], Update::Withdraw(7, None)));
    // More may have come in: the client goes live once nothing waits.
    assert_eq!(client.phase, ClientPhase::Dumping);
    assert!(client.take_buffered_updates().is_empty());
    assert_eq!(client.phase, ClientPhase::Live);
}

#[test]
fn an_unregistered_ingress_is_not_known() {
    let mut register = Register::new();
    let mut client = ClientState::new();
    let mut raw = vec![0u8; 42];
    raw.extend_from_slice(&bgp_update(&[], &[]));
    let update = Update::RouteMonitoringRaw { ingress_id: 1, body: raw };
    let stats = Update::PeerStats { ingress_id: 1, body: vec![0, 0, 0, 0] };
    for told in [&update, &stats] {
        assert!(send_update_to_client(&mut client, told, 0, &register, OFF).messages.is_empty());
        assert!(!client.has_known_peer(1));
    }
    register.update_info(1, session([10, 0, 0, 1], 65000));
    // What is told of it later begins with its Peer Up.
    let told = send_update_to_client(&mut client, &update, 0, &register, OFF);
    let types: Vec<u8> = told.messages.iter().map(|m| m.bytes[5]).collect();
    assert_eq!(types, vec![3, 0]);
    assert!(client.has_known_peer(1));
}
