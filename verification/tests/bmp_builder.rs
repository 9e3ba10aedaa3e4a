use bytes::Bytes;
use netom::bmp_builder::{
    append_flowspec_nlri, build_bgp_open, build_end_of_rib_marker, build_evpn_route_monitoring,
    build_flowspec_route_monitoring, build_initiation_message, build_peer_down, build_peer_up,
    build_route_monitoring, build_route_monitoring_raw, build_statistics_report,
    build_termination_message, encode_prefix_nlri, fan_in_distinguisher_tag,
    flowspec_nlri_encoded_len, OpenCapExtras, PeerInfo, BGP_UPDATE_MIN_LEN,
    BMP_MSG_ROUTE_MONITORING, BMP_PER_PEER_HEADER_LEN, MAX_BGP_UPDATE_LEN,
};
use netom::evpn::EvpnAttributes;
use netom::explode::explode_update;
use netom::ingress::IngressInfo;
use netom::pamap::{filter_raw_path_attributes, RotondaPaMap};
use netom::route::RotondaRoute;
use netom::text::{build_admin_label_json, escape_json_string};
use netom::types::{AfiSafiType, IngressType, IpAddress, PeerType, Prefix};
use routecore::bgp::message::{SessionConfig, UpdateMessage};
use routecore::bgp::nlri::afisafi::{Addpath, AfiSafiNlri, IsPrefix, Nlri};
use routecore::bgp::types::AfiSafiType as OutsideFamily;

const BMP_COMMON_HEADER_LEN: usize = 6;
const BGP_MSG_UPDATE: u8 = 2;
/// Where the BGP message of a BMP message begins.
const BODY: usize = BMP_COMMON_HEADER_LEN + BMP_PER_PEER_HEADER_LEN;

// {dst 10.0.1.0/24, proto =17} raw NLRI (no length header)
const FS_NLRI_A: &[u8] = &[0x01, 0x18, 10, 0, 1, 0x03, 0x81, 0x11];
// {dst 2001:db8::/32} raw v6 NLRI (RFC 8956: type, prefix-length,
// prefix-offset, prefix bytes).
const FS_NLRI_V6: &[u8] = &[0x01, 0x20, 0x00, 0x20, 0x01, 0x0d, 0xb8];

fn v6(groups: [u16; 8]) -> IpAddress {
    let mut octets = [0u8; 16];
    for (i, g) in groups.iter().enumerate() {
        octets[2 * i..2 * i + 2].copy_from_slice(&g.to_be_bytes());
    }
    IpAddress::V6(octets)
}

fn end_of_rib(peer: &PeerInfo, family: AfiSafiType) -> Vec<u8> {
    build_end_of_rib_marker(peer, family).unwrap()
}

fn agg_test_peer() -> PeerInfo {
    PeerInfo {
        peer_type: PeerType::GlobalInstance,
        peer_flags: 0,
        peer_distinguisher: [0u8; 8],
        peer_address: IpAddress::V4([10, 0, 0, 1]),
        peer_asn: 65000,
        peer_bgp_id: [0u8; 4],
        local_addr: IpAddress::V4([0; 4]),
        peer_hostname: None,
        peer_software_version: None,
        peer_role: None,
        session_up_time: None,
        peer_capabilities: Vec::new(),
        addpath_cap_value: Vec::new(),
        admin_label: None,
    }
}

fn fs_pamap() -> RotondaPaMap {
    // ORIGIN=IGP + EXTENDED_COMMUNITIES traffic-rate 0 (drop)
    RotondaPaMap::from_attributes(&[
        0x40, 1, 1, 0, // ORIGIN
        0xc0, 16, 8, 0x80, 0x06, 0, 0, 0, 0, 0, 0, // drop
    ])
}

/// Extract the 8-byte peer_distinguisher from a BMP message that
/// carries a per-peer header (RouteMonitoring, PeerUp, PeerDown,
/// StatsReport). Layout: common header (6 bytes) + peer_type (1) +
/// peer_flags (1) + peer_distinguisher (8) + ...
fn pd_from_msg(msg: &[u8]) -> [u8; 8] {
    let off = BMP_COMMON_HEADER_LEN + 2;
    msg[off..off + 8].try_into().expect("pd slice")
}

fn make_peer(pd: [u8; 8]) -> PeerInfo {
    PeerInfo {
        peer_type: PeerType::GlobalInstance,
        peer_flags: 0x40,
        peer_distinguisher: pd,
        peer_address: v6([0x2001, 0x7f8, 0x6c, 0, 0, 0, 0, 0x230]),
        peer_asn: 6939,
        peer_bgp_id: [0u8; 4],
        local_addr: IpAddress::V4([0; 4]),
        peer_hostname: None,
        peer_software_version: None,
        peer_role: None,
        session_up_time: None,
        peer_capabilities: Vec::new(),
        addpath_cap_value: Vec::new(),
        admin_label: None,
    }
}

#[test]
fn test_build_initiation_message() {
    let msg = build_initiation_message("test-router", "Test BMP out");

    assert_eq!(msg[0], 3); // Version
    assert_eq!(msg[5], 4); // Type = Initiation

    let len = u32::from_be_bytes([msg[1], msg[2], msg[3], msg[4]]);
    assert_eq!(len as usize, msg.len());
}

#[test]
fn test_build_termination_message() {
    let msg = build_termination_message();

    assert_eq!(msg[0], 3); // Version
    assert_eq!(msg[5], 5); // Type = Termination

    let len = u32::from_be_bytes([msg[1], msg[2], msg[3], msg[4]]);
    assert_eq!(len as usize, msg.len());
}

#[test]
fn test_build_peer_up() {
    let peer = PeerInfo {
        peer_type: PeerType::GlobalInstance,
        peer_flags: 0x40,
        peer_distinguisher: [0u8; 8],
        peer_address: IpAddress::V4([10, 0, 0, 1]),
        peer_asn: 65000,
        peer_bgp_id: [0u8; 4],
        local_addr: IpAddress::V4([0; 4]),
        peer_hostname: None,
        peer_software_version: None,
        peer_role: None,
        session_up_time: None,
        peer_capabilities: Vec::new(),
        addpath_cap_value: Vec::new(),
        admin_label: None,
    };

    let msg = build_peer_up(&peer, true);

    assert_eq!(msg[0], 3); // Version
    assert_eq!(msg[5], 3); // Type = Peer Up

    let len = u32::from_be_bytes([msg[1], msg[2], msg[3], msg[4]]);
    assert_eq!(len as usize, msg.len());
}

#[test]
fn test_build_statistics_report() {
    let peer = PeerInfo {
        peer_type: PeerType::GlobalInstance,
        peer_flags: 0x40,
        peer_distinguisher: [0u8; 8],
        peer_address: IpAddress::V4([10, 0, 0, 1]),
        peer_asn: 65000,
        peer_bgp_id: [0u8; 4],
        local_addr: IpAddress::V4([0; 4]),
        peer_hostname: None,
        peer_software_version: None,
        peer_role: None,
        session_up_time: None,
        peer_capabilities: Vec::new(),
        addpath_cap_value: Vec::new(),
        admin_label: None,
    };

    // One stat TLV: type=0 (rejected prefixes), len=4, value=0x000000AA.
    let body: &[u8] = &[
        0x00, 0x00, 0x00, 0x01, // stats count = 1
        0x00, 0x00, // stat type = 0
        0x00, 0x04, // stat length = 4
        0x00, 0x00, 0x00, 0xAA, // stat value
    ];
    let msg = build_statistics_report(&peer, body);

    assert_eq!(msg[0], 3); // Version
    assert_eq!(msg[5], 1); // Type = Statistics Report

    let len = u32::from_be_bytes([msg[1], msg[2], msg[3], msg[4]]);
    assert_eq!(len as usize, msg.len());
    assert_eq!(
        msg.len(),
        BODY + body.len()
    );

    // Body must be appended verbatim after common + per-peer header.
    let body_offset = BODY;
    assert_eq!(&msg[body_offset..], body);
}

#[test]
fn test_build_route_monitoring_raw() {
    let peer = PeerInfo {
        peer_type: PeerType::GlobalInstance,
        peer_flags: 0x40, // post-policy, no A-flag of our own
        peer_distinguisher: [1, 2, 3, 4, 5, 6, 7, 8],
        peer_address: IpAddress::V4([10, 0, 0, 1]),
        peer_asn: 65000,
        peer_bgp_id: [10, 0, 0, 1],
        local_addr: IpAddress::V4([0; 4]),
        peer_hostname: None,
        peer_software_version: None,
        peer_role: None,
        session_up_time: None,
        peer_capabilities: Vec::new(),
        addpath_cap_value: Vec::new(),
        admin_label: None,
    };

    // Original per-peer header: identity fields deliberately DIFFERENT
    // from `peer` (they must be replaced by ours), A-flag set (must be
    // mirrored), timestamp set (must be mirrored).
    let mut orig_pph = [0u8; BMP_PER_PEER_HEADER_LEN];
    orig_pph[1] = 0x20; // A-flag: legacy 2-byte AS_PATH encoding
    orig_pph[25] = 99; // some other peer address
    orig_pph[34..38].copy_from_slice(&1234u32.to_be_bytes());
    orig_pph[38..42].copy_from_slice(&5678u32.to_be_bytes());

    // Minimal BGP UPDATE: marker + len 23 + type 2 + two zero lengths.
    let mut update = vec![0xFFu8; 16];
    update.extend_from_slice(&23u16.to_be_bytes());
    update.push(2);
    update.extend_from_slice(&[0, 0, 0, 0]);

    let mut body = orig_pph.to_vec();
    body.extend_from_slice(&update);

    let msg = build_route_monitoring_raw(&peer, &body).unwrap();

    assert_eq!(msg[0], 3); // Version
    assert_eq!(msg[5], 0); // Type = Route Monitoring
    let len = u32::from_be_bytes([msg[1], msg[2], msg[3], msg[4]]);
    assert_eq!(len as usize, msg.len());

    let pph = &msg[BMP_COMMON_HEADER_LEN..][..BMP_PER_PEER_HEADER_LEN];
    // Our flags plus the mirrored A-flag.
    assert_eq!(pph[1], 0x40 | 0x20);
    // Identity comes from `peer`, not the original header: fan-in
    // distinguisher and the (v4-mapped) peer address.
    assert_eq!(&pph[2..10], &[1, 2, 3, 4, 5, 6, 7, 8]);
    let mut expected_addr = [0u8; 16];
    expected_addr[12..].copy_from_slice(&[10, 0, 0, 1]);
    assert_eq!(&pph[10..26], &expected_addr);
    // Timestamp mirrored from the original header.
    assert_eq!(&pph[34..42], &orig_pph[34..42]);

    // The BGP UPDATE goes out verbatim.
    let body_offset = BODY;
    assert_eq!(&msg[body_offset..], &update[..]);

    // Truncated bodies are rejected, not sent.
    assert!(build_route_monitoring_raw(
        &peer,
        &body[..BMP_PER_PEER_HEADER_LEN + BGP_UPDATE_MIN_LEN - 1]
    )
    .is_none());
    assert!(build_route_monitoring_raw(&peer, &[]).is_none());

    // RFC 8654-sized UPDATEs pass through after capability 6 is
    // synthesized in both Peer Up OPENs.
    let mut extended = vec![0xFFu8; 16];
    extended.extend_from_slice(&5000u16.to_be_bytes());
    extended.push(BGP_MSG_UPDATE);
    extended.resize(5000, 0);
    let mut extended_body = orig_pph.to_vec();
    extended_body.extend_from_slice(&extended);
    let msg = build_route_monitoring_raw(&peer, &extended_body).unwrap();
    assert_eq!(
        &msg[body_offset..],
        &extended,
        "extended UPDATE must remain verbatim"
    );

    // The raw fastpath must not forward inconsistent BGP framing.
    let mut bad_body = extended_body;
    bad_body[BMP_PER_PEER_HEADER_LEN + 17] ^= 1;
    assert!(build_route_monitoring_raw(&peer, &bad_body).is_none());
}

#[test]
fn test_build_peer_down() {
    let peer = PeerInfo {
        peer_type: PeerType::GlobalInstance,
        peer_flags: 0x40,
        peer_distinguisher: [0u8; 8],
        peer_address: IpAddress::V4([10, 0, 0, 1]),
        peer_asn: 65000,
        peer_bgp_id: [0u8; 4],
        local_addr: IpAddress::V4([0; 4]),
        peer_hostname: None,
        peer_software_version: None,
        peer_role: None,
        session_up_time: None,
        peer_capabilities: Vec::new(),
        addpath_cap_value: Vec::new(),
        admin_label: None,
    };

    let msg = build_peer_down(&peer);

    assert_eq!(msg[0], 3); // Version
    assert_eq!(msg[5], 2); // Type = Peer Down

    let len = u32::from_be_bytes([msg[1], msg[2], msg[3], msg[4]]);
    assert_eq!(len as usize, msg.len());

    assert_eq!(*msg.last().unwrap(), 4); // Reason code
}

#[test]
fn test_encode_prefix_nlri_v4() {
    let prefix =
        Prefix::new(IpAddress::V4([10, 0, 0, 0]), 24).unwrap();

    let bytes = encode_prefix_nlri(&prefix, None);
    assert_eq!(bytes[0], 24);
    assert_eq!(bytes[1..], [10, 0, 0]);
}

#[test]
fn test_encode_prefix_nlri_v4_host() {
    let prefix = Prefix::new(
        IpAddress::V4([192, 168, 1, 1]),
        32,
    )
    .unwrap();

    let bytes = encode_prefix_nlri(&prefix, None);
    assert_eq!(bytes[0], 32);
    assert_eq!(bytes[1..], [192, 168, 1, 1]);
}

#[test]
fn test_filter_raw_path_attributes_empty() {
    let pamap = RotondaPaMap::default();
    let (result, next_hop) = filter_raw_path_attributes(&pamap);
    assert!(result.is_empty());
    assert!(next_hop.is_none());
}

#[test]
fn test_bgp_open_contains_graceful_restart() {
    // IPv4-only peer
    let open = build_bgp_open(
        65000,
        [0u8; 4],
        &OpenCapExtras::default(),
        &[AfiSafiType::Ipv4Unicast],
        true,
        &[],
    );
    // Find GR capability (code 64) in the capabilities
    let bgp_body = &open[19..]; // skip marker(16) + length(2) + type(1)
    let opt_params_len = bgp_body[9] as usize;
    let opt_params = &bgp_body[10..10 + opt_params_len];
    // opt_params: type(1) + len(1) + capabilities...
    assert_eq!(opt_params[0], 2); // Parameter Type = Capabilities
    let caps = &opt_params[2..];
    let mut found_gr = false;
    let mut pos = 0;
    while pos < caps.len() {
        let cap_code = caps[pos];
        let cap_len = caps[pos + 1] as usize;
        if cap_code == 64 {
            found_gr = true;
            // restart flags/time + one IPv4-unicast tuple
            assert_eq!(cap_len, 6);
        }
        pos += 2 + cap_len;
    }
    assert!(
        found_gr,
        "Graceful Restart capability not found in BGP OPEN"
    );

    // IPv6 peer
    let open_v6 = build_bgp_open(
        65000,
        [0u8; 4],
        &OpenCapExtras::default(),
        &[
            AfiSafiType::Ipv4Unicast,
            AfiSafiType::Ipv6Unicast,
            AfiSafiType::Ipv4FlowSpec,
            AfiSafiType::Ipv6FlowSpec,
        ],
        true,
        &[],
    );
    let bgp_body = &open_v6[19..];
    let opt_params_len = bgp_body[9] as usize;
    let opt_params = &bgp_body[10..10 + opt_params_len];
    let caps = &opt_params[2..];
    let mut pos = 0;
    while pos < caps.len() {
        let cap_code = caps[pos];
        let cap_len = caps[pos + 1] as usize;
        if cap_code == 64 {
            // For IPv6: 2 (restart flags/time) + 4*4 (v4/v6 Unicast +
            // v4/v6 FlowSpec) = 18
            assert_eq!(cap_len, 18);
        }
        pos += 2 + cap_len;
    }
}

#[test]
fn bgp_open_advertises_extended_message() {
    let open = build_bgp_open(
        65000,
        [0u8; 4],
        &OpenCapExtras::default(),
        &[AfiSafiType::Ipv4FlowSpec],
        false,
        &[],
    );
    let bgp_body = &open[19..];
    let opt_params_len = bgp_body[9] as usize;
    let opt_params = &bgp_body[10..10 + opt_params_len];
    let caps = &opt_params[2..];
    let mut pos = 0;
    let mut found = false;
    while pos < caps.len() {
        let code = caps[pos];
        let len = caps[pos + 1] as usize;
        if code == 6 {
            assert_eq!(len, 0);
            found = true;
        }
        pos += 2 + len;
    }
    assert!(found, "Extended Message capability not found");
}

#[test]
fn test_bgp_open_can_omit_graceful_restart() {
    let open = build_bgp_open(
        65000,
        [0u8; 4],
        &OpenCapExtras::default(),
        &[AfiSafiType::Ipv4Unicast, AfiSafiType::Ipv6Unicast],
        false,
        &[],
    );
    let bgp_body = &open[19..];
    let opt_params_len = bgp_body[9] as usize;
    let opt_params = &bgp_body[10..10 + opt_params_len];
    let caps = &opt_params[2..];

    let mut pos = 0;
    while pos < caps.len() {
        let cap_code = caps[pos];
        let cap_len = caps[pos + 1] as usize;
        assert_ne!(cap_code, 64);
        pos += 2 + cap_len;
    }
}

#[test]
fn test_eor_ipv4_is_valid_bgp_update() {
    let peer = PeerInfo {
        peer_type: PeerType::GlobalInstance,
        peer_flags: 0x40,
        peer_distinguisher: [0u8; 8],
        peer_address: IpAddress::V4([10, 0, 0, 1]),
        peer_asn: 65000,
        peer_bgp_id: [0u8; 4],
        local_addr: IpAddress::V4([0; 4]),
        peer_hostname: None,
        peer_software_version: None,
        peer_role: None,
        session_up_time: None,
        peer_capabilities: Vec::new(),
        addpath_cap_value: Vec::new(),
        admin_label: None,
    };

    let msg = end_of_rib(&peer, AfiSafiType::Ipv4Unicast);
    let total_len = BODY + 23;
    assert_eq!(msg.len(), total_len);

    // Verify the BGP UPDATE portion
    let bgp_offset = BODY;
    let bgp_msg = &msg[bgp_offset..];
    // Marker: 16 bytes of 0xFF
    assert_eq!(&bgp_msg[..16], &[0xFF; 16]);
    // Length: 23
    let bgp_len = u16::from_be_bytes([bgp_msg[16], bgp_msg[17]]);
    assert_eq!(bgp_len, 23);
    // Type: UPDATE
    assert_eq!(bgp_msg[18], BGP_MSG_UPDATE);
    // Withdrawn Routes Length: 0
    assert_eq!(u16::from_be_bytes([bgp_msg[19], bgp_msg[20]]), 0);
    // Path Attribute Length: 0
    assert_eq!(u16::from_be_bytes([bgp_msg[21], bgp_msg[22]]), 0);
}

#[test]
fn test_eor_ipv6_has_mp_unreach_nlri() {
    let peer = PeerInfo {
        peer_type: PeerType::GlobalInstance,
        peer_flags: 0xC0, // V + L flags
        peer_distinguisher: [0u8; 8],
        peer_address: v6([0x2001, 0xdb8, 0, 0, 0, 0, 0, 1]),
        peer_asn: 65000,
        peer_bgp_id: [0u8; 4],
        local_addr: IpAddress::V4([0; 4]),
        peer_hostname: None,
        peer_software_version: None,
        peer_role: None,
        session_up_time: None,
        peer_capabilities: Vec::new(),
        addpath_cap_value: Vec::new(),
        admin_label: None,
    };

    let msg = end_of_rib(&peer, AfiSafiType::Ipv6Unicast);

    // Verify the BGP UPDATE portion
    let bgp_offset = BODY;
    let bgp_msg = &msg[bgp_offset..];
    // Marker
    assert_eq!(&bgp_msg[..16], &[0xFF; 16]);
    // Type: UPDATE
    assert_eq!(bgp_msg[18], BGP_MSG_UPDATE);
    // Withdrawn Routes Length: 0
    assert_eq!(u16::from_be_bytes([bgp_msg[19], bgp_msg[20]]), 0);
    // Path Attribute Length
    let pa_len = u16::from_be_bytes([bgp_msg[21], bgp_msg[22]]) as usize;
    assert_eq!(pa_len, 6); // MP_UNREACH_NLRI: flags(1) + type(1) + len(1) + AFI(2) + SAFI(1)
    // MP_UNREACH_NLRI attribute
    assert_eq!(bgp_msg[23], 0x80); // Flags: Optional
    assert_eq!(bgp_msg[24], 15); // Type: MP_UNREACH_NLRI
    assert_eq!(bgp_msg[25], 3); // Length: AFI(2) + SAFI(1)
    // AFI = 2 (IPv6)
    assert_eq!(u16::from_be_bytes([bgp_msg[26], bgp_msg[27]]), 2);
    // SAFI = 1 (Unicast)
    assert_eq!(bgp_msg[28], 1);
}

#[test]
fn test_escape_json_string() {
    assert_eq!(escape_json_string("hello"), "hello");
    assert_eq!(escape_json_string(r#"say "hi""#), r#"say \"hi\""#);
    assert_eq!(escape_json_string("back\\slash"), "back\\\\slash");
    assert_eq!(escape_json_string("line\nbreak"), "line\\nbreak");
    assert_eq!(escape_json_string("tab\there"), "tab\\there");
    assert_eq!(escape_json_string("cr\rhere"), "cr\\rhere");
    // Control character (bell)
    assert_eq!(escape_json_string("bell\x07"), "bell\\u0007");
}

#[test]
fn test_build_admin_label_json() {
    // Both present
    let json = build_admin_label_json(Some("router1"), Some("Cisco IOS"));
    assert_eq!(
        json.unwrap(),
        r#"{"sysName":"router1","sysDescr":"Cisco IOS"}"#
    );

    // Only name
    let json = build_admin_label_json(Some("router1"), None);
    assert_eq!(json.unwrap(), r#"{"sysName":"router1"}"#);

    // Only desc
    let json = build_admin_label_json(None, Some("Cisco IOS"));
    assert_eq!(json.unwrap(), r#"{"sysDescr":"Cisco IOS"}"#);

    // Both absent
    assert!(build_admin_label_json(None, None).is_none());

    // Placeholder values filtered
    assert!(build_admin_label_json(
        Some("no-sysname"),
        Some("no-sysdesc")
    )
    .is_none());

    // Name with special characters
    let json = build_admin_label_json(Some(r#"rtr "A""#), None);
    assert_eq!(json.unwrap(), r#"{"sysName":"rtr \"A\""}"#);
}

#[test]
fn test_build_peer_up_with_admin_label() {
    let peer = PeerInfo {
        peer_type: PeerType::GlobalInstance,
        peer_flags: 0x40,
        peer_distinguisher: [0u8; 8],
        peer_address: IpAddress::V4([10, 0, 0, 1]),
        peer_asn: 65000,
        peer_bgp_id: [0u8; 4],
        local_addr: IpAddress::V4([0; 4]),
        peer_hostname: None,
        peer_software_version: None,
        peer_role: None,
        session_up_time: None,
        peer_capabilities: Vec::new(),
        addpath_cap_value: Vec::new(),
        admin_label: Some(r#"{"sysName":"router1"}"#.to_string()),
    };

    let msg = build_peer_up(&peer, true);

    assert_eq!(msg[0], 3); // Version
    assert_eq!(msg[5], 3); // Type = Peer Up

    let len = u32::from_be_bytes([msg[1], msg[2], msg[3], msg[4]]);
    assert_eq!(len as usize, msg.len());

    // Find the Admin Label TLV at the end of the message.
    // The TLV value is the JSON string.
    let label = r#"{"sysName":"router1"}"#;
    let tlv_offset = msg.len() - 4 - label.len();
    // Type = 4
    assert_eq!(
        u16::from_be_bytes([msg[tlv_offset], msg[tlv_offset + 1]]),
        4
    );
    // Length
    assert_eq!(
        u16::from_be_bytes([msg[tlv_offset + 2], msg[tlv_offset + 3]]),
        label.len() as u16
    );
    // Value
    assert_eq!(&msg[tlv_offset + 4..], label.as_bytes());
}

#[test]
fn peer_up_carries_bgp_id_local_addr_and_optional_caps() {
    let hostname = "rtr-edge-01";
    let version = "FRRouting 9.1";
    let peer = PeerInfo {
        peer_type: PeerType::GlobalInstance,
        peer_flags: 0x40,
        peer_distinguisher: [0u8; 8],
        peer_address: IpAddress::V4([10, 0, 0, 1]),
        peer_asn: 65000,
        peer_bgp_id: [192, 0, 2, 7],
        local_addr: IpAddress::V4([10, 0, 0, 2]),
        peer_hostname: Some(hostname.to_string()),
        peer_software_version: Some(version.to_string()),
        peer_role: Some(3), // Customer
        session_up_time: Some((0x1234_5678, 0x0009_0a0b)),
        peer_capabilities: Vec::new(),
        addpath_cap_value: Vec::new(),
        admin_label: None,
    };

    let msg = build_peer_up(&peer, true);

    // Per-peer header carries the peer's BGP Identifier (router-id).
    // Layout after common(6): type(1) flags(1) pd(8) addr(16) asn(4).
    let bgp_id_off = BMP_COMMON_HEADER_LEN + 1 + 1 + 8 + 16 + 4;
    assert_eq!(&msg[bgp_id_off..bgp_id_off + 4], &[192, 0, 2, 7]);

    // The per-peer-header timestamp is the supplied session-up time, not
    // now(). Timestamp follows the 4-byte Peer BGP ID.
    let ts_off = bgp_id_off + 4;
    assert_eq!(
        u32::from_be_bytes(msg[ts_off..ts_off + 4].try_into().unwrap()),
        0x1234_5678
    );
    assert_eq!(
        u32::from_be_bytes(
            msg[ts_off + 4..ts_off + 8].try_into().unwrap()
        ),
        0x0009_0a0b
    );

    // Peer Up body begins after the per-peer header with the 16-byte
    // Local Address (IPv4 => 12 zero bytes + octets).
    let local_off = BODY;
    assert_eq!(&msg[local_off..local_off + 12], &[0u8; 12]);
    assert_eq!(&msg[local_off + 12..local_off + 16], &[10, 0, 0, 2]);

    let contains =
        |needle: &[u8]| msg.windows(needle.len()).any(|w| w == needle);

    // FQDN (73): code | value_len | host_len | host | domain_len(0).
    let mut fqdn =
        vec![73u8, (hostname.len() + 2) as u8, hostname.len() as u8];
    fqdn.extend_from_slice(hostname.as_bytes());
    fqdn.push(0);
    assert!(contains(&fqdn), "FQDN capability not found");

    // Software Version (75): code | value_len | ver_len | version.
    let mut sw =
        vec![75u8, (version.len() + 1) as u8, version.len() as u8];
    sw.extend_from_slice(version.as_bytes());
    assert!(contains(&sw), "Software Version capability not found");

    // BGP Role (9): code | len(1) | role.
    assert!(contains(&[9u8, 1, 3]), "BGP Role capability not found");
}

#[test]
fn peer_up_passes_through_advisory_caps_but_excludes_incompatible() {
    // peer_capabilities blob: a vendor/advisory capability (code 200)
    // that should pass through verbatim, plus AddPath (code 69) which
    // must be excluded because we re-encode NLRI without path-ids.
    let mut blob = vec![200u8, 3, 0xAA, 0xBB, 0xCC];
    blob.extend_from_slice(&[69u8, 4, 0x00, 0x01, 0x01, 0x03]);

    let peer = PeerInfo {
        peer_type: PeerType::GlobalInstance,
        peer_flags: 0x40,
        peer_distinguisher: [0u8; 8],
        peer_address: IpAddress::V4([10, 0, 0, 1]),
        peer_asn: 65000,
        peer_bgp_id: [0u8; 4],
        local_addr: IpAddress::V4([0; 4]),
        peer_hostname: None,
        peer_software_version: None,
        peer_role: None,
        session_up_time: None,
        peer_capabilities: blob,
        addpath_cap_value: Vec::new(),
        admin_label: None,
    };

    let msg = build_peer_up(&peer, true);
    let contains =
        |needle: &[u8]| msg.windows(needle.len()).any(|w| w == needle);

    // Advisory/unknown capability passed through verbatim.
    assert!(
        contains(&[200u8, 3, 0xAA, 0xBB, 0xCC]),
        "advisory capability was not passed through"
    );
    // AddPath (code 69) must not be re-emitted via passthrough: it is
    // only ever synthesized from `addpath_cap_value` (empty here).
    assert!(
        !contains(&[69u8, 4, 0x00, 0x01, 0x01, 0x03]),
        "AddPath capability must be excluded from the passthrough"
    );
}

/// A non-empty `addpath_cap_value` is synthesized as capability 69 in
/// BOTH embedded OPENs, so downstream computes ADD-PATH as negotiated.
#[test]
fn peer_up_advertises_addpath_in_both_opens() {
    let mut peer = make_peer([0u8; 8]);
    peer.addpath_cap_value = vec![0, 1, 1, 3]; // v4 unicast SendReceive

    let msg = build_peer_up(&peer, true);
    let needle = [69u8, 4, 0, 1, 1, 3];
    let occurrences =
        msg.windows(needle.len()).filter(|w| *w == needle).count();
    assert_eq!(
        occurrences, 2,
        "cap 69 must appear in both the sent and received OPEN"
    );
}

#[test]
fn peer_up_negotiates_extended_message_in_both_opens() {
    let mut peer = make_peer([0u8; 8]);
    // An upstream copy must not create a third passthrough instance.
    peer.peer_capabilities = vec![6, 0];
    let msg = build_peer_up(&peer, true);
    let sent_start =
        BODY + 16 + 2 + 2;
    let sent_len =
        u16::from_be_bytes([msg[sent_start + 16], msg[sent_start + 17]])
            as usize;
    let received_start = sent_start + sent_len;

    let count_cap6 = |open: &[u8]| {
        let opt_len = open[28] as usize;
        let params = &open[29..29 + opt_len];
        let caps = &params[2..];
        let mut pos = 0;
        let mut count = 0;
        while pos < caps.len() {
            let len = caps[pos + 1] as usize;
            count += usize::from(caps[pos] == 6);
            pos += 2 + len;
        }
        count
    };
    assert_eq!(count_cap6(&msg[sent_start..received_start]), 1);
    assert_eq!(count_cap6(&msg[received_start..]), 1);
}

/// `from_ingress_info` keeps only the ADD-PATH families that are re-encoded
/// with path ids (v4/v6 unicast and flowspec), forcing SendReceive: multicast
/// is folded into unicast NLRI, so advertising it would be wrong.
#[test]
fn from_ingress_info_filters_addpath_families() {
    let mut info = IngressInfo::new();
    info.remote_addr = Some(IpAddress::V4([10, 0, 0, 9]));
    info.remote_asn = Some(65000);
    info.addpath_families = Some(vec![
        0, 1, 1, 1, // v4 unicast, Receive -> kept, forced to 3
        0, 1, 2, 3, // v4 multicast -> dropped (family collapse)
        0, 2, 1, 3, // v6 unicast -> kept
        0, 1, 133, 3, // v4 flowspec -> kept
        0, 2, 133, 1, // v6 flowspec, Receive -> kept, forced to 3
        0, 1, 128, 3, // v4 MPLS-VPN -> dropped (not re-encoded)
    ]);
    let peer = PeerInfo::from_ingress_info(&info);
    assert_eq!(
        peer.addpath_cap_value,
        vec![0, 1, 1, 3, 0, 2, 1, 3, 0, 1, 133, 3, 0, 2, 133, 3]
    );

    // No ADD-PATH families at all -> empty value, no capability emitted.
    let mut info = IngressInfo::new();
    info.remote_addr = Some(IpAddress::V4([10, 0, 0, 9]));
    let peer = PeerInfo::from_ingress_info(&info);
    assert!(peer.addpath_cap_value.is_empty());
}

/// Path-id-carrying NLRI must round-trip through routecore's ADD-PATH
/// parser: v4 announce + withdraw (conventional fields) and v6 announce
/// + withdraw (synthesized MP_REACH / MP_UNREACH).
#[test]
fn path_id_nlri_roundtrips_through_routecore() {
    let peer = make_peer([0u8; 8]);
    let mut sc = SessionConfig::modern();
    sc.add_addpath_rxtx(OutsideFamily::Ipv4Unicast);
    sc.add_addpath_rxtx(OutsideFamily::Ipv6Unicast);

    let pamap = RotondaPaMap::from_attributes(&[0x40, 1, 1, 0]); // ORIGIN=IGP
    let four = Prefix::new(IpAddress::V4([10, 0, 0, 0]), 24).unwrap();
    let six = Prefix::new(v6([0x2001, 0xdb8, 0, 0, 0, 0, 0, 0]), 32).unwrap();

    for (prefix, text, pid, withdraw) in [
        (four, "10.0.0.0/24", 7u32, false),
        (four, "10.0.0.0/24", 7, true),
        (six, "2001:db8::/32", 9, false),
        (six, "2001:db8::/32", 9, true),
    ] {
        let msg = build_route_monitoring(&peer, &prefix, &pamap, withdraw, Some(pid))
            .expect("message must build");
        let bgp = Bytes::copy_from_slice(&msg[BODY..]);
        let upd = UpdateMessage::from_octets(bgp, &sc).expect("re-encoded UPDATE must parse");
        let nlri: Vec<Nlri<Bytes>> = if withdraw {
            upd.withdrawals().unwrap().map(|n| n.unwrap()).collect()
        } else {
            upd.announcements().unwrap().map(|n| n.unwrap()).collect()
        };
        assert_eq!(nlri.len(), 1, "{text} withdraw={withdraw}");
        match &nlri[0] {
            Nlri::Ipv4UnicastAddpath(n) => {
                assert_eq!(n.prefix().to_string(), text);
                assert_eq!(IsPrefix::path_id(n).map(|p| p.0), Some(pid));
            }
            Nlri::Ipv6UnicastAddpath(n) => {
                assert_eq!(n.prefix().to_string(), text);
                assert_eq!(IsPrefix::path_id(n).map(|p| p.0), Some(pid));
            }
            other => panic!("expected ADD-PATH NLRI for {text}, got {other:?}"),
        }
    }
}

#[test]
fn fan_in_tag_is_non_zero_and_stable() {
    let t1a = fan_in_distinguisher_tag(7);
    let t1b = fan_in_distinguisher_tag(7);
    assert_eq!(
        t1a, t1b,
        "tag must be deterministic for same parent IngressId"
    );
    assert_ne!(t1a, [0u8; 8], "tag must never be zero");
}

#[test]
fn fan_in_tag_differs_per_parent() {
    // Many adjacent IngressIds; assert no pairwise collisions in the
    // small space we care about. A 64-bit SipHash should not collide
    // for the first thousand consecutive u32 inputs.
    let mut tags: Vec<[u8; 8]> =
        (1..=64).map(fan_in_distinguisher_tag).collect();
    tags.sort();
    let original_len = tags.len();
    tags.dedup();
    assert_eq!(
        tags.len(),
        original_len,
        "fan-in tags collided across distinct parent IngressIds"
    );
}

#[test]
fn apply_fan_in_only_stamps_zero_pd() {
    // Inbound pd=0: tag is applied.
    let tag = fan_in_distinguisher_tag(42);
    let mut p = make_peer([0u8; 8]);
    p.apply_fan_in_distinguisher(tag);
    assert_eq!(p.peer_distinguisher, tag);

    // Inbound pd already non-zero (real RD/VRF): tag is NOT applied.
    let real_rd = [1, 2, 3, 4, 9, 9, 9, 9];
    let mut p = make_peer(real_rd);
    p.apply_fan_in_distinguisher(tag);
    assert_eq!(
        p.peer_distinguisher, real_rd,
        "must not overwrite real RD"
    );
}

#[test]
fn fan_in_two_upstreams_same_peer_produce_different_pd_on_wire() {
    // Two fake upstream BMP sessions, each
    // with a PeerUp for the same (peer_ip, peer_asn). Resulting
    // per-peer headers must carry two different non-zero
    // peer_distinguisher values.
    let tag_a = fan_in_distinguisher_tag(101);
    let tag_b = fan_in_distinguisher_tag(202);
    assert_ne!(tag_a, tag_b);
    assert_ne!(tag_a, [0u8; 8]);
    assert_ne!(tag_b, [0u8; 8]);

    let mut peer_a = make_peer([0u8; 8]);
    peer_a.apply_fan_in_distinguisher(tag_a);

    let mut peer_b = make_peer([0u8; 8]);
    peer_b.apply_fan_in_distinguisher(tag_b);

    let msg_a = build_peer_up(&peer_a, false);
    let msg_b = build_peer_up(&peer_b, false);

    let pd_a = pd_from_msg(&msg_a);
    let pd_b = pd_from_msg(&msg_b);

    assert_eq!(pd_a, tag_a);
    assert_eq!(pd_b, tag_b);
    assert_ne!(pd_a, pd_b);
    assert_ne!(pd_a, [0u8; 8]);
}

#[test]
fn fan_in_pd_consistent_across_message_types_for_one_upstream() {
    // RouteMonitoring carries the same tag
    // as PeerUp, and PeerDown carries the matching tag.
    let tag = fan_in_distinguisher_tag(303);
    let mut peer = make_peer([0u8; 8]);
    peer.apply_fan_in_distinguisher(tag);

    let pd_peer_up = pd_from_msg(&build_peer_up(&peer, false));
    let pd_peer_down = pd_from_msg(&build_peer_down(&peer));
    let pd_eor = pd_from_msg(&end_of_rib(&peer, AfiSafiType::Ipv4Unicast));
    let pd_eor6 = pd_from_msg(&end_of_rib(
        &peer,
        AfiSafiType::Ipv6Unicast,
    ));
    let pd_stats =
        pd_from_msg(&build_statistics_report(&peer, &[0u8, 0, 0, 0]));

    assert_eq!(pd_peer_up, tag);
    assert_eq!(pd_peer_down, tag);
    assert_eq!(pd_eor, tag);
    assert_eq!(pd_eor6, tag);
    assert_eq!(pd_stats, tag);
}

#[test]
fn fan_in_preserves_inbound_non_zero_pd_on_wire() {
    // An inbound peer whose own
    // peer_distinguisher is already non-zero (real RD context)
    // passes through unmodified even when fan-in tagging is on.
    let real_rd = [0u8, 1, 0, 0xfd, 0xe9, 0, 0, 1];
    let tag = fan_in_distinguisher_tag(404);
    let mut peer = make_peer(real_rd);
    peer.apply_fan_in_distinguisher(tag);

    assert_eq!(peer.peer_distinguisher, real_rd);
    assert_eq!(pd_from_msg(&build_peer_up(&peer, false)), real_rd);
    assert_eq!(pd_from_msg(&build_peer_down(&peer)), real_rd);
}

#[test]
fn evpn_bmp_roundtrip_plain_and_addpath() {
    let peer = agg_test_peer();
    let mut raw = vec![5, 34];
    raw.extend_from_slice(&[0, 0, 0, 1, 0, 0, 0, 7]);
    raw.extend_from_slice(&[0; 14]);
    raw.extend_from_slice(&[24, 10, 0, 0, 0, 0, 0, 0, 0, 0, 0, 42]);
    let pamap = RotondaPaMap::from_attributes(&[
        0x40, 1, 1, 0, 0x80, 14, 9, 0, 25, 70, 4, 192, 0, 2, 1, 0,
    ]);
    for pid in [None, Some(17)] {
        for withdrawn in [false, true] {
            let bmp = build_evpn_route_monitoring(&peer, &raw, &pamap, withdrawn, pid).unwrap();
            let update = explode_update(&bmp[BODY..], pid.is_some()).unwrap().unwrap();
            let routes = if withdrawn { update.withdrawn } else { update.announced };
            assert_eq!(routes.len(), 1);
            assert_eq!(routes[0].path_id, pid);
            match &routes[0].route {
                RotondaRoute::L2VpnEvpn(n, attrs) => {
                    assert_eq!(n.raw, raw);
                    assert_eq!(n.rd, "1:7");
                    if !withdrawn {
                        assert_eq!(
                            EvpnAttributes::decode(attrs).next_hop,
                            Some(IpAddress::V4([192, 0, 2, 1]))
                        );
                    }
                }
                other => panic!("unexpected route {other:?}"),
            }
        }
    }
}

/// Announce: MP_REACH with AFI 1 / SAFI 133 / zero-length next hop and
/// the NLRI bytes verbatim after the RFC 8955 length header; original
/// (filtered) attributes preserved.
#[test]
fn flowspec_announce_update_bytes() {
    let peer = agg_test_peer();
    let pamap = fs_pamap();
    let msg = build_flowspec_route_monitoring(
        &peer, true, FS_NLRI_A, &pamap, false, None,
    )
    .unwrap();

    assert_eq!(msg[5], BMP_MSG_ROUTE_MONITORING);
    let bgp = &msg[BODY..];
    let bgp_len = u16::from_be_bytes([bgp[16], bgp[17]]) as usize;
    assert_eq!(bgp_len, bgp.len());
    assert_eq!(bgp[18], BGP_MSG_UPDATE);
    assert_eq!(u16::from_be_bytes([bgp[19], bgp[20]]), 0); // Withdrawn
    let pa_len = u16::from_be_bytes([bgp[21], bgp[22]]) as usize;
    let pas = &bgp[23..23 + pa_len];
    // original attributes survive (ORIGIN + ext communities)...
    assert_eq!(&pas[..4], &[0x40, 1, 1, 0]);
    assert_eq!(&pas[4..15], &[0xc0, 16, 8, 0x80, 0x06, 0, 0, 0, 0, 0, 0]);
    // ...followed by the synthesized MP_REACH
    let mp = &pas[15..];
    assert_eq!(mp[0], 0x80); // Optional
    assert_eq!(mp[1], 14); // MP_REACH_NLRI
    let value = &mp[3..3 + mp[2] as usize];
    assert_eq!(u16::from_be_bytes([value[0], value[1]]), 1); // AFI
    assert_eq!(value[2], 133); // SAFI
    assert_eq!(value[3], 0); // next hop length 0
    assert_eq!(value[4], 0); // reserved
    // length header + raw NLRI, byte-for-byte
    assert_eq!(value[5] as usize, FS_NLRI_A.len());
    assert_eq!(&value[6..], FS_NLRI_A);
    // nothing after the attributes
    assert_eq!(23 + pa_len, bgp.len());
}

/// Withdrawal: an UPDATE whose only attribute is MP_UNREACH_NLRI with
/// SAFI 133 and the NLRI bytes.
#[test]
fn flowspec_withdrawal_update_bytes() {
    let peer = agg_test_peer();
    let pamap = fs_pamap();
    let msg = build_flowspec_route_monitoring(
        &peer, true, FS_NLRI_A, &pamap, true, None,
    )
    .unwrap();
    let bgp = &msg[BODY..];
    assert_eq!(u16::from_be_bytes([bgp[19], bgp[20]]), 0); // Withdrawn
    let pa_len = u16::from_be_bytes([bgp[21], bgp[22]]) as usize;
    let pas = &bgp[23..23 + pa_len];
    assert_eq!(pas[0], 0x80);
    assert_eq!(pas[1], 15); // MP_UNREACH_NLRI: the only attribute
    let value = &pas[3..3 + pas[2] as usize];
    assert_eq!(u16::from_be_bytes([value[0], value[1]]), 1);
    assert_eq!(value[2], 133);
    assert_eq!(value[3] as usize, FS_NLRI_A.len());
    assert_eq!(&value[4..], FS_NLRI_A);
    assert_eq!(3 + pas[2] as usize, pa_len);
}

#[test]
fn oversized_flowspec_update_uses_extended_message() {
    let mut attrs = vec![0xd0, 99]; // optional, transitive, ext-length
    attrs.extend_from_slice(&4070u16.to_be_bytes());
    attrs.extend(vec![0u8; 4070]);
    let pamap = RotondaPaMap::from_attributes(&attrs);

    let msg = build_flowspec_route_monitoring(
        &agg_test_peer(),
        true,
        FS_NLRI_A,
        &pamap,
        false,
        None,
    )
    .expect("extended FlowSpec UPDATE must be emitted");
    let bgp = &msg[BODY..];
    let bgp_len = u16::from_be_bytes([bgp[16], bgp[17]]) as usize;
    assert_eq!(bgp_len, bgp.len());
    assert!(bgp_len > 4096);
    assert!(bgp_len <= MAX_BGP_UPDATE_LEN);
}

#[test]
fn flowspec_update_above_extended_limit_is_dropped() {
    let mut attrs = vec![0xd0, 99];
    attrs.extend_from_slice(&u16::MAX.to_be_bytes());
    attrs.extend(vec![0u8; u16::MAX as usize]);
    let pamap = RotondaPaMap::from_attributes(&attrs);

    assert!(build_flowspec_route_monitoring(
        &agg_test_peer(),
        true,
        FS_NLRI_A,
        &pamap,
        false,
        None,
    )
    .is_none());
}

#[test]
fn flowspec_eor_bytes() {
    let peer = agg_test_peer();
    let msg = build_end_of_rib_marker(&peer, AfiSafiType::Ipv4FlowSpec)
        .unwrap();
    let bgp = &msg[BODY..];
    let pa_len = u16::from_be_bytes([bgp[21], bgp[22]]) as usize;
    let pas = &bgp[23..23 + pa_len];
    // Empty MP_UNREACH: AFI 1, SAFI 133, no NLRI.
    assert_eq!(pas, &[0x80, 15, 3, 0x00, 0x01, 133]);
    // And the v6 variant carries AFI 2.
    let msg = build_end_of_rib_marker(&peer, AfiSafiType::Ipv6FlowSpec)
        .unwrap();
    let bgp = &msg[BODY..];
    let pa_len = u16::from_be_bytes([bgp[21], bgp[22]]) as usize;
    assert_eq!(&bgp[23..23 + pa_len], &[0x80, 15, 3, 0x00, 0x02, 133]);
}

#[test]
fn bgp_open_advertises_flowspec() {
    let open = build_bgp_open(
        65000,
        [0u8; 4],
        &OpenCapExtras::default(),
        &[
            AfiSafiType::Ipv4Unicast,
            AfiSafiType::Ipv6Unicast,
            AfiSafiType::Ipv4FlowSpec,
            AfiSafiType::Ipv6FlowSpec,
        ],
        false,
        &[],
    );
    let bgp_body = &open[19..];
    let opt_params_len = bgp_body[9] as usize;
    let caps = &bgp_body[12..10 + opt_params_len];
    let mut mp_caps: Vec<(u16, u8)> = Vec::new();
    let mut pos = 0;
    while pos < caps.len() {
        let code = caps[pos];
        let len = caps[pos + 1] as usize;
        if code == 1 {
            mp_caps.push((
                u16::from_be_bytes([caps[pos + 2], caps[pos + 3]]),
                caps[pos + 5],
            ));
        }
        pos += 2 + len;
    }
    assert!(mp_caps.contains(&(1, 1)));
    assert!(mp_caps.contains(&(2, 1)));
    assert!(mp_caps.contains(&(1, 133)));
    assert!(mp_caps.contains(&(2, 133)));
}

#[test]
fn peer_afisafis_follow_received_mp_capabilities() {
    let mut peer = agg_test_peer();
    assert_eq!(peer.supported_afisafis(), vec![AfiSafiType::Ipv4Unicast]);

    peer.peer_capabilities = vec![
        1, 4, 0, 2, 0, 1, // IPv6 unicast
        1, 4, 0, 1, 0, 133, // IPv4 FlowSpec
    ];
    assert_eq!(
        peer.supported_afisafis(),
        vec![
            AfiSafiType::Ipv4Unicast,
            AfiSafiType::Ipv6Unicast,
            AfiSafiType::Ipv4FlowSpec,
        ]
    );
    assert!(!peer.supports_afisafi(AfiSafiType::Ipv6FlowSpec));
}

#[test]
fn mrt_peer_advertises_reemittable_mp_families() {
    let mut info = IngressInfo::new();
    info.ingress_type = Some(IngressType::Mrt);
    let peer = PeerInfo::from_ingress_info(&info);

    assert_eq!(
        peer.supported_afisafis(),
        vec![
            AfiSafiType::Ipv4Unicast,
            AfiSafiType::Ipv6Unicast,
            AfiSafiType::Ipv4FlowSpec,
            AfiSafiType::Ipv6FlowSpec,
        ]
    );
}

/// FlowSpec path ids round-trip through routecore's ADD-PATH parser:
/// announce (MP_REACH) and withdraw (MP_UNREACH) for both families,
/// with the RFC 7911 path id preceding the RFC 8955 length header.
#[test]
fn flowspec_path_id_roundtrips_through_routecore() {
    let peer = agg_test_peer();
    let pamap = fs_pamap();
    let mut sc = SessionConfig::modern();
    sc.add_addpath_rxtx(OutsideFamily::Ipv4FlowSpec);
    sc.add_addpath_rxtx(OutsideFamily::Ipv6FlowSpec);

    for (is_v4, raw, pid, withdraw) in [
        (true, FS_NLRI_A, 7u32, false),
        (true, FS_NLRI_A, 7, true),
        (false, FS_NLRI_V6, 9, false),
        (false, FS_NLRI_V6, 9, true),
    ] {
        let msg = build_flowspec_route_monitoring(
            &peer,
            is_v4,
            raw,
            &pamap,
            withdraw,
            Some(pid),
        )
        .expect("message must build");
        let bgp = Bytes::copy_from_slice(&msg[BODY..]);
        let upd = UpdateMessage::from_octets(bgp, &sc)
            .expect("re-encoded UPDATE must parse");
        let nlri: Vec<Nlri<Bytes>> = if withdraw {
            upd.withdrawals().unwrap().map(|n| n.unwrap()).collect()
        } else {
            upd.announcements().unwrap().map(|n| n.unwrap()).collect()
        };
        assert_eq!(nlri.len(), 1, "v4={is_v4} withdraw={withdraw}");
        match &nlri[0] {
            Nlri::Ipv4FlowSpecAddpath(n) => {
                assert_eq!(n.path_id().0, pid);
                assert_eq!(n.nlri().raw().as_ref(), raw);
            }
            Nlri::Ipv6FlowSpecAddpath(n) => {
                assert_eq!(n.path_id().0, pid);
                assert_eq!(n.nlri().raw().as_ref(), raw);
            }
            other => panic!(
                "expected FlowSpec ADD-PATH NLRI \
                 (v4={is_v4} withdraw={withdraw}), got {other:?}"
            ),
        }
    }
}

/// NLRI of 240 bytes or more get the two-byte 0xFnnn length encoding.
#[test]
fn flowspec_long_nlri_two_byte_length() {
    // A syntactically irrelevant long blob: length encoding is what is
    // under test, and append_flowspec_nlri does not re-validate.
    let long_nlri = vec![0xaau8; 300];
    let mut buf = Vec::new();
    append_flowspec_nlri(&mut buf, &long_nlri, None);
    assert_eq!(buf.len(), 2 + 300);
    assert_eq!(u16::from_be_bytes([buf[0], buf[1]]), 0xf000 | 300u16);
    assert_eq!(&buf[2..], &long_nlri[..]);
    assert_eq!(flowspec_nlri_encoded_len(&long_nlri, false), 302);
}

#[test]
fn an_open_counts_its_optional_parameters() {
    let open_with = |value_len: u8| {
        let mut passthrough = vec![130, value_len];
        passthrough.extend(vec![7u8; value_len as usize]);
        let extras = OpenCapExtras { passthrough, ..OpenCapExtras::default() };
        build_bgp_open(65000, [1, 2, 3, 4], &extras, &[], false, &[])
    };
    // Eight octets of capabilities come before: 245 more just fit.
    let full = open_with(243);
    assert_eq!(full.len(), 284);
    assert_eq!((full[28], full[30]), (255, 253));
    // One octet more would overflow the length: the capability is left out.
    let short = open_with(244);
    assert_eq!(short.len(), 39);
    assert_eq!((short[28], short[30]), (10, 8));
    for open in [full, short] {
        assert_eq!(u16::from_be_bytes([open[16], open[17]]) as usize, open.len());
        assert_eq!(open[28] as usize, open.len() - 29);
        assert_eq!(open[30] as usize, open.len() - 31);
    }
}

#[test]
fn a_graceful_restart_capability_is_as_long_as_it_says() {
    let families =
        [AfiSafiType::Ipv4Unicast, AfiSafiType::Ipv6Unicast, AfiSafiType::Ipv4FlowSpec];
    let open = build_bgp_open(65000, [0; 4], &OpenCapExtras::default(), &families, true, &[]);
    // Behind eight octets and three multiprotocol capabilities of six each.
    assert_eq!(
        &open[31 + 8 + 18..],
        &[64, 14, 0, 0, 0, 1, 1, 0, 0, 2, 1, 0, 0, 1, 133, 0]
    );
    assert_eq!(open[30] as usize, open.len() - 31);
}
