use netom::evpn::{EvpnAttributes, EvpnNlri};
use netom::evpn_rows::EvpnFilter;
use netom::ingress::IngressInfo;
use netom::pamap::RotondaPaMap;
use netom::register::Register;
use netom::rib::Rib;
use netom::route::RotondaRoute;
use netom::types::{AfiSafiType, IngressType, IpAddress, Prefix, RouteStatus};

fn type5(rd: u8, label: u8) -> Vec<u8> {
    let mut b = vec![5, 34];
    b.extend_from_slice(&[0, 0, 0, 1, 0, 0, 0, rd]);
    b.extend_from_slice(&[0; 14]);
    b.push(24);
    b.extend_from_slice(&[10, 0, 0, 0, 0, 0, 0, 0, 0, 0, label]);
    b
}

fn v4(octets: [u8; 4], len: u8) -> Prefix {
    Prefix::new(IpAddress::V4(octets), len).unwrap()
}

#[test]
fn tenant_identity_and_label_changes() {
    let a = EvpnNlri::parse(&type5(1, 10)).unwrap();
    let b = EvpnNlri::parse(&type5(2, 10)).unwrap();
    let c = EvpnNlri::parse(&type5(1, 20)).unwrap();
    assert_eq!(a.prefix, b.prefix);
    assert_ne!(a.key, b.key);
    assert_eq!(a.key, c.key);
    assert_eq!(a.labels, vec![10]);
}

#[test]
fn evpn_mac_ip_two_vnis_and_ipv6_prefix() {
    let mut localhost = [0u8; 16];
    localhost[15] = 1;
    let mut raw = vec![2, 52];
    raw.extend_from_slice(&[0; 22]);
    raw.push(48);
    raw.extend_from_slice(&[0, 1, 2, 3, 4, 5]);
    raw.push(128);
    raw.extend_from_slice(&localhost);
    raw.extend_from_slice(&[0, 0, 10, 0, 0, 20]);
    let route = EvpnNlri::parse(&raw).unwrap();
    assert_eq!(route.labels, vec![10, 20]);
    assert_eq!(route.mac.as_deref(), Some("00:01:02:03:04:05"));
    assert_eq!(route.prefix, Prefix::new(IpAddress::V6(localhost), 128));
    raw[10] = 1; // ESI is not part of RT-2 route identity.
    raw[53] = 30;
    assert_eq!(route.key, EvpnNlri::parse(&raw).unwrap().key);

    let mut db8 = [0u8; 16];
    db8[..4].copy_from_slice(&[0x20, 0x01, 0x0d, 0xb8]);
    let mut raw = vec![5, 58];
    raw.extend_from_slice(&[0; 22]);
    raw.push(64);
    raw.extend_from_slice(&db8);
    raw.extend_from_slice(&[0; 16]);
    raw.extend_from_slice(&[0, 1, 0]);
    let route = EvpnNlri::parse(&raw).unwrap();
    assert_eq!(route.prefix, Prefix::new(IpAddress::V6(db8), 64));
    assert_eq!(route.labels, vec![256]);
}

#[test]
fn evpn_overlay_metadata() {
    let attrs = RotondaPaMap::from_attributes(&[
        0xc0, 16, 24, 0, 2, 0xfd, 0xe8, 0, 0, 0, 10, 2, 2, 0, 1, 0, 0, 0, 20, 6, 3, 0, 1, 2, 3, 4,
        5,
    ]);
    let overlay = EvpnAttributes::decode(&attrs);
    assert_eq!(overlay.route_targets, vec!["65000:10", "65536:20"]);
    assert_eq!(overlay.router_mac.as_deref(), Some("00:01:02:03:04:05"));
}

#[test]
fn truncated_routes_are_rejected() {
    let b = type5(1, 10);
    for len in 0..b.len() {
        assert!(EvpnNlri::parse(&b[..len]).is_err());
    }
}

#[test]
fn a_route_distinguisher_is_spelled_by_its_type() {
    let spelled = |rd: [u8; 8]| {
        let mut raw = type5(1, 10);
        raw[2..10].copy_from_slice(&rd);
        EvpnNlri::parse(&raw).unwrap().rd
    };
    assert_eq!(spelled([0, 0, 0xfd, 0xe8, 0, 0, 0, 7]), "65000:7");
    assert_eq!(spelled([0, 1, 192, 0, 2, 1, 0, 9]), "192.0.2.1:9");
    assert_eq!(spelled([0, 2, 0, 1, 0, 0, 0, 9]), "65536:9");
}

#[test]
fn a_route_of_an_unknown_type_is_known_by_its_octets() {
    let mut raw = type5(1, 10);
    raw[0] = 99;
    let route = EvpnNlri::parse(&raw).unwrap();
    assert_eq!(route.rd, "1:1");
    assert_eq!(route.prefix, None);
    assert_eq!(route.key, raw);
    // A route whose length is not that of its octets is none.
    raw.push(0);
    assert!(EvpnNlri::parse(&raw).is_err());
}

#[test]
fn an_inclusive_multicast_route_names_its_originator() {
    let mut raw = vec![3, 17];
    raw.extend_from_slice(&[0, 0, 0, 1, 0, 0, 0, 7]);
    raw.extend_from_slice(&[0, 0, 0, 5]);
    raw.extend_from_slice(&[32, 192, 0, 2, 9]);
    let route = EvpnNlri::parse(&raw).unwrap();
    assert_eq!(route.route_type, 3);
    assert_eq!(route.ethernet_tag, Some(5));
    assert_eq!(route.rd, "1:7");
    assert!(route.labels.is_empty());
}

fn insert(rib: &mut Rib, tenant: u8, ingress: u32) {
    let attributes =
        RotondaPaMap::from_attributes(&[0xc0, 16, 8, 0, 2, 0xfd, 0xe8, 0, 0, 0, tenant]);
    let mut raw = vec![5, 34];
    raw.extend_from_slice(&[0, 0, 0, 1, 0, 0, 0, tenant]);
    raw.extend_from_slice(&[0; 14]);
    raw.extend_from_slice(&[24, 10, 0, 0, 0, 0, 0, 0, 0, 0, 0, tenant]);
    let route = RotondaRoute::L2VpnEvpn(EvpnNlri::parse(&raw).unwrap(), attributes);
    rib.insert(&route, RouteStatus::Active, 0, ingress, true, false).unwrap();
}

#[test]
fn evpn_api_filters_overlapping_tenants() {
    let mut rib = Rib::new(Register::new()).unwrap();
    for tenant in [1u8, 2] {
        insert(&mut rib, tenant, 10);
    }
    assert_eq!(rib.evpn_rows(&EvpnFilter::default()).len(), 2);
    let filter = EvpnFilter {
        route_target: Some("65000:1".to_string()),
        prefix: Some(v4([10, 0, 0, 0], 24)),
        route_type: Some(5),
        vni: Some(1),
        rd: Some("1:1".to_string()),
        ingress_id: Some(10),
        include_withdrawn: false,
    };
    let rows = rib.evpn_rows(&filter);
    assert_eq!(rows.len(), 1);
    assert_eq!(rows[0].route.nlri.rd, "1:1");
    assert_eq!(rows[0].source_ingress_id, 10);
    let filter = EvpnFilter { vni: Some(2), ..filter };
    assert!(rib.evpn_rows(&filter).is_empty());
    rib.withdraw_for_ingress(10, Some(AfiSafiType::L2VpnEvpn), true);
    assert!(rib.evpn_rows(&EvpnFilter::default()).is_empty());
    assert_eq!(
        rib.evpn_rows(&EvpnFilter { include_withdrawn: true, ..Default::default() }).len(),
        2
    );
}

#[test]
fn rows_come_by_key_and_then_by_ingress() {
    let mut rib = Rib::new(Register::new()).unwrap();
    for (tenant, ingress) in [(2, 10), (1, 11), (2, 9), (1, 10)] {
        insert(&mut rib, tenant, ingress);
    }
    let seen: Vec<(String, u32)> = rib
        .evpn_rows(&EvpnFilter::default())
        .into_iter()
        .map(|r| (r.route.nlri.rd, r.route.ingress_id))
        .collect();
    let want: Vec<(String, u32)> = [("1:1", 10), ("1:1", 11), ("1:2", 9), ("1:2", 10)]
        .into_iter()
        .map(|(rd, id)| (rd.to_string(), id))
        .collect();
    assert_eq!(seen, want);
}

#[test]
fn a_path_shows_its_session() {
    let mut rib = Rib::new(Register::new()).unwrap();
    let mut info = IngressInfo::new();
    info.ingress_type = Some(IngressType::BgpPath);
    info.parent_ingress = Some(77);
    info.path_id = Some(5);
    rib.ingress_register.update_info(10, info);
    insert(&mut rib, 1, 10);
    let rows = rib.evpn_rows(&EvpnFilter::default());
    assert_eq!(rows[0].source_ingress_id, 77);
    assert_eq!(rows[0].path_id, Some(5));
    // A query asks for the ingress that the route is stored under.
    let by_session = EvpnFilter { ingress_id: Some(77), ..Default::default() };
    let by_path = EvpnFilter { ingress_id: Some(10), ..Default::default() };
    assert!(rib.evpn_rows(&by_session).is_empty());
    assert_eq!(rib.evpn_rows(&by_path).len(), 1);
}

#[test]
fn routes_with_the_same_key_are_the_same() {
    let a = EvpnNlri::parse(&type5(1, 7)).unwrap();
    let b = EvpnNlri::parse(&type5(1, 9)).unwrap();
    let c = EvpnNlri::parse(&type5(2, 7)).unwrap();
    assert_eq!(a.key, b.key);
    assert_eq!((a.rd, a.ethernet_tag, a.prefix), (b.rd, b.ethernet_tag, b.prefix));
    assert_ne!(b.key, c.key);
}

#[test]
fn ipv6_prefixes_have_keys_of_their_own() {
    let route = |octets: [u8; 16], len: u8| {
        let mut b = vec![5, 58];
        b.extend_from_slice(&[0, 0, 0, 1, 0, 0, 0, 1]);
        b.extend_from_slice(&[0; 14]);
        b.push(len);
        b.extend_from_slice(&octets);
        b.extend_from_slice(&[0; 19]);
        EvpnNlri::parse(&b).unwrap()
    };
    let mut db8 = [0u8; 16];
    db8[..4].copy_from_slice(&[0x20, 0x01, 0x0d, 0xb8]);
    let mut db9 = db8;
    db9[3] = 0xb9;
    let mut mapped = [0u8; 16];
    mapped[10..].copy_from_slice(&[0xff, 0xff, 10, 0, 0, 0]);
    let four = EvpnNlri::parse(&type5(1, 7)).unwrap();
    let routes = [
        route(db8, 32),
        route(db8, 33),
        route(db9, 32),
        route([0; 16], 0),
        route([0; 16], 128),
        route(mapped, 104),
        route(mapped, 128),
        four,
    ];
    for (i, a) in routes.iter().enumerate() {
        for (j, b) in routes.iter().enumerate() {
            assert_eq!(a.key == b.key, i == j);
        }
    }
    assert_eq!(route(db8, 32).key, routes[0].key);
    assert!(routes[0].key.ends_with(b"2001:db8::/32"));
}
