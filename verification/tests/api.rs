use std::cell::RefCell;

use netom::api::{
    admit_dump, admit_evpn_query, admit_flowspec_query, build_flowspec_response,
    check_best_path_filter, check_flowspec_filter, plan_search, register_routes, Api, ApiError,
    FlowSpecRow, Handler, SearchPlan,
};
use netom::explode::mk_flowspec_route;
use netom::filter::RouteSource;
use netom::flowspec::FlowSpecValidity;
use netom::ingress::IngressInfo;
use netom::jsonl::Section;
use netom::pamap::RotondaPaMap;
use netom::query::{Include, OutputFormat, QueryFilter, UnknownInclude};
use netom::register::Register;
use netom::rib::Rib;
use netom::rib_query::{ActiveDumps, DumpGuard, MAX_CONCURRENT_DUMPS};
use netom::route::RotondaRoute;
use netom::store::{MatchOptions, MatchType};
use netom::types::{
    AfiSafiType, IngressId, IngressState, IngressType, IpAddress, PeerRibType, Prefix, RouteStatus,
};

fn v4(octets: [u8; 4], len: u8) -> Prefix {
    Prefix::new(IpAddress::V4(octets), len).unwrap()
}

/// No filter function.
const NONE: Option<&fn(&RotondaPaMap) -> bool> = None;

fn bad_request<T: std::fmt::Debug>(r: Result<T, ApiError>) -> String {
    match r {
        Err(ApiError::BadRequest(message)) => message,
        other => panic!("expected a refusal, got {other:?}"),
    }
}

fn unavailable<T: std::fmt::Debug>(r: Result<T, ApiError>) -> String {
    match r {
        Err(ApiError::ServiceUnavailable(message)) => message,
        other => panic!("expected to be turned away, got {other:?}"),
    }
}

#[test]
fn flowspec_filters_are_either_applied_or_rejected() {
    assert!(check_flowspec_filter(&QueryFilter::default()).is_ok());

    let unsupported = QueryFilter {
        origin_asn: Some(64500),
        format: OutputFormat::Jsonl,
        ..QueryFilter::default()
    };
    let Err(ApiError::BadRequest(message)) = check_flowspec_filter(&unsupported) else {
        panic!("unsupported FlowSpec filters must return BadRequest");
    };
    assert!(message.contains("filter[originAsn]"));
    assert!(message.contains("format"));
    assert_eq!(message, "unsupported FlowSpec query parameter(s): filter[originAsn], format");
}

#[test]
fn flowspec_row_exposes_addpath_source_without_breaking_ingress_id() {
    let session = 5u32;
    let child = 9u32;
    let mut child_info = IngressInfo::new();
    child_info.ingress_type = Some(IngressType::BgpPath);
    child_info.parent_ingress = Some(session);
    child_info.path_id = Some(123);
    let row = FlowSpecRow {
        key_prefix: "192.0.2.0/24".into(),
        ingress_id: child,
        source: RouteSource::resolve(child, Some(&child_info)),
        validity: FlowSpecValidity::Valid,
        nlri: "destination 192.0.2.0/24".into(),
        nlri_hex: "0118c00002".into(),
        attributes: RotondaPaMap::empty_path_attributes(),
    };

    assert_eq!(row.ingress_id, child);
    assert_eq!(row.source.ingress_id, session);
    assert_eq!(row.source.path_id, Some(123));
    assert_eq!(row.source.internal_path_ingress_id, Some(child));
}

#[test]
fn families_by_name_come_before_families_in_general() {
    let mut api = Api::new();
    register_routes(&mut api);
    assert_eq!(api.gets.len(), 14);
    assert_eq!(api.gets[0], ("/ribs/l2vpnevpn/routes", Handler::SearchEvpn));
    assert_eq!(
        api.gets[1],
        ("/ribs/ipv4unicast/routes/{prefix}/{prefix_len}", Handler::SearchIpv4Unicast)
    );
    assert_eq!(api.gets[13], ("/ribs/{afisafi}/routes", Handler::GenericAfisafiAll));
}

#[test]
fn only_so_many_dumps_go_on_at_once() {
    let mut active = ActiveDumps::new();
    let mut guards = Vec::new();
    for _ in 0..MAX_CONCURRENT_DUMPS {
        guards.push(DumpGuard::try_enter(&mut active).unwrap());
    }
    assert_eq!(DumpGuard::active(&active), 8);
    assert!(DumpGuard::try_enter(&mut active).is_none());
    let rib = Rib::new(Register::new()).unwrap();
    assert_eq!(
        unavailable(admit_flowspec_query(&QueryFilter::default(), &mut active)),
        "too many concurrent RIB queries in progress; retry shortly"
    );
    assert_eq!(
        unavailable(admit_evpn_query(&mut active)),
        "too many concurrent RIB queries"
    );
    assert_eq!(
        unavailable(admit_dump(
            &rib,
            AfiSafiType::Ipv4Unicast,
            &QueryFilter::default(),
            false,
            &mut active
        )),
        "too many concurrent RIB dumps in progress; retry shortly"
    );
    // A dump that must not be refused goes on top of the limit.
    guards.push(DumpGuard::enter(&mut active));
    assert_eq!(DumpGuard::active(&active), 9);
    for guard in guards {
        guard.leave(&mut active);
    }
    assert_eq!(DumpGuard::active(&active), 0);
    assert!(admit_evpn_query(&mut active).is_ok());
}

#[test]
fn a_whole_table_is_only_written_out_line_by_line() {
    let all = v4([0, 0, 0, 0], 0);
    let mut filter = QueryFilter::default();
    assert_eq!(plan_search(&all, &filter).unwrap(), SearchPlan::Search);
    filter.enable_more_specifics();
    filter.enable_more_specifics();
    assert_eq!(filter.included, vec![Include::MoreSpecifics]);
    assert_eq!(
        bad_request(plan_search(&all, &filter)),
        "full-RIB dump (/0 with moreSpecifics) requires format=jsonl so it can be streamed within bounded memory"
    );
    assert_eq!(plan_search(&v4([10, 0, 0, 0], 8), &filter).unwrap(), SearchPlan::Search);
    filter.format = OutputFormat::Jsonl;
    assert_eq!(plan_search(&all, &filter).unwrap(), SearchPlan::StreamAll);
}

#[test]
fn best_path_takes_no_shape() {
    assert!(check_best_path_filter(&QueryFilter::default()).is_ok());
    let mut filter = QueryFilter { format: OutputFormat::Jsonl, ..QueryFilter::default() };
    assert!(bad_request(check_best_path_filter(&filter)).starts_with("best-path answers JSON only"));
    filter.enable_more_specifics();
    assert!(bad_request(check_best_path_filter(&filter)).starts_with("include is not supported"));
}

#[test]
fn what_to_show_is_known_by_name() {
    assert_eq!(Include::parse("moreSpecifics"), Ok(Include::MoreSpecifics));
    assert_eq!("lessSpecifics".parse::<Include>(), Ok(Include::LessSpecifics));
    assert_eq!(Include::parse("morespecifics"), Err(UnknownInclude));
    assert_eq!(UnknownInclude.message(), "unknown include");
}

/// A table with two sessions, one of which has a path of its own.
fn filled() -> (Rib, IngressId, IngressId, IngressId) {
    let mut rib = Rib::new(Register::new()).unwrap();
    let router = rib.ingress_register.register();
    let one = rib.ingress_register.register();
    let path = rib.ingress_register.register();
    let two = rib.ingress_register.register();
    let mut info = IngressInfo::new();
    info.ingress_type = Some(IngressType::Bmp);
    rib.ingress_register.update_info(router, info);
    let mut info = IngressInfo::new();
    info.ingress_type = Some(IngressType::BgpViaBmp);
    info.parent_ingress = Some(router);
    info.state = Some(IngressState::Connected);
    info.remote_asn = Some(65001);
    info.remote_addr = Some(IpAddress::V4([10, 9, 9, 1]));
    info.peer_rib_type = Some(PeerRibType::InPost);
    rib.ingress_register.update_info(one, info);
    let mut info = IngressInfo::new();
    info.ingress_type = Some(IngressType::BgpPath);
    info.parent_ingress = Some(one);
    info.path_id = Some(7);
    info.remote_asn = Some(65001);
    info.remote_addr = Some(IpAddress::V4([10, 9, 9, 1]));
    rib.ingress_register.update_info(path, info);
    let mut info = IngressInfo::new();
    info.ingress_type = Some(IngressType::Bgp);
    info.state = Some(IngressState::Disconnected);
    info.remote_asn = Some(65002);
    info.remote_addr = Some(IpAddress::V4([10, 9, 9, 2]));
    rib.ingress_register.update_info(two, info);

    // AS_PATH 65001 64512, community 65001:1, large community 1:2:3, OTC 9.
    let rich = RotondaPaMap::from_attributes(&[
        0x40, 1, 1, 0, //
        0x40, 2, 10, 2, 2, 0, 0, 0xfd, 0xe9, 0, 0, 0xfc, 0, //
        0xc0, 8, 4, 0xfd, 0xe9, 0, 1, //
        0xc0, 32, 12, 0, 0, 0, 1, 0, 0, 0, 2, 0, 0, 0, 3, //
        0xc0, 35, 4, 0, 0, 0, 9,
    ]);
    let plain = RotondaPaMap::empty_path_attributes;
    for (prefix, pamap, id) in [
        (v4([10, 0, 0, 0], 8), rich.clone(), one),
        (v4([10, 0, 0, 0], 8), plain(), two),
        (v4([10, 1, 0, 0], 16), plain(), path),
        (v4([10, 1, 2, 0], 24), plain(), two),
        (v4([192, 0, 2, 0], 24), plain(), two),
    ] {
        let route = RotondaRoute::Ipv4Unicast(prefix, pamap);
        rib.insert(&route, RouteStatus::Active, 1, id, false, false).unwrap();
    }
    (rib, one, path, two)
}

fn found(rib: &Rib, prefix: Prefix, filter: QueryFilter) -> Vec<IngressId> {
    let answer = rib.search_routes(AfiSafiType::Ipv4Unicast, prefix, filter, NONE).unwrap();
    let mut ids: Vec<IngressId> =
        answer.query_result.records.iter().map(|r| r.multi_uniq_id).collect();
    ids.sort_unstable();
    ids
}

#[test]
fn each_filter_lets_only_its_routes_pass() {
    let (rib, one, path, two) = filled();
    let p = v4([10, 0, 0, 0], 8);
    let all = QueryFilter::default;
    assert_eq!(found(&rib, p, all()), vec![one, two]);
    assert_eq!(found(&rib, p, QueryFilter { ingress_id: Some(two), ..all() }), vec![two]);
    assert_eq!(found(&rib, p, QueryFilter { origin_asn: Some(64512), ..all() }), vec![one]);
    assert!(found(&rib, p, QueryFilter { origin_asn: Some(65001), ..all() }).is_empty());
    assert_eq!(found(&rib, p, QueryFilter { otc: Some(9), ..all() }), vec![one]);
    assert_eq!(found(&rib, p, QueryFilter { community: Some(0xfde9_0001), ..all() }), vec![one]);
    assert!(found(&rib, p, QueryFilter { community: Some(0xfde9_0002), ..all() }).is_empty());
    assert_eq!(found(&rib, p, QueryFilter { large_community: Some((1, 2, 3)), ..all() }), vec![one]);
    assert!(found(&rib, p, QueryFilter { large_community: Some((1, 2, 4)), ..all() }).is_empty());
    assert_eq!(found(&rib, p, QueryFilter { peer_asn: Some(65002), ..all() }), vec![two]);
    assert_eq!(
        found(&rib, p, QueryFilter { peer_addr: Some(IpAddress::V4([10, 9, 9, 1])), ..all() }),
        vec![one]
    );
    assert_eq!(
        found(&rib, p, QueryFilter { rib_type: Some(PeerRibType::InPost), ..all() }),
        vec![one]
    );
    assert_eq!(
        found(&rib, p, QueryFilter { ingress_type: Some(IngressType::Bmp), ..all() }),
        vec![one]
    );
    assert_eq!(
        found(
            &rib,
            v4([10, 1, 0, 0], 16),
            QueryFilter { ingress_type: Some(IngressType::BgpViaBmp), ..all() }
        ),
        vec![path]
    );
}

#[test]
fn a_query_shows_what_is_around_a_prefix() {
    let (rib, one, path, _) = filled();
    let filter = QueryFilter {
        included: vec![Include::MoreSpecifics, Include::LessSpecifics],
        ..QueryFilter::default()
    };
    let answer = rib
        .search_and_output_routes(AfiSafiType::Ipv4Unicast, v4([10, 1, 0, 0], 16), filter, NONE)
        .unwrap();
    let result = &answer.query_result;
    assert_eq!(result.prefix, Some(v4([10, 1, 0, 0], 16)));
    let prefixes = |set: &Vec<netom::store::PrefixRecord<RotondaPaMap>>| {
        set.iter().map(|pr| pr.prefix).collect::<Vec<_>>()
    };
    assert_eq!(prefixes(result.more_specifics.as_ref().unwrap()), vec![v4([10, 1, 2, 0], 24)]);
    assert_eq!(prefixes(result.less_specifics.as_ref().unwrap()), vec![v4([10, 0, 0, 0], 8)]);
    assert_eq!(answer.route_source(path).ingress_id, one);
    assert_eq!(answer.ingress_info(path).unwrap().path_id, Some(7));
    assert_eq!(answer.query_filter().included.len(), 2);

    let lines = answer.write_jsonl();
    let told: Vec<(&str, IngressId)> =
        lines.iter().map(|l| (l.section.name(), l.ingress_id)).collect();
    assert_eq!(told.iter().filter(|(s, _)| *s == "data").count(), 1);
    assert_eq!(told.iter().filter(|(s, _)| *s == "moreSpecifics").count(), 1);
    assert_eq!(told.iter().filter(|(s, _)| *s == "lessSpecifics").count(), 2);
    assert!(lines.iter().all(|l| l.status.name() == "active"));
    assert_eq!(lines[0].source.path_id, Some(7));
}

#[test]
fn the_names_of_statuses_are_lower_case() {
    assert_eq!(RouteStatus::Withdrawn.name(), "withdrawn");
    assert_eq!(RouteStatus::InActive.name(), "inactive");
    assert_eq!(Section::LessSpecifics.name(), "lessSpecifics");
}

#[test]
fn an_unsupported_family_or_function_is_refused() {
    let (rib, ..) = filled();
    let p = v4([10, 0, 0, 0], 8);
    let e = rib
        .search_routes(AfiSafiType::Ipv4FlowSpec, p, QueryFilter::default(), NONE)
        .unwrap_err();
    assert_eq!(e, "address family Ipv4FlowSpec unsupported");
    let named = || QueryFilter {
        roto_function: Some("only_mine".to_string()),
        ..QueryFilter::default()
    };
    let e = rib.search_routes(AfiSafiType::Ipv4Unicast, p, named(), NONE).unwrap_err();
    assert_eq!(e, "no roto function 'only_mine' defined");
    let e = rib
        .search_and_output_routes(AfiSafiType::Ipv4Unicast, p, named(), NONE)
        .unwrap_err();
    assert_eq!(e, "store error: no roto function 'only_mine' defined");
    let mut active = ActiveDumps::new();
    assert_eq!(
        bad_request(admit_dump(&rib, AfiSafiType::Ipv4Unicast, &named(), false, &mut active)),
        "no roto function 'only_mine' defined"
    );
    assert_eq!(DumpGuard::active(&active), 0);
}

#[test]
fn a_filter_function_keeps_what_it_accepts() {
    let (rib, one, ..) = filled();
    let p = v4([10, 0, 0, 0], 8);
    let long = |m: &RotondaPaMap| m.raw.len() > 2;
    let named = || QueryFilter {
        roto_function: Some("only_long".to_string()),
        included: vec![Include::MoreSpecifics],
        ..QueryFilter::default()
    };
    let answer = rib.search_routes(AfiSafiType::Ipv4Unicast, p, named(), Some(&long)).unwrap();
    let ids: Vec<IngressId> =
        answer.query_result.records.iter().map(|r| r.multi_uniq_id).collect();
    assert_eq!(ids, vec![one]);
    // No more specific prefix keeps a record.
    assert_eq!(answer.query_result.more_specifics.unwrap().len(), 0);
    // The function and the other conditions both have to let a record pass.
    let other = QueryFilter { origin_asn: Some(1), ..named() };
    let answer = rib.search_routes(AfiSafiType::Ipv4Unicast, p, other, Some(&long)).unwrap();
    assert!(answer.query_result.records.is_empty());
    // A function that is not asked for is not called.
    let never = |_: &RotondaPaMap| -> bool { panic!("not asked for") };
    let plain = QueryFilter::default();
    let answer = rib.search_routes(AfiSafiType::Ipv4Unicast, p, plain, Some(&never)).unwrap();
    assert_eq!(answer.query_result.records.len(), 2);

    let mut active = ActiveDumps::new();
    let guard =
        admit_dump(&rib, AfiSafiType::Ipv4Unicast, &named(), true, &mut active).unwrap();
    guard.leave(&mut active);
    let all = v4([0, 0, 0, 0], 0);
    let refused = rib.jsonl_stream(AfiSafiType::Ipv4Unicast, all, named(), false);
    assert_eq!(refused.unwrap_err(), "no roto function 'only_long' defined");
    let mut stream = rib.jsonl_stream(AfiSafiType::Ipv4Unicast, all, named(), true).unwrap();
    let mut left = Vec::new();
    while !stream.done() {
        for pr in rib.write_jsonl_stream(&mut stream, Some(&long)) {
            left.push((pr.prefix, pr.meta.iter().map(|r| r.multi_uniq_id).collect::<Vec<_>>()));
        }
    }
    assert_eq!(left, vec![(p, vec![one])]);
}

#[test]
fn a_filter_function_is_asked_only_about_admitted_records() {
    let (rib, one, ..) = filled();
    let p = v4([10, 0, 0, 0], 8);
    let asked = RefCell::new(Vec::new());
    let note = |m: &RotondaPaMap| {
        asked.borrow_mut().push(m.raw.len());
        true
    };
    let named = || QueryFilter {
        roto_function: Some("note".to_string()),
        included: vec![Include::MoreSpecifics],
        peer_asn: Some(65001),
        ..QueryFilter::default()
    };
    let answer = rib.search_routes(AfiSafiType::Ipv4Unicast, p, named(), Some(&note)).unwrap();
    let ids: Vec<IngressId> =
        answer.query_result.records.iter().map(|r| r.multi_uniq_id).collect();
    assert_eq!(ids, vec![one]);
    // Two records are of the other session: neither was asked about.
    let first = answer.query_result.records[0].meta.raw.len();
    assert_eq!(asked.borrow().clone(), vec![first, 2]);

    // What the attributes decide comes after the function.
    asked.borrow_mut().clear();
    let other = QueryFilter { origin_asn: Some(1), ..named() };
    let answer = rib.search_routes(AfiSafiType::Ipv4Unicast, p, other, Some(&note)).unwrap();
    assert!(answer.query_result.records.is_empty());
    assert_eq!(asked.borrow().len(), 2);

    asked.borrow_mut().clear();
    let all = v4([0, 0, 0, 0], 0);
    let mut stream = rib.jsonl_stream(AfiSafiType::Ipv4Unicast, all, named(), true).unwrap();
    let mut left = 0;
    while !stream.done() {
        left += rib.write_jsonl_stream(&mut stream, Some(&note)).len();
    }
    assert_eq!((left, asked.borrow().len()), (2, 2));
}

#[test]
fn a_best_path_is_chosen_among_the_longest_match() {
    let (rib, _, _, two) = filled();
    let addr = IpAddress::V4([10, 1, 2, 3]);
    let host = v4([10, 1, 2, 3], 32);
    let best = rib
        .best_path(AfiSafiType::Ipv4Unicast, host, Some(addr), QueryFilter::default(), NONE)
        .unwrap();
    assert_eq!(best.search.query_result.prefix, Some(v4([10, 1, 2, 0], 24)));
    assert!(!best.exact_match);
    assert_eq!(best.total, 1);
    assert_eq!(best.search.query_result.records[0].multi_uniq_id, two);
    let best = rib
        .best_path(
            AfiSafiType::Ipv4Unicast,
            v4([10, 0, 0, 0], 8),
            None,
            QueryFilter::default(),
            NONE,
        )
        .unwrap();
    assert!(best.exact_match);
    assert_eq!(best.total, 2);
}

#[test]
fn a_table_is_written_out_prefix_by_prefix() {
    let (rib, _, path, _) = filled();
    let all = v4([0, 0, 0, 0], 0);
    let mut stream =
        rib.jsonl_stream(AfiSafiType::Ipv4Unicast, all, QueryFilter::default(), false).unwrap();
    let mut routes = 0;
    let mut from_path = 0;
    while !stream.done() {
        let chunk = rib.write_jsonl_stream(&mut stream, NONE);
        for pr in &chunk {
            for line in stream.lines(pr) {
                routes += 1;
                assert_eq!(line.section, Section::MoreSpecifics);
                if line.ingress_id == path {
                    from_path += 1;
                    assert_eq!(line.source.path_id, Some(7));
                }
            }
        }
    }
    assert_eq!((routes, from_path), (5, 1));

    let only = QueryFilter { ingress_id: Some(path), ..QueryFilter::default() };
    let mut stream = rib.jsonl_stream(AfiSafiType::Ipv4Unicast, all, only, false).unwrap();
    let mut routes = 0;
    while !stream.done() {
        let chunk = rib.write_jsonl_stream(&mut stream, NONE);
        routes += chunk.iter().map(|p| p.meta.len()).sum::<usize>();
    }
    assert_eq!(routes, 1);
}

#[test]
fn multicast_answers_where_unicast_has_nothing() {
    let mut rib = Rib::new(Register::new()).unwrap();
    let p = v4([224, 0, 0, 0], 4);
    let route = RotondaRoute::Ipv4Multicast(p, RotondaPaMap::empty_path_attributes());
    rib.insert(&route, RouteStatus::Active, 1, 3, false, false).unwrap();
    let options = MatchOptions {
        match_type: MatchType::ExactMatch,
        include_withdrawn: false,
        include_less_specifics: false,
        include_more_specifics: false,
        mui: None,
    };
    assert_eq!(rib.match_prefix(&p, &options).records.len(), 1);
    assert!(rib.match_ingress_id(3).is_empty());
    assert!(rib.iter_all_prefix_records().is_empty());
}

#[test]
fn the_routes_of_an_ingress_are_found() {
    let (rib, one, _, two) = filled();
    assert_eq!(rib.match_ingress_id(two).len(), 3);
    assert_eq!(rib.match_ingress_id(one).len(), 1);
    let mut cursor = rib.prefix_stream();
    let mut prefixes = 0;
    while !cursor.done() {
        prefixes += rib.stream_prefix_records(&mut cursor).len();
    }
    assert_eq!(prefixes, 4);
}

#[test]
fn stores_and_ingresses_are_counted() {
    let (mut rib, _, _, two) = filled();
    let rule = mk_flowspec_route(AfiSafiType::Ipv4FlowSpec, vec![3, 0x81, 17], &[1, 2]).unwrap();
    rib.insert(&rule, RouteStatus::Active, 1, two, false, false).unwrap();
    let gone = RotondaRoute::Ipv4Unicast(
        v4([192, 0, 2, 0], 24),
        RotondaPaMap::empty_path_attributes(),
    );
    rib.insert(&gone, RouteStatus::Withdrawn, 2, two, false, false).unwrap();
    let counts = rib.store_counts();
    assert_eq!(counts.iter().map(|c| c.name).collect::<Vec<_>>(), vec!["unicast", "multicast", "flowspec"]);
    assert_eq!(counts[0].prefixes, 4);
    assert_eq!(counts[0].routes, 5);
    assert_eq!(counts[2].routes, 1);

    let report = rib.report_memory(true);
    assert_eq!(report.ingresses.total, 4);
    assert_eq!(report.ingresses.connected, 1);
    assert_eq!(report.ingresses.disconnected, 1);
    assert_eq!(report.ingresses.bgp_path, 1);
    let (rules, unicast, multicast) = report.split.unwrap();
    assert_eq!(rules.rules, 1);
    assert_eq!(rules.store_muis, 1);
    assert_eq!((unicast.active, unicast.withdrawn), (4, 1));
    assert_eq!(unicast.store_muis, 3);
    assert_eq!(unicast.max, 3);
    assert_eq!(unicast.top[0], (two, 3));
    assert_eq!(unicast.over_100k, 0);
    assert_eq!((multicast.active, multicast.store_muis), (0, 0));
    assert!(rib.report_memory(false).split.is_none());
}

#[test]
fn flowspec_rules_are_told_in_rows() {
    let mut rib = Rib::new(Register::new()).unwrap();
    let nlri = vec![0x01, 0x18, 10, 0, 1, 0x03, 0x81, 0x11];
    let rule = mk_flowspec_route(AfiSafiType::Ipv4FlowSpec, nlri, &[0x40, 1, 1, 0]).unwrap();
    rib.insert(&rule, RouteStatus::Active, 1, 3, false, false).unwrap();
    // A rule that cannot be read is told of last.
    let malformed =
        RotondaRoute::Ipv4FlowSpec(vec![0xff], RotondaPaMap::empty_path_attributes());
    rib.insert(&malformed, RouteStatus::Active, 1, 2, false, false).unwrap();
    let rows = build_flowspec_response(&rib, true, None, &QueryFilter::default()).unwrap();
    assert_eq!(rows.len(), 2);
    assert_eq!(rows[0].key_prefix, "10.0.1.0/24");
    assert_eq!(rows[0].nlri, "FLOWSPEC-NLRI");
    assert_eq!(rows[0].nlri_hex, "0118 0a00 0103 8111".replace(' ', ""));
    assert_eq!(rows[0].validity, FlowSpecValidity::Invalid);
    assert_eq!(&rows[0].attributes.raw[2..], &[0x40, 1, 1, 0]);
    assert_eq!(rows[1].nlri, "<malformed>");
    assert_eq!(rows[1].key_prefix, "0.0.0.0/0");
    let typed = QueryFilter { ingress_type: Some(IngressType::Bgp), ..QueryFilter::default() };
    assert!(build_flowspec_response(&rib, true, None, &typed).unwrap().is_empty());
}

#[test]
fn an_answer_with_too_many_rules_is_refused() {
    let mut rib = Rib::new(Register::new()).unwrap();
    for id in 0..10_001u32 {
        let nlri = vec![0x03, 0x81, (id % 200) as u8, 0x05, 0x91, (id / 256) as u8, (id % 256) as u8];
        let rule = RotondaRoute::Ipv4FlowSpec(nlri, RotondaPaMap::empty_path_attributes());
        rib.insert(&rule, RouteStatus::Active, 1, id / 50, false, false).unwrap();
    }
    let text = bad_request(build_flowspec_response(&rib, true, None, &QueryFilter::default()));
    assert!(text.ends_with("; narrow the query"), "{text}");
    let one = QueryFilter { ingress_id: Some(3), ..QueryFilter::default() };
    assert_eq!(build_flowspec_response(&rib, true, None, &one).unwrap().len(), 50);
}

#[test]
fn ingress_type_is_parsed_from_the_query_string() {
    let parse = |query: &str| -> Result<Option<IngressType>, String> {
        match query.split_once('=') {
            Some(("filter[ingressType]", name)) => {
                IngressType::parse(name).map(Some).ok_or_else(|| name.to_string())
            }
            _ => Ok(None),
        }
    };

    assert_eq!(parse("filter[ingressType]=bgpViaBmp").unwrap(), Some(IngressType::BgpViaBmp));
    assert_eq!(parse("filter[ingressType]=bgp").unwrap(), Some(IngressType::Bgp));
    assert_eq!(parse("format=jsonl").unwrap(), None);

    // The camelCase spelling is the only one accepted, so a typo is refused
    // rather than a silently unfiltered full-table answer.
    assert!(parse("filter[ingressType]=bgp_via_bmp").is_err());
    assert!(parse("filter[ingressType]=nonsense").is_err());
}
