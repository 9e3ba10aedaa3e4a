//! The HTTP interface: its routes, which queries they take, and what they
//! answer.
use vstd::prelude::*;

use crate::evpn::{display_prefix, shown_prefix};
use crate::explode::{is_rule, spell_rule};
use crate::filter::{ingress_type_matches, known_info, source_of, type_matches, RouteSource};
use crate::flowspec::FlowSpecValidity;
use crate::flowspec_query::{
    answered, exceeded, judged, limit_text, FlowSpecQuery, FlowSpecQueryRow,
};
use crate::ingress::IngressInfo;
use crate::pamap::RotondaPaMap;
use crate::query::{Include, OutputFormat, QueryFilter};
use crate::rib::Rib;
use crate::rib_query::{ActiveDumps, DumpGuard, MAX_CONCURRENT_DUMPS};
use crate::search::refusal;
use crate::table::Table;
use crate::text::{hex, hex_text};
use crate::types::{AfiSafiType, IngressId, IngressType, Prefix};

verus! {

/// Why a request is not answered.
#[derive(Debug)]
pub enum ApiError {
    BadRequest(String),
    InternalServerError(String),
    ServiceUnavailable(String),
}

/// What answers a request.
#[derive(Clone, Copy, Debug, PartialEq, Eq, Structural)]
pub enum Handler {
    SearchEvpn,
    SearchIpv4Unicast,
    SearchIpv4UnicastAll,
    SearchIpv6Unicast,
    SearchIpv6UnicastAll,
    SearchIpv4FlowSpec,
    SearchIpv4FlowSpecAll,
    SearchIpv6FlowSpec,
    SearchIpv6FlowSpecAll,
    BestPathIpv4Unicast,
    BestPathIpv4Addr,
    BestPathIpv6Unicast,
    BestPathIpv6Addr,
    GenericAfisafiAll,
}

/// The routes of an HTTP interface, in the order in which they are tried.
#[derive(Debug)]
pub struct Api {
    pub gets: Vec<(&'static str, Handler)>,
}

pub open spec fn paths(v: Seq<(&'static str, Handler)>) -> Seq<(Seq<char>, Handler)> {
    Seq::new(v.len(), |i: int| (v[i].0@, v[i].1))
}

impl Api {
    /// An interface without routes.
    pub fn new() -> (r: Self)
        ensures
            paths(r.gets@) == Seq::<(Seq<char>, Handler)>::empty(),
    {
        let r = Api { gets: Vec::new() };
        assert(paths(r.gets@) =~= Seq::<(Seq<char>, Handler)>::empty());
        r
    }

    /// Adds a route.
    pub fn add_get(&mut self, path: &'static str, handler: Handler)
        ensures
            paths(final(self).gets@) == paths(old(self).gets@).push((path@, handler)),
    {
        self.gets.push((path, handler));
        assert(paths(self.gets@) =~= paths(old(self).gets@).push((path@, handler)));
    }
}

/// The routes for queries of the tables. The one for families in general
/// comes after those for families by name.
pub open spec fn table_routes() -> Seq<(Seq<char>, Handler)> {
    seq![
        ("/ribs/l2vpnevpn/routes"@, Handler::SearchEvpn),
        ("/ribs/ipv4unicast/routes/{prefix}/{prefix_len}"@, Handler::SearchIpv4Unicast),
        ("/ribs/ipv4unicast/routes"@, Handler::SearchIpv4UnicastAll),
        ("/ribs/ipv6unicast/routes/{prefix}/{prefix_len}"@, Handler::SearchIpv6Unicast),
        ("/ribs/ipv6unicast/routes"@, Handler::SearchIpv6UnicastAll),
        ("/ribs/ipv4flowspec/routes/{prefix}/{prefix_len}"@, Handler::SearchIpv4FlowSpec),
        ("/ribs/ipv4flowspec/routes"@, Handler::SearchIpv4FlowSpecAll),
        ("/ribs/ipv6flowspec/routes/{prefix}/{prefix_len}"@, Handler::SearchIpv6FlowSpec),
        ("/ribs/ipv6flowspec/routes"@, Handler::SearchIpv6FlowSpecAll),
        ("/ribs/ipv4unicast/best-path/{prefix}/{prefix_len}"@, Handler::BestPathIpv4Unicast),
        ("/ribs/ipv4unicast/best-path/{addr}"@, Handler::BestPathIpv4Addr),
        ("/ribs/ipv6unicast/best-path/{prefix}/{prefix_len}"@, Handler::BestPathIpv6Unicast),
        ("/ribs/ipv6unicast/best-path/{addr}"@, Handler::BestPathIpv6Addr),
        ("/ribs/{afisafi}/routes"@, Handler::GenericAfisafiAll),
    ]
}

/// Adds the routes for queries of the tables.
pub fn register_routes(router: &mut Api)
    ensures
        paths(final(router).gets@) == paths(old(router).gets@) + table_routes(),
{
    router.add_get("/ribs/l2vpnevpn/routes", Handler::SearchEvpn);
    router.add_get("/ribs/ipv4unicast/routes/{prefix}/{prefix_len}", Handler::SearchIpv4Unicast);
    router.add_get("/ribs/ipv4unicast/routes", Handler::SearchIpv4UnicastAll);
    router.add_get("/ribs/ipv6unicast/routes/{prefix}/{prefix_len}", Handler::SearchIpv6Unicast);
    router.add_get("/ribs/ipv6unicast/routes", Handler::SearchIpv6UnicastAll);
    router.add_get("/ribs/ipv4flowspec/routes/{prefix}/{prefix_len}", Handler::SearchIpv4FlowSpec);
    router.add_get("/ribs/ipv4flowspec/routes", Handler::SearchIpv4FlowSpecAll);
    router.add_get("/ribs/ipv6flowspec/routes/{prefix}/{prefix_len}", Handler::SearchIpv6FlowSpec);
    router.add_get("/ribs/ipv6flowspec/routes", Handler::SearchIpv6FlowSpecAll);
    router.add_get("/ribs/ipv4unicast/best-path/{prefix}/{prefix_len}", Handler::BestPathIpv4Unicast);
    router.add_get("/ribs/ipv4unicast/best-path/{addr}", Handler::BestPathIpv4Addr);
    router.add_get("/ribs/ipv6unicast/best-path/{prefix}/{prefix_len}", Handler::BestPathIpv6Unicast);
    router.add_get("/ribs/ipv6unicast/best-path/{addr}", Handler::BestPathIpv6Addr);
    router.add_get("/ribs/{afisafi}/routes", Handler::GenericAfisafiAll);
    assert(paths(router.gets@) =~= paths(old(router).gets@) + table_routes());
}

/// A list with a name added, where a parameter is there.
#[verifier::opaque]
pub open spec fn noted_if(list: Seq<Seq<char>>, there: bool, name: Seq<char>) -> Seq<Seq<char>> {
    if there {
        list.push(name)
    } else {
        list
    }
}

/// The parameters of a query that queries for FlowSpec rules cannot have.
pub open spec fn unsupported_parameters(f: QueryFilter) -> Seq<Seq<char>> {
    let l = Seq::<Seq<char>>::empty();
    let l = noted_if(l, f.origin_asn is Some, "filter[originAsn]"@);
    let l = noted_if(l, f.otc is Some, "filter[otc]"@);
    let l = noted_if(l, f.community is Some, "filter[community]"@);
    let l = noted_if(l, f.large_community is Some, "filter[largeCommunity]"@);
    let l = noted_if(l, f.rib_type is Some, "filter[ribType]"@);
    let l = noted_if(l, f.rov_status is Some, "filter[rovStatus]"@);
    let l = noted_if(l, f.peer_asn is Some, "filter[peerAsn]"@);
    let l = noted_if(l, f.peer_addr is Some, "filter[peerAddress]"@);
    let l = noted_if(l, f.fields_path_attributes is Some, "fields[pathAttributes]"@);
    let l = noted_if(l, f.roto_function is Some, "function[roto]"@);
    noted_if(l, !(f.format is Json), "format"@)
}

/// Texts, with commas between them.
pub open spec fn comma_separated(list: Seq<Seq<char>>) -> Seq<char>
    decreases list.len(),
{
    if list.len() == 0 {
        Seq::empty()
    } else if list.len() == 1 {
        list[0]
    } else {
        comma_separated(list.drop_last()) + ", "@ + list.last()
    }
}

/// Adds a name to a text, where a parameter is there.
fn note(text: &mut String, any: bool, there: bool, name: &'static str, Ghost(list): Ghost<Seq<Seq<char>>>) -> (r: bool)
    requires
        old(text)@ == comma_separated(list),
        any == (list.len() > 0),
    ensures
        final(text)@ == comma_separated(noted_if(list, there, name@)),
        r == (noted_if(list, there, name@).len() > 0),
{
    reveal(noted_if);
    if there {
        proof {
            assert(list.push(name@).drop_last() =~= list);
        }
        if any {
            text.append(", ");
            text.append(name);
        } else {
            text.append(name);
            assert(text@ =~= name@);
        }
        true
    } else {
        any
    }
}

/// Checks that a query for FlowSpec rules has no parameter that would be
/// passed over.
pub fn check_flowspec_filter(filter: &QueryFilter) -> (r: Result<(), ApiError>)
    ensures
        match r {
            Ok(_) => unsupported_parameters(*filter).len() == 0,
            Err(e) => {
                &&& unsupported_parameters(*filter).len() > 0
                &&& e matches ApiError::BadRequest(t)
                &&& t@ == "unsupported FlowSpec query parameter(s): "@ + comma_separated(
                    unsupported_parameters(*filter),
                )
            },
        },
{
    let mut names = "".to_string();
    let ghost l = Seq::<Seq<char>>::empty();
    proof {
        reveal_strlit("");
        assert(names@ =~= Seq::empty());
    }
    let any = note(&mut names, false, filter.origin_asn.is_some(), "filter[originAsn]", Ghost(l));
    let ghost l = noted_if(l, filter.origin_asn is Some, "filter[originAsn]"@);
    let any = note(&mut names, any, filter.otc.is_some(), "filter[otc]", Ghost(l));
    let ghost l = noted_if(l, filter.otc is Some, "filter[otc]"@);
    let any = note(&mut names, any, filter.community.is_some(), "filter[community]", Ghost(l));
    let ghost l = noted_if(l, filter.community is Some, "filter[community]"@);
    let any = note(&mut names, any, filter.large_community.is_some(), "filter[largeCommunity]", Ghost(l));
    let ghost l = noted_if(l, filter.large_community is Some, "filter[largeCommunity]"@);
    let any = note(&mut names, any, filter.rib_type.is_some(), "filter[ribType]", Ghost(l));
    let ghost l = noted_if(l, filter.rib_type is Some, "filter[ribType]"@);
    let any = note(&mut names, any, filter.rov_status.is_some(), "filter[rovStatus]", Ghost(l));
    let ghost l = noted_if(l, filter.rov_status is Some, "filter[rovStatus]"@);
    let any = note(&mut names, any, filter.peer_asn.is_some(), "filter[peerAsn]", Ghost(l));
    let ghost l = noted_if(l, filter.peer_asn is Some, "filter[peerAsn]"@);
    let any = note(&mut names, any, filter.peer_addr.is_some(), "filter[peerAddress]", Ghost(l));
    let ghost l = noted_if(l, filter.peer_addr is Some, "filter[peerAddress]"@);
    let any = note(&mut names, any, filter.fields_path_attributes.is_some(), "fields[pathAttributes]", Ghost(l));
    let ghost l = noted_if(l, filter.fields_path_attributes is Some, "fields[pathAttributes]"@);
    let any = note(&mut names, any, filter.roto_function.is_some(), "function[roto]", Ghost(l));
    let ghost l = noted_if(l, filter.roto_function is Some, "function[roto]"@);
    let streamed = match filter.format {
        OutputFormat::Json => false,
        OutputFormat::Jsonl => true,
    };
    let any = note(&mut names, any, streamed, "format", Ghost(l));
    if !any {
        Ok(())
    } else {
        let mut text = "unsupported FlowSpec query parameter(s): ".to_string();
        text.append(names.as_str());
        Err(ApiError::BadRequest(text))
    }
}

/// Takes a place for a query for FlowSpec rules.
pub fn admit_flowspec_query(filter: &QueryFilter, active: &mut ActiveDumps) -> (r: Result<DumpGuard, ApiError>)
    ensures
        match r {
            Ok(_) => {
                &&& unsupported_parameters(*filter).len() == 0
                &&& old(active)@ < MAX_CONCURRENT_DUMPS
                &&& final(active)@ == old(active)@ + 1
            },
            Err(e) => {
                &&& final(active)@ == old(active)@
                &&& if unsupported_parameters(*filter).len() > 0 {
                    e matches ApiError::BadRequest(t) && t@ == "unsupported FlowSpec query parameter(s): "@
                        + comma_separated(unsupported_parameters(*filter))
                } else {
                    old(active)@ >= MAX_CONCURRENT_DUMPS && (e matches ApiError::ServiceUnavailable(t) && t@
                        == "too many concurrent RIB queries in progress; retry shortly"@)
                }
            },
        },
{
    match check_flowspec_filter(filter) {
        Ok(_) => {},
        Err(e) => {
            return Err(e);
        },
    }
    match DumpGuard::try_enter(active) {
        Some(permit) => Ok(permit),
        None => Err(
            ApiError::ServiceUnavailable("too many concurrent RIB queries in progress; retry shortly".to_string()),
        ),
    }
}

/// Takes a place for a query for EVPN routes.
pub fn admit_evpn_query(active: &mut ActiveDumps) -> (r: Result<DumpGuard, ApiError>)
    ensures
        match r {
            Ok(_) => old(active)@ < MAX_CONCURRENT_DUMPS && final(active)@ == old(active)@ + 1,
            Err(e) => old(active)@ >= MAX_CONCURRENT_DUMPS && final(active)@ == old(active)@ && (
            e matches ApiError::ServiceUnavailable(t) && t@ == "too many concurrent RIB queries"@),
        },
{
    match DumpGuard::try_enter(active) {
        Some(permit) => Ok(permit),
        None => Err(ApiError::ServiceUnavailable("too many concurrent RIB queries".to_string())),
    }
}

/// How a query for a prefix is answered.
#[derive(Clone, Copy, Debug, PartialEq, Eq, Structural)]
pub enum SearchPlan {
    /// By one answer.
    Search,
    /// By a dump of the whole table.
    StreamAll,
}

/// Whether a query is for the whole table.
pub open spec fn asks_for_all(prefix: Prefix, f: QueryFilter) -> bool {
    prefix.len == 0 && f.included@.contains(Include::MoreSpecifics)
}

/// Plans how to answer a query for a prefix. A whole table is only ever
/// written out line by line.
pub fn plan_search(prefix: &Prefix, filter: &QueryFilter) -> (r: Result<SearchPlan, ApiError>)
    ensures
        match r {
            Ok(SearchPlan::Search) => !asks_for_all(*prefix, *filter),
            Ok(SearchPlan::StreamAll) => asks_for_all(*prefix, *filter) && filter.format is Jsonl,
            Err(e) => {
                &&& asks_for_all(*prefix, *filter)
                &&& !(filter.format is Jsonl)
                &&& e matches ApiError::BadRequest(t)
                &&& t@
                    == "full-RIB dump (/0 with moreSpecifics) requires format=jsonl so it can be streamed within bounded memory"@
            },
        },
{
    if prefix.len == 0 && filter.includes(Include::MoreSpecifics) {
        match filter.format {
            OutputFormat::Jsonl => Ok(SearchPlan::StreamAll),
            OutputFormat::Json => Err(
                ApiError::BadRequest(
                    "full-RIB dump (/0 with moreSpecifics) requires format=jsonl so it can be streamed within bounded memory".to_string(),
                ),
            ),
        }
    } else {
        Ok(SearchPlan::Search)
    }
}

/// Takes a place for a dump of a whole table. It is given whether the filter
/// function that the query names is defined.
pub fn admit_dump(
    rib: &Rib,
    afisafi: AfiSafiType,
    filter: &QueryFilter,
    defined: bool,
    active: &mut ActiveDumps,
) -> (r: Result<DumpGuard, ApiError>)
    ensures
        match r {
            Ok(_) => {
                &&& refusal(afisafi, *filter, defined) is None
                &&& old(active)@ < MAX_CONCURRENT_DUMPS
                &&& final(active)@ == old(active)@ + 1
            },
            Err(e) => {
                &&& final(active)@ == old(active)@
                &&& match refusal(afisafi, *filter, defined) {
                    Some(text) => (e matches ApiError::BadRequest(t) && t@ == text),
                    None => old(active)@ >= MAX_CONCURRENT_DUMPS && (e matches ApiError::ServiceUnavailable(t) && t@
                        == "too many concurrent RIB dumps in progress; retry shortly"@),
                }
            },
        },
{
    match rib.check_filter_and_store(afisafi, filter, defined) {
        Ok(_) => {},
        Err(e) => {
            return Err(ApiError::BadRequest(e));
        },
    }
    match DumpGuard::try_enter(active) {
        Some(permit) => Ok(permit),
        None => Err(
            ApiError::ServiceUnavailable("too many concurrent RIB dumps in progress; retry shortly".to_string()),
        ),
    }
}

/// Checks that a query for a best path asks for nothing besides.
pub fn check_best_path_filter(filter: &QueryFilter) -> (r: Result<(), ApiError>)
    ensures
        match r {
            Ok(_) => filter.included@.len() == 0 && filter.format is Json,
            Err(e) => {
                &&& e matches ApiError::BadRequest(t)
                &&& if filter.included@.len() > 0 {
                    t@
                        == "include is not supported on best-path: it selects among the routes for one prefix, so more/less specifics have no meaning here. Query /routes for those."@
                } else {
                    !(filter.format is Json) && t@
                        == "best-path answers JSON only: the result is bounded by one prefix's routes, so there is nothing to stream"@
                }
            },
        },
{
    if filter.included.len() > 0 {
        return Err(
            ApiError::BadRequest(
                "include is not supported on best-path: it selects among the routes for one prefix, so more/less specifics have no meaning here. Query /routes for those.".to_string(),
            ),
        );
    }
    match filter.format {
        OutputFormat::Json => Ok(()),
        OutputFormat::Jsonl => Err(
            ApiError::BadRequest(
                "best-path answers JSON only: the result is bounded by one prefix's routes, so there is nothing to stream".to_string(),
            ),
        ),
    }
}

/// The number of rules and of octets that an answer may have.
pub const MAX_FLOWSPEC_HTTP_ROWS: usize = 10_000;

pub const MAX_FLOWSPEC_HTTP_RAW_BYTES: usize = 16_777_216;

/// One FlowSpec rule of an answer.
#[derive(Debug)]
pub struct FlowSpecRow {
    /// The prefix that the rule is stored under.
    pub key_prefix: String,
    /// The ingress that the rule is stored under.
    pub ingress_id: IngressId,
    pub source: RouteSource,
    pub validity: FlowSpecValidity,
    pub nlri: String,
    pub nlri_hex: String,
    pub attributes: RotondaPaMap,
}

/// Whether rules of an ingress are of the type that is asked for. Those of an
/// ingress that is not known are not.
pub open spec fn is_of_type(want: Option<IngressType>, infos: Map<IngressId, IngressInfo>, id: IngressId) -> bool {
    want matches Some(t) ==> infos.contains_key(id) && type_matches(t, infos[id], infos)
}

/// The rules of ingresses of a type.
pub open spec fn rows_of_type(
    want: Option<IngressType>,
    infos: Map<IngressId, IngressInfo>,
    rows: Seq<FlowSpecQueryRow>,
) -> Seq<FlowSpecQueryRow> {
    rows.filter(|r: FlowSpecQueryRow| is_of_type(want, infos, r.ingress_id))
}

/// The rules that are well-formed, or those that are not.
pub open spec fn rows_formed(is_v4: bool, formed: bool, rows: Seq<FlowSpecQueryRow>) -> Seq<FlowSpecQueryRow> {
    rows.filter(|r: FlowSpecQueryRow| is_rule(r.rule.nlri@, is_v4) == formed)
}

/// Rules in the order in which they are shown: those that are not well-formed
/// come last.
pub open spec fn rows_in_order(is_v4: bool, rows: Seq<FlowSpecQueryRow>) -> Seq<FlowSpecQueryRow> {
    rows_formed(is_v4, true, rows) + rows_formed(is_v4, false, rows)
}

/// Whether a row tells of a rule.
pub open spec fn tells_rule(
    row: FlowSpecRow,
    infos: Map<IngressId, IngressInfo>,
    is_v4: bool,
    r: FlowSpecQueryRow,
) -> bool {
    &&& row.key_prefix@ == shown_prefix(r.key_prefix@)
    &&& row.ingress_id == r.ingress_id
    &&& row.source == source_of(r.ingress_id, known_info(infos, r.ingress_id))
    &&& row.validity == r.rule.validity
    &&& row.nlri@ == (if is_rule(r.rule.nlri@, is_v4) {
        "FLOWSPEC-NLRI"@
    } else {
        "<malformed>"@
    })
    &&& row.nlri_hex@ == hex_text(r.rule.nlri@)
    &&& row.attributes == r.rule.pamap
}

pub open spec fn tell_rules(
    rows: Seq<FlowSpecRow>,
    infos: Map<IngressId, IngressInfo>,
    is_v4: bool,
    rs: Seq<FlowSpecQueryRow>,
) -> bool {
    &&& rows.len() == rs.len()
    &&& forall|i: int| 0 <= i < rows.len() ==> tells_rule(#[trigger] rows[i], infos, is_v4, rs[i])
}

/// What a query for FlowSpec rules asks of a table.
pub open spec fn flowspec_query(family_v4: bool, prefix: Option<Prefix>, f: QueryFilter) -> FlowSpecQuery {
    FlowSpecQuery {
        family_v4,
        prefix,
        include_less_specifics: f.included@.contains(Include::LessSpecifics),
        include_more_specifics: f.included@.contains(Include::MoreSpecifics),
        ingress_id: f.ingress_id,
    }
}

proof fn lemma_filters_push(
    want: Option<IngressType>,
    infos: Map<IngressId, IngressInfo>,
    is_v4: bool,
    rows: Seq<FlowSpecQueryRow>,
    r: FlowSpecQueryRow,
)
    ensures
        rows_of_type(want, infos, rows.push(r)) == (if is_of_type(want, infos, r.ingress_id) {
            rows_of_type(want, infos, rows).push(r)
        } else {
            rows_of_type(want, infos, rows)
        }),
        rows_formed(is_v4, true, rows.push(r)) == (if is_rule(r.rule.nlri@, is_v4) {
            rows_formed(is_v4, true, rows).push(r)
        } else {
            rows_formed(is_v4, true, rows)
        }),
        rows_formed(is_v4, false, rows.push(r)) == (if is_rule(r.rule.nlri@, is_v4) {
            rows_formed(is_v4, false, rows)
        } else {
            rows_formed(is_v4, false, rows).push(r)
        }),
{
    reveal(Seq::filter);
    assert(rows.push(r).drop_last() =~= rows);
}

proof fn lemma_filters_empty(want: Option<IngressType>, infos: Map<IngressId, IngressInfo>, is_v4: bool)
    ensures
        rows_of_type(want, infos, Seq::empty()) == Seq::<FlowSpecQueryRow>::empty(),
        rows_formed(is_v4, true, Seq::empty()) == Seq::<FlowSpecQueryRow>::empty(),
        rows_formed(is_v4, false, Seq::empty()) == Seq::<FlowSpecQueryRow>::empty(),
{
    reveal(Seq::filter);
}

/// Whether rules of an ingress are of the type that is asked for.
fn check_type(want: Option<IngressType>, infos: &Table<IngressId, IngressInfo>, id: IngressId) -> (r: bool)
    requires
        infos.wf(),
    ensures
        r == is_of_type(want, infos@, id),
{
    match want {
        Some(t) => match infos.get(&id) {
            Some(info) => ingress_type_matches(t, info, infos),
            None => false,
        },
        None => true,
    }
}

/// Turns the rules of an answer into rows.
pub fn flowspec_rows(
    rib: &Rib,
    family_v4: bool,
    ingress_type: Option<IngressType>,
    rows: Vec<FlowSpecQueryRow>,
) -> (r: Vec<FlowSpecRow>)
    requires
        rib.wf(),
        forall|i: int| 0 <= i < rows@.len() ==> (#[trigger] rows@[i]).key_prefix.wf(),
    ensures
        tell_rules(
            r@,
            rib.ingress_register@,
            family_v4,
            rows_in_order(family_v4, rows_of_type(ingress_type, rib.ingress_register@, rows@)),
        ),
{
    let infos = &rib.ingress_register.infos;
    let ghost all = rows@;
    let ghost mut kept: Seq<FlowSpecQueryRow> = Seq::empty();
    let mut formed: Vec<FlowSpecRow> = Vec::new();
    let mut malformed: Vec<FlowSpecRow> = Vec::new();
    proof {
        lemma_filters_empty(ingress_type, infos@, family_v4);
        assert(all.take(0) =~= Seq::empty());
    }
    for row in it: rows
        invariant
            it.seq() == all,
            infos == &rib.ingress_register.infos,
            rib.wf(),
            forall|i: int| 0 <= i < all.len() ==> (#[trigger] all[i]).key_prefix.wf(),
            kept == rows_of_type(ingress_type, infos@, all.take(it.index() as int)),
            tell_rules(formed@, infos@, family_v4, rows_formed(family_v4, true, kept)),
            tell_rules(malformed@, infos@, family_v4, rows_formed(family_v4, false, kept)),
    {
        let ghost n = it.index() as int;
        proof {
            assert(row == all[n]);
            assert(all.take(n + 1) =~= all.take(n).push(row));
            lemma_filters_push(ingress_type, infos@, family_v4, all.take(n), row);
            lemma_filters_push(ingress_type, infos@, family_v4, kept, row);
        }
        let ghost view = row;
        if check_type(ingress_type, infos, row.ingress_id) {
            let spelled = spell_rule(&row.rule.nlri, family_v4);
            let source = RouteSource::resolve(row.ingress_id, infos.get(&row.ingress_id));
            let key_prefix = display_prefix(&row.key_prefix);
            let nlri_hex = hex(&row.rule.nlri);
            let validity = row.rule.validity;
            let ingress_id: IngressId = row.ingress_id;
            let attributes = row.rule.pamap;
            match spelled {
                Some(nlri) => {
                    formed.push(
                        FlowSpecRow { key_prefix, ingress_id, source, validity, nlri, nlri_hex, attributes },
                    );
                },
                None => {
                    let nlri = "<malformed>".to_string();
                    malformed.push(
                        FlowSpecRow { key_prefix, ingress_id, source, validity, nlri, nlri_hex, attributes },
                    );
                },
            }
            proof {
                kept = kept.push(view);
            }
        }
    }
    assert(all.take(all.len() as int) =~= all);
    formed.append(&mut malformed);
    formed
}

/// Answers a query for FlowSpec rules.
pub fn build_flowspec_response(rib: &Rib, family_v4: bool, prefix: Option<Prefix>, filter: &QueryFilter) -> (r: Result<
    Vec<FlowSpecRow>,
    ApiError,
>)
    requires
        rib.wf(),
        prefix matches Some(p) ==> p.wf(),
    ensures
        ({
            let q = flowspec_query(family_v4, prefix, *filter);
            let limits = Some((MAX_FLOWSPEC_HTTP_ROWS, MAX_FLOWSPEC_HTTP_RAW_BYTES));
            match r {
                Ok(rows) => exists|found: Seq<FlowSpecQueryRow>| #[trigger]
                    answered(rib.flowspec@, q, limits, found) && judged(
                        rib.unicast@,
                        rib.ingress_register@,
                        family_v4,
                        found,
                        found.len() as int,
                    ) && tell_rules(
                        rows@,
                        rib.ingress_register@,
                        family_v4,
                        rows_in_order(
                            family_v4,
                            rows_of_type(filter.ingress_type, rib.ingress_register@, found),
                        ),
                    ),
                Err(e) => {
                    &&& exceeded(rib.flowspec@, q, limits)
                    &&& e matches ApiError::BadRequest(t)
                    &&& t@ == limit_text(10_000, 16_777_216) + "; narrow the query"@
                },
            }
        }),
{
    let less = filter.includes(Include::LessSpecifics);
    let more = filter.includes(Include::MoreSpecifics);
    match rib.query_flowspec(
        family_v4,
        prefix,
        less,
        more,
        filter.ingress_id,
        Some((MAX_FLOWSPEC_HTTP_ROWS, MAX_FLOWSPEC_HTTP_RAW_BYTES)),
    ) {
        Ok(found) => {
            let ghost q = flowspec_query(family_v4, prefix, *filter);
            proof {
                assert forall|i: int| 0 <= i < found@.len() implies (#[trigger] found@[i]).key_prefix.wf() by {
                    assert(crate::flowspec_query::row_selected(rib.flowspec@, q, found@[i]));
                }
            }
            let rows = flowspec_rows(rib, family_v4, filter.ingress_type, found);
            assert(answered(
                rib.flowspec@,
                q,
                Some((MAX_FLOWSPEC_HTTP_ROWS, MAX_FLOWSPEC_HTTP_RAW_BYTES)),
                found@,
            ));
            Ok(rows)
        },
        Err(e) => {
            let mut text = e;
            text.append("; narrow the query");
            Err(ApiError::BadRequest(text))
        },
    }
}

} // verus!
