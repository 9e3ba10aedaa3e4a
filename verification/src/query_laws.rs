//! What a query finds of the routes that were announced.
use vstd::prelude::*;

use crate::attrs::{communities_of, large_communities_of, origin_of, otc_of};
use crate::filter::{
    all_filtered, filtered, lemma_filtered, lemma_filtered_all, lemma_kept_row, lemma_row_left, passes, rows_left, set_view,
    wanted,
};
use crate::ingress::IngressInfo;
use crate::jsonl::streamed;
use crate::jsonl_laws::{a_stream_tells_each_route_once, in_use, written};
use crate::pamap::RotondaPaMap;
use crate::query::{Include, QueryFilter};
use crate::register::{copies, with_parents};
use crate::rib::Rib;
use crate::route::RotondaRoute;
use crate::search::{muis_of, options, passed, picks, SearchResult};
use crate::store::{
    answers, distinct_keys, has_key, listed, set_listed, MatchType, PrefixRecord, QueryResult, Record, RecordView, Scope,
    StoreView, UpsertReport,
};
use crate::types::{covers, AfiSafiType, IngressId, IngressType, Prefix, PrefixKey, RouteStatus};

verus! {

/// Whether a query lets all routes pass.
pub open spec fn asks_for_all(f: QueryFilter) -> bool {
    &&& f.ingress_id is None
    &&& f.origin_asn is None
    &&& f.otc is None
    &&& f.community is None
    &&& f.large_community is None
    &&& f.ingress_type is None
    &&& f.rib_type is None
    &&& f.rov_status is None
    &&& f.peer_asn is None
    &&& f.peer_addr is None
    &&& f.roto_function is None
}

/// Whether a route is one of a family of prefixes, for a prefix and with
/// stored attributes.
pub open spec fn is_route(route: RotondaRoute, family: AfiSafiType, p: PrefixKey, attrs: Seq<u8>) -> bool {
    match (family, route) {
        (AfiSafiType::Ipv4Unicast, RotondaRoute::Ipv4Unicast(q, a)) => q@ == p && a@ == attrs,
        (AfiSafiType::Ipv6Unicast, RotondaRoute::Ipv6Unicast(q, a)) => q@ == p && a@ == attrs,
        (AfiSafiType::Ipv4Multicast, RotondaRoute::Ipv4Multicast(q, a)) => q@ == p && a@ == attrs,
        (AfiSafiType::Ipv6Multicast, RotondaRoute::Ipv6Multicast(q, a)) => q@ == p && a@ == attrs,
        _ => false,
    }
}

/// Whether records have one in use of an ingress with the given attributes.
pub open spec fn tells_route(v: Seq<Record<RotondaPaMap>>, m: IngressId, ltime: u64, attrs: Seq<u8>) -> bool {
    exists|k: int|
        0 <= k < v.len() && (#[trigger] v[k]).multi_uniq_id == m && v[k].meta@ == attrs && v[k].status is Active
            && v[k].ltime == ltime
}

/// A record that a query finds by its prefix, in what is found of a store.
proof fn lemma_exact<F: Fn(&RotondaPaMap) -> bool>(
    rib: Rib,
    family: AfiSafiType,
    nlri: Prefix,
    f: QueryFilter,
    function: Option<&F>,
    sr: SearchResult,
    m: IngressId,
    rec: RecordView<Seq<u8>>,
)
    requires
        rib.finds(MatchType::ExactMatch, family, nlri, f, function, sr),
        asks_for_all(f),
        rib.family_store(family)@.shown(nlri@, m, false, false) == Some(rec),
    ensures
        sr.query_result.prefix matches Some(q) && q@ == nlri@,
        tells_route(sr.query_result.records@, m, rec.ltime, rec.meta),
{
    let s = rib.family_store(family)@;
    let infos = sr.ingress_info@;
    let o = options(MatchType::ExactMatch, f);
    let g = wanted(f, function);
    let found = choose|found: QueryResult<RotondaPaMap>| #[trigger]
        answers(s, nlri, o, found) && copies(
            infos,
            rib.ingress_register@,
            with_parents(rib.ingress_register@, muis_of(found)),
        ) && picks(f, infos, g, found, sr.query_result);
    assert(s.records.contains_key((nlri@, m)));
    assert(s.has_prefix(nlri@));
    assert(crate::store::wanted(o.mui, m));
    assert(s.shows(nlri@, o.mui, false));
    let v = found.records@;
    let kept = sr.query_result.records@;
    assert(listed(s, nlri@, o.mui, false, v));
    let j = choose|j: int| 0 <= j < v.len() && (#[trigger] v[j]).multi_uniq_id == m;
    assert(v[j]@ == rec);
    assert(passes(f, infos, v[j]));
    lemma_filtered_all(f, infos, g, v, kept);
    assert(kept.contains(v[j]));
    let k = choose|k: int| 0 <= k < kept.len() && kept[k] == v[j];
    assert(kept[k].multi_uniq_id == m && kept[k].meta@ == rec.meta && kept[k].status is Active);
}

/// What is announced is found by a query of its own family: once a route for a
/// prefix was inserted, a query of that family for the prefix shows a record
/// in use of its ingress, with its attributes and its time.
pub proof fn an_announced_route_is_found_by_its_family<F: Fn(&RotondaPaMap) -> bool>(
    before: Rib,
    after: Rib,
    route: RotondaRoute,
    family: AfiSafiType,
    nlri: Prefix,
    attrs: Seq<u8>,
    ltime: u64,
    m: IngressId,
    retain: bool,
    r: Result<UpsertReport, String>,
    f: QueryFilter,
    function: Option<&F>,
    sr: SearchResult,
)
    requires
        is_route(route, family, nlri@, attrs),
        before.inserted(after, route, RouteStatus::Active, ltime, m, retain, r),
        asks_for_all(f),
        after.finds(MatchType::ExactMatch, family, nlri, f, function, sr),
    ensures
        r is Ok,
        sr.query_result.prefix matches Some(q) && q@ == nlri@,
        tells_route(sr.query_result.records@, m, ltime, attrs),
{
    lemma_exact(
        after,
        family,
        nlri,
        f,
        function,
        sr,
        m,
        RecordView { ltime, status: RouteStatus::Active, meta: attrs },
    );
}

/// What is withdrawn is not found by a query of its own family any more.
pub proof fn a_withdrawn_route_is_not_found_by_its_family<F: Fn(&RotondaPaMap) -> bool>(
    before: Rib,
    after: Rib,
    route: RotondaRoute,
    family: AfiSafiType,
    nlri: Prefix,
    attrs: Seq<u8>,
    ltime: u64,
    m: IngressId,
    retain: bool,
    r: Result<UpsertReport, String>,
    f: QueryFilter,
    function: Option<&F>,
    sr: SearchResult,
)
    requires
        is_route(route, family, nlri@, attrs),
        before.inserted(after, route, RouteStatus::Withdrawn, ltime, m, retain, r),
        after.finds(MatchType::ExactMatch, family, nlri, f, function, sr),
    ensures
        forall|k: int|
            0 <= k < sr.query_result.records@.len() ==> (#[trigger] sr.query_result.records@[k]).multi_uniq_id != m,
{
    assert forall|k: int| 0 <= k < sr.query_result.records@.len() implies (
    #[trigger] sr.query_result.records@[k]).multi_uniq_id != m by {
        lemma_from_store(after, MatchType::ExactMatch, family, nlri, f, function, sr, k);
    }
}

/// A record of an answer is one that its store shows of the prefix that the
/// query landed on.
proof fn lemma_from_store<F: Fn(&RotondaPaMap) -> bool>(
    rib: Rib,
    match_type: MatchType,
    family: AfiSafiType,
    nlri: Prefix,
    f: QueryFilter,
    function: Option<&F>,
    sr: SearchResult,
    k: int,
)
    requires
        rib.finds(match_type, family, nlri, f, function, sr),
        0 <= k < sr.query_result.records@.len(),
    ensures
        ({
            let s = rib.family_store(family)@;
            let rec = sr.query_result.records@[k];
            &&& sr.query_result.prefix matches Some(q) && s.shown(q@, rec.multi_uniq_id, f.ingress_id is Some, false)
                == Some(rec@)
            &&& match_type is ExactMatch ==> sr.query_result.prefix->0@ == nlri@
            &&& passes(f, sr.ingress_info@, rec)
        }),
{
    let s = rib.family_store(family)@;
    let infos = sr.ingress_info@;
    let o = options(match_type, f);
    let g = wanted(f, function);
    let found = choose|found: QueryResult<RotondaPaMap>| #[trigger]
        answers(s, nlri, o, found) && copies(
            infos,
            rib.ingress_register@,
            with_parents(rib.ingress_register@, muis_of(found)),
        ) && picks(f, infos, g, found, sr.query_result);
    lemma_filtered(f, infos, g, found.records@, sr.query_result.records@, k);
    let v = found.records@;
    let j = choose|j: int| 0 <= j < v.len() && v[j] == sr.query_result.records@[k];
    assert(s.shown(found.prefix->0@, v[j].multi_uniq_id, f.ingress_id is Some, false) == Some(v[j]@));
}

/// Whether a store holds a record in use of an ingress for a prefix.
pub open spec fn keeps(s: StoreView<Seq<u8>>, p: PrefixKey, rec: Record<RotondaPaMap>) -> bool {
    &&& s.records.contains_key((p, rec.multi_uniq_id))
    &&& s.records[(p, rec.multi_uniq_id)].status is Active
    &&& s.records[(p, rec.multi_uniq_id)].meta == rec.meta@
    &&& s.records[(p, rec.multi_uniq_id)].ltime == rec.ltime
}

/// An answer of a unicast family shows what the unicast table holds and
/// nothing else, and one of a multicast family what the multicast table holds:
/// of the prefix that the query landed on, and of the prefixes around it.
pub proof fn an_answer_comes_from_the_table_of_its_family<F: Fn(&RotondaPaMap) -> bool>(
    rib: Rib,
    match_type: MatchType,
    family: AfiSafiType,
    nlri: Prefix,
    f: QueryFilter,
    function: Option<&F>,
    sr: SearchResult,
)
    requires
        rib.finds(match_type, family, nlri, f, function, sr),
    ensures
        forall|k: int|
            0 <= k < sr.query_result.records@.len() ==> {
                let rec = #[trigger] sr.query_result.records@[k];
                &&& rec.status is Active
                &&& sr.query_result.prefix is Some
                &&& family is Ipv4Unicast || family is Ipv6Unicast ==> keeps(
                    rib.unicast@,
                    sr.query_result.prefix->0@,
                    rec,
                )
                &&& family is Ipv4Multicast || family is Ipv6Multicast ==> keeps(
                    rib.multicast@,
                    sr.query_result.prefix->0@,
                    rec,
                )
            },
        sr.query_result.more_specifics matches Some(v) ==> forall|i: int, k: int|
            0 <= i < v@.len() && 0 <= k < v@[i].meta@.len() ==> {
                let rec = #[trigger] v@[i].meta@[k];
                &&& rec.status is Active
                &&& family is Ipv4Unicast || family is Ipv6Unicast ==> keeps(rib.unicast@, v@[i].prefix@, rec)
                &&& family is Ipv4Multicast || family is Ipv6Multicast ==> keeps(rib.multicast@, v@[i].prefix@, rec)
            },
        sr.query_result.less_specifics matches Some(v) ==> forall|i: int, k: int|
            0 <= i < v@.len() && 0 <= k < v@[i].meta@.len() ==> {
                let rec = #[trigger] v@[i].meta@[k];
                &&& rec.status is Active
                &&& family is Ipv4Unicast || family is Ipv6Unicast ==> keeps(rib.unicast@, v@[i].prefix@, rec)
                &&& family is Ipv4Multicast || family is Ipv6Multicast ==> keeps(rib.multicast@, v@[i].prefix@, rec)
            },
{
    assert forall|k: int| 0 <= k < sr.query_result.records@.len() implies {
        let rec = #[trigger] sr.query_result.records@[k];
        &&& rec.status is Active
        &&& sr.query_result.prefix is Some
        &&& family is Ipv4Unicast || family is Ipv6Unicast ==> keeps(rib.unicast@, sr.query_result.prefix->0@, rec)
        &&& family is Ipv4Multicast || family is Ipv6Multicast ==> keeps(
            rib.multicast@,
            sr.query_result.prefix->0@,
            rec,
        )
    } by {
        lemma_from_store(rib, match_type, family, nlri, f, function, sr, k);
    }
    let s = rib.family_store(family)@;
    let infos = sr.ingress_info@;
    let o = options(match_type, f);
    let g = wanted(f, function);
    let found = choose|found: QueryResult<RotondaPaMap>| #[trigger]
        answers(s, nlri, o, found) && copies(
            infos,
            rib.ingress_register@,
            with_parents(rib.ingress_register@, muis_of(found)),
        ) && picks(f, infos, g, found, sr.query_result);
    lemma_set_kept(s, Scope::MoreSpecific(nlri), o.mui, f, infos, g, found.more_specifics, sr.query_result.more_specifics);
    lemma_set_kept(s, Scope::LessSpecific(nlri), o.mui, f, infos, g, found.less_specifics, sr.query_result.less_specifics);
}

/// The records of a set of prefixes are those of the store.
proof fn lemma_set_kept<F: Fn(&RotondaPaMap) -> bool>(
    s: StoreView<Seq<u8>>,
    scope: Scope,
    mui: Option<IngressId>,
    f: QueryFilter,
    infos: Map<IngressId, IngressInfo>,
    function: Option<&F>,
    before: Option<Vec<PrefixRecord<RotondaPaMap>>>,
    after: Option<Vec<PrefixRecord<RotondaPaMap>>>,
)
    requires
        before matches Some(v) ==> set_listed(s, scope, mui, false, v@),
        passed(f, infos, function, before, after),
    ensures
        after matches Some(v) ==> forall|i: int, k: int|
            0 <= i < v@.len() && 0 <= k < v@[i].meta@.len() ==> keeps(s, v@[i].prefix@, #[trigger] v@[i].meta@[k])
                && v@[i].meta@[k].status is Active && scope.has(v@[i].prefix@) && passes(f, infos, v@[i].meta@[k]),
{
    match (before, after) {
        (Some(b), Some(a)) => {
            let rows = set_view(b@);
            let kept = choose|kept: Seq<Seq<Record<RotondaPaMap>>>| #[trigger]
                all_filtered(f, infos, function, rows, kept) && set_view(a@) == rows_left(rows, kept);
            assert forall|i: int, k: int| 0 <= i < a@.len() && 0 <= k < a@[i].meta@.len() implies keeps(
                s,
                a@[i].prefix@,
                #[trigger] a@[i].meta@[k],
            ) && a@[i].meta@[k].status is Active && scope.has(a@[i].prefix@) && passes(f, infos, a@[i].meta@[k]) by {
                assert(set_view(a@)[i] == (a@[i].prefix, a@[i].meta@));
                let j = lemma_row_left(rows, kept, i);
                assert(rows[j] == (b@[j].prefix, b@[j].meta@));
                assert(filtered(f, infos, function, rows[j].1, kept[j]));
                lemma_filtered(f, infos, function, b@[j].meta@, kept[j], k);
                let v = b@[j].meta@;
                let l = choose|l: int| 0 <= l < v.len() && v[l] == kept[j][k];
                assert(s.shown(b@[j].prefix@, v[l].multi_uniq_id, mui is Some, false) == Some(v[l]@));
            }
        },
        _ => {},
    }
}

/// Whether a record has all that a query names: the ingress, the type of its
/// session, the table, the AS number and the address of its peer, as far as
/// the ingress is known, the RPKI state, and the attributes.
pub open spec fn is_named(f: QueryFilter, infos: Map<IngressId, IngressInfo>, rec: Record<RotondaPaMap>) -> bool {
    let m = rec.multi_uniq_id;
    let raw = rec.meta@;
    let wide = raw.len() >= 2 && raw[1] == 1;
    let attrs = if raw.len() < 2 {
        Seq::empty()
    } else {
        raw.skip(2)
    };
    &&& f.ingress_id matches Some(id) ==> m == id
    &&& f.rib_type matches Some(t) ==> infos.contains_key(m) ==> infos[m].peer_rib_type == Some(t)
    &&& f.peer_asn matches Some(a) ==> infos.contains_key(m) ==> infos[m].remote_asn == Some(a)
    &&& f.peer_addr matches Some(a) ==> infos.contains_key(m) ==> (infos[m].remote_addr matches Some(b) && b.octets()
        == a.octets())
    &&& f.ingress_type matches Some(t) ==> {
        &&& infos.contains_key(m)
        &&& infos[m].ingress_type == Some(t) || t is Bmp && infos[m].ingress_type == Some(IngressType::BgpViaBmp)
            || infos[m].ingress_type == Some(IngressType::BgpPath) && (infos[m].parent_ingress matches Some(p)
            && infos.contains_key(p) && (infos[p].ingress_type == Some(t) || t is Bmp && infos[p].ingress_type == Some(
            IngressType::BgpViaBmp,
        )))
    }
    &&& f.rov_status matches Some(s) ==> raw.len() > 0 && raw[0] == s || raw.len() == 0 && s == 0
    &&& f.otc matches Some(a) ==> otc_of(wide, attrs) == Some(a)
    &&& f.origin_asn matches Some(a) ==> origin_of(wide, attrs) == Some(a)
    &&& f.community matches Some(c) ==> (communities_of(wide, attrs) matches Some(l) && l.contains(c))
    &&& f.large_community matches Some(c) ==> (large_communities_of(wide, attrs) matches Some(l) && l.contains(c))
}

/// A query lets a record pass just where the record has all that it names.
pub proof fn a_record_passes_if_the_query_names_it(
    f: QueryFilter,
    infos: Map<IngressId, IngressInfo>,
    rec: Record<RotondaPaMap>,
)
    ensures
        passes(f, infos, rec) == is_named(f, infos, rec),
        asks_for_all(f) ==> passes(f, infos, rec),
{
    let m = rec.multi_uniq_id;
    match (f.peer_addr, infos[m].remote_addr) {
        (Some(a), Some(b)) => {
            assert(a.octets() == b.octets() ==> a.octets().len() == b.octets().len());
            assert(a.octets() == b.octets() ==> b.same(a));
        },
        _ => {},
    }
}

/// Each record of an answer has all that the query names, by what is
/// registered of its ingress: of the prefix itself, and of the prefixes around
/// it.
pub proof fn an_answer_holds_what_the_query_names<F: Fn(&RotondaPaMap) -> bool>(
    rib: Rib,
    match_type: MatchType,
    family: AfiSafiType,
    nlri: Prefix,
    f: QueryFilter,
    function: Option<&F>,
    sr: SearchResult,
)
    requires
        rib.finds(match_type, family, nlri, f, function, sr),
    ensures
        forall|k: int|
            0 <= k < sr.query_result.records@.len() ==> is_named(
                f,
                sr.ingress_info@,
                #[trigger] sr.query_result.records@[k],
            ) && is_known_as_registered(rib, sr, sr.query_result.records@[k].multi_uniq_id),
        sr.query_result.more_specifics matches Some(v) ==> forall|i: int, k: int|
            0 <= i < v@.len() && 0 <= k < v@[i].meta@.len() ==> is_named(
                f,
                sr.ingress_info@,
                #[trigger] v@[i].meta@[k],
            ) && covers(nlri@, v@[i].prefix@) && v@[i].prefix@ != nlri@,
        sr.query_result.less_specifics matches Some(v) ==> forall|i: int, k: int|
            0 <= i < v@.len() && 0 <= k < v@[i].meta@.len() ==> is_named(
                f,
                sr.ingress_info@,
                #[trigger] v@[i].meta@[k],
            ) && covers(v@[i].prefix@, nlri@) && v@[i].prefix@ != nlri@,
{
    let s = rib.family_store(family)@;
    let infos = sr.ingress_info@;
    let o = options(match_type, f);
    let g = wanted(f, function);
    let found = choose|found: QueryResult<RotondaPaMap>| #[trigger]
        answers(s, nlri, o, found) && copies(
            infos,
            rib.ingress_register@,
            with_parents(rib.ingress_register@, muis_of(found)),
        ) && picks(f, infos, g, found, sr.query_result);
    assert forall|k: int| 0 <= k < sr.query_result.records@.len() implies is_named(
        f,
        sr.ingress_info@,
        #[trigger] sr.query_result.records@[k],
    ) && is_known_as_registered(rib, sr, sr.query_result.records@[k].multi_uniq_id) by {
        lemma_from_store(rib, match_type, family, nlri, f, function, sr, k);
        let rec = sr.query_result.records@[k];
        a_record_passes_if_the_query_names_it(f, infos, rec);
        lemma_filtered(f, infos, g, found.records@, sr.query_result.records@, k);
        let j = choose|j: int| 0 <= j < found.records@.len() && found.records@[j] == rec;
        assert(found.records@[j].multi_uniq_id == rec.multi_uniq_id);
        assert(muis_of(found).contains(rec.multi_uniq_id));
        assert(with_parents(rib.ingress_register@, muis_of(found)).contains(rec.multi_uniq_id));
        assert(infos.contains_key(rec.multi_uniq_id) == rib.ingress_register@.contains_key(rec.multi_uniq_id));
    }
    lemma_set_kept(s, Scope::MoreSpecific(nlri), o.mui, f, infos, g, found.more_specifics, sr.query_result.more_specifics);
    lemma_set_kept(s, Scope::LessSpecific(nlri), o.mui, f, infos, g, found.less_specifics, sr.query_result.less_specifics);
    assert(forall|rec: Record<RotondaPaMap>| #[trigger] passes(f, infos, rec) ==> is_named(f, infos, rec)) by {
        assert forall|rec: Record<RotondaPaMap>| #[trigger] passes(f, infos, rec) implies is_named(f, infos, rec) by {
            a_record_passes_if_the_query_names_it(f, infos, rec);
        }
    }
}

/// Whether an answer knows of an ingress just what is registered.
pub open spec fn is_known_as_registered(rib: Rib, sr: SearchResult, m: IngressId) -> bool {
    &&& sr.ingress_info@.contains_key(m) == rib.ingress_register@.contains_key(m)
    &&& rib.ingress_register@.contains_key(m) ==> {
        let (a, b) = (sr.ingress_info@[m], rib.ingress_register@[m]);
        &&& a.remote_asn == b.remote_asn
        &&& a.remote_addr == b.remote_addr
        &&& a.peer_rib_type == b.peer_rib_type
        &&& a.ingress_type == b.ingress_type
        &&& a.parent_ingress == b.parent_ingress
        &&& a.path_id == b.path_id
    }
}

/// The table of a family of prefixes.
pub open spec fn holds_in(rib: Rib, family: AfiSafiType, p: PrefixKey, m: IngressId, rec: RecordView<Seq<u8>>) -> bool {
    let (records, gone) = match family {
        AfiSafiType::Ipv4Unicast => (rib.unicast@.records, rib.unicast@.gone_v4),
        AfiSafiType::Ipv6Unicast => (rib.unicast@.records, rib.unicast@.gone_v6),
        AfiSafiType::Ipv4Multicast => (rib.multicast@.records, rib.multicast@.gone_v4),
        _ => (rib.multicast@.records, rib.multicast@.gone_v6),
    };
    &&& family is Ipv4Unicast || family is Ipv4Multicast ==> p.0
    &&& family is Ipv6Unicast || family is Ipv6Multicast ==> !p.0
    &&& family is Ipv4Unicast || family is Ipv6Unicast || family is Ipv4Multicast || family is Ipv6Multicast
    &&& records.contains_key((p, m)) && records[(p, m)] == rec && rec.status is Active
    &&& !gone.contains(m)
}

/// A query that lets all pass shows each record in use of the table of its
/// family, of an ingress that is not withdrawn: of the prefix itself, and,
/// where it asks for them, of each prefix that it covers or is covered by.
pub proof fn an_answer_shows_the_whole_table_around_a_prefix<F: Fn(&RotondaPaMap) -> bool>(
    rib: Rib,
    family: AfiSafiType,
    nlri: Prefix,
    f: QueryFilter,
    function: Option<&F>,
    sr: SearchResult,
    p: PrefixKey,
    m: IngressId,
    rec: RecordView<Seq<u8>>,
)
    requires
        rib.finds(MatchType::ExactMatch, family, nlri, f, function, sr),
        asks_for_all(f),
        holds_in(rib, family, p, m, rec),
    ensures
        p == nlri@ ==> tells_route(sr.query_result.records@, m, rec.ltime, rec.meta),
        p != nlri@ && covers(nlri@, p) && f.included@.contains(Include::MoreSpecifics) ==> (
        sr.query_result.more_specifics matches Some(v) && tells_prefix_route(v@, p, m, rec)),
        p != nlri@ && covers(p, nlri@) && f.included@.contains(Include::LessSpecifics) ==> (
        sr.query_result.less_specifics matches Some(v) && tells_prefix_route(v@, p, m, rec)),
{
    let s = rib.family_store(family)@;
    assert(s.shown(p, m, false, false) == Some(rec));
    if p == nlri@ {
        lemma_exact(rib, family, nlri, f, function, sr, m, rec);
    }
    let infos = sr.ingress_info@;
    let o = options(MatchType::ExactMatch, f);
    let g = wanted(f, function);
    let found = choose|found: QueryResult<RotondaPaMap>| #[trigger]
        answers(s, nlri, o, found) && copies(
            infos,
            rib.ingress_register@,
            with_parents(rib.ingress_register@, muis_of(found)),
        ) && picks(f, infos, g, found, sr.query_result);
    if p != nlri@ && covers(nlri@, p) && f.included@.contains(Include::MoreSpecifics) {
        lemma_set_tells(
            s,
            Scope::MoreSpecific(nlri),
            f,
            infos,
            g,
            found.more_specifics,
            sr.query_result.more_specifics,
            p,
            m,
            rec,
        );
    }
    if p != nlri@ && covers(p, nlri@) && f.included@.contains(Include::LessSpecifics) {
        lemma_set_tells(
            s,
            Scope::LessSpecific(nlri),
            f,
            infos,
            g,
            found.less_specifics,
            sr.query_result.less_specifics,
            p,
            m,
            rec,
        );
    }
}

/// Whether prefixes have a record in use of an ingress for one of them.
pub open spec fn tells_prefix_route(
    v: Seq<PrefixRecord<RotondaPaMap>>,
    p: PrefixKey,
    m: IngressId,
    rec: RecordView<Seq<u8>>,
) -> bool {
    exists|i: int|
        0 <= i < v.len() && (#[trigger] v[i]).prefix@ == p && tells_route(v[i].meta@, m, rec.ltime, rec.meta)
}

/// A record of a store in what is left of a set of prefixes.
proof fn lemma_set_tells<F: Fn(&RotondaPaMap) -> bool>(
    s: StoreView<Seq<u8>>,
    scope: Scope,
    f: QueryFilter,
    infos: Map<IngressId, IngressInfo>,
    function: Option<&F>,
    before: Option<Vec<PrefixRecord<RotondaPaMap>>>,
    after: Option<Vec<PrefixRecord<RotondaPaMap>>>,
    p: PrefixKey,
    m: IngressId,
    rec: RecordView<Seq<u8>>,
)
    requires
        before matches Some(v) && set_listed(s, scope, None, false, v@),
        passed(f, infos, function, before, after),
        asks_for_all(f),
        function is None,
        scope.has(p),
        s.shown(p, m, false, false) == Some(rec),
        rec.status is Active,
    ensures
        after matches Some(v) && tells_prefix_route(v@, p, m, rec),
{
    let b = before->0;
    let a = after->0;
    let rows = set_view(b@);
    let kept = choose|kept: Seq<Seq<Record<RotondaPaMap>>>| #[trigger]
        all_filtered(f, infos, function, rows, kept) && set_view(a@) == rows_left(rows, kept);
    assert(s.shows(p, None, false)) by {
        assert(crate::store::wanted(None, m));
        assert(s.shown(p, m, false, false) is Some);
    }
    let j = choose|j: int| 0 <= j < b@.len() && (#[trigger] b@[j]).prefix@ == p;
    assert(rows[j] == (b@[j].prefix, b@[j].meta@));
    let v = b@[j].meta@;
    assert(filtered(f, infos, function, rows[j].1, kept[j]));
    assert(listed(s, p, None, false, v));
    lemma_filtered_all(f, infos, function, v, kept[j]);
    let l = choose|l: int| 0 <= l < v.len() && (#[trigger] v[l]).multi_uniq_id == m;
    assert(v[l]@ == rec);
    a_record_passes_if_the_query_names_it(f, infos, v[l]);
    assert(kept[j].contains(v[l]));
    let k = choose|k: int| 0 <= k < kept[j].len() && kept[j][k] == v[l];
    let i = lemma_kept_row(rows, kept, j);
    assert(set_view(a@)[i] == (a@[i].prefix, a@[i].meta@));
    assert(a@[i].meta@[k].multi_uniq_id == m && a@[i].meta@[k].meta@ == rec.meta);
    assert(tells_route(a@[i].meta@, m, rec.ltime, rec.meta));
}

/// What is announced is told by the stream of its own family: once a route for
/// a prefix was inserted, the prefixes that are written out of that family
/// have that one, with a record in use of its ingress and its attributes.
pub proof fn an_announced_route_is_streamed_by_its_family<F: Fn(&RotondaPaMap) -> bool>(
    before: Rib,
    after: Rib,
    route: RotondaRoute,
    family: AfiSafiType,
    nlri: Prefix,
    attrs: RotondaPaMap,
    ltime: u64,
    m: IngressId,
    retain: bool,
    r: Result<UpsertReport, String>,
    query: Prefix,
    f: QueryFilter,
    infos: Map<IngressId, IngressInfo>,
    function: Option<&F>,
    keys: Seq<Prefix>,
    v: Seq<PrefixRecord<RotondaPaMap>>,
)
    requires
        is_route(route, family, nlri@, attrs@),
        before.inserted(after, route, RouteStatus::Active, ltime, m, retain, r),
        asks_for_all(f),
        query@.0 == nlri@.0,
        distinct_keys(keys),
        forall|p: PrefixKey| #[trigger]
            has_key(keys, p) == (after.family_store(family)@.has_prefix(p) && p.0 == query@.0),
        streamed(after.family_store(family)@, f, infos, wanted(f, function), keys, v),
    ensures
        tells_prefix_route(v, nlri@, m, RecordView { ltime, status: RouteStatus::Active, meta: attrs@ }),
{
    let s = after.family_store(family)@;
    let g = wanted(f, function);
    let rec = Record { multi_uniq_id: m, ltime, status: RouteStatus::Active, meta: attrs };
    a_stream_tells_each_route_once(s, f, infos, g, keys, v);
    assert(s.records.contains_key((nlri@, m)));
    assert(s.has_prefix(nlri@));
    assert(has_key(keys, nlri@));
    assert(in_use(s, f.ingress_id, nlri@, rec));
    a_record_passes_if_the_query_names_it(f, infos, rec);
    assert(written(v, nlri@, rec));
    let (i, k) = choose|i: int, k: int|
        {
            &&& 0 <= i < v.len()
            &&& 0 <= k < v[i].meta@.len()
            &&& v[i].prefix@ == nlri@
            &&& (#[trigger] v[i].meta@[k]).multi_uniq_id == rec.multi_uniq_id
            &&& v[i].meta@[k]@ == rec@
        };
    assert(v[i].meta@[k].multi_uniq_id == m && v[i].meta@[k].meta@ == attrs@);
    assert(tells_route(v[i].meta@, m, ltime, attrs@));
}

/// What is written out of a unicast family is in the unicast table, and what
/// is of a multicast family in the multicast table, and has all that the query
/// names.
pub proof fn a_stream_comes_from_the_table_of_its_family<F: Fn(&RotondaPaMap) -> bool>(
    rib: Rib,
    family: AfiSafiType,
    f: QueryFilter,
    infos: Map<IngressId, IngressInfo>,
    function: Option<&F>,
    keys: Seq<Prefix>,
    v: Seq<PrefixRecord<RotondaPaMap>>,
    i: int,
    k: int,
)
    requires
        distinct_keys(keys),
        streamed(rib.family_store(family)@, f, infos, wanted(f, function), keys, v),
        0 <= i < v.len(),
        0 <= k < v[i].meta@.len(),
    ensures
        ({
            let rec = v[i].meta@[k];
            let at = (v[i].prefix@, rec.multi_uniq_id);
            &&& !(rec.status is Withdrawn)
            &&& is_named(f, infos, rec)
            &&& family is Ipv4Unicast || family is Ipv6Unicast ==> rib.unicast@.records.contains_key(at)
                && rib.unicast@.records[at].meta == rec.meta@
            &&& family is Ipv4Multicast || family is Ipv6Multicast ==> rib.multicast@.records.contains_key(at)
                && rib.multicast@.records[at].meta == rec.meta@
        }),
{
    let s = rib.family_store(family)@;
    a_stream_tells_each_route_once(s, f, infos, wanted(f, function), keys, v);
    assert(in_use(s, f.ingress_id, v[i].prefix@, v[i].meta@[k]));
    a_record_passes_if_the_query_names_it(f, infos, v[i].meta@[k]);
}

} // verus!
