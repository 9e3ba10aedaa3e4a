//! Laws of the queries of the table: what is refused, which rules an answer
//! shows, and that dumps hold the routes in use and no other.
use vstd::prelude::*;

use crate::api::{
    asks_for_all, flowspec_query, is_of_type, noted_if, rows_formed, rows_in_order, rows_of_type, table_routes,
    tell_rules, unsupported_parameters, FlowSpecRow, Handler,
};
use crate::dump::{current, dumped};
use crate::evpn::shown_prefix;
use crate::explode::is_rule;
use crate::flowspec_query::FlowSpecQueryRow;
use crate::ingress::IngressInfo;
use crate::lifecycle_laws::is_in_use;
use crate::pamap::RotondaPaMap;
use crate::query::{Include, QueryFilter};
use crate::rib_query::{family_of_ingress, of_ingress, whole};
use crate::search::{options, refusal};
use crate::store::{has_key, listed, wanted, MatchType, PrefixRecord, StoreView};
use crate::text::hex_text;
use crate::types::{AfiSafiType, IngressId, IngressType, Prefix, PrefixKey};

verus! {

/// A query for FlowSpec rules is refused just if it has a parameter that does
/// not apply to them, and each of those is told by its name.
pub proof fn a_flowspec_query_is_refused_for_its_parameters(f: QueryFilter)
    ensures
        (unsupported_parameters(f).len() == 0) == (f.origin_asn is None && f.otc is None && f.community is None
            && f.large_community is None && f.rib_type is None && f.rov_status is None && f.peer_asn is None
            && f.peer_addr is None && f.fields_path_attributes is None && f.roto_function is None && f.format is Json),
        f.origin_asn is Some ==> unsupported_parameters(f).contains("filter[originAsn]"@),
        f.otc is Some ==> unsupported_parameters(f).contains("filter[otc]"@),
        f.community is Some ==> unsupported_parameters(f).contains("filter[community]"@),
        f.large_community is Some ==> unsupported_parameters(f).contains("filter[largeCommunity]"@),
        f.rib_type is Some ==> unsupported_parameters(f).contains("filter[ribType]"@),
        f.rov_status is Some ==> unsupported_parameters(f).contains("filter[rovStatus]"@),
        f.peer_asn is Some ==> unsupported_parameters(f).contains("filter[peerAsn]"@),
        f.peer_addr is Some ==> unsupported_parameters(f).contains("filter[peerAddress]"@),
        f.fields_path_attributes is Some ==> unsupported_parameters(f).contains("fields[pathAttributes]"@),
        f.roto_function is Some ==> unsupported_parameters(f).contains("function[roto]"@),
        f.format is Jsonl ==> unsupported_parameters(f).contains("format"@),
{
    let a = Seq::<Seq<char>>::empty();
    let b = noted_if(a, f.origin_asn is Some, "filter[originAsn]"@);
    lemma_noted_if(a, f.origin_asn is Some, "filter[originAsn]"@);
    let c = noted_if(b, f.otc is Some, "filter[otc]"@);
    lemma_noted_if(b, f.otc is Some, "filter[otc]"@);
    let d = noted_if(c, f.community is Some, "filter[community]"@);
    lemma_noted_if(c, f.community is Some, "filter[community]"@);
    let e = noted_if(d, f.large_community is Some, "filter[largeCommunity]"@);
    lemma_noted_if(d, f.large_community is Some, "filter[largeCommunity]"@);
    let g = noted_if(e, f.rib_type is Some, "filter[ribType]"@);
    lemma_noted_if(e, f.rib_type is Some, "filter[ribType]"@);
    let h = noted_if(g, f.rov_status is Some, "filter[rovStatus]"@);
    lemma_noted_if(g, f.rov_status is Some, "filter[rovStatus]"@);
    let i = noted_if(h, f.peer_asn is Some, "filter[peerAsn]"@);
    lemma_noted_if(h, f.peer_asn is Some, "filter[peerAsn]"@);
    let j = noted_if(i, f.peer_addr is Some, "filter[peerAddress]"@);
    lemma_noted_if(i, f.peer_addr is Some, "filter[peerAddress]"@);
    let k = noted_if(j, f.fields_path_attributes is Some, "fields[pathAttributes]"@);
    lemma_noted_if(j, f.fields_path_attributes is Some, "fields[pathAttributes]"@);
    let l = noted_if(k, f.roto_function is Some, "function[roto]"@);
    lemma_noted_if(k, f.roto_function is Some, "function[roto]"@);
    lemma_noted_if(l, !(f.format is Json), "format"@);
}

proof fn lemma_noted_if(list: Seq<Seq<char>>, there: bool, name: Seq<char>)
    ensures
        forall|t: Seq<char>| list.contains(t) ==> #[trigger] noted_if(list, there, name).contains(t),
        there ==> noted_if(list, there, name).contains(name),
        noted_if(list, there, name).len() == list.len() + (if there { 1int } else { 0 }),
{
    reveal(noted_if);
    let r = noted_if(list, there, name);
    if there {
        assert(r[list.len() as int] == name);
        assert forall|t: Seq<char>| list.contains(t) implies #[trigger] r.contains(t) by {
            let i = choose|i: int| 0 <= i < list.len() && list[i] == t;
            assert(r[i] == t);
        }
    }
}

/// Queries by prefix are answered for the four families of prefixes, and
/// refused for all others, or where they name a filter function that is not
/// defined.
pub proof fn queries_by_prefix_are_for_families_of_prefixes(family: AfiSafiType, f: QueryFilter, defined: bool)
    ensures
        family is Ipv4FlowSpec || family is Ipv6FlowSpec || family is L2VpnEvpn || family is Unsupported ==> refusal(
            family,
            f,
            defined,
        ) == Some("address family "@ + family.text() + " unsupported"@),
        family is Ipv4Unicast || family is Ipv6Unicast || family is Ipv4Multicast || family is Ipv6Multicast ==> {
            &&& f.roto_function is None || defined ==> refusal(family, f, defined) is None
            &&& f.roto_function matches Some(name) ==> !defined ==> refusal(family, f, defined) == Some(
                "no roto function '"@ + name@ + "' defined"@,
            )
        },
{
}

/// A query asks the table for what it includes: prefixes around the one that
/// it names, of one ingress or of all, and never what is withdrawn.
pub proof fn a_query_asks_for_what_it_includes(match_type: MatchType, f: QueryFilter, prefix: Prefix, family_v4: bool)
    ensures
        ({
            let o = options(match_type, f);
            let q = flowspec_query(family_v4, Some(prefix), f);
            let more = exists|i: int| 0 <= i < f.included@.len() && #[trigger] f.included@[i] == Include::MoreSpecifics;
            let less = exists|i: int| 0 <= i < f.included@.len() && #[trigger] f.included@[i] == Include::LessSpecifics;
            &&& o.match_type == match_type
            &&& !o.include_withdrawn
            &&& o.include_more_specifics == more
            &&& o.include_less_specifics == less
            &&& o.mui == f.ingress_id
            &&& q.family_v4 == family_v4
            &&& q.prefix == Some(prefix)
            &&& q.include_more_specifics == more
            &&& q.include_less_specifics == less
            &&& q.ingress_id == f.ingress_id
            &&& asks_for_all(prefix, f) == (prefix.len == 0 && more)
            &&& flowspec_query(family_v4, None, f).prefix is None
        }),
{
}

/// Whether an ingress is of a type that is asked for: itself, or its session,
/// and all that came through a monitored router are of the type of routers.
pub open spec fn fits_type(want: Option<IngressType>, infos: Map<IngressId, IngressInfo>, m: IngressId) -> bool {
    want matches Some(t) ==> {
        &&& infos.contains_key(m)
        &&& infos[m].ingress_type == Some(t) || t is Bmp && infos[m].ingress_type == Some(IngressType::BgpViaBmp)
            || infos[m].ingress_type == Some(IngressType::BgpPath) && (infos[m].parent_ingress matches Some(p)
            && infos.contains_key(p) && (infos[p].ingress_type == Some(t) || t is Bmp && infos[p].ingress_type == Some(
            IngressType::BgpViaBmp,
        )))
    }
}

/// Whether a row of an answer tells of a rule: under which prefix it is kept,
/// where it came from, what it is and whether it is valid.
pub open spec fn row_tells(row: FlowSpecRow, r: FlowSpecQueryRow) -> bool {
    &&& row.key_prefix@ == shown_prefix(r.key_prefix@)
    &&& row.ingress_id == r.ingress_id
    &&& row.validity == r.rule.validity
    &&& row.nlri_hex@ == hex_text(r.rule.nlri@)
    &&& row.attributes == r.rule.pamap
}

/// Whether a row tells of a rule of an ingress of the type that is asked for.
pub open spec fn tells_one(
    row: FlowSpecRow,
    infos: Map<IngressId, IngressInfo>,
    want: Option<IngressType>,
    found: Seq<FlowSpecQueryRow>,
) -> bool {
    exists|j: int|
        0 <= j < found.len() && fits_type(want, infos, (#[trigger] found[j]).ingress_id) && row_tells(row, found[j])
}

/// Every rule of an ingress of the type that is asked for is shown, and no
/// other.
pub proof fn an_answer_shows_the_rules_of_a_type(
    rows: Seq<FlowSpecRow>,
    infos: Map<IngressId, IngressInfo>,
    is_v4: bool,
    want: Option<IngressType>,
    found: Seq<FlowSpecQueryRow>,
)
    requires
        tell_rules(rows, infos, is_v4, rows_in_order(is_v4, rows_of_type(want, infos, found))),
    ensures
        forall|j: int|
            0 <= j < found.len() && fits_type(want, infos, (#[trigger] found[j]).ingress_id) ==> exists|i: int|
                0 <= i < rows.len() && row_tells(#[trigger] rows[i], found[j]),
        forall|i: int| 0 <= i < rows.len() ==> tells_one(#[trigger] rows[i], infos, want, found),
        rows.len() <= found.len(),
{
    broadcast use vstd::seq_lib::group_filter_ensures;

    let kept = rows_of_type(want, infos, found);
    let of_type = |r: FlowSpecQueryRow| is_of_type(want, infos, r.ingress_id);
    let good = |r: FlowSpecQueryRow| is_rule(r.rule.nlri@, is_v4) == true;
    let bad = |r: FlowSpecQueryRow| is_rule(r.rule.nlri@, is_v4) == false;
    let a = rows_formed(is_v4, true, kept);
    let b = rows_formed(is_v4, false, kept);
    let all = a + b;
    assert(kept == found.filter(of_type));
    assert(a =~= kept.filter(good));
    assert(b =~= kept.filter(bad));
    assert forall|j: int| 0 <= j < found.len() && fits_type(want, infos, (#[trigger] found[j]).ingress_id) implies exists|
        i: int,
    |
        0 <= i < rows.len() && row_tells(#[trigger] rows[i], found[j]) by {
        assert(of_type(found[j]));
        found.lemma_filter_contains(of_type, j);
        let k = choose|k: int| 0 <= k < kept.len() && kept[k] == found[j];
        if is_rule(found[j].rule.nlri@, is_v4) {
            assert(good(kept[k]));
            kept.lemma_filter_contains(good, k);
            let i = choose|i: int| 0 <= i < a.len() && a[i] == found[j];
            assert(all[i] == found[j]);
            assert(row_tells(rows[i], found[j]));
        } else {
            assert(bad(kept[k]));
            kept.lemma_filter_contains(bad, k);
            let i = choose|i: int| 0 <= i < b.len() && b[i] == found[j];
            assert(all[a.len() + i] == found[j]);
            assert(row_tells(rows[a.len() + i], found[j]));
        }
    }
    assert forall|i: int| 0 <= i < rows.len() implies tells_one(#[trigger] rows[i], infos, want, found) by {
        let r = all[i];
        assert(row_tells(rows[i], r));
        if i < a.len() {
            assert(a[i] == r);
            kept.lemma_filter_contains_rev(good, r);
        } else {
            assert(b[i - a.len()] == r);
            kept.lemma_filter_contains_rev(bad, r);
        }
        let k = choose|k: int| 0 <= k < kept.len() && kept[k] == r;
        assert(of_type(kept[k]));
        found.lemma_filter_contains_rev(of_type, kept[k]);
        let j = choose|j: int| 0 <= j < found.len() && found[j] == r;
        assert(fits_type(want, infos, found[j].ingress_id));
    }
    found.lemma_filter_len(of_type);
    lemma_parts(kept, good, bad);
}

proof fn lemma_parts<T>(s: Seq<T>, good: spec_fn(T) -> bool, bad: spec_fn(T) -> bool)
    requires
        forall|t: T| #[trigger] good(t) != bad(t),
    ensures
        s.filter(good).len() + s.filter(bad).len() == s.len(),
    decreases s.len(),
{
    reveal(Seq::filter);
    if s.len() > 0 {
        lemma_parts(s.drop_last(), good, bad);
        assert(good(s.last()) != bad(s.last()));
    }
}

/// Whether prefixes with their routes have a route of an ingress.
pub open spec fn has_listed(v: Seq<PrefixRecord<RotondaPaMap>>, p: PrefixKey, m: IngressId, attrs: Seq<u8>) -> bool {
    exists|i: int, k: int|
        0 <= i < v.len() && 0 <= k < v[i].meta@.len() && v[i].prefix@ == p && (
        #[trigger] v[i].meta@[k]).multi_uniq_id == m && v[i].meta@[k].meta@ == attrs
}

/// A dump of a store holds every route that is in use, as it was announced,
/// and no other.
pub proof fn a_dump_holds_what_is_in_use(s: StoreView<Seq<u8>>, v: Seq<PrefixRecord<RotondaPaMap>>)
    requires
        whole::<RotondaPaMap>(s, v),
    ensures
        forall|p: PrefixKey, m: IngressId| #[trigger]
            is_in_use(s, p, m) ==> has_listed(v, p, m, s.records[(p, m)].meta),
        forall|i: int, k: int|
            0 <= i < v.len() && 0 <= k < v[i].meta@.len() ==> s.records.contains_key(
                (v[i].prefix@, (#[trigger] v[i].meta@[k]).multi_uniq_id),
            ) && !(s.records[(v[i].prefix@, v[i].meta@[k].multi_uniq_id)].status is Withdrawn) && !(if v[i].prefix@.0 {
                s.gone_v4
            } else {
                s.gone_v6
            }).contains(v[i].meta@[k].multi_uniq_id),
{
    let keys = choose|keys: Seq<Prefix>| #[trigger]
        dumped::<RotondaPaMap>(s, keys, v) && forall|p: PrefixKey| #[trigger] has_key(keys, p) == s.has_prefix(p);
    assert forall|p: PrefixKey, m: IngressId| #[trigger] is_in_use(s, p, m) implies has_listed(
        v,
        p,
        m,
        s.records[(p, m)].meta,
    ) by {
        assert(s.records.contains_key((p, m)));
        assert(s.has_prefix(p));
        assert(has_key(keys, p));
        assert(current::<RotondaPaMap>(s, p, m) is Some);
        let i = choose|i: int| 0 <= i < v.len() && (#[trigger] v[i]).prefix@ == p;
        let recs = v[i].meta@;
        let k = choose|k: int| 0 <= k < recs.len() && (#[trigger] recs[k]).multi_uniq_id == m;
        assert(current::<RotondaPaMap>(s, p, recs[k].multi_uniq_id) == Some(recs[k]@));
        assert(v[i].meta@[k].multi_uniq_id == m);
    }
    assert forall|i: int, k: int| 0 <= i < v.len() && 0 <= k < v[i].meta@.len() implies s.records.contains_key(
        (v[i].prefix@, (#[trigger] v[i].meta@[k]).multi_uniq_id),
    ) && !(s.records[(v[i].prefix@, v[i].meta@[k].multi_uniq_id)].status is Withdrawn) && !(if v[i].prefix@.0 {
        s.gone_v4
    } else {
        s.gone_v6
    }).contains(v[i].meta@[k].multi_uniq_id) by {
        let r = v[i];
        assert(current::<RotondaPaMap>(s, r.prefix@, r.meta@[k].multi_uniq_id) == Some(r.meta@[k]@));
    }
}

/// The list of an ingress holds every unicast route of it that is in use, and
/// no other.
pub proof fn the_list_of_an_ingress_holds_what_is_in_use(
    s: StoreView<Seq<u8>>,
    id: IngressId,
    v: Seq<PrefixRecord<RotondaPaMap>>,
)
    requires
        of_ingress::<RotondaPaMap>(s, id, v),
    ensures
        forall|p: PrefixKey| #[trigger] is_in_use(s, p, id) ==> has_listed(v, p, id, s.records[(p, id)].meta),
        forall|i: int, k: int|
            0 <= i < v.len() && 0 <= k < v[i].meta@.len() ==> (#[trigger] v[i].meta@[k]).multi_uniq_id == id
                && is_in_use(s, v[i].prefix@, id),
{
    let n = choose|n: int|
        #![trigger v.take(n)]
        0 <= n <= v.len() && family_of_ingress(s, id, true, v.take(n)) && family_of_ingress(s, id, false, v.skip(n));
    let a = v.take(n);
    let b = v.skip(n);
    lemma_part(s, id, true, a);
    lemma_part(s, id, false, b);
    assert forall|p: PrefixKey| #[trigger] is_in_use(s, p, id) implies has_listed(v, p, id, s.records[(p, id)].meta) by {
        let attrs = s.records[(p, id)].meta;
        let part = if p.0 { a } else { b };
        assert(has_listed(part, p, id, attrs));
        let (i, k) = choose|i: int, k: int|
            0 <= i < part.len() && 0 <= k < part[i].meta@.len() && part[i].prefix@ == p && (
            #[trigger] part[i].meta@[k]).multi_uniq_id == id && part[i].meta@[k].meta@ == attrs;
        let at = if p.0 { i } else { n + i };
        assert(v[at] == part[i]);
        assert(v[at].meta@[k].multi_uniq_id == id);
    }
    assert forall|i: int, k: int| 0 <= i < v.len() && 0 <= k < v[i].meta@.len() implies (
    #[trigger] v[i].meta@[k]).multi_uniq_id == id && is_in_use(s, v[i].prefix@, id) by {
        if i < n {
            assert(a[i] == v[i]);
            assert(a[i].meta@[k].multi_uniq_id == id);
        } else {
            assert(b[i - n] == v[i]);
            assert(b[i - n].meta@[k].multi_uniq_id == id);
        }
    }
}

/// The part of one family of the list of an ingress.
proof fn lemma_part(s: StoreView<Seq<u8>>, id: IngressId, is_v4: bool, v: Seq<PrefixRecord<RotondaPaMap>>)
    requires
        family_of_ingress::<RotondaPaMap>(s, id, is_v4, v),
    ensures
        forall|p: PrefixKey|
            p.0 == is_v4 && #[trigger] is_in_use(s, p, id) ==> has_listed(v, p, id, s.records[(p, id)].meta),
        forall|i: int, k: int|
            0 <= i < v.len() && 0 <= k < v[i].meta@.len() ==> (#[trigger] v[i].meta@[k]).multi_uniq_id == id
                && is_in_use(s, v[i].prefix@, id),
{
    assert forall|p: PrefixKey| p.0 == is_v4 && #[trigger] is_in_use(s, p, id) implies has_listed(
        v,
        p,
        id,
        s.records[(p, id)].meta,
    ) by {
        assert(s.shown(p, id, true, false) is Some);
        assert(s.shows(p, Some(id), false));
        let i = choose|i: int| 0 <= i < v.len() && (#[trigger] v[i]).prefix@ == p;
        let recs = v[i].meta@;
        assert(listed(s, p, Some(id), false, recs));
        let k = choose|k: int| 0 <= k < recs.len() && (#[trigger] recs[k]).multi_uniq_id == id;
        assert(s.shown(p, recs[k].multi_uniq_id, true, false) == Some(recs[k]@));
        assert(v[i].meta@[k].multi_uniq_id == id);
    }
    assert forall|i: int, k: int| 0 <= i < v.len() && 0 <= k < v[i].meta@.len() implies (
    #[trigger] v[i].meta@[k]).multi_uniq_id == id && is_in_use(s, v[i].prefix@, id) by {
        let recs = v[i].meta@;
        assert(listed(s, v[i].prefix@, Some(id), false, recs));
        assert(wanted(Some(id), recs[k].multi_uniq_id));
        assert(s.shown(v[i].prefix@, recs[k].multi_uniq_id, true, false) == Some(recs[k]@));
    }
}

/// Each kind of query has one path, by its name, and the path for families in
/// general comes behind all others.
pub proof fn each_kind_of_query_has_its_path(i: int)
    requires
        0 <= i < table_routes().len(),
    ensures
        ({
            let all = table_routes();
            &&& all.len() == 14
            &&& match all[i].1 {
                Handler::SearchEvpn => all[i].0 == "/ribs/l2vpnevpn/routes"@,
                Handler::SearchIpv4Unicast => all[i].0 == "/ribs/ipv4unicast/routes/{prefix}/{prefix_len}"@,
                Handler::SearchIpv4UnicastAll => all[i].0 == "/ribs/ipv4unicast/routes"@,
                Handler::SearchIpv6Unicast => all[i].0 == "/ribs/ipv6unicast/routes/{prefix}/{prefix_len}"@,
                Handler::SearchIpv6UnicastAll => all[i].0 == "/ribs/ipv6unicast/routes"@,
                Handler::SearchIpv4FlowSpec => all[i].0 == "/ribs/ipv4flowspec/routes/{prefix}/{prefix_len}"@,
                Handler::SearchIpv4FlowSpecAll => all[i].0 == "/ribs/ipv4flowspec/routes"@,
                Handler::SearchIpv6FlowSpec => all[i].0 == "/ribs/ipv6flowspec/routes/{prefix}/{prefix_len}"@,
                Handler::SearchIpv6FlowSpecAll => all[i].0 == "/ribs/ipv6flowspec/routes"@,
                Handler::BestPathIpv4Unicast => all[i].0 == "/ribs/ipv4unicast/best-path/{prefix}/{prefix_len}"@,
                Handler::BestPathIpv4Addr => all[i].0 == "/ribs/ipv4unicast/best-path/{addr}"@,
                Handler::BestPathIpv6Unicast => all[i].0 == "/ribs/ipv6unicast/best-path/{prefix}/{prefix_len}"@,
                Handler::BestPathIpv6Addr => all[i].0 == "/ribs/ipv6unicast/best-path/{addr}"@,
                Handler::GenericAfisafiAll => all[i].0 == "/ribs/{afisafi}/routes"@,
            }
            &&& all[i].1 is GenericAfisafiAll <==> i == all.len() - 1
            &&& forall|j: int| 0 <= j < all.len() && j != i ==> (#[trigger] all[j]).1 != all[i].1
        }),
{
}

} // verus!
