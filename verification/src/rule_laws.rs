//! Laws of FlowSpec rules: under which prefix a rule is kept, which rules a
//! query is answered with, and when a rule is valid.
use vstd::prelude::*;

use crate::flowspec::{
    dst_key, neighbor_as, originator_id, path_start, rule_key, rules_distinct, wide_asns, FlowSpecValidity, Originator,
    RuleView,
};
use crate::flowspec_query::{
    answered, has_row, row_selected, rows_have, selected, FlowSpecQuery, FlowSpecQueryRow,
};
use crate::ingress::IngressInfo;
use crate::pamap::{attr_blob, attr_list};
use crate::rib::{rules_at, Rib};
use crate::route::RotondaRoute;
use crate::store::{lands_on, MatchType, StoreView, UpsertReport};
use crate::types::{
    covers, host_is_zero, masked_octet, padded, prefix_octets, IngressId, IngressType, Prefix, PrefixKey, RouteStatus,
};
use crate::validation::{
    contradicted, has_route, identity, objected, route_identity, same_origin, verdict, vouched, vouches,
};

verus! {

/// Whether a rule begins with a destination prefix: the type, the length, an
/// offset of zero if it is for IPv6, and the leading octets.
pub open spec fn begins_with_destination(raw: Seq<u8>, p: PrefixKey) -> bool {
    let at: int = if p.0 { 2 } else { 3 };
    let n = (p.2 + 7) / 8;
    &&& raw.len() >= at + n
    &&& raw[0] == 1
    &&& raw[1] == p.2
    &&& !p.0 ==> raw[2] == 0
    &&& forall|i: int| 0 <= i < n ==> raw[at + i] == #[trigger] p.1[i]
}

/// A rule is kept under the destination prefix that it begins with.
pub proof fn a_rule_is_kept_under_its_destination(raw: Seq<u8>, p: Prefix)
    requires
        p.wf(),
        begins_with_destination(raw, p@),
    ensures
        dst_key(raw, p@.0) == Some(p@),
        rule_key(raw, p@.0) == p@,
{
    let k = p@;
    let at: int = if k.0 { 2 } else { 3 };
    let size: int = if k.0 { 4 } else { 16 };
    let n = (k.2 + 7) / 8;
    let octets = padded(raw.subrange(at, at + prefix_octets(raw[1] as int)), size);
    assert forall|i: int| 0 <= i < size implies #[trigger] octets[i] == k.1[i] by {
        if i < n {
            assert(raw[at + i] == k.1[i]);
        } else {
            assert(k.1[i] == masked_octet(k.1, k.2 as int, i));
        }
    }
    assert(octets =~= k.1);
}

/// A rule that begins with something else is kept under the default route of
/// its family.
pub proof fn a_rule_without_a_destination_is_kept_under_the_default_route(raw: Seq<u8>, is_v4: bool)
    requires
        raw.len() == 0 || raw[0] != 1 || !is_v4 && raw.len() >= 3 && raw[2] != 0 || raw.len() >= 2 && raw[1] > (if is_v4 {
            32int
        } else {
            128
        }),
    ensures
        dst_key(raw, is_v4) is None,
        rule_key(raw, is_v4).0 == is_v4,
        rule_key(raw, is_v4).2 == 0,
        rule_key(raw, is_v4).1.len() == (if is_v4 { 4int } else { 16 }),
        forall|i: int| 0 <= i < rule_key(raw, is_v4).1.len() ==> #[trigger] rule_key(raw, is_v4).1[i] == 0,
{
}

/// The default route covers every prefix of its family, a prefix covers
/// itself, and one that covers another and is covered by it is the same.
pub proof fn prefixes_are_ordered(a: Prefix, b: Prefix)
    requires
        a.wf(),
        b.wf(),
    ensures
        a@.2 == 0 && a@.0 == b@.0 ==> covers(a@, b@),
        covers(a@, a@),
        covers(a@, b@) && covers(b@, a@) ==> a@ == b@,
        covers(a@, b@) ==> a@.0 == b@.0 && a@.2 <= b@.2 && forall|i: int|
            0 <= i && 8 * (i + 1) <= a@.2 ==> #[trigger] a@.1[i] == b@.1[i],
        a@.0 == b@.0 && a@.2 <= b@.2 && a@.2 % 8 == 0 && (forall|i: int|
            0 <= i && 8 * (i + 1) <= a@.2 ==> #[trigger] a@.1[i] == b@.1[i]) ==> covers(a@, b@),
{
    let x = a@;
    let y = b@;
    assert(host_is_zero(x.1, x.2 as int) && host_is_zero(y.1, y.2 as int));
    if x.2 == 0 && x.0 == y.0 {
        assert forall|i: int| 0 <= i < x.1.len() implies #[trigger] x.1[i] == masked_octet(y.1, x.2 as int, i) by {
            assert(x.1[i] == masked_octet(x.1, x.2 as int, i));
        }
    }
    if covers(x, y) && covers(y, x) {
        assert forall|i: int| 0 <= i < x.1.len() implies #[trigger] x.1[i] == y.1[i] by {
            assert(y.1[i] == masked_octet(y.1, y.2 as int, i));
        }
        assert(x.1 =~= y.1);
    }
    if x.0 == y.0 && x.2 <= y.2 && x.2 % 8 == 0 && (forall|i: int|
        0 <= i && 8 * (i + 1) <= x.2 ==> #[trigger] x.1[i] == y.1[i]) {
        assert forall|i: int| 0 <= i < x.1.len() implies #[trigger] x.1[i] == masked_octet(y.1, x.2 as int, i) by {
            assert(x.1[i] == masked_octet(x.1, x.2 as int, i));
        }
    }
}

/// Whether a query names a prefix: any of its family if it names none; else
/// the one that it names, or one that covers it, or that it covers, as it
/// asks for.
pub open spec fn names_key(q: FlowSpecQuery, p: PrefixKey) -> bool {
    match q.prefix {
        None => p.0 == q.family_v4,
        Some(key) => p == key@ || q.include_less_specifics && covers(p, key@) || q.include_more_specifics && covers(
            key@,
            p,
        ),
    }
}

/// Whether a query names an ingress, or any.
pub open spec fn names_ingress(q: FlowSpecQuery, m: IngressId) -> bool {
    q.ingress_id is None || q.ingress_id == Some(m)
}

/// Whether a store has an active set of rules of an ingress that is not
/// withdrawn.
pub open spec fn has_active_set(s: StoreView<Seq<RuleView>>, p: PrefixKey, m: IngressId) -> bool {
    &&& s.records.contains_key((p, m))
    &&& s.records[(p, m)].status is Active
    &&& !(if p.0 { s.gone_v4 } else { s.gone_v6 }).contains(m)
}

/// Whether an answer has a rule, as it was announced.
pub open spec fn tells_rule(
    rows: Seq<FlowSpecQueryRow>,
    p: PrefixKey,
    m: IngressId,
    nlri: Seq<u8>,
    attrs: Seq<u8>,
) -> bool {
    exists|i: int|
        #![trigger rows[i]]
        0 <= i < rows.len() && rows[i].key_prefix@ == p && rows[i].ingress_id == m && rows[i].rule.nlri@ == nlri
            && rows[i].rule.pamap@ == attrs
}

/// A query is answered with all rules that it names, as they were announced.
pub proof fn a_query_is_answered_with_all_rules_it_names(
    rib: Rib,
    q: FlowSpecQuery,
    limits: Option<(usize, usize)>,
    rows: Seq<FlowSpecQueryRow>,
    p: PrefixKey,
    m: IngressId,
    k: int,
)
    requires
        rib.wf(),
        answered(rib.flowspec@, q, limits, rows),
        names_key(q, p),
        names_ingress(q, m),
        has_active_set(rib.flowspec@, p, m),
        0 <= k < rib.flowspec@.records[(p, m)].meta.len(),
    ensures
        tells_rule(
            rows,
            p,
            m,
            rib.flowspec@.records[(p, m)].meta[k].nlri,
            rib.flowspec@.records[(p, m)].meta[k].pamap,
        ),
{
    let s = rib.flowspec@;
    let rules = s.records[(p, m)].meta;
    let rule = rules[k];
    assert(selected(s, q, p, m) == Some(s.records[(p, m)]));
    assert(rows_have(s, q, rows, p));
    assert(s.records[(p, m)].meta[k] == rule);
    assert(has_row(rows, p, m, rule.nlri));
    let i = choose|i: int| 0 <= i < rows.len() && (#[trigger] rows[i]).is_for(p, m, rule.nlri);
    assert(row_selected(s, q, rows[i]));
    let j = choose|j: int|
        0 <= j < rules.len() && (#[trigger] rules[j]).nlri == rows[i].rule.nlri@ && rules[j].pamap
            == rows[i].rule.pamap@;
    assert(rules_distinct(rules));
    assert(rules[j].nlri == rules[k].nlri);
    assert(j == k) by {
        if j < k {
            assert(rules[j].nlri != rules[k].nlri);
        }
        if k < j {
            assert(rules[k].nlri != rules[j].nlri);
        }
    }
}

/// A query is answered with nothing but rules that it names and that are in
/// the table, each once. Rules of a withdrawn ingress are among them only if
/// both a prefix and that ingress are named.
pub proof fn a_query_is_answered_with_nothing_else(
    rib: Rib,
    q: FlowSpecQuery,
    limits: Option<(usize, usize)>,
    rows: Seq<FlowSpecQueryRow>,
    i: int,
)
    requires
        answered(rib.flowspec@, q, limits, rows),
        0 <= i < rows.len(),
    ensures
        ({
            let p = rows[i].key_prefix@;
            let m = rows[i].ingress_id;
            &&& names_key(q, p)
            &&& names_ingress(q, m)
            &&& rib.flowspec@.records.contains_key((p, m))
            &&& rib.flowspec@.records[(p, m)].status is Active
            &&& q.prefix is None || q.ingress_id is None ==> has_active_set(rib.flowspec@, p, m)
            &&& exists|k: int|
                0 <= k < rib.flowspec@.records[(p, m)].meta.len() && (#[trigger] rib.flowspec@.records[(
                    p,
                    m,
                )].meta[k]).nlri == rows[i].rule.nlri@ && rib.flowspec@.records[(p, m)].meta[k].pamap
                    == rows[i].rule.pamap@
        }),
        forall|j: int|
            0 <= j < rows.len() && j != i ==> !((#[trigger] rows[j]).key_prefix@ == rows[i].key_prefix@
                && rows[j].ingress_id == rows[i].ingress_id && rows[j].rule.nlri@ == rows[i].rule.nlri@),
        limits matches Some((max_rows, _)) ==> rows.len() <= max_rows,
{
    assert(row_selected(rib.flowspec@, q, rows[i]));
    assert forall|j: int| 0 <= j < rows.len() && j != i implies !((#[trigger] rows[j]).key_prefix@
        == rows[i].key_prefix@ && rows[j].ingress_id == rows[i].ingress_id && rows[j].rule.nlri@ == rows[i].rule.nlri@) by {
        if i < j {
            assert(!rows[i].is_for(rows[j].key_prefix@, rows[j].ingress_id, rows[j].rule.nlri@));
        } else {
            assert(!rows[j].is_for(rows[i].key_prefix@, rows[i].ingress_id, rows[i].rule.nlri@));
        }
    }
}

/// A rule that was announced is found, as it was announced, by who asks for
/// all rules of its family, or for the prefix under which it is kept.
pub proof fn an_announced_rule_is_found_by_a_query(
    before: Rib,
    after: Rib,
    route: RotondaRoute,
    ltime: u64,
    mui: IngressId,
    retain: bool,
    r: Result<UpsertReport, String>,
    q: FlowSpecQuery,
    limits: Option<(usize, usize)>,
    rows: Seq<FlowSpecQueryRow>,
    p: Prefix,
)
    requires
        after.wf(),
        before.inserted(after, route, RouteStatus::Active, ltime, mui, retain, r),
        p.wf(),
        match route {
            RotondaRoute::Ipv4FlowSpec(n, _) => q.family_v4 && p@.0 && begins_with_destination(n@, p@),
            RotondaRoute::Ipv6FlowSpec(n, _) => !q.family_v4 && !p@.0 && begins_with_destination(n@, p@),
            _ => false,
        },
        q.prefix matches Some(key) ==> key@ == p@,
        names_ingress(q, mui),
        answered(after.flowspec@, q, limits, rows),
    ensures
        match route {
            RotondaRoute::Ipv4FlowSpec(n, a) | RotondaRoute::Ipv6FlowSpec(n, a) => tells_rule(rows, p@, mui, n@, a@),
            _ => false,
        },
{
    let nlri = route.nlri()->Rule_0;
    let key = rule_key(nlri, route is Ipv4FlowSpec);
    a_rule_is_kept_under_its_destination(nlri, p);
    assert(key == p@);
    crate::rib_laws::an_announced_rule_is_found(before, after, route, ltime, mui, retain, r);
    assert(has_active_set(after.flowspec@, key, mui));
    let i = choose|i: int|
        0 <= i < rules_at(after.flowspec@, key, mui).len() && (#[trigger] rules_at(after.flowspec@, key, mui)[i]).nlri
            == nlri && rules_at(after.flowspec@, key, mui)[i].pamap == route.attrs();
    assert(after.flowspec@.records[(key, mui)].meta[i].nlri == nlri);
    a_query_is_answered_with_all_rules_it_names(after, q, limits, rows, key, mui, i);
}

/// Whether an ingress that is not withdrawn has an active unicast route.
pub open spec fn is_live(u: StoreView<Seq<u8>>, p: PrefixKey, m: IngressId) -> bool {
    &&& u.records.contains_key((p, m))
    &&& u.records[(p, m)].status is Active
    &&& !(if p.0 { u.gone_v4 } else { u.gone_v6 }).contains(m)
}

/// Whether `best` is the longest of the prefixes with a record that cover
/// `dst`.
pub open spec fn is_best(u: StoreView<Seq<u8>>, dst: PrefixKey, best: PrefixKey) -> bool {
    &&& exists|m: IngressId| #[trigger] u.records.contains_key((best, m))
    &&& covers(best, dst)
    &&& forall|q: PrefixKey, m: IngressId| #[trigger] u.records.contains_key((q, m)) && covers(q, dst) ==> q.2 <= best.2
}

/// Whether a live route that is more specific than `dst` came through another
/// AS than the live route of `m` for `best`.
pub open spec fn is_disputed(
    u: StoreView<Seq<u8>>,
    infos: Map<IngressId, IngressInfo>,
    dst: PrefixKey,
    best: PrefixKey,
    m: IngressId,
) -> bool {
    exists|q: PrefixKey, n: IngressId| #[trigger]
        is_live(u, q, n) && covers(dst, q) && q != dst && identity(infos, u.records[(best, m)].meta, m).1 is Some
            && identity(infos, u.records[(q, n)].meta, n).1 is Some && identity(infos, u.records[(q, n)].meta, n).1
            != identity(infos, u.records[(best, m)].meta, m).1
}

/// A rule without a usable destination cannot be judged; any other can.
pub proof fn a_rule_is_judged_by_its_destination(
    u: StoreView<Seq<u8>>,
    infos: Map<IngressId, IngressInfo>,
    nlri: Seq<u8>,
    p: Prefix,
    is_v4: bool,
    originator: Originator,
    v: FlowSpecValidity,
)
    requires
        verdict(u, infos, nlri, is_v4, originator, v),
    ensures
        nlri.len() == 0 || nlri[0] != 1 ==> v is Unvalidatable,
        p.wf() && p@.0 == is_v4 && begins_with_destination(nlri, p@) ==> !(v is Unvalidatable),
{
    if p.wf() && p@.0 == is_v4 && begins_with_destination(nlri, p@) {
        a_rule_is_kept_under_its_destination(nlri, p);
    }
}

/// A valid rule has the originator of a best match for its destination, and
/// nothing more specific came through another AS than that match.
pub proof fn a_valid_rule_is_vouched_for(
    u: StoreView<Seq<u8>>,
    infos: Map<IngressId, IngressInfo>,
    nlri: Seq<u8>,
    p: Prefix,
    originator: Originator,
) -> (r: (PrefixKey, IngressId))
    requires
        p.wf(),
        begins_with_destination(nlri, p@),
        verdict(u, infos, nlri, p@.0, originator, FlowSpecValidity::Valid),
    ensures
        is_best(u, p@, r.0),
        is_live(u, r.0, r.1),
        identity(infos, u.records[(r.0, r.1)].meta, r.1).0 == originator,
        !is_disputed(u, infos, p@, r.0, r.1),
{
    let dst = p@;
    a_rule_is_kept_under_its_destination(nlri, p);
    assert(vouched(u, infos, dst, originator));
    let (best, m) = choose|best: PrefixKey, m: IngressId|
        #![trigger vouches(u, infos, dst, best, m, originator)]
        lands_on(u, dst, MatchType::LongestMatch, Some(best)) && vouches(u, infos, dst, best, m, originator);
    lemma_best(u, dst, best);
    lemma_disputed(u, infos, dst, best, m);
    (best, m)
}

/// A rule is valid if a best match for its destination has its originator,
/// and nothing more specific came through another AS than any such match.
pub proof fn a_rule_that_is_vouched_for_is_valid(
    u: StoreView<Seq<u8>>,
    infos: Map<IngressId, IngressInfo>,
    nlri: Seq<u8>,
    p: Prefix,
    originator: Originator,
    v: FlowSpecValidity,
    best: PrefixKey,
    m: IngressId,
)
    requires
        p.wf(),
        begins_with_destination(nlri, p@),
        verdict(u, infos, nlri, p@.0, originator, v),
        is_best(u, p@, best),
        is_live(u, best, m),
        identity(infos, u.records[(best, m)].meta, m).0 == originator,
        forall|b: PrefixKey, n: IngressId| #[trigger]
            is_live(u, b, n) && is_best(u, p@, b) && identity(infos, u.records[(b, n)].meta, n).0 == originator
                ==> !is_disputed(u, infos, p@, b, n),
    ensures
        v is Valid,
{
    let dst = p@;
    a_rule_is_kept_under_its_destination(nlri, p);
    lemma_best(u, dst, best);
    if v is Invalid {
        assert(objected(u, infos, dst, originator));
        assert(same_origin(u, infos, best, m, originator));
        let (b, n) = choose|b: PrefixKey, n: IngressId|
            #![trigger same_origin(u, infos, b, n, originator)]
            lands_on(u, dst, MatchType::LongestMatch, Some(b)) && same_origin(u, infos, b, n, originator) && contradicted(
                u,
                infos,
                dst,
                route_identity(u, infos, b, n).1,
            );
        lemma_best(u, dst, b);
        assert(is_live(u, b, n));
        lemma_disputed(u, infos, dst, b, n);
    }
}

/// A rule for a destination that no live route covers is not valid.
pub proof fn a_rule_that_nothing_covers_is_invalid(
    u: StoreView<Seq<u8>>,
    infos: Map<IngressId, IngressInfo>,
    nlri: Seq<u8>,
    p: Prefix,
    originator: Originator,
    v: FlowSpecValidity,
)
    requires
        p.wf(),
        begins_with_destination(nlri, p@),
        verdict(u, infos, nlri, p@.0, originator, v),
        forall|b: PrefixKey, n: IngressId| #[trigger] is_live(u, b, n) ==> !covers(b, p@),
    ensures
        v is Invalid,
{
    a_rule_is_judged_by_its_destination(u, infos, nlri, p, p@.0, originator, v);
    if v is Valid {
        let (b, n) = a_valid_rule_is_vouched_for(u, infos, nlri, p, originator);
        assert(is_live(u, b, n));
    }
}

/// The prefix that a longest match lands on is the best match.
proof fn lemma_best(u: StoreView<Seq<u8>>, dst: PrefixKey, best: PrefixKey)
    ensures
        lands_on(u, dst, MatchType::LongestMatch, Some(best)) == is_best(u, dst, best),
{
    if is_best(u, dst, best) {
        assert forall|q: PrefixKey| #[trigger] u.has_prefix(q) && covers(q, dst) implies q.2 <= best.2 by {
            let m = choose|m: IngressId| #[trigger] u.records.contains_key((q, m));
            assert(u.records.contains_key((q, m)));
        }
    }
    if lands_on(u, dst, MatchType::LongestMatch, Some(best)) {
        assert forall|q: PrefixKey, m: IngressId| #[trigger]
            u.records.contains_key((q, m)) && covers(q, dst) implies q.2 <= best.2 by {
            assert(u.has_prefix(q));
        }
    }
}

/// A route is contradicted if it is disputed.
proof fn lemma_disputed(
    u: StoreView<Seq<u8>>,
    infos: Map<IngressId, IngressInfo>,
    dst: PrefixKey,
    best: PrefixKey,
    m: IngressId,
)
    ensures
        contradicted(u, infos, dst, route_identity(u, infos, best, m).1) == is_disputed(u, infos, dst, best, m),
{
    assert(forall|q: PrefixKey, n: IngressId| #[trigger] has_route(u, q, n) == is_live(u, q, n));
    if is_disputed(u, infos, dst, best, m) {
        let (q, n) = choose|q: PrefixKey, n: IngressId| #[trigger]
            is_live(u, q, n) && covers(dst, q) && q != dst && identity(infos, u.records[(best, m)].meta, m).1 is Some
                && identity(infos, u.records[(q, n)].meta, n).1 is Some && identity(infos, u.records[(q, n)].meta, n).1
                != identity(infos, u.records[(best, m)].meta, m).1;
        assert(has_route(u, q, n));
    }
}

/// The session that a route came through: the parent of an ADD-PATH child,
/// else the ingress itself.
pub open spec fn is_session_of(infos: Map<IngressId, IngressInfo>, m: IngressId, s: IngressId) -> bool {
    if infos.contains_key(m) && infos[m].ingress_type == Some(IngressType::BgpPath) && infos[m].parent_ingress is Some {
        infos[m].parent_ingress == Some(s)
    } else {
        s == m
    }
}

/// The originator of a route is the last ORIGINATOR_ID of its attributes; if
/// it has none, the BGP identifier of its session; if that is not known, the
/// session.
pub proof fn the_originator_is_told_by_the_attributes(
    infos: Map<IngressId, IngressInfo>,
    attrs: Seq<u8>,
    m: IngressId,
    s: IngressId,
    j: int,
)
    requires
        is_session_of(infos, m, s),
        ({
            let list = attr_list(attr_blob(attrs));
            &&& -1 <= j < list.len()
            &&& j >= 0 ==> list[j].0 == 9 && list[j].1.len() == 4
            &&& forall|i: int| j < i < list.len() ==> (#[trigger] list[i]).0 != 9 || list[i].1.len() != 4
        }),
    ensures
        ({
            let o = identity(infos, attrs, m).0;
            &&& j >= 0 ==> o == Originator::BgpId(attr_list(attr_blob(attrs))[j].1)
            &&& j < 0 && infos.contains_key(s) && infos[s].bgp_id is Some ==> o == Originator::BgpId(
                infos[s].bgp_id->Some_0@,
            )
            &&& j < 0 && !(infos.contains_key(s) && infos[s].bgp_id is Some) ==> o == Originator::Ingress(s)
        }),
{
    lemma_last_id(attr_list(attr_blob(attrs)), j);
}

proof fn lemma_last_id(list: Seq<(u8, Seq<u8>)>, j: int)
    requires
        -1 <= j < list.len(),
        j >= 0 ==> list[j].0 == 9 && list[j].1.len() == 4,
        forall|i: int| j < i < list.len() ==> (#[trigger] list[i]).0 != 9 || list[i].1.len() != 4,
    ensures
        j >= 0 ==> originator_id(list) == Some(list[j].1),
        j < 0 ==> originator_id(list) is None,
    decreases list.len(),
{
    if list.len() > 0 && j < list.len() - 1 {
        let rest = list.drop_last();
        assert(list.last() == list[list.len() - 1]);
        assert forall|i: int| j < i < rest.len() implies (#[trigger] rest[i]).0 != 9 || rest[i].1.len() != 4 by {
            assert(rest[i] == list[i]);
        }
        lemma_last_id(rest, j);
    }
}

/// A route came through the first AS of its AS_PATH, which begins with a
/// sequence; if it has no AS_PATH, through the AS of its session.
pub proof fn the_neighbor_is_the_first_as(
    infos: Map<IngressId, IngressInfo>,
    attrs: Seq<u8>,
    m: IngressId,
    s: IngressId,
    j: int,
)
    requires
        is_session_of(infos, m, s),
        attrs.len() >= 2,
        ({
            let list = attr_list(attr_blob(attrs));
            &&& 0 <= j <= list.len()
            &&& j < list.len() ==> list[j].0 == 2 && list[j].1.len() >= 6 && list[j].1[0] == 2 && list[j].1[1] != 0
            &&& forall|i: int| 0 <= i < j ==> (#[trigger] list[i]).0 != 2
        }),
    ensures
        ({
            let list = attr_list(attr_blob(attrs));
            let asn = identity(infos, attrs, m).1;
            &&& j < list.len() && attrs[1] == 1 ==> asn == Some(
                (list[j].1[2] * 16777216 + list[j].1[3] * 65536 + list[j].1[4] * 256 + list[j].1[5]) as u32,
            )
            &&& j < list.len() && attrs[1] != 1 ==> asn == Some((list[j].1[2] * 256 + list[j].1[3]) as u32)
            &&& j == list.len() && infos.contains_key(s) ==> asn == infos[s].remote_asn
            &&& j == list.len() && !infos.contains_key(s) ==> asn is None
        }),
{
    lemma_first_as(attr_list(attr_blob(attrs)), wide_asns(attrs), j);
}

proof fn lemma_first_as(list: Seq<(u8, Seq<u8>)>, wide: bool, j: int)
    requires
        0 <= j <= list.len(),
        j < list.len() ==> list[j].0 == 2 && path_start(list[j].1, wide) is Some,
        forall|i: int| 0 <= i < j ==> (#[trigger] list[i]).0 != 2,
    ensures
        j < list.len() ==> neighbor_as(list, wide) == path_start(list[j].1, wide),
        j == list.len() ==> neighbor_as(list, wide) is None,
    decreases list.len(),
{
    if list.len() > 0 {
        let rest = list.drop_last();
        assert(list.last() == list[list.len() - 1]);
        assert forall|i: int| 0 <= i < j && i < rest.len() implies (#[trigger] rest[i]).0 != 2 by {
            assert(rest[i] == list[i]);
        }
        if j < rest.len() {
            assert(rest[j] == list[j]);
            lemma_first_as(rest, wide, j);
        } else {
            lemma_first_as(rest, wide, rest.len() as int);
        }
    }
}

} // verus!
