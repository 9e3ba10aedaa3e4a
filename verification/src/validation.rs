//! The validation of FlowSpec rules against unicast routes. A rule for a
//! destination prefix is valid if whoever originated it also originated the
//! best match for that prefix, and if no more specific route comes from
//! another neighboring AS.
use vstd::prelude::*;

use crate::flowspec::{
    dst_key, dst_prefix, flowspec_validation_attrs, neighbor_as, opt_id, originator_id, wide_asns, FlowSpecOriginator,
    FlowSpecValidity, Originator,
};
use crate::ingress::IngressInfo;
use crate::pamap::{attr_blob, attr_list, RotondaPaMap};
use crate::register::{session_of, Register};
use crate::store::{
    answers, lands_on, listed, set_listed, MatchOptions, MatchType, PrefixRecord, Record, RouteStore, Scope, StoreView,
};
use crate::types::{covers, IngressId, PrefixKey};

verus! {

/// Who originated a route, and the AS that it came through: by its path
/// attributes, else by what is known of its session.
pub open spec fn identity(
    infos: Map<IngressId, IngressInfo>,
    attrs: Seq<u8>,
    mui: IngressId,
) -> (Originator, Option<u32>) {
    let list = attr_list(attr_blob(attrs));
    let session = session_of(infos, mui);
    let peer_id = if infos.contains_key(session) {
        opt_id(infos[session].bgp_id)
    } else {
        None
    };
    let remote_asn = if infos.contains_key(session) {
        infos[session].remote_asn
    } else {
        None
    };
    let originator = match (originator_id(list), peer_id) {
        (Some(id), _) => Originator::BgpId(id),
        (None, Some(id)) => Originator::BgpId(id),
        (None, None) => Originator::Ingress(session),
    };
    let neighbor = match neighbor_as(list, wide_asns(attrs)) {
        Some(asn) => Some(asn),
        None => remote_asn,
    };
    (originator, neighbor)
}

/// Who originated a route, and the AS that it came through.
pub fn flowspec_identity(register: &Register, pamap: &RotondaPaMap, mui: IngressId) -> (r: (
    FlowSpecOriginator,
    Option<u32>,
))
    requires
        register.wf(),
    ensures
        (r.0@, r.1) == identity(register@, pamap@, mui),
{
    let session: IngressId = register.session_for(mui);
    let (attr_id, path_neighbor) = flowspec_validation_attrs(pamap);
    let (peer_id, remote_asn) = register.bgp_id_and_remote_asn(session);
    let originator = match (attr_id, peer_id) {
        (Some(id), _) => FlowSpecOriginator::BgpId(id),
        (None, Some(id)) => FlowSpecOriginator::BgpId(id),
        (None, None) => FlowSpecOriginator::Ingress(session),
    };
    let neighbor: Option<u32> = match path_neighbor {
        Some(asn) => Some(asn),
        None => remote_asn,
    };
    (originator, neighbor)
}

/// An active route of `mui` for `p`.
pub open spec fn has_route(unicast: StoreView<Seq<u8>>, p: PrefixKey, mui: IngressId) -> bool {
    unicast.shown(p, mui, false, false) is Some
}

/// Who originated an active route, and the AS that it came through.
pub open spec fn route_identity(
    unicast: StoreView<Seq<u8>>,
    infos: Map<IngressId, IngressInfo>,
    p: PrefixKey,
    mui: IngressId,
) -> (Originator, Option<u32>) {
    identity(infos, unicast.records[(p, mui)].meta, mui)
}

/// Whether a more specific active route for `dst` came through an AS other
/// than `asn`.
pub open spec fn contradicted(
    unicast: StoreView<Seq<u8>>,
    infos: Map<IngressId, IngressInfo>,
    dst: PrefixKey,
    asn: Option<u32>,
) -> bool {
    asn is Some && exists|p: PrefixKey, m: IngressId| #[trigger]
        has_route(unicast, p, m) && covers(dst, p) && p != dst && (route_identity(unicast, infos, p, m).1 matches Some(
            other,
        ) && Some(other) != asn)
}

/// Whether the active route of `mui` for `best` vouches for a rule: it has
/// the same originator, and nothing more specific contradicts it.
pub open spec fn vouches(
    unicast: StoreView<Seq<u8>>,
    infos: Map<IngressId, IngressInfo>,
    dst: PrefixKey,
    best: PrefixKey,
    mui: IngressId,
    originator: Originator,
) -> bool {
    &&& same_origin(unicast, infos, best, mui, originator)
    &&& !contradicted(unicast, infos, dst, route_identity(unicast, infos, best, mui).1)
}

/// Whether `mui` has an active route for `best` with a given originator.
pub open spec fn same_origin(
    unicast: StoreView<Seq<u8>>,
    infos: Map<IngressId, IngressInfo>,
    best: PrefixKey,
    mui: IngressId,
    originator: Originator,
) -> bool {
    has_route(unicast, best, mui) && route_identity(unicast, infos, best, mui).0 == originator
}

/// Whether a best match for `dst` vouches for a rule of `originator`.
pub open spec fn vouched(
    unicast: StoreView<Seq<u8>>,
    infos: Map<IngressId, IngressInfo>,
    dst: PrefixKey,
    originator: Originator,
) -> bool {
    exists|best: PrefixKey, m: IngressId|
        #![trigger vouches(unicast, infos, dst, best, m, originator)]
        lands_on(unicast, dst, MatchType::LongestMatch, Some(best)) && vouches(unicast, infos, dst, best, m, originator)
}

/// Whether a rule of `originator` for `dst` is objected to: no best match is
/// of the same originator, or one is and something more specific contradicts
/// it.
pub open spec fn objected(
    unicast: StoreView<Seq<u8>>,
    infos: Map<IngressId, IngressInfo>,
    dst: PrefixKey,
    originator: Originator,
) -> bool {
    ||| forall|best: PrefixKey, m: IngressId|
        #![trigger same_origin(unicast, infos, best, m, originator)]
        lands_on(unicast, dst, MatchType::LongestMatch, Some(best)) ==> !same_origin(
            unicast,
            infos,
            best,
            m,
            originator,
        )
    ||| exists|best: PrefixKey, m: IngressId|
        #![trigger same_origin(unicast, infos, best, m, originator)]
        lands_on(unicast, dst, MatchType::LongestMatch, Some(best)) && same_origin(
            unicast,
            infos,
            best,
            m,
            originator,
        ) && contradicted(unicast, infos, dst, route_identity(unicast, infos, best, m).1)
}

/// Whether `v` is a verdict on a rule. Where several routes of its originator
/// are best matches, either of them may be taken to vouch for it.
pub open spec fn verdict(
    unicast: StoreView<Seq<u8>>,
    infos: Map<IngressId, IngressInfo>,
    nlri: Seq<u8>,
    is_v4: bool,
    originator: Originator,
    v: FlowSpecValidity,
) -> bool {
    match dst_key(nlri, is_v4) {
        None => v is Unvalidatable,
        Some(dst) => {
            ||| v is Valid && vouched(unicast, infos, dst, originator)
            ||| v is Invalid && objected(unicast, infos, dst, originator)
        },
    }
}

/// Where all best matches of a rule's originator came through one AS, there is
/// only one verdict on it.
pub proof fn verdict_is_unique(
    unicast: RouteStore<RotondaPaMap>,
    infos: Map<IngressId, IngressInfo>,
    nlri: Seq<u8>,
    is_v4: bool,
    originator: Originator,
    asn: Option<u32>,
    v: FlowSpecValidity,
    w: FlowSpecValidity,
)
    requires
        unicast.wf(),
        verdict(unicast@, infos, nlri, is_v4, originator, v),
        verdict(unicast@, infos, nlri, is_v4, originator, w),
        forall|best: PrefixKey, m: IngressId|
            #![trigger same_origin(unicast@, infos, best, m, originator)]
            same_origin(unicast@, infos, best, m, originator) ==> route_identity(unicast@, infos, best, m).1 == asn,
    ensures
        v == w,
{
    match dst_key(nlri, is_v4) {
        None => {},
        Some(dst) => {
            let s = unicast@;
            if vouched(s, infos, dst, originator) && objected(s, infos, dst, originator) {
                let (best, m) = choose|best: PrefixKey, m: IngressId|
                    #![trigger vouches(s, infos, dst, best, m, originator)]
                    lands_on(s, dst, MatchType::LongestMatch, Some(best)) && vouches(s, infos, dst, best, m, originator);
                assert(same_origin(s, infos, best, m, originator));
                let (b2, m2) = choose|best: PrefixKey, m: IngressId|
                    #![trigger same_origin(s, infos, best, m, originator)]
                    lands_on(s, dst, MatchType::LongestMatch, Some(best)) && same_origin(
                        s,
                        infos,
                        best,
                        m,
                        originator,
                    ) && contradicted(s, infos, dst, route_identity(s, infos, best, m).1);
                assert(same_origin(s, infos, b2, m2, originator));
            }
        },
    }
}

/// The first of some records with a given originator: the AS that it came
/// through.
fn find_origin(
    unicast: &RouteStore<RotondaPaMap>,
    register: &Register,
    best: Ghost<PrefixKey>,
    records: &Vec<Record<RotondaPaMap>>,
    originator: &FlowSpecOriginator,
) -> (r: Option<Option<u32>>)
    requires
        register.wf(),
        listed(unicast@, best@, None, false, records@),
    ensures
        match r {
            Some(asn) => exists|m: IngressId| #[trigger]
                same_origin(unicast@, register@, best@, m, originator@) && route_identity(
                    unicast@,
                    register@,
                    best@,
                    m,
                ).1 == asn,
            None => forall|m: IngressId| !#[trigger] same_origin(unicast@, register@, best@, m, originator@),
        },
{
    let mut i: usize = 0;
    while i < records.len()
        invariant
            i <= records@.len(),
            register.wf(),
            listed(unicast@, best@, None, false, records@),
            forall|j: int|
                0 <= j < i ==> !same_origin(
                    unicast@,
                    register@,
                    best@,
                    (#[trigger] records@[j]).multi_uniq_id,
                    originator@,
                ),
        decreases records@.len() - i,
    {
        let rec = &records[i];
        assert(unicast@.shown(best@, rec.multi_uniq_id, false, false) == Some(rec@));
        let (o, asn) = flowspec_identity(register, &rec.meta, rec.multi_uniq_id);
        if o.equals(originator) {
            assert(same_origin(unicast@, register@, best@, rec.multi_uniq_id, originator@));
            return Some(asn);
        }
        i = i + 1;
    }
    proof {
        assert forall|m: IngressId| !#[trigger] same_origin(unicast@, register@, best@, m, originator@) by {
            if same_origin(unicast@, register@, best@, m, originator@) {
                assert(unicast@.shown(best@, m, false, false) is Some);
                let j = choose|j: int| 0 <= j < records@.len() && (#[trigger] records@[j]).multi_uniq_id == m;
            }
        }
    }
    None
}

/// Whether one of the more specific routes came through another AS.
fn find_contradiction(
    unicast: &RouteStore<RotondaPaMap>,
    register: &Register,
    scope: Scope,
    more: &Vec<PrefixRecord<RotondaPaMap>>,
    asn: u32,
) -> (r: bool)
    requires
        register.wf(),
        set_listed(unicast@, scope, None, false, more@),
        scope is MoreSpecific,
    ensures
        r == contradicted(unicast@, register@, scope->MoreSpecific_0@, Some(asn)),
{
    let ghost dst = scope->MoreSpecific_0@;
    let mut i: usize = 0;
    while i < more.len()
        invariant
            i <= more@.len(),
            register.wf(),
            scope is MoreSpecific,
            dst == scope->MoreSpecific_0@,
            set_listed(unicast@, scope, None, false, more@),
            forall|k: int, m: IngressId|
                0 <= k < i ==> !(#[trigger] has_route(unicast@, (#[trigger] more@[k]).prefix@, m) && (route_identity(
                    unicast@,
                    register@,
                    more@[k].prefix@,
                    m,
                ).1 matches Some(other) && other != asn)),
        decreases more@.len() - i,
    {
        let pr = &more[i];
        let ghost p = pr.prefix@;
        let mut j: usize = 0;
        while j < pr.meta.len()
            invariant
                j <= pr.meta@.len(),
                register.wf(),
                p == pr.prefix@,
                scope is MoreSpecific,
                dst == scope->MoreSpecific_0@,
                listed(unicast@, p, None, false, pr.meta@),
                covers(dst, p),
                p != dst,
                forall|l: int|
                    0 <= l < j ==> !(route_identity(
                        unicast@,
                        register@,
                        p,
                        (#[trigger] pr.meta@[l]).multi_uniq_id,
                    ).1 matches Some(other) && other != asn),
            decreases pr.meta@.len() - j,
        {
            let rec = &pr.meta[j];
            assert(unicast@.shown(p, rec.multi_uniq_id, false, false) == Some(rec@));
            let (_, other) = flowspec_identity(register, &rec.meta, rec.multi_uniq_id);
            match other {
                Some(o) => {
                    if o != asn {
                        assert(has_route(unicast@, p, rec.multi_uniq_id));
                        return true;
                    }
                },
                None => {},
            }
            j = j + 1;
        }
        proof {
            assert forall|m: IngressId| !(#[trigger] has_route(unicast@, p, m) && (route_identity(
                unicast@,
                register@,
                p,
                m,
            ).1 matches Some(other) && other != asn)) by {
                if has_route(unicast@, p, m) {
                    assert(unicast@.shown(p, m, false, false) is Some);
                    let l = choose|l: int| 0 <= l < pr.meta@.len() && (#[trigger] pr.meta@[l]).multi_uniq_id == m;
                }
            }
        }
        i = i + 1;
    }
    proof {
        if contradicted(unicast@, register@, dst, Some(asn)) {
            let (p, m) = choose|p: PrefixKey, m: IngressId| #[trigger]
                has_route(unicast@, p, m) && covers(dst, p) && p != dst && (route_identity(unicast@, register@, p, m).1 matches Some(
                    other,
                ) && Some(other) != Some(asn));
            assert(unicast@.shown(p, m, false, false) is Some);
            assert(unicast@.shows(p, None, false));
            assert(scope.has(p));
            let k = choose|k: int| 0 <= k < more@.len() && (#[trigger] more@[k]).prefix@ == p;
            assert(has_route(unicast@, more@[k].prefix@, m));
        }
    }
    false
}

/// Validates a rule against the unicast routes.
pub fn validate_flowspec(
    unicast: &RouteStore<RotondaPaMap>,
    register: &Register,
    nlri_raw: &[u8],
    originator: &FlowSpecOriginator,
    is_v4: bool,
) -> (r: FlowSpecValidity)
    requires
        unicast.wf(),
        register.wf(),
    ensures
        verdict(unicast@, register@, nlri_raw@, is_v4, originator@, r),
{
    let dst = match dst_prefix(nlri_raw, is_v4) {
        Some(p) => p,
        None => {
            return FlowSpecValidity::Unvalidatable;
        },
    };
    let options = MatchOptions {
        match_type: MatchType::LongestMatch,
        include_withdrawn: false,
        include_less_specifics: false,
        include_more_specifics: true,
        mui: None,
    };
    let res = unicast.match_prefix(&dst, &options);
    let ghost s = unicast@;
    let ghost infos = register@;
    let ghost found = choose|found: Option<PrefixKey>| #[trigger]
        lands_on(s, dst@, MatchType::LongestMatch, found) && match res.prefix {
            Some(p) => found == Some(p@) && p.wf() && s.shows(p@, None, false) && listed(
                s,
                p@,
                None,
                false,
                res.records@,
            ),
            None => res.records@.len() == 0 && (found matches Some(p) ==> !s.shows(p, None, false)),
        };
    proof {
        assert(answers(s, dst, options, res));
    }
    let best = match res.prefix {
        Some(p) => p,
        None => {
            proof {
                assert forall|best: PrefixKey, m: IngressId|
                    #![trigger same_origin(s, infos, best, m, originator@)]
                    lands_on(s, dst@, MatchType::LongestMatch, Some(best)) implies !same_origin(
                    s,
                    infos,
                    best,
                    m,
                    originator@,
                ) by {
                    if same_origin(s, infos, best, m, originator@) {
                        assert(s.shown(best, m, false, false) is Some);
                        assert(s.shows(best, None, false));
                        lemma_landing_unique(*unicast, dst@, best, found);
                    }
                }
            }
            return FlowSpecValidity::Invalid;
        },
    };
    match find_origin(unicast, register, Ghost(best@), &res.records, originator) {
        Some(asn) => {
            let ghost m = choose|m: IngressId| #[trigger]
                same_origin(s, infos, best@, m, originator@) && route_identity(s, infos, best@, m).1 == asn;
            match (asn, &res.more_specifics) {
                (Some(a), Some(more)) => {
                    if find_contradiction(unicast, register, Scope::MoreSpecific(dst), more, a) {
                        assert(same_origin(s, infos, best@, m, originator@));
                        return FlowSpecValidity::Invalid;
                    }
                },
                _ => {},
            }
            assert(lands_on(s, dst@, MatchType::LongestMatch, Some(best@)));
            assert(!contradicted(s, infos, dst@, asn));
            assert(vouches(s, infos, dst@, best@, m, originator@));
            assert(vouched(s, infos, dst@, originator@));
            FlowSpecValidity::Valid
        },
        None => {
            proof {
                assert forall|b: PrefixKey, m: IngressId|
                    #![trigger same_origin(s, infos, b, m, originator@)]
                    lands_on(s, dst@, MatchType::LongestMatch, Some(b)) implies !same_origin(
                    s,
                    infos,
                    b,
                    m,
                    originator@,
                ) by {
                    lemma_landing_unique(*unicast, dst@, b, found);
                    assert(b == best@);
                }
            }
            assert(objected(s, infos, dst@, originator@));
            FlowSpecValidity::Invalid
        },
    }
}

/// A query lands on at most one prefix.
proof fn lemma_landing_unique(unicast: RouteStore<RotondaPaMap>, dst: PrefixKey, best: PrefixKey, found: Option<PrefixKey>)
    requires
        unicast.wf(),
        lands_on(unicast@, dst, MatchType::LongestMatch, Some(best)),
        lands_on(unicast@, dst, MatchType::LongestMatch, found),
    ensures
        found == Some(best),
{
    unicast.lemma_valid_keys();
    match found {
        Some(f) => {
            assert(f.1 =~= best.1);
        },
        None => {},
    }
}

} // verus!
