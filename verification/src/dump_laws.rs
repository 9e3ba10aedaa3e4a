//! What holds of a dump of the whole table to a client.
use vstd::multiset::*;
use vstd::prelude::*;

use crate::aggregator::{item_routes, AggItem, AggRoute, NlriView};
use crate::bmp_builder::{
    end_of_rib_update, evpn_update, flowspec_update, monitored, peer_up_bytes, prefix_update, route_monitoring_bytes,
    supported_list, PeerInfo, Timestamp,
};
use crate::client::{shown_peer, ClientView, EmitOptions, Update};
use crate::client_dump::{
    all_markers, carried, enumerated, evpn_all_told, evpns, is_enumerated, markers_for, peer_markers, prefix_route, prefix_routes, record_routes, record_rules, rule_routes, set_routes, ups,
    walk_target, DumpMessage, Peers, TableDump,
};
use crate::dump::{current, current_listed, dumped};
use crate::evpn::EvpnRecord;
use crate::flowspec::{FlowSpecRuleSet, RuleView};
use crate::full_dump::{is_whole, owed, split_at_markers, well_told, whole_dump};
use crate::ingress::IngressInfo;
use crate::open_laws::{families_are_those_that_were_advertised, names_family};
use crate::pamap::{attr_blob, RotondaPaMap};
use crate::peer_laws::{
    a_peer_is_told_as_it_is_registered, a_peer_up_is_read_back, a_route_monitoring_message_is_read_back, is_headed,
    is_told_as_registered,
};
use crate::rib::Rib;
use crate::rib_lifecycle::evpn_listed;
use crate::store::{has_key, PrefixRecord, Record};
use crate::types::{AfiSafiType, IngressId, IngressState, IngressType, Prefix, PrefixKey};
use crate::update_laws::{an_end_of_rib_marker_is_read_back, ends_in, is_whole_update};

verus! {

/// Each Peer Up that messages have is one of them.
proof fn lemma_up_is_a_message(msgs: Seq<DumpMessage>, id: IngressId) -> (i: int)
    requires
        ups(msgs).contains(id),
    ensures
        0 <= i < msgs.len(),
        msgs[i] matches DumpMessage::PeerUp(x, _) && x == id,
    decreases msgs.len(),
{
    let k = choose|k: int| 0 <= k < ups(msgs).len() && ups(msgs)[k] == id;
    let rest = msgs.drop_last();
    match msgs.last() {
        DumpMessage::PeerUp(x, _) => {
            if x == id {
                msgs.len() - 1
            } else {
                assert(ups(rest)[k] == id);
                lemma_up_is_a_message(rest, id)
            }
        },
        _ => lemma_up_is_a_message(rest, id),
    }
}

/// A dump has a Peer Up for each registered ingress that is a connected BGP
/// session, a connected session that is seen through BMP, or a peer of an MRT
/// file whatever its state. It is a BMP message of type 3, and tells of the
/// peer what is registered of the ingress.
pub proof fn every_peer_has_its_peer_up(
    rib: &Rib,
    options: EmitOptions,
    now: Timestamp,
    sys_name: Seq<char>,
    sys_descr: Seq<char>,
    before: ClientView,
    after: ClientView,
    d: TableDump,
    msgs: Seq<DumpMessage>,
    waited: Seq<Update>,
    id: IngressId,
)
    requires
        whole_dump(rib, options, now, sys_name, sys_descr, before, after, d, msgs, waited),
        rib.ingress_register@.contains_key(id),
        rib.ingress_register@[id].ingress_type == Some(IngressType::Bgp) && rib.ingress_register@[id].state == Some(
            IngressState::Connected,
        ) || rib.ingress_register@[id].ingress_type == Some(IngressType::BgpViaBmp) && rib.ingress_register@[id].state
            == Some(IngressState::Connected) || rib.ingress_register@[id].ingress_type == Some(IngressType::Mrt),
    ensures
        exists|i: int|
            0 <= i < msgs.len() && ((#[trigger] msgs[i]) matches DumpMessage::PeerUp(x, b) && x == id && is_peer_up(
                b@,
                rib.ingress_register@[id],
                options,
                now,
            )),
        after.known.contains(id),
{
    lemma_is_first(rib.ingress_register@, d.peers@, id);
    let i = lemma_first_has_up(rib, options, now, sys_name, sys_descr, before, after, d, msgs, waited, id);
    assert(msgs[i] matches DumpMessage::PeerUp(x, b) && x == id && is_peer_up(
        b@,
        rib.ingress_register@[id],
        options,
        now,
    ));
}

/// The ingresses that a dump begins with.
proof fn lemma_is_first(infos: Map<IngressId, IngressInfo>, first: Seq<IngressId>, id: IngressId)
    requires
        enumerated(infos, first),
        infos.contains_key(id),
        infos[id].ingress_type == Some(IngressType::Bgp) && infos[id].state == Some(IngressState::Connected)
            || infos[id].ingress_type == Some(IngressType::BgpViaBmp) && infos[id].state == Some(IngressState::Connected)
            || infos[id].ingress_type == Some(IngressType::Mrt),
    ensures
        first.contains(id),
{
    assert(is_enumerated(infos, id));
}

proof fn lemma_first_has_up(
    rib: &Rib,
    options: EmitOptions,
    now: Timestamp,
    sys_name: Seq<char>,
    sys_descr: Seq<char>,
    before: ClientView,
    after: ClientView,
    d: TableDump,
    msgs: Seq<DumpMessage>,
    waited: Seq<Update>,
    id: IngressId,
) -> (i: int)
    requires
        whole_dump(rib, options, now, sys_name, sys_descr, before, after, d, msgs, waited),
        d.peers@.contains(id),
    ensures
        0 <= i < msgs.len(),
        msgs[i] matches DumpMessage::PeerUp(x, b) && x == id && is_peer_up(
            b@,
            rib.ingress_register@[id],
            options,
            now,
        ),
        after.known.contains(id),
{
    let infos = rib.ingress_register@;
    let k = choose|k: int| 0 <= k < d.peers@.len() && d.peers@[k] == id;
    let ids = d.peers@ + d.discovered@;
    assert(ids[k] == id);
    assert(ids.contains(id));
    assert(ids.to_set().contains(id));
    let i = lemma_up_is_a_message(msgs, id);
    assert(d.met().dom().contains(id));
    assert(shown_peer(infos, id, options, d.met()[id])) by {
        assert(d.met().contains_key(id));
    }
    assert(well_told(d.met(), d.peers@, now, msgs[i]));
    lemma_told_up(infos, options, d.met(), d.peers@, now, msgs[i], id);
    i
}

/// A Peer Up that is what it should be for its peer tells what is registered
/// of it.
proof fn lemma_told_up(
    infos: Map<IngressId, IngressInfo>,
    options: EmitOptions,
    met: Peers,
    first: Seq<IngressId>,
    now: Timestamp,
    m: DumpMessage,
    id: IngressId,
)
    requires
        well_told(met, first, now, m),
        m matches DumpMessage::PeerUp(x, _) && x == id,
        shown_peer(infos, id, options, met[id]),
    ensures
        m matches DumpMessage::PeerUp(_, b) && is_peer_up(b@, infos[id], options, now),
{
    lemma_is_peer_up(infos, id, options, met[id], first.contains(id), now);
}

/// The Peer Up of a peer tells what is registered of it.
pub proof fn lemma_is_peer_up(
    infos: Map<IngressId, IngressInfo>,
    id: IngressId,
    options: EmitOptions,
    peer: PeerInfo,
    restart: bool,
    now: Timestamp,
)
    requires
        shown_peer(infos, id, options, peer),
    ensures
        is_peer_up(peer_up_bytes(peer, restart, now), infos[id], options, now),
{
    reveal(is_peer_up);
    a_peer_is_told_as_it_is_registered(infos, id, options, peer);
    assert(infos[id].session_up_time == peer.session_up_time) by {
        reveal(is_told_as_registered);
    }
    lemma_up_is_headed(peer, restart, now);
    assert(is_told_as_registered(infos[id], options, peer));
}

proof fn lemma_up_is_headed(peer: PeerInfo, restart: bool, now: Timestamp)
    ensures
        is_headed(
            peer_up_bytes(peer, restart, now),
            3,
            peer,
            peer.peer_flags,
            match peer.session_up_time {
                Some(t) => t,
                None => now,
            },
        ),
{
    a_peer_up_is_read_back(peer, restart, now);
}

/// Whether octets are a Peer Up that tells what is registered of an ingress,
/// of the time when its session came up, or of the given one.
#[verifier::opaque]
pub open spec fn is_peer_up(b: Seq<u8>, info: IngressInfo, options: EmitOptions, now: Timestamp) -> bool {
    exists|peer: PeerInfo| #[trigger]
        is_told_as_registered(info, options, peer) && is_headed(
            b,
            3,
            peer,
            peer.peer_flags,
            match info.session_up_time {
                Some(t) => t,
                None => now,
            },
        )
}

/// A route that messages carry is an item of one of them.
proof fn lemma_carried_by(msgs: Seq<DumpMessage>, r: AggRoute) -> (i: int)
    requires
        carried(msgs).count(r) > 0,
    ensures
        0 <= i < msgs.len(),
        msgs[i] matches DumpMessage::Routes(m) && m.routes().count(r) > 0,
    decreases msgs.len(),
{
    if msgs.last().routes().count(r) > 0 {
        msgs.len() - 1
    } else {
        lemma_carried_by(msgs.drop_last(), r)
    }
}

/// A route of some items is one of them.
proof fn lemma_item_of(id: IngressId, blob: Seq<u8>, items: Seq<AggItem>, r: AggRoute) -> (k: int)
    requires
        item_routes(id, blob, items).count(r) > 0,
    ensures
        0 <= k < items.len(),
        r == (id, items[k].path_id, items[k].nlri@, blob),
    decreases items.len(),
{
    if items.len() == 0 {
        0
    } else if r == (id, items.last().path_id, items.last().nlri@, blob) {
        items.len() - 1
    } else {
        lemma_item_of(id, blob, items.drop_last(), r)
    }
}

/// A record of a prefix gives its route.
proof fn lemma_record_gives(
    infos: Map<IngressId, IngressInfo>,
    p: PrefixKey,
    recs: Seq<Record<RotondaPaMap>>,
    k: int,
    r: AggRoute,
)
    requires
        0 <= k < recs.len(),
        prefix_route(Map::empty(), infos, p, recs[k].multi_uniq_id, recs[k].meta@).count(r) > 0,
    ensures
        record_routes(Map::empty(), infos, p, recs).count(r) > 0,
    decreases recs.len(),
{
    if k < recs.len() - 1 {
        lemma_record_gives(infos, p, recs.drop_last(), k, r);
    }
}

/// A prefix of some gives its routes.
proof fn lemma_prefix_gives(
    infos: Map<IngressId, IngressInfo>,
    set: Seq<PrefixRecord<RotondaPaMap>>,
    j: int,
    r: AggRoute,
)
    requires
        0 <= j < set.len(),
        record_routes(Map::empty(), infos, set[j].prefix@, set[j].meta@).count(r) > 0,
    ensures
        prefix_routes(Map::empty(), infos, set).count(r) > 0,
    decreases set.len(),
{
    if j < set.len() - 1 {
        lemma_prefix_gives(infos, set.drop_last(), j, r);
    }
}

/// Whether a message of a dump tells a route: it is one about the ingress, of
/// what is registered of it, and of the time; and among the items that its
/// UPDATE announces with their attributes is this one.
pub open spec fn tells_item(
    m: DumpMessage,
    infos: Map<IngressId, IngressInfo>,
    options: EmitOptions,
    now: Timestamp,
    id: IngressId,
    path_id: Option<u32>,
    nlri: NlriView,
    attrs: Seq<u8>,
) -> bool {
    m matches DumpMessage::Routes(a) && {
        &&& a.key.ingress_id == id
        &&& attr_blob(a.raw@) == attrs
        &&& exists|k: int| 0 <= k < a.items@.len() && (#[trigger] a.items@[k]).path_id == path_id && a.items@[k].nlri@
            == nlri
        &&& exists|peer: PeerInfo| #[trigger]
            is_told_as_registered(infos[id], options, peer) && a.announces(peer, now) && is_headed(
                a.bytes@,
                0,
                peer,
                peer.peer_flags,
                now,
            )
    }
}

/// Routes that are carried are told by a message about their peer.
proof fn lemma_told(
    rib: &Rib,
    options: EmitOptions,
    now: Timestamp,
    sys_name: Seq<char>,
    sys_descr: Seq<char>,
    before: ClientView,
    after: ClientView,
    d: TableDump,
    msgs: Seq<DumpMessage>,
    waited: Seq<Update>,
    r: AggRoute,
)
    requires
        whole_dump(rib, options, now, sys_name, sys_descr, before, after, d, msgs, waited),
        carried(msgs).count(r) > 0,
    ensures
        exists|i: int|
            0 <= i < msgs.len() && tells_item(
                #[trigger] msgs[i],
                rib.ingress_register@,
                options,
                now,
                r.0,
                r.1,
                r.2,
                r.3,
            ),
{
    let infos = rib.ingress_register@;
    let i = lemma_carried_by(msgs, r);
    match msgs[i] {
        DumpMessage::Routes(a) => {
            let k = lemma_item_of(a.key.ingress_id, attr_blob(a.raw@), a.items@, r);
            assert(a.items@[k].path_id == r.1 && a.items@[k].nlri@ == r.2);
            assert(well_told(d.met(), d.peers@, now, msgs[i]));
            let id = a.key.ingress_id;
            let peer = d.met()[id];
            assert(d.met().contains_key(id));
            assert(shown_peer(infos, id, options, peer));
            a_peer_is_told_as_it_is_registered(infos, id, options, peer);
            assert(a.announces(peer, now));
            let update = choose|update: Seq<u8>| a.bytes@ == route_monitoring_bytes(peer, now, update) && #[trigger] update.len() <= 65535;
            a_route_monitoring_message_is_read_back(peer, now, update);
            assert(tells_item(msgs[i], infos, options, now, r.0, r.1, r.2, r.3));
        },
        _ => {},
    }
}

/// Whether the routes of an ingress are to be told as those of a session: it
/// is the session itself, and they bear no path id; or it is a path of the
/// session, and they bear the id of the path.
pub open spec fn goes_under(
    infos: Map<IngressId, IngressInfo>,
    m: IngressId,
    id: IngressId,
    path_id: Option<u32>,
) -> bool {
    &&& infos.contains_key(m)
    &&& if infos[m].ingress_type == Some(IngressType::BgpPath) {
        infos[m].parent_ingress == Some(id) && infos[m].path_id == path_id
    } else {
        m == id && path_id is None
    }
}

/// Whether a registered ingress is a BGP session, one that is seen through
/// BMP, or a peer of an MRT file.
pub open spec fn is_session(infos: Map<IngressId, IngressInfo>, id: IngressId) -> bool {
    infos.contains_key(id) && (infos[id].ingress_type == Some(IngressType::Bgp) || infos[id].ingress_type == Some(
        IngressType::BgpViaBmp,
    ) || infos[id].ingress_type == Some(IngressType::Mrt))
}

/// Each prefix in use of a session, or of a path of one, is told by a dump
/// under the session: of an ingress that is not withdrawn in the family, and
/// with attributes that one UPDATE can hold.
pub proof fn every_prefix_of_a_session_is_dumped(
    rib: &Rib,
    options: EmitOptions,
    now: Timestamp,
    sys_name: Seq<char>,
    sys_descr: Seq<char>,
    before: ClientView,
    after: ClientView,
    d: TableDump,
    msgs: Seq<DumpMessage>,
    waited: Seq<Update>,
    p: PrefixKey,
    m: IngressId,
    id: IngressId,
    path_id: Option<u32>,
)
    requires
        whole_dump(rib, options, now, sys_name, sys_descr, before, after, d, msgs, waited),
        rib.unicast@.records.contains_key((p, m)),
        rib.unicast@.records[(p, m)].status is Active,
        p.0 ==> !rib.unicast@.gone_v4.contains(m),
        !p.0 ==> !rib.unicast@.gone_v6.contains(m),
        goes_under(rib.ingress_register@, m, id, path_id),
        is_session(rib.ingress_register@, id),
        prefix_update(p, rib.unicast@.records[(p, m)].meta, false, path_id) is Some,
    ensures
        exists|i: int|
            0 <= i < msgs.len() && tells_item(
                #[trigger] msgs[i],
                rib.ingress_register@,
                options,
                now,
                id,
                path_id,
                NlriView::Prefix(p),
                attr_blob(rib.unicast@.records[(p, m)].meta),
            ),
{
    let infos = rib.ingress_register@;
    let s = rib.unicast@;
    let raw = s.records[(p, m)].meta;
    let r: AggRoute = (id, path_id, NlriView::Prefix(p), attr_blob(raw));
    let (u, f) = choose|u: Seq<PrefixRecord<RotondaPaMap>>, f: Seq<PrefixRecord<FlowSpecRuleSet>>| #[trigger]
        is_whole::<RotondaPaMap>(s, u) && #[trigger] is_whole::<FlowSpecRuleSet>(rib.flowspec@, f) && carried(msgs)
            == owed(infos, u, f);
    let keys = choose|keys: Seq<Prefix>| #[trigger]
        dumped::<RotondaPaMap>(s, keys, u) && forall|p: PrefixKey| #[trigger] has_key(keys, p) == s.has_prefix(p);
    assert(s.has_prefix(p));
    assert(has_key(keys, p));
    assert(current::<RotondaPaMap>(s, p, m) == Some(s.records[(p, m)]));
    let j = choose|j: int| 0 <= j < u.len() && (#[trigger] u[j]).prefix@ == p;
    assert(current_listed::<RotondaPaMap>(s, p, u[j].meta@));
    let recs = u[j].meta@;
    let k = choose|k: int| 0 <= k < recs.len() && (#[trigger] recs[k]).multi_uniq_id == m;
    assert(recs[k]@ == s.records[(p, m)]);
    assert(walk_target(infos, m) == (id, path_id));
    assert(prefix_route(Map::empty(), infos, p, m, raw).count(r) > 0);
    lemma_record_gives(infos, p, recs, k, r);
    lemma_prefix_gives(infos, u, j, r);
    assert(carried(msgs).count(r) > 0);
    lemma_told(rib, options, now, sys_name, sys_descr, before, after, d, msgs, waited, r);
}

/// A rule of a set gives its route.
proof fn lemma_rule_gives(
    infos: Map<IngressId, IngressInfo>,
    is_v4: bool,
    m: IngressId,
    rules: Seq<RuleView>,
    k: int,
    id: IngressId,
    path_id: Option<u32>,
)
    requires
        0 <= k < rules.len(),
        goes_under(infos, m, id, path_id),
        is_session(infos, id),
        rules[k].nlri.len() <= 4095,
        flowspec_update(is_v4, rules[k].nlri, rules[k].pamap, false, path_id) is Some,
    ensures
        set_routes(Map::empty(), infos, is_v4, m, rules).count(
            (id, path_id, NlriView::Rule(rules[k].nlri), attr_blob(rules[k].pamap)),
        ) > 0,
    decreases rules.len(),
{
    assert(walk_target(infos, m) == (id, path_id));
    if k < rules.len() - 1 {
        lemma_rule_gives(infos, is_v4, m, rules.drop_last(), k, id, path_id);
    }
}

proof fn lemma_record_gives_rules(
    infos: Map<IngressId, IngressInfo>,
    is_v4: bool,
    recs: Seq<Record<FlowSpecRuleSet>>,
    k: int,
    r: AggRoute,
)
    requires
        0 <= k < recs.len(),
        set_routes(Map::empty(), infos, is_v4, recs[k].multi_uniq_id, recs[k].meta@).count(r) > 0,
    ensures
        record_rules(Map::empty(), infos, is_v4, recs).count(r) > 0,
    decreases recs.len(),
{
    if k < recs.len() - 1 {
        lemma_record_gives_rules(infos, is_v4, recs.drop_last(), k, r);
    }
}

proof fn lemma_prefix_gives_rules(
    infos: Map<IngressId, IngressInfo>,
    set: Seq<PrefixRecord<FlowSpecRuleSet>>,
    j: int,
    r: AggRoute,
)
    requires
        0 <= j < set.len(),
        record_rules(Map::empty(), infos, set[j].prefix@.0, set[j].meta@).count(r) > 0,
    ensures
        rule_routes(Map::empty(), infos, set).count(r) > 0,
    decreases set.len(),
{
    if j < set.len() - 1 {
        lemma_prefix_gives_rules(infos, set.drop_last(), j, r);
    }
}

/// Each FlowSpec rule of a session, or of a path of one, is told by a dump
/// under the session: of an ingress that is not withdrawn in the family, and
/// with attributes that one UPDATE can hold.
pub proof fn every_rule_of_a_session_is_dumped(
    rib: &Rib,
    options: EmitOptions,
    now: Timestamp,
    sys_name: Seq<char>,
    sys_descr: Seq<char>,
    before: ClientView,
    after: ClientView,
    d: TableDump,
    msgs: Seq<DumpMessage>,
    waited: Seq<Update>,
    p: PrefixKey,
    m: IngressId,
    n: int,
    id: IngressId,
    path_id: Option<u32>,
)
    requires
        whole_dump(rib, options, now, sys_name, sys_descr, before, after, d, msgs, waited),
        rib.flowspec@.records.contains_key((p, m)),
        rib.flowspec@.records[(p, m)].status is Active,
        p.0 ==> !rib.flowspec@.gone_v4.contains(m),
        !p.0 ==> !rib.flowspec@.gone_v6.contains(m),
        0 <= n < rib.flowspec@.records[(p, m)].meta.len(),
        rib.flowspec@.records[(p, m)].meta[n].nlri.len() <= 4095,
        goes_under(rib.ingress_register@, m, id, path_id),
        is_session(rib.ingress_register@, id),
        flowspec_update(
            p.0,
            rib.flowspec@.records[(p, m)].meta[n].nlri,
            rib.flowspec@.records[(p, m)].meta[n].pamap,
            false,
            path_id,
        ) is Some,
    ensures
        exists|i: int|
            0 <= i < msgs.len() && tells_item(
                #[trigger] msgs[i],
                rib.ingress_register@,
                options,
                now,
                id,
                path_id,
                NlriView::Rule(rib.flowspec@.records[(p, m)].meta[n].nlri),
                attr_blob(rib.flowspec@.records[(p, m)].meta[n].pamap),
            ),
{
    let infos = rib.ingress_register@;
    let s = rib.flowspec@;
    let rules = s.records[(p, m)].meta;
    let r: AggRoute = (id, path_id, NlriView::Rule(rules[n].nlri), attr_blob(rules[n].pamap));
    let (u, f) = choose|u: Seq<PrefixRecord<RotondaPaMap>>, f: Seq<PrefixRecord<FlowSpecRuleSet>>| #[trigger]
        is_whole::<RotondaPaMap>(rib.unicast@, u) && #[trigger] is_whole::<FlowSpecRuleSet>(s, f) && carried(msgs)
            == owed(infos, u, f);
    let keys = choose|keys: Seq<Prefix>| #[trigger]
        dumped::<FlowSpecRuleSet>(s, keys, f) && forall|p: PrefixKey| #[trigger] has_key(keys, p) == s.has_prefix(p);
    assert(s.has_prefix(p));
    assert(has_key(keys, p));
    assert(current::<FlowSpecRuleSet>(s, p, m) == Some(s.records[(p, m)]));
    let j = choose|j: int| 0 <= j < f.len() && (#[trigger] f[j]).prefix@ == p;
    assert(current_listed::<FlowSpecRuleSet>(s, p, f[j].meta@));
    let recs = f[j].meta@;
    let k = choose|k: int| 0 <= k < recs.len() && (#[trigger] recs[k]).multi_uniq_id == m;
    assert(recs[k]@ == s.records[(p, m)]);
    lemma_rule_gives(infos, p.0, m, rules, n, id, path_id);
    lemma_record_gives_rules(infos, p.0, recs, k, r);
    lemma_prefix_gives_rules(infos, f, j, r);
    assert(carried(msgs).count(r) > 0);
    lemma_told(rib, options, now, sys_name, sys_descr, before, after, d, msgs, waited, r);
}

/// The message for an EVPN route is among those for all.
proof fn lemma_evpn_among(
    infos: Map<IngressId, IngressInfo>,
    options: EmitOptions,
    now: Timestamp,
    recs: Seq<EvpnRecord>,
    told: Seq<(IngressId, Seq<u8>)>,
    j: int,
    id: IngressId,
    path_id: Option<u32>,
) -> (k: int)
    requires
        evpn_all_told(infos, options, now, recs, told),
        0 <= j < recs.len(),
        recs[j].active,
        goes_under(infos, recs[j].ingress_id, id, path_id),
        infos.contains_key(id),
        evpn_update(recs[j].nlri.raw@, recs[j].attributes@, false, path_id) is Some,
    ensures
        0 <= k < told.len(),
        told[k].0 == id,
        exists|peer: PeerInfo| #[trigger]
            shown_peer(infos, id, options, peer) && Some(told[k].1) == monitored(
                peer,
                now,
                evpn_update(recs[j].nlri.raw@, recs[j].attributes@, false, path_id),
            ),
    decreases recs.len(),
{
    assert(walk_target(infos, recs[j].ingress_id) == (id, path_id));
    let rec = recs.last();
    let (x, y) = walk_target(infos, rec.ingress_id);
    if j == recs.len() - 1 {
        told.len() - 1
    } else if rec.active && infos.contains_key(x) && evpn_update(rec.nlri.raw@, rec.attributes@, false, y) is Some {
        lemma_evpn_among(infos, options, now, recs.drop_last(), told.drop_last(), j, id, path_id)
    } else {
        lemma_evpn_among(infos, options, now, recs.drop_last(), told, j, id, path_id)
    }
}

/// A message for an EVPN route is one of the dump.
proof fn lemma_evpn_message(msgs: Seq<DumpMessage>, k: int) -> (i: int)
    requires
        0 <= k < evpns(msgs).len(),
    ensures
        0 <= i < msgs.len(),
        msgs[i] matches DumpMessage::Evpn(id, b) && (id, b@) == evpns(msgs)[k],
    decreases msgs.len(),
{
    let rest = msgs.drop_last();
    if k < evpns(rest).len() {
        lemma_evpn_message(rest, k)
    } else {
        msgs.len() - 1
    }
}

/// Whether a message of a dump tells of an ingress just an UPDATE.
pub open spec fn tells_update(
    m: DumpMessage,
    infos: Map<IngressId, IngressInfo>,
    options: EmitOptions,
    now: Timestamp,
    id: IngressId,
    update: Seq<u8>,
) -> bool {
    &&& m.octets().skip(48) == update
    &&& exists|peer: PeerInfo| #[trigger]
        is_told_as_registered(infos[id], options, peer) && is_headed(m.octets(), 0, peer, peer.peer_flags, now)
}

/// Each EVPN route in use of a registered ingress, or of a path of one, is told
/// by a dump under that ingress, if one UPDATE can hold it.
pub proof fn every_evpn_route_is_dumped(
    rib: &Rib,
    options: EmitOptions,
    now: Timestamp,
    sys_name: Seq<char>,
    sys_descr: Seq<char>,
    before: ClientView,
    after: ClientView,
    d: TableDump,
    msgs: Seq<DumpMessage>,
    waited: Seq<Update>,
    key: (Seq<u8>, IngressId),
    id: IngressId,
    path_id: Option<u32>,
)
    requires
        whole_dump(rib, options, now, sys_name, sys_descr, before, after, d, msgs, waited),
        rib.evpn@.contains_key(key),
        rib.evpn@[key].active,
        rib.evpn@[key].ingress_id == key.1,
        goes_under(rib.ingress_register@, key.1, id, path_id),
        rib.ingress_register@.contains_key(id),
        evpn_update(rib.evpn@[key].nlri.raw@, rib.evpn@[key].attributes@, false, path_id) is Some,
    ensures
        exists|i: int|
            0 <= i < msgs.len() && ((#[trigger] msgs[i]) matches DumpMessage::Evpn(x, _) && x == id) && tells_update(
                msgs[i],
                rib.ingress_register@,
                options,
                now,
                id,
                evpn_update(rib.evpn@[key].nlri.raw@, rib.evpn@[key].attributes@, false, path_id)->0,
            ),
{
    let infos = rib.ingress_register@;
    let recs = choose|recs: Seq<EvpnRecord>| #[trigger]
        evpn_listed(rib.evpn@, recs) && evpn_all_told(infos, options, now, recs, evpns(msgs));
    let j = choose|j: int| 0 <= j < recs.len() && ((#[trigger] recs[j]).nlri.key@, recs[j].ingress_id) == key;
    assert(recs[j].same(rib.evpn@[key]));
    let k = lemma_evpn_among(infos, options, now, recs, evpns(msgs), j, id, path_id);
    let update = evpn_update(rib.evpn@[key].nlri.raw@, rib.evpn@[key].attributes@, false, path_id)->0;
    let peer = choose|peer: PeerInfo| #[trigger]
        shown_peer(infos, id, options, peer) && Some(evpns(msgs)[k].1) == monitored(peer, now, Some(update));
    let i = lemma_evpn_message(msgs, k);
    a_peer_is_told_as_it_is_registered(infos, id, options, peer);
    a_route_monitoring_message_is_read_back(peer, now, update);
    assert(msgs[i].octets() == route_monitoring_bytes(peer, now, update));
    assert(tells_update(msgs[i], infos, options, now, id, update));
}

/// The marker of a family is among those of a peer.
proof fn lemma_marker_of(
    id: IngressId,
    peer: PeerInfo,
    families: Seq<AfiSafiType>,
    now: Timestamp,
    f: AfiSafiType,
    u: Seq<u8>,
)
    requires
        families.contains(f),
        end_of_rib_update(f) == Some(u),
    ensures
        markers_for(id, peer, families, now).contains((id, route_monitoring_bytes(peer, now, u))),
    decreases families.len(),
{
    let all = markers_for(id, peer, families, now);
    let want = (id, route_monitoring_bytes(peer, now, u));
    if families.last() == f {
        assert(all[all.len() - 1] == want);
    } else {
        let front = families.drop_last();
        let i = choose|i: int| 0 <= i < families.len() && families[i] == f;
        assert(front[i] == f);
        lemma_marker_of(id, peer, front, now, f, u);
        let rest = markers_for(id, peer, front, now);
        let k = choose|k: int| 0 <= k < rest.len() && rest[k] == want;
        assert(all[k] == want);
    }
}

/// The markers of a peer are among those of all.
proof fn lemma_markers_among(met: Peers, ids: Seq<IngressId>, now: Timestamp, id: IngressId, want: (IngressId, Seq<u8>))
    requires
        ids.contains(id),
        peer_markers(id, met[id], now).contains(want),
    ensures
        all_markers(met, ids, now).contains(want),
    decreases ids.len(),
{
    let front = ids.drop_last();
    let (a, b) = (all_markers(met, front, now), peer_markers(ids.last(), met[ids.last()], now));
    let all = all_markers(met, ids, now);
    assert(all == a + b);
    if ids.last() == id {
        let k = choose|k: int| 0 <= k < b.len() && b[k] == want;
        assert(all[a.len() + k] == want);
    } else {
        let i = choose|i: int| 0 <= i < ids.len() && ids[i] == id;
        assert(front[i] == id);
        lemma_markers_among(met, front, now, id, want);
        let k = choose|k: int| 0 <= k < a.len() && a[k] == want;
        assert(all[k] == want);
    }
}

/// Whether a message is the End-of-RIB marker of a family for an ingress: one
/// about it, with an UPDATE that holds nothing for IPv4 unicast, and else just
/// an MP_UNREACH_NLRI that names the family and no route.
pub open spec fn is_marker(
    m: DumpMessage,
    infos: Map<IngressId, IngressInfo>,
    options: EmitOptions,
    now: Timestamp,
    id: IngressId,
    afi: u8,
    safi: u8,
) -> bool {
    let u = m.octets().skip(48);
    &&& m matches DumpMessage::EndOfRib(x, _) && x == id
    &&& exists|peer: PeerInfo| #[trigger]
        is_told_as_registered(infos[id], options, peer) && is_headed(m.octets(), 0, peer, peer.peer_flags, now)
    &&& if afi == 1 && safi == 1 {
        is_whole_update(u) && u.len() == 23
    } else {
        ends_in(u, Seq::empty(), 15) == Some(seq![0u8, afi, safi])
    }
}

/// Whether a family is one of IPv4 unicast, IPv6 unicast, the two of FlowSpec,
/// and EVPN, by its two numbers.
pub open spec fn is_numbered(f: AfiSafiType, afi: u8, safi: u8) -> bool {
    ||| f is Ipv4Unicast && afi == 1 && safi == 1
    ||| f is Ipv6Unicast && afi == 2 && safi == 1
    ||| f is Ipv4FlowSpec && afi == 1 && safi == 133
    ||| f is Ipv6FlowSpec && afi == 2 && safi == 133
    ||| f is L2VpnEvpn && afi == 25 && safi == 70
}

/// Each session that a dump begins with is told the end of each of its
/// families: of IPv4 unicast in any case, and of the others that it advertised.
pub proof fn every_family_of_a_session_is_ended(
    rib: &Rib,
    options: EmitOptions,
    now: Timestamp,
    sys_name: Seq<char>,
    sys_descr: Seq<char>,
    before: ClientView,
    after: ClientView,
    d: TableDump,
    msgs: Seq<DumpMessage>,
    waited: Seq<Update>,
    id: IngressId,
    f: AfiSafiType,
    afi: u8,
    safi: u8,
)
    requires
        whole_dump(rib, options, now, sys_name, sys_descr, before, after, d, msgs, waited),
        rib.ingress_register@.contains_key(id),
        rib.ingress_register@[id].ingress_type == Some(IngressType::Bgp) && rib.ingress_register@[id].state == Some(
            IngressState::Connected,
        ) || rib.ingress_register@[id].ingress_type == Some(IngressType::BgpViaBmp) && rib.ingress_register@[id].state
            == Some(IngressState::Connected) || rib.ingress_register@[id].ingress_type == Some(IngressType::Mrt),
        is_numbered(f, afi, safi),
        f is Ipv4Unicast || (rib.ingress_register@[id].remote_capabilities matches Some(c)
            && rib.ingress_register@[id].ingress_type != Some(IngressType::Mrt) && names_family(c@, afi, safi)),
    ensures
        exists|i: int|
            0 <= i < msgs.len() && is_marker(
                #[trigger] msgs[i],
                rib.ingress_register@,
                options,
                now,
                id,
                afi,
                safi,
            ),
{
    let infos = rib.ingress_register@;
    lemma_is_first(infos, d.peers@, id);
    let ids = d.peers@ + d.discovered@;
    let k = choose|k: int| 0 <= k < d.peers@.len() && d.peers@[k] == id;
    assert(ids[k] == id);
    assert(ids.to_set().contains(id));
    assert(d.met().dom().contains(id));
    let peer = d.met()[id];
    assert(shown_peer(infos, id, options, peer)) by {
        assert(d.met().contains_key(id));
    }
    a_peer_is_told_as_it_is_registered(infos, id, options, peer);
    assert(peer.peer_capabilities@ =~= (match infos[id].remote_capabilities {
        Some(c) => c@,
        None => Seq::empty(),
    }) || infos[id].ingress_type == Some(IngressType::Mrt)) by {
        reveal(is_told_as_registered);
    }
    families_are_those_that_were_advertised(peer.peer_capabilities@);
    let families = supported_list(peer.peer_capabilities@);
    assert(families.contains(f));
    an_end_of_rib_marker_is_read_back(f);
    let u = end_of_rib_update(f)->0;
    lemma_marker_of(id, peer, families, now, f, u);
    let want = (id, route_monitoring_bytes(peer, now, u));
    lemma_markers_among(d.met(), ids, now, id, want);
    a_route_monitoring_message_is_read_back(peer, now, u);
    lemma_marker_message(rib, options, now, sys_name, sys_descr, before, after, d, msgs, waited, want);
    let i = choose|i: int|
        0 <= i < msgs.len() && ((#[trigger] msgs[i]) matches DumpMessage::EndOfRib(x, b) && (x, b@) == want);
    assert(is_marker(msgs[i], infos, options, now, id, afi, safi));
}

proof fn lemma_marker_message(
    rib: &Rib,
    options: EmitOptions,
    now: Timestamp,
    sys_name: Seq<char>,
    sys_descr: Seq<char>,
    before: ClientView,
    after: ClientView,
    d: TableDump,
    msgs: Seq<DumpMessage>,
    waited: Seq<Update>,
    want: (IngressId, Seq<u8>),
)
    requires
        whole_dump(rib, options, now, sys_name, sys_descr, before, after, d, msgs, waited),
        all_markers(d.met(), d.peers@ + d.discovered@, now).contains(want),
    ensures
        exists|i: int|
            0 <= i < msgs.len() && ((#[trigger] msgs[i]) matches DumpMessage::EndOfRib(x, b) && (x, b@) == want),
{
    let n = choose|n: int| #[trigger] split_at_markers(d, now, msgs, n);
    let all = all_markers(d.met(), d.peers@ + d.discovered@, now);
    let j = choose|j: int| 0 <= j < all.len() && all[j] == want;
    let tail = msgs.skip(n);
    assert(tail[j] == msgs[n + j]);
    assert(tail[j] matches DumpMessage::EndOfRib(x, b) && (x, b@) == all[j]);
}

} // verus!
