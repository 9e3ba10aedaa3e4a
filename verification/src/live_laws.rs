//! What a client is told of what happens while it is connected.
use vstd::prelude::*;

use crate::bmp_builder::{
    monitored, peer_down_bytes, raw_route_monitoring_bytes, route_update, statistics_report_bytes, PeerInfo, Timestamp,
};
use crate::client::{
    entry_told, owed_up, payload_told, remembered, shown_peer, ClientView, EmitOptions, OutgoingView, Payload, Update,
};
use crate::dump_laws::{goes_under, is_peer_up, lemma_is_peer_up};
use crate::emit::emitted;
use crate::ingress::IngressInfo;
use crate::peer_laws::{
    a_message_is_handed_on_as_it_came, a_peer_down_is_read_back, a_peer_is_told_as_it_is_registered,
    a_route_monitoring_message_is_read_back, a_statistics_report_is_read_back, four, is_headed, is_told_as_registered,
};
use crate::types::IngressId;
use crate::update_laws::{
    a_withdrawn_route_is_read_back, an_announced_route_is_read_back, is_announcement, is_withdrawal_of, rule_is_short,
};

verus! {

/// Whether octets are a route monitoring message about a peer that announces
/// or withdraws just a route.
pub open spec fn tells_route(b: Seq<u8>, peer: PeerInfo, now: Timestamp, payload: Payload, path_id: Option<u32>) -> bool {
    &&& is_headed(b, 0, peer, peer.peer_flags, now)
    &&& if payload.route_status is Withdrawn {
        is_withdrawal_of(b.skip(48), payload.rx_value, path_id)
    } else {
        is_announcement(b.skip(48), payload.rx_value, path_id)
    }
}

proof fn lemma_tells_route(peer: PeerInfo, now: Timestamp, payload: Payload, path_id: Option<u32>, b: Seq<u8>)
    requires
        payload.rx_value.wf(),
        rule_is_short(payload.rx_value),
        payload.rx_value is L2VpnEvpn ==> payload.rx_value->L2VpnEvpn_0.raw@.len() <= 257,
        monitored(peer, now, route_update(payload.rx_value, payload.route_status is Withdrawn, path_id)) == Some(b),
    ensures
        tells_route(b, peer, now, payload, path_id),
{
    let withdrawn = payload.route_status is Withdrawn;
    let u = route_update(payload.rx_value, withdrawn, path_id)->0;
    a_route_monitoring_message_is_read_back(peer, now, u);
    if withdrawn {
        a_withdrawn_route_is_read_back(payload.rx_value, path_id);
    } else {
        an_announced_route_is_read_back(payload.rx_value, path_id, u);
    }
}

/// Whether nothing is remembered of where the routes of an ingress go, or what
/// is remembered is where they go.
pub open spec fn remembers_right(v: ClientView, m: IngressId, id: IngressId, path_id: Option<u32>) -> bool {
    remembered(v.targets, m) matches Some(t) ==> t == (id, path_id)
}

/// A route that comes in is told to a client that is connected: under the
/// session that it is of, or that its path is of, with the id of the path. A
/// withdrawn one is withdrawn, any other is announced, if one UPDATE can hold
/// it. A client that does not know the session gets its Peer Up first, which
/// tells what is registered of it, and knows it then.
pub proof fn a_live_route_is_told(
    before: ClientView,
    after: ClientView,
    infos: Map<IngressId, IngressInfo>,
    update: Update,
    payload: Payload,
    entry: int,
    options: EmitOptions,
    now: Timestamp,
    r: Seq<OutgoingView>,
    keep_going: bool,
    id: IngressId,
    path_id: Option<u32>,
)
    requires
        update matches Update::Single(p) ==> p == payload,
        update matches Update::Bulk(ps) ==> 0 <= entry < ps@.len() && ps@[entry] == payload,
        update is Single || update is Bulk,
        entry_told(before, after, infos, update, entry, options, now, r, keep_going),
        payload.rx_value.wf(),
        rule_is_short(payload.rx_value),
        payload.rx_value is L2VpnEvpn ==> payload.rx_value->L2VpnEvpn_0.raw@.len() <= 257,
        goes_under(infos, payload.ingress_id, id, path_id),
        infos.contains_key(id),
        remembers_right(before, payload.ingress_id, id, path_id),
    ensures
        keep_going,
        before.infos.contains_key(id) ==> {
            let sent = route_update(payload.rx_value, payload.route_status is Withdrawn, path_id) is Some;
            &&& r.len() == (if sent {
                1nat
            } else {
                0
            })
            &&& sent ==> r[0].1 is None && tells_route(r[0].0, before.infos[id], now, payload, path_id)
        },
        !before.infos.contains_key(id) ==> after.known.contains(id) && after.infos.contains_key(id) && exists|
            peer: PeerInfo,
        | #[trigger]
            is_told_as_registered(infos[id], options, peer) && {
                let sent = route_update(payload.rx_value, payload.route_status is Withdrawn, path_id) is Some;
                let ups: int = if before.known.contains(id) {
                    0
                } else {
                    1
                };
                &&& r.len() == ups + (if sent {
                    1int
                } else {
                    0
                })
                &&& ups == 1 ==> r[0].1 == Some(id) && is_peer_up(r[0].0, infos[id], options, now)
                &&& sent ==> r[ups].1 is None && tells_route(r[ups].0, peer, now, payload, path_id)
                &&& after.infos[id] == peer
            },
{
    let m = payload.ingress_id;
    assert(payload_told(before, after, infos, payload, options, now, r, keep_going));
    let found = before.looked_up(infos, m);
    assert(before.target(infos, m) == Some((id, path_id)));
    assert(found.infos == before.infos && found.known == before.known);
    let withdrawn = payload.route_status is Withdrawn;
    let u = route_update(payload.rx_value, withdrawn, path_id);
    if before.infos.contains_key(id) {
        match monitored(before.infos[id], now, u) {
            Some(b) => {
                lemma_tells_route(before.infos[id], now, payload, path_id, b);
                assert(r =~= seq![(b, None::<IngressId>)]);
            },
            None => {},
        }
    } else {
        let peer = choose|peer: PeerInfo|
            {
                &&& #[trigger] shown_peer(infos, id, options, peer)
                &&& after == found.knowing(id).remembering(id, peer)
                &&& r == owed_up(found, id, peer, now) + crate::client::optional(monitored(peer, now, u))
            };
        a_peer_is_told_as_it_is_registered(infos, id, options, peer);
        lemma_is_peer_up(infos, id, options, peer, false, now);
        match monitored(peer, now, u) {
            Some(b) => {
                lemma_tells_route(peer, now, payload, path_id, b);
            },
            None => {},
        }
        assert(is_told_as_registered(infos[id], options, peer));
    }
}

/// A peer that goes away is told so, once, to a client that knows it, by a
/// Peer Down with its header; the client does not know it any more. To a
/// client that does not know it nothing is told.
pub proof fn a_peer_that_goes_away_is_told(
    before: ClientView,
    after: ClientView,
    infos: Map<IngressId, IngressInfo>,
    update: Update,
    entry: int,
    options: EmitOptions,
    now: Timestamp,
    r: Seq<OutgoingView>,
    keep_going: bool,
    id: IngressId,
    info: IngressInfo,
)
    requires
        update is Withdraw || update is WithdrawBulk,
        update matches Update::Withdraw(x, _) ==> x == id && infos.contains_key(id) && infos[id] == info,
        update matches Update::WithdrawBulk(es) ==> 0 <= entry < es@.len() && es@[entry].0 == id && match es@[entry].1 {
            Some(i) => i == info,
            None => infos.contains_key(id) && infos[id] == info,
        },
        entry_told(before, after, infos, update, entry, options, now, r, keep_going),
    ensures
        keep_going,
        !after.known.contains(id),
        !before.known.contains(id) ==> r.len() == 0 && after == before,
        before.known.contains(id) ==> r.len() == 1 && r[0].1 is None && exists|peer: PeerInfo| #[trigger]
            is_told_as_registered(info, options, peer) && is_headed(r[0].0, 2, peer, peer.peer_flags, now)
                && r[0].0.len() == 49,
        forall|x: IngressId| x != id ==> #[trigger] after.known.contains(x) == before.known.contains(x),
{
    if before.known.contains(id) {
        let peer = choose|peer: PeerInfo|
            {
                &&& #[trigger] emitted(
                    infos,
                    info,
                    options.forward_router_info,
                    options.fan_in_peer_distinguisher,
                    peer,
                )
                &&& r == seq![(peer_down_bytes(peer, now), None::<IngressId>)]
            };
        let one = map![id => info];
        a_peer_down_is_read_back(peer, now);
        lemma_emitted_as_registered(infos, id, info, options, peer);
        assert(r[0].0.skip(48).len() == 1);
        assert(is_told_as_registered(info, options, peer));
    }
}

/// What is told of a peer does not depend on where it is registered.
proof fn lemma_emitted_as_registered(
    infos: Map<IngressId, IngressInfo>,
    id: IngressId,
    info: IngressInfo,
    options: EmitOptions,
    peer: PeerInfo,
)
    requires
        emitted(infos, info, options.forward_router_info, options.fan_in_peer_distinguisher, peer),
    ensures
        is_told_as_registered(info, options, peer),
{
    let all = infos.insert(id, info);
    if crate::emit::label_of(all, info, options.forward_router_info) == crate::emit::label_of(
        infos,
        info,
        options.forward_router_info,
    ) {
        assert(shown_peer(all, id, options, peer));
        a_peer_is_told_as_it_is_registered(all, id, options, peer);
    } else {
        let blank = PeerInfo { admin_label: None, ..peer };
        assert(emitted(infos, info, false, options.fan_in_peer_distinguisher, blank)) by {
            let own = choose|own: PeerInfo|
                {
                    &&& #[trigger] crate::bmp_builder::describes(info, own)
                    &&& crate::bmp_builder::same_peer(
                        peer,
                        (PeerInfo { admin_label: peer.admin_label, peer_distinguisher: peer.peer_distinguisher, ..own }),
                    )
                    &&& peer.peer_distinguisher@ == crate::emit::stamped(
                        info,
                        options.fan_in_peer_distinguisher,
                        own.peer_distinguisher@,
                    )
                };
            assert(crate::bmp_builder::describes(info, own));
        }
        let quiet = EmitOptions { forward_router_info: false, ..options };
        assert(emitted(all, info, false, options.fan_in_peer_distinguisher, blank));
        assert(shown_peer(all, id, quiet, blank));
        a_peer_is_told_as_it_is_registered(all, id, quiet, blank);
        reveal(is_told_as_registered);
    }
}

/// The statistics of a registered peer are handed on as they came, in a report
/// with the header of the peer, behind its Peer Up where the client does not
/// know it.
pub proof fn statistics_are_handed_on(
    before: ClientView,
    after: ClientView,
    infos: Map<IngressId, IngressInfo>,
    update: Update,
    entry: int,
    options: EmitOptions,
    now: Timestamp,
    r: Seq<OutgoingView>,
    keep_going: bool,
    id: IngressId,
    body: Seq<u8>,
)
    requires
        update matches Update::PeerStats { ingress_id, body: b } && ingress_id == id && b@ == body,
        entry_told(before, after, infos, update, entry, options, now, r, keep_going),
        infos.contains_key(id),
    ensures
        keep_going,
        after.known.contains(id),
        r.len() > 0,
        r.len() == (if before.known.contains(id) {
            1nat
        } else {
            2
        }),
        !before.known.contains(id) ==> r[0].1 == Some(id) && is_peer_up(r[0].0, infos[id], options, now),
        r.last().1 is None,
        r.last().0.skip(48) == body,
        exists|peer: PeerInfo| #[trigger]
            is_told_as_registered(infos[id], options, peer) && is_headed(r.last().0, 1, peer, peer.peer_flags, now),
{
    let peer = choose|peer: PeerInfo|
        {
            &&& #[trigger] shown_peer(infos, id, options, peer)
            &&& r == owed_up(before, id, peer, now).push((statistics_report_bytes(peer, body, now), None))
        };
    a_peer_is_told_as_it_is_registered(infos, id, options, peer);
    lemma_is_peer_up(infos, id, options, peer, false, now);
    a_statistics_report_is_read_back(peer, body, now);
    assert(r.last() == (statistics_report_bytes(peer, body, now), None::<IngressId>));
    assert(is_told_as_registered(infos[id], options, peer));
}

/// A route monitoring message that came in is handed on: with the header that
/// the client knows the peer by, the time and the UPDATE that it came with. It
/// has to be a header of 42 octets and one UPDATE that is as long as it says.
pub proof fn a_raw_message_is_handed_on(
    before: ClientView,
    after: ClientView,
    infos: Map<IngressId, IngressInfo>,
    update: Update,
    entry: int,
    options: EmitOptions,
    now: Timestamp,
    r: Seq<OutgoingView>,
    keep_going: bool,
    id: IngressId,
    body: Seq<u8>,
)
    requires
        update matches Update::RouteMonitoringRaw { ingress_id, body: b } && ingress_id == id && b@ == body,
        entry_told(before, after, infos, update, entry, options, now, r, keep_going),
        body.len() >= 65,
        body[60] == 2,
        body[58] * 256 + body[59] == body.len() - 42,
        before.infos.contains_key(id) || infos.contains_key(id),
    ensures
        keep_going,
        r.len() > 0,
        r.last().1 is None,
        r.last().0.skip(48) == body.skip(42),
        before.infos.contains_key(id) ==> r.len() == 1 && is_headed(
            r.last().0,
            0,
            before.infos[id],
            before.infos[id].peer_flags | (body[1] & 0x20u8),
            (four(body, 34) as u32, four(body, 38) as u32),
        ),
        !before.infos.contains_key(id) ==> {
            &&& after.known.contains(id)
            &&& !before.known.contains(id) ==> r.len() == 2 && r[0].1 == Some(id) && is_peer_up(
                r[0].0,
                infos[id],
                options,
                now,
            )
            &&& exists|peer: PeerInfo| #[trigger]
                is_told_as_registered(infos[id], options, peer) && is_headed(
                    r.last().0,
                    0,
                    peer,
                    peer.peer_flags | (body[1] & 0x20u8),
                    (four(body, 34) as u32, four(body, 38) as u32),
                )
        },
{
    assert(crate::bmp_builder::is_raw_route_monitoring(body));
    if before.infos.contains_key(id) {
        let peer = before.infos[id];
        a_message_is_handed_on_as_it_came(peer, body);
        assert(r =~= seq![(raw_route_monitoring_bytes(peer, body), None::<IngressId>)]);
    } else {
        let peer = choose|peer: PeerInfo|
            {
                &&& #[trigger] shown_peer(infos, id, options, peer)
                &&& after == before.knowing(id).remembering(id, peer)
                &&& r == owed_up(before, id, peer, now) + crate::client::optional(
                    Some(raw_route_monitoring_bytes(peer, body)),
                )
            };
        a_peer_is_told_as_it_is_registered(infos, id, options, peer);
        lemma_is_peer_up(infos, id, options, peer, false, now);
        a_message_is_handed_on_as_it_came(peer, body);
        assert(r.last() == (raw_route_monitoring_bytes(peer, body), None::<IngressId>));
        assert(is_told_as_registered(infos[id], options, peer));
    }
}

/// A session that comes back gets its Peer Up, and nothing else, at a client
/// that does not know it; a path that comes back that of its session.
pub proof fn a_session_that_comes_back_is_told(
    before: ClientView,
    after: ClientView,
    infos: Map<IngressId, IngressInfo>,
    update: Update,
    entry: int,
    options: EmitOptions,
    now: Timestamp,
    r: Seq<OutgoingView>,
    keep_going: bool,
    m: IngressId,
    id: IngressId,
    path_id: Option<u32>,
)
    requires
        update matches Update::IngressReappeared(x) && x == m,
        entry_told(before, after, infos, update, entry, options, now, r, keep_going),
        goes_under(infos, m, id, path_id),
        infos.contains_key(id),
        remembers_right(before, m, id, path_id),
    ensures
        keep_going,
        after.known.contains(id),
        before.known.contains(id) ==> r.len() == 0,
        !before.known.contains(id) ==> r.len() == 1 && r[0].1 == Some(id) && is_peer_up(r[0].0, infos[id], options, now),
{
    let found = before.looked_up(infos, m);
    assert(before.target(infos, m) == Some((id, path_id)));
    let peer = choose|peer: PeerInfo| #[trigger]
        shown_peer(infos, id, options, peer) && r == owed_up(found, id, peer, now);
    lemma_is_peer_up(infos, id, options, peer, false, now);
}

} // verus!
