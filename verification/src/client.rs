//! The clients that BMP messages go to: what each of them was told, and what
//! it is told next.
use std::collections::HashSet;

use vstd::prelude::*;
use vstd::std_specs::hash::*;

use crate::bmp_builder::{
    build_peer_down_at, build_peer_up_at, build_route_monitoring_from_route_at, build_route_monitoring_raw,
    build_statistics_report_at, current_time, is_raw_route_monitoring, monitored, peer_down_bytes, peer_up_bytes,
    raw_route_monitoring_bytes, route_update, statistics_report_bytes, PeerInfo, Timestamp,
};
use crate::emit::{build_peer_info_for_emit, emitted, find_target, registered_target, FanInPeerDistinguisher};
use crate::ingress::{nothing_known, IngressInfo};
use crate::pamap::opt_bytes;
use crate::register::Register;
use crate::route::RotondaRoute;
use crate::table::Table;
use crate::types::{AfiSafiType, IngressId, RouteStatus};

verus! {

/// The number of ingresses whose targets a client remembers.
pub const INGRESS_CACHE_CAPACITY: usize = 4096;

/// A route that came in, or its withdrawal.
#[derive(Debug)]
pub struct Payload {
    pub rx_value: RotondaRoute,
    pub ingress_id: IngressId,
    pub route_status: RouteStatus,
}

/// What happened at an ingress.
#[derive(Debug)]
pub enum Update {
    Single(Payload),
    Bulk(Vec<Payload>),
    Withdraw(IngressId, Option<AfiSafiType>),
    /// Each with what was known of it, if it is about to be forgotten.
    WithdrawBulk(Vec<(IngressId, Option<IngressInfo>)>),
    IngressReappeared(IngressId),
    PeerStats { ingress_id: IngressId, body: Vec<u8> },
    RouteMonitoringRaw { ingress_id: IngressId, body: Vec<u8> },
    /// Of no interest to a client.
    Other,
}

impl Update {
    /// Whether all routes are well-formed.
    pub open spec fn wf(self) -> bool {
        match self {
            Update::Single(p) => p.rx_value.wf(),
            Update::Bulk(ps) => forall|i: int| 0 <= i < ps@.len() ==> (#[trigger] ps@[i]).rx_value.wf(),
            _ => true,
        }
    }

    /// The number of things that happened, one after the other.
    pub open spec fn size(self) -> nat {
        match self {
            Update::Bulk(ps) => ps@.len(),
            Update::WithdrawBulk(es) => es@.len(),
            Update::Other => 0,
            _ => 1,
        }
    }

    /// The number of things that happened.
    pub fn entries(&self) -> (r: usize)
        ensures
            r == self.size(),
    {
        match self {
            Update::Bulk(ps) => ps.len(),
            Update::WithdrawBulk(es) => es.len(),
            Update::Other => 0,
            _ => 1,
        }
    }
}

/// Whether a client is being sent the whole table, or what changes in it.
#[derive(Clone, Copy, Debug, PartialEq, Eq, Structural)]
pub enum ClientPhase {
    Dumping,
    Live,
}

/// The ingress that routes of another one are shown as, with the path id that
/// they bear.
pub type EmitTarget = (IngressId, Option<u32>);

/// What a client was told, and what waits to be told to it.
#[derive(Debug)]
pub struct ClientState {
    /// The peers that a Peer Up was sent for.
    pub known_peers: HashSet<IngressId>,
    /// What messages tell of some of them.
    pub peer_infos: Table<IngressId, PeerInfo>,
    /// The targets of some ingresses, the oldest first.
    pub emit_targets: Vec<(IngressId, EmitTarget)>,
    pub disconnect_pending: bool,
    pub phase: ClientPhase,
    /// Updates that came in while the table was sent.
    pub dump_buffer: Vec<Update>,
}

#[verifier::ext_equal]
pub struct ClientView {
    pub known: Set<IngressId>,
    pub infos: Map<IngressId, PeerInfo>,
    pub targets: Seq<(IngressId, EmitTarget)>,
    pub disconnect: bool,
    pub phase: ClientPhase,
    pub buffer: Seq<Update>,
}

impl View for ClientState {
    type V = ClientView;

    open spec fn view(&self) -> ClientView {
        ClientView {
            known: self.known_peers@,
            infos: self.peer_infos@,
            targets: self.emit_targets@,
            disconnect: self.disconnect_pending,
            phase: self.phase,
            buffer: self.dump_buffer@,
        }
    }
}

/// The target of an ingress that was remembered last.
pub open spec fn remembered(targets: Seq<(IngressId, EmitTarget)>, id: IngressId) -> Option<EmitTarget>
    decreases targets.len(),
{
    if targets.len() == 0 {
        None
    } else if targets.last().0 == id {
        Some(targets.last().1)
    } else {
        remembered(targets.drop_last(), id)
    }
}

/// Targets once one more is remembered: the oldest goes where there is no
/// room.
pub open spec fn with_target(targets: Seq<(IngressId, EmitTarget)>, id: IngressId, t: EmitTarget) -> Seq<
    (IngressId, EmitTarget),
> {
    (if targets.len() >= INGRESS_CACHE_CAPACITY {
        targets.skip(1)
    } else {
        targets
    }).push((id, t))
}

/// Targets but for those that lead to a peer.
pub open spec fn without_peer(targets: Seq<(IngressId, EmitTarget)>, id: IngressId) -> Seq<(IngressId, EmitTarget)>
    decreases targets.len(),
{
    if targets.len() == 0 {
        Seq::empty()
    } else if targets.last().1.0 == id {
        without_peer(targets.drop_last(), id)
    } else {
        without_peer(targets.drop_last(), id).push(targets.last())
    }
}

impl ClientView {
    /// The target of an ingress: the one that was remembered, else that of
    /// the register.
    pub open spec fn target(self, infos: Map<IngressId, IngressInfo>, id: IngressId) -> Option<EmitTarget> {
        match remembered(self.targets, id) {
            Some(t) => Some(t),
            None => registered_target(infos, id),
        }
    }

    /// The client once the target of an ingress was looked up.
    pub open spec fn looked_up(self, infos: Map<IngressId, IngressInfo>, id: IngressId) -> ClientView {
        match (remembered(self.targets, id), registered_target(infos, id)) {
            (Some(_), _) => self,
            (None, Some(t)) => ClientView { targets: with_target(self.targets, id, t), ..self },
            (None, None) => ClientView { disconnect: true, ..self },
        }
    }

    /// The client once it knows a peer.
    pub open spec fn knowing(self, id: IngressId) -> ClientView {
        ClientView { known: self.known.insert(id), ..self }
    }

    /// The client once it knows nothing of a peer any more.
    pub open spec fn forgetting(self, id: IngressId) -> ClientView {
        ClientView {
            known: self.known.remove(id),
            infos: self.infos.remove(id),
            targets: without_peer(self.targets, id),
            ..self
        }
    }

    /// The client once it remembers what messages tell of a peer.
    pub open spec fn remembering(self, id: IngressId, peer: PeerInfo) -> ClientView {
        ClientView { infos: self.infos.insert(id, peer), ..self }
    }
}

impl ClientState {
    pub open spec fn wf(self) -> bool {
        self.peer_infos.wf()
    }

    /// A client that was told nothing.
    pub fn new() -> (r: Self)
        ensures
            r.wf(),
            r@ == (ClientView {
                known: Set::empty(),
                infos: Map::empty(),
                targets: Seq::empty(),
                disconnect: false,
                phase: ClientPhase::Dumping,
                buffer: Seq::empty(),
            }),
    {
        broadcast use group_hash_axioms;

        let r = ClientState {
            known_peers: HashSet::new(),
            peer_infos: Table::new(),
            emit_targets: Vec::new(),
            disconnect_pending: false,
            phase: ClientPhase::Dumping,
            dump_buffer: Vec::new(),
        };
        assert(r@.known =~= Set::empty());
        r
    }

    /// Asks for the client to be disconnected. Tells whether nobody did
    /// before.
    pub fn request_disconnect(&mut self) -> (r: bool)
        ensures
            r == !old(self).disconnect_pending,
            final(self)@ == (ClientView { disconnect: true, ..old(self)@ }),
            final(self).peer_infos == old(self).peer_infos,
    {
        let first = !self.disconnect_pending;
        self.disconnect_pending = true;
        first
    }

    /// The target of an ingress, if it is remembered.
    pub fn cached_emit_target(&self, id: IngressId) -> (r: Option<EmitTarget>)
        ensures
            r == remembered(self@.targets, id),
    {
        let n: usize = self.emit_targets.len();
        let mut i: usize = n;
        assert(self@.targets.take(n as int) =~= self@.targets);
        while i > 0
            invariant
                i <= self.emit_targets@.len(),
                remembered(self@.targets, id) == remembered(self@.targets.take(i as int), id),
            decreases i,
        {
            i = i - 1;
            assert(self@.targets.take(i + 1).drop_last() =~= self@.targets.take(i as int));
            if self.emit_targets[i].0 == id {
                return Some(self.emit_targets[i].1);
            }
        }
        None
    }

    /// Remembers the target of an ingress.
    pub fn cache_emit_target(&mut self, id: IngressId, target: EmitTarget)
        ensures
            final(self)@ == (ClientView { targets: with_target(old(self)@.targets, id, target), ..old(self)@ }),
            final(self).peer_infos == old(self).peer_infos,
    {
        if self.emit_targets.len() >= INGRESS_CACHE_CAPACITY {
            self.emit_targets.remove(0);
            assert(self.emit_targets@ =~= old(self)@.targets.skip(1));
        }
        self.emit_targets.push((id, target));
    }

    /// Records that a Peer Up goes out for a peer. Tells whether none did
    /// before.
    pub fn register_known_peer_if_absent(&mut self, id: IngressId) -> (r: bool)
        ensures
            r == !old(self)@.known.contains(id),
            final(self)@ == old(self)@.knowing(id),
            final(self).peer_infos == old(self).peer_infos,
    {
        broadcast use group_hash_axioms;

        let r = self.known_peers.insert(id);
        assert(self@.known =~= old(self)@.known.insert(id));
        r
    }

    /// Whether a Peer Up went out for a peer.
    pub fn has_known_peer(&self, id: IngressId) -> (r: bool)
        ensures
            r == self@.known.contains(id),
    {
        broadcast use group_hash_axioms;

        self.known_peers.contains(&id)
    }

    /// Forgets all about a peer.
    pub fn remove_known_peer(&mut self, id: IngressId)
        requires
            old(self).wf(),
        ensures
            final(self).wf(),
            final(self)@ == old(self)@.forgetting(id),
    {
        broadcast use group_hash_axioms;

        self.known_peers.remove(&id);
        assert(self@.known =~= old(self)@.known.remove(id));
        self.peer_infos.remove(&id);
        let mut kept: Vec<(IngressId, EmitTarget)> = Vec::new();
        let mut i: usize = 0;
        assert(without_peer(self@.targets.take(0), id) =~= Seq::empty());
        while i < self.emit_targets.len()
            invariant
                i <= self.emit_targets@.len(),
                kept@ == without_peer(self@.targets.take(i as int), id),
            decreases self.emit_targets@.len() - i,
        {
            let e: (IngressId, EmitTarget) = self.emit_targets[i];
            assert(self@.targets.take(i + 1).drop_last() =~= self@.targets.take(i as int));
            if e.1.0 != id {
                kept.push(e);
            }
            i = i + 1;
        }
        assert(self@.targets.take(i as int) =~= self@.targets);
        self.emit_targets = kept;
    }

    /// The ingress that routes of `ingress_id` are shown as. Where it is
    /// neither remembered nor registered any more, the client is to be
    /// disconnected, so that it is sent the whole table anew.
    pub fn resolve_emit_target(&mut self, ingress_register: &Register, ingress_id: IngressId) -> (r: Option<EmitTarget>)
        requires
            ingress_register.wf(),
        ensures
            r == old(self)@.target(ingress_register@, ingress_id),
            final(self)@ == old(self)@.looked_up(ingress_register@, ingress_id),
            final(self).peer_infos == old(self).peer_infos,
    {
        match self.cached_emit_target(ingress_id) {
            Some(t) => {
                return Some(t);
            },
            None => {},
        }
        match find_target(ingress_register, ingress_id) {
            Some(t) => {
                self.cache_emit_target(ingress_id, t);
                Some(t)
            },
            None => {
                self.request_disconnect();
                None
            },
        }
    }

    /// Takes an update for later, if the table is being sent.
    pub fn buffer_update_if_dumping(&mut self, update: Update) -> (r: Option<Update>)
        ensures
            match old(self)@.phase {
                ClientPhase::Dumping => r is None && final(self)@ == (ClientView {
                    buffer: old(self)@.buffer.push(update),
                    ..old(self)@
                }),
                ClientPhase::Live => r == Some(update) && final(self)@ == old(self)@,
            },
            final(self).peer_infos == old(self).peer_infos,
    {
        match self.phase {
            ClientPhase::Dumping => {
                self.dump_buffer.push(update);
                None
            },
            ClientPhase::Live => Some(update),
        }
    }

    /// The updates that wait, to be sent in this order. With none the client
    /// goes live.
    pub fn take_buffered_updates(&mut self) -> (r: Vec<Update>)
        ensures
            r@ == old(self)@.buffer,
            final(self)@ == (ClientView {
                buffer: Seq::empty(),
                phase: if r@.len() == 0 {
                    ClientPhase::Live
                } else {
                    old(self)@.phase
                },
                ..old(self)@
            }),
            final(self).peer_infos == old(self).peer_infos,
    {
        let mut taken: Vec<Update> = Vec::new();
        std::mem::swap(&mut taken, &mut self.dump_buffer);
        if taken.len() == 0 {
            self.phase = ClientPhase::Live;
        }
        taken
    }

    /// Drops the updates that wait.
    pub fn discard_dump_buffer(&mut self)
        ensures
            final(self)@ == (ClientView { buffer: Seq::empty(), ..old(self)@ }),
            final(self).peer_infos == old(self).peer_infos,
    {
        self.dump_buffer = Vec::new();
    }
}

/// A message to a client; a Peer Up tells for which peer it is.
#[derive(Debug)]
pub struct Outgoing {
    pub bytes: Vec<u8>,
    pub peer_up: Option<IngressId>,
}

/// What a message is: its octets, and the peer that it is a Peer Up for.
pub type OutgoingView = (Seq<u8>, Option<IngressId>);

impl View for Outgoing {
    type V = OutgoingView;

    open spec fn view(&self) -> OutgoingView {
        (self.bytes@, self.peer_up)
    }
}

/// What messages are.
pub open spec fn outgoing(msgs: Seq<Outgoing>) -> Seq<OutgoingView> {
    Seq::new(msgs.len(), |i: int| msgs[i]@)
}

/// What a client is told, in order, and whether it is to be told more.
#[derive(Debug)]
pub struct Emission {
    pub messages: Vec<Outgoing>,
    pub keep_going: bool,
}

/// The message for something, if there is one.
pub open spec fn optional(bytes: Option<Seq<u8>>) -> Seq<OutgoingView> {
    match bytes {
        Some(b) => seq![(b, None)],
        None => Seq::empty(),
    }
}

/// The Peer Up that a client is owed before anything else of a peer.
pub open spec fn owed_up(v: ClientView, id: IngressId, peer: PeerInfo, now: Timestamp) -> Seq<OutgoingView> {
    if v.known.contains(id) {
        Seq::empty()
    } else {
        seq![(peer_up_bytes(peer, false, now), Some(id))]
    }
}

/// How ingresses are shown to a client.
#[derive(Clone, Copy, Debug)]
pub struct EmitOptions {
    pub forward_router_info: bool,
    pub fan_in_peer_distinguisher: FanInPeerDistinguisher,
}

/// Whether `peer` is what messages tell of a registered ingress.
pub open spec fn shown_peer(
    infos: Map<IngressId, IngressInfo>,
    id: IngressId,
    options: EmitOptions,
    peer: PeerInfo,
) -> bool {
    infos.contains_key(id) && emitted(
        infos,
        infos[id],
        options.forward_router_info,
        options.fan_in_peer_distinguisher,
        peer,
    )
}

/// What messages tell of a registered ingress.
fn show_peer(ingress_register: &Register, id: IngressId, options: EmitOptions) -> (r: Option<PeerInfo>)
    requires
        ingress_register.wf(),
    ensures
        match r {
            Some(peer) => shown_peer(ingress_register@, id, options, peer),
            None => !ingress_register@.contains_key(id),
        },
{
    match ingress_register.get(id) {
        Some(info) => Some(
            build_peer_info_for_emit(
                info,
                ingress_register,
                options.forward_router_info,
                options.fan_in_peer_distinguisher,
            ),
        ),
        None => None,
    }
}

/// What a client is told of something of a peer that messages speak of by
/// itself: `body` gives the message for a peer. The Peer Up comes first, and
/// what messages tell of the peer is remembered.
pub open spec fn told(
    before: ClientView,
    after: ClientView,
    infos: Map<IngressId, IngressInfo>,
    id: IngressId,
    options: EmitOptions,
    now: Timestamp,
    body: spec_fn(PeerInfo) -> Option<Seq<u8>>,
    r: Seq<OutgoingView>,
) -> bool {
    if before.infos.contains_key(id) {
        after == before && r == optional(body(before.infos[id]))
    } else if infos.contains_key(id) {
        exists|peer: PeerInfo|
            {
                &&& #[trigger] shown_peer(infos, id, options, peer)
                &&& after == before.knowing(id).remembering(id, peer)
                &&& r == owed_up(before, id, peer, now) + optional(body(peer))
            }
    } else {
        after == before && r == Seq::<OutgoingView>::empty()
    }
}

/// Prepends the Peer Up that a client is owed.
fn push_owed_up(messages: &mut Vec<Outgoing>, absent: bool, id: IngressId, peer: &PeerInfo, now: Timestamp)
    ensures
        outgoing(final(messages)@) == outgoing(old(messages)@) + (if absent {
            seq![(peer_up_bytes(*peer, false, now), Some(id))]
        } else {
            Seq::empty()
        }),
{
    if absent {
        messages.push(Outgoing { bytes: build_peer_up_at(peer, false, now), peer_up: Some(id) });
    }
    assert(outgoing(messages@) =~= outgoing(old(messages)@) + (if absent {
        seq![(peer_up_bytes(*peer, false, now), Some(id))]
    } else {
        Seq::empty()
    }));
}

fn push_optional(messages: &mut Vec<Outgoing>, bytes: Option<Vec<u8>>)
    ensures
        outgoing(final(messages)@) == outgoing(old(messages)@) + optional(opt_bytes(bytes)),
{
    let ghost was = opt_bytes(bytes);
    match bytes {
        Some(b) => {
            messages.push(Outgoing { bytes: b, peer_up: None });
        },
        None => {},
    }
    assert(outgoing(messages@) =~= outgoing(old(messages)@) + optional(was));
}

/// What a client is told of a route: nothing more where the peer that it
/// goes under is not known any more, and then it is to be disconnected.
pub open spec fn payload_told(
    before: ClientView,
    after: ClientView,
    infos: Map<IngressId, IngressInfo>,
    payload: Payload,
    options: EmitOptions,
    now: Timestamp,
    r: Seq<OutgoingView>,
    keep_going: bool,
) -> bool {
    let found = before.looked_up(infos, payload.ingress_id);
    match before.target(infos, payload.ingress_id) {
        None => !keep_going && r == Seq::<OutgoingView>::empty() && after == found,
        Some((id, path_id)) => if found.infos.contains_key(id) || infos.contains_key(id) {
            keep_going && told(
                found,
                after,
                infos,
                id,
                options,
                now,
                |peer: PeerInfo|
                    monitored(
                        peer,
                        now,
                        route_update(payload.rx_value, payload.route_status is Withdrawn, path_id),
                    ),
                r,
            )
        } else {
            !keep_going && r == Seq::<OutgoingView>::empty() && after == (ClientView {
                disconnect: true,
                ..found
            })
        },
    }
}

/// Tells a client of a route.
pub fn send_payload_to_client(
    client: &mut ClientState,
    payload: &Payload,
    ingress_register: &Register,
    options: EmitOptions,
    now: Timestamp,
) -> (r: Emission)
    requires
        old(client).wf(),
        ingress_register.wf(),
        payload.rx_value.wf(),
    ensures
        final(client).wf(),
        payload_told(
            old(client)@,
            final(client)@,
            ingress_register@,
            *payload,
            options,
            now,
            outgoing(r.messages@),
            r.keep_going,
        ),
{
    let mut messages: Vec<Outgoing> = Vec::new();
    assert(outgoing(messages@) =~= Seq::<OutgoingView>::empty());
    let is_withdrawal = match payload.route_status {
        RouteStatus::Withdrawn => true,
        _ => false,
    };
    let (ingress_id, path_id) = match client.resolve_emit_target(ingress_register, payload.ingress_id) {
        Some(t) => t,
        None => {
            return Emission { messages, keep_going: false };
        },
    };
    let ghost found = client@;
    match client.peer_infos.get(&ingress_id) {
        Some(peer) => {
            let m = build_route_monitoring_from_route_at(peer, &payload.rx_value, is_withdrawal, path_id, now);
            push_optional(&mut messages, m);
            assert(outgoing(messages@) =~= optional(
                monitored(found.infos[ingress_id], now, route_update(payload.rx_value, is_withdrawal, path_id)),
            ));
            return Emission { messages, keep_going: true };
        },
        None => {},
    }
    match show_peer(ingress_register, ingress_id, options) {
        Some(peer) => {
            let absent = client.register_known_peer_if_absent(ingress_id);
            push_owed_up(&mut messages, absent, ingress_id, &peer, now);
            let m = build_route_monitoring_from_route_at(&peer, &payload.rx_value, is_withdrawal, path_id, now);
            push_optional(&mut messages, m);
            assert(outgoing(messages@) =~= owed_up(found, ingress_id, peer, now) + optional(
                monitored(peer, now, route_update(payload.rx_value, is_withdrawal, path_id)),
            ));
            client.peer_infos.insert(ingress_id, peer);
            assert(client@ =~= found.knowing(ingress_id).remembering(ingress_id, peer));
            Emission { messages, keep_going: true }
        },
        None => {
            client.request_disconnect();
            Emission { messages, keep_going: false }
        },
    }
}

/// What a client is told of a route monitoring message from further up. What
/// is not one is dropped.
pub open spec fn raw_told(
    before: ClientView,
    after: ClientView,
    infos: Map<IngressId, IngressInfo>,
    id: IngressId,
    body: Seq<u8>,
    options: EmitOptions,
    now: Timestamp,
    r: Seq<OutgoingView>,
) -> bool {
    told(
        before,
        after,
        infos,
        id,
        options,
        now,
        |peer: PeerInfo|
            if is_raw_route_monitoring(body) {
                Some(raw_route_monitoring_bytes(peer, body))
            } else {
                None
            },
        r,
    )
}

/// Hands a route monitoring message from further up on to a client, under the
/// header that it knows the peer by.
pub fn send_raw_route_monitoring(
    client: &mut ClientState,
    ingress_id: IngressId,
    body: &[u8],
    ingress_register: &Register,
    options: EmitOptions,
    now: Timestamp,
) -> (r: Emission)
    requires
        old(client).wf(),
        ingress_register.wf(),
    ensures
        final(client).wf(),
        r.keep_going,
        raw_told(
            old(client)@,
            final(client)@,
            ingress_register@,
            ingress_id,
            body@,
            options,
            now,
            outgoing(r.messages@),
        ),
{
    let ghost before = client@;
    let mut messages: Vec<Outgoing> = Vec::new();
    assert(outgoing(messages@) =~= Seq::<OutgoingView>::empty());
    match client.peer_infos.get(&ingress_id) {
        Some(peer) => {
            let m = build_route_monitoring_raw(peer, body);
            push_optional(&mut messages, m);
            assert(outgoing(messages@) =~= optional(opt_bytes(m)));
            return Emission { messages, keep_going: true };
        },
        None => {},
    }
    match show_peer(ingress_register, ingress_id, options) {
        Some(peer) => {
            let absent = client.register_known_peer_if_absent(ingress_id);
            push_owed_up(&mut messages, absent, ingress_id, &peer, now);
            let m = build_route_monitoring_raw(&peer, body);
            let ghost told_body = opt_bytes(m);
            push_optional(&mut messages, m);
            assert(outgoing(messages@) =~= owed_up(before, ingress_id, peer, now) + optional(told_body));
            client.peer_infos.insert(ingress_id, peer);
            assert(client@ =~= before.knowing(ingress_id).remembering(ingress_id, peer));
        },
        None => {},
    }
    Emission { messages, keep_going: true }
}

/// What a client is told of the statistics of a peer: a report under the
/// header that it knows the peer by, and nothing of a peer that is gone.
pub open spec fn stats_told(
    before: ClientView,
    after: ClientView,
    infos: Map<IngressId, IngressInfo>,
    id: IngressId,
    body: Seq<u8>,
    options: EmitOptions,
    now: Timestamp,
    r: Seq<OutgoingView>,
) -> bool {
    if infos.contains_key(id) {
        &&& after == before.knowing(id)
        &&& exists|peer: PeerInfo|
            {
                &&& #[trigger] shown_peer(infos, id, options, peer)
                &&& r == owed_up(before, id, peer, now).push((statistics_report_bytes(peer, body, now), None))
            }
    } else {
        after == before && r == Seq::<OutgoingView>::empty()
    }
}

/// Hands the statistics of a peer on to a client.
pub fn send_peer_stats(
    client: &mut ClientState,
    ingress_id: IngressId,
    body: &[u8],
    ingress_register: &Register,
    options: EmitOptions,
    now: Timestamp,
) -> (r: Emission)
    requires
        old(client).wf(),
        ingress_register.wf(),
    ensures
        final(client).wf(),
        r.keep_going,
        stats_told(
            old(client)@,
            final(client)@,
            ingress_register@,
            ingress_id,
            body@,
            options,
            now,
            outgoing(r.messages@),
        ),
{
    let ghost before = client@;
    let mut messages: Vec<Outgoing> = Vec::new();
    assert(outgoing(messages@) =~= Seq::<OutgoingView>::empty());
    match show_peer(ingress_register, ingress_id, options) {
        Some(peer) => {
            let absent = client.register_known_peer_if_absent(ingress_id);
            push_owed_up(&mut messages, absent, ingress_id, &peer, now);
            let report = build_statistics_report_at(&peer, body, now);
            push_optional(&mut messages, Some(report));
            assert(outgoing(messages@) =~= owed_up(before, ingress_id, peer, now).push(
                (statistics_report_bytes(peer, body@, now), None),
            ));
        },
        None => {},
    }
    Emission { messages, keep_going: true }
}

/// What is known of an ingress that goes down: what was known when it went,
/// else what the register knows.
pub open spec fn last_known(infos: Map<IngressId, IngressInfo>, id: IngressId, snapshot: Option<IngressInfo>) -> IngressInfo {
    match snapshot {
        Some(info) => info,
        None => if infos.contains_key(id) {
            infos[id]
        } else {
            nothing_known()
        },
    }
}

/// What a client is told of a peer that went down, if it knows it.
pub open spec fn down_told(
    before: ClientView,
    after: ClientView,
    infos: Map<IngressId, IngressInfo>,
    id: IngressId,
    snapshot: Option<IngressInfo>,
    options: EmitOptions,
    now: Timestamp,
    r: Seq<OutgoingView>,
) -> bool {
    if before.known.contains(id) {
        &&& after == before.forgetting(id)
        &&& exists|peer: PeerInfo|
            {
                &&& #[trigger] emitted(
                    infos,
                    last_known(infos, id, snapshot),
                    options.forward_router_info,
                    options.fan_in_peer_distinguisher,
                    peer,
                )
                &&& r == seq![(peer_down_bytes(peer, now), None::<IngressId>)]
            }
    } else {
        after == before && r == Seq::<OutgoingView>::empty()
    }
}

/// Tells a client that a peer went down.
pub fn send_peer_down(
    client: &mut ClientState,
    ingress_id: IngressId,
    snapshot_info: Option<&IngressInfo>,
    ingress_register: &Register,
    options: EmitOptions,
    now: Timestamp,
) -> (r: Emission)
    requires
        old(client).wf(),
        ingress_register.wf(),
    ensures
        final(client).wf(),
        r.keep_going,
        down_told(
            old(client)@,
            final(client)@,
            ingress_register@,
            ingress_id,
            match snapshot_info {
                Some(info) => Some(*info),
                None => None,
            },
            options,
            now,
            outgoing(r.messages@),
        ),
{
    let mut messages: Vec<Outgoing> = Vec::new();
    assert(outgoing(messages@) =~= Seq::<OutgoingView>::empty());
    if !client.has_known_peer(ingress_id) {
        return Emission { messages, keep_going: true };
    }
    let unknown = IngressInfo::new();
    let info: &IngressInfo = match snapshot_info {
        Some(info) => info,
        None => match ingress_register.get(ingress_id) {
            Some(info) => info,
            None => &unknown,
        },
    };
    let peer = build_peer_info_for_emit(
        info,
        ingress_register,
        options.forward_router_info,
        options.fan_in_peer_distinguisher,
    );
    let down = build_peer_down_at(&peer, now);
    push_optional(&mut messages, Some(down));
    assert(outgoing(messages@) =~= seq![(peer_down_bytes(peer, now), None::<IngressId>)]);
    client.remove_known_peer(ingress_id);
    Emission { messages, keep_going: true }
}

/// What a client is told of an ingress that came back: a Peer Up for the peer
/// that it goes under, if the client does not know it.
pub open spec fn reappeared_told(
    before: ClientView,
    after: ClientView,
    infos: Map<IngressId, IngressInfo>,
    ingress_id: IngressId,
    options: EmitOptions,
    now: Timestamp,
    r: Seq<OutgoingView>,
    keep_going: bool,
) -> bool {
    let found = before.looked_up(infos, ingress_id);
    match before.target(infos, ingress_id) {
        None => !keep_going && r == Seq::<OutgoingView>::empty() && after == found,
        Some((id, _)) => {
            &&& keep_going
            &&& if infos.contains_key(id) {
                after == found.knowing(id) && exists|peer: PeerInfo| #[trigger]
                    shown_peer(infos, id, options, peer) && r == owed_up(found, id, peer, now)
            } else {
                after == found && r == Seq::<OutgoingView>::empty()
            }
        },
    }
}

/// Tells a client that an ingress came back.
pub fn send_peer_reappeared(
    client: &mut ClientState,
    ingress_id: IngressId,
    ingress_register: &Register,
    options: EmitOptions,
    now: Timestamp,
) -> (r: Emission)
    requires
        old(client).wf(),
        ingress_register.wf(),
    ensures
        final(client).wf(),
        reappeared_told(
            old(client)@,
            final(client)@,
            ingress_register@,
            ingress_id,
            options,
            now,
            outgoing(r.messages@),
            r.keep_going,
        ),
{
    let mut messages: Vec<Outgoing> = Vec::new();
    assert(outgoing(messages@) =~= Seq::<OutgoingView>::empty());
    let (target, _) = match client.resolve_emit_target(ingress_register, ingress_id) {
        Some(t) => t,
        None => {
            return Emission { messages, keep_going: false };
        },
    };
    let ghost found = client@;
    match show_peer(ingress_register, target, options) {
        Some(peer) => {
            let absent = client.register_known_peer_if_absent(target);
            push_owed_up(&mut messages, absent, target, &peer, now);
            assert(outgoing(messages@) =~= owed_up(found, target, peer, now));
        },
        None => {},
    }
    Emission { messages, keep_going: true }
}

/// What a client is told of one thing that happened.
pub open spec fn entry_told(
    before: ClientView,
    after: ClientView,
    infos: Map<IngressId, IngressInfo>,
    update: Update,
    entry: int,
    options: EmitOptions,
    now: Timestamp,
    r: Seq<OutgoingView>,
    keep_going: bool,
) -> bool {
    match update {
        Update::Single(p) => payload_told(before, after, infos, p, options, now, r, keep_going),
        Update::Bulk(ps) => payload_told(before, after, infos, ps@[entry], options, now, r, keep_going),
        Update::Withdraw(id, _) => keep_going && down_told(before, after, infos, id, None, options, now, r),
        Update::WithdrawBulk(es) => keep_going && down_told(
            before,
            after,
            infos,
            es@[entry].0,
            es@[entry].1,
            options,
            now,
            r,
        ),
        Update::IngressReappeared(id) => reappeared_told(before, after, infos, id, options, now, r, keep_going),
        Update::PeerStats { ingress_id, body } => keep_going && stats_told(
            before,
            after,
            infos,
            ingress_id,
            body@,
            options,
            now,
            r,
        ),
        Update::RouteMonitoringRaw { ingress_id, body } => keep_going && raw_told(
            before,
            after,
            infos,
            ingress_id,
            body@,
            options,
            now,
            r,
        ),
        Update::Other => keep_going && after == before && r == Seq::<OutgoingView>::empty(),
    }
}

/// Tells a client of one of the things that happened, at a given time. The
/// messages are to be sent in order; once one could not be sent, nothing more
/// is to be told, after [`send_failed`].
pub fn send_update_to_client_at(
    client: &mut ClientState,
    update: &Update,
    entry: usize,
    ingress_register: &Register,
    options: EmitOptions,
    now: Timestamp,
) -> (r: Emission)
    requires
        old(client).wf(),
        ingress_register.wf(),
        update.wf(),
        entry < update.size(),
    ensures
        final(client).wf(),
        entry_told(
            old(client)@,
            final(client)@,
            ingress_register@,
            *update,
            entry as int,
            options,
            now,
            outgoing(r.messages@),
            r.keep_going,
        ),
{
    match update {
        Update::Single(p) => send_payload_to_client(client, p, ingress_register, options, now),
        Update::Bulk(ps) => send_payload_to_client(client, &ps[entry], ingress_register, options, now),
        Update::Withdraw(id, _) => send_peer_down(client, *id, None, ingress_register, options, now),
        Update::WithdrawBulk(es) => {
            let (id, info) = &es[entry];
            send_peer_down(client, *id, info.as_ref(), ingress_register, options, now)
        },
        Update::IngressReappeared(id) => send_peer_reappeared(client, *id, ingress_register, options, now),
        Update::PeerStats { ingress_id, body } => send_peer_stats(
            client,
            *ingress_id,
            body,
            ingress_register,
            options,
            now,
        ),
        Update::RouteMonitoringRaw { ingress_id, body } => send_raw_route_monitoring(
            client,
            *ingress_id,
            body,
            ingress_register,
            options,
            now,
        ),
        Update::Other => Emission { messages: Vec::new(), keep_going: true },
    }
}

/// Tells a client of one of the things that happened.
pub fn send_update_to_client(
    client: &mut ClientState,
    update: &Update,
    entry: usize,
    ingress_register: &Register,
    options: EmitOptions,
) -> (r: Emission)
    requires
        old(client).wf(),
        ingress_register.wf(),
        update.wf(),
        entry < update.size(),
    ensures
        final(client).wf(),
        exists|now: Timestamp| #[trigger]
            entry_told(
                old(client)@,
                final(client)@,
                ingress_register@,
                *update,
                entry as int,
                options,
                now,
                outgoing(r.messages@),
                r.keep_going,
            ),
{
    let now = current_time();
    send_update_to_client_at(client, update, entry, ingress_register, options, now)
}

/// Takes note that a message could not be sent: the peer of a Peer Up is not
/// known to the client.
pub fn send_failed(client: &mut ClientState, message: &Outgoing)
    requires
        old(client).wf(),
    ensures
        final(client).wf(),
        final(client)@ == (match message.peer_up {
            Some(id) => old(client)@.forgetting(id),
            None => old(client)@,
        }),
{
    if let Some(id) = message.peer_up {
        client.remove_known_peer(id);
    }
}

/// Whether a client knows all peers that something is remembered of.
pub open spec fn remembers_known(v: ClientView) -> bool {
    forall|id: IngressId| #[trigger] v.infos.contains_key(id) ==> v.known.contains(id)
}

/// What is remembered of a peer is remembered of a peer that the client
/// knows, whatever happens.
pub proof fn remembered_peers_are_known(
    before: ClientView,
    after: ClientView,
    infos: Map<IngressId, IngressInfo>,
    update: Update,
    entry: int,
    options: EmitOptions,
    now: Timestamp,
    r: Seq<OutgoingView>,
    keep_going: bool,
)
    requires
        remembers_known(before),
        entry_told(before, after, infos, update, entry, options, now, r, keep_going),
    ensures
        remembers_known(after),
        forall|id: IngressId| remembers_known(#[trigger] after.forgetting(id)),
{
}

/// A client hears nothing of a peer before its Peer Up: where a route is told
/// of, the peer is known or the Peer Up comes first; and from then on it is
/// known.
pub proof fn nothing_is_told_before_the_peer_up(
    before: ClientView,
    after: ClientView,
    infos: Map<IngressId, IngressInfo>,
    payload: Payload,
    options: EmitOptions,
    now: Timestamp,
    r: Seq<OutgoingView>,
    keep_going: bool,
)
    requires
        remembers_known(before),
        payload_told(before, after, infos, payload, options, now, r, keep_going),
        r.len() > 0,
    ensures
        before.target(infos, payload.ingress_id) is Some,
        ({
            let id = before.target(infos, payload.ingress_id)->Some_0.0;
            &&& before.known.contains(id) || r[0].1 == Some(id)
            &&& after.known.contains(id)
        }),
{
}

/// A client comes to know a peer by its Peer Up alone.
pub proof fn a_peer_is_known_by_its_peer_up(
    before: ClientView,
    after: ClientView,
    infos: Map<IngressId, IngressInfo>,
    update: Update,
    entry: int,
    options: EmitOptions,
    now: Timestamp,
    r: Seq<OutgoingView>,
    keep_going: bool,
    id: IngressId,
)
    requires
        remembers_known(before),
        entry_told(before, after, infos, update, entry, options, now, r, keep_going),
        after.known.contains(id),
    ensures
        before.known.contains(id) || r.len() > 0 && r[0].1 == Some(id),
{
}

/// A client that knows a peer gets no second Peer Up for it.
pub proof fn a_known_peer_gets_no_peer_up(
    before: ClientView,
    after: ClientView,
    infos: Map<IngressId, IngressInfo>,
    update: Update,
    entry: int,
    options: EmitOptions,
    now: Timestamp,
    r: Seq<OutgoingView>,
    keep_going: bool,
    i: int,
)
    requires
        entry_told(before, after, infos, update, entry, options, now, r, keep_going),
        0 <= i < r.len(),
    ensures
        r[i].1 matches Some(id) ==> !before.known.contains(id) && after.known.contains(id) && infos.contains_key(id),
{
}

/// A route of an ingress that is neither remembered nor registered goes out
/// under no made-up peer: nothing is sent, and the client is to be
/// disconnected.
pub proof fn no_peer_is_made_up(
    before: ClientView,
    after: ClientView,
    infos: Map<IngressId, IngressInfo>,
    payload: Payload,
    options: EmitOptions,
    now: Timestamp,
    r: Seq<OutgoingView>,
    keep_going: bool,
)
    requires
        payload_told(before, after, infos, payload, options, now, r, keep_going),
        remembered(before.targets, payload.ingress_id) is None,
        !infos.contains_key(payload.ingress_id),
    ensures
        r.len() == 0,
        !keep_going,
        after.disconnect,
{
}

/// A peer that went down is not known any more, and what comes back of it
/// begins with a Peer Up.
pub proof fn a_peer_that_went_down_is_forgotten(
    before: ClientView,
    after: ClientView,
    infos: Map<IngressId, IngressInfo>,
    id: IngressId,
    snapshot: Option<IngressInfo>,
    options: EmitOptions,
    now: Timestamp,
    r: Seq<OutgoingView>,
)
    requires
        down_told(before, after, infos, id, snapshot, options, now, r),
    ensures
        !after.known.contains(id),
        r.len() == (if before.known.contains(id) {
            1nat
        } else {
            0
        }),
{
}

} // verus!
