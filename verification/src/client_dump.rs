//! The dump of the whole table to a client that has just connected: the
//! initiation, a Peer Up for each peer, all routes, and the End-of-RIB
//! markers. The dump is made step by step, so that no more than the messages
//! of one step are held at a time.
use std::collections::HashMap;

use vstd::multiset::Multiset;
use vstd::prelude::*;
use vstd::std_specs::hash::*;
use vstd::utf8::*;

use crate::aggregator::{
    base_len_of, carried_routes, prefix_key, prefix_sendable, rule_key, rule_sendable, usize_min, AggMessage, AggRoute,
    GroupKey, NlriView, RouteAggregator,
};
use crate::bmp_builder::{
    build_end_of_rib_marker_at, build_evpn_route_monitoring_at, build_initiation_message, build_peer_up_at,
    current_time, end_of_rib_update, evpn_update, flowspec_update, monitored, peer_up_bytes, prefix_update,
    supported_list, PeerInfo, Timestamp, BMP_MSG_INITIATION,
};
use crate::client::{shown_peer, ClientState, ClientView, EmitOptions};
use crate::dump::{dumped, DumpCursor};
use crate::emit::{build_peer_info_for_emit, find_target, registered_target};
use crate::evpn::EvpnRecord;
use crate::filter::reversed;
use crate::flowspec::{FlowSpecRuleSet, RuleView};
use crate::ingress::IngressInfo;
use crate::packing::{
    added_one, all_sent, carry_groups, lemma_packs_push, lemma_sent_push, nothing_open, packs, sent_ids, Addition,
    ItemView, Sent,
};
use crate::pamap::{attr_blob, RotondaPaMap};
use crate::register::Register;
use crate::rib::Rib;
use crate::rib_lifecycle::evpn_listed;
use crate::store::{has_key, PrefixRecord, Record, StoreView};
use crate::types::{AfiSafiType, IngressId, IngressState, IngressType, Prefix, PrefixKey};
use crate::wire::{bmp_message_bytes, tlv_bytes};

verus! {

/// The memory that routes may take while they wait to be sent together.
pub const DUMP_AGGREGATOR_MAX_BYTES: usize = 268435456;

/// Whether an ingress is of a kind that is a peer to clients.
pub open spec fn is_peer(infos: Map<IngressId, IngressInfo>, id: IngressId) -> bool {
    infos.contains_key(id) && match infos[id].ingress_type {
        Some(IngressType::BgpViaBmp) => true,
        Some(IngressType::Bgp) => true,
        Some(IngressType::Mrt) => true,
        _ => false,
    }
}

/// Whether a dump begins with a Peer Up for an ingress: it is a peer, and
/// connected unless it comes from a file.
pub open spec fn is_enumerated(infos: Map<IngressId, IngressInfo>, id: IngressId) -> bool {
    is_peer(infos, id) && (infos[id].ingress_type == Some(IngressType::Mrt) || infos[id].state == Some(
        IngressState::Connected,
    ))
}

/// The order of the kinds of peers in a dump.
pub open spec fn rank(ty: Option<IngressType>) -> int {
    match ty {
        Some(IngressType::BgpViaBmp) => 0,
        Some(IngressType::Bgp) => 1,
        _ => 2,
    }
}

/// Whether `ids` are the peers that a dump begins with, each once, in the
/// order of their kinds.
pub open spec fn enumerated(infos: Map<IngressId, IngressInfo>, ids: Seq<IngressId>) -> bool {
    &&& forall|i: int| 0 <= i < ids.len() ==> is_enumerated(infos, #[trigger] ids[i])
    &&& ids.no_duplicates()
    &&& forall|id: IngressId| #[trigger] is_enumerated(infos, id) ==> ids.contains(id)
    &&& forall|i: int, j: int|
        0 <= i < j < ids.len() ==> rank(infos[#[trigger] ids[i]].ingress_type) <= rank(
            infos[#[trigger] ids[j]].ingress_type,
        )
}

/// Whether an entry of the register is a peer of a kind that a dump begins
/// with.
fn counts_as(info: &IngressInfo, ty: IngressType) -> (r: bool)
    requires
        ty is BgpViaBmp || ty is Bgp || ty is Mrt,
    ensures
        r == (info.ingress_type == Some(ty) && (ty is Mrt || info.state == Some(IngressState::Connected))),
{
    let connected = match info.state {
        Some(IngressState::Connected) => true,
        _ => false,
    };
    match (info.ingress_type, ty) {
        (Some(IngressType::BgpViaBmp), IngressType::BgpViaBmp) => connected,
        (Some(IngressType::Bgp), IngressType::Bgp) => connected,
        (Some(IngressType::Mrt), IngressType::Mrt) => true,
        _ => false,
    }
}

/// Appends the peers of one kind.
fn push_peers(ingress_register: &Register, ty: IngressType, out: &mut Vec<IngressId>)
    requires
        ingress_register.wf(),
        ty is BgpViaBmp || ty is Bgp || ty is Mrt,
        old(out)@.no_duplicates(),
        forall|i: int|
            0 <= i < old(out)@.len() ==> ingress_register@.contains_key(#[trigger] old(out)@[i])
                && ingress_register@[old(out)@[i]].ingress_type != Some(ty),
    ensures
        old(out)@.is_prefix_of(final(out)@),
        final(out)@.no_duplicates(),
        forall|i: int|
            old(out)@.len() <= i < final(out)@.len() ==> is_enumerated(ingress_register@, #[trigger] final(out)@[i])
                && ingress_register@[final(out)@[i]].ingress_type == Some(ty),
        forall|id: IngressId| #[trigger]
            is_enumerated(ingress_register@, id) && ingress_register@[id].ingress_type == Some(ty)
                ==> final(out)@.contains(id),
{
    let ghost infos = ingress_register@;
    let ghost before = out@;
    let table = &ingress_register.infos;
    proof {
        table.lemma_keys();
    }
    let mut i: usize = 0;
    while i < table.len()
        invariant
            i <= table.size(),
            table == &ingress_register.infos,
            table.wf(),
            infos == table@,
            ty is BgpViaBmp || ty is Bgp || ty is Mrt,
            before.is_prefix_of(out@),
            out@.no_duplicates(),
            forall|k: int| 0 <= k < table.size() ==> infos.contains_key(#[trigger] table.key(k)),
            forall|j: int, k: int| 0 <= j < k < table.size() ==> #[trigger] table.key(j) != #[trigger] table.key(k),
            forall|j: int|
                0 <= j < before.len() ==> infos.contains_key(#[trigger] before[j]) && infos[before[j]].ingress_type
                    != Some(ty),
            forall|j: int|
                before.len() <= j < out@.len() ==> is_enumerated(infos, #[trigger] out@[j])
                    && infos[out@[j]].ingress_type == Some(ty) && exists|k: int|
                    0 <= k < i && #[trigger] table.key(k) == out@[j],
            forall|k: int|
                0 <= k < i && is_enumerated(infos, #[trigger] table.key(k)) && infos[table.key(k)].ingress_type == Some(
                    ty,
                ) ==> out@.contains(table.key(k)),
        decreases table.size() - i,
    {
        let id: IngressId = *table.key_at(i);
        let ghost was = out@;
        if counts_as(table.value_at(i), ty) {
            proof {
                assert(table.key(i as int) == id);
                assert forall|j: int| 0 <= j < was.len() implies #[trigger] was[j] != id by {
                    if j < before.len() {
                        assert(before[j] == was[j]);
                    } else {
                        let k = choose|k: int| 0 <= k < i && #[trigger] table.key(k) == was[j];
                        assert(table.key(k) != table.key(i as int));
                    }
                }
            }
            out.push(id);
            assert(out@[was.len() as int] == id);
        }
        proof {
            assert forall|k: int|
                0 <= k < i + 1 && is_enumerated(infos, #[trigger] table.key(k)) && infos[table.key(k)].ingress_type
                    == Some(ty) implies out@.contains(table.key(k)) by {
                if k < i {
                    let j = choose|j: int| 0 <= j < was.len() && was[j] == table.key(k);
                    assert(out@[j] == table.key(k));
                } else {
                    assert(out@[was.len() as int] == table.key(k));
                }
            }
            assert forall|j: int| before.len() <= j < out@.len() implies is_enumerated(infos, #[trigger] out@[j])
                && infos[out@[j]].ingress_type == Some(ty) && exists|k: int|
                0 <= k < i + 1 && #[trigger] table.key(k) == out@[j] by {
                if j < was.len() {
                    assert(was[j] == out@[j]);
                    let k = choose|k: int| 0 <= k < i && #[trigger] table.key(k) == was[j];
                    assert(table.key(k) == out@[j]);
                } else {
                    assert(table.key(i as int) == out@[j]);
                }
            }
        }
        i = i + 1;
    }
    proof {
        assert forall|id: IngressId| #[trigger] is_enumerated(infos, id) && infos[id].ingress_type == Some(ty) implies out@.contains(
            id,
        ) by {
            let k = choose|k: int| 0 <= k < table.size() && #[trigger] table.key(k) == id;
            assert(is_enumerated(infos, table.key(k)));
        }
    }
}

/// The peers that a dump begins with.
pub fn enumerate_peers(ingress_register: &Register) -> (r: Vec<IngressId>)
    requires
        ingress_register.wf(),
    ensures
        enumerated(ingress_register@, r@),
{
    let ghost infos = ingress_register@;
    let mut ids: Vec<IngressId> = Vec::new();
    push_peers(ingress_register, IngressType::BgpViaBmp, &mut ids);
    let ghost one = ids@;
    push_peers(ingress_register, IngressType::Bgp, &mut ids);
    let ghost two = ids@;
    proof {
        assert forall|i: int| 0 <= i < two.len() implies infos.contains_key(#[trigger] two[i])
            && infos[two[i]].ingress_type != Some(IngressType::Mrt) by {
            if i < one.len() {
                assert(one[i] == two[i]);
            }
        }
    }
    push_peers(ingress_register, IngressType::Mrt, &mut ids);
    proof {
        assert forall|i: int| 0 <= i < ids@.len() implies is_enumerated(infos, #[trigger] ids@[i]) && rank(
            infos[ids@[i]].ingress_type,
        ) == (if i < one.len() {
            0int
        } else if i < two.len() {
            1
        } else {
            2
        }) by {
            if i < one.len() {
                assert(one[i] == two[i]);
                assert(two[i] == ids@[i]);
            } else if i < two.len() {
                assert(two[i] == ids@[i]);
            }
        }
        assert forall|id: IngressId| #[trigger] is_enumerated(infos, id) implies ids@.contains(id) by {
            if one.contains(id) {
                let j = choose|j: int| 0 <= j < one.len() && one[j] == id;
                assert(one[j] == two[j]);
                assert(ids@[j] == id);
            } else if two.contains(id) {
                let j = choose|j: int| 0 <= j < two.len() && two[j] == id;
                assert(ids@[j] == id);
            }
        }
    }
    ids
}

/// A message of a dump.
#[derive(Debug)]
pub enum DumpMessage {
    Initiation(Vec<u8>),
    PeerUp(IngressId, Vec<u8>),
    Routes(AggMessage),
    Evpn(IngressId, Vec<u8>),
    EndOfRib(IngressId, Vec<u8>),
}

/// Whether messages with FlowSpec rules come behind all others.
pub open spec fn rules_last(msgs: Seq<DumpMessage>) -> bool {
    forall|i: int, j: int|
        0 <= i < j < msgs.len() && (#[trigger] msgs[i]).has_rules() ==> (#[trigger] msgs[j]).has_rules()
}

impl DumpMessage {
    pub open spec fn octets(self) -> Seq<u8> {
        match self {
            DumpMessage::Initiation(b) => b@,
            DumpMessage::PeerUp(_, b) => b@,
            DumpMessage::Routes(m) => m.bytes@,
            DumpMessage::Evpn(_, b) => b@,
            DumpMessage::EndOfRib(_, b) => b@,
        }
    }

    /// The peer that the message is about.
    pub open spec fn peer(self) -> Option<IngressId> {
        match self {
            DumpMessage::Initiation(_) => None,
            DumpMessage::PeerUp(id, _) => Some(id),
            DumpMessage::Routes(m) => Some(m.key.ingress_id),
            DumpMessage::Evpn(id, _) => Some(id),
            DumpMessage::EndOfRib(id, _) => Some(id),
        }
    }

    /// The prefixes and rules that the message announces.
    pub open spec fn routes(self) -> Multiset<AggRoute> {
        match self {
            DumpMessage::Routes(m) => m.routes(),
            _ => Multiset::empty(),
        }
    }

    /// Whether the message announces FlowSpec rules.
    pub open spec fn has_rules(self) -> bool {
        self matches DumpMessage::Routes(m) && m.key.flowspec
    }

    pub open spec fn is_up(self, id: IngressId) -> bool {
        self matches DumpMessage::PeerUp(i, _) && i == id
    }

    pub fn bytes(&self) -> (r: &Vec<u8>)
        ensures
            r@ == self.octets(),
    {
        match self {
            DumpMessage::Initiation(b) => b,
            DumpMessage::PeerUp(_, b) => b,
            DumpMessage::Routes(m) => &m.bytes,
            DumpMessage::Evpn(_, b) => b,
            DumpMessage::EndOfRib(_, b) => b,
        }
    }

    /// The number of routes in the message.
    pub fn route_count(&self) -> (r: usize)
        ensures
            r == (match *self {
                DumpMessage::Routes(m) => m.items@.len(),
                DumpMessage::Evpn(_, _) => 1,
                _ => 0,
            }),
    {
        match self {
            DumpMessage::Routes(m) => m.items.len(),
            DumpMessage::Evpn(_, _) => 1,
            _ => 0,
        }
    }
}

/// The prefixes and rules that messages announce.
pub open spec fn carried(msgs: Seq<DumpMessage>) -> Multiset<AggRoute>
    decreases msgs.len(),
{
    if msgs.len() == 0 {
        Multiset::empty()
    } else {
        carried(msgs.drop_last()).add(msgs.last().routes())
    }
}

/// What each message with prefixes or rules carries, in order.
pub open spec fn routes_sent(msgs: Seq<DumpMessage>) -> Seq<Sent>
    decreases msgs.len(),
{
    if msgs.len() == 0 {
        Seq::empty()
    } else {
        match msgs.last() {
            DumpMessage::Routes(m) => routes_sent(msgs.drop_last()).push(m.sent()),
            _ => routes_sent(msgs.drop_last()),
        }
    }
}

/// The peers that messages have a Peer Up for, in order.
pub open spec fn ups(msgs: Seq<DumpMessage>) -> Seq<IngressId>
    decreases msgs.len(),
{
    if msgs.len() == 0 {
        Seq::empty()
    } else {
        match msgs.last() {
            DumpMessage::PeerUp(id, _) => ups(msgs.drop_last()).push(id),
            _ => ups(msgs.drop_last()),
        }
    }
}

pub proof fn lemma_carried_push(msgs: Seq<DumpMessage>, m: DumpMessage)
    ensures
        carried(msgs.push(m)) == carried(msgs).add(m.routes()),
        ups(msgs.push(m)) == (match m {
            DumpMessage::PeerUp(id, _) => ups(msgs).push(id),
            _ => ups(msgs),
        }),
        routes_sent(msgs.push(m)) == (match m {
            DumpMessage::Routes(a) => routes_sent(msgs).push(a.sent()),
            _ => routes_sent(msgs),
        }),
{
    assert(msgs.push(m).drop_last() =~= msgs);
}

/// The peers of a dump, with what messages tell of them.
pub type Peers = Map<IngressId, PeerInfo>;

/// The ingress that the routes of `m` go under in a dump, and the path id
/// that they bear.
pub open spec fn walk_target(infos: Map<IngressId, IngressInfo>, m: IngressId) -> (IngressId, Option<u32>) {
    match registered_target(infos, m) {
        Some(t) => t,
        None => (m, None),
    }
}

/// Whether a dump has the routes that go under an ingress.
pub open spec fn willing(peers: Peers, infos: Map<IngressId, IngressInfo>, id: IngressId) -> bool {
    peers.contains_key(id) || is_peer(infos, id)
}

/// Whether a message is what it should be for its peer.
pub open spec fn sound(peers: Peers, m: DumpMessage, now: Timestamp) -> bool {
    match m {
        DumpMessage::PeerUp(id, b) => peers.contains_key(id) && b@ == peer_up_bytes(peers[id], false, now),
        DumpMessage::Routes(a) => peers.contains_key(a.key.ingress_id) && a.announces(peers[a.key.ingress_id], now),
        _ => false,
    }
}

/// Whether the messages of a walk are in order. Peers that were not met
/// before have one Peer Up, and it comes before their routes.
pub open spec fn walked(
    before: Peers,
    after: Peers,
    infos: Map<IngressId, IngressInfo>,
    options: EmitOptions,
    now: Timestamp,
    out: Seq<DumpMessage>,
) -> bool {
    &&& before.submap_of(after)
    &&& forall|id: IngressId| #[trigger]
        after.contains_key(id) && !before.contains_key(id) ==> is_peer(infos, id) && shown_peer(
            infos,
            id,
            options,
            after[id],
        ) && ups(out).contains(id)
    &&& forall|i: int| 0 <= i < out.len() ==> sound(after, #[trigger] out[i], now)
    &&& forall|k: int| 0 <= k < ups(out).len() ==> !before.contains_key(#[trigger] ups(out)[k])
    &&& ups(out).no_duplicates()
    &&& forall|i: int|
        0 <= i < out.len() ==> ((#[trigger] out[i]) matches DumpMessage::Routes(m) ==> before.contains_key(
            m.key.ingress_id,
        ) || ups(out.take(i)).contains(m.key.ingress_id))
}

proof fn lemma_walked_nothing(
    peers: Peers,
    infos: Map<IngressId, IngressInfo>,
    options: EmitOptions,
    now: Timestamp,
)
    ensures
        walked(peers, peers, infos, options, now, Seq::empty()),
        carried(Seq::empty()) == Multiset::<AggRoute>::empty(),
        ups(Seq::empty()) == Seq::<IngressId>::empty(),
{
}

proof fn lemma_ups_contain(out: Seq<DumpMessage>, m: DumpMessage, id: IngressId)
    requires
        ups(out).contains(id),
    ensures
        ups(out.push(m)).contains(id),
{
    lemma_carried_push(out, m);
    let k = choose|k: int| 0 <= k < ups(out).len() && ups(out)[k] == id;
    assert(ups(out.push(m))[k] == id);
}

proof fn lemma_walked_up(
    before: Peers,
    peers: Peers,
    infos: Map<IngressId, IngressInfo>,
    options: EmitOptions,
    now: Timestamp,
    out: Seq<DumpMessage>,
    id: IngressId,
    info: PeerInfo,
    bytes: Vec<u8>,
)
    requires
        walked(before, peers, infos, options, now, out),
        !peers.contains_key(id),
        is_peer(infos, id),
        shown_peer(infos, id, options, info),
        bytes@ == peer_up_bytes(info, false, now),
    ensures
        walked(before, peers.insert(id, info), infos, options, now, out.push(DumpMessage::PeerUp(id, bytes))),
{
    let m = DumpMessage::PeerUp(id, bytes);
    let next = out.push(m);
    let after = peers.insert(id, info);
    lemma_carried_push(out, m);
    assert forall|k: int| 0 <= k < ups(out).len() implies #[trigger] ups(out)[k] != id by {
        lemma_up_is_known(peers, now, out, k);
    }
    assert(ups(next).no_duplicates());
    assert(ups(next)[ups(out).len() as int] == id);
    assert forall|x: IngressId| #[trigger] after.contains_key(x) && !before.contains_key(x) implies is_peer(infos, x)
        && shown_peer(infos, x, options, after[x]) && ups(next).contains(x) by {
        if x != id {
            assert(peers.contains_key(x));
            lemma_ups_contain(out, m, x);
        }
    }
    assert forall|i: int| 0 <= i < next.len() implies sound(after, #[trigger] next[i], now) by {
        if i < out.len() {
            assert(sound(peers, out[i], now));
        }
    }
    assert forall|i: int| 0 <= i < next.len() implies ((#[trigger] next[i]) matches DumpMessage::Routes(a)
        ==> before.contains_key(a.key.ingress_id) || ups(next.take(i)).contains(a.key.ingress_id)) by {
        if i < out.len() {
            assert(next[i] == out[i]);
            assert(next.take(i) =~= out.take(i));
        }
    }
}

/// Each peer of a Peer Up is known.
proof fn lemma_up_is_known(peers: Peers, now: Timestamp, out: Seq<DumpMessage>, k: int)
    requires
        forall|i: int| 0 <= i < out.len() ==> sound(peers, #[trigger] out[i], now),
        0 <= k < ups(out).len(),
    ensures
        peers.contains_key(ups(out)[k]),
    decreases out.len(),
{
    let last = out.last();
    assert(sound(peers, out[out.len() - 1], now));
    let rest = out.drop_last();
    if k < ups(rest).len() {
        assert forall|i: int| 0 <= i < rest.len() implies sound(peers, #[trigger] rest[i], now) by {
            assert(rest[i] == out[i]);
        }
        lemma_up_is_known(peers, now, rest, k);
    }
}

proof fn lemma_walked_routes(
    before: Peers,
    peers: Peers,
    infos: Map<IngressId, IngressInfo>,
    options: EmitOptions,
    now: Timestamp,
    out: Seq<DumpMessage>,
    a: AggMessage,
)
    requires
        walked(before, peers, infos, options, now, out),
        peers.contains_key(a.key.ingress_id),
        a.announces(peers[a.key.ingress_id], now),
    ensures
        walked(before, peers, infos, options, now, out.push(DumpMessage::Routes(a))),
{
    let m = DumpMessage::Routes(a);
    let next = out.push(m);
    lemma_carried_push(out, m);
    assert forall|i: int| 0 <= i < next.len() implies sound(peers, #[trigger] next[i], now) by {
        if i < out.len() {
            assert(sound(peers, out[i], now));
        }
    }
    assert forall|i: int| 0 <= i < next.len() implies ((#[trigger] next[i]) matches DumpMessage::Routes(b)
        ==> before.contains_key(b.key.ingress_id) || ups(next.take(i)).contains(b.key.ingress_id)) by {
        assert(next.take(i) =~= out.take(i));
        if i < out.len() {
            assert(next[i] == out[i]);
        } else {
            assert(out.take(i) =~= out);
        }
    }
}

/// The stages of a dump.
#[derive(Clone, Copy, Debug, PartialEq, Eq, Structural)]
pub enum DumpStage {
    PeerUps,
    Unicast,
    FlowSpec,
    Evpn,
    Flush,
    EndOfRib,
    Discovered,
    Done,
}

/// A dump of the table to a client.
pub struct TableDump {
    /// The peers that the dump began with.
    pub peers: Vec<IngressId>,
    /// Further peers whose routes were met on the way.
    pub discovered: Vec<IngressId>,
    pub aggregator: RouteAggregator,
    pub stage: DumpStage,
    /// The number of peers or EVPN routes of the stage that are done.
    pub next: usize,
    /// The walk over the prefixes or over the rules.
    pub cursor: DumpCursor,
    /// The EVPN routes.
    pub evpn: Vec<EvpnRecord>,
}

/// Appends aggregated messages.
fn forward(
    out: &mut Vec<DumpMessage>,
    msgs: Vec<AggMessage>,
    before: Ghost<Peers>,
    peers: Ghost<Peers>,
    infos: Ghost<Map<IngressId, IngressInfo>>,
    options: Ghost<EmitOptions>,
    now: Ghost<Timestamp>,
)
    requires
        walked(before@, peers@, infos@, options@, now@, old(out)@),
        forall|i: int|
            0 <= i < msgs@.len() ==> peers@.contains_key((#[trigger] msgs@[i]).key.ingress_id) && msgs@[i].announces(
                peers@[msgs@[i].key.ingress_id],
                now@,
            ),
    ensures
        walked(before@, peers@, infos@, options@, now@, final(out)@),
        old(out)@.is_prefix_of(final(out)@),
        carried(final(out)@) == carried(old(out)@).add(carried_routes(msgs@)),
        ups(final(out)@) == ups(old(out)@),
        routes_sent(final(out)@) == routes_sent(old(out)@) + all_sent(msgs@),
{
    let ghost all = msgs@;
    let ghost first = out@;
    let mut rest = reversed(msgs);
    let ghost mut n: int = 0;
    assert(carried(out@).add(carried_routes(all.take(0))) =~= carried(out@));
    assert(routes_sent(first) + all_sent(all.take(0)) =~= routes_sent(first));
    while rest.len() > 0
        invariant
            0 <= n <= all.len(),
            rest@ == all.skip(n).reverse(),
            walked(before@, peers@, infos@, options@, now@, out@),
            first.is_prefix_of(out@),
            carried(out@) == carried(first).add(carried_routes(all.take(n))),
            ups(out@) == ups(first),
            routes_sent(out@) == routes_sent(first) + all_sent(all.take(n)),
            forall|i: int|
                0 <= i < all.len() ==> peers@.contains_key((#[trigger] all[i]).key.ingress_id) && all[i].announces(
                    peers@[all[i].key.ingress_id],
                    now@,
                ),
        decreases rest@.len(),
    {
        let ghost was = out@;
        match rest.pop() {
            Some(m) => {
                proof {
                    assert(m == all[n]);
                    lemma_walked_routes(before@, peers@, infos@, options@, now@, was, m);
                    lemma_carried_push(was, DumpMessage::Routes(m));
                    assert(all.take(n + 1).drop_last() =~= all.take(n));
                    assert(carried(first).add(carried_routes(all.take(n))).add(m.routes()) =~= carried(first).add(
                        carried_routes(all.take(n)).add(m.routes()),
                    ));
                    assert(all.take(n + 1) =~= all.take(n).push(m));
                    lemma_sent_push(all.take(n), m);
                    assert(routes_sent(first) + all_sent(all.take(n)).push(m.sent()) =~= (routes_sent(first) + all_sent(
                        all.take(n),
                    )).push(m.sent()));
                    n = n + 1;
                }
                out.push(DumpMessage::Routes(m));
                assert(rest@ =~= all.skip(n).reverse());
            },
            None => {},
        }
    }
    assert(all.take(n) =~= all);
}

/// The prefix that a record makes a dump announce.
pub open spec fn prefix_route(
    peers: Peers,
    infos: Map<IngressId, IngressInfo>,
    p: PrefixKey,
    m: IngressId,
    raw: Seq<u8>,
) -> Multiset<AggRoute> {
    let (id, path_id) = walk_target(infos, m);
    if willing(peers, infos, id) && prefix_sendable(p, raw, path_id) {
        Multiset::empty().insert((id, path_id, NlriView::Prefix(p), attr_blob(raw)))
    } else {
        Multiset::empty()
    }
}

/// The prefixes that some records of a prefix make a dump announce.
pub open spec fn record_routes(
    peers: Peers,
    infos: Map<IngressId, IngressInfo>,
    p: PrefixKey,
    recs: Seq<Record<RotondaPaMap>>,
) -> Multiset<AggRoute>
    decreases recs.len(),
{
    if recs.len() == 0 {
        Multiset::empty()
    } else {
        record_routes(peers, infos, p, recs.drop_last()).add(
            prefix_route(peers, infos, p, recs.last().multi_uniq_id, recs.last().meta@),
        )
    }
}

/// The prefixes that the records of some prefixes make a dump announce.
pub open spec fn prefix_routes(
    peers: Peers,
    infos: Map<IngressId, IngressInfo>,
    set: Seq<PrefixRecord<RotondaPaMap>>,
) -> Multiset<AggRoute>
    decreases set.len(),
{
    if set.len() == 0 {
        Multiset::empty()
    } else {
        prefix_routes(peers, infos, set.drop_last()).add(
            record_routes(peers, infos, set.last().prefix@, set.last().meta@),
        )
    }
}

/// A prefix as it is added to its group, if the dump has the routes of its
/// peer.
pub open spec fn prefix_add(
    peers: Peers,
    infos: Map<IngressId, IngressInfo>,
    p: PrefixKey,
    m: IngressId,
    raw: Seq<u8>,
) -> Seq<Addition> {
    let (id, path_id) = walk_target(infos, m);
    if willing(peers, infos, id) {
        let key = prefix_key(id, p, path_id);
        seq![
            Addition {
                id: (key, attr_blob(raw)),
                base: base_len_of(key, raw),
                item: (path_id, NlriView::Prefix(p)),
                framable: prefix_update(p, raw, false, path_id) is Some,
            },
        ]
    } else {
        Seq::empty()
    }
}

/// The records of a prefix as they are added, in order.
pub open spec fn record_adds(
    peers: Peers,
    infos: Map<IngressId, IngressInfo>,
    p: PrefixKey,
    recs: Seq<Record<RotondaPaMap>>,
) -> Seq<Addition>
    decreases recs.len(),
{
    if recs.len() == 0 {
        Seq::empty()
    } else {
        record_adds(peers, infos, p, recs.drop_last()) + prefix_add(
            peers,
            infos,
            p,
            recs.last().multi_uniq_id,
            recs.last().meta@,
        )
    }
}

/// The records of prefixes as they are added, in order.
pub open spec fn prefix_adds(
    peers: Peers,
    infos: Map<IngressId, IngressInfo>,
    set: Seq<PrefixRecord<RotondaPaMap>>,
) -> Seq<Addition>
    decreases set.len(),
{
    if set.len() == 0 {
        Seq::empty()
    } else {
        prefix_adds(peers, infos, set.drop_last()) + record_adds(peers, infos, set.last().prefix@, set.last().meta@)
    }
}

/// A rule as it is added to its group. One that would fill all memory is not.
pub open spec fn rule_add(
    peers: Peers,
    infos: Map<IngressId, IngressInfo>,
    is_v4: bool,
    m: IngressId,
    rule: RuleView,
) -> Seq<Addition> {
    let (id, path_id) = walk_target(infos, m);
    if willing(peers, infos, id) && rule.nlri.len() + 6 <= usize::MAX {
        let key = rule_key(id, is_v4, path_id);
        seq![
            Addition {
                id: (key, attr_blob(rule.pamap)),
                base: base_len_of(key, rule.pamap),
                item: (path_id, NlriView::Rule(rule.nlri)),
                framable: flowspec_update(is_v4, rule.nlri, rule.pamap, false, path_id) is Some,
            },
        ]
    } else {
        Seq::empty()
    }
}

/// The rules of a set as they are added, in order.
pub open spec fn set_adds(
    peers: Peers,
    infos: Map<IngressId, IngressInfo>,
    is_v4: bool,
    m: IngressId,
    rules: Seq<RuleView>,
) -> Seq<Addition>
    decreases rules.len(),
{
    if rules.len() == 0 {
        Seq::empty()
    } else {
        set_adds(peers, infos, is_v4, m, rules.drop_last()) + rule_add(peers, infos, is_v4, m, rules.last())
    }
}

/// The rules of some records of a prefix as they are added, in order.
pub open spec fn record_rule_adds(
    peers: Peers,
    infos: Map<IngressId, IngressInfo>,
    is_v4: bool,
    recs: Seq<Record<FlowSpecRuleSet>>,
) -> Seq<Addition>
    decreases recs.len(),
{
    if recs.len() == 0 {
        Seq::empty()
    } else {
        record_rule_adds(peers, infos, is_v4, recs.drop_last()) + set_adds(
            peers,
            infos,
            is_v4,
            recs.last().multi_uniq_id,
            recs.last().meta@,
        )
    }
}

/// The rules of the records of prefixes as they are added, in order.
pub open spec fn rule_adds(
    peers: Peers,
    infos: Map<IngressId, IngressInfo>,
    set: Seq<PrefixRecord<FlowSpecRuleSet>>,
) -> Seq<Addition>
    decreases set.len(),
{
    if set.len() == 0 {
        Seq::empty()
    } else {
        rule_adds(peers, infos, set.drop_last()) + record_rule_adds(
            peers,
            infos,
            set.last().prefix@.0,
            set.last().meta@,
        )
    }
}

/// Whether an aggregator has come this far by adding some routes, and the
/// messages are those that were sent meanwhile.
#[verifier::opaque]
pub open spec fn ran(
    start: RouteAggregator,
    now: RouteAggregator,
    adds: Seq<Addition>,
    out: Seq<DumpMessage>,
) -> bool {
    &&& now.max_bytes == start.max_bytes
    &&& packs(start.packing(), adds, start.max_bytes as int, now.packing(), routes_sent(out))
}

proof fn lemma_ran_nothing(a: RouteAggregator)
    ensures
        ran(a, a, Seq::empty(), Seq::empty()),
{
    reveal(ran);
}

/// What does not touch the groups changes nothing.
proof fn lemma_ran_same(
    start: RouteAggregator,
    mid: RouteAggregator,
    now: RouteAggregator,
    adds: Seq<Addition>,
    was: Seq<DumpMessage>,
    out: Seq<DumpMessage>,
)
    requires
        ran(start, mid, adds, was),
        now.max_bytes == mid.max_bytes,
        now.packing() == mid.packing(),
        routes_sent(out) == routes_sent(was),
    ensures
        ran(start, now, adds, out),
{
    reveal(ran);
}

/// One more route is added.
proof fn lemma_ran_add(
    start: RouteAggregator,
    mid: RouteAggregator,
    now: RouteAggregator,
    adds: Seq<Addition>,
    was: Seq<DumpMessage>,
    out: Seq<DumpMessage>,
    key: GroupKey,
    raw: Seq<u8>,
    item: ItemView,
    framable: bool,
    r: Seq<AggMessage>,
)
    requires
        ran(start, mid, adds, was),
        mid.took(now, key, raw, item, framable, r),
        now.max_bytes == mid.max_bytes,
        routes_sent(out) == routes_sent(was) + all_sent(r),
    ensures
        ran(
            start,
            now,
            adds + seq![Addition { id: (key, attr_blob(raw)), base: base_len_of(key, raw), item, framable }],
            out,
        ),
{
    reveal(ran);
    let a = Addition { id: (key, attr_blob(raw)), base: base_len_of(key, raw), item, framable };
    let evictions = choose|evictions: int| #[trigger]
        mid.packing().added(
            now.packing(),
            (key, attr_blob(raw)),
            base_len_of(key, raw),
            item,
            framable,
            mid.max_bytes as int,
            all_sent(r),
            evictions,
        ) && now.budget_evictions == usize_min(mid.budget_evictions + evictions);
    assert(mid.packing().added(
        now.packing(),
        a.id,
        a.base,
        a.item,
        a.framable,
        start.max_bytes as int,
        all_sent(r),
        evictions,
    ));
    assert(added_one(mid.packing(), now.packing(), a, start.max_bytes as int, all_sent(r)));
    lemma_packs_push(
        start.packing(),
        adds,
        start.max_bytes as int,
        mid.packing(),
        routes_sent(was),
        a,
        now.packing(),
        all_sent(r),
    );
    assert(adds.push(a) =~= adds + seq![a]);
}

/// Whether a rule can be sent. One that would fill all memory cannot.
pub open spec fn rule_sent(is_v4: bool, rule: RuleView, path_id: Option<u32>) -> bool {
    rule.nlri.len() + 6 <= usize::MAX && rule_sendable(is_v4, rule.nlri, rule.pamap, path_id)
}

/// The rules of a set that a dump announces.
pub open spec fn set_routes(
    peers: Peers,
    infos: Map<IngressId, IngressInfo>,
    is_v4: bool,
    m: IngressId,
    rules: Seq<RuleView>,
) -> Multiset<AggRoute>
    decreases rules.len(),
{
    if rules.len() == 0 {
        Multiset::empty()
    } else {
        let (id, path_id) = walk_target(infos, m);
        let rest = set_routes(peers, infos, is_v4, m, rules.drop_last());
        let rule = rules.last();
        if willing(peers, infos, id) && rule_sent(is_v4, rule, path_id) {
            rest.insert((id, path_id, NlriView::Rule(rule.nlri), attr_blob(rule.pamap)))
        } else {
            rest
        }
    }
}

/// The rules of some records of a prefix that a dump announces.
pub open spec fn record_rules(
    peers: Peers,
    infos: Map<IngressId, IngressInfo>,
    is_v4: bool,
    recs: Seq<Record<FlowSpecRuleSet>>,
) -> Multiset<AggRoute>
    decreases recs.len(),
{
    if recs.len() == 0 {
        Multiset::empty()
    } else {
        record_rules(peers, infos, is_v4, recs.drop_last()).add(
            set_routes(peers, infos, is_v4, recs.last().multi_uniq_id, recs.last().meta@),
        )
    }
}

/// The rules of the records of some prefixes that a dump announces.
pub open spec fn rule_routes(
    peers: Peers,
    infos: Map<IngressId, IngressInfo>,
    set: Seq<PrefixRecord<FlowSpecRuleSet>>,
) -> Multiset<AggRoute>
    decreases set.len(),
{
    if set.len() == 0 {
        Multiset::empty()
    } else {
        rule_routes(peers, infos, set.drop_last()).add(
            record_rules(peers, infos, set.last().prefix@.0, set.last().meta@),
        )
    }
}

/// Whether an ingress is of a kind that is a peer to clients.
fn check_peer(ingress_register: &Register, id: IngressId) -> (r: bool)
    requires
        ingress_register.wf(),
    ensures
        r == is_peer(ingress_register@, id),
{
    match ingress_register.get(id) {
        Some(info) => match info.ingress_type {
            Some(IngressType::BgpViaBmp) => true,
            Some(IngressType::Bgp) => true,
            Some(IngressType::Mrt) => true,
            _ => false,
        },
        None => false,
    }
}

/// The ingress that routes go under in a dump.
fn find_walk_target(ingress_register: &Register, m: IngressId) -> (r: (IngressId, Option<u32>))
    requires
        ingress_register.wf(),
    ensures
        r == walk_target(ingress_register@, m),
{
    match find_target(ingress_register, m) {
        Some(t) => t,
        None => (m, None),
    }
}

/// Whether an aggregator is well-formed.
#[verifier::opaque]
pub open spec fn in_shape(a: RouteAggregator) -> bool {
    a.wf()
}

impl TableDump {
    /// The peers of the dump so far.
    pub open spec fn met(self) -> Peers {
        self.aggregator.peer_info@
    }

    /// The aggregator and the walk are well-formed; the peers are those that
    /// the dump began with and those that were discovered, each once.
    pub open spec fn wf(self) -> bool {
        &&& in_shape(self.aggregator)
        &&& self.cursor.wf()
        &&& (self.peers@ + self.discovered@).no_duplicates()
        &&& self.met().dom() == (self.peers@ + self.discovered@).to_set()
    }

    /// Whether a step of the dump has come this far from where it started:
    /// the messages are in order, and the peers of their Peer Ups are
    /// discovered.
    pub open spec fn came_from(
        self,
        start: TableDump,
        infos: Map<IngressId, IngressInfo>,
        options: EmitOptions,
        now: Timestamp,
        out: Seq<DumpMessage>,
    ) -> bool {
        &&& self.wf()
        &&& walked(start.met(), self.met(), infos, options, now, out)
        &&& self.discovered@ == start.discovered@ + ups(out)
        &&& self.peers == start.peers
        &&& self.evpn == start.evpn
    }

    /// Makes sure that a peer is met. Its Peer Up comes first if it is not
    /// yet.
    fn meet(
        &mut self,
        ingress_register: &Register,
        options: EmitOptions,
        id: IngressId,
        now: Timestamp,
        out: &mut Vec<DumpMessage>,
        start: Ghost<TableDump>,
    ) -> (r: bool)
        requires
            ingress_register.wf(),
            old(self).came_from(start@, ingress_register@, options, now, old(out)@),
        ensures
            final(self).came_from(start@, ingress_register@, options, now, final(out)@),
            r == willing(start@.met(), ingress_register@, id),
            r ==> final(self).met().contains_key(id),
            carried(final(out)@) == carried(old(out)@),
            routes_sent(final(out)@) == routes_sent(old(out)@),
            final(self).aggregator.pending() == old(self).aggregator.pending(),
            final(self).aggregator.packing() == old(self).aggregator.packing(),
            final(self).aggregator.max_bytes == old(self).aggregator.max_bytes,
            final(self).stage == old(self).stage,
            final(self).next == old(self).next,
            final(self).cursor == old(self).cursor,
    {
        reveal(in_shape);
        if self.aggregator.has_peer(id) {
            return true;
        }
        if !check_peer(ingress_register, id) {
            return false;
        }
        match ingress_register.get(id) {
            Some(info) => {
                let peer = build_peer_info_for_emit(
                    info,
                    ingress_register,
                    options.forward_router_info,
                    options.fan_in_peer_distinguisher,
                );
                let bytes = build_peer_up_at(&peer, false, now);
                proof {
                    assert(shown_peer(ingress_register@, id, options, peer));
                    lemma_walked_up(start@.met(), self.met(), ingress_register@, options, now, out@, id, peer, bytes);
                    lemma_carried_push(out@, DumpMessage::PeerUp(id, bytes));
                    assert(carried(out@).add(Multiset::empty()) =~= carried(out@));
                }
                out.push(DumpMessage::PeerUp(id, bytes));
                self.discover(id, peer);
                true
            },
            None => false,
        }
    }

    /// All peers of the dump are met.
    proof fn lemma_met(self, i: int)
        requires
            self.wf(),
        ensures
            0 <= i < self.peers@.len() ==> self.met().contains_key(self.peers@[i]),
            0 <= i < self.discovered@.len() ==> self.met().contains_key(self.discovered@[i]),
    {
        let all = self.peers@ + self.discovered@;
        if 0 <= i < self.peers@.len() {
            assert(all[i] == self.peers@[i]);
            assert(self.met().dom().contains(self.peers@[i]));
        }
        if 0 <= i < self.discovered@.len() {
            assert(all[self.peers@.len() + i] == self.discovered@[i]);
            assert(self.met().dom().contains(self.discovered@[i]));
        }
    }

    /// One more peer is discovered.
    fn discover(&mut self, id: IngressId, peer: PeerInfo)
        requires
            old(self).wf(),
            !old(self).met().contains_key(id),
        ensures
            final(self).wf(),
            final(self).met() == old(self).met().insert(id, peer),
            final(self).discovered@ == old(self).discovered@.push(id),
            final(self).aggregator.pending() == old(self).aggregator.pending(),
            final(self).aggregator.packing() == old(self).aggregator.packing(),
            final(self).aggregator.max_bytes == old(self).aggregator.max_bytes,
            final(self).peers == old(self).peers,
            final(self).stage == old(self).stage,
            final(self).next == old(self).next,
            final(self).cursor == old(self).cursor,
            final(self).evpn == old(self).evpn,
    {
        reveal(in_shape);
        let ghost was = *self;
        self.aggregator.insert_peer(id, peer);
        self.discovered.push(id);
        proof {
            was.lemma_discover(*self, id);
        }
    }

    /// One more peer is discovered.
    proof fn lemma_discover(self, after: TableDump, id: IngressId)
        requires
            self.wf(),
            !self.met().contains_key(id),
            after.peers == self.peers,
            after.discovered@ == self.discovered@.push(id),
            after.met().dom() == self.met().dom().insert(id),
            in_shape(after.aggregator),
            after.cursor.wf(),
        ensures
            after.wf(),
    {
        let all = self.peers@ + self.discovered@;
        assert(after.peers@ + after.discovered@ =~= all.push(id));
        assert(!all.to_set().contains(id));
        assert(all.push(id).to_set() =~= all.to_set().insert(id)) by {
            assert forall|x: IngressId| all.push(id).to_set().contains(x) == all.to_set().insert(id).contains(x) by {
                if all.contains(x) {
                    let k = choose|k: int| 0 <= k < all.len() && all[k] == x;
                    assert(all.push(id)[k] == x);
                }
                assert(all.push(id)[all.len() as int] == id);
                if all.push(id).contains(x) && x != id {
                    let k = choose|k: int| 0 <= k < all.push(id).len() && all.push(id)[k] == x;
                    assert(all[k] == x);
                }
            }
        }
    }

    /// Adds one prefix.
    fn add_prefix(
        &mut self,
        ingress_register: &Register,
        options: EmitOptions,
        prefix: Prefix,
        rec: &Record<RotondaPaMap>,
        now: Timestamp,
        out: &mut Vec<DumpMessage>,
        start: Ghost<TableDump>,
        adds: Ghost<Seq<Addition>>,
    )
        requires
            ingress_register.wf(),
            prefix.wf(),
            old(self).came_from(start@, ingress_register@, options, now, old(out)@),
            ran(start@.aggregator, old(self).aggregator, adds@, old(out)@),
        ensures
            final(self).came_from(start@, ingress_register@, options, now, final(out)@),
            ran(
                start@.aggregator,
                final(self).aggregator,
                adds@ + prefix_add(start@.met(), ingress_register@, prefix@, rec.multi_uniq_id, rec.meta@),
                final(out)@,
            ),
            final(self).aggregator.pending().add(carried(final(out)@)) == old(self).aggregator.pending().add(
                carried(old(out)@),
            ).add(prefix_route(start@.met(), ingress_register@, prefix@, rec.multi_uniq_id, rec.meta@)),
            final(self).stage == old(self).stage,
            final(self).next == old(self).next,
            final(self).cursor == old(self).cursor,
    {
        let (id, path_id) = find_walk_target(ingress_register, rec.multi_uniq_id);
        let ghost was = self.aggregator;
        let ghost before_all = out@;
        if !self.meet(ingress_register, options, id, now, out, start) {
            assert(self.aggregator.pending().add(carried(out@)).add(Multiset::empty())
                =~= self.aggregator.pending().add(carried(out@)));
            proof {
                lemma_ran_same(start@.aggregator, was, self.aggregator, adds@, before_all, out@);
                assert(adds@ + Seq::<Addition>::empty() =~= adds@);
            }
            return ;
        }
        reveal(in_shape);
        let ghost pending = self.aggregator.pending();
        let ghost before = carried(out@);
        let ghost mid = self.aggregator;
        let ghost before_out = out@;
        proof {
            lemma_ran_same(start@.aggregator, was, mid, adds@, before_all, before_out);
        }
        let msgs = self.aggregator.add(id, path_id, prefix, &rec.meta, now);
        let ghost sent = carried_routes(msgs@);
        let ghost told = msgs@;
        forward(
            out,
            msgs,
            Ghost(start@.met()),
            Ghost(self.met()),
            Ghost(ingress_register@),
            Ghost(options),
            Ghost(now),
        );
        proof {
            lemma_ran_add(
                start@.aggregator,
                mid,
                self.aggregator,
                adds@,
                before_out,
                out@,
                prefix_key(id, prefix@, path_id),
                rec.meta@,
                (path_id, NlriView::Prefix(prefix@)),
                prefix_update(prefix@, rec.meta@, false, path_id) is Some,
                told,
            );
            let route = (id, path_id, NlriView::Prefix(prefix@), attr_blob(rec.meta@));
            lemma_account(
                pending,
                self.aggregator.pending(),
                before,
                sent,
                if prefix_sendable(prefix@, rec.meta@, path_id) {
                    Multiset::empty().insert(route)
                } else {
                    Multiset::empty()
                },
            );
        }
    }

    /// Adds the rules of one set.
    fn add_rules(
        &mut self,
        ingress_register: &Register,
        options: EmitOptions,
        is_v4: bool,
        rec: &Record<FlowSpecRuleSet>,
        now: Timestamp,
        out: &mut Vec<DumpMessage>,
        start: Ghost<TableDump>,
        adds: Ghost<Seq<Addition>>,
    )
        requires
            ingress_register.wf(),
            old(self).came_from(start@, ingress_register@, options, now, old(out)@),
            ran(start@.aggregator, old(self).aggregator, adds@, old(out)@),
        ensures
            final(self).came_from(start@, ingress_register@, options, now, final(out)@),
            ran(
                start@.aggregator,
                final(self).aggregator,
                adds@ + set_adds(start@.met(), ingress_register@, is_v4, rec.multi_uniq_id, rec.meta@),
                final(out)@,
            ),
            final(self).aggregator.pending().add(carried(final(out)@)) == old(self).aggregator.pending().add(
                carried(old(out)@),
            ).add(set_routes(start@.met(), ingress_register@, is_v4, rec.multi_uniq_id, rec.meta@)),
            final(self).stage == old(self).stage,
            final(self).next == old(self).next,
            final(self).cursor == old(self).cursor,
    {
        let ghost infos = ingress_register@;
        let ghost first = self.aggregator.pending().add(carried(out@));
        let (id, path_id) = find_walk_target(ingress_register, rec.multi_uniq_id);
        let ghost was = self.aggregator;
        let ghost before_all = out@;
        if !self.meet(ingress_register, options, id, now, out, start) {
            proof {
                lemma_ran_same(start@.aggregator, was, self.aggregator, adds@, before_all, out@);
                lemma_no_adds(start@.met(), infos, is_v4, rec.multi_uniq_id, rec.meta@);
                assert(adds@ + Seq::<Addition>::empty() =~= adds@);
                lemma_unwilling(start@.met(), infos, is_v4, rec.multi_uniq_id, rec.meta@);
                assert(first.add(Multiset::empty()) =~= first);
            }
            return ;
        }
        let ghost rules = rec.meta@;
        let mut i: usize = 0;
        proof {
            lemma_ran_same(start@.aggregator, was, self.aggregator, adds@, before_all, out@);
            assert(rules.take(0) =~= Seq::empty());
            assert(adds@ + set_adds(start@.met(), infos, is_v4, rec.multi_uniq_id, rules.take(0)) =~= adds@);
        }
        assert(first.add(set_routes(start@.met(), infos, is_v4, rec.multi_uniq_id, rules.take(0))) =~= first);
        while i < rec.meta.rules.len()
            invariant
                i <= rec.meta.rules@.len(),
                rules == rec.meta@,
                rules.len() == rec.meta.rules@.len(),
                ingress_register.wf(),
                infos == ingress_register@,
                (id, path_id) == walk_target(infos, rec.multi_uniq_id),
                willing(start@.met(), infos, id),
                self.met().contains_key(id),
                self.came_from(start@, infos, options, now, out@),
                self.aggregator.pending().add(carried(out@)) == first.add(
                    set_routes(start@.met(), infos, is_v4, rec.multi_uniq_id, rules.take(i as int)),
                ),
                ran(
                    start@.aggregator,
                    self.aggregator,
                    adds@ + set_adds(start@.met(), infos, is_v4, rec.multi_uniq_id, rules.take(i as int)),
                    out@,
                ),
                self.stage == old(self).stage,
                self.next == old(self).next,
                self.cursor == old(self).cursor,
            decreases rec.meta.rules@.len() - i,
        {
            let rule = &rec.meta.rules[i];
            proof {
                assert(rules[i as int] == rule@);
                assert(rules.take(i + 1).drop_last() =~= rules.take(i as int));
            }
            let ghost done = set_routes(start@.met(), infos, is_v4, rec.multi_uniq_id, rules.take(i as int));
            let ghost so_far = set_adds(start@.met(), infos, is_v4, rec.multi_uniq_id, rules.take(i as int));
            let ghost next = rule_add(start@.met(), infos, is_v4, rec.multi_uniq_id, rule@);
            assert(set_adds(start@.met(), infos, is_v4, rec.multi_uniq_id, rules.take(i + 1)) == so_far + next);
            assert(adds@ + (so_far + next) =~= adds@ + so_far + next);
            if rule.nlri.len() <= usize::MAX - 6 {
                reveal(in_shape);
                let ghost pending = self.aggregator.pending();
                let ghost before = carried(out@);
                let ghost mid = self.aggregator;
                let ghost before_out = out@;
                let msgs = self.aggregator.add_flowspec(id, path_id, is_v4, &rule.nlri, &rule.pamap, now);
                let ghost sent = carried_routes(msgs@);
                let ghost told = msgs@;
                forward(
                    out,
                    msgs,
                    Ghost(start@.met()),
                    Ghost(self.met()),
                    Ghost(infos),
                    Ghost(options),
                    Ghost(now),
                );
                proof {
                    lemma_ran_add(
                        start@.aggregator,
                        mid,
                        self.aggregator,
                        adds@ + so_far,
                        before_out,
                        out@,
                        rule_key(id, is_v4, path_id),
                        rule.pamap@,
                        (path_id, NlriView::Rule(rule.nlri@)),
                        flowspec_update(is_v4, rule.nlri@, rule.pamap@, false, path_id) is Some,
                        told,
                    );
                    let route = (id, path_id, NlriView::Rule(rule.nlri@), attr_blob(rule.pamap@));
                    let more = if rule_sendable(is_v4, rule.nlri@, rule.pamap@, path_id) {
                        Multiset::<AggRoute>::empty().insert(route)
                    } else {
                        Multiset::empty()
                    };
                    lemma_account(pending, self.aggregator.pending(), before, sent, more);
                    assert(first.add(done).add(more) =~= first.add(done.add(more)));
                    if rule_sendable(is_v4, rule.nlri@, rule.pamap@, path_id) {
                        assert(done.add(more) =~= done.insert(route));
                    } else {
                        assert(done.add(more) =~= done);
                    }
                }
            } else {
                assert(adds@ + so_far + next =~= adds@ + so_far);
            }
            i = i + 1;
        }
        assert(rules.take(i as int) =~= rules);
    }
}

/// What was waiting and sent, with some routes more.
proof fn lemma_account(
    pending: Multiset<AggRoute>,
    after: Multiset<AggRoute>,
    before: Multiset<AggRoute>,
    sent: Multiset<AggRoute>,
    more: Multiset<AggRoute>,
)
    requires
        after.add(sent) == pending.add(more) || (more.len() == 1 && exists|r: AggRoute|
            more == Multiset::<AggRoute>::empty().insert(r) && after.add(sent) == #[trigger] pending.insert(r)) || (more
            == Multiset::<AggRoute>::empty() && after.add(sent) == pending),
    ensures
        after.add(before.add(sent)) == pending.add(before).add(more),
{
    assert(after.add(sent) =~= pending.add(more)) by {
        if more == Multiset::<AggRoute>::empty() {
            assert(pending.add(more) =~= pending);
        } else if !(after.add(sent) == pending.add(more)) {
            let r = choose|r: AggRoute|
                more == Multiset::<AggRoute>::empty().insert(r) && after.add(sent) == #[trigger] pending.insert(r);
            assert(pending.add(more) =~= pending.insert(r));
        }
    }
    assert(after.add(before.add(sent)) =~= after.add(sent).add(before));
    assert(pending.add(more).add(before) =~= pending.add(before).add(more));
}

/// Of an ingress whose routes a dump does not have, no rule is added.
proof fn lemma_no_adds(
    peers: Peers,
    infos: Map<IngressId, IngressInfo>,
    is_v4: bool,
    m: IngressId,
    rules: Seq<RuleView>,
)
    requires
        !willing(peers, infos, walk_target(infos, m).0),
    ensures
        set_adds(peers, infos, is_v4, m, rules) == Seq::<Addition>::empty(),
    decreases rules.len(),
{
    if rules.len() > 0 {
        lemma_no_adds(peers, infos, is_v4, m, rules.drop_last());
        assert(set_adds(peers, infos, is_v4, m, rules) =~= Seq::<Addition>::empty());
    }
}

/// Of an ingress whose routes a dump does not have, no rule is announced.
proof fn lemma_unwilling(
    peers: Peers,
    infos: Map<IngressId, IngressInfo>,
    is_v4: bool,
    m: IngressId,
    rules: Seq<RuleView>,
)
    requires
        !willing(peers, infos, walk_target(infos, m).0),
    ensures
        set_routes(peers, infos, is_v4, m, rules) == Multiset::<AggRoute>::empty(),
    decreases rules.len(),
{
    if rules.len() > 0 {
        lemma_unwilling(peers, infos, is_v4, m, rules.drop_last());
    }
}

impl TableDump {
    /// Adds the prefixes of the next chunk.
    fn walk_prefixes(&mut self, rib: &Rib, options: EmitOptions, now: Timestamp) -> (out: Vec<DumpMessage>)
        requires
            old(self).wf(),
            rib.wf(),
        ensures
            final(self).came_from(*old(self), rib.ingress_register@, options, now, out@),
            old(self).chunk_told(*final(self), rib, out@),
            final(self).stage == old(self).stage,
            final(self).next == old(self).next,
            final(self).cursor.keys@ == old(self).cursor.keys@,
            final(self).cursor.next == old(self).cursor.chunk_end(),
    {
        let ghost start = *self;
        let ghost infos = rib.ingress_register@;
        let ghost first = self.aggregator.pending();
        let chunk = self.cursor.next_chunk(&rib.unicast);
        let mut out: Vec<DumpMessage> = Vec::new();
        proof {
            lemma_walked_nothing(start.met(), infos, options, now);
            assert(out@ =~= Seq::empty());
            assert(start.discovered@ + ups(out@) =~= start.discovered@);
            assert(first.add(carried(out@)) =~= first.add(prefix_routes(start.met(), infos, chunk@.take(0))));
            lemma_ran_nothing(start.aggregator);
        }
        let mut i: usize = 0;
        while i < chunk.len()
            invariant
                i <= chunk@.len(),
                rib.wf(),
                infos == rib.ingress_register@,
                forall|k: int| 0 <= k < chunk@.len() ==> (#[trigger] chunk@[k]).prefix.wf(),
                self.came_from(start, infos, options, now, out@),
                self.aggregator.pending().add(carried(out@)) == first.add(
                    prefix_routes(start.met(), infos, chunk@.take(i as int)),
                ),
                ran(start.aggregator, self.aggregator, prefix_adds(start.met(), infos, chunk@.take(i as int)), out@),
                self.stage == start.stage,
                self.next == start.next,
                self.cursor.keys@ == start.cursor.keys@,
                self.cursor.next == start.cursor.chunk_end(),
            decreases chunk@.len() - i,
        {
            let pr = &chunk[i];
            let ghost done = first.add(prefix_routes(start.met(), infos, chunk@.take(i as int)));
            let mut j: usize = 0;
            assert(done.add(record_routes(start.met(), infos, pr.prefix@, pr.meta@.take(0))) =~= done);
            let ghost so_far = prefix_adds(start.met(), infos, chunk@.take(i as int));
            assert(so_far + record_adds(start.met(), infos, pr.prefix@, pr.meta@.take(0)) =~= so_far);
            while j < pr.meta.len()
                invariant
                    j <= pr.meta@.len(),
                    rib.wf(),
                    infos == rib.ingress_register@,
                    pr.prefix.wf(),
                    self.came_from(start, infos, options, now, out@),
                    self.aggregator.pending().add(carried(out@)) == done.add(
                        record_routes(start.met(), infos, pr.prefix@, pr.meta@.take(j as int)),
                    ),
                    ran(
                        start.aggregator,
                        self.aggregator,
                        so_far + record_adds(start.met(), infos, pr.prefix@, pr.meta@.take(j as int)),
                        out@,
                    ),
                    self.stage == start.stage,
                    self.next == start.next,
                    self.cursor.keys@ == start.cursor.keys@,
                    self.cursor.next == start.cursor.chunk_end(),
                decreases pr.meta@.len() - j,
            {
                let rec = &pr.meta[j];
                let ghost some = record_routes(start.met(), infos, pr.prefix@, pr.meta@.take(j as int));
                let ghost here = record_adds(start.met(), infos, pr.prefix@, pr.meta@.take(j as int));
                self.add_prefix(
                    &rib.ingress_register,
                    options,
                    pr.prefix,
                    rec,
                    now,
                    &mut out,
                    Ghost(start),
                    Ghost(so_far + here),
                );
                proof {
                    let more = prefix_route(start.met(), infos, pr.prefix@, rec.multi_uniq_id, rec.meta@);
                    assert(pr.meta@.take(j + 1).drop_last() =~= pr.meta@.take(j as int));
                    assert(done.add(some).add(more) =~= done.add(some.add(more)));
                    let next = prefix_add(start.met(), infos, pr.prefix@, rec.multi_uniq_id, rec.meta@);
                    assert(so_far + here + next =~= so_far + (here + next));
                }
                j = j + 1;
            }
            proof {
                assert(pr.meta@.take(j as int) =~= pr.meta@);
                let some = prefix_routes(start.met(), infos, chunk@.take(i as int));
                let more = record_routes(start.met(), infos, pr.prefix@, pr.meta@);
                assert(chunk@.take(i + 1).drop_last() =~= chunk@.take(i as int));
                assert(first.add(some).add(more) =~= first.add(some.add(more)));
            }
            i = i + 1;
        }
        assert(chunk@.take(i as int) =~= chunk@);
        out
    }

    /// Whether the messages of a chunk, and the routes that wait after it,
    /// are those of the prefixes of the chunk and those that waited before,
    /// packed one after the other.
    pub open spec fn chunk_told(self, after: TableDump, rib: &Rib, out: Seq<DumpMessage>) -> bool {
        exists|chunk: Seq<PrefixRecord<RotondaPaMap>>|
            {
                &&& #[trigger] dumped::<RotondaPaMap>(
                    rib.unicast@,
                    self.cursor.keys@.subrange(self.cursor.next as int, self.cursor.chunk_end()),
                    chunk,
                )
                &&& after.aggregator.pending().add(carried(out)) == self.aggregator.pending().add(
                    prefix_routes(self.met(), rib.ingress_register@, chunk),
                )
                &&& ran(
                    self.aggregator,
                    after.aggregator,
                    prefix_adds(self.met(), rib.ingress_register@, chunk),
                    out,
                )
            }
    }

    /// Whether the messages of a chunk of rules, and the routes that wait
    /// after it, are those of the rules of the chunk and those that waited
    /// before.
    pub open spec fn rules_told(self, after: TableDump, rib: &Rib, out: Seq<DumpMessage>) -> bool {
        exists|chunk: Seq<PrefixRecord<FlowSpecRuleSet>>|
            {
                &&& #[trigger] dumped::<FlowSpecRuleSet>(
                    rib.flowspec@,
                    self.cursor.keys@.subrange(self.cursor.next as int, self.cursor.chunk_end()),
                    chunk,
                )
                &&& after.aggregator.pending().add(carried(out)) == self.aggregator.pending().add(
                    rule_routes(self.met(), rib.ingress_register@, chunk),
                )
                &&& ran(
                    self.aggregator,
                    after.aggregator,
                    rule_adds(self.met(), rib.ingress_register@, chunk),
                    out,
                )
            }
    }

    /// Adds the rules of the next chunk.
    fn walk_rules(&mut self, rib: &Rib, options: EmitOptions, now: Timestamp) -> (out: Vec<DumpMessage>)
        requires
            old(self).wf(),
            rib.wf(),
        ensures
            final(self).came_from(*old(self), rib.ingress_register@, options, now, out@),
            old(self).rules_told(*final(self), rib, out@),
            final(self).stage == old(self).stage,
            final(self).next == old(self).next,
            final(self).cursor.keys@ == old(self).cursor.keys@,
            final(self).cursor.next == old(self).cursor.chunk_end(),
    {
        let ghost start = *self;
        let ghost infos = rib.ingress_register@;
        let ghost first = self.aggregator.pending();
        let chunk = self.cursor.next_chunk(&rib.flowspec);
        let mut out: Vec<DumpMessage> = Vec::new();
        proof {
            lemma_walked_nothing(start.met(), infos, options, now);
            assert(out@ =~= Seq::empty());
            assert(start.discovered@ + ups(out@) =~= start.discovered@);
            assert(first.add(carried(out@)) =~= first.add(rule_routes(start.met(), infos, chunk@.take(0))));
            lemma_ran_nothing(start.aggregator);
        }
        let mut i: usize = 0;
        while i < chunk.len()
            invariant
                i <= chunk@.len(),
                rib.wf(),
                infos == rib.ingress_register@,
                forall|k: int| 0 <= k < chunk@.len() ==> (#[trigger] chunk@[k]).prefix.wf(),
                self.came_from(start, infos, options, now, out@),
                self.aggregator.pending().add(carried(out@)) == first.add(
                    rule_routes(start.met(), infos, chunk@.take(i as int)),
                ),
                ran(start.aggregator, self.aggregator, rule_adds(start.met(), infos, chunk@.take(i as int)), out@),
                self.stage == start.stage,
                self.next == start.next,
                self.cursor.keys@ == start.cursor.keys@,
                self.cursor.next == start.cursor.chunk_end(),
            decreases chunk@.len() - i,
        {
            let pr = &chunk[i];
            let is_v4 = pr.prefix.is_v4();
            let ghost done = first.add(rule_routes(start.met(), infos, chunk@.take(i as int)));
            let mut j: usize = 0;
            assert(done.add(record_rules(start.met(), infos, is_v4, pr.meta@.take(0))) =~= done);
            let ghost so_far = rule_adds(start.met(), infos, chunk@.take(i as int));
            assert(so_far + record_rule_adds(start.met(), infos, is_v4, pr.meta@.take(0)) =~= so_far);
            while j < pr.meta.len()
                invariant
                    j <= pr.meta@.len(),
                    rib.wf(),
                    infos == rib.ingress_register@,
                    is_v4 == pr.prefix@.0,
                    self.came_from(start, infos, options, now, out@),
                    self.aggregator.pending().add(carried(out@)) == done.add(
                        record_rules(start.met(), infos, is_v4, pr.meta@.take(j as int)),
                    ),
                    ran(
                        start.aggregator,
                        self.aggregator,
                        so_far + record_rule_adds(start.met(), infos, is_v4, pr.meta@.take(j as int)),
                        out@,
                    ),
                    self.stage == start.stage,
                    self.next == start.next,
                    self.cursor.keys@ == start.cursor.keys@,
                    self.cursor.next == start.cursor.chunk_end(),
                decreases pr.meta@.len() - j,
            {
                let rec = &pr.meta[j];
                let ghost some = record_rules(start.met(), infos, is_v4, pr.meta@.take(j as int));
                let ghost here = record_rule_adds(start.met(), infos, is_v4, pr.meta@.take(j as int));
                self.add_rules(
                    &rib.ingress_register,
                    options,
                    is_v4,
                    rec,
                    now,
                    &mut out,
                    Ghost(start),
                    Ghost(so_far + here),
                );
                proof {
                    let more = set_routes(start.met(), infos, is_v4, rec.multi_uniq_id, rec.meta@);
                    assert(pr.meta@.take(j + 1).drop_last() =~= pr.meta@.take(j as int));
                    assert(done.add(some).add(more) =~= done.add(some.add(more)));
                    let next = set_adds(start.met(), infos, is_v4, rec.multi_uniq_id, rec.meta@);
                    assert(so_far + here + next =~= so_far + (here + next));
                }
                j = j + 1;
            }
            proof {
                assert(pr.meta@.take(j as int) =~= pr.meta@);
                let some = rule_routes(start.met(), infos, chunk@.take(i as int));
                let more = record_rules(start.met(), infos, is_v4, pr.meta@);
                assert(chunk@.take(i + 1).drop_last() =~= chunk@.take(i as int));
                assert(first.add(some).add(more) =~= first.add(some.add(more)));
            }
            i = i + 1;
        }
        assert(chunk@.take(i as int) =~= chunk@);
        out
    }
}

/// The End-of-RIB markers of a peer for some families.
pub open spec fn markers_for(
    id: IngressId,
    peer: PeerInfo,
    families: Seq<AfiSafiType>,
    now: Timestamp,
) -> Seq<(IngressId, Seq<u8>)>
    decreases families.len(),
{
    if families.len() == 0 {
        Seq::empty()
    } else {
        let rest = markers_for(id, peer, families.drop_last(), now);
        match monitored(peer, now, end_of_rib_update(families.last())) {
            Some(b) => rest.push((id, b)),
            None => rest,
        }
    }
}

/// The End-of-RIB markers of a peer: one for each family that it supports.
pub open spec fn peer_markers(id: IngressId, peer: PeerInfo, now: Timestamp) -> Seq<(IngressId, Seq<u8>)> {
    markers_for(id, peer, supported_list(peer.peer_capabilities@), now)
}

/// The End-of-RIB markers of some peers, one peer after the other.
pub open spec fn all_markers(met: Peers, ids: Seq<IngressId>, now: Timestamp) -> Seq<(IngressId, Seq<u8>)>
    decreases ids.len(),
{
    if ids.len() == 0 {
        Seq::empty()
    } else {
        all_markers(met, ids.drop_last(), now) + peer_markers(ids.last(), met[ids.last()], now)
    }
}

/// Whether messages are End-of-RIB markers and nothing else.
pub open spec fn are_markers(msgs: Seq<DumpMessage>, markers: Seq<(IngressId, Seq<u8>)>) -> bool {
    &&& msgs.len() == markers.len()
    &&& forall|i: int|
        0 <= i < msgs.len() ==> ((#[trigger] msgs[i]) matches DumpMessage::EndOfRib(id, b) && (id, b@) == markers[i])
}

/// The End-of-RIB markers of a peer.
fn end_of_rib(id: IngressId, peer: &PeerInfo, now: Timestamp) -> (out: Vec<DumpMessage>)
    ensures
        are_markers(out@, peer_markers(id, *peer, now)),
{
    let families = peer.supported_afisafis();
    let mut out: Vec<DumpMessage> = Vec::new();
    let mut i: usize = 0;
    while i < families.len()
        invariant
            i <= families@.len(),
            are_markers(out@, markers_for(id, *peer, families@.take(i as int), now)),
        decreases families@.len() - i,
    {
        assert(families@.take(i + 1).drop_last() =~= families@.take(i as int));
        match build_end_of_rib_marker_at(peer, families[i], now) {
            Some(b) => {
                out.push(DumpMessage::EndOfRib(id, b));
            },
            None => {},
        }
        i = i + 1;
    }
    assert(families@.take(i as int) =~= families@);
    out
}

/// What a dump tells of an EVPN route. It goes out by itself, after the Peer
/// Up of its peer if that was not met yet; a route that is not active, or
/// whose peer is not registered, does not.
pub open spec fn evpn_told(
    before: Peers,
    after: Peers,
    infos: Map<IngressId, IngressInfo>,
    options: EmitOptions,
    now: Timestamp,
    rec: EvpnRecord,
    out: Seq<DumpMessage>,
) -> bool {
    let (id, path_id) = walk_target(infos, rec.ingress_id);
    if !rec.active || !infos.contains_key(id) {
        out.len() == 0 && after == before
    } else {
        exists|peer: PeerInfo|
            {
                &&& #[trigger] shown_peer(infos, id, options, peer)
                &&& after == (if before.contains_key(id) {
                    before
                } else {
                    before.insert(id, peer)
                })
                &&& evpn_shape(
                    out,
                    id,
                    if before.contains_key(id) {
                        None
                    } else {
                        Some(peer_up_bytes(peer, false, now))
                    },
                    monitored(peer, now, evpn_update(rec.nlri.raw@, rec.attributes@, false, path_id)),
                )
            }
    }
}

/// Whether messages are a Peer Up, if there is one, and then an EVPN route, if
/// there is one.
pub open spec fn evpn_shape(
    out: Seq<DumpMessage>,
    id: IngressId,
    up: Option<Seq<u8>>,
    route: Option<Seq<u8>>,
) -> bool {
    let n: int = if up is Some {
        1
    } else {
        0
    };
    let m: int = if route is Some {
        1
    } else {
        0
    };
    &&& out.len() == n + m
    &&& up matches Some(b) ==> out[0].is_up(id) && out[0].octets() == b
    &&& route matches Some(b) ==> (out[n] matches DumpMessage::Evpn(i, o) && i == id && o@ == b)
}

/// The messages for an EVPN route.
fn evpn_messages(
    rec: &EvpnRecord,
    id: IngressId,
    path_id: Option<u32>,
    peer: &PeerInfo,
    known: bool,
    now: Timestamp,
    out: &mut Vec<DumpMessage>,
)
    requires
        old(out)@.len() == 0,
    ensures
        evpn_shape(
            final(out)@,
            id,
            if known {
                None
            } else {
                Some(peer_up_bytes(*peer, false, now))
            },
            monitored(*peer, now, evpn_update(rec.nlri.raw@, rec.attributes@, false, path_id)),
        ),
        ups(final(out)@) == (if known {
            Seq::empty()
        } else {
            seq![id]
        }),
        carried(final(out)@) == Multiset::<AggRoute>::empty(),
        routes_sent(final(out)@) == Seq::<Sent>::empty(),
{
    assert(out@ =~= Seq::empty());
    if !known {
        let up = build_peer_up_at(peer, false, now);
        proof {
            lemma_carried_push(out@, DumpMessage::PeerUp(id, up));
            assert(carried(out@).add(Multiset::empty()) =~= Multiset::empty());
            assert(ups(out@).push(id) =~= seq![id]);
        }
        out.push(DumpMessage::PeerUp(id, up));
    }
    match build_evpn_route_monitoring_at(peer, &rec.nlri.raw, &rec.attributes, false, path_id, now) {
        Some(b) => {
            proof {
                lemma_carried_push(out@, DumpMessage::Evpn(id, b));
                assert(carried(out@).add(Multiset::empty()) =~= Multiset::empty());
            }
            out.push(DumpMessage::Evpn(id, b));
        },
        None => {},
    }
}

/// The map of some peers to what messages tell of them.
fn describe_peers(ids: &Vec<IngressId>, ingress_register: &Register, options: EmitOptions) -> (r: HashMap<
    IngressId,
    PeerInfo,
>)
    requires
        ingress_register.wf(),
        forall|i: int| 0 <= i < ids@.len() ==> ingress_register@.contains_key(#[trigger] ids@[i]),
    ensures
        forall|id: IngressId| #[trigger] r@.contains_key(id) <==> ids@.contains(id),
        forall|id: IngressId| #[trigger] r@.contains_key(id) ==> shown_peer(ingress_register@, id, options, r@[id]),
{
    broadcast use group_hash_axioms;

    let mut map: HashMap<IngressId, PeerInfo> = HashMap::new();
    let mut i: usize = 0;
    while i < ids.len()
        invariant
            i <= ids@.len(),
            ingress_register.wf(),
            forall|k: int| 0 <= k < ids@.len() ==> ingress_register@.contains_key(#[trigger] ids@[k]),
            forall|id: IngressId| #[trigger] map@.contains_key(id) <==> ids@.take(i as int).contains(id),
            forall|id: IngressId| #[trigger]
                map@.contains_key(id) ==> shown_peer(ingress_register@, id, options, map@[id]),
        decreases ids@.len() - i,
    {
        let id: IngressId = ids[i];
        match ingress_register.get(id) {
            Some(info) => {
                let peer = build_peer_info_for_emit(
                    info,
                    ingress_register,
                    options.forward_router_info,
                    options.fan_in_peer_distinguisher,
                );
                map.insert(id, peer);
            },
            None => {},
        }
        proof {
            let some = ids@.take(i as int);
            let next = ids@.take(i + 1);
            assert(next =~= some.push(id));
            assert forall|x: IngressId| next.contains(x) <==> some.contains(x) || x == id by {
                if some.contains(x) {
                    let k = choose|k: int| 0 <= k < some.len() && some[k] == x;
                    assert(next[k] == x);
                }
                assert(next[i as int] == id);
            }
        }
        i = i + 1;
    }
    assert(ids@.take(i as int) =~= ids@);
    map
}

impl TableDump {
    /// Begins a dump, with the initiation message.
    pub fn start(rib: &Rib, sys_name: &str, sys_descr: &str, options: EmitOptions) -> (r: (Self, DumpMessage))
        requires
            rib.wf(),
        ensures
            r.0.wf(),
            r.0.stage is PeerUps,
            r.0.next == 0,
            enumerated(rib.ingress_register@, r.0.peers@),
            r.0.discovered@.len() == 0,
            r.0.aggregator.pending() == Multiset::<AggRoute>::empty(),
            r.0.aggregator.packing() == nothing_open(),
            r.0.aggregator.max_bytes == DUMP_AGGREGATOR_MAX_BYTES,
            forall|id: IngressId| #[trigger]
                r.0.met().contains_key(id) ==> shown_peer(rib.ingress_register@, id, options, r.0.met()[id]),
            r.1 is Initiation,
            r.1.octets() == initiation_bytes(sys_name@, sys_descr@),
    {
        let peers = enumerate_peers(&rib.ingress_register);
        proof {
            assert forall|i: int| 0 <= i < peers@.len() implies rib.ingress_register@.contains_key(
                #[trigger] peers@[i],
            ) by {
                assert(is_enumerated(rib.ingress_register@, peers@[i]));
            }
        }
        let map = describe_peers(&peers, &rib.ingress_register, options);
        reveal(in_shape);
        let dump = TableDump {
            peers,
            discovered: Vec::new(),
            aggregator: RouteAggregator::new(DUMP_AGGREGATOR_MAX_BYTES, map),
            stage: DumpStage::PeerUps,
            next: 0,
            cursor: DumpCursor { keys: Vec::new(), next: 0 },
            evpn: Vec::new(),
        };
        assert(dump.aggregator.packing().open =~= Map::empty());
        assert(dump.peers@ + dump.discovered@ =~= dump.peers@);
        assert(dump.met().dom() =~= dump.peers@.to_set()) by {
            assert forall|id: IngressId| dump.met().dom().contains(id) == dump.peers@.to_set().contains(id) by {
                assert(dump.met().contains_key(id) == dump.peers@.contains(id));
            }
        }
        (dump, DumpMessage::Initiation(build_initiation_message(sys_name, sys_descr)))
    }

    /// The Peer Up of the next peer that the dump began with.
    fn tell_peer_up(&mut self, client: &mut ClientState, now: Timestamp) -> (out: DumpMessage)
        requires
            old(self).wf(),
            old(self).next < old(self).peers@.len(),
        ensures
            final(self).wf(),
            final(self).aggregator == old(self).aggregator,
            final(self).peers == old(self).peers,
            final(self).discovered == old(self).discovered,
            final(self).stage == old(self).stage,
            final(self).next == old(self).next + 1,
            final(self).cursor == old(self).cursor,
            final(self).evpn == old(self).evpn,
            out.is_up(old(self).peers@[old(self).next as int]),
            out.octets() == peer_up_bytes(old(self).met()[old(self).peers@[old(self).next as int]], true, now),
            final(client)@ == old(client)@.knowing(old(self).peers@[old(self).next as int]),
            final(client).peer_infos == old(client).peer_infos,
    {
        let count: usize = self.peers.len();
        assert(self.next < count);
        let id: IngressId = self.peers[self.next];
        proof {
            self.lemma_met(self.next as int);
        }
        let bytes = match self.aggregator.peer(id) {
            Some(peer) => build_peer_up_at(peer, true, now),
            None => {
                assert(false);
                Vec::new()
            },
        };
        client.register_known_peer_if_absent(id);
        let out = DumpMessage::PeerUp(id, bytes);
        assert(out.octets() == peer_up_bytes(self.met()[id], true, now));
        self.next = self.next + 1;
        out
    }

    /// Tells of the next EVPN route.
    fn tell_evpn(&mut self, ingress_register: &Register, options: EmitOptions, now: Timestamp) -> (out: Vec<DumpMessage>)
        requires
            old(self).wf(),
            ingress_register.wf(),
            old(self).next < old(self).evpn@.len(),
        ensures
            final(self).wf(),
            evpn_told(
                old(self).met(),
                final(self).met(),
                ingress_register@,
                options,
                now,
                old(self).evpn@[old(self).next as int],
                out@,
            ),
            final(self).discovered@ == old(self).discovered@ + ups(out@),
            carried(out@) == Multiset::<AggRoute>::empty(),
            routes_sent(out@) == Seq::<Sent>::empty(),
            final(self).aggregator.pending() == old(self).aggregator.pending(),
            final(self).aggregator.packing() == old(self).aggregator.packing(),
            final(self).aggregator.max_bytes == old(self).aggregator.max_bytes,
            final(self).peers == old(self).peers,
            final(self).stage == old(self).stage,
            final(self).next == old(self).next + 1,
            final(self).evpn == old(self).evpn,
            final(self).cursor == old(self).cursor,
    {
        let at: usize = self.next;
        let count: usize = self.evpn.len();
        assert(at < count);
        self.next = at + 1;
        let (id, path_id) = find_walk_target(ingress_register, self.evpn[at].ingress_id);
        let mut out: Vec<DumpMessage> = Vec::new();
        proof {
            assert(out@ =~= Seq::empty());
            assert(self.discovered@ + ups(out@) =~= self.discovered@);
        }
        if !self.evpn[at].active {
            return out;
        }
        match ingress_register.get(id) {
            Some(info) => {
                let peer = build_peer_info_for_emit(
                    info,
                    ingress_register,
                    options.forward_router_info,
                    options.fan_in_peer_distinguisher,
                );
                assert(shown_peer(ingress_register@, id, options, peer));
                let known = self.aggregator.has_peer(id);
                evpn_messages(&self.evpn[at], id, path_id, &peer, known, now, &mut out);
                if !known {
                    let ghost was = *self;
                    self.discover(id, peer);
                    assert(self.discovered@ =~= was.discovered@ + ups(out@));
                }
                assert(shown_peer(ingress_register@, id, options, peer));
            },
            None => {},
        }
        out
    }

    /// Sends all routes that wait.
    fn flush(&mut self, now: Timestamp) -> (out: Vec<DumpMessage>)
        requires
            old(self).wf(),
        ensures
            final(self).wf(),
            final(self).aggregator.pending() == Multiset::<AggRoute>::empty(),
            carried(out@) == old(self).aggregator.pending(),
            carry_groups(old(self).aggregator.packing().open, routes_sent(out@)),
            sent_ids(routes_sent(out@)) == old(self).aggregator.packing().open.dom(),
            rules_last(out@),
            ups(out@) == Seq::<IngressId>::empty(),
            forall|i: int| 0 <= i < out@.len() ==> (#[trigger] out@[i]) is Routes && sound(old(self).met(), out@[i], now),
            final(self).met() == old(self).met(),
            final(self).peers == old(self).peers,
            final(self).discovered == old(self).discovered,
            final(self).stage == old(self).stage,
            final(self).next == old(self).next,
            final(self).evpn == old(self).evpn,
            final(self).cursor == old(self).cursor,
    {
        reveal(in_shape);
        let msgs = self.aggregator.flush_all(now);
        let ghost all = msgs@;
        let mut rest = reversed(msgs);
        let mut out: Vec<DumpMessage> = Vec::new();
        let ghost mut n: int = 0;
        assert(all_sent(all.take(0)) =~= Seq::empty());
        while rest.len() > 0
            invariant
                0 <= n <= all.len(),
                rest@ == all.skip(n).reverse(),
                self.aggregator.all_announce(all, now),
                carried(out@) == carried_routes(all.take(n)),
                routes_sent(out@) == all_sent(all.take(n)),
                out@.len() == n,
                forall|i: int| 0 <= i < n ==> #[trigger] out@[i] == DumpMessage::Routes(all[i]),
                ups(out@) == Seq::<IngressId>::empty(),
                forall|i: int|
                    0 <= i < out@.len() ==> (#[trigger] out@[i]) is Routes && sound(self.met(), out@[i], now),
            decreases rest@.len(),
        {
            match rest.pop() {
                Some(m) => {
                    proof {
                        assert(m == all[n]);
                        lemma_carried_push(out@, DumpMessage::Routes(m));
                        assert(all.take(n + 1).drop_last() =~= all.take(n));
                        assert(all.take(n + 1) =~= all.take(n).push(m));
                        lemma_sent_push(all.take(n), m);
                        n = n + 1;
                    }
                    out.push(DumpMessage::Routes(m));
                    assert(rest@ =~= all.skip(n).reverse());
                },
                None => {},
            }
        }
        assert(all.take(n) =~= all);
        assert(rules_last(out@));
        out
    }

    /// The End-of-RIB markers of a peer of the dump.
    fn tell_end_of_rib(&self, id: IngressId, now: Timestamp) -> (out: Vec<DumpMessage>)
        requires
            self.met().contains_key(id),
        ensures
            are_markers(out@, peer_markers(id, self.met()[id], now)),
    {
        match self.aggregator.peer(id) {
            Some(peer) => end_of_rib(id, peer, now),
            None => {
                assert(false);
                Vec::new()
            },
        }
    }
}

/// The initiation message.
pub open spec fn initiation_bytes(sys_name: Seq<char>, sys_descr: Seq<char>) -> Seq<u8> {
    bmp_message_bytes(
        BMP_MSG_INITIATION,
        tlv_bytes(1, encode_utf8(sys_descr)) + tlv_bytes(2, encode_utf8(sys_name)),
    )
}

/// Whether a walk is at the beginning of all prefixes of a store.
pub open spec fn at_the_start<T>(cursor: DumpCursor, s: StoreView<T>) -> bool {
    &&& cursor.wf()
    &&& cursor.next == 0
    &&& forall|p: PrefixKey| #[trigger] has_key(cursor.keys@, p) == s.has_prefix(p)
}

impl TableDump {
    /// Whether two dumps differ in their stage, their place in it, and what
    /// the stage walks over, at most.
    pub open spec fn same_but_for_place(self, o: TableDump) -> bool {
        &&& self.peers == o.peers
        &&& self.discovered == o.discovered
        &&& self.aggregator == o.aggregator
    }

    /// What one step of a dump does. Each stage goes on until it has nothing
    /// left to tell; then the next one begins.
    pub open spec fn stepped(
        self,
        after: TableDump,
        client: ClientView,
        client_after: ClientView,
        rib: &Rib,
        options: EmitOptions,
        now: Timestamp,
        out: Seq<DumpMessage>,
    ) -> bool {
        match self.stage {
            DumpStage::PeerUps => if self.next < self.peers@.len() {
                let id = self.peers@[self.next as int];
                &&& after.same_but_for_place(self)
                &&& after.stage == self.stage
                &&& after.next == self.next + 1
                &&& client_after == client.knowing(id)
                &&& out.len() == 1
                &&& out[0].is_up(id)
                &&& out[0].octets() == peer_up_bytes(self.met()[id], true, now)
            } else {
                &&& after.same_but_for_place(self)
                &&& after.stage is Unicast
                &&& at_the_start(after.cursor, rib.unicast@)
                &&& client_after == client
                &&& out.len() == 0
            },
            DumpStage::Unicast => if self.cursor.next < self.cursor.keys@.len() {
                &&& after.came_from(self, rib.ingress_register@, options, now, out)
                &&& self.chunk_told(after, rib, out)
                &&& after.stage == self.stage
                &&& after.cursor.keys@ == self.cursor.keys@
                &&& after.cursor.next == self.cursor.chunk_end()
                &&& client_after == client
            } else {
                &&& after.same_but_for_place(self)
                &&& after.stage is FlowSpec
                &&& at_the_start(after.cursor, rib.flowspec@)
                &&& client_after == client
                &&& out.len() == 0
            },
            DumpStage::FlowSpec => if self.cursor.next < self.cursor.keys@.len() {
                &&& after.came_from(self, rib.ingress_register@, options, now, out)
                &&& self.rules_told(after, rib, out)
                &&& after.stage == self.stage
                &&& after.cursor.keys@ == self.cursor.keys@
                &&& after.cursor.next == self.cursor.chunk_end()
                &&& client_after == client
            } else {
                &&& after.same_but_for_place(self)
                &&& after.stage is Evpn
                &&& after.next == 0
                &&& evpn_listed(rib.evpn@, after.evpn@)
                &&& client_after == client
                &&& out.len() == 0
            },
            DumpStage::Evpn => if self.next < self.evpn@.len() {
                &&& evpn_told(
                    self.met(),
                    after.met(),
                    rib.ingress_register@,
                    options,
                    now,
                    self.evpn@[self.next as int],
                    out,
                )
                &&& after.discovered@ == self.discovered@ + ups(out)
                &&& after.aggregator.pending() == self.aggregator.pending()
                &&& after.aggregator.packing() == self.aggregator.packing()
                &&& after.aggregator.max_bytes == self.aggregator.max_bytes
                &&& routes_sent(out) == Seq::<Sent>::empty()
                &&& after.peers == self.peers
                &&& after.stage == self.stage
                &&& after.next == self.next + 1
                &&& after.evpn == self.evpn
                &&& client_after == client
            } else {
                &&& after.same_but_for_place(self)
                &&& after.stage is Flush
                &&& client_after == client
                &&& out.len() == 0
            },
            DumpStage::Flush => {
                &&& after.aggregator.pending() == Multiset::<AggRoute>::empty()
                &&& carried(out) == self.aggregator.pending()
                &&& carry_groups(self.aggregator.packing().open, routes_sent(out))
                &&& sent_ids(routes_sent(out)) == self.aggregator.packing().open.dom()
                &&& rules_last(out)
                &&& forall|i: int|
                    0 <= i < out.len() ==> (#[trigger] out[i]) is Routes && sound(self.met(), out[i], now)
                &&& after.met() == self.met()
                &&& after.peers == self.peers
                &&& after.discovered == self.discovered
                &&& after.stage is EndOfRib
                &&& after.next == 0
                &&& client_after == client
            },
            DumpStage::EndOfRib => {
                &&& after.same_but_for_place(self)
                &&& client_after == client
                &&& if self.next < self.peers@.len() {
                    let id = self.peers@[self.next as int];
                    &&& after.stage == self.stage
                    &&& after.next == self.next + 1
                    &&& are_markers(out, peer_markers(id, self.met()[id], now))
                } else {
                    &&& after.stage is Discovered
                    &&& after.next == 0
                    &&& out.len() == 0
                }
            },
            DumpStage::Discovered => {
                &&& after.same_but_for_place(self)
                &&& if self.next < self.discovered@.len() {
                    let id = self.discovered@[self.next as int];
                    &&& after.stage == self.stage
                    &&& after.next == self.next + 1
                    &&& client_after == client.knowing(id)
                    &&& are_markers(out, peer_markers(id, self.met()[id], now))
                } else {
                    &&& after.stage is Done
                    &&& client_after == client
                    &&& out.len() == 0
                }
            },
            DumpStage::Done => after == self && client_after == client && out.len() == 0,
        }
    }

    /// Makes the next messages of the dump, at a given time. They are to be
    /// sent in order; once one could not be sent, the dump is over.
    pub fn step_at(&mut self, client: &mut ClientState, rib: &Rib, options: EmitOptions, now: Timestamp) -> (out: Vec<
        DumpMessage,
    >)
        requires
            old(self).wf(),
            old(client).wf(),
            rib.wf(),
        ensures
            final(self).wf(),
            final(client).wf(),
            old(self).stepped(*final(self), old(client)@, final(client)@, rib, options, now, out@),
    {
        match self.stage {
            DumpStage::PeerUps => {
                let mut out: Vec<DumpMessage> = Vec::new();
                if self.next < self.peers.len() {
                    let m = self.tell_peer_up(client, now);
                    out.push(m);
                } else {
                    self.stage = DumpStage::Unicast;
                    self.cursor = DumpCursor::new(&rib.unicast, None);
                }
                out
            },
            DumpStage::Unicast => if self.cursor.done() {
                self.stage = DumpStage::FlowSpec;
                self.cursor = DumpCursor::new(&rib.flowspec, None);
                Vec::new()
            } else {
                self.walk_prefixes(rib, options, now)
            },
            DumpStage::FlowSpec => if self.cursor.done() {
                self.stage = DumpStage::Evpn;
                self.evpn = rib.evpn_records();
                self.next = 0;
                Vec::new()
            } else {
                self.walk_rules(rib, options, now)
            },
            DumpStage::Evpn => if self.next < self.evpn.len() {
                self.tell_evpn(&rib.ingress_register, options, now)
            } else {
                self.stage = DumpStage::Flush;
                Vec::new()
            },
            DumpStage::Flush => {
                let out = self.flush(now);
                self.stage = DumpStage::EndOfRib;
                self.next = 0;
                out
            },
            DumpStage::EndOfRib => if self.next < self.peers.len() {
                let id: IngressId = self.peers[self.next];
                proof {
                    self.lemma_met(self.next as int);
                }
                let out = self.tell_end_of_rib(id, now);
                self.next = self.next + 1;
                out
            } else {
                self.stage = DumpStage::Discovered;
                self.next = 0;
                Vec::new()
            },
            DumpStage::Discovered => if self.next < self.discovered.len() {
                let id: IngressId = self.discovered[self.next];
                proof {
                    self.lemma_met(self.next as int);
                }
                client.register_known_peer_if_absent(id);
                let out = self.tell_end_of_rib(id, now);
                self.next = self.next + 1;
                out
            } else {
                self.stage = DumpStage::Done;
                Vec::new()
            },
            DumpStage::Done => Vec::new(),
        }
    }

    /// Makes the next messages of the dump.
    pub fn step(&mut self, client: &mut ClientState, rib: &Rib, options: EmitOptions) -> (out: Vec<DumpMessage>)
        requires
            old(self).wf(),
            old(client).wf(),
            rib.wf(),
        ensures
            final(self).wf(),
            final(client).wf(),
            exists|now: Timestamp| #[trigger]
                old(self).stepped(*final(self), old(client)@, final(client)@, rib, options, now, out@),
    {
        let now = current_time();
        self.step_at(client, rib, options, now)
    }

    pub fn done(&self) -> (r: bool)
        ensures
            r == (self.stage is Done),
    {
        match self.stage {
            DumpStage::Done => true,
            _ => false,
        }
    }
}

/// The EVPN routes that messages announce, in order.
pub open spec fn evpns(msgs: Seq<DumpMessage>) -> Seq<(IngressId, Seq<u8>)>
    decreases msgs.len(),
{
    if msgs.len() == 0 {
        Seq::empty()
    } else {
        match msgs.last() {
            DumpMessage::Evpn(id, b) => evpns(msgs.drop_last()).push((id, b@)),
            _ => evpns(msgs.drop_last()),
        }
    }
}

/// Whether `told` are the messages for some EVPN routes, in order: one for
/// each that is active, whose peer is registered, and that BGP can frame.
pub open spec fn evpn_all_told(
    infos: Map<IngressId, IngressInfo>,
    options: EmitOptions,
    now: Timestamp,
    recs: Seq<EvpnRecord>,
    told: Seq<(IngressId, Seq<u8>)>,
) -> bool
    decreases recs.len(),
{
    if recs.len() == 0 {
        told.len() == 0
    } else {
        let rec = recs.last();
        let (id, path_id) = walk_target(infos, rec.ingress_id);
        if rec.active && infos.contains_key(id) && evpn_update(rec.nlri.raw@, rec.attributes@, false, path_id) is Some {
            &&& told.len() > 0
            &&& told.last().0 == id
            &&& exists|peer: PeerInfo| #[trigger]
                shown_peer(infos, id, options, peer) && Some(told.last().1) == monitored(
                    peer,
                    now,
                    evpn_update(rec.nlri.raw@, rec.attributes@, false, path_id),
                )
            &&& evpn_all_told(infos, options, now, recs.drop_last(), told.drop_last())
        } else {
            evpn_all_told(infos, options, now, recs.drop_last(), told)
        }
    }
}

/// Whether nothing is told of a peer before its Peer Up.
pub open spec fn ordered(msgs: Seq<DumpMessage>) -> bool {
    forall|i: int|
        0 <= i < msgs.len() && !((#[trigger] msgs[i]) is PeerUp) ==> match msgs[i].peer() {
            Some(id) => ups(msgs.take(i)).contains(id),
            None => true,
        }
}

pub proof fn lemma_concat(a: Seq<DumpMessage>, b: Seq<DumpMessage>)
    ensures
        ups(a + b) == ups(a) + ups(b),
        carried(a + b) == carried(a).add(carried(b)),
        evpns(a + b) == evpns(a) + evpns(b),
        routes_sent(a + b) == routes_sent(a) + routes_sent(b),
    decreases b.len(),
{
    if b.len() == 0 {
        assert(a + b =~= a);
        assert(routes_sent(a) + routes_sent(b) =~= routes_sent(a));
        assert(ups(a) + ups(b) =~= ups(a));
        assert(evpns(a) + evpns(b) =~= evpns(a));
        assert(carried(a).add(carried(b)) =~= carried(a));
    } else {
        lemma_concat(a, b.drop_last());
        assert((a + b).drop_last() =~= a + b.drop_last());
        assert(carried(a).add(carried(b.drop_last())).add(b.last().routes()) =~= carried(a).add(carried(b)));
        assert(ups(a + b) =~= ups(a) + ups(b));
        assert(evpns(a + b) =~= evpns(a) + evpns(b));
        assert(routes_sent(a + b) =~= routes_sent(a) + routes_sent(b));
    }
}

/// Messages after others: a peer that had its Peer Up in the first ones needs
/// none in the second.
pub proof fn lemma_ordered_concat(a: Seq<DumpMessage>, b: Seq<DumpMessage>)
    requires
        ordered(a),
        forall|i: int|
            0 <= i < b.len() && !((#[trigger] b[i]) is PeerUp) ==> match b[i].peer() {
                Some(id) => ups(a).contains(id) || ups(b.take(i)).contains(id),
                None => true,
            },
    ensures
        ordered(a + b),
{
    let t = a + b;
    assert forall|i: int| 0 <= i < t.len() && !((#[trigger] t[i]) is PeerUp) implies match t[i].peer() {
        Some(id) => ups(t.take(i)).contains(id),
        None => true,
    } by {
        if i < a.len() {
            assert(t[i] == a[i]);
            assert(t.take(i) =~= a.take(i));
        } else {
            let k = i - a.len();
            assert(t[i] == b[k]);
            assert(t.take(i) =~= a + b.take(k));
            lemma_concat(a, b.take(k));
            match b[k].peer() {
                Some(id) => {
                    if ups(a).contains(id) {
                        let x = choose|x: int| 0 <= x < ups(a).len() && ups(a)[x] == id;
                        assert((ups(a) + ups(b.take(k)))[x] == id);
                    } else {
                        let x = choose|x: int| 0 <= x < ups(b.take(k)).len() && ups(b.take(k))[x] == id;
                        assert((ups(a) + ups(b.take(k)))[ups(a).len() + x] == id);
                    }
                },
                None => {},
            }
        }
    }
}

/// Whether messages tell of peers and their prefixes and rules only.
pub open spec fn plain(msgs: Seq<DumpMessage>) -> bool {
    forall|i: int| 0 <= i < msgs.len() ==> (#[trigger] msgs[i]) is PeerUp || msgs[i] is Routes
}

pub proof fn lemma_plain(msgs: Seq<DumpMessage>)
    requires
        plain(msgs),
    ensures
        evpns(msgs) == Seq::<(IngressId, Seq<u8>)>::empty(),
    decreases msgs.len(),
{
    if msgs.len() > 0 {
        assert(msgs[msgs.len() - 1] is PeerUp || msgs.last() is Routes);
        assert(plain(msgs.drop_last())) by {
            assert forall|i: int| 0 <= i < msgs.drop_last().len() implies (#[trigger] msgs.drop_last()[i]) is PeerUp
                || msgs.drop_last()[i] is Routes by {
                assert(msgs.drop_last()[i] == msgs[i]);
            }
        }
        lemma_plain(msgs.drop_last());
    }
}

/// Whether messages have no End-of-RIB marker.
pub open spec fn no_markers(msgs: Seq<DumpMessage>) -> bool {
    forall|i: int| 0 <= i < msgs.len() ==> !((#[trigger] msgs[i]) is EndOfRib)
}

pub proof fn lemma_no_markers(a: Seq<DumpMessage>, b: Seq<DumpMessage>)
    requires
        no_markers(a),
        no_markers(b),
    ensures
        no_markers(a + b),
{
    assert forall|i: int| 0 <= i < (a + b).len() implies !((#[trigger] (a + b)[i]) is EndOfRib) by {
        if i < a.len() {
            assert((a + b)[i] == a[i]);
        } else {
            assert((a + b)[i] == b[i - a.len()]);
        }
    }
}

/// The routes that two sets of peers make a dump announce are the same where
/// it has the routes of the same ingresses.
proof fn lemma_same_record_routes(
    a: Peers,
    b: Peers,
    infos: Map<IngressId, IngressInfo>,
    p: PrefixKey,
    recs: Seq<Record<RotondaPaMap>>,
)
    requires
        forall|id: IngressId| #[trigger] willing(a, infos, id) == willing(b, infos, id),
    ensures
        record_routes(a, infos, p, recs) == record_routes(b, infos, p, recs),
    decreases recs.len(),
{
    if recs.len() > 0 {
        lemma_same_record_routes(a, b, infos, p, recs.drop_last());
    }
}

pub proof fn lemma_same_prefix_routes(
    a: Peers,
    b: Peers,
    infos: Map<IngressId, IngressInfo>,
    set: Seq<PrefixRecord<RotondaPaMap>>,
)
    requires
        forall|id: IngressId| #[trigger] willing(a, infos, id) == willing(b, infos, id),
    ensures
        prefix_routes(a, infos, set) == prefix_routes(b, infos, set),
    decreases set.len(),
{
    if set.len() > 0 {
        lemma_same_prefix_routes(a, b, infos, set.drop_last());
        lemma_same_record_routes(a, b, infos, set.last().prefix@, set.last().meta@);
    }
}

proof fn lemma_same_set_routes(
    a: Peers,
    b: Peers,
    infos: Map<IngressId, IngressInfo>,
    is_v4: bool,
    m: IngressId,
    rules: Seq<RuleView>,
)
    requires
        forall|id: IngressId| #[trigger] willing(a, infos, id) == willing(b, infos, id),
    ensures
        set_routes(a, infos, is_v4, m, rules) == set_routes(b, infos, is_v4, m, rules),
    decreases rules.len(),
{
    if rules.len() > 0 {
        lemma_same_set_routes(a, b, infos, is_v4, m, rules.drop_last());
    }
}

proof fn lemma_same_record_rules(
    a: Peers,
    b: Peers,
    infos: Map<IngressId, IngressInfo>,
    is_v4: bool,
    recs: Seq<Record<FlowSpecRuleSet>>,
)
    requires
        forall|id: IngressId| #[trigger] willing(a, infos, id) == willing(b, infos, id),
    ensures
        record_rules(a, infos, is_v4, recs) == record_rules(b, infos, is_v4, recs),
    decreases recs.len(),
{
    if recs.len() > 0 {
        lemma_same_record_rules(a, b, infos, is_v4, recs.drop_last());
        lemma_same_set_routes(a, b, infos, is_v4, recs.last().multi_uniq_id, recs.last().meta@);
    }
}

pub proof fn lemma_same_rule_routes(
    a: Peers,
    b: Peers,
    infos: Map<IngressId, IngressInfo>,
    set: Seq<PrefixRecord<FlowSpecRuleSet>>,
)
    requires
        forall|id: IngressId| #[trigger] willing(a, infos, id) == willing(b, infos, id),
    ensures
        rule_routes(a, infos, set) == rule_routes(b, infos, set),
    decreases set.len(),
{
    if set.len() > 0 {
        lemma_same_rule_routes(a, b, infos, set.drop_last());
        lemma_same_record_rules(a, b, infos, set.last().prefix@.0, set.last().meta@);
    }
}

/// The same holds of what is added.
pub proof fn lemma_same_prefix_adds(
    a: Peers,
    b: Peers,
    infos: Map<IngressId, IngressInfo>,
    set: Seq<PrefixRecord<RotondaPaMap>>,
)
    requires
        forall|id: IngressId| #[trigger] willing(a, infos, id) == willing(b, infos, id),
    ensures
        prefix_adds(a, infos, set) == prefix_adds(b, infos, set),
    decreases set.len(),
{
    if set.len() > 0 {
        lemma_same_prefix_adds(a, b, infos, set.drop_last());
        lemma_same_record_adds(a, b, infos, set.last().prefix@, set.last().meta@);
    }
}

proof fn lemma_same_record_adds(
    a: Peers,
    b: Peers,
    infos: Map<IngressId, IngressInfo>,
    p: PrefixKey,
    recs: Seq<Record<RotondaPaMap>>,
)
    requires
        forall|id: IngressId| #[trigger] willing(a, infos, id) == willing(b, infos, id),
    ensures
        record_adds(a, infos, p, recs) == record_adds(b, infos, p, recs),
    decreases recs.len(),
{
    if recs.len() > 0 {
        lemma_same_record_adds(a, b, infos, p, recs.drop_last());
    }
}

proof fn lemma_same_set_adds(
    a: Peers,
    b: Peers,
    infos: Map<IngressId, IngressInfo>,
    is_v4: bool,
    m: IngressId,
    rules: Seq<RuleView>,
)
    requires
        forall|id: IngressId| #[trigger] willing(a, infos, id) == willing(b, infos, id),
    ensures
        set_adds(a, infos, is_v4, m, rules) == set_adds(b, infos, is_v4, m, rules),
    decreases rules.len(),
{
    if rules.len() > 0 {
        lemma_same_set_adds(a, b, infos, is_v4, m, rules.drop_last());
    }
}

proof fn lemma_same_record_rule_adds(
    a: Peers,
    b: Peers,
    infos: Map<IngressId, IngressInfo>,
    is_v4: bool,
    recs: Seq<Record<FlowSpecRuleSet>>,
)
    requires
        forall|id: IngressId| #[trigger] willing(a, infos, id) == willing(b, infos, id),
    ensures
        record_rule_adds(a, infos, is_v4, recs) == record_rule_adds(b, infos, is_v4, recs),
    decreases recs.len(),
{
    if recs.len() > 0 {
        lemma_same_record_rule_adds(a, b, infos, is_v4, recs.drop_last());
        lemma_same_set_adds(a, b, infos, is_v4, recs.last().multi_uniq_id, recs.last().meta@);
    }
}

pub proof fn lemma_same_rule_adds(
    a: Peers,
    b: Peers,
    infos: Map<IngressId, IngressInfo>,
    set: Seq<PrefixRecord<FlowSpecRuleSet>>,
)
    requires
        forall|id: IngressId| #[trigger] willing(a, infos, id) == willing(b, infos, id),
    ensures
        rule_adds(a, infos, set) == rule_adds(b, infos, set),
    decreases set.len(),
{
    if set.len() > 0 {
        lemma_same_rule_adds(a, b, infos, set.drop_last());
        lemma_same_record_rule_adds(a, b, infos, set.last().prefix@.0, set.last().meta@);
    }
}

pub proof fn lemma_prefix_adds_concat(
    peers: Peers,
    infos: Map<IngressId, IngressInfo>,
    a: Seq<PrefixRecord<RotondaPaMap>>,
    b: Seq<PrefixRecord<RotondaPaMap>>,
)
    ensures
        prefix_adds(peers, infos, a + b) == prefix_adds(peers, infos, a) + prefix_adds(peers, infos, b),
    decreases b.len(),
{
    if b.len() == 0 {
        assert(a + b =~= a);
        assert(prefix_adds(peers, infos, a) + prefix_adds(peers, infos, b) =~= prefix_adds(peers, infos, a));
    } else {
        lemma_prefix_adds_concat(peers, infos, a, b.drop_last());
        assert((a + b).drop_last() =~= a + b.drop_last());
        assert(prefix_adds(peers, infos, a + b) =~= prefix_adds(peers, infos, a) + prefix_adds(peers, infos, b));
    }
}

pub proof fn lemma_rule_adds_concat(
    peers: Peers,
    infos: Map<IngressId, IngressInfo>,
    a: Seq<PrefixRecord<FlowSpecRuleSet>>,
    b: Seq<PrefixRecord<FlowSpecRuleSet>>,
)
    ensures
        rule_adds(peers, infos, a + b) == rule_adds(peers, infos, a) + rule_adds(peers, infos, b),
    decreases b.len(),
{
    if b.len() == 0 {
        assert(a + b =~= a);
        assert(rule_adds(peers, infos, a) + rule_adds(peers, infos, b) =~= rule_adds(peers, infos, a));
    } else {
        lemma_rule_adds_concat(peers, infos, a, b.drop_last());
        assert((a + b).drop_last() =~= a + b.drop_last());
        assert(rule_adds(peers, infos, a + b) =~= rule_adds(peers, infos, a) + rule_adds(peers, infos, b));
    }
}

pub proof fn lemma_prefix_routes_concat(
    peers: Peers,
    infos: Map<IngressId, IngressInfo>,
    a: Seq<PrefixRecord<RotondaPaMap>>,
    b: Seq<PrefixRecord<RotondaPaMap>>,
)
    ensures
        prefix_routes(peers, infos, a + b) == prefix_routes(peers, infos, a).add(prefix_routes(peers, infos, b)),
    decreases b.len(),
{
    if b.len() == 0 {
        assert(a + b =~= a);
        assert(prefix_routes(peers, infos, a).add(Multiset::empty()) =~= prefix_routes(peers, infos, a));
    } else {
        lemma_prefix_routes_concat(peers, infos, a, b.drop_last());
        assert((a + b).drop_last() =~= a + b.drop_last());
        assert(prefix_routes(peers, infos, a + b) =~= prefix_routes(peers, infos, a).add(
            prefix_routes(peers, infos, b),
        ));
    }
}

pub proof fn lemma_rule_routes_concat(
    peers: Peers,
    infos: Map<IngressId, IngressInfo>,
    a: Seq<PrefixRecord<FlowSpecRuleSet>>,
    b: Seq<PrefixRecord<FlowSpecRuleSet>>,
)
    ensures
        rule_routes(peers, infos, a + b) == rule_routes(peers, infos, a).add(rule_routes(peers, infos, b)),
    decreases b.len(),
{
    if b.len() == 0 {
        assert(a + b =~= a);
        assert(rule_routes(peers, infos, a).add(Multiset::empty()) =~= rule_routes(peers, infos, a));
    } else {
        lemma_rule_routes_concat(peers, infos, a, b.drop_last());
        assert((a + b).drop_last() =~= a + b.drop_last());
        assert(rule_routes(peers, infos, a + b) =~= rule_routes(peers, infos, a).add(rule_routes(peers, infos, b)));
    }
}

} // verus!
