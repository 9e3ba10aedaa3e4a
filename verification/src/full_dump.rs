//! A whole dump at once, and what holds of it: all that a client is owed, in
//! order, each thing once.
use vstd::multiset::Multiset;
use vstd::prelude::*;

use crate::aggregator::{AggMessage, AggRoute};
use crate::bmp_builder::{current_time, evpn_update, monitored, peer_up_bytes, supported_list, PeerInfo, Timestamp};
use crate::client::{shown_peer, ClientPhase, ClientState, ClientView, EmitOptions, Update};
use crate::packing::{
    carry_groups, lemma_packs_concat, nothing_open, packs, sent_ids, well_packed, Addition, Sent,
};
use crate::client_dump::{
    all_markers, are_markers, at_the_start, carried, enumerated, evpn_all_told, evpn_shape, evpn_told, evpns,
    initiation_bytes, is_enumerated, is_peer, lemma_carried_push, lemma_concat, lemma_no_markers,
    lemma_ordered_concat, lemma_plain, lemma_prefix_routes_concat, lemma_rule_routes_concat,
    lemma_prefix_adds_concat, lemma_rule_adds_concat, lemma_same_prefix_adds, lemma_same_prefix_routes,
    lemma_same_rule_adds, lemma_same_rule_routes, markers_for, no_markers, ordered, peer_markers, plain, prefix_adds,
    prefix_routes, ran, routes_sent, rule_adds, rule_routes, sound, ups, walk_target, willing, DumpMessage, DumpStage,
    Peers, TableDump, DUMP_AGGREGATOR_MAX_BYTES,
};
use crate::dump::{chunks_add_up, dumped};
use crate::evpn::EvpnRecord;
use crate::flowspec::FlowSpecRuleSet;
use crate::ingress::IngressInfo;
use crate::pamap::RotondaPaMap;
use crate::rib::Rib;
use crate::rib_lifecycle::evpn_listed;
use crate::store::{distinct_keys, has_key, PrefixRecord, Stored, StoreView};
use crate::types::{AfiSafiType, IngressId, Prefix, PrefixKey};

verus! {

/// Whether `v` holds all prefixes of a store that a dump shows, each once,
/// with all records that it shows.
pub open spec fn is_whole<M: Stored>(s: StoreView<M::V>, v: Seq<PrefixRecord<M>>) -> bool {
    exists|keys: Seq<Prefix>| #[trigger]
        dumped::<M>(s, keys, v) && forall|p: PrefixKey| #[trigger] has_key(keys, p) == s.has_prefix(p)
}

/// A client once it knows some peers more.
pub open spec fn knowing_all(v: ClientView, ids: Seq<IngressId>) -> ClientView {
    ClientView { known: v.known.union(ids.to_set()), ..v }
}

/// The routes that a dump owes to a client: those of all peers.
pub open spec fn owed(
    infos: Map<IngressId, IngressInfo>,
    unicast: Seq<PrefixRecord<RotondaPaMap>>,
    rules: Seq<PrefixRecord<FlowSpecRuleSet>>,
) -> Multiset<AggRoute> {
    prefix_routes(Map::empty(), infos, unicast).add(rule_routes(Map::empty(), infos, rules))
}

/// What a dump adds to groups, in order.
pub open spec fn all_adds(
    infos: Map<IngressId, IngressInfo>,
    unicast: Seq<PrefixRecord<RotondaPaMap>>,
    rules: Seq<PrefixRecord<FlowSpecRuleSet>>,
) -> Seq<Addition> {
    prefix_adds(Map::empty(), infos, unicast) + rule_adds(Map::empty(), infos, rules)
}

/// A client once it has taken the updates that wait. With none it is live.
pub open spec fn drained(v: ClientView) -> ClientView {
    ClientView {
        buffer: Seq::empty(),
        phase: if v.buffer.len() == 0 {
            ClientPhase::Live
        } else {
            v.phase
        },
        ..v
    }
}

/// Whether each peer that was met is what the register tells of it.
pub open spec fn all_shown(infos: Map<IngressId, IngressInfo>, options: EmitOptions, met: Peers) -> bool {
    forall|id: IngressId| #[trigger] met.contains_key(id) ==> shown_peer(infos, id, options, met[id])
}

/// Whether a message is what it should be for its peer. The Peer Up of a peer
/// that the dump began with advertises graceful restart; that of a peer that
/// was discovered does not.
pub open spec fn well_told(met: Peers, first: Seq<IngressId>, now: Timestamp, m: DumpMessage) -> bool {
    match m {
        DumpMessage::PeerUp(id, b) => met.contains_key(id) && b@ == peer_up_bytes(
            met[id],
            first.contains(id),
            now,
        ),
        DumpMessage::Routes(_) => sound(met, m, now),
        _ => true,
    }
}

/// Whether all messages are what they should be for their peers.
pub open spec fn all_well_told(met: Peers, first: Seq<IngressId>, now: Timestamp, msgs: Seq<DumpMessage>) -> bool {
    forall|i: int| 0 <= i < msgs.len() ==> well_told(met, first, now, #[trigger] msgs[i])
}

/// What a whole dump is. It begins with the initiation. Each peer has one
/// Peer Up, and nothing is told of it before. What is told of a peer is what
/// the register knows, and the octets of each message are those for its peer.
/// All prefixes and rules of all peers are announced once, packed as the
/// aggregator packs them, and all EVPN routes. The End-of-RIB markers come last, one for each family of each
/// peer. The client then knows all peers, and the updates that waited are
/// handed out; if none did, it is live.
pub open spec fn whole_dump(
    rib: &Rib,
    options: EmitOptions,
    now: Timestamp,
    sys_name: Seq<char>,
    sys_descr: Seq<char>,
    before: ClientView,
    after: ClientView,
    d: TableDump,
    msgs: Seq<DumpMessage>,
    waited: Seq<Update>,
) -> bool {
    let infos = rib.ingress_register@;
    let ids = d.peers@ + d.discovered@;
    &&& d.met().dom() == ids.to_set()
    &&& all_shown(infos, options, d.met())
    &&& all_well_told(d.met(), d.peers@, now, msgs)
    &&& enumerated(infos, d.peers@)
    &&& msgs.len() > 0
    &&& msgs[0] is Initiation
    &&& msgs[0].octets() == initiation_bytes(sys_name, sys_descr)
    &&& ups(msgs) == ids
    &&& ids.no_duplicates()
    &&& ordered(msgs)
    &&& exists|u: Seq<PrefixRecord<RotondaPaMap>>, f: Seq<PrefixRecord<FlowSpecRuleSet>>| #[trigger]
        is_whole::<RotondaPaMap>(rib.unicast@, u) && #[trigger] is_whole::<FlowSpecRuleSet>(rib.flowspec@, f)
            && carried(msgs) == owed(infos, u, f) && well_packed(
            all_adds(infos, u, f),
            DUMP_AGGREGATOR_MAX_BYTES as int,
            routes_sent(msgs),
        )
    &&& exists|recs: Seq<EvpnRecord>| #[trigger]
        evpn_listed(rib.evpn@, recs) && evpn_all_told(infos, options, now, recs, evpns(msgs))
    &&& exists|n: int| #[trigger] split_at_markers(d, now, msgs, n)
    &&& after == drained(knowing_all(before, ids))
    &&& waited == before.buffer
}

/// Whether the End-of-RIB markers of all peers of a dump, and nothing else,
/// are from `n` on.
pub open spec fn split_at_markers(d: TableDump, now: Timestamp, msgs: Seq<DumpMessage>, n: int) -> bool {
    &&& 0 <= n <= msgs.len()
    &&& no_markers(msgs.take(n))
    &&& are_markers(msgs.skip(n), all_markers(d.met(), d.peers@ + d.discovered@, now))
}

/// Whether the messages so far are in order, with one Peer Up for each peer,
/// and each is what it should be for its peer.
spec fn in_order(
    d: TableDump,
    infos: Map<IngressId, IngressInfo>,
    options: EmitOptions,
    now: Timestamp,
    all: Seq<DumpMessage>,
) -> bool {
    &&& d.wf()
    &&& ups(all) == d.peers@ + d.discovered@
    &&& ordered(all)
    &&& no_markers(all)
    &&& all_shown(infos, options, d.met())
    &&& all_well_told(d.met(), d.peers@, now, all)
}

/// Whether the messages so far, and the groups that are open, are what became
/// of some routes.
#[verifier::opaque]
spec fn packed_so_far(d: TableDump, all: Seq<DumpMessage>, adds: Seq<Addition>) -> bool {
    &&& d.aggregator.max_bytes == DUMP_AGGREGATOR_MAX_BYTES
    &&& packs(
        nothing_open(),
        adds,
        DUMP_AGGREGATOR_MAX_BYTES as int,
        d.aggregator.packing(),
        routes_sent(all),
    )
}

proof fn lemma_packed_nothing(d: TableDump, all: Seq<DumpMessage>)
    requires
        d.aggregator.max_bytes == DUMP_AGGREGATOR_MAX_BYTES,
        d.aggregator.packing() == nothing_open(),
        routes_sent(all) == Seq::<Sent>::empty(),
    ensures
        packed_so_far(d, all, Seq::empty()),
{
    reveal(packed_so_far);
}

/// More routes are added.
proof fn lemma_packed_on(
    d0: TableDump,
    d1: TableDump,
    all: Seq<DumpMessage>,
    out: Seq<DumpMessage>,
    adds: Seq<Addition>,
    more: Seq<Addition>,
)
    requires
        packed_so_far(d0, all, adds),
        ran(d0.aggregator, d1.aggregator, more, out),
    ensures
        packed_so_far(d1, all + out, adds + more),
{
    reveal(packed_so_far);
    reveal(ran);
    lemma_concat(all, out);
    lemma_packs_concat(
        nothing_open(),
        adds,
        DUMP_AGGREGATOR_MAX_BYTES as int,
        d0.aggregator.packing(),
        routes_sent(all),
        more,
        d1.aggregator.packing(),
        routes_sent(out),
    );
}

/// What does not touch the groups changes nothing.
proof fn lemma_packed_same(
    d0: TableDump,
    d1: TableDump,
    all: Seq<DumpMessage>,
    out: Seq<DumpMessage>,
    adds: Seq<Addition>,
)
    requires
        packed_so_far(d0, all, adds),
        d1.aggregator.max_bytes == d0.aggregator.max_bytes,
        d1.aggregator.packing() == d0.aggregator.packing(),
        routes_sent(out) == Seq::<Sent>::empty(),
    ensures
        packed_so_far(d1, all + out, adds),
{
    reveal(packed_so_far);
    lemma_concat(all, out);
    assert(routes_sent(all) + routes_sent(out) =~= routes_sent(all));
}

/// All that waits is sent.
proof fn lemma_packed_all(d: TableDump, all: Seq<DumpMessage>, out: Seq<DumpMessage>, adds: Seq<Addition>)
    requires
        packed_so_far(d, all, adds),
        carry_groups(d.aggregator.packing().open, routes_sent(out)),
        sent_ids(routes_sent(out)) == d.aggregator.packing().open.dom(),
    ensures
        well_packed(adds, DUMP_AGGREGATOR_MAX_BYTES as int, routes_sent(all + out)),
{
    reveal(packed_so_far);
    lemma_concat(all, out);
    let sent = routes_sent(all + out);
    let n = routes_sent(all).len() as int;
    assert(sent.take(n) =~= routes_sent(all));
    assert(sent.skip(n) =~= routes_sent(out));
    assert(packs(
        nothing_open(),
        adds,
        DUMP_AGGREGATOR_MAX_BYTES as int,
        d.aggregator.packing(),
        sent.take(n),
    ));
}

/// Each Peer Up is among the Peer Ups.
proof fn lemma_is_among_ups(msgs: Seq<DumpMessage>, i: int)
    requires
        0 <= i < msgs.len(),
    ensures
        msgs[i] matches DumpMessage::PeerUp(id, _) ==> ups(msgs).contains(id),
    decreases msgs.len(),
{
    match msgs[i] {
        DumpMessage::PeerUp(id, _) => {
            let rest = msgs.drop_last();
            if i < rest.len() {
                lemma_is_among_ups(rest, i);
                let k = choose|k: int| 0 <= k < ups(rest).len() && ups(rest)[k] == id;
                assert(ups(msgs)[k] == id);
            } else {
                assert(ups(msgs).last() == id);
            }
        },
        _ => {},
    }
}

/// What a walk adds is what it should be, and what was told stays so.
proof fn lemma_walk_well_told(
    d0: TableDump,
    d1: TableDump,
    infos: Map<IngressId, IngressInfo>,
    options: EmitOptions,
    now: Timestamp,
    all: Seq<DumpMessage>,
    out: Seq<DumpMessage>,
)
    requires
        d0.wf(),
        d1.came_from(d0, infos, options, now, out),
        all_shown(infos, options, d0.met()),
        all_well_told(d0.met(), d0.peers@, now, all),
    ensures
        all_shown(infos, options, d1.met()),
        all_well_told(d1.met(), d1.peers@, now, all + out),
{
    assert forall|id: IngressId| #[trigger] d1.met().contains_key(id) implies shown_peer(
        infos,
        id,
        options,
        d1.met()[id],
    ) by {
        if d0.met().contains_key(id) {
            assert(d0.met().dom().contains(id));
        }
    }
    assert forall|i: int| 0 <= i < (all + out).len() implies well_told(
        d1.met(),
        d1.peers@,
        now,
        #[trigger] (all + out)[i],
    ) by {
        if i < all.len() {
            assert((all + out)[i] == all[i]);
            assert(well_told(d0.met(), d0.peers@, now, all[i]));
            lemma_stays_well_told(d0.met(), d1.met(), d0.peers@, now, all[i]);
        } else {
            let k = i - all.len();
            assert((all + out)[i] == out[k]);
            assert(sound(d1.met(), out[k], now));
            match out[k] {
                DumpMessage::PeerUp(id, _) => {
                    lemma_is_among_ups(out, k);
                    let x = choose|x: int| 0 <= x < ups(out).len() && ups(out)[x] == id;
                    assert(!d0.met().contains_key(ups(out)[x]));
                    lemma_first_are_met(d0, id);
                },
                _ => {},
            }
        }
    }
}

/// The peers that a dump began with are met.
proof fn lemma_first_are_met(d: TableDump, id: IngressId)
    requires
        d.wf(),
    ensures
        d.peers@.contains(id) ==> d.met().contains_key(id),
{
    if d.peers@.contains(id) {
        let k = choose|k: int| 0 <= k < d.peers@.len() && d.peers@[k] == id;
        assert((d.peers@ + d.discovered@)[k] == id);
        assert((d.peers@ + d.discovered@).to_set().contains(id));
        assert(d.met().dom().contains(id));
    }
}

/// What is told of a peer depends on what is known of it alone.
proof fn lemma_same_peer(m: AggMessage, p: PeerInfo, q: PeerInfo, now: Timestamp)
    requires
        p == q,
        m.announces(p, now),
    ensures
        m.announces(q, now),
{
}

/// Meeting more peers changes nothing of a message with routes.
proof fn lemma_stays_sound(met: Peers, more: Peers, now: Timestamp, a: AggMessage)
    requires
        met.submap_of(more),
        sound(met, DumpMessage::Routes(a), now),
    ensures
        sound(more, DumpMessage::Routes(a), now),
{
    let id = a.key.ingress_id;
    assert(met.contains_key(id) && a.announces(met[id], now));
    assert(met.dom().contains(id));
    assert(more.contains_key(id) && more[id] == met[id]);
    lemma_same_peer(a, met[id], more[id], now);
}

/// Meeting more peers changes nothing of what was told.
proof fn lemma_stays_well_told(met: Peers, more: Peers, first: Seq<IngressId>, now: Timestamp, m: DumpMessage)
    requires
        met.submap_of(more),
        well_told(met, first, now, m),
    ensures
        well_told(more, first, now, m),
{
    match m {
        DumpMessage::PeerUp(id, _) => {
            assert(met.dom().contains(id));
            assert(more.dom().contains(id));
        },
        DumpMessage::Routes(a) => {
            lemma_stays_sound(met, more, now, a);
        },
        _ => {},
    }
}

/// A peer that was met had its Peer Up.
proof fn lemma_met_is_up(d: TableDump, all: Seq<DumpMessage>, id: IngressId)
    requires
        d.wf(),
        ups(all) == d.peers@ + d.discovered@,
        d.met().contains_key(id),
    ensures
        ups(all).contains(id),
{
    assert(d.met().dom().contains(id));
}

proof fn lemma_walk_step(
    d0: TableDump,
    d1: TableDump,
    infos: Map<IngressId, IngressInfo>,
    options: EmitOptions,
    now: Timestamp,
    all: Seq<DumpMessage>,
    out: Seq<DumpMessage>,
)
    requires
        in_order(d0, infos, options, now, all),
        d1.came_from(d0, infos, options, now, out),
        evpns(all) == Seq::<(IngressId, Seq<u8>)>::empty(),
        only_peers(d0, infos),
    ensures
        in_order(d1, infos, options, now, all + out),
        evpns(all + out) == Seq::<(IngressId, Seq<u8>)>::empty(),
        only_peers(d1, infos),
{
    lemma_concat(all, out);
    lemma_walk_well_told(d0, d1, infos, options, now, all, out);
    assert(ups(all + out) =~= d1.peers@ + d1.discovered@);
    assert forall|i: int| 0 <= i < out.len() && !((#[trigger] out[i]) is PeerUp) implies match out[i].peer() {
        Some(id) => ups(all).contains(id) || ups(out.take(i)).contains(id),
        None => true,
    } by {
        assert(sound(d1.met(), out[i], now));
        match out[i] {
            DumpMessage::Routes(m) => {
                if d0.met().contains_key(m.key.ingress_id) {
                    lemma_met_is_up(d0, all, m.key.ingress_id);
                }
            },
            _ => {},
        }
    }
    lemma_ordered_concat(all, out);
    assert(plain(out)) by {
        assert forall|i: int| 0 <= i < out.len() implies (#[trigger] out[i]) is PeerUp || out[i] is Routes by {
            assert(sound(d1.met(), out[i], now));
        }
    }
    lemma_plain(out);
    assert(no_markers(out)) by {
        assert forall|i: int| 0 <= i < out.len() implies !((#[trigger] out[i]) is EndOfRib) by {
            assert(sound(d1.met(), out[i], now));
        }
    }
    lemma_no_markers(all, out);
    assert(evpns(all) + evpns(out) =~= Seq::empty());
    assert forall|id: IngressId| #[trigger] d1.met().contains_key(id) implies is_peer(infos, id) by {
        if d0.met().contains_key(id) {
        }
    }
}

/// Whether all that were met are peers by their kind.
spec fn only_peers(d: TableDump, infos: Map<IngressId, IngressInfo>) -> bool {
    forall|id: IngressId| #[trigger] d.met().contains_key(id) ==> is_peer(infos, id)
}

/// The prefixes of one more chunk are added.
proof fn lemma_prefixes_packed(
    d0: TableDump,
    d1: TableDump,
    infos: Map<IngressId, IngressInfo>,
    all: Seq<DumpMessage>,
    out: Seq<DumpMessage>,
    u: Seq<PrefixRecord<RotondaPaMap>>,
    chunk: Seq<PrefixRecord<RotondaPaMap>>,
)
    requires
        packed_so_far(d0, all, prefix_adds(Map::empty(), infos, u)),
        ran(d0.aggregator, d1.aggregator, prefix_adds(d0.met(), infos, chunk), out),
        only_peers(d0, infos),
    ensures
        packed_so_far(d1, all + out, prefix_adds(Map::empty(), infos, u + chunk)),
{
    lemma_willing(d0, infos);
    lemma_same_prefix_adds(d0.met(), Map::empty(), infos, chunk);
    lemma_prefix_adds_concat(Map::empty(), infos, u, chunk);
    lemma_packed_on(
        d0,
        d1,
        all,
        out,
        prefix_adds(Map::empty(), infos, u),
        prefix_adds(Map::empty(), infos, chunk),
    );
}

/// The rules of one more chunk are added.
proof fn lemma_rules_packed(
    d0: TableDump,
    d1: TableDump,
    infos: Map<IngressId, IngressInfo>,
    all: Seq<DumpMessage>,
    out: Seq<DumpMessage>,
    adds: Seq<Addition>,
    f: Seq<PrefixRecord<FlowSpecRuleSet>>,
    chunk: Seq<PrefixRecord<FlowSpecRuleSet>>,
)
    requires
        packed_so_far(d0, all, adds + rule_adds(Map::empty(), infos, f)),
        ran(d0.aggregator, d1.aggregator, rule_adds(d0.met(), infos, chunk), out),
        only_peers(d0, infos),
    ensures
        packed_so_far(d1, all + out, adds + rule_adds(Map::empty(), infos, f + chunk)),
{
    lemma_willing(d0, infos);
    lemma_same_rule_adds(d0.met(), Map::empty(), infos, chunk);
    lemma_rule_adds_concat(Map::empty(), infos, f, chunk);
    let (x, y) = (rule_adds(Map::empty(), infos, f), rule_adds(Map::empty(), infos, chunk));
    lemma_packed_on(d0, d1, all, out, adds + x, y);
    assert(adds + x + y =~= adds + (x + y));
}

proof fn lemma_willing(d: TableDump, infos: Map<IngressId, IngressInfo>)
    requires
        only_peers(d, infos),
    ensures
        forall|id: IngressId| #[trigger] willing(d.met(), infos, id) == willing(Map::empty(), infos, id),
{
}

/// What a Peer Up and an EVPN route add to the messages.
proof fn lemma_evpn_shape(out: Seq<DumpMessage>, id: IngressId, up: Option<Seq<u8>>, route: Option<Seq<u8>>)
    requires
        evpn_shape(out, id, up, route),
    ensures
        carried(out) == Multiset::<AggRoute>::empty(),
        evpns(out) == (match route {
            Some(b) => seq![(id, b)],
            None => Seq::empty(),
        }),
        no_markers(out),
        forall|i: int|
            0 <= i < out.len() && !((#[trigger] out[i]) is PeerUp) ==> out[i].peer() == Some(id) && (up is None
                || ups(out.take(i)).contains(id)),
{
    let n: int = if up is Some {
        1
    } else {
        0
    };
    let head = out.take(n);
    assert(carried(head) == Multiset::<AggRoute>::empty() && evpns(head) =~= Seq::empty() && (up is Some ==> ups(
        head,
    ).contains(id))) by {
        if n == 1 {
            assert(head =~= Seq::<DumpMessage>::empty().push(out[0]));
            lemma_carried_push(Seq::empty(), out[0]);
            assert(head.drop_last() =~= Seq::empty());
            assert(carried(head) =~= Multiset::empty());
            assert(head.last() == out[0]);
            assert(ups(head) =~= Seq::<IngressId>::empty().push(id));
            assert(ups(head)[0] == id);
            assert(evpns(head) =~= evpns(head.drop_last()));
        } else {
            assert(head =~= Seq::empty());
        }
    }
    if route is Some {
        assert(out =~= head.push(out[n]));
        assert(out.drop_last() =~= head);
        lemma_carried_push(head, out[n]);
        assert(carried(out) =~= Multiset::empty());
        assert(evpns(out) =~= seq![(id, route->Some_0)]);
    } else {
        assert(out =~= head);
    }
}

/// What one EVPN route adds to the messages.
proof fn lemma_evpn_step(
    before: Peers,
    after: Peers,
    infos: Map<IngressId, IngressInfo>,
    options: EmitOptions,
    now: Timestamp,
    rec: EvpnRecord,
    out: Seq<DumpMessage>,
    recs: Seq<EvpnRecord>,
    told: Seq<(IngressId, Seq<u8>)>,
)
    requires
        evpn_told(before, after, infos, options, now, rec, out),
        evpn_all_told(infos, options, now, recs, told),
    ensures
        evpn_all_told(infos, options, now, recs.push(rec), told + evpns(out)),
        carried(out) == Multiset::<AggRoute>::empty(),
        no_markers(out),
        forall|i: int|
            0 <= i < out.len() && !((#[trigger] out[i]) is PeerUp) ==> match out[i].peer() {
                Some(id) => before.contains_key(id) || ups(out.take(i)).contains(id),
                None => true,
            },
{
    let (id, path_id) = walk_target(infos, rec.ingress_id);
    assert(recs.push(rec).drop_last() =~= recs);
    if !rec.active || !infos.contains_key(id) {
        assert(out =~= Seq::empty());
        assert(told + evpns(out) =~= told);
    } else {
        let update = evpn_update(rec.nlri.raw@, rec.attributes@, false, path_id);
        let peer = choose|peer: PeerInfo|
            {
                &&& #[trigger] shown_peer(infos, id, options, peer)
                &&& after == (if before.contains_key(id) {
                    before
                } else {
                    before.insert(id, peer)
                })
                &&& evpn_shape(
                    out,
                    id,
                    if before.contains_key(id) {
                        None
                    } else {
                        Some(peer_up_bytes(peer, false, now))
                    },
                    monitored(peer, now, update),
                )
            };
        let up = if before.contains_key(id) {
            None
        } else {
            Some(peer_up_bytes(peer, false, now))
        };
        let route = monitored(peer, now, update);
        lemma_evpn_shape(out, id, up, route);
        match route {
            Some(b) => {
                assert((told + evpns(out)).drop_last() =~= told);
                assert((told + evpns(out)).last() == (id, b));
            },
            None => {
                assert(told + evpns(out) =~= told);
            },
        }
    }
}

/// What an EVPN route adds is what it should be, and what was told stays so.
proof fn lemma_evpn_well_told(
    d0: TableDump,
    d1: TableDump,
    infos: Map<IngressId, IngressInfo>,
    options: EmitOptions,
    now: Timestamp,
    rec: EvpnRecord,
    all: Seq<DumpMessage>,
    out: Seq<DumpMessage>,
)
    requires
        d0.wf(),
        d1.peers == d0.peers,
        evpn_told(d0.met(), d1.met(), infos, options, now, rec, out),
        all_shown(infos, options, d0.met()),
        all_well_told(d0.met(), d0.peers@, now, all),
    ensures
        all_shown(infos, options, d1.met()),
        all_well_told(d1.met(), d1.peers@, now, all + out),
{
    let (id, path_id) = walk_target(infos, rec.ingress_id);
    lemma_first_are_met(d0, id);
    assert forall|x: IngressId| #[trigger] d1.met().contains_key(x) implies shown_peer(infos, x, options, d1.met()[x]) by {
        if d0.met().contains_key(x) {
        }
    }
    assert forall|i: int| 0 <= i < (all + out).len() implies well_told(
        d1.met(),
        d1.peers@,
        now,
        #[trigger] (all + out)[i],
    ) by {
        if i < all.len() {
            assert((all + out)[i] == all[i]);
            assert(well_told(d0.met(), d0.peers@, now, all[i]));
            lemma_stays_well_told(d0.met(), d1.met(), d0.peers@, now, all[i]);
        } else {
            assert((all + out)[i] == out[i - all.len()]);
        }
    }
}

proof fn lemma_all_markers_push(met: Peers, ids: Seq<IngressId>, id: IngressId, now: Timestamp)
    ensures
        all_markers(met, ids.push(id), now) == all_markers(met, ids, now) + peer_markers(id, met[id], now),
{
    assert(ids.push(id).drop_last() =~= ids);
}

proof fn lemma_are_markers_concat(
    a: Seq<DumpMessage>,
    b: Seq<DumpMessage>,
    x: Seq<(IngressId, Seq<u8>)>,
    y: Seq<(IngressId, Seq<u8>)>,
)
    requires
        are_markers(a, x),
        are_markers(b, y),
    ensures
        are_markers(a + b, x + y),
{
    assert forall|i: int| 0 <= i < (a + b).len() implies ((#[trigger] (a + b)[i]) matches DumpMessage::EndOfRib(id, o)
        && (id, o@) == (x + y)[i]) by {
        if i < a.len() {
            assert((a + b)[i] == a[i]);
        } else {
            assert((a + b)[i] == b[i - a.len()]);
        }
    }
}

/// End-of-RIB markers carry no routes and are no Peer Ups.
proof fn lemma_markers_tell_nothing(msgs: Seq<DumpMessage>, markers: Seq<(IngressId, Seq<u8>)>)
    requires
        are_markers(msgs, markers),
    ensures
        ups(msgs) == Seq::<IngressId>::empty(),
        evpns(msgs) == Seq::<(IngressId, Seq<u8>)>::empty(),
        carried(msgs) == Multiset::<AggRoute>::empty(),
        routes_sent(msgs) == Seq::<Sent>::empty(),
    decreases msgs.len(),
{
    if msgs.len() > 0 {
        assert(msgs[msgs.len() - 1] is EndOfRib);
        assert(are_markers(msgs.drop_last(), markers.drop_last())) by {
            assert forall|i: int| 0 <= i < msgs.drop_last().len() implies ((
            #[trigger] msgs.drop_last()[i]) matches DumpMessage::EndOfRib(id, o) && (id, o@) == markers.drop_last()[i]) by {
                assert(msgs.drop_last()[i] == msgs[i]);
            }
        }
        lemma_markers_tell_nothing(msgs.drop_last(), markers.drop_last());
        assert(carried(msgs) =~= Multiset::empty());
    }
}

/// Each marker is of a peer among `ids`.
proof fn lemma_marker_peers(met: Peers, ids: Seq<IngressId>, now: Timestamp, i: int)
    requires
        0 <= i < all_markers(met, ids, now).len(),
    ensures
        ids.contains(all_markers(met, ids, now)[i].0),
    decreases ids.len(),
{
    let rest = ids.drop_last();
    let all = all_markers(met, ids, now);
    if i < all_markers(met, rest, now).len() {
        lemma_marker_peers(met, rest, now, i);
        let k = choose|k: int| 0 <= k < rest.len() && rest[k] == all[i].0;
        assert(ids[k] == all[i].0);
    } else {
        let last = ids.last();
        lemma_markers_of(last, met[last], supported_list(met[last].peer_capabilities@), now,
            i - all_markers(met, rest, now).len());
        assert(ids[ids.len() - 1] == all[i].0);
    }
}

proof fn lemma_markers_of(
    id: IngressId,
    peer: PeerInfo,
    families: Seq<AfiSafiType>,
    now: Timestamp,
    i: int,
)
    requires
        0 <= i < markers_for(id, peer, families, now).len(),
    ensures
        markers_for(id, peer, families, now)[i].0 == id,
    decreases families.len(),
{
    if families.len() > 0 {
        let rest = families.drop_last();
        if i < markers_for(id, peer, rest, now).len() {
            lemma_markers_of(id, peer, rest, now, i);
        }
    }
}

/// Appends messages.
fn append(all: &mut Vec<DumpMessage>, out: Vec<DumpMessage>)
    ensures
        final(all)@ == old(all)@ + out@,
{
    let mut out = out;
    all.append(&mut out);
}

/// The Peer Ups of a dump.
fn run_peer_ups(
    dump: &mut TableDump,
    client: &mut ClientState,
    rib: &Rib,
    options: EmitOptions,
    now: Timestamp,
    all: &mut Vec<DumpMessage>,
)
    requires
        old(dump).wf(),
        old(dump).stage is PeerUps,
        old(dump).next == 0,
        old(dump).discovered@.len() == 0,
        all_shown(rib.ingress_register@, options, old(dump).met()),
        old(client).wf(),
        rib.wf(),
        old(all)@.len() == 1,
        old(all)@[0] is Initiation,
    ensures
        final(dump).same_but_for_place(*old(dump)),
        final(dump).stage is PeerUps,
        final(dump).next == final(dump).peers@.len(),
        in_order(*final(dump), rib.ingress_register@, options, now, final(all)@),
        final(client).wf(),
        final(client)@ == knowing_all(old(client)@, final(dump).peers@),
        carried(final(all)@) == Multiset::<AggRoute>::empty(),
        evpns(final(all)@) == Seq::<(IngressId, Seq<u8>)>::empty(),
        routes_sent(final(all)@) == Seq::<Sent>::empty(),
        final(all)@.len() > 0,
        final(all)@[0] == old(all)@[0],
{
    let ghost peers = dump.peers@;
    let ghost v = client@;
    proof {
        assert(all@ =~= Seq::<DumpMessage>::empty().push(all@[0]));
        lemma_carried_push(Seq::empty(), all@[0]);
        assert(all@.drop_last() =~= Seq::empty());
        assert(carried(all@) =~= Multiset::empty());
        assert(peers.take(0).to_set() =~= Set::empty());
        assert(v.known.union(Set::empty()) =~= v.known);
        assert(ups(all@) =~= peers.take(0));
        assert(all@.last() == all@[0]);
        assert(evpns(all@) =~= evpns(all@.drop_last()));
        assert(routes_sent(all@) =~= routes_sent(all@.drop_last()));
    }
    while dump.next < dump.peers.len()
        invariant
            dump.wf(),
            dump.stage is PeerUps,
            dump.next <= dump.peers@.len(),
            dump.same_but_for_place(*old(dump)),
            peers == dump.peers@,
            client.wf(),
            rib.wf(),
            client@ == knowing_all(v, peers.take(dump.next as int)),
            ups(all@) == peers.take(dump.next as int),
            carried(all@) == Multiset::<AggRoute>::empty(),
            evpns(all@) == Seq::<(IngressId, Seq<u8>)>::empty(),
            routes_sent(all@) == Seq::<Sent>::empty(),
            ordered(all@),
            no_markers(all@),
            all_well_told(dump.met(), peers, now, all@),
            all@.len() > 0,
            all@[0] == old(all)@[0],
        decreases dump.peers@.len() - dump.next,
    {
        let ghost before = all@;
        let ghost id = peers[dump.next as int];
        let ghost k = dump.next as int;
        let out = dump.step_at(client, rib, options, now);
        append(all, out);
        proof {
            let m = out@[0];
            assert(all@ =~= before.push(m));
            assert(peers[k] == id && peers.contains(id));
            lemma_first_are_met(*dump, id);
            assert(well_told(dump.met(), peers, now, m));
            assert forall|i: int| 0 <= i < all@.len() implies well_told(
                dump.met(),
                peers,
                now,
                #[trigger] all@[i],
            ) by {
                if i < before.len() {
                    assert(all@[i] == before[i]);
                }
            }
            lemma_carried_push(before, m);
            assert(carried(before).add(Multiset::empty()) =~= carried(before));
            assert(all@.drop_last() =~= before);
            assert(peers.take(k + 1) =~= peers.take(k).push(id));
            assert(knowing_all(v, peers.take(k)).knowing(id) =~= knowing_all(v, peers.take(k + 1))) by {
                assert(v.known.union(peers.take(k).to_set()).insert(id) =~= v.known.union(
                    peers.take(k + 1).to_set(),
                )) by {
                    lemma_to_set_push(peers.take(k), id);
                }
            }
            assert forall|i: int| 0 <= i < all@.len() && !((#[trigger] all@[i]) is PeerUp) implies match all@[i].peer() {
                Some(x) => ups(all@.take(i)).contains(x),
                None => true,
            } by {
                assert(all@[i] == before[i]);
                assert(all@.take(i) =~= before.take(i));
            }
            assert(no_markers(seq![m]));
            assert(before + seq![m] =~= all@);
            lemma_no_markers(before, seq![m]);
        }
    }
    assert(peers.take(dump.next as int) =~= peers);
    assert(dump.peers@ + dump.discovered@ =~= peers);
}

proof fn lemma_to_set_push(s: Seq<IngressId>, id: IngressId)
    ensures
        s.push(id).to_set() == s.to_set().insert(id),
{
    assert forall|x: IngressId| s.push(id).to_set().contains(x) == s.to_set().insert(id).contains(x) by {
        if s.contains(x) {
            let k = choose|k: int| 0 <= k < s.len() && s[k] == x;
            assert(s.push(id)[k] == x);
        }
        assert(s.push(id)[s.len() as int] == id);
        if s.push(id).contains(x) && x != id {
            let k = choose|k: int| 0 <= k < s.push(id).len() && s.push(id)[k] == x;
            assert(s[k] == x);
        }
    }
    assert(s.push(id).to_set() =~= s.to_set().insert(id));
}

proof fn lemma_distinct_take(keys: Seq<Prefix>, n: int)
    requires
        distinct_keys(keys),
        0 <= n <= keys.len(),
    ensures
        distinct_keys(keys.take(n)),
{
    assert forall|i: int| 0 <= i < keys.take(n).len() implies (#[trigger] keys.take(n)[i]).wf() by {
        assert(keys.take(n)[i] == keys[i]);
    }
    assert forall|i: int, j: int| 0 <= i < j < keys.take(n).len() implies (#[trigger] keys.take(n)[i])@ != (
    #[trigger] keys.take(n)[j])@ by {
        assert(keys.take(n)[i] == keys[i]);
        assert(keys.take(n)[j] == keys[j]);
    }
}

/// One more chunk of prefixes was walked.
proof fn lemma_prefixes_step(
    d0: TableDump,
    d1: TableDump,
    rib: Rib,
    options: EmitOptions,
    now: Timestamp,
    before: Seq<DumpMessage>,
    out: Seq<DumpMessage>,
    first: Multiset<AggRoute>,
    u: Seq<PrefixRecord<RotondaPaMap>>,
) -> (chunk: Seq<PrefixRecord<RotondaPaMap>>)
    requires
        in_order(d0, rib.ingress_register@, options, now, before),
        d1.came_from(d0, rib.ingress_register@, options, now, out),
        d0.chunk_told(d1, &rib, out),
        d1.cursor.keys@ == d0.cursor.keys@,
        d1.cursor.next == d0.cursor.chunk_end(),
        distinct_keys(d0.cursor.keys@),
        d0.cursor.next <= d0.cursor.keys@.len(),
        only_peers(d0, rib.ingress_register@),
        evpns(before) == Seq::<(IngressId, Seq<u8>)>::empty(),
        dumped::<RotondaPaMap>(rib.unicast@, d0.cursor.keys@.take(d0.cursor.next as int), u),
        packed_so_far(d0, before, prefix_adds(Map::empty(), rib.ingress_register@, u)),
        d0.aggregator.pending().add(carried(before)) == first.add(
            prefix_routes(Map::empty(), rib.ingress_register@, u),
        ),
    ensures
        in_order(d1, rib.ingress_register@, options, now, before + out),
        only_peers(d1, rib.ingress_register@),
        evpns(before + out) == Seq::<(IngressId, Seq<u8>)>::empty(),
        dumped::<RotondaPaMap>(rib.unicast@, d1.cursor.keys@.take(d1.cursor.next as int), u + chunk),
        packed_so_far(d1, before + out, prefix_adds(Map::empty(), rib.ingress_register@, u + chunk)),
        d1.aggregator.pending().add(carried(before + out)) == first.add(
            prefix_routes(Map::empty(), rib.ingress_register@, u + chunk),
        ),
{
    let infos = rib.ingress_register@;
    let keys = d0.cursor.keys@;
    let from = d0.cursor.next as int;
    let to = d0.cursor.chunk_end();
    let part = keys.subrange(from, to);
    let chunk = choose|chunk: Seq<PrefixRecord<RotondaPaMap>>|
        {
            &&& #[trigger] dumped::<RotondaPaMap>(rib.unicast@, part, chunk)
            &&& d1.aggregator.pending().add(carried(out)) == d0.aggregator.pending().add(
                prefix_routes(d0.met(), infos, chunk),
            )
            &&& ran(d0.aggregator, d1.aggregator, prefix_adds(d0.met(), infos, chunk), out)
        };
    assert(keys.take(from) + part =~= keys.take(to));
    lemma_distinct_take(keys, to);
    chunks_add_up::<RotondaPaMap>(rib.unicast@, keys.take(from), part, u, chunk);
    lemma_walk_step(d0, d1, infos, options, now, before, out);
    lemma_concat(before, out);
    lemma_willing(d0, infos);
    lemma_same_prefix_routes(d0.met(), Map::empty(), infos, chunk);
    lemma_prefix_routes_concat(Map::empty(), infos, u, chunk);
    lemma_prefixes_packed(d0, d1, infos, before, out, u, chunk);
    lemma_books(
        d0.aggregator.pending(),
        d1.aggregator.pending(),
        carried(before),
        carried(out),
        first,
        prefix_routes(Map::empty(), infos, u),
        prefix_routes(Map::empty(), infos, chunk),
    );
    chunk
}

/// The prefixes of a dump.
fn run_prefixes(
    dump: &mut TableDump,
    client: &mut ClientState,
    rib: &Rib,
    options: EmitOptions,
    now: Timestamp,
    all: &mut Vec<DumpMessage>,
) -> (u: Ghost<Seq<PrefixRecord<RotondaPaMap>>>)
    requires
        in_order(*old(dump), rib.ingress_register@, options, now, old(all)@),
        old(dump).stage is Unicast,
        at_the_start(old(dump).cursor, rib.unicast@),
        packed_so_far(*old(dump), old(all)@, Seq::empty()),
        only_peers(*old(dump), rib.ingress_register@),
        evpns(old(all)@) == Seq::<(IngressId, Seq<u8>)>::empty(),
        old(client).wf(),
        rib.wf(),
        old(all)@.len() > 0,
    ensures
        in_order(*final(dump), rib.ingress_register@, options, now, final(all)@),
        final(dump).peers == old(dump).peers,
        final(dump).stage is Unicast,
        final(dump).cursor.next >= final(dump).cursor.keys@.len(),
        only_peers(*final(dump), rib.ingress_register@),
        evpns(final(all)@) == Seq::<(IngressId, Seq<u8>)>::empty(),
        final(client).wf(),
        final(client)@ == old(client)@,
        is_whole::<RotondaPaMap>(rib.unicast@, u@),
        packed_so_far(*final(dump), final(all)@, prefix_adds(Map::empty(), rib.ingress_register@, u@)),
        final(dump).aggregator.pending().add(carried(final(all)@)) == old(dump).aggregator.pending().add(
            carried(old(all)@),
        ).add(prefix_routes(Map::empty(), rib.ingress_register@, u@)),
        final(all)@.len() > 0,
        final(all)@[0] == old(all)@[0],
{
    let ghost infos = rib.ingress_register@;
    let ghost keys = dump.cursor.keys@;
    let ghost first = dump.aggregator.pending().add(carried(all@));
    let ghost mut u: Seq<PrefixRecord<RotondaPaMap>> = Seq::empty();
    proof {
        assert(first.add(prefix_routes(Map::empty(), infos, u)) =~= first);
        assert(keys.take(0) =~= Seq::empty());
    }
    while !dump.cursor.done()
        invariant
            in_order(*dump, rib.ingress_register@, options, now, all@),
            dump.peers == old(dump).peers,
            dump.stage is Unicast,
            dump.cursor.keys@ == keys,
            distinct_keys(keys),
            dump.cursor.next <= keys.len(),
            only_peers(*dump, infos),
            infos == rib.ingress_register@,
            evpns(all@) == Seq::<(IngressId, Seq<u8>)>::empty(),
            client.wf(),
            client@ == old(client)@,
            rib.wf(),
            dumped::<RotondaPaMap>(rib.unicast@, keys.take(dump.cursor.next as int), u),
            packed_so_far(*dump, all@, prefix_adds(Map::empty(), infos, u)),
            dump.aggregator.pending().add(carried(all@)) == first.add(prefix_routes(Map::empty(), infos, u)),
            all@.len() > 0,
            all@[0] == old(all)@[0],
        decreases keys.len() - dump.cursor.next,
    {
        let ghost d0 = *dump;
        let ghost before = all@;
        let out = dump.step_at(client, rib, options, now);
        append(all, out);
        proof {
            let chunk = lemma_prefixes_step(d0, *dump, *rib, options, now, before, out@, first, u);
            u = u + chunk;
            assert(all@[0] == before[0]);
        }
    }
    proof {
        assert(keys.take(dump.cursor.next as int) =~= keys);
        assert(dumped::<RotondaPaMap>(rib.unicast@, keys, u));
    }
    Ghost(u)
}

/// What waits and what was sent, after a step that adds some routes.
proof fn lemma_books(
    pending: Multiset<AggRoute>,
    after: Multiset<AggRoute>,
    sent: Multiset<AggRoute>,
    out: Multiset<AggRoute>,
    first: Multiset<AggRoute>,
    done: Multiset<AggRoute>,
    more: Multiset<AggRoute>,
)
    requires
        pending.add(sent) == first.add(done),
        after.add(out) == pending.add(more),
    ensures
        after.add(sent.add(out)) == first.add(done.add(more)),
{
    assert(after.add(sent.add(out)) =~= after.add(out).add(sent));
    assert(pending.add(more).add(sent) =~= pending.add(sent).add(more));
    assert(first.add(done).add(more) =~= first.add(done.add(more)));
}

/// One more chunk of rules was walked.
proof fn lemma_rules_step(
    d0: TableDump,
    d1: TableDump,
    rib: Rib,
    options: EmitOptions,
    now: Timestamp,
    before: Seq<DumpMessage>,
    out: Seq<DumpMessage>,
    first: Multiset<AggRoute>,
    adds: Seq<Addition>,
    f: Seq<PrefixRecord<FlowSpecRuleSet>>,
) -> (chunk: Seq<PrefixRecord<FlowSpecRuleSet>>)
    requires
        in_order(d0, rib.ingress_register@, options, now, before),
        d1.came_from(d0, rib.ingress_register@, options, now, out),
        d0.rules_told(d1, &rib, out),
        d1.cursor.keys@ == d0.cursor.keys@,
        d1.cursor.next == d0.cursor.chunk_end(),
        distinct_keys(d0.cursor.keys@),
        d0.cursor.next <= d0.cursor.keys@.len(),
        only_peers(d0, rib.ingress_register@),
        evpns(before) == Seq::<(IngressId, Seq<u8>)>::empty(),
        dumped::<FlowSpecRuleSet>(rib.flowspec@, d0.cursor.keys@.take(d0.cursor.next as int), f),
        packed_so_far(d0, before, adds + rule_adds(Map::empty(), rib.ingress_register@, f)),
        d0.aggregator.pending().add(carried(before)) == first.add(
            rule_routes(Map::empty(), rib.ingress_register@, f),
        ),
    ensures
        in_order(d1, rib.ingress_register@, options, now, before + out),
        only_peers(d1, rib.ingress_register@),
        evpns(before + out) == Seq::<(IngressId, Seq<u8>)>::empty(),
        dumped::<FlowSpecRuleSet>(rib.flowspec@, d1.cursor.keys@.take(d1.cursor.next as int), f + chunk),
        packed_so_far(d1, before + out, adds + rule_adds(Map::empty(), rib.ingress_register@, f + chunk)),
        d1.aggregator.pending().add(carried(before + out)) == first.add(
            rule_routes(Map::empty(), rib.ingress_register@, f + chunk),
        ),
{
    let infos = rib.ingress_register@;
    let keys = d0.cursor.keys@;
    let from = d0.cursor.next as int;
    let to = d0.cursor.chunk_end();
    let part = keys.subrange(from, to);
    let chunk = choose|chunk: Seq<PrefixRecord<FlowSpecRuleSet>>|
        {
            &&& #[trigger] dumped::<FlowSpecRuleSet>(rib.flowspec@, part, chunk)
            &&& d1.aggregator.pending().add(carried(out)) == d0.aggregator.pending().add(
                rule_routes(d0.met(), infos, chunk),
            )
            &&& ran(d0.aggregator, d1.aggregator, rule_adds(d0.met(), infos, chunk), out)
        };
    assert(keys.take(from) + part =~= keys.take(to));
    lemma_distinct_take(keys, to);
    chunks_add_up::<FlowSpecRuleSet>(rib.flowspec@, keys.take(from), part, f, chunk);
    lemma_walk_step(d0, d1, infos, options, now, before, out);
    lemma_concat(before, out);
    lemma_willing(d0, infos);
    lemma_same_rule_routes(d0.met(), Map::empty(), infos, chunk);
    lemma_rule_routes_concat(Map::empty(), infos, f, chunk);
    lemma_rules_packed(d0, d1, infos, before, out, adds, f, chunk);
    lemma_books(
        d0.aggregator.pending(),
        d1.aggregator.pending(),
        carried(before),
        carried(out),
        first,
        rule_routes(Map::empty(), infos, f),
        rule_routes(Map::empty(), infos, chunk),
    );
    chunk
}

/// The rules of a dump.
fn run_rules(
    dump: &mut TableDump,
    client: &mut ClientState,
    rib: &Rib,
    options: EmitOptions,
    now: Timestamp,
    all: &mut Vec<DumpMessage>,
    adds: Ghost<Seq<Addition>>,
) -> (f: Ghost<Seq<PrefixRecord<FlowSpecRuleSet>>>)
    requires
        in_order(*old(dump), rib.ingress_register@, options, now, old(all)@),
        old(dump).stage is FlowSpec,
        at_the_start(old(dump).cursor, rib.flowspec@),
        packed_so_far(*old(dump), old(all)@, adds@),
        only_peers(*old(dump), rib.ingress_register@),
        evpns(old(all)@) == Seq::<(IngressId, Seq<u8>)>::empty(),
        old(client).wf(),
        rib.wf(),
        old(all)@.len() > 0,
    ensures
        in_order(*final(dump), rib.ingress_register@, options, now, final(all)@),
        final(dump).peers == old(dump).peers,
        final(dump).stage is FlowSpec,
        final(dump).cursor.next >= final(dump).cursor.keys@.len(),
        evpns(final(all)@) == Seq::<(IngressId, Seq<u8>)>::empty(),
        final(client).wf(),
        final(client)@ == old(client)@,
        is_whole::<FlowSpecRuleSet>(rib.flowspec@, f@),
        packed_so_far(*final(dump), final(all)@, adds@ + rule_adds(Map::empty(), rib.ingress_register@, f@)),
        final(dump).aggregator.pending().add(carried(final(all)@)) == old(dump).aggregator.pending().add(
            carried(old(all)@),
        ).add(rule_routes(Map::empty(), rib.ingress_register@, f@)),
        final(all)@.len() > 0,
        final(all)@[0] == old(all)@[0],
{
    let ghost infos = rib.ingress_register@;
    let ghost keys = dump.cursor.keys@;
    let ghost first = dump.aggregator.pending().add(carried(all@));
    let ghost mut f: Seq<PrefixRecord<FlowSpecRuleSet>> = Seq::empty();
    proof {
        assert(first.add(rule_routes(Map::empty(), infos, f)) =~= first);
        assert(adds@ + rule_adds(Map::empty(), infos, f) =~= adds@);
        assert(keys.take(0) =~= Seq::empty());
    }
    while !dump.cursor.done()
        invariant
            in_order(*dump, rib.ingress_register@, options, now, all@),
            dump.peers == old(dump).peers,
            dump.stage is FlowSpec,
            dump.cursor.keys@ == keys,
            distinct_keys(keys),
            dump.cursor.next <= keys.len(),
            only_peers(*dump, infos),
            infos == rib.ingress_register@,
            evpns(all@) == Seq::<(IngressId, Seq<u8>)>::empty(),
            client.wf(),
            client@ == old(client)@,
            rib.wf(),
            dumped::<FlowSpecRuleSet>(rib.flowspec@, keys.take(dump.cursor.next as int), f),
            packed_so_far(*dump, all@, adds@ + rule_adds(Map::empty(), infos, f)),
            dump.aggregator.pending().add(carried(all@)) == first.add(rule_routes(Map::empty(), infos, f)),
            all@.len() > 0,
            all@[0] == old(all)@[0],
        decreases keys.len() - dump.cursor.next,
    {
        let ghost d0 = *dump;
        let ghost before = all@;
        let out = dump.step_at(client, rib, options, now);
        append(all, out);
        proof {
            let chunk = lemma_rules_step(d0, *dump, *rib, options, now, before, out@, first, adds@, f);
            f = f + chunk;
            assert(all@[0] == before[0]);
        }
    }
    proof {
        assert(keys.take(dump.cursor.next as int) =~= keys);
        assert(dumped::<FlowSpecRuleSet>(rib.flowspec@, keys, f));
    }
    Ghost(f)
}

/// One more EVPN route was walked.
proof fn lemma_evpn_walked(
    d0: TableDump,
    d1: TableDump,
    client: ClientView,
    client_after: ClientView,
    rib: Rib,
    options: EmitOptions,
    now: Timestamp,
    before: Seq<DumpMessage>,
    out: Seq<DumpMessage>,
    adds: Seq<Addition>,
)
    requires
        in_order(d0, rib.ingress_register@, options, now, before),
        d0.stage is Evpn,
        d0.next < d0.evpn@.len(),
        d1.wf(),
        d0.stepped(d1, client, client_after, &rib, options, now, out),
        packed_so_far(d0, before, adds),
        evpn_all_told(rib.ingress_register@, options, now, d0.evpn@.take(d0.next as int), evpns(before)),
    ensures
        in_order(d1, rib.ingress_register@, options, now, before + out),
        packed_so_far(d1, before + out, adds),
        evpn_all_told(rib.ingress_register@, options, now, d0.evpn@.take(d0.next + 1), evpns(before + out)),
        carried(before + out) == carried(before),
{
    let infos = rib.ingress_register@;
    let recs = d0.evpn@;
    let k = d0.next as int;
    let all = before + out;
    lemma_evpn_step(d0.met(), d1.met(), infos, options, now, recs[k], out, recs.take(k), evpns(before));
    assert(recs.take(k).push(recs[k]) =~= recs.take(k + 1));
    lemma_concat(before, out);
    assert(carried(before).add(Multiset::empty()) =~= carried(before));
    assert forall|i: int| 0 <= i < out.len() && !((#[trigger] out[i]) is PeerUp) implies match out[i].peer() {
        Some(id) => ups(before).contains(id) || ups(out.take(i)).contains(id),
        None => true,
    } by {
        match out[i].peer() {
            Some(id) => {
                if d0.met().contains_key(id) {
                    lemma_met_is_up(d0, before, id);
                }
            },
            None => {},
        }
    }
    lemma_ordered_concat(before, out);
    lemma_no_markers(before, out);
    lemma_packed_same(d0, d1, before, out, adds);
    lemma_evpn_well_told(d0, d1, infos, options, now, recs[k], before, out);
    assert(ups(all) =~= d1.peers@ + d1.discovered@);
}

/// The EVPN routes of a dump.
fn run_evpn(
    dump: &mut TableDump,
    client: &mut ClientState,
    rib: &Rib,
    options: EmitOptions,
    now: Timestamp,
    all: &mut Vec<DumpMessage>,
    adds: Ghost<Seq<Addition>>,
)
    requires
        packed_so_far(*old(dump), old(all)@, adds@),
        in_order(*old(dump), rib.ingress_register@, options, now, old(all)@),
        old(dump).stage is Evpn,
        old(dump).next == 0,
        evpns(old(all)@) == Seq::<(IngressId, Seq<u8>)>::empty(),
        old(client).wf(),
        rib.wf(),
        old(all)@.len() > 0,
    ensures
        in_order(*final(dump), rib.ingress_register@, options, now, final(all)@),
        final(dump).peers == old(dump).peers,
        final(dump).stage is Evpn,
        packed_so_far(*final(dump), final(all)@, adds@),
        final(dump).next >= final(dump).evpn@.len(),
        final(dump).evpn == old(dump).evpn,
        evpn_all_told(rib.ingress_register@, options, now, final(dump).evpn@, evpns(final(all)@)),
        final(client).wf(),
        final(client)@ == old(client)@,
        final(dump).aggregator.pending() == old(dump).aggregator.pending(),
        carried(final(all)@) == carried(old(all)@),
        final(all)@.len() > 0,
        final(all)@[0] == old(all)@[0],
{
    let ghost infos = rib.ingress_register@;
    let ghost recs = dump.evpn@;
    assert(recs.take(0) =~= Seq::empty());
    while dump.next < dump.evpn.len()
        invariant
            in_order(*dump, rib.ingress_register@, options, now, all@),
            dump.peers == old(dump).peers,
            dump.stage is Evpn,
            packed_so_far(*dump, all@, adds@),
            dump.next <= recs.len(),
            recs == dump.evpn@,
            dump.evpn == old(dump).evpn,
            infos == rib.ingress_register@,
            evpn_all_told(infos, options, now, recs.take(dump.next as int), evpns(all@)),
            client.wf(),
            client@ == old(client)@,
            rib.wf(),
            dump.aggregator.pending() == old(dump).aggregator.pending(),
            carried(all@) == carried(old(all)@),
            all@.len() > 0,
            all@[0] == old(all)@[0],
        decreases recs.len() - dump.next,
    {
        let ghost d0 = *dump;
        let ghost before = all@;
        let ghost known = client@;
        let out = dump.step_at(client, rib, options, now);
        append(all, out);
        proof {
            lemma_evpn_walked(d0, *dump, known, client@, *rib, options, now, before, out@, adds@);
            assert(all@[0] == before[0]);
        }
    }
    assert(recs.take(dump.next as int) =~= recs);
}

/// The routes that wait at the end of a dump.
fn run_flush(
    dump: &mut TableDump,
    client: &mut ClientState,
    rib: &Rib,
    options: EmitOptions,
    now: Timestamp,
    all: &mut Vec<DumpMessage>,
    adds: Ghost<Seq<Addition>>,
)
    requires
        packed_so_far(*old(dump), old(all)@, adds@),
        in_order(*old(dump), rib.ingress_register@, options, now, old(all)@),
        old(dump).stage is Flush,
        old(client).wf(),
        rib.wf(),
        old(all)@.len() > 0,
    ensures
        in_order(*final(dump), rib.ingress_register@, options, now, final(all)@),
        final(dump).peers == old(dump).peers,
        final(dump).discovered == old(dump).discovered,
        final(dump).stage is EndOfRib,
        final(dump).next == 0,
        evpns(final(all)@) == evpns(old(all)@),
        final(client).wf(),
        final(client)@ == old(client)@,
        carried(final(all)@) == old(dump).aggregator.pending().add(carried(old(all)@)),
        well_packed(adds@, DUMP_AGGREGATOR_MAX_BYTES as int, routes_sent(final(all)@)),
        final(all)@.len() > 0,
        final(all)@[0] == old(all)@[0],
{
    let ghost d0 = *dump;
    let ghost before = all@;
    let out = dump.step_at(client, rib, options, now);
    append(all, out);
    proof {
        lemma_concat(before, out@);
        lemma_all_routes(out@);
        lemma_packed_all(d0, before, out@, adds@);
        assert(before + out@ == all@);
        assert(ups(before) + ups(out@) =~= ups(before));
        assert(evpns(before) + evpns(out@) =~= evpns(before));
        assert(carried(before).add(carried(out@)) =~= carried(out@).add(carried(before)));
        assert forall|i: int| 0 <= i < out@.len() && !((#[trigger] out@[i]) is PeerUp) implies match out@[i].peer() {
            Some(id) => ups(before).contains(id) || ups(out@.take(i)).contains(id),
            None => true,
        } by {
            assert(sound(d0.met(), out@[i], now));
            match out@[i].peer() {
                Some(id) => {
                    lemma_met_is_up(d0, before, id);
                },
                None => {},
            }
        }
        lemma_ordered_concat(before, out@);
        assert(no_markers(out@)) by {
            assert forall|i: int| 0 <= i < out@.len() implies !((#[trigger] out@[i]) is EndOfRib) by {
                assert(out@[i] is Routes);
            }
        }
        lemma_no_markers(before, out@);
        assert forall|i: int| 0 <= i < all@.len() implies well_told(
            dump.met(),
            dump.peers@,
            now,
            #[trigger] all@[i],
        ) by {
            if i < before.len() {
                assert(all@[i] == before[i]);
            } else {
                assert(all@[i] == out@[i - before.len()]);
                assert(sound(d0.met(), out@[i - before.len()], now));
            }
        }
        assert(all@[0] == before[0]);
    }
}

/// Messages that only announce prefixes and rules.
proof fn lemma_all_routes(msgs: Seq<DumpMessage>)
    requires
        forall|i: int| 0 <= i < msgs.len() ==> (#[trigger] msgs[i]) is Routes,
    ensures
        ups(msgs) == Seq::<IngressId>::empty(),
        evpns(msgs) == Seq::<(IngressId, Seq<u8>)>::empty(),
    decreases msgs.len(),
{
    if msgs.len() > 0 {
        assert(msgs[msgs.len() - 1] is Routes);
        assert forall|i: int| 0 <= i < msgs.drop_last().len() implies (#[trigger] msgs.drop_last()[i]) is Routes by {
            assert(msgs.drop_last()[i] == msgs[i]);
        }
        lemma_all_routes(msgs.drop_last());
    }
}

/// The End-of-RIB markers of a dump.
fn run_markers(
    dump: &mut TableDump,
    client: &mut ClientState,
    rib: &Rib,
    options: EmitOptions,
    now: Timestamp,
) -> (tail: Vec<DumpMessage>)
    requires
        old(dump).wf(),
        old(dump).stage is EndOfRib,
        old(dump).next == 0,
        old(client).wf(),
        rib.wf(),
    ensures
        final(dump).wf(),
        final(dump).same_but_for_place(*old(dump)),
        final(dump).stage is Done,
        final(client).wf(),
        final(client)@ == knowing_all(old(client)@, final(dump).discovered@),
        are_markers(tail@, all_markers(final(dump).met(), final(dump).peers@ + final(dump).discovered@, now)),
{
    let ghost v = client@;
    let ghost peers = dump.peers@;
    let ghost found = dump.discovered@;
    let ghost met = dump.met();
    let mut tail: Vec<DumpMessage> = Vec::new();
    assert(peers.take(0) =~= Seq::empty());
    while dump.next < dump.peers.len()
        invariant
            dump.wf(),
            dump.stage is EndOfRib,
            dump.next <= peers.len(),
            dump.same_but_for_place(*old(dump)),
            peers == dump.peers@,
            found == dump.discovered@,
            met == dump.met(),
            client.wf(),
            client@ == v,
            rib.wf(),
            are_markers(tail@, all_markers(met, peers.take(dump.next as int), now)),
        decreases peers.len() - dump.next,
    {
        let ghost before = tail@;
        let ghost k = dump.next as int;
        let out = dump.step_at(client, rib, options, now);
        append(&mut tail, out);
        proof {
            lemma_all_markers_push(met, peers.take(k), peers[k], now);
            assert(peers.take(k).push(peers[k]) =~= peers.take(k + 1));
            lemma_are_markers_concat(
                before,
                out@,
                all_markers(met, peers.take(k), now),
                peer_markers(peers[k], met[peers[k]], now),
            );
        }
    }
    dump.step_at(client, rib, options, now);
    proof {
        assert(peers.take(peers.len() as int) =~= peers);
        assert(peers + found.take(0) =~= peers);
        assert(found.take(0).to_set() =~= Set::empty());
        assert(v.known.union(Set::empty()) =~= v.known);
    }
    while dump.next < dump.discovered.len()
        invariant
            dump.wf(),
            dump.stage is Discovered,
            dump.next <= found.len(),
            dump.same_but_for_place(*old(dump)),
            peers == dump.peers@,
            found == dump.discovered@,
            met == dump.met(),
            client.wf(),
            client@ == knowing_all(v, found.take(dump.next as int)),
            rib.wf(),
            are_markers(tail@, all_markers(met, peers + found.take(dump.next as int), now)),
        decreases found.len() - dump.next,
    {
        let ghost before = tail@;
        let ghost k = dump.next as int;
        let ghost known = client@;
        let out = dump.step_at(client, rib, options, now);
        append(&mut tail, out);
        proof {
            let id = found[k];
            lemma_all_markers_push(met, peers + found.take(k), id, now);
            assert((peers + found.take(k)).push(id) =~= peers + found.take(k + 1));
            lemma_are_markers_concat(
                before,
                out@,
                all_markers(met, peers + found.take(k), now),
                peer_markers(id, met[id], now),
            );
            assert(found.take(k).push(id) =~= found.take(k + 1));
            lemma_to_set_push(found.take(k), id);
            assert(known.knowing(id).known =~= v.known.union(found.take(k + 1).to_set()));
        }
    }
    dump.step_at(client, rib, options, now);
    assert(found.take(found.len() as int) =~= found);
    tail
}

/// A stage that has nothing left to tell gives way to the next one.
fn next_stage(
    dump: &mut TableDump,
    client: &mut ClientState,
    rib: &Rib,
    options: EmitOptions,
    now: Timestamp,
    all: &Vec<DumpMessage>,
    adds: Ghost<Seq<Addition>>,
)
    requires
        in_order(*old(dump), rib.ingress_register@, options, now, all@),
        packed_so_far(*old(dump), all@, adds@),
        old(client).wf(),
        rib.wf(),
        match old(dump).stage {
            DumpStage::Unicast | DumpStage::FlowSpec => old(dump).cursor.next >= old(dump).cursor.keys@.len(),
            DumpStage::Evpn => old(dump).next >= old(dump).evpn@.len(),
            _ => false,
        },
    ensures
        in_order(*final(dump), rib.ingress_register@, options, now, all@),
        packed_so_far(*final(dump), all@, adds@),
        final(dump).same_but_for_place(*old(dump)),
        final(client).wf(),
        final(client)@ == old(client)@,
        match old(dump).stage {
            DumpStage::Unicast => final(dump).stage is FlowSpec && at_the_start(final(dump).cursor, rib.flowspec@),
            DumpStage::FlowSpec => final(dump).stage is Evpn && final(dump).next == 0 && evpn_listed(
                rib.evpn@,
                final(dump).evpn@,
            ),
            _ => final(dump).stage is Flush,
        },
{
    let ghost d0 = *dump;
    dump.step_at(client, rib, options, now);
    proof {
        lemma_packed_same(d0, *dump, all@, Seq::empty(), adds@);
        assert(all@ + Seq::<DumpMessage>::empty() =~= all@);
    }
}

/// A dump up to the End-of-RIB markers.
#[verifier::rlimit(30)]
fn run_head(
    dump: &mut TableDump,
    client: &mut ClientState,
    rib: &Rib,
    options: EmitOptions,
    now: Timestamp,
    all: &mut Vec<DumpMessage>,
) -> (r: Ghost<
    (Seq<PrefixRecord<RotondaPaMap>>, Seq<PrefixRecord<FlowSpecRuleSet>>, Seq<EvpnRecord>),
>)
    requires
        old(dump).wf(),
        old(dump).stage is PeerUps,
        old(dump).next == 0,
        old(dump).discovered@.len() == 0,
        old(dump).aggregator.pending() == Multiset::<AggRoute>::empty(),
        old(dump).aggregator.packing() == nothing_open(),
        old(dump).aggregator.max_bytes == DUMP_AGGREGATOR_MAX_BYTES,
        only_peers(*old(dump), rib.ingress_register@),
        all_shown(rib.ingress_register@, options, old(dump).met()),
        old(client).wf(),
        rib.wf(),
        old(all)@.len() == 1,
        old(all)@[0] is Initiation,
    ensures
        in_order(*final(dump), rib.ingress_register@, options, now, final(all)@),
        final(dump).peers == old(dump).peers,
        final(dump).stage is EndOfRib,
        final(dump).next == 0,
        final(client).wf(),
        final(client)@ == knowing_all(old(client)@, final(dump).peers@),
        is_whole::<RotondaPaMap>(rib.unicast@, r@.0),
        is_whole::<FlowSpecRuleSet>(rib.flowspec@, r@.1),
        carried(final(all)@) == owed(rib.ingress_register@, r@.0, r@.1),
        well_packed(
            all_adds(rib.ingress_register@, r@.0, r@.1),
            DUMP_AGGREGATOR_MAX_BYTES as int,
            routes_sent(final(all)@),
        ),
        evpn_listed(rib.evpn@, r@.2),
        evpn_all_told(rib.ingress_register@, options, now, r@.2, evpns(final(all)@)),
        final(all)@.len() > 0,
        final(all)@[0] == old(all)@[0],
{
    run_peer_ups(dump, client, rib, options, now, all);
    dump.step_at(client, rib, options, now);
    proof {
        lemma_packed_nothing(*dump, all@);
    }
    let u = run_prefixes(dump, client, rib, options, now, all);
    let ghost first = prefix_adds(Map::empty(), rib.ingress_register@, u@);
    next_stage(dump, client, rib, options, now, all, Ghost(first));
    let f = run_rules(dump, client, rib, options, now, all, Ghost(first));
    let ghost adds = all_adds(rib.ingress_register@, u@, f@);
    next_stage(dump, client, rib, options, now, all, Ghost(adds));
    let ghost recs = dump.evpn@;
    run_evpn(dump, client, rib, options, now, all, Ghost(adds));
    next_stage(dump, client, rib, options, now, all, Ghost(adds));
    run_flush(dump, client, rib, options, now, all, Ghost(adds));
    assert(carried(all@) =~= owed(rib.ingress_register@, u@, f@));
    Ghost((u@, f@, recs))
}

/// The End-of-RIB markers complete a dump.
proof fn lemma_finish(
    d: TableDump,
    infos: Map<IngressId, IngressInfo>,
    options: EmitOptions,
    now: Timestamp,
    head: Seq<DumpMessage>,
    tail: Seq<DumpMessage>,
)
    requires
        in_order(d, infos, options, now, head),
        are_markers(tail, all_markers(d.met(), d.peers@ + d.discovered@, now)),
    ensures
        ups(head + tail) == d.peers@ + d.discovered@,
        ordered(head + tail),
        carried(head + tail) == carried(head),
        evpns(head + tail) == evpns(head),
        routes_sent(head + tail) == routes_sent(head),
        split_at_markers(d, now, head + tail, head.len() as int),
        all_well_told(d.met(), d.peers@, now, head + tail),
{
    let ids = d.peers@ + d.discovered@;
    lemma_concat(head, tail);
    lemma_markers_tell_nothing(tail, all_markers(d.met(), ids, now));
    assert(ups(head) + ups(tail) =~= ups(head));
    assert(evpns(head) + evpns(tail) =~= evpns(head));
    assert(routes_sent(head) + routes_sent(tail) =~= routes_sent(head));
    assert(carried(head).add(carried(tail)) =~= carried(head));
    assert forall|i: int| 0 <= i < tail.len() && !((#[trigger] tail[i]) is PeerUp) implies match tail[i].peer() {
        Some(id) => ups(head).contains(id) || ups(tail.take(i)).contains(id),
        None => true,
    } by {
        lemma_marker_peers(d.met(), ids, now, i);
    }
    lemma_ordered_concat(head, tail);
    assert((head + tail).take(head.len() as int) =~= head);
    assert((head + tail).skip(head.len() as int) =~= tail);
    assert forall|i: int| 0 <= i < (head + tail).len() implies well_told(
        d.met(),
        d.peers@,
        now,
        #[trigger] (head + tail)[i],
    ) by {
        if i < head.len() {
            assert((head + tail)[i] == head[i]);
        } else {
            assert((head + tail)[i] == tail[i - head.len()]);
        }
    }
}

/// Who knows some peers, and then some more, knows all of them.
proof fn lemma_knowing_both(v: ClientView, a: Seq<IngressId>, b: Seq<IngressId>)
    ensures
        knowing_all(knowing_all(v, a), b) == knowing_all(v, a + b),
{
    assert forall|x: IngressId| (a + b).to_set().contains(x) == (a.to_set().contains(x) || b.to_set().contains(x)) by {
        if a.contains(x) {
            let k = choose|k: int| 0 <= k < a.len() && a[k] == x;
            assert((a + b)[k] == x);
        }
        if b.contains(x) {
            let k = choose|k: int| 0 <= k < b.len() && b[k] == x;
            assert((a + b)[a.len() + k] == x);
        }
    }
    assert(v.known.union(a.to_set()).union(b.to_set()) =~= v.known.union((a + b).to_set()));
}

/// The whole dump to a client, at a given time, and the updates that waited
/// meanwhile, to be sent in this order.
pub fn perform_initial_dump_at(
    client: &mut ClientState,
    rib: &Rib,
    sys_name: &str,
    sys_descr: &str,
    options: EmitOptions,
    now: Timestamp,
) -> (r: (TableDump, Vec<DumpMessage>, Vec<Update>))
    requires
        old(client).wf(),
        rib.wf(),
    ensures
        final(client).wf(),
        whole_dump(rib, options, now, sys_name@, sys_descr@, old(client)@, final(client)@, r.0, r.1@, r.2@),
{
    let ghost infos = rib.ingress_register@;
    let ghost v = client@;
    let (mut dump, initiation) = TableDump::start(rib, sys_name, sys_descr, options);
    let mut all: Vec<DumpMessage> = Vec::new();
    all.push(initiation);
    proof {
        lemma_begins_with_peers(dump, infos);
    }
    let shown = run_head(&mut dump, client, rib, options, now, &mut all);
    let ghost head = all@;
    let ghost d = dump;
    let tail = run_markers(&mut dump, client, rib, options, now);
    append(&mut all, tail);
    proof {
        assert(dump.met() == d.met());
        lemma_finish(d, infos, options, now, head, tail@);
        lemma_knowing_both(v, dump.peers@, dump.discovered@);
        assert(all@[0] == head[0]);
        assert(split_at_markers(dump, now, all@, head.len() as int));
        assert(is_whole::<RotondaPaMap>(rib.unicast@, shown@.0));
        assert(is_whole::<FlowSpecRuleSet>(rib.flowspec@, shown@.1));
        assert(evpn_listed(rib.evpn@, shown@.2));
    }
    let waited = client.take_buffered_updates();
    (dump, all, waited)
}

/// A dump begins with peers.
proof fn lemma_begins_with_peers(d: TableDump, infos: Map<IngressId, IngressInfo>)
    requires
        d.wf(),
        enumerated(infos, d.peers@),
        d.discovered@.len() == 0,
    ensures
        only_peers(d, infos),
{
    assert forall|id: IngressId| #[trigger] d.met().contains_key(id) implies is_peer(infos, id) by {
        assert(d.met().dom().contains(id));
        assert(d.peers@ + d.discovered@ =~= d.peers@);
        let k = choose|k: int| 0 <= k < d.peers@.len() && d.peers@[k] == id;
        assert(is_enumerated(infos, d.peers@[k]));
    }
}

/// The whole dump to a client, and the updates that waited meanwhile, to be
/// sent in this order.
pub fn perform_initial_dump(
    client: &mut ClientState,
    rib: &Rib,
    sys_name: &str,
    sys_descr: &str,
    options: EmitOptions,
) -> (r: (TableDump, Vec<DumpMessage>, Vec<Update>))
    requires
        old(client).wf(),
        rib.wf(),
    ensures
        final(client).wf(),
        exists|now: Timestamp| #[trigger]
            whole_dump(rib, options, now, sys_name@, sys_descr@, old(client)@, final(client)@, r.0, r.1@, r.2@),
{
    let now = current_time();
    perform_initial_dump_at(client, rib, sys_name, sys_descr, options, now)
}

} // verus!
