//! What holds of aggregation over any sequence of routes: each is sent once,
//! and the message of a group holds just what was put into the group.
use vstd::multiset::Multiset;
use vstd::prelude::*;

use crate::aggregator::{
    base_len_of, carried_routes, group_update, item_bytes, item_fits, item_len, items_bytes, items_len, lemma_carried_concat,
    lemma_group_update_len, prefix_sendable,
    rule_sendable, single_update, AggGroup, AggItem, AggMessage, AggRoute, GroupKey, NlriView, RouteAggregator,
};
use crate::bmp_builder::{flowspec_nlri_bytes, per_peer_header, route_monitoring_bytes, PeerInfo, Timestamp,
    MAX_BGP_UPDATE_LEN,
};
use crate::packing::{all_sent, carry_groups, item_views, sent_ids, ItemView, Sent};
use crate::pamap::{attr_blob, kept_attrs};
use crate::types::{IngressId, PrefixKey};
use crate::wire::{be16, bgp_length_field_is_message_length, extended_attr_bytes, get16, update_body_bytes, update_bytes};

verus! {

/// A FlowSpec rule as it is put into a group: its path id and its components.
pub type PushedRule = (Option<u32>, Seq<u8>);

/// Rules as NLRI, one after the other.
pub open spec fn rules_bytes(rules: Seq<PushedRule>) -> Seq<u8>
    decreases rules.len(),
{
    if rules.len() == 0 {
        Seq::empty()
    } else {
        rules_bytes(rules.drop_last()) + flowspec_nlri_bytes(rules.last().1, rules.last().0)
    }
}

/// The UPDATE that announces rules: one attribute holds them all, in order,
/// with no next hop.
pub open spec fn rules_update(is_v4: bool, raw: Seq<u8>, rules: Seq<PushedRule>) -> Seq<u8> {
    update_bytes(
        Seq::empty(),
        kept_attrs(attr_blob(raw)) + extended_attr_bytes(
            14,
            be16(
                if is_v4 {
                    1
                } else {
                    2
                },
            ) + seq![133u8, 0u8, 0u8] + rules_bytes(rules),
        ),
        Seq::empty(),
    )
}

/// The key of a group of rules.
pub open spec fn rules_key(id: IngressId, is_v4: bool, has_path_id: bool) -> GroupKey {
    GroupKey { ingress_id: id, is_v4, has_path_id, flowspec: true }
}

/// Rules as the routes of a group.
pub open spec fn rule_views(rules: Seq<PushedRule>) -> Seq<ItemView> {
    rules.map_values(|x: PushedRule| (x.0, NlriView::Rule(x.1)))
}

/// Whether one rule after the other was put into a group, and nothing was
/// sent meanwhile.
pub open spec fn pushed(states: Seq<RouteAggregator>, key: GroupKey, raw: Seq<u8>, rules: Seq<PushedRule>) -> bool {
    &&& states.len() == rules.len() + 1
    &&& forall|i: int|
        0 <= i < rules.len() ==> states[i].took(
            states[i + 1],
            key,
            raw,
            ((#[trigger] rules[i]).0, NlriView::Rule(rules[i].1)),
            true,
            Seq::empty(),
        )
}

/// Whether a message is a route monitoring message with the UPDATE for these
/// rules.
pub open spec fn tells_rules(m: AggMessage, peer: PeerInfo, now: Timestamp, is_v4: bool, raw: Seq<u8>, rules: Seq<
    PushedRule,
>) -> bool {
    let update = rules_update(is_v4, raw, rules);
    &&& m.items@.len() == rules.len()
    &&& m.bytes@ == route_monitoring_bytes(peer, now, update)
    &&& m.bytes@.skip(48) == update
    &&& get16(update, 16) == update.len()
    &&& update.len() <= MAX_BGP_UPDATE_LEN
}

/// The NLRI of items are those of the rules that they stand for.
proof fn lemma_rules_bytes(items: Seq<AggItem>, rules: Seq<PushedRule>)
    requires
        item_views(items) == rule_views(rules),
    ensures
        items_bytes(items) == rules_bytes(rules),
    decreases items.len(),
{
    assert(item_views(items).len() == items.len() && rule_views(rules).len() == rules.len());
    if items.len() > 0 {
        let n = items.len() - 1;
        assert(item_views(items)[n] == rule_views(rules)[n]);
        assert(item_views(items.drop_last()) =~= item_views(items).drop_last());
        assert(rule_views(rules.drop_last()) =~= rule_views(rules).drop_last());
        lemma_rules_bytes(items.drop_last(), rules.drop_last());
        assert(items.last().path_id == rules.last().0 && items.last().nlri@ == NlriView::Rule(rules.last().1));
        assert(item_bytes(items.last().path_id, items.last().nlri@) == flowspec_nlri_bytes(
            rules.last().1,
            rules.last().0,
        ));
        assert(items_bytes(items) == items_bytes(items.drop_last()) + item_bytes(
            items.last().path_id,
            items.last().nlri@,
        ));
    }
}

/// What is in the group after some rules.
proof fn lemma_pushed(
    states: Seq<RouteAggregator>,
    key: GroupKey,
    raw: Seq<u8>,
    rules: Seq<PushedRule>,
    n: int,
)
    requires
        pushed(states, key, raw, rules),
        !states[0].packing().open.contains_key((key, attr_blob(raw))),
        0 <= n <= rules.len(),
    ensures
        states[n].packing().items((key, attr_blob(raw))) == rule_views(rules.take(n)),
        states[n].packing().open.contains_key((key, attr_blob(raw))) == (n > 0),
        n == 1 ==> base_len_of(key, raw) + item_len(rules[0].0 is Some, NlriView::Rule(rules[0].1))
            <= MAX_BGP_UPDATE_LEN,
    decreases n,
{
    let id = (key, attr_blob(raw));
    if n == 0 {
        assert(rule_views(rules.take(0)) =~= Seq::empty());
    } else {
        lemma_pushed(states, key, raw, rules, n - 1);
        let rule = rules[n - 1];
        let item = (rule.0, NlriView::Rule(rule.1));
        let before = states[n - 1];
        assert(before.took(states[n - 1 + 1], key, raw, item, true, Seq::empty()));
        let nothing = all_sent(Seq::<AggMessage>::empty());
        assert(nothing =~= Seq::<Sent>::empty());
        let base = base_len_of(key, raw);
        let evictions = choose|evictions: int| #[trigger]
            before.packing().added(
                states[n].packing(),
                id,
                base,
                item,
                true,
                before.max_bytes as int,
                nothing,
                evictions,
            );
        let len = item_len(item.0 is Some, item.1);
        let (p, rest, first) = before.packing().room_made(id, base, len);
        assert(first.len() == 0) by {
            assert(first.is_prefix_of(nothing) || first.len() <= nothing.len());
        }
        let (w, sent) = before.packing().way_made(id);
        assert(sent.len() == 0);
        assert(w == before.packing());
        assert(rest == w.items(id));
        let full = p.with(id, rest.push(item));
        assert(states[n].packing() == full) by {
            assert(nothing.skip(0) =~= nothing);
        }
        assert(rules.take(n).drop_last() =~= rules.take(n - 1));
        assert(rule_views(rules.take(n)) =~= rule_views(rules.take(n - 1)).push(item));
    }
}

/// A rule is never longer as NLRI than it is taken to be, and just as long
/// where its length can be written.
proof fn lemma_rules_len(items: Seq<AggItem>, rules: Seq<PushedRule>)
    requires
        item_views(items) == rule_views(rules),
        forall|i: int| 0 <= i < rules.len() ==> (#[trigger] rules[i]).1.len() <= 4095,
    ensures
        items_bytes(items).len() == items_len(items),
    decreases items.len(),
{
    assert(item_views(items).len() == items.len() && rule_views(rules).len() == rules.len());
    if items.len() > 0 {
        let n = items.len() - 1;
        assert(item_views(items)[n] == rule_views(rules)[n]);
        assert(item_views(items.drop_last()) =~= item_views(items).drop_last());
        assert(rule_views(rules.drop_last()) =~= rule_views(rules).drop_last());
        assert forall|i: int| 0 <= i < rules.drop_last().len() implies (#[trigger] rules.drop_last()[i]).1.len()
            <= 4095 by {
            assert(rules.drop_last()[i] == rules[i]);
        }
        lemma_rules_len(items.drop_last(), rules.drop_last());
        assert(items.last().path_id == rules.last().0 && items.last().nlri@ == NlriView::Rule(rules.last().1));
        assert(rules[n].1.len() <= 4095);
    }
}

/// Whether one rule after the other was put into a group that had none.
pub open spec fn gathered(groups: Seq<AggGroup>, key: GroupKey, raw: Seq<u8>, rules: Seq<PushedRule>) -> bool {
    &&& groups.len() == rules.len() + 1
    &&& groups[0].fresh(key, raw)
    &&& forall|i: int|
        0 <= i < rules.len() ==> groups[i].grown(groups[i + 1], ((#[trigger] rules[i]).0, NlriView::Rule(rules[i].1)))
}

/// What is in a group after some rules.
proof fn lemma_gathered(groups: Seq<AggGroup>, key: GroupKey, raw: Seq<u8>, rules: Seq<PushedRule>, n: int)
    requires
        gathered(groups, key, raw, rules),
        0 <= n <= rules.len(),
    ensures
        groups[n].consistent(),
        groups[n].key == key,
        groups[n].raw@ == raw,
        item_views(groups[n].items@) == rule_views(rules.take(n)),
    decreases n,
{
    if n == 0 {
        assert(item_views(groups[0].items@) =~= rule_views(rules.take(0)));
    } else {
        lemma_gathered(groups, key, raw, rules, n - 1);
        let rule = rules[n - 1];
        assert(groups[n - 1].grown(groups[n - 1 + 1], (rule.0, NlriView::Rule(rule.1))));
        assert(rule_views(rules.take(n)) =~= rule_views(rules.take(n - 1)).push((rule.0, NlriView::Rule(rule.1))));
    }
}

/// A group of rules gives one message with just the rules that were put into
/// it, each once and in order, in one attribute without a next hop; without
/// rules it gives none. Its UPDATE is as long as the group takes it to be, and
/// its length field says so.
pub proof fn a_group_gives_its_rules_at_once(
    groups: Seq<AggGroup>,
    ingress_id: IngressId,
    is_v4: bool,
    has_path_id: bool,
    raw: Seq<u8>,
    rules: Seq<PushedRule>,
    peer: PeerInfo,
    now: Timestamp,
    r: Option<AggMessage>,
)
    requires
        gathered(groups, rules_key(ingress_id, is_v4, has_path_id), raw, rules),
        groups.last().emitted(peer, now, r),
    ensures
        rules.len() == 0 <==> r is None,
        r matches Some(m) ==> tells_rules(m, peer, now, is_v4, raw, rules),
        (forall|i: int| 0 <= i < rules.len() ==> (#[trigger] rules[i]).1.len() <= 4095) ==> rules_update(
            is_v4,
            raw,
            rules,
        ).len() == base_len_of(rules_key(ingress_id, is_v4, has_path_id), raw) + items_len(groups.last().items@),
{
    let key = rules_key(ingress_id, is_v4, has_path_id);
    let g = groups.last();
    lemma_gathered(groups, key, raw, rules, rules.len() as int);
    assert(rules.take(rules.len() as int) =~= rules);
    assert(item_views(g.items@).len() == rule_views(rules).len());
    lemma_rules_bytes(g.items@, rules);
    let update = rules_update(is_v4, raw, rules);
    assert(group_update(key, raw, g.items@) == update);
    lemma_group_update_len(key, raw, g.items@);
    if forall|i: int| 0 <= i < rules.len() ==> (#[trigger] rules[i]).1.len() <= 4095 {
        lemma_rules_len(g.items@, rules);
    }
    if r is Some {
        lemma_message_frame(peer, now, update);
        lemma_update_frame(Seq::empty(), kept_attrs(attr_blob(raw)) + extended_attr_bytes(
            14,
            be16(
                if is_v4 {
                    1
                } else {
                    2
                },
            ) + seq![133u8, 0u8, 0u8] + rules_bytes(rules),
        ), Seq::empty());
    }
}

/// The message of a group holds just the rules that were put into it, each
/// once and in order. A group that nothing was put into has none.
pub proof fn a_flowspec_group_sends_just_its_rules(
    states: Seq<RouteAggregator>,
    ingress_id: IngressId,
    is_v4: bool,
    has_path_id: bool,
    raw: Seq<u8>,
    rules: Seq<PushedRule>,
    r: Seq<AggMessage>,
    now: Timestamp,
)
    requires
        forall|i: int| 0 <= i < rules.len() ==> (#[trigger] rules[i]).0 is Some == has_path_id,
        pushed(states, rules_key(ingress_id, is_v4, has_path_id), raw, rules),
        !states[0].packing().open.contains_key((rules_key(ingress_id, is_v4, has_path_id), attr_blob(raw))),
        carry_groups(states.last().packing().open, all_sent(r)),
        sent_ids(all_sent(r)) == states.last().packing().open.dom(),
        states.last().all_announce(r, now),
    ensures
        rules.len() == 0 ==> forall|j: int|
            0 <= j < r.len() ==> (#[trigger] r[j]).sent().0 != (
                rules_key(ingress_id, is_v4, has_path_id),
                attr_blob(raw),
            ),
        rules.len() > 0 ==> exists|i: int|
            {
                &&& 0 <= i < r.len()
                &&& #[trigger] tells_rules(r[i], states.last().peer_info@[ingress_id], now, is_v4, raw, rules)
                &&& forall|j: int|
                    0 <= j < r.len() && j != i ==> (#[trigger] r[j]).sent().0 != (
                        rules_key(ingress_id, is_v4, has_path_id),
                        attr_blob(raw),
                    )
            },
{
    let key = rules_key(ingress_id, is_v4, has_path_id);
    let id = (key, attr_blob(raw));
    let last = states.last();
    let open = last.packing().open;
    let sent = all_sent(r);
    lemma_pushed(states, key, raw, rules, rules.len() as int);
    assert(rules.take(rules.len() as int) =~= rules);
    if rules.len() == 0 {
        assert forall|j: int| 0 <= j < r.len() implies (#[trigger] r[j]).sent().0 != id by {
            assert(sent[j] == r[j].sent());
            assert(open.contains_key(sent[j].0));
        }
    } else {
        assert(open.dom().contains(id));
        assert(sent_ids(sent).contains(id));
        let i = choose|i: int| 0 <= i < sent.len() && (#[trigger] sent[i]).0 == id;
        let m = r[i];
        assert(sent[i] == m.sent());
        assert(item_views(m.items@) == rule_views(rules));
        lemma_rules_bytes(m.items@, rules);
        let peer = last.peer_info@[ingress_id];
        assert(m.announces(peer, now));
        let update = choose|update: Seq<u8>|
            {
                &&& m.bytes@ == route_monitoring_bytes(peer, now, update)
                &&& #[trigger] update.len() <= MAX_BGP_UPDATE_LEN
                &&& update == group_update(m.key, m.raw@, m.items@) || m.items@.len() == 1
                    && base_len_of(m.key, m.raw@) + item_len(m.key.has_path_id, m.items@[0].nlri@)
                    > MAX_BGP_UPDATE_LEN && Some(update) == single_update(
                    m.key,
                    m.raw@,
                    m.items@[0],
                )
            };
        assert(item_views(m.items@).len() == rule_views(rules).len());
        if rules.len() == 1 {
            assert(item_views(m.items@)[0] == rule_views(rules)[0]);
            lemma_pushed(states, key, raw, rules, 1);
            assert(rules[0].0 is Some == has_path_id);
        }
        assert(update == rules_update(is_v4, raw, rules));
        lemma_message_frame(peer, now, update);
        lemma_update_frame(Seq::empty(), kept_attrs(attr_blob(raw)) + extended_attr_bytes(
            14,
            be16(
                if is_v4 {
                    1
                } else {
                    2
                },
            ) + seq![133u8, 0u8, 0u8] + rules_bytes(rules),
        ), Seq::empty());
        assert(tells_rules(r[i], peer, now, is_v4, raw, rules));
        assert forall|j: int| 0 <= j < r.len() && j != i implies (#[trigger] r[j]).sent().0 != id by {
            assert(sent[j] == r[j].sent());
        }
    }
}

/// A route monitoring message is its headers and its UPDATE.
proof fn lemma_message_frame(peer: PeerInfo, now: Timestamp, update: Seq<u8>)
    ensures
        route_monitoring_bytes(peer, now, update).skip(48) == update,
        route_monitoring_bytes(peer, now, update).len() == 48 + update.len(),
        route_monitoring_bytes(peer, now, update).subrange(6, 48) == per_peer_header(peer, now),
{
    assert(route_monitoring_bytes(peer, now, update).skip(48) =~= update);
    assert(route_monitoring_bytes(peer, now, update).subrange(6, 48) =~= per_peer_header(peer, now));
}

/// The length field of an UPDATE counts its octets.
proof fn lemma_update_frame(withdrawn: Seq<u8>, attrs: Seq<u8>, nlri: Seq<u8>)
    ensures
        update_bytes(withdrawn, attrs, nlri).len() <= MAX_BGP_UPDATE_LEN ==> get16(
            update_bytes(withdrawn, attrs, nlri),
            16,
        ) == update_bytes(withdrawn, attrs, nlri).len(),
{
    let body = update_body_bytes(withdrawn, attrs, nlri);
    if update_bytes(withdrawn, attrs, nlri).len() <= MAX_BGP_UPDATE_LEN {
        bgp_length_field_is_message_length(2, body);
    }
}

/// What is done with an aggregator: a prefix is added (for a peer, with its
/// path id and its attributes), or a FlowSpec rule, or all is sent.
pub enum AggOp {
    Prefix(IngressId, Option<u32>, PrefixKey, Seq<u8>),
    Rule(IngressId, Option<u32>, bool, Seq<u8>, Seq<u8>),
    Flush,
}

impl AggOp {
    /// The route that is added, if it is not dropped: its peer is known, and
    /// BGP can frame it.
    pub open spec fn accepted(self, peers: Map<IngressId, PeerInfo>) -> Option<AggRoute> {
        match self {
            AggOp::Prefix(id, path_id, p, raw) => if peers.contains_key(id) && prefix_sendable(p, raw, path_id) {
                Some((id, path_id, NlriView::Prefix(p), attr_blob(raw)))
            } else {
                None
            },
            AggOp::Rule(id, path_id, is_v4, nlri, raw) => if peers.contains_key(id) && rule_sendable(
                is_v4,
                nlri,
                raw,
                path_id,
            ) {
                Some((id, path_id, NlriView::Rule(nlri), attr_blob(raw)))
            } else {
                None
            },
            AggOp::Flush => None,
        }
    }

    /// What doing it does to the routes that wait, and what is sent.
    pub open spec fn done(
        self,
        before: RouteAggregator,
        after: RouteAggregator,
        r: Seq<AggMessage>,
        now: Timestamp,
    ) -> bool {
        &&& after.peer_info == before.peer_info
        &&& after.all_announce(r, now)
        &&& match self {
            AggOp::Flush => {
                &&& after.groups@.len() == 0
                &&& after.pending() == Multiset::<AggRoute>::empty()
                &&& carried_routes(r) == before.pending()
                &&& r.len() == before.groups@.len()
            },
            _ => after.pending().add(carried_routes(r)) == (match self.accepted(before.peer_info@) {
                Some(route) => before.pending().insert(route),
                None => before.pending(),
            }),
        }
    }
}

/// The routes that are added, one time for each time.
pub open spec fn all_accepted(ops: Seq<AggOp>, peers: Map<IngressId, PeerInfo>) -> Multiset<AggRoute>
    decreases ops.len(),
{
    if ops.len() == 0 {
        Multiset::empty()
    } else {
        match ops.last().accepted(peers) {
            Some(route) => all_accepted(ops.drop_last(), peers).insert(route),
            None => all_accepted(ops.drop_last(), peers),
        }
    }
}

/// All messages, in the order in which they are sent.
pub open spec fn all_messages(outs: Seq<Seq<AggMessage>>) -> Seq<AggMessage>
    decreases outs.len(),
{
    if outs.len() == 0 {
        Seq::empty()
    } else {
        all_messages(outs.drop_last()) + outs.last()
    }
}

/// Whether one thing after the other was done.
pub open spec fn all_done(
    states: Seq<RouteAggregator>,
    ops: Seq<AggOp>,
    outs: Seq<Seq<AggMessage>>,
    times: Seq<Timestamp>,
) -> bool {
    &&& states.len() == ops.len() + 1
    &&& outs.len() == ops.len()
    &&& times.len() == ops.len()
    &&& forall|i: int| 0 <= i < ops.len() ==> (#[trigger] ops[i]).done(states[i], states[i + 1], outs[i], times[i])
}

/// No route is lost and none is sent twice: what was sent and what waits is
/// what waited first and what was added.
pub proof fn every_route_waits_or_was_sent_once(
    states: Seq<RouteAggregator>,
    ops: Seq<AggOp>,
    outs: Seq<Seq<AggMessage>>,
    times: Seq<Timestamp>,
)
    requires
        all_done(states, ops, outs, times),
    ensures
        states.last().peer_info == states[0].peer_info,
        states.last().pending().add(carried_routes(all_messages(outs))) == states[0].pending().add(
            all_accepted(ops, states[0].peer_info@),
        ),
    decreases ops.len(),
{
    let peers = states[0].peer_info@;
    if ops.len() == 0 {
        assert(states.last().pending().add(Multiset::empty()) =~= states[0].pending().add(Multiset::empty()));
    } else {
        let n = ops.len() - 1;
        let (s, o, u, t) = (states.drop_last(), ops.drop_last(), outs.drop_last(), times.drop_last());
        assert forall|i: int| 0 <= i < o.len() implies (#[trigger] o[i]).done(s[i], s[i + 1], u[i], t[i]) by {
            assert(o[i] == ops[i]);
        }
        every_route_waits_or_was_sent_once(s, o, u, t);
        let before = states[n];
        let after = states[n + 1];
        let op = ops[n];
        assert(op.done(states[n], states[n + 1], outs[n], times[n]));
        assert(before == s.last());
        lemma_carried_concat(all_messages(u), outs[n]);
        let (a, b, c, d) = (
            before.pending(),
            carried_routes(all_messages(u)),
            carried_routes(outs[n]),
            after.pending(),
        );
        let first = states[0].pending();
        let so_far = all_accepted(o, peers);
        assert(a.add(b) == first.add(so_far));
        match op {
            AggOp::Flush => {
                assert(d.add(b.add(c)) =~= a.add(b));
            },
            _ => {
                match op.accepted(peers) {
                    Some(route) => {
                        assert(d.add(c) == a.insert(route));
                        assert(d.add(b.add(c)) =~= d.add(c).add(b));
                        assert(a.insert(route).add(b) =~= a.add(b).insert(route));
                        assert(first.add(so_far).insert(route) =~= first.add(so_far.insert(route)));
                    },
                    None => {
                        assert(d.add(c) == a);
                        assert(d.add(b.add(c)) =~= d.add(c).add(b));
                    },
                }
            },
        }
    }
}

/// An aggregator that was empty, and is flushed at the end, has sent every
/// route that was added exactly once, and nothing else.
pub proof fn every_added_route_is_sent_once(
    states: Seq<RouteAggregator>,
    ops: Seq<AggOp>,
    outs: Seq<Seq<AggMessage>>,
    times: Seq<Timestamp>,
)
    requires
        all_done(states, ops, outs, times),
        states[0].pending() == Multiset::<AggRoute>::empty(),
        ops.len() > 0,
        ops.last() is Flush,
    ensures
        carried_routes(all_messages(outs)) == all_accepted(ops, states[0].peer_info@),
{
    every_route_waits_or_was_sent_once(states, ops, outs, times);
    let n = ops.len() - 1;
    assert(ops[n].done(states[n], states[n + 1], outs[n], times[n]));
    let sent = carried_routes(all_messages(outs));
    assert(Multiset::empty().add(sent) =~= sent);
    let added = all_accepted(ops, states[0].peer_info@);
    assert(Multiset::empty().add(added) =~= added);
}

/// As many routes are taken as are added, where each is of a known peer and
/// BGP can frame it.
pub proof fn all_routes_that_fit_are_taken(ops: Seq<AggOp>, peers: Map<IngressId, PeerInfo>, adds: Seq<AggOp>)
    requires
        adds == ops.filter(|op: AggOp| !(op is Flush)),
        forall|i: int| 0 <= i < adds.len() ==> (#[trigger] adds[i]).accepted(peers) is Some,
    ensures
        all_accepted(ops, peers).len() == adds.len(),
    decreases ops.len(),
{
    broadcast use vstd::multiset::group_multiset_axioms;
    let p = |op: AggOp| !(op is Flush);
    reveal(Seq::filter);
    if ops.len() > 0 {
        let o = ops.drop_last();
        let rest = o.filter(p);
        if p(ops.last()) {
            assert(adds == rest.push(ops.last()));
            assert(adds.last() == ops.last());
            assert(adds[adds.len() - 1].accepted(peers) is Some);
            assert forall|i: int| 0 <= i < rest.len() implies (#[trigger] rest[i]).accepted(peers) is Some by {
                assert(adds[i] == rest[i]);
            }
            all_routes_that_fit_are_taken(o, peers, rest);
        } else {
            assert(adds == rest);
            all_routes_that_fit_are_taken(o, peers, rest);
        }
    }
}

/// Once all is sent there is nothing left to send.
pub proof fn a_second_flush_sends_nothing(
    first: RouteAggregator,
    second: RouteAggregator,
    third: RouteAggregator,
    r: Seq<AggMessage>,
    again: Seq<AggMessage>,
    now: Timestamp,
    later: Timestamp,
)
    requires
        AggOp::Flush.done(first, second, r, now),
        AggOp::Flush.done(second, third, again, later),
    ensures
        again.len() == 0,
{
}

/// Each message goes under the header of its peer and holds one UPDATE, whose
/// length field counts its octets. Prefixes and rules do not mix in it, nor
/// do routes with and without path id.
pub proof fn every_message_is_framed_and_pure(a: RouteAggregator, msgs: Seq<AggMessage>, now: Timestamp, i: int)
    requires
        a.all_announce(msgs, now),
        0 <= i < msgs.len(),
    ensures
        a.peer_info@.contains_key(msgs[i].key.ingress_id),
        msgs[i].bytes@.len() >= 48 + 23,
        msgs[i].bytes@.subrange(6, 48) == per_peer_header(a.peer_info@[msgs[i].key.ingress_id], now),
        get16(msgs[i].bytes@.skip(48), 16) == msgs[i].bytes@.skip(48).len(),
        msgs[i].bytes@.skip(48).len() <= MAX_BGP_UPDATE_LEN,
        forall|k: int|
            0 <= k < msgs[i].items@.len() ==> {
                &&& ((#[trigger] msgs[i].items@[k]).nlri is Rule) == msgs[i].key.flowspec
                &&& msgs[i].items@[k].path_id is Some == msgs[i].key.has_path_id
            },
{
    let m = msgs[i];
    let peer = a.peer_info@[m.key.ingress_id];
    let update = lemma_update_of(m, peer, now);
    lemma_message_frame(peer, now, update);
    assert forall|k: int| 0 <= k < m.items@.len() implies {
        &&& ((#[trigger] m.items@[k]).nlri is Rule) == m.key.flowspec
        &&& m.items@[k].path_id is Some == m.key.has_path_id
    } by {
        assert(item_fits(m.key, m.items@[k]));
    }
}

/// The UPDATE of a message.
proof fn lemma_update_of(m: AggMessage, peer: PeerInfo, now: Timestamp) -> (update: Seq<u8>)
    requires
        m.announces(peer, now),
    ensures
        m.bytes@ == route_monitoring_bytes(peer, now, update),
        23 <= update.len() <= MAX_BGP_UPDATE_LEN,
        get16(update, 16) == update.len(),
{
    let update = choose|update: Seq<u8>|
        {
            &&& m.bytes@ == route_monitoring_bytes(peer, now, update)
            &&& #[trigger] update.len() <= MAX_BGP_UPDATE_LEN
            &&& update == group_update(m.key, m.raw@, m.items@) || m.items@.len() == 1 && base_len_of(m.key, m.raw@)
                + item_len(m.key.has_path_id, m.items@[0].nlri@) > MAX_BGP_UPDATE_LEN && Some(update)
                == single_update(m.key, m.raw@, m.items@[0])
        };
    let (w, attrs, nlri) = lemma_is_update(m.key, m.raw@, m.items@, update);
    lemma_update_frame(w, attrs, nlri);
    assert(update.len() == 23 + w.len() + attrs.len() + nlri.len());
    update
}

/// What an UPDATE with routes is made of.
proof fn lemma_is_update(key: GroupKey, raw: Seq<u8>, items: Seq<AggItem>, update: Seq<u8>) -> (r: (
    Seq<u8>,
    Seq<u8>,
    Seq<u8>,
))
    requires
        update == group_update(key, raw, items) || items.len() == 1 && Some(update) == single_update(
            key,
            raw,
            items[0],
        ),
    ensures
        update == update_bytes(r.0, r.1, r.2),
{
    choose|w: Seq<u8>, attrs: Seq<u8>, nlri: Seq<u8>| update == update_bytes(w, attrs, nlri)
}

} // verus!
