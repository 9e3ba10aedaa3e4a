//! Aggregation of routes: those that share a peer, a family and a set of
//! path attributes are packed into one UPDATE instead of one UPDATE each.
use std::collections::hash_map::DefaultHasher;
use std::collections::HashMap;
use std::hash::Hasher;
use vstd::multiset::Multiset;
use vstd::prelude::*;
use vstd::std_specs::hash::*;

use crate::bmp_builder::{
    append_flowspec_nlri, append_prefix_nlri, build_flowspec_route_monitoring_at, build_route_monitoring_at,
    flowspec_nlri_bytes, flowspec_nlri_encoded_len, flowspec_nlri_len, flowspec_update, monitor_update, nlri_bytes,
    nlri_encoded_len, prefix_update, route_monitoring_bytes, PeerInfo, Timestamp, MAX_BGP_UPDATE_LEN,
};
use crate::packing::{
    all_sent, carry_groups, displaced, distinct_ids, fullest_out, group_charge, has_id, item_views, lemma_evict_none,
    lemma_evict_one, lemma_open, lemma_open_push, lemma_open_take, lemma_sent_all, lemma_sent_concat, lemma_sent_none,
    lemma_sent_one, lemma_sent_push, lemma_views, lemma_views_push, open_groups, sent_ids, sent_so_far, GroupId,
    ItemView, Packing, Sent,
};
use crate::pamap::{attr_blob, filter_pa_from_raw, kept_attrs, reach_next_hop, RotondaPaMap};
use crate::types::{prefix_octets, IngressId, Prefix, PrefixKey};
use crate::wire::{
    be16, bgp_update, bytes_equal, copy_range, extended_attr, extended_attr_bytes, push_be16,
    push_bytes, push_zeros, update_bytes, zeros,
};

verus! {

broadcast use vstd::std_specs::hash::group_hash_axioms;

/// Memory that is charged for one buffered route, beside its own octets.
pub const AGG_MEM_PER_PREFIX: usize = 32;

/// Memory that is charged for one open group.
pub const AGG_MEM_PER_GROUP: usize = 128;

/// More than any one group can be charged.
pub const AGG_GROUP_LIMIT: usize = 4194304;

/// What is announced: a prefix, or the components of a FlowSpec rule.
#[derive(Debug)]
pub enum AggNlri {
    Prefix(Prefix),
    Rule(Vec<u8>),
}

/// What an [`AggNlri`] stands for.
pub enum NlriView {
    Prefix(PrefixKey),
    Rule(Seq<u8>),
}

impl View for AggNlri {
    type V = NlriView;

    open spec fn view(&self) -> NlriView {
        match self {
            AggNlri::Prefix(p) => NlriView::Prefix(p@),
            AggNlri::Rule(r) => NlriView::Rule(r@),
        }
    }
}

/// One route of a group.
#[derive(Debug)]
pub struct AggItem {
    pub path_id: Option<u32>,
    pub nlri: AggNlri,
}

/// A route as it is buffered or sent: its peer, its path id, what it
/// announces and its attributes.
pub type AggRoute = (IngressId, Option<u32>, NlriView, Seq<u8>);

/// What routes must share to be in one group, beside their attributes. Plain
/// and path-id NLRI never mix, nor do prefixes and FlowSpec rules: one UPDATE
/// cannot hold both.
#[derive(Clone, Copy, Debug, PartialEq, Eq, Structural)]
pub struct GroupKey {
    pub ingress_id: IngressId,
    pub is_v4: bool,
    pub has_path_id: bool,
    pub flowspec: bool,
}

/// One item as NLRI.
pub open spec fn item_bytes(path_id: Option<u32>, v: NlriView) -> Seq<u8> {
    match v {
        NlriView::Prefix(k) => nlri_bytes(k, path_id),
        NlriView::Rule(s) => flowspec_nlri_bytes(s, path_id),
    }
}

/// The length that one item is taken to have as NLRI.
pub open spec fn item_len(has_path_id: bool, v: NlriView) -> int {
    match v {
        NlriView::Prefix(k) => 1 + prefix_octets(k.2 as int) + (if has_path_id {
            4int
        } else {
            0
        }),
        NlriView::Rule(s) => flowspec_nlri_len(s, has_path_id),
    }
}

/// The memory that is charged for one item.
pub open spec fn item_cost(v: NlriView) -> int {
    match v {
        NlriView::Prefix(_) => AGG_MEM_PER_PREFIX as int,
        NlriView::Rule(s) => AGG_MEM_PER_PREFIX + s.len(),
    }
}

/// Whether an item may be in a group.
pub open spec fn item_fits(key: GroupKey, it: AggItem) -> bool {
    &&& it.path_id is Some == key.has_path_id
    &&& match it.nlri {
        AggNlri::Prefix(p) => !key.flowspec && p.wf() && p@.0 == key.is_v4,
        AggNlri::Rule(_) => key.flowspec,
    }
}

/// All items as NLRI, one after the other.
pub open spec fn items_bytes(items: Seq<AggItem>) -> Seq<u8>
    decreases items.len(),
{
    if items.len() == 0 {
        Seq::empty()
    } else {
        items_bytes(items.drop_last()) + item_bytes(items.last().path_id, items.last().nlri@)
    }
}

/// The length that all items are taken to have as NLRI.
pub open spec fn items_len(items: Seq<AggItem>) -> int
    decreases items.len(),
{
    if items.len() == 0 {
        0
    } else {
        items_len(items.drop_last()) + item_len(items.last().path_id is Some, items.last().nlri@)
    }
}

/// The memory that is charged for all items.
pub open spec fn items_cost(items: Seq<AggItem>) -> int
    decreases items.len(),
{
    if items.len() == 0 {
        0
    } else {
        items_cost(items.drop_last()) + item_cost(items.last().nlri@)
    }
}

/// The routes that items stand for.
pub open spec fn item_routes(id: IngressId, blob: Seq<u8>, items: Seq<AggItem>) -> Multiset<AggRoute>
    decreases items.len(),
{
    if items.len() == 0 {
        Multiset::empty()
    } else {
        item_routes(id, blob, items.drop_last()).insert(
            (id, items.last().path_id, items.last().nlri@, blob),
        )
    }
}

/// The next hop of a group of IPv6 prefixes; zeros if there is none.
pub open spec fn group_next_hop(raw: Seq<u8>) -> Seq<u8> {
    match reach_next_hop(attr_blob(raw)) {
        Some(nh) => nh,
        None => zeros(16),
    }
}

/// The length of the UPDATE of a group but for its NLRI.
pub open spec fn base_len_of(key: GroupKey, raw: Seq<u8>) -> int {
    23 + kept_attrs(attr_blob(raw)).len() + (if key.flowspec {
        9int
    } else if key.is_v4 {
        0
    } else {
        9 + group_next_hop(raw).len() as int
    })
}

/// The UPDATE that announces all items of a group.
pub open spec fn group_update(key: GroupKey, raw: Seq<u8>, items: Seq<AggItem>) -> Seq<u8> {
    let attrs = kept_attrs(attr_blob(raw));
    let nlri = items_bytes(items);
    if key.flowspec {
        update_bytes(
            Seq::empty(),
            attrs + extended_attr_bytes(
                14,
                be16(
                    if key.is_v4 {
                        1
                    } else {
                        2
                    },
                ) + seq![133u8, 0u8, 0u8] + nlri,
            ),
            Seq::empty(),
        )
    } else if key.is_v4 {
        update_bytes(Seq::empty(), attrs, nlri)
    } else {
        let nh = group_next_hop(raw);
        update_bytes(
            Seq::empty(),
            attrs + extended_attr_bytes(
                14,
                be16(2) + seq![1u8, (nh.len() % 256) as u8] + nh + seq![0u8] + nlri,
            ),
            Seq::empty(),
        )
    }
}

/// The UPDATE of a group is as long as its fixed part and its NLRI.
pub proof fn lemma_group_update_len(key: GroupKey, raw: Seq<u8>, items: Seq<AggItem>)
    ensures
        group_update(key, raw, items).len() == base_len_of(key, raw) + items_bytes(items).len(),
{
}

/// Items are never longer than they are taken to be; each has an octet.
pub proof fn lemma_items_len(key: GroupKey, items: Seq<AggItem>)
    requires
        forall|i: int| 0 <= i < items.len() ==> item_fits(key, #[trigger] items[i]),
    ensures
        items_bytes(items).len() <= items_len(items),
        items.len() <= items_len(items),
        items_cost(items) <= 32 * items.len() + items_len(items),
        0 <= items_cost(items),
    decreases items.len(),
{
    if items.len() > 0 {
        assert forall|i: int| 0 <= i < items.drop_last().len() implies item_fits(
            key,
            #[trigger] items.drop_last()[i],
        ) by {
            assert(items.drop_last()[i] == items[i]);
        }
        lemma_items_len(key, items.drop_last());
        let it = items[items.len() - 1];
        assert(item_fits(key, it));
        match it.nlri {
            AggNlri::Prefix(p) => {
                assert(p@.1.take(prefix_octets(p@.2 as int)).len() == prefix_octets(p@.2 as int));
            },
            AggNlri::Rule(r) => {},
        }
    }
}

/// An open group: routes of one peer and family with the same attributes.
#[derive(Debug)]
pub struct AggGroup {
    pub key: GroupKey,
    pub hash: u64,
    pub raw: Vec<u8>,
    pub items: Vec<AggItem>,
    /// The length that the items are taken to have as NLRI.
    pub nlri_total: usize,
    /// The length of the UPDATE but for the NLRI.
    pub base_len: usize,
}

/// What the hash of a group is taken over.
pub open spec fn group_hash_input(key: GroupKey, blob: Seq<u8>) -> Seq<Seq<u8>> {
    let b = |x: bool| if x { 1u8 } else { 0u8 };
    seq![
        seq![
            (key.ingress_id % 256) as u8,
            ((key.ingress_id / 256) % 256) as u8,
            ((key.ingress_id / 65536) % 256) as u8,
            (key.ingress_id / 16777216) as u8,
            b(key.is_v4),
            b(key.has_path_id),
            b(key.flowspec),
        ],
        blob,
    ]
}

/// The hash by which a group is found again.
pub open spec fn group_hash(key: GroupKey, blob: Seq<u8>) -> u64 {
    DefaultHasher::spec_finish(group_hash_input(key, blob))
}

/// Computes the hash by which a group is found again.
fn hash_pa_blob(key: GroupKey, blob: &[u8]) -> (r: u64)
    ensures
        r == group_hash(key, blob@),
{
    let mut h = DefaultHasher::new();
    let id: u32 = key.ingress_id;
    let tag: [u8; 7] = [
        (id % 256) as u8,
        ((id / 256) % 256) as u8,
        ((id / 65536) % 256) as u8,
        (id / 16777216) as u8,
        if key.is_v4 { 1 } else { 0 },
        if key.has_path_id { 1 } else { 0 },
        if key.flowspec { 1 } else { 0 },
    ];
    h.write(tag.as_slice());
    h.write(blob);
    assert(tag@ =~= group_hash_input(key, blob@)[0]);
    assert(h@ =~= group_hash_input(key, blob@));
    h.finish()
}

impl AggGroup {
    /// Whether the group may hold routes with this key and these attributes.
    pub open spec fn matches(self, key: GroupKey, blob: Seq<u8>) -> bool {
        self.key == key && attr_blob(self.raw@) == blob
    }

    /// What holds of every group, with or without items.
    pub open spec fn consistent(self) -> bool {
        &&& self.hash == group_hash(self.key, attr_blob(self.raw@))
        &&& self.nlri_total == items_len(self.items@)
        &&& forall|i: int| 0 <= i < self.items@.len() ==> item_fits(self.key, #[trigger] self.items@[i])
        &&& self.base_len == base_len_of(self.key, self.raw@) || self.base_len == usize::MAX
            && base_len_of(self.key, self.raw@) >= usize::MAX
        &&& self.items@.len() > 0 ==> self.base_len + self.nlri_total <= MAX_BGP_UPDATE_LEN
    }

    /// What holds of an open group: it is not empty and can be framed.
    pub open spec fn wf(self) -> bool {
        self.consistent() && self.items@.len() > 0
    }

    /// The routes of the group.
    pub open spec fn routes(self) -> Multiset<AggRoute> {
        item_routes(self.key.ingress_id, attr_blob(self.raw@), self.items@)
    }

    /// The memory that is charged for the group.
    pub open spec fn charge(self) -> int {
        AGG_MEM_PER_GROUP + items_cost(self.items@)
    }

    /// Whether this is a group without routes for these attributes.
    pub open spec fn fresh(self, key: GroupKey, raw: Seq<u8>) -> bool {
        &&& self.consistent()
        &&& self.key == key
        &&& self.raw@ == raw
        &&& self.items@.len() == 0
    }

    /// Whether a route, and nothing else, was put into the group.
    pub open spec fn grown(self, after: AggGroup, item: ItemView) -> bool {
        &&& after.consistent()
        &&& after.key == self.key
        &&& after.raw == self.raw
        &&& item_views(after.items@) == item_views(self.items@).push(item)
    }

    /// Whether this is the message for the routes of the group, if it has any.
    pub open spec fn emitted(self, peer: PeerInfo, now: Timestamp, r: Option<AggMessage>) -> bool {
        match r {
            Some(m) => {
                let update = group_update(self.key, self.raw@, self.items@);
                &&& self.items@.len() > 0
                &&& m.key == self.key
                &&& m.raw == self.raw
                &&& m.items == self.items
                &&& m.bytes@ == route_monitoring_bytes(peer, now, update)
                &&& update.len() <= MAX_BGP_UPDATE_LEN
            },
            None => self.items@.len() == 0,
        }
    }

    /// A group without routes.
    pub fn new(key: GroupKey, pamap: &RotondaPaMap) -> (r: Self)
        ensures
            r.fresh(key, pamap@),
    {
        let hash: u64 = hash_pa_blob(key, pamap.blob());
        let (attrs, next_hop) = filter_pa_from_raw(&pamap.raw);
        let fixed: usize = if key.flowspec {
            32
        } else if key.is_v4 {
            23
        } else {
            match &next_hop {
                Some(nh) => nh.len().saturating_add(32),
                None => 48,
            }
        };
        let n: usize = pamap.raw.len();
        let raw = copy_range(&pamap.raw, 0, n);
        assert(raw@ =~= pamap@);
        let r = AggGroup {
            key,
            hash,
            raw,
            items: Vec::new(),
            nlri_total: 0,
            base_len: attrs.len().saturating_add(fixed),
        };
        assert(r.items@ =~= Seq::empty());
        r
    }

    /// Puts a route into a group that has room for it.
    pub fn push(&mut self, item: AggItem, nlri_len: usize)
        requires
            old(self).consistent(),
            old(self).base_len + old(self).nlri_total + nlri_len <= MAX_BGP_UPDATE_LEN,
            item_fits(old(self).key, item),
            nlri_len == item_len(old(self).key.has_path_id, item.nlri@),
        ensures
            old(self).grown(*final(self), (item.path_id, item.nlri@)),
            final(self).hash == old(self).hash,
            final(self).items@ == old(self).items@.push(item),
    {
        let ghost before = self.items@;
        self.nlri_total = self.nlri_total + nlri_len;
        self.items.push(item);
        proof {
            lemma_views_push(before, item);
            assert(self.items@.drop_last() =~= before);
            assert forall|i: int| 0 <= i < self.items@.len() implies item_fits(self.key, #[trigger] self.items@[i]) by {
                if i < before.len() {
                    assert(self.items@[i] == before[i]);
                }
            }
        }
    }

    /// The length that the UPDATE of the group is taken to have.
    pub fn bgp_update_len(&self) -> (r: usize)
        requires
            self.wf(),
        ensures
            r == base_len_of(self.key, self.raw@) + items_len(self.items@),
    {
        self.base_len + self.nlri_total
    }

    /// The message for the routes of the group, if it has any.
    pub fn emit(self, peer: &PeerInfo, now: Timestamp) -> (r: Option<AggMessage>)
        requires
            self.consistent(),
        ensures
            self.emitted(*peer, now, r),
    {
        if self.items.len() == 0 {
            return None;
        }
        let update = self.update();
        proof {
            lemma_items_len(self.key, self.items@);
            lemma_group_update_len(self.key, self.raw@, self.items@);
        }
        let bytes = monitor_update(peer, now, &update);
        Some(AggMessage { key: self.key, raw: self.raw, items: self.items, bytes })
    }

    /// The attributes of the group.
    fn blob(&self) -> (r: &[u8])
        ensures
            r@ == attr_blob(self.raw@),
    {
        let n: usize = self.raw.len();
        if n < 2 {
            let r = &self.raw[0..0];
            assert(r@ =~= Seq::<u8>::empty());
            r
        } else {
            let r = &self.raw[2..n];
            assert(r@ =~= self.raw@.skip(2));
            r
        }
    }

    /// The memory that is charged for the group.
    fn cost(&self) -> (r: usize)
        requires
            self.wf(),
        ensures
            r == self.charge(),
            r < AGG_GROUP_LIMIT,
    {
        proof {
            lemma_items_len(self.key, self.items@);
        }
        let mut sum: usize = 0;
        let mut i: usize = 0;
        assert(self.items@.take(0) =~= Seq::empty());
        while i < self.items.len()
            invariant
                i <= self.items@.len(),
                self.wf(),
                sum == items_cost(self.items@.take(i as int)),
                items_cost(self.items@) <= 32 * 65535 + 65535,
            decreases self.items@.len() - i,
        {
            let ghost t = self.items@.take(i + 1);
            assert(t.drop_last() =~= self.items@.take(i as int));
            proof {
                lemma_items_cost_monotone(self.items@, i + 1);
            }
            assert(t.last() == self.items@[i as int]);
            sum = sum + match &self.items[i].nlri {
                AggNlri::Prefix(_) => AGG_MEM_PER_PREFIX,
                AggNlri::Rule(r) => {
                    assert(items_cost(t) == sum + AGG_MEM_PER_PREFIX + r@.len());
                    AGG_MEM_PER_PREFIX + r.len()
                },
            };
            i = i + 1;
        }
        assert(self.items@.take(i as int) =~= self.items@);
        AGG_MEM_PER_GROUP + sum
    }

    /// The UPDATE that announces the routes of the group.
    fn update(&self) -> (r: Vec<u8>)
        requires
            forall|i: int| 0 <= i < self.items@.len() ==> item_fits(self.key, #[trigger] self.items@[i]),
        ensures
            r@ == group_update(self.key, self.raw@, self.items@),
    {
        let mut nlri: Vec<u8> = Vec::new();
        let mut i: usize = 0;
        assert(self.items@.take(0) =~= Seq::empty());
        assert(nlri@ =~= items_bytes(self.items@.take(0)));
        while i < self.items.len()
            invariant
                i <= self.items@.len(),
                forall|i: int| 0 <= i < self.items@.len() ==> item_fits(self.key, #[trigger] self.items@[i]),
                nlri@ == items_bytes(self.items@.take(i as int)),
            decreases self.items@.len() - i,
        {
            assert(self.items@.take(i + 1).drop_last() =~= self.items@.take(i as int));
            let it = &self.items[i];
            assert(item_fits(self.key, self.items@[i as int]));
            match &it.nlri {
                AggNlri::Prefix(p) => {
                    append_prefix_nlri(&mut nlri, p, it.path_id);
                },
                AggNlri::Rule(r) => {
                    append_flowspec_nlri(&mut nlri, r, it.path_id);
                },
            }
            i = i + 1;
        }
        assert(self.items@.take(i as int) =~= self.items@);
        let (attrs, next_hop) = filter_pa_from_raw(&self.raw);
        let empty: Vec<u8> = Vec::new();
        assert(empty@ =~= Seq::empty());
        if self.key.flowspec {
            let mut value: Vec<u8> = Vec::new();
            push_be16(&mut value, if self.key.is_v4 { 1 } else { 2 });
            value.push(133);
            value.push(0);
            value.push(0);
            push_bytes(&mut value, &nlri);
            assert(value@ =~= be16(if self.key.is_v4 { 1 } else { 2 }) + seq![133u8, 0u8, 0u8] + nlri@);
            let mut all: Vec<u8> = attrs;
            push_bytes(&mut all, &extended_attr(14, &value));
            bgp_update(&empty, &all, &empty)
        } else if self.key.is_v4 {
            bgp_update(&empty, &attrs, &nlri)
        } else {
            let nh = match next_hop {
                Some(nh) => nh,
                None => {
                    let mut z: Vec<u8> = Vec::new();
                    push_zeros(&mut z, 16);
                    assert(z@ =~= zeros(16));
                    z
                },
            };
            assert(nh@ == group_next_hop(self.raw@));
            let mut value: Vec<u8> = Vec::new();
            push_be16(&mut value, 2);
            value.push(1);
            value.push((nh.len() % 256) as u8);
            push_bytes(&mut value, &nh);
            value.push(0);
            push_bytes(&mut value, &nlri);
            assert(value@ =~= be16(2) + seq![1u8, (nh@.len() % 256) as u8] + nh@ + seq![0u8] + nlri@);
            let mut all: Vec<u8> = attrs;
            push_bytes(&mut all, &extended_attr(14, &value));
            bgp_update(&empty, &all, &empty)
        }
    }
}

/// A part of the items is not charged more than all of them.
proof fn lemma_items_cost_monotone(items: Seq<AggItem>, n: int)
    requires
        0 <= n <= items.len(),
    ensures
        0 <= items_cost(items.take(n)) <= items_cost(items),
    decreases items.len(),
{
    if n < items.len() {
        lemma_items_cost_monotone(items.drop_last(), n);
        assert(items.drop_last().take(n) =~= items.take(n));
    } else {
        assert(items.take(n) =~= items);
        if items.len() > 0 {
            lemma_items_cost_monotone(items.drop_last(), n - 1);
            assert(items.drop_last().take(n - 1) =~= items.drop_last());
        }
    }
}

/// A finished message with the routes that it carries.
#[derive(Debug)]
pub struct AggMessage {
    pub key: GroupKey,
    pub raw: Vec<u8>,
    pub items: Vec<AggItem>,
    pub bytes: Vec<u8>,
}

impl AggMessage {
    /// The routes that the message carries.
    pub open spec fn routes(self) -> Multiset<AggRoute> {
        item_routes(self.key.ingress_id, attr_blob(self.raw@), self.items@)
    }

    /// Whether the message is a route monitoring message from `peer` with one
    /// UPDATE that announces just these routes, all of one family, all with
    /// or all without path id, and that BGP can frame. A route goes by itself
    /// only where the UPDATE of its group might have no room for it.
    pub open spec fn announces(self, peer: PeerInfo, now: Timestamp) -> bool {
        &&& self.items@.len() > 0
        &&& forall|i: int| 0 <= i < self.items@.len() ==> item_fits(self.key, #[trigger] self.items@[i])
        &&& exists|update: Seq<u8>|
            {
                &&& self.bytes@ == route_monitoring_bytes(peer, now, update)
                &&& #[trigger] update.len() <= MAX_BGP_UPDATE_LEN
                &&& update == group_update(self.key, self.raw@, self.items@) || self.items@.len() == 1
                    && base_len_of(self.key, self.raw@) + item_len(self.key.has_path_id, self.items@[0].nlri@)
                    > MAX_BGP_UPDATE_LEN && Some(update) == single_update(self.key, self.raw@, self.items@[0])
            }
    }
}

/// The UPDATE for one route by itself.
pub open spec fn single_update(key: GroupKey, raw: Seq<u8>, it: AggItem) -> Option<Seq<u8>> {
    match it.nlri {
        AggNlri::Prefix(p) => prefix_update(p@, raw, false, it.path_id),
        AggNlri::Rule(r) => flowspec_update(key.is_v4, r@, raw, false, it.path_id),
    }
}

/// The routes of all groups.
pub open spec fn pending_routes(groups: Seq<AggGroup>) -> Multiset<AggRoute>
    decreases groups.len(),
{
    if groups.len() == 0 {
        Multiset::empty()
    } else {
        pending_routes(groups.drop_last()).add(groups.last().routes())
    }
}

/// The memory that is charged for all groups.
pub open spec fn total_charge(groups: Seq<AggGroup>) -> int
    decreases groups.len(),
{
    if groups.len() == 0 {
        0
    } else {
        total_charge(groups.drop_last()) + groups.last().charge()
    }
}

/// The routes that all messages carry.
pub open spec fn carried_routes(msgs: Seq<AggMessage>) -> Multiset<AggRoute>
    decreases msgs.len(),
{
    if msgs.len() == 0 {
        Multiset::empty()
    } else {
        carried_routes(msgs.drop_last()).add(msgs.last().routes())
    }
}

/// Whether messages with prefixes come before those with FlowSpec rules.
pub open spec fn prefixes_first(msgs: Seq<AggMessage>) -> bool {
    forall|i: int, j: int|
        0 <= i < j < msgs.len() && (#[trigger] msgs[i]).key.flowspec ==> (#[trigger] msgs[j]).key.flowspec
}

/// Whether all groups from the `n`th on hold FlowSpec rules.
#[verifier::opaque]
spec fn rules_from(groups: Seq<AggGroup>, n: int) -> bool {
    forall|k: int| n <= k < groups.len() ==> (#[trigger] groups[k]).key.flowspec
}

/// Whether messages hold prefixes, and after them nothing but FlowSpec rules
/// if `rules` is set.
#[verifier::opaque]
spec fn sorted_messages(msgs: Seq<AggMessage>, rules: bool) -> bool {
    &&& prefixes_first(msgs)
    &&& !rules ==> forall|k: int| 0 <= k < msgs.len() ==> !(#[trigger] msgs[k]).key.flowspec
}

/// Looking at one more group, which is taken out if it holds prefixes.
proof fn lemma_one_more_group(groups: Seq<AggGroup>, n: int)
    requires
        0 <= n < groups.len(),
        rules_from(groups, n + 1),
    ensures
        groups[n].key.flowspec ==> rules_from(groups, n),
        rules_from(groups.update(n, groups.last()).drop_last(), n),
{
    reveal(rules_from);
    let left = groups.update(n, groups.last()).drop_last();
    assert forall|k: int| n <= k < left.len() implies (#[trigger] left[k]).key.flowspec by {
        if k == n {
            assert(left[k] == groups[groups.len() - 1]);
        } else {
            assert(left[k] == groups[k]);
        }
    }
}

/// The last of groups of FlowSpec rules is one, and so are the others.
proof fn lemma_last_group(groups: Seq<AggGroup>)
    requires
        groups.len() > 0,
        rules_from(groups, 0),
    ensures
        groups.last().key.flowspec,
        rules_from(groups.update(groups.len() - 1, groups.last()).drop_last(), 0),
{
    reveal(rules_from);
    let left = groups.update(groups.len() - 1, groups.last()).drop_last();
    assert forall|k: int| 0 <= k < left.len() implies (#[trigger] left[k]).key.flowspec by {
        assert(left[k] == groups[k]);
    }
}

/// One more message goes behind those with prefixes.
proof fn lemma_one_more_message(msgs: Seq<AggMessage>, rules: bool)
    requires
        msgs.len() > 0,
        sorted_messages(msgs.drop_last(), rules),
        rules == msgs.last().key.flowspec,
    ensures
        sorted_messages(msgs, rules),
{
    reveal(sorted_messages);
    let before = msgs.drop_last();
    assert forall|i: int, j: int|
        0 <= i < j < msgs.len() && (#[trigger] msgs[i]).key.flowspec implies (#[trigger] msgs[j]).key.flowspec by {
        assert(before[i] == msgs[i]);
        if j < before.len() {
            assert(before[j] == msgs[j]);
        }
    }
    if !rules {
        assert forall|k: int| 0 <= k < msgs.len() implies !(#[trigger] msgs[k]).key.flowspec by {
            if k < before.len() {
                assert(before[k] == msgs[k]);
            }
        }
    }
}

/// The order in which multisets are added does not matter.
proof fn lemma_add_swap(a: Multiset<AggRoute>, b: Multiset<AggRoute>, c: Multiset<AggRoute>)
    ensures
        a.add(b).add(c) == a.add(c).add(b),
        a.add(b.add(c)) == a.add(b).add(c),
        a.add(c.add(b)) == a.add(b).add(c),
{
    assert(a.add(b).add(c) =~= a.add(c).add(b));
    assert(a.add(b.add(c)) =~= a.add(b).add(c));
    assert(a.add(c.add(b)) =~= a.add(b).add(c));
}

/// What is added to both sides can be taken away.
proof fn lemma_add_cancel(a: Multiset<AggRoute>, b: Multiset<AggRoute>, c: Multiset<AggRoute>)
    requires
        a.add(c) == b.add(c),
    ensures
        a == b,
{
    assert forall|v: AggRoute| a.count(v) == b.count(v) by {
        assert(a.add(c).count(v) == a.count(v) + c.count(v));
        assert(b.add(c).count(v) == b.count(v) + c.count(v));
    }
    assert(a =~= b);
}

/// Putting another group in the place of one changes the routes by what the
/// two groups hold, and the charge by what they are charged.
proof fn lemma_update_group(groups: Seq<AggGroup>, i: int, g: AggGroup)
    requires
        0 <= i < groups.len(),
    ensures
        pending_routes(groups.update(i, g)).add(groups[i].routes()) == pending_routes(groups).add(
            g.routes(),
        ),
        total_charge(groups.update(i, g)) + groups[i].charge() == total_charge(groups) + g.charge(),
    decreases groups.len(),
{
    let u = groups.update(i, g);
    if i == groups.len() - 1 {
        assert(u.drop_last() =~= groups.drop_last());
        assert(pending_routes(u).add(groups[i].routes()) =~= pending_routes(groups).add(g.routes()));
    } else {
        lemma_update_group(groups.drop_last(), i, g);
        assert(u.drop_last() =~= groups.drop_last().update(i, g));
        assert(u.last() == groups.last());
        let last = groups.last().routes();
        lemma_add_swap(pending_routes(u.drop_last()), last, groups[i].routes());
        lemma_add_swap(pending_routes(groups.drop_last()), last, g.routes());
    }
}

/// Taking one group out leaves the routes and the charge of the others.
proof fn lemma_take_group(groups: Seq<AggGroup>, i: int)
    requires
        0 <= i < groups.len(),
    ensures
        pending_routes(groups.update(i, groups.last()).drop_last()).add(groups[i].routes())
            == pending_routes(groups),
        total_charge(groups.update(i, groups.last()).drop_last()) + groups[i].charge()
            == total_charge(groups),
{
    let u = groups.update(i, groups.last());
    lemma_update_group(groups, i, groups.last());
    assert(u.last() == groups.last());
    let d = pending_routes(u.drop_last());
    let last = groups.last().routes();
    lemma_add_swap(d, last, groups[i].routes());
    lemma_add_cancel(d.add(groups[i].routes()), pending_routes(groups), last);
}

/// One more message carries its own routes more.
proof fn lemma_push_message(msgs: Seq<AggMessage>, m: AggMessage)
    ensures
        carried_routes(msgs.push(m)) == carried_routes(msgs).add(m.routes()),
{
    assert(msgs.push(m).drop_last() =~= msgs);
}

/// One more group holds its own routes more.
proof fn lemma_push_group(groups: Seq<AggGroup>, g: AggGroup)
    ensures
        pending_routes(groups.push(g)) == pending_routes(groups).add(g.routes()),
        total_charge(groups.push(g)) == total_charge(groups) + g.charge(),
{
    assert(groups.push(g).drop_last() =~= groups);
}

/// Every group is charged something.
proof fn lemma_charges_are_positive(groups: Seq<AggGroup>)
    requires
        forall|i: int| 0 <= i < groups.len() ==> (#[trigger] groups[i]).wf(),
    ensures
        0 <= total_charge(groups),
        groups.len() > 0 ==> 0 < total_charge(groups),
        forall|i: int| 0 <= i < groups.len() ==> 0 < (#[trigger] groups[i]).charge() <= total_charge(groups),
    decreases groups.len(),
{
    if groups.len() > 0 {
        let d = groups.drop_last();
        assert forall|i: int| 0 <= i < d.len() implies (#[trigger] d[i]).wf() by {
            assert(d[i] == groups[i]);
        }
        lemma_charges_are_positive(d);
        let g = groups[groups.len() - 1];
        assert(g.wf());
        lemma_items_len(g.key, g.items@);
        assert forall|i: int| 0 <= i < groups.len() implies 0 < (#[trigger] groups[i]).charge()
            <= total_charge(groups) by {
            if i < groups.len() - 1 {
                assert(groups[i] == d[i]);
            }
        }
    }
}

/// Accumulates routes and packs them into messages.
///
/// The walk of a routing table meets the routes of one group all over the
/// table, so groups stay open until the end. Memory is bounded: when the
/// charge exceeds the budget, the fullest groups are sent until half of the
/// budget is free, so that the small ones keep growing.
pub struct RouteAggregator {
    pub groups: Vec<AggGroup>,
    /// Where the group with a hash stands in `groups`.
    pub index: HashMap<u64, usize>,
    pub peer_info: HashMap<IngressId, PeerInfo>,
    pub buffered_bytes: u128,
    pub max_bytes: usize,
    pub groups_created: usize,
    pub budget_evictions: usize,
}

/// Whether a group goes before another: prefixes before rules, then by the
/// number of routes.
pub open spec fn fuller(fs_a: bool, n_a: nat, fs_b: bool, n_b: nat) -> bool {
    if fs_a == fs_b {
        n_a >= n_b
    } else {
        !fs_a
    }
}

impl RouteAggregator {
    /// Whether the index tells of each group where it stands.
    pub open spec fn indexed(self) -> bool {
        forall|i: int|
            0 <= i < self.groups@.len() ==> self.index@.contains_key(
                (#[trigger] self.groups@[i]).hash,
            ) && self.index@[self.groups@[i].hash] == i
    }

    /// What holds of the groups.
    pub open spec fn wf_groups(self) -> bool {
        &&& forall|i: int| 0 <= i < self.groups@.len() ==> (#[trigger] self.groups@[i]).wf()
        &&& forall|i: int|
            0 <= i < self.groups@.len() ==> self.peer_info@.contains_key(
                (#[trigger] self.groups@[i]).key.ingress_id,
            )
        &&& self.indexed()
        &&& self.buffered_bytes == total_charge(self.groups@)
    }

    /// What holds of the aggregator: the groups are in order and the budget
    /// is kept.
    pub open spec fn wf(self) -> bool {
        self.wf_groups() && self.buffered_bytes <= self.max_bytes
    }

    /// The groups that are open, and the memory that is charged for them.
    pub open spec fn packing(self) -> Packing {
        Packing { open: open_groups(self.groups@), charge: self.buffered_bytes as int }
    }

    /// No two groups share both key and attributes.
    proof fn lemma_distinct(self)
        requires
            self.wf_groups(),
        ensures
            distinct_ids(self.groups@),
    {
        assert forall|i: int, j: int| 0 <= i < j < self.groups@.len() implies (#[trigger] self.groups@[i]).id() != (
        #[trigger] self.groups@[j]).id() by {
            assert(self.groups@[i].hash != self.groups@[j].hash);
        }
    }

    /// The group with the hash of `id` is that group, or the one in its way.
    proof fn lemma_in_the_way(self, id: GroupId, i: int)
        requires
            self.wf_groups(),
            0 <= i < self.groups@.len(),
            self.groups@[i].hash == group_hash(id.0, id.1),
        ensures
            self.packing().open.contains_key(id) == (self.groups@[i].id() == id),
            displaced(self.packing().open, id) == (if self.groups@[i].id() == id {
                None
            } else {
                Some(self.groups@[i].id())
            }),
    {
        let open = self.packing().open;
        self.lemma_distinct();
        lemma_open(self.groups@, i);
        assert forall|k: GroupId| #[trigger]
            open.contains_key(k) && group_hash(k.0, k.1) == group_hash(id.0, id.1) implies k == self.groups@[i].id() by {
            let j = choose|j: int| 0 <= j < self.groups@.len() && (#[trigger] self.groups@[j]).id() == k;
            assert(self.groups@[j].hash == self.groups@[i].hash);
            assert(i == j);
        }
        assert(open.contains_key(self.groups@[i].id()));
    }

    /// Without a group with the hash of `id`, none is in its way.
    proof fn lemma_not_in_the_way(self, id: GroupId)
        requires
            self.wf_groups(),
            forall|i: int| 0 <= i < self.groups@.len() ==> (#[trigger] self.groups@[i]).hash != group_hash(id.0, id.1),
        ensures
            !self.packing().open.contains_key(id),
            displaced(self.packing().open, id) is None,
    {
        let open = self.packing().open;
        assert forall|k: GroupId| #[trigger] open.contains_key(k) implies group_hash(k.0, k.1) != group_hash(
            id.0,
            id.1,
        ) by {
            let j = choose|j: int| 0 <= j < self.groups@.len() && (#[trigger] self.groups@[j]).id() == k;
            assert(self.groups@[j].hash == group_hash(k.0, k.1));
        }
    }

    /// The routes that were added and not sent yet.
    pub open spec fn pending(self) -> Multiset<AggRoute> {
        pending_routes(self.groups@)
    }

    /// Whether all messages are from known peers and announce their routes.
    pub open spec fn all_announce(self, msgs: Seq<AggMessage>, now: Timestamp) -> bool {
        forall|i: int|
            0 <= i < msgs.len() ==> self.peer_info@.contains_key((#[trigger] msgs[i]).key.ingress_id)
                && msgs[i].announces(self.peer_info@[msgs[i].key.ingress_id], now)
    }

    /// One more message that announces its routes.
    proof fn lemma_announce_push(self, msgs: Seq<AggMessage>, m: AggMessage, now: Timestamp)
        requires
            self.all_announce(msgs, now),
            self.peer_info@.contains_key(m.key.ingress_id),
            m.announces(self.peer_info@[m.key.ingress_id], now),
        ensures
            self.all_announce(msgs.push(m), now),
    {
        let p = msgs.push(m);
        assert forall|k: int| 0 <= k < p.len() implies self.peer_info@.contains_key(
            (#[trigger] p[k]).key.ingress_id,
        ) && p[k].announces(self.peer_info@[p[k].key.ingress_id], now) by {
            if k < msgs.len() {
                assert(p[k] == msgs[k]);
            }
        }
    }

    /// More messages that announce their routes.
    proof fn lemma_announce_concat(self, a: Seq<AggMessage>, b: Seq<AggMessage>, now: Timestamp)
        requires
            self.all_announce(a, now),
            self.all_announce(b, now),
        ensures
            self.all_announce(a + b, now),
    {
        let p = a + b;
        assert forall|k: int| 0 <= k < p.len() implies self.peer_info@.contains_key(
            (#[trigger] p[k]).key.ingress_id,
        ) && p[k].announces(self.peer_info@[p[k].key.ingress_id], now) by {
            if k < a.len() {
                assert(p[k] == a[k]);
            } else {
                assert(p[k] == b[k - a.len()]);
            }
        }
    }

    /// An aggregator that may buffer `max_bytes`.
    pub fn new(max_bytes: usize, peer_info: HashMap<IngressId, PeerInfo>) -> (r: Self)
        ensures
            r.wf(),
            r.peer_info@ == peer_info@,
            r.groups@.len() == 0,
            r.buffered_bytes == 0,
            r.pending() == Multiset::<AggRoute>::empty(),
            r.max_bytes == max_bytes,
            r.groups_created == 0,
            r.budget_evictions == 0,
    {
        RouteAggregator {
            groups: Vec::new(),
            index: HashMap::new(),
            peer_info,
            buffered_bytes: 0,
            max_bytes,
            groups_created: 0,
            budget_evictions: 0,
        }
    }

    /// What is told of a peer, if it is known.
    pub fn peer(&self, id: IngressId) -> (r: Option<&PeerInfo>)
        ensures
            match r {
                Some(p) => self.peer_info@.contains_key(id) && *p == self.peer_info@[id],
                None => !self.peer_info@.contains_key(id),
            },
    {
        broadcast use group_hash_axioms;

        self.peer_info.get(&id)
    }

    /// Whether a peer is known.
    pub fn has_peer(&self, id: IngressId) -> (r: bool)
        ensures
            r == self.peer_info@.contains_key(id),
    {
        self.peer_info.contains_key(&id)
    }

    /// Makes a peer known that was met during the walk.
    pub fn insert_peer(&mut self, id: IngressId, info: PeerInfo)
        requires
            old(self).wf(),
        ensures
            final(self).wf(),
            final(self).peer_info@ == old(self).peer_info@.insert(id, info),
            final(self).groups == old(self).groups,
            final(self).buffered_bytes == old(self).buffered_bytes,
            final(self).max_bytes == old(self).max_bytes,
            final(self).groups_created == old(self).groups_created,
            final(self).budget_evictions == old(self).budget_evictions,
    {
        self.peer_info.insert(id, info);
    }

    /// The number of groups that were opened, and of those that were sent
    /// early because of the budget.
    pub fn stats(&self) -> (r: (usize, usize))
        ensures
            r == (self.groups_created, self.budget_evictions),
    {
        (self.groups_created, self.budget_evictions)
    }

    /// Takes one group out.
    fn take_group(&mut self, i: usize) -> (g: AggGroup)
        requires
            old(self).wf_groups(),
            i < old(self).groups@.len(),
        ensures
            final(self).wf_groups(),
            g.wf(),
            final(self).peer_info@.contains_key(g.key.ingress_id),
            g == old(self).groups@[i as int],
            final(self).groups@ == old(self).groups@.update(i as int, old(self).groups@.last()).drop_last(),
            final(self).pending().add(g.routes()) == old(self).pending(),
            old(self).packing().open.contains_key(g.id()),
            old(self).packing().open[g.id()] == item_views(g.items@),
            final(self).packing() == old(self).packing().without(g.id()),
            final(self).buffered_bytes + g.charge() == old(self).buffered_bytes,
            final(self).buffered_bytes < old(self).buffered_bytes,
            final(self).peer_info == old(self).peer_info,
            final(self).max_bytes == old(self).max_bytes,
            final(self).groups_created == old(self).groups_created,
            final(self).budget_evictions == old(self).budget_evictions,
    {
        let ghost before = self.groups@;
        let ghost n = self.groups@.len();
        proof {
            lemma_take_group(self.groups@, i as int);
            lemma_charges_are_positive(self.groups@);
            self.lemma_distinct();
            lemma_open(self.groups@, i as int);
            lemma_open_take(self.groups@, i as int);
            lemma_views(self.groups@[i as int].items@);
        }
        let cost: usize = self.groups[i].cost();
        let hash: u64 = self.groups[i].hash;
        self.buffered_bytes = self.buffered_bytes - cost as u128;
        let g = self.groups.swap_remove(i);
        self.index.remove(&hash);
        if i < self.groups.len() {
            let moved: u64 = self.groups[i].hash;
            self.index.insert(moved, i);
        }
        proof {
            assert(self.groups@ =~= before.update(i as int, before.last()).drop_last());
            assert forall|j: int| 0 <= j < self.groups@.len() implies {
                &&& (#[trigger] self.groups@[j]).wf()
                &&& self.peer_info@.contains_key(self.groups@[j].key.ingress_id)
                &&& self.index@.contains_key(self.groups@[j].hash)
                &&& self.index@[self.groups@[j].hash] == j
            } by {
                if j == i {
                    assert(self.groups@[j] == before[n - 1]);
                } else {
                    assert(self.groups@[j] == before[j]);
                    assert(before[j].hash != before[i as int].hash);
                    assert(before[j].hash != before[n - 1].hash);
                }
            }
        }
        g
    }

    /// Puts a group in.
    fn put_group(&mut self, g: AggGroup)
        requires
            old(self).wf_groups(),
            g.wf(),
            old(self).peer_info@.contains_key(g.key.ingress_id),
            forall|i: int| 0 <= i < old(self).groups@.len() ==> (#[trigger] old(self).groups@[i]).hash != g.hash,
            old(self).buffered_bytes <= old(self).max_bytes,
        ensures
            final(self).wf_groups(),
            final(self).groups@ == old(self).groups@.push(g),
            final(self).pending() == old(self).pending().add(g.routes()),
            final(self).packing() == old(self).packing().with(g.id(), item_views(g.items@)),
            final(self).peer_info == old(self).peer_info,
            final(self).max_bytes == old(self).max_bytes,
            final(self).groups_created == old(self).groups_created,
            final(self).budget_evictions == old(self).budget_evictions,
    {
        let ghost before = self.groups@;
        let cost: usize = g.cost();
        let n: usize = self.groups.len();
        self.index.insert(g.hash, n);
        self.buffered_bytes = self.buffered_bytes + cost as u128;
        proof {
            lemma_push_group(before, g);
            old(self).lemma_distinct();
            if has_id(before, g.id()) {
                let j = choose|j: int| 0 <= j < before.len() && (#[trigger] before[j]).id() == g.id();
                assert(before[j].hash == g.hash);
            }
            lemma_open_push(before, g);
            lemma_views(g.items@);
        }
        self.groups.push(g);
        assert forall|j: int| 0 <= j < self.groups@.len() implies {
            &&& (#[trigger] self.groups@[j]).wf()
            &&& self.peer_info@.contains_key(self.groups@[j].key.ingress_id)
            &&& self.index@.contains_key(self.groups@[j].hash)
            &&& self.index@[self.groups@[j].hash] == j
        } by {
            if j < n {
                assert(self.groups@[j] == before[j]);
            }
        }
    }

    /// Sends a group.
    fn emit(&self, g: AggGroup, now: Timestamp) -> (m: AggMessage)
        requires
            g.wf(),
            self.peer_info@.contains_key(g.key.ingress_id),
        ensures
            m.key == g.key,
            m.raw == g.raw,
            m.items == g.items,
            m.announces(self.peer_info@[g.key.ingress_id], now),
    {
        let ghost (raw, items) = (g.raw@, g.items@);
        match self.peer_info.get(&g.key.ingress_id) {
            Some(peer) => {
                let key = g.key;
                match g.emit(peer, now) {
                    Some(m) => {
                        assert(group_update(key, raw, items).len() <= MAX_BGP_UPDATE_LEN);
                        m
                    },
                    None => {
                        assert(false);
                        AggMessage { key, raw: Vec::new(), items: Vec::new(), bytes: Vec::new() }
                    },
                }
            },
            None => {
                assert(false);
                AggMessage { key: g.key, raw: g.raw, items: g.items, bytes: Vec::new() }
            },
        }
    }

    /// The fullest group, prefixes before FlowSpec rules.
    fn fullest(&self) -> (r: usize)
        requires
            self.groups@.len() > 0,
        ensures
            r < self.groups@.len(),
            forall|j: int|
                0 <= j < self.groups@.len() ==> fuller(
                    self.groups@[r as int].key.flowspec,
                    self.groups@[r as int].items@.len(),
                    (#[trigger] self.groups@[j]).key.flowspec,
                    self.groups@[j].items@.len(),
                ),
    {
        let mut best: usize = 0;
        let mut i: usize = 1;
        while i < self.groups.len()
            invariant
                best < self.groups@.len(),
                1 <= i <= self.groups@.len(),
                forall|j: int|
                    0 <= j < i ==> fuller(
                        self.groups@[best as int].key.flowspec,
                        self.groups@[best as int].items@.len(),
                        (#[trigger] self.groups@[j]).key.flowspec,
                        self.groups@[j].items@.len(),
                    ),
            decreases self.groups@.len() - i,
        {
            let a = &self.groups[i];
            let b = &self.groups[best];
            if (a.key.flowspec == b.key.flowspec && a.items.len() > b.items.len()) || (
            !a.key.flowspec && b.key.flowspec) {
                best = i;
            }
            i = i + 1;
        }
        best
    }

    /// The fullest group is the fullest of those that are open.
    proof fn lemma_fullest(self, i: int)
        requires
            self.wf_groups(),
            0 <= i < self.groups@.len(),
            forall|j: int|
                0 <= j < self.groups@.len() ==> fuller(
                    self.groups@[i].key.flowspec,
                    self.groups@[i].items@.len(),
                    (#[trigger] self.groups@[j]).key.flowspec,
                    self.groups@[j].items@.len(),
                ),
        ensures
            forall|k: GroupId| #[trigger]
                self.packing().open.contains_key(k) ==> fuller(
                    self.groups@[i].key.flowspec,
                    self.packing().open[self.groups@[i].id()].len(),
                    k.0.flowspec,
                    self.packing().open[k].len(),
                ),
    {
        self.lemma_distinct();
        lemma_open(self.groups@, i);
        assert forall|k: GroupId| #[trigger] self.packing().open.contains_key(k) implies fuller(
            self.groups@[i].key.flowspec,
            self.packing().open[self.groups@[i].id()].len(),
            k.0.flowspec,
            self.packing().open[k].len(),
        ) by {
            let j = choose|j: int| 0 <= j < self.groups@.len() && (#[trigger] self.groups@[j]).id() == k;
            lemma_open(self.groups@, j);
        }
    }

    /// Sends the fullest groups until the charge is at most half of the
    /// budget.
    fn evict_until_under_budget(&mut self, now: Timestamp) -> (r: Vec<AggMessage>)
        requires
            old(self).wf_groups(),
            old(self).buffered_bytes > old(self).max_bytes,
        ensures
            final(self).wf(),
            old(self).packing().evicted(final(self).packing(), all_sent(r@), old(self).max_bytes as int),
            final(self).peer_info == old(self).peer_info,
            final(self).max_bytes == old(self).max_bytes,
            final(self).groups_created == old(self).groups_created,
            final(self).pending().add(carried_routes(r@)) == old(self).pending(),
            final(self).all_announce(r@, now),
            final(self).budget_evictions == usize_min(old(self).budget_evictions + r@.len()),
    {
        let target: usize = self.max_bytes / 2;
        let mut out: Vec<AggMessage> = Vec::new();
        let ghost full = self.packing().open;
        assert(self.pending().add(carried_routes(out@)) =~= old(self).pending());
        proof {
            lemma_evict_none(full);
            assert(all_sent(out@) =~= Seq::<Sent>::empty());
        }
        while self.buffered_bytes > target as u128
            invariant
                self.wf_groups(),
                target == self.max_bytes / 2,
                self.peer_info == old(self).peer_info,
                self.max_bytes == old(self).max_bytes,
                self.groups_created == old(self).groups_created,
                self.pending().add(carried_routes(out@)) == old(self).pending(),
                self.all_announce(out@, now),
                carry_groups(full, all_sent(out@)),
                self.packing().open == full.remove_keys(sent_ids(all_sent(out@))),
                fullest_out(all_sent(out@), self.packing().open),
                out@.len() == 0 ==> self.buffered_bytes == old(self).buffered_bytes,
                out@.len() > 0 ==> self.buffered_bytes + group_charge(all_sent(out@).last().1) > target,
                self.budget_evictions == usize_min(old(self).budget_evictions + out@.len()),
            decreases self.groups@.len(),
        {
            assert(self.groups@.len() > 0);
            let i: usize = self.fullest();
            let ghost before = *self;
            let ghost sent = out@;
            let g = self.take_group(i);
            self.budget_evictions = self.budget_evictions.saturating_add(1);
            let m = self.emit(g, now);
            proof {
                lemma_push_message(sent, m);
                assert(m.routes() == g.routes());
                self.lemma_announce_push(sent, m, now);
                lemma_add_swap(self.pending(), g.routes(), carried_routes(sent));
            }
            proof {
                before.lemma_fullest(i as int);
                lemma_views(g.items@);
                lemma_evict_one(full, before.packing().open, all_sent(sent), g.id());
                lemma_sent_push(sent, m);
                assert(m.sent() == (g.id(), before.packing().open[g.id()]));
            }
            out.push(m);
        }
        out
    }

    /// Finds the group for a route, or opens one. Another group that has the
    /// same hash is sent.
    fn open_group(&mut self, key: GroupKey, pamap: &RotondaPaMap, now: Timestamp) -> (r: (
        AggGroup,
        Vec<AggMessage>,
    ))
        requires
            old(self).wf(),
            old(self).peer_info@.contains_key(key.ingress_id),
        ensures
            final(self).wf(),
            final(self).peer_info == old(self).peer_info,
            final(self).max_bytes == old(self).max_bytes,
            final(self).budget_evictions == old(self).budget_evictions,
            r.0.consistent(),
            r.0.matches(key, attr_blob(pamap@)),
            base_len_of(key, r.0.raw@) == base_len_of(key, pamap@),
            final(self).packing() == old(self).packing().way_made((key, attr_blob(pamap@))).0.without(
                (key, attr_blob(pamap@)),
            ),
            item_views(r.0.items@) == old(self).packing().way_made((key, attr_blob(pamap@))).0.items(
                (key, attr_blob(pamap@)),
            ),
            all_sent(r.1@) == old(self).packing().way_made((key, attr_blob(pamap@))).1,
            forall|j: int| 0 <= j < final(self).groups@.len() ==> (#[trigger] final(self).groups@[j]).hash != r.0.hash,
            final(self).all_announce(r.1@, now),
            final(self).pending().add(r.0.routes()).add(carried_routes(r.1@)) == old(self).pending(),
            final(self).groups_created == (if old(self).has_group(key, attr_blob(pamap@)) {
                old(self).groups_created as int
            } else {
                usize_min(old(self).groups_created + 1)
            }),
    {
        let blob = pamap.blob();
        let hash: u64 = hash_pa_blob(key, blob);
        let ghost id = (key, attr_blob(pamap@));
        let mut out: Vec<AggMessage> = Vec::new();
        assert(out@ =~= Seq::empty());
        assert(all_sent(out@) =~= Seq::<Sent>::empty());
        assert(carried_routes(out@) =~= Multiset::empty());
        let slot: Option<usize> = match self.index.get(&hash) {
            Some(i) => Some(*i),
            None => None,
        };
        if let Some(i) = slot {
            if i < self.groups.len() && self.groups[i].hash == hash {
                let ghost n = self.groups@.len();
                proof {
                    self.lemma_in_the_way(id, i as int);
                }
                let g = self.take_group(i);
                proof {
                    lemma_items_len(g.key, g.items@);
                    assert forall|j: int| 0 <= j < self.groups@.len() implies (
                    #[trigger] self.groups@[j]).hash != hash by {
                        let jj: int = if j == i {
                            n - 1
                        } else {
                            j
                        };
                        assert(self.groups@[j] == old(self).groups@[jj]);
                    }
                }
                if g.key == key && bytes_equal(g.blob(), blob) {
                    assert(old(self).groups@[i as int].matches(key, attr_blob(pamap@)));
                    assert(self.pending().add(g.routes()).add(carried_routes(out@)) =~= old(
                        self,
                    ).pending());
                    return (g, out);
                }
                proof {
                    old(self).lemma_no_group(key, attr_blob(pamap@), i as int);
                }
                let m = self.emit(g, now);
                proof {
                    lemma_push_message(out@, m);
                    self.lemma_announce_push(out@, m, now);
                    assert(m.routes() == g.routes());
                    lemma_sent_push(out@, m);
                    assert(all_sent(out@).push(m.sent()) =~= seq![(g.id(), item_views(g.items@))]);
                    assert(!self.packing().open.contains_key(id));
                }
                out.push(m);
                let group = AggGroup::new(key, pamap);
                assert(item_views(group.items@) =~= Seq::<ItemView>::empty());
                self.groups_created = self.groups_created.saturating_add(1);
                assert(self.pending().add(group.routes()).add(carried_routes(out@)) =~= old(
                    self,
                ).pending());
                return (group, out);
            }
        }
        proof {
            assert forall|j: int| 0 <= j < self.groups@.len() implies (
            #[trigger] self.groups@[j]).hash != hash by {}
            if old(self).has_group(key, attr_blob(pamap@)) {
                let j = choose|j: int|
                    0 <= j < old(self).groups@.len() && (#[trigger] old(self).groups@[j]).matches(
                        key,
                        attr_blob(pamap@),
                    );
                assert(old(self).groups@[j].hash == hash);
            }
            self.lemma_not_in_the_way(id);
        }
        let group = AggGroup::new(key, pamap);
        assert(item_views(group.items@) =~= Seq::<ItemView>::empty());
        self.groups_created = self.groups_created.saturating_add(1);
        assert(self.pending().add(group.routes()).add(carried_routes(out@)) =~= old(self).pending());
        (group, out)
    }

    /// Sends the routes of a group that has no room for `nlri_len` octets
    /// more; the group stays, without them.
    fn make_room(&self, group: AggGroup, nlri_len: usize, out: &mut Vec<AggMessage>, now: Timestamp) -> (r:
        AggGroup)
        requires
            group.consistent(),
            self.peer_info@.contains_key(group.key.ingress_id),
            self.all_announce(old(out)@, now),
        ensures
            r.consistent(),
            r.key == group.key,
            r.hash == group.hash,
            r.raw@ == group.raw@,
            r.base_len == group.base_len,
            r.items@.len() > 0 ==> r.base_len + r.nlri_total + nlri_len <= MAX_BGP_UPDATE_LEN,
            r.routes().add(carried_routes(final(out)@)) == group.routes().add(
                carried_routes(old(out)@),
            ),
            self.all_announce(final(out)@, now),
            if group.items@.len() > 0 && base_len_of(group.key, group.raw@) + items_len(group.items@) + nlri_len
                > MAX_BGP_UPDATE_LEN {
                r.items@.len() == 0 && all_sent(final(out)@) == all_sent(old(out)@).push(
                    (group.id(), item_views(group.items@)),
                )
            } else {
                r.items@ == group.items@ && all_sent(final(out)@) == all_sent(old(out)@)
            },
    {
        if group.items.len() == 0 || (nlri_len <= MAX_BGP_UPDATE_LEN && group.bgp_update_len()
            <= MAX_BGP_UPDATE_LEN - nlri_len) {
            return group;
        }
        let n: usize = group.raw.len();
        let raw = copy_range(&group.raw, 0, n);
        assert(raw@ =~= group.raw@);
        let key = group.key;
        let base_len: usize = group.base_len;
        let hash: u64 = group.hash;
        let ghost full = group.routes();
        let m = self.emit(group, now);
        proof {
            lemma_sent_push(out@, m);
            lemma_push_message(out@, m);
            self.lemma_announce_push(out@, m, now);
            assert(m.routes() == full);
        }
        let ghost sent = carried_routes(out@);
        out.push(m);
        let r = AggGroup { key, hash, raw, items: Vec::new(), nlri_total: 0, base_len };
        proof {
            assert(r.items@ =~= Seq::empty());
            assert(r.routes() =~= Multiset::empty());
            assert(r.routes().add(sent.add(full)) =~= full.add(sent));
        }
        r
    }

    /// Adds one route to a group with room for it, and puts the group in.
    fn accept(
        &mut self,
        group: AggGroup,
        item: AggItem,
        nlri_len: usize,
        now: Timestamp,
    ) -> (r: Vec<AggMessage>)
        requires
            old(self).wf(),
            old(self).peer_info@.contains_key(group.key.ingress_id),
            forall|j: int| 0 <= j < old(self).groups@.len() ==> (#[trigger] old(self).groups@[j]).hash != group.hash,
            group.consistent(),
            group.base_len + group.nlri_total + nlri_len <= MAX_BGP_UPDATE_LEN,
            item_fits(group.key, item),
            nlri_len == item_len(group.key.has_path_id, item.nlri@),
        ensures
            final(self).wf(),
            final(self).peer_info == old(self).peer_info,
            final(self).max_bytes == old(self).max_bytes,
            final(self).groups_created == old(self).groups_created,
            final(self).all_announce(r@, now),
            ({
                let full = old(self).packing().with(
                    group.id(),
                    item_views(group.items@).push((item.path_id, item.nlri@)),
                );
                if full.charge <= old(self).max_bytes {
                    &&& final(self).packing() == full
                    &&& r@.len() == 0
                    &&& final(self).budget_evictions == old(self).budget_evictions
                } else {
                    &&& full.evicted(final(self).packing(), all_sent(r@), old(self).max_bytes as int)
                    &&& final(self).budget_evictions == usize_min(old(self).budget_evictions + r@.len())
                }
            }),
            final(self).pending().add(carried_routes(r@)) == old(self).pending().add(
                group.routes().insert(
                    (group.key.ingress_id, item.path_id, item.nlri@, attr_blob(group.raw@)),
                ),
            ),
    {
        let ghost route = (group.key.ingress_id, item.path_id, item.nlri@, attr_blob(group.raw@));
        let ghost start = group;
        let mut group = group;
        group.push(item, nlri_len);
        proof {
            assert(group.items@.drop_last() =~= start.items@);
            assert(group.routes() == start.routes().insert(route));
        }
        self.put_group(group);
        if self.buffered_bytes > self.max_bytes as u128 {
            self.evict_until_under_budget(now)
        } else {
            assert(self.pending().add(carried_routes(Seq::empty())) =~= self.pending());
            Vec::new()
        }
    }

    /// Adds one route to its group.
    fn add_item(
        &mut self,
        key: GroupKey,
        item: AggItem,
        nlri_len: usize,
        pamap: &RotondaPaMap,
        now: Timestamp,
    ) -> (r: Vec<AggMessage>)
        requires
            old(self).wf(),
            old(self).peer_info@.contains_key(key.ingress_id),
            item_fits(key, item),
            nlri_len == item_len(key.has_path_id, item.nlri@),
        ensures
            final(self).wf(),
            final(self).peer_info == old(self).peer_info,
            final(self).max_bytes == old(self).max_bytes,
            final(self).all_announce(r@, now),
            old(self).took(*final(self), key, pamap@, (item.path_id, item.nlri@), single_update(key, pamap@, item) is Some, r@),
            final(self).pending().add(carried_routes(r@)) == (if sendable(key, pamap@, item) {
                old(self).pending().insert(
                    (key.ingress_id, item.path_id, item.nlri@, attr_blob(pamap@)),
                )
            } else {
                old(self).pending()
            }),
            final(self).groups_created == (if old(self).has_group(key, attr_blob(pamap@)) {
                old(self).groups_created as int
            } else {
                usize_min(old(self).groups_created + 1)
            }),
    {
        let ghost route = (key.ingress_id, item.path_id, item.nlri@, attr_blob(pamap@));
        let ghost id = (key, attr_blob(pamap@));
        let ghost view = (item.path_id, item.nlri@);
        let ghost framable = single_update(key, pamap@, item) is Some;
        let ghost base = base_len_of(key, pamap@);
        let ghost (p, rest, first) = self.packing().room_made(id, base, nlri_len as int);
        let (opened, mut out) = self.open_group(key, pamap, now);
        proof {
            lemma_views(opened.items@);
        }
        let ghost held = self.pending();
        let ghost (r0, c0) = (opened.routes(), carried_routes(out@));
        let group = self.make_room(opened, nlri_len, &mut out, now);
        proof {
            lemma_views(group.items@);
            assert(item_views(group.items@) =~= rest);
            assert(all_sent(out@) =~= first);
            assert(self.packing() == p);
            lemma_add_swap(held, r0, c0);
            lemma_add_swap(held, group.routes(), carried_routes(out@));
            assert(held.add(group.routes()).add(carried_routes(out@)) == old(self).pending());
        }
        if group.items.len() == 0 && (nlri_len > MAX_BGP_UPDATE_LEN || group.base_len
            > MAX_BGP_UPDATE_LEN - nlri_len) {
            proof {
                assert(group.items@ =~= Seq::empty());
                assert(group.routes() =~= Multiset::empty());
                assert(held.add(group.routes()) =~= held);
            }
            if let Some(m) = self.single(key, item, pamap, now) {
                proof {
                    lemma_push_message(out@, m);
                    self.lemma_announce_push(out@, m, now);
                    lemma_add_insert(held, carried_routes(out@), route);
                    lemma_sent_push(out@, m);
                }
                out.push(m);
            }
            proof {
                old(self).lemma_took_alone(*self, key, pamap@, view, framable, out@);
            }
            return out;
        }
        let ghost sent = out@;
        proof {
            lemma_insert_in_group(held, group.routes(), carried_routes(sent), route);
        }
        let mut more = self.accept(group, item, nlri_len, now);
        let ghost ev = more@;
        out.append(&mut more);
        proof {
            assert(out@ =~= sent + ev);
            lemma_carried_concat(sent, ev);
            lemma_add_swap(self.pending(), carried_routes(ev), carried_routes(sent));
            self.lemma_announce_concat(sent, ev, now);
            lemma_sent_concat(sent, ev);
            old(self).lemma_took_waiting(*self, key, pamap@, view, framable, out@, ev);
        }
        out
    }

    /// What adding a route does to the groups, what is sent, and how many
    /// evictions are counted.
    pub open spec fn took(
        self,
        after: Self,
        key: GroupKey,
        raw: Seq<u8>,
        item: ItemView,
        framable: bool,
        r: Seq<AggMessage>,
    ) -> bool {
        exists|evictions: int| #[trigger]
            self.packing().added(
                after.packing(),
                (key, attr_blob(raw)),
                base_len_of(key, raw),
                item,
                framable,
                self.max_bytes as int,
                all_sent(r),
                evictions,
            ) && after.budget_evictions == usize_min(self.budget_evictions + evictions)
    }

    /// A route that no UPDATE has room for goes by itself, or not at all.
    proof fn lemma_took_alone(
        self,
        after: Self,
        key: GroupKey,
        raw: Seq<u8>,
        item: ItemView,
        framable: bool,
        r: Seq<AggMessage>,
    )
        requires
            ({
                let id = (key, attr_blob(raw));
                let base = base_len_of(key, raw);
                let len = item_len(item.0 is Some, item.1);
                let (p, rest, first) = self.packing().room_made(id, base, len);
                &&& rest.len() == 0
                &&& base + len > MAX_BGP_UPDATE_LEN
                &&& after.packing() == p
                &&& all_sent(r) == (if framable {
                    first.push((id, seq![item]))
                } else {
                    first
                })
            }),
            after.budget_evictions == self.budget_evictions,
        ensures
            self.took(after, key, raw, item, framable, r),
    {
        assert(self.packing().added(
            after.packing(),
            (key, attr_blob(raw)),
            base_len_of(key, raw),
            item,
            framable,
            self.max_bytes as int,
            all_sent(r),
            0,
        ));
    }

    /// Another route waits in its group, and makes the fullest groups go if
    /// too much is buffered.
    proof fn lemma_took_waiting(
        self,
        after: Self,
        key: GroupKey,
        raw: Seq<u8>,
        item: ItemView,
        framable: bool,
        r: Seq<AggMessage>,
        ev: Seq<AggMessage>,
    )
        requires
            ({
                let id = (key, attr_blob(raw));
                let base = base_len_of(key, raw);
                let len = item_len(item.0 is Some, item.1);
                let (p, rest, first) = self.packing().room_made(id, base, len);
                let full = p.with(id, rest.push(item));
                &&& !(rest.len() == 0 && base + len > MAX_BGP_UPDATE_LEN)
                &&& all_sent(r) == first + all_sent(ev)
                &&& if full.charge <= self.max_bytes {
                    &&& after.packing() == full
                    &&& ev.len() == 0
                    &&& after.budget_evictions == self.budget_evictions
                } else {
                    &&& full.evicted(after.packing(), all_sent(ev), self.max_bytes as int)
                    &&& after.budget_evictions == usize_min(self.budget_evictions + ev.len())
                }
            }),
        ensures
            self.took(after, key, raw, item, framable, r),
    {
        let id = (key, attr_blob(raw));
        let base = base_len_of(key, raw);
        let (p, rest, first) = self.packing().room_made(id, base, item_len(item.0 is Some, item.1));
        assert(all_sent(r).skip(first.len() as int) =~= all_sent(ev));
        assert(ev.len() == 0 ==> all_sent(r) =~= first);
        assert(self.packing().added(
            after.packing(),
            id,
            base,
            item,
            framable,
            self.max_bytes as int,
            all_sent(r),
            ev.len() as int,
        ));
    }

    /// Whether a group is open for routes with this key and these attributes.
    pub open spec fn has_group(self, key: GroupKey, blob: Seq<u8>) -> bool {
        exists|j: int| 0 <= j < self.groups@.len() && (#[trigger] self.groups@[j]).matches(key, blob)
    }

    /// If the group with the hash of a key is another one, there is none for
    /// the key.
    proof fn lemma_no_group(self, key: GroupKey, blob: Seq<u8>, i: int)
        requires
            self.wf(),
            0 <= i < self.groups@.len(),
            self.groups@[i].hash == group_hash(key, blob),
            !self.groups@[i].matches(key, blob),
        ensures
            !self.has_group(key, blob),
    {
        if self.has_group(key, blob) {
            let j = choose|j: int|
                0 <= j < self.groups@.len() && (#[trigger] self.groups@[j]).matches(key, blob);
            assert(self.groups@[j].hash == self.groups@[i].hash);
            assert(i == j);
        }
    }

    /// Sends one route by itself, if BGP can frame it.
    fn single(&self, key: GroupKey, item: AggItem, pamap: &RotondaPaMap, now: Timestamp) -> (r: Option<
        AggMessage,
    >)
        requires
            self.peer_info@.contains_key(key.ingress_id),
            item_fits(key, item),
            base_len_of(key, pamap@) + item_len(key.has_path_id, item.nlri@) > MAX_BGP_UPDATE_LEN,
        ensures
            r is Some == (single_update(key, pamap@, item) is Some),
            r matches Some(m) ==> {
                &&& m.key == key
                &&& m.sent() == ((key, attr_blob(pamap@)), seq![(item.path_id, item.nlri@)])
                &&& m.routes() == Multiset::<AggRoute>::empty().insert(
                    (key.ingress_id, item.path_id, item.nlri@, attr_blob(pamap@)),
                )
                &&& m.announces(self.peer_info@[key.ingress_id], now)
            },
    {
        let peer = match self.peer_info.get(&key.ingress_id) {
            Some(p) => p,
            None => {
                assert(false);
                return None;
            },
        };
        let ghost update = single_update(key, pamap@, item);
        let bytes = match &item.nlri {
            AggNlri::Prefix(p) => build_route_monitoring_at(peer, p, pamap, false, item.path_id, now),
            AggNlri::Rule(x) => build_flowspec_route_monitoring_at(
                peer,
                key.is_v4,
                x,
                pamap,
                false,
                item.path_id,
                now,
            ),
        };
        match bytes {
            Some(b) => {
                let n: usize = pamap.raw.len();
                let raw = copy_range(&pamap.raw, 0, n);
                assert(raw@ =~= pamap@);
                let ghost the_item = item;
                let mut items: Vec<AggItem> = Vec::new();
                items.push(item);
                let m = AggMessage { key, raw, items, bytes: b };
                proof {
                    assert(items@.drop_last() =~= Seq::empty());
                    assert(item_views(items@) =~= seq![(the_item.path_id, the_item.nlri@)]);
                    assert(m.items@[0] == the_item);
                    assert(m.bytes@ == route_monitoring_bytes(*peer, now, update->0));
                    assert(update->0.len() <= MAX_BGP_UPDATE_LEN);
                    assert(item_routes(key.ingress_id, attr_blob(raw@), items@.drop_last())
                        =~= Multiset::empty());
                }
                Some(m)
            },
            None => None,
        }
    }

    /// Adds one prefix of a peer. Messages that are complete are returned, in
    /// the order in which they are to be sent; the others follow later. A
    /// route of an unknown peer is dropped, and so is one that BGP cannot
    /// frame by itself. No other route is lost, and none is sent twice.
    pub fn add(
        &mut self,
        ingress_id: IngressId,
        path_id: Option<u32>,
        prefix: Prefix,
        pamap: &RotondaPaMap,
        now: Timestamp,
    ) -> (r: Vec<AggMessage>)
        requires
            old(self).wf(),
            prefix.wf(),
        ensures
            final(self).wf(),
            final(self).peer_info == old(self).peer_info,
            final(self).max_bytes == old(self).max_bytes,
            final(self).all_announce(r@, now),
            final(self).pending().add(carried_routes(r@)) == (if old(
                self,
            ).peer_info@.contains_key(ingress_id) && prefix_sendable(prefix@, pamap@, path_id) {
                old(self).pending().insert(
                    (ingress_id, path_id, NlriView::Prefix(prefix@), attr_blob(pamap@)),
                )
            } else {
                old(self).pending()
            }),
            if old(self).peer_info@.contains_key(ingress_id) {
                old(self).took(
                    *final(self),
                    prefix_key(ingress_id, prefix@, path_id),
                    pamap@,
                    (path_id, NlriView::Prefix(prefix@)),
                    prefix_update(prefix@, pamap@, false, path_id) is Some,
                    r@,
                )
            } else {
                *final(self) == *old(self) && r@.len() == 0
            },
            final(self).groups_created == (if !old(self).peer_info@.contains_key(ingress_id)
                || old(self).has_group(
                prefix_key(ingress_id, prefix@, path_id),
                attr_blob(pamap@),
            ) {
                old(self).groups_created as int
            } else {
                usize_min(old(self).groups_created + 1)
            }),
    {
        if !self.has_peer(ingress_id) {
            assert(self.pending().add(carried_routes(Seq::empty())) =~= self.pending());
            return Vec::new();
        }
        let has_path_id = path_id.is_some();
        let key = GroupKey { ingress_id, is_v4: prefix.is_v4(), has_path_id, flowspec: false };
        let nlri_len: usize = nlri_encoded_len(&prefix, has_path_id);
        let item = AggItem { path_id, nlri: AggNlri::Prefix(prefix) };
        assert(nlri_bytes(prefix@, path_id).len() == nlri_len);
        assert(prefix@.1.take(prefix_octets(prefix@.2 as int)).len() == prefix_octets(prefix@.2 as int));
        self.add_item(key, item, nlri_len, pamap, now)
    }

    /// Adds one FlowSpec rule of a peer, as [`add`](Self::add) does a prefix.
    pub fn add_flowspec(
        &mut self,
        ingress_id: IngressId,
        path_id: Option<u32>,
        is_v4: bool,
        nlri_raw: &[u8],
        pamap: &RotondaPaMap,
        now: Timestamp,
    ) -> (r: Vec<AggMessage>)
        requires
            old(self).wf(),
            nlri_raw@.len() + 6 <= usize::MAX,
        ensures
            final(self).wf(),
            final(self).peer_info == old(self).peer_info,
            final(self).max_bytes == old(self).max_bytes,
            final(self).all_announce(r@, now),
            final(self).pending().add(carried_routes(r@)) == (if old(
                self,
            ).peer_info@.contains_key(ingress_id) && rule_sendable(
                is_v4,
                nlri_raw@,
                pamap@,
                path_id,
            ) {
                old(self).pending().insert(
                    (ingress_id, path_id, NlriView::Rule(nlri_raw@), attr_blob(pamap@)),
                )
            } else {
                old(self).pending()
            }),
            if old(self).peer_info@.contains_key(ingress_id) {
                old(self).took(
                    *final(self),
                    rule_key(ingress_id, is_v4, path_id),
                    pamap@,
                    (path_id, NlriView::Rule(nlri_raw@)),
                    flowspec_update(is_v4, nlri_raw@, pamap@, false, path_id) is Some,
                    r@,
                )
            } else {
                *final(self) == *old(self) && r@.len() == 0
            },
            final(self).groups_created == (if !old(self).peer_info@.contains_key(ingress_id)
                || old(self).has_group(
                rule_key(ingress_id, is_v4, path_id),
                attr_blob(pamap@),
            ) {
                old(self).groups_created as int
            } else {
                usize_min(old(self).groups_created + 1)
            }),
    {
        if !self.has_peer(ingress_id) {
            assert(self.pending().add(carried_routes(Seq::empty())) =~= self.pending());
            return Vec::new();
        }
        let has_path_id = path_id.is_some();
        let key = GroupKey { ingress_id, is_v4, has_path_id, flowspec: true };
        let nlri_len: usize = flowspec_nlri_encoded_len(nlri_raw, has_path_id);
        let n: usize = nlri_raw.len();
        let rule = copy_range(nlri_raw, 0, n);
        assert(rule@ =~= nlri_raw@);
        let item = AggItem { path_id, nlri: AggNlri::Rule(rule) };
        self.add_item(key, item, nlri_len, pamap, now)
    }

    /// Takes one group out and sends it.
    fn send_group(&mut self, i: usize, out: &mut Vec<AggMessage>, now: Timestamp)
        requires
            old(self).wf(),
            i < old(self).groups@.len(),
            old(self).all_announce(old(out)@, now),
        ensures
            final(self).wf(),
            final(self).groups@ == old(self).groups@.update(i as int, old(self).groups@.last()).drop_last(),
            final(out)@.len() == old(out)@.len() + 1,
            final(out)@.drop_last() == old(out)@,
            final(out)@.last().key == old(self).groups@[i as int].key,
            forall|full: Map<GroupId, Seq<ItemView>>|
                sent_so_far(full, old(self).packing().open, all_sent(old(out)@)) ==> #[trigger] sent_so_far(
                    full,
                    final(self).packing().open,
                    all_sent(final(out)@),
                ),
            final(self).pending().add(carried_routes(final(out)@)) == old(self).pending().add(
                carried_routes(old(out)@),
            ),
            final(self).all_announce(final(out)@, now),
            final(self).peer_info == old(self).peer_info,
            final(self).max_bytes == old(self).max_bytes,
            final(self).groups_created == old(self).groups_created,
            final(self).budget_evictions == old(self).budget_evictions,
    {
        let ghost sent = out@;
        let g = self.take_group(i);
        let m = self.emit(g, now);
        proof {
            lemma_push_message(sent, m);
            assert(m.routes() == g.routes());
            self.lemma_announce_push(sent, m, now);
            lemma_add_swap(self.pending(), g.routes(), carried_routes(sent));
            lemma_charges_are_positive(self.groups@);
            lemma_sent_push(sent, m);
            assert forall|full: Map<GroupId, Seq<ItemView>>|
                sent_so_far(full, old(self).packing().open, all_sent(sent)) implies #[trigger] sent_so_far(
                full,
                self.packing().open,
                all_sent(sent.push(m)),
            ) by {
                lemma_sent_one(full, old(self).packing().open, all_sent(sent), g.id());
            }
        }
        out.push(m);
        assert(out@.drop_last() =~= sent);
    }

    /// Sends every group, prefixes before FlowSpec rules. To be called once,
    /// when the walk is over: after it nothing is pending, and the messages
    /// carry all that was.
    pub fn flush_all(&mut self, now: Timestamp) -> (r: Vec<AggMessage>)
        requires
            old(self).wf(),
        ensures
            final(self).wf(),
            final(self).groups@.len() == 0,
            final(self).buffered_bytes == 0,
            final(self).pending() == Multiset::<AggRoute>::empty(),
            carried_routes(r@) == old(self).pending(),
            carry_groups(old(self).packing().open, all_sent(r@)),
            sent_ids(all_sent(r@)) == old(self).packing().open.dom(),
            r@.len() == old(self).groups@.len(),
            prefixes_first(r@),
            final(self).all_announce(r@, now),
            final(self).peer_info == old(self).peer_info,
            final(self).max_bytes == old(self).max_bytes,
            final(self).groups_created == old(self).groups_created,
            final(self).budget_evictions == old(self).budget_evictions,
    {
        let mut out: Vec<AggMessage> = Vec::new();
        assert(self.pending().add(carried_routes(out@)) =~= old(self).pending());
        let mut i: usize = self.groups.len();
        let ghost full = self.packing().open;
        proof {
            reveal(rules_from);
            reveal(sorted_messages);
            lemma_sent_none(full);
            assert(all_sent(out@) =~= Seq::<Sent>::empty());
        }
        while i > 0
            invariant
                i <= self.groups@.len(),
                self.wf(),
                self.pending().add(carried_routes(out@)) == old(self).pending(),
                out@.len() + self.groups@.len() == old(self).groups@.len(),
                sorted_messages(out@, false),
                sent_so_far(full, self.packing().open, all_sent(out@)),
                rules_from(self.groups@, i as int),
                self.all_announce(out@, now),
                self.peer_info == old(self).peer_info,
                self.max_bytes == old(self).max_bytes,
                self.groups_created == old(self).groups_created,
                self.budget_evictions == old(self).budget_evictions,
            decreases i,
        {
            i = i - 1;
            proof {
                lemma_one_more_group(self.groups@, i as int);
            }
            if !self.groups[i].key.flowspec {
                self.send_group(i, &mut out, now);
                proof {
                    lemma_one_more_message(out@, false);
                }
            }
        }
        while self.groups.len() > 0
            invariant
                self.wf(),
                self.pending().add(carried_routes(out@)) == old(self).pending(),
                out@.len() + self.groups@.len() == old(self).groups@.len(),
                sorted_messages(out@, true),
                sent_so_far(full, self.packing().open, all_sent(out@)),
                rules_from(self.groups@, 0),
                self.all_announce(out@, now),
                self.peer_info == old(self).peer_info,
                self.max_bytes == old(self).max_bytes,
                self.groups_created == old(self).groups_created,
                self.budget_evictions == old(self).budget_evictions,
            decreases self.groups@.len(),
        {
            let last: usize = self.groups.len() - 1;
            proof {
                lemma_last_group(self.groups@);
            }
            self.send_group(last, &mut out, now);
            proof {
                lemma_one_more_message(out@, true);
            }
        }
        proof {
            lemma_sent_all(full, self.packing().open, all_sent(out@));
        }
        assert(carried_routes(out@) =~= old(self).pending());
        out
    }
}

/// The smaller of a number and the largest `usize`.
pub open spec fn usize_min(n: int) -> int {
    if n <= usize::MAX {
        n
    } else {
        usize::MAX as int
    }
}

/// Whether one UPDATE can announce a route, with others or by itself.
pub open spec fn sendable(key: GroupKey, raw: Seq<u8>, it: AggItem) -> bool {
    base_len_of(key, raw) + item_len(key.has_path_id, it.nlri@) <= MAX_BGP_UPDATE_LEN
        || single_update(key, raw, it) is Some
}

/// The key of the group of a prefix.
pub open spec fn prefix_key(id: IngressId, p: PrefixKey, path_id: Option<u32>) -> GroupKey {
    GroupKey { ingress_id: id, is_v4: p.0, has_path_id: path_id is Some, flowspec: false }
}

/// The key of the group of a FlowSpec rule.
pub open spec fn rule_key(id: IngressId, is_v4: bool, path_id: Option<u32>) -> GroupKey {
    GroupKey { ingress_id: id, is_v4, has_path_id: path_id is Some, flowspec: true }
}

/// Whether one UPDATE can announce a prefix with its attributes.
pub open spec fn prefix_sendable(p: PrefixKey, raw: Seq<u8>, path_id: Option<u32>) -> bool {
    base_len_of(prefix_key(0, p, path_id), raw) + nlri_bytes(p, path_id).len() <= MAX_BGP_UPDATE_LEN
        || prefix_update(p, raw, false, path_id) is Some
}

/// Whether one UPDATE can announce a FlowSpec rule with its attributes.
pub open spec fn rule_sendable(is_v4: bool, nlri: Seq<u8>, raw: Seq<u8>, path_id: Option<u32>) -> bool {
    base_len_of(rule_key(0, is_v4, path_id), raw) + flowspec_nlri_len(nlri, path_id is Some)
        <= MAX_BGP_UPDATE_LEN || flowspec_update(is_v4, nlri, raw, false, path_id) is Some
}

/// A route that one more message carries alone.
proof fn lemma_add_insert(a: Multiset<AggRoute>, c: Multiset<AggRoute>, route: AggRoute)
    ensures
        a.add(c.add(Multiset::empty().insert(route))) == a.add(c).insert(route),
{
    assert(a.add(c.add(Multiset::empty().insert(route))) =~= a.add(c).insert(route));
}

/// A route that one group holds more.
proof fn lemma_insert_in_group(
    a: Multiset<AggRoute>,
    g: Multiset<AggRoute>,
    c: Multiset<AggRoute>,
    route: AggRoute,
)
    ensures
        a.add(g.insert(route)).add(c) == a.add(g).add(c).insert(route),
{
    assert(a.add(g.insert(route)).add(c) =~= a.add(g).add(c).insert(route));
}

/// Messages one after the other carry what both carry.
pub proof fn lemma_carried_concat(a: Seq<AggMessage>, b: Seq<AggMessage>)
    ensures
        carried_routes(a + b) == carried_routes(a).add(carried_routes(b)),
    decreases b.len(),
{
    if b.len() == 0 {
        assert(a + b =~= a);
        assert(carried_routes(a).add(carried_routes(b)) =~= carried_routes(a));
    } else {
        lemma_carried_concat(a, b.drop_last());
        assert((a + b).drop_last() =~= a + b.drop_last());
        assert(carried_routes(a + b) =~= carried_routes(a).add(carried_routes(b)));
    }
}

} // verus!
