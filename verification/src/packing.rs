//! Which routes are packed together, and when they are sent: the groups that
//! are open, and what adding a route does to them.
use vstd::prelude::*;

use crate::aggregator::{
    fuller, group_hash, item_cost, item_len, items_cost, items_len, AggGroup, AggItem, AggMessage, GroupKey, NlriView,
    AGG_MEM_PER_GROUP,
};
use crate::bmp_builder::MAX_BGP_UPDATE_LEN;
use crate::pamap::attr_blob;

verus! {

/// A route in a group: its path id and what it announces.
pub type ItemView = (Option<u32>, NlriView);

/// What the routes of a group share: their key and their attributes.
pub type GroupId = (GroupKey, Seq<u8>);

/// The routes that are sent in one message, with what they share.
pub type Sent = (GroupId, Seq<ItemView>);

/// What items stand for.
pub open spec fn item_views(items: Seq<AggItem>) -> Seq<ItemView> {
    items.map_values(|it: AggItem| (it.path_id, it.nlri@))
}

/// The length that routes are taken to have as NLRI.
pub open spec fn views_len(v: Seq<ItemView>) -> int
    decreases v.len(),
{
    if v.len() == 0 {
        0
    } else {
        views_len(v.drop_last()) + item_len(v.last().0 is Some, v.last().1)
    }
}

/// The memory that is charged for routes.
pub open spec fn views_cost(v: Seq<ItemView>) -> int
    decreases v.len(),
{
    if v.len() == 0 {
        0
    } else {
        views_cost(v.drop_last()) + item_cost(v.last().1)
    }
}

/// The memory that is charged for a group with these routes.
pub open spec fn group_charge(v: Seq<ItemView>) -> int {
    AGG_MEM_PER_GROUP + views_cost(v)
}

pub proof fn lemma_views(items: Seq<AggItem>)
    ensures
        item_views(items).len() == items.len(),
        views_len(item_views(items)) == items_len(items),
        views_cost(item_views(items)) == items_cost(items),
    decreases items.len(),
{
    if items.len() > 0 {
        lemma_views(items.drop_last());
        assert(item_views(items).drop_last() =~= item_views(items.drop_last()));
        assert(item_views(items).last() == (items.last().path_id, items.last().nlri@));
    }
}

pub proof fn lemma_views_push(items: Seq<AggItem>, it: AggItem)
    ensures
        item_views(items.push(it)) == item_views(items).push((it.path_id, it.nlri@)),
{
    assert(item_views(items.push(it)) =~= item_views(items).push((it.path_id, it.nlri@)));
}

impl AggGroup {
    /// What the routes of the group share.
    pub open spec fn id(self) -> GroupId {
        (self.key, attr_blob(self.raw@))
    }
}

impl AggMessage {
    /// The routes that the message carries, with what they share.
    pub open spec fn sent(self) -> Sent {
        ((self.key, attr_blob(self.raw@)), item_views(self.items@))
    }
}

/// What each message carries.
pub open spec fn all_sent(msgs: Seq<AggMessage>) -> Seq<Sent> {
    msgs.map_values(|m: AggMessage| m.sent())
}

pub proof fn lemma_sent_push(msgs: Seq<AggMessage>, m: AggMessage)
    ensures
        all_sent(msgs.push(m)) == all_sent(msgs).push(m.sent()),
{
    assert(all_sent(msgs.push(m)) =~= all_sent(msgs).push(m.sent()));
}

pub proof fn lemma_sent_concat(a: Seq<AggMessage>, b: Seq<AggMessage>)
    ensures
        all_sent(a + b) == all_sent(a) + all_sent(b),
{
    assert(all_sent(a + b) =~= all_sent(a) + all_sent(b));
}

/// Whether no two groups share both key and attributes.
pub open spec fn distinct_ids(groups: Seq<AggGroup>) -> bool {
    forall|i: int, j: int| 0 <= i < j < groups.len() ==> (#[trigger] groups[i]).id() != (#[trigger] groups[j]).id()
}

/// Whether one of the groups is `id`.
pub open spec fn has_id(groups: Seq<AggGroup>, id: GroupId) -> bool {
    exists|j: int| 0 <= j < groups.len() && (#[trigger] groups[j]).id() == id
}

/// The routes of each group.
pub open spec fn open_groups(groups: Seq<AggGroup>) -> Map<GroupId, Seq<ItemView>> {
    Map::new(
        |id: GroupId| has_id(groups, id),
        |id: GroupId|
            item_views(groups[choose|j: int| 0 <= j < groups.len() && (#[trigger] groups[j]).id() == id].items@),
    )
}

pub proof fn lemma_open(groups: Seq<AggGroup>, j: int)
    requires
        distinct_ids(groups),
        0 <= j < groups.len(),
    ensures
        open_groups(groups).contains_key(groups[j].id()),
        open_groups(groups)[groups[j].id()] == item_views(groups[j].items@),
{
    let id = groups[j].id();
    let k = choose|k: int| 0 <= k < groups.len() && (#[trigger] groups[k]).id() == id;
    assert(has_id(groups, id));
    assert(k == j);
}

/// One more group.
pub proof fn lemma_open_push(groups: Seq<AggGroup>, g: AggGroup)
    requires
        distinct_ids(groups),
        !has_id(groups, g.id()),
    ensures
        distinct_ids(groups.push(g)),
        open_groups(groups.push(g)) == open_groups(groups).insert(g.id(), item_views(g.items@)),
{
    let now = groups.push(g);
    assert forall|i: int, j: int| 0 <= i < j < now.len() implies (#[trigger] now[i]).id() != (#[trigger] now[j]).id() by {
        assert(now[i] == groups[i]);
        if j < groups.len() {
            assert(now[j] == groups[j]);
        } else {
            assert(has_id(groups, groups[i].id()));
        }
    }
    let want = open_groups(groups).insert(g.id(), item_views(g.items@));
    assert forall|id: GroupId| open_groups(now).contains_key(id) == #[trigger] want.contains_key(id) && (
    want.contains_key(id) ==> open_groups(now)[id] == want[id]) by {
        if has_id(now, id) {
            let j = choose|j: int| 0 <= j < now.len() && (#[trigger] now[j]).id() == id;
            lemma_open(now, j);
            if j < groups.len() {
                assert(now[j] == groups[j]);
                lemma_open(groups, j);
            }
        }
        if want.contains_key(id) {
            if id == g.id() {
                assert(now[groups.len() as int].id() == id);
            } else {
                let j = choose|j: int| 0 <= j < groups.len() && (#[trigger] groups[j]).id() == id;
                assert(now[j] == groups[j]);
                assert(has_id(now, id));
            }
        }
    }
    assert(open_groups(now) =~= want);
}

/// One group less.
pub proof fn lemma_open_take(groups: Seq<AggGroup>, i: int)
    requires
        distinct_ids(groups),
        0 <= i < groups.len(),
    ensures
        distinct_ids(groups.update(i, groups.last()).drop_last()),
        open_groups(groups.update(i, groups.last()).drop_last()) == open_groups(groups).remove(groups[i].id()),
{
    let n = groups.len() - 1;
    let now = groups.update(i, groups.last()).drop_last();
    assert forall|j: int| 0 <= j < now.len() implies #[trigger] now[j] == groups[if j == i {
        n
    } else {
        j
    }] by {}
    assert forall|a: int, b: int| 0 <= a < b < now.len() implies (#[trigger] now[a]).id() != (#[trigger] now[b]).id() by {
        let x: int = if a == i {
            n
        } else {
            a
        };
        let y: int = if b == i {
            n
        } else {
            b
        };
        assert(now[a] == groups[x] && now[b] == groups[y]);
        if x > y {
            assert(groups[y].id() != groups[x].id());
        }
    }
    let want = open_groups(groups).remove(groups[i].id());
    assert forall|id: GroupId| open_groups(now).contains_key(id) == #[trigger] want.contains_key(id) && (
    want.contains_key(id) ==> open_groups(now)[id] == want[id]) by {
        if has_id(now, id) {
            let j = choose|j: int| 0 <= j < now.len() && (#[trigger] now[j]).id() == id;
            let x: int = if j == i {
                n
            } else {
                j
            };
            assert(now[j] == groups[x]);
            lemma_open(now, j);
            lemma_open(groups, x);
            if x < i {
                assert(groups[x].id() != groups[i].id());
            } else {
                assert(groups[i].id() != groups[x].id());
            }
        }
        if want.contains_key(id) {
            let x = choose|x: int| 0 <= x < groups.len() && (#[trigger] groups[x]).id() == id;
            assert(x != i);
            let j: int = if x == n {
                i
            } else {
                x
            };
            assert(now[j] == groups[x]);
            assert(has_id(now, id));
        }
    }
    assert(open_groups(now) =~= want);
}

/// The groups that are open, and the memory that is charged for them.
#[verifier::ext_equal]
pub struct Packing {
    pub open: Map<GroupId, Seq<ItemView>>,
    pub charge: int,
}

/// Another group with the same hash as that of `id`, if there is one.
pub open spec fn displaced(open: Map<GroupId, Seq<ItemView>>, id: GroupId) -> Option<GroupId> {
    if exists|k: GroupId| #[trigger]
        open.contains_key(k) && k != id && group_hash(k.0, k.1) == group_hash(id.0, id.1) {
        Some(
            choose|k: GroupId| #[trigger]
                open.contains_key(k) && k != id && group_hash(k.0, k.1) == group_hash(id.0, id.1),
        )
    } else {
        None
    }
}

/// Which groups some messages carry.
pub open spec fn sent_ids(out: Seq<Sent>) -> Set<GroupId> {
    Set::new(|id: GroupId| exists|i: int| 0 <= i < out.len() && (#[trigger] out[i]).0 == id)
}

/// Whether each message carries all of one group, and no group is in two.
pub open spec fn carry_groups(open: Map<GroupId, Seq<ItemView>>, out: Seq<Sent>) -> bool {
    &&& forall|i: int|
        0 <= i < out.len() ==> open.contains_key((#[trigger] out[i]).0) && open[out[i].0] == out[i].1
    &&& forall|i: int, j: int| 0 <= i < j < out.len() ==> (#[trigger] out[i]).0 != (#[trigger] out[j]).0
}

/// Whether messages are in the order of eviction, and none that comes later
/// should have come before: prefixes before rules, then the fullest first.
pub open spec fn fullest_out(out: Seq<Sent>, left: Map<GroupId, Seq<ItemView>>) -> bool {
    &&& forall|i: int, j: int|
        0 <= i < j < out.len() ==> fuller(
            (#[trigger] out[i]).0.0.flowspec,
            out[i].1.len(),
            (#[trigger] out[j]).0.0.flowspec,
            out[j].1.len(),
        )
    &&& forall|i: int, id: GroupId|
        0 <= i < out.len() && #[trigger] left.contains_key(id) ==> fuller(
            (#[trigger] out[i]).0.0.flowspec,
            out[i].1.len(),
            id.0.flowspec,
            left[id].len(),
        )
}

impl Packing {
    /// The routes of a group.
    pub open spec fn items(self, id: GroupId) -> Seq<ItemView> {
        if self.open.contains_key(id) {
            self.open[id]
        } else {
            Seq::empty()
        }
    }

    /// Without a group.
    pub open spec fn without(self, id: GroupId) -> Packing {
        if self.open.contains_key(id) {
            Packing { open: self.open.remove(id), charge: self.charge - group_charge(self.open[id]) }
        } else {
            self
        }
    }

    /// With one more group.
    pub open spec fn with(self, id: GroupId, items: Seq<ItemView>) -> Packing {
        Packing { open: self.open.insert(id, items), charge: self.charge + group_charge(items) }
    }

    /// Before a route goes to a group, another one with the same hash is
    /// sent.
    pub open spec fn way_made(self, id: GroupId) -> (Packing, Seq<Sent>) {
        match displaced(self.open, id) {
            Some(k) => (self.without(k), seq![(k, self.open[k])]),
            None => (self, Seq::empty()),
        }
    }

    /// A group that has no room for `len` octets beside the `base` of its
    /// UPDATE is sent. What is left: the other groups, the routes of this one,
    /// and what was sent.
    pub open spec fn room_made(self, id: GroupId, base: int, len: int) -> (Packing, Seq<ItemView>, Seq<Sent>) {
        let (p, out) = self.way_made(id);
        let held = p.items(id);
        if held.len() > 0 && base + views_len(held) + len > MAX_BGP_UPDATE_LEN {
            (p.without(id), Seq::empty(), out.push((id, held)))
        } else {
            (p.without(id), held, out)
        }
    }

    /// Whether the fullest groups were sent until the charge was at most half
    /// of the budget, and no group more.
    pub open spec fn evicted(self, after: Packing, out: Seq<Sent>, budget: int) -> bool {
        &&& carry_groups(self.open, out)
        &&& after.open == self.open.remove_keys(sent_ids(out))
        &&& fullest_out(out, after.open)
        &&& after.charge <= budget / 2
        &&& out.len() > 0
        &&& after.charge + group_charge(out.last().1) > budget / 2
    }

    /// What adding a route to its group does. It is sent by itself if no
    /// UPDATE with its attributes has room for it, or not at all where it
    /// cannot be; otherwise it waits in its group, and if then too much is
    /// buffered, the fullest groups are sent. `evictions` are counted.
    pub open spec fn added(
        self,
        after: Packing,
        id: GroupId,
        base: int,
        item: ItemView,
        framable: bool,
        budget: int,
        out: Seq<Sent>,
        evictions: int,
    ) -> bool {
        let len = item_len(item.0 is Some, item.1);
        let (p, rest, first) = self.room_made(id, base, len);
        if rest.len() == 0 && base + len > MAX_BGP_UPDATE_LEN {
            &&& after == p
            &&& out == (if framable {
                first.push((id, seq![item]))
            } else {
                first
            })
            &&& evictions == 0
        } else {
            let full = p.with(id, rest.push(item));
            if full.charge <= budget {
                after == full && out == first && evictions == 0
            } else {
                &&& evictions == out.len() - first.len()
                &&& first.is_prefix_of(out)
                &&& full.evicted(after, out.skip(first.len() as int), budget)
            }
        }
    }
}

/// A route that is added to its group: the group, the length of its UPDATE
/// but for the NLRI, the route, and whether BGP can frame it by itself.
pub struct Addition {
    pub id: GroupId,
    pub base: int,
    pub item: ItemView,
    pub framable: bool,
}

/// Whether adding one route leaves some groups open and sends some messages.
pub open spec fn added_one(before: Packing, after: Packing, a: Addition, budget: int, out: Seq<Sent>) -> bool {
    exists|evictions: int| #[trigger]
        before.added(after, a.id, a.base, a.item, a.framable, budget, out, evictions)
}

/// Whether adding routes, one after the other, leaves some groups open and
/// sends some messages.
pub open spec fn packs(start: Packing, adds: Seq<Addition>, budget: int, end: Packing, out: Seq<Sent>) -> bool
    decreases adds.len(),
{
    if adds.len() == 0 {
        end == start && out.len() == 0
    } else {
        exists|mid: Packing, n: int|
            0 <= n <= out.len() && packs(start, adds.drop_last(), budget, mid, out.take(n)) && #[trigger] added_one(
                mid,
                end,
                adds.last(),
                budget,
                out.skip(n),
            )
    }
}

/// No group is open.
pub open spec fn nothing_open() -> Packing {
    Packing { open: Map::empty(), charge: 0 }
}

/// Whether messages are what becomes of routes that are added one after the
/// other, and then all sent.
pub open spec fn well_packed(adds: Seq<Addition>, budget: int, sent: Seq<Sent>) -> bool {
    exists|n: int, end: Packing|
        {
            &&& 0 <= n <= sent.len()
            &&& #[trigger] packs(nothing_open(), adds, budget, end, sent.take(n))
            &&& carry_groups(end.open, sent.skip(n))
            &&& sent_ids(sent.skip(n)) == end.open.dom()
        }
}

/// One more route is added.
pub proof fn lemma_packs_push(
    start: Packing,
    adds: Seq<Addition>,
    budget: int,
    mid: Packing,
    out: Seq<Sent>,
    a: Addition,
    end: Packing,
    more: Seq<Sent>,
)
    requires
        packs(start, adds, budget, mid, out),
        added_one(mid, end, a, budget, more),
    ensures
        packs(start, adds.push(a), budget, end, out + more),
{
    let n = out.len() as int;
    assert(adds.push(a).drop_last() =~= adds);
    assert((out + more).take(n) =~= out);
    assert((out + more).skip(n) =~= more);
    assert(added_one(mid, end, adds.push(a).last(), budget, (out + more).skip(n)));
}

/// More routes are added.
pub proof fn lemma_packs_concat(
    start: Packing,
    adds: Seq<Addition>,
    budget: int,
    mid: Packing,
    out: Seq<Sent>,
    more: Seq<Addition>,
    end: Packing,
    also: Seq<Sent>,
)
    requires
        packs(start, adds, budget, mid, out),
        packs(mid, more, budget, end, also),
    ensures
        packs(start, adds + more, budget, end, out + also),
    decreases more.len(),
{
    if more.len() == 0 {
        assert(adds + more =~= adds);
        assert(out + also =~= out);
    } else {
        let (x, n) = choose|x: Packing, n: int|
            0 <= n <= also.len() && packs(mid, more.drop_last(), budget, x, also.take(n)) && #[trigger] added_one(
                x,
                end,
                more.last(),
                budget,
                also.skip(n),
            );
        lemma_packs_concat(start, adds, budget, mid, out, more.drop_last(), x, also.take(n));
        lemma_packs_push(
            start,
            adds + more.drop_last(),
            budget,
            x,
            out + also.take(n),
            more.last(),
            end,
            also.skip(n),
        );
        assert((adds + more.drop_last()).push(more.last()) =~= adds + more);
        assert(out + also.take(n) + also.skip(n) =~= out + also);
    }
}

/// Those of some routes that go to one group.
pub open spec fn items_for(adds: Seq<Addition>, id: GroupId) -> Seq<ItemView>
    decreases adds.len(),
{
    if adds.len() == 0 {
        Seq::empty()
    } else if adds.last().id == id {
        items_for(adds.drop_last(), id).push(adds.last().item)
    } else {
        items_for(adds.drop_last(), id)
    }
}

/// More than is ever charged for some routes.
pub open spec fn charge_limit(adds: Seq<Addition>) -> int
    decreases adds.len(),
{
    if adds.len() == 0 {
        0
    } else {
        charge_limit(adds.drop_last()) + AGG_MEM_PER_GROUP + item_cost(adds.last().item.1)
    }
}

/// Whether nothing makes some routes be sent early: memory is not short, each
/// group fits one UPDATE, and no two groups have the same hash.
pub open spec fn roomy(adds: Seq<Addition>, budget: int) -> bool {
    &&& charge_limit(adds) <= budget
    &&& forall|i: int|
        0 <= i < adds.len() ==> (#[trigger] adds[i]).base + views_len(items_for(adds, adds[i].id))
            <= MAX_BGP_UPDATE_LEN
    &&& forall|i: int, j: int|
        0 <= i < adds.len() && 0 <= j < adds.len() && (#[trigger] adds[i]).id != (#[trigger] adds[j]).id
            ==> group_hash(adds[i].id.0, adds[i].id.1) != group_hash(adds[j].id.0, adds[j].id.1)
}

proof fn lemma_lens(v: Seq<ItemView>)
    ensures
        0 <= views_len(v),
        0 <= views_cost(v),
    decreases v.len(),
{
    if v.len() > 0 {
        lemma_lens(v.drop_last());
    }
}

/// The routes of a group so far are not longer than all of them.
proof fn lemma_items_so_far(adds: Seq<Addition>, n: int, id: GroupId)
    requires
        0 <= n <= adds.len(),
    ensures
        views_len(items_for(adds.take(n), id)) <= views_len(items_for(adds, id)),
        items_for(adds.take(n), id).len() > 0 ==> exists|i: int| 0 <= i < n && (#[trigger] adds[i]).id == id,
        charge_limit(adds.take(n)) <= charge_limit(adds),
    decreases adds.len(),
{
    if n == adds.len() {
        assert(adds.take(n) =~= adds);
        if adds.len() > 0 {
            let m = adds.len() - 1;
            lemma_items_so_far(adds.drop_last(), m, id);
            assert(adds.drop_last().take(m) =~= adds.drop_last());
            if adds.last().id == id {
                assert(adds[m].id == id);
            } else if items_for(adds, id).len() > 0 {
                let i = choose|i: int| 0 <= i < m && (#[trigger] adds.drop_last()[i]).id == id;
                assert(adds[i].id == id);
            }
        }
    } else {
        let front = adds.drop_last();
        lemma_items_so_far(front, n, id);
        assert(front.take(n) =~= adds.take(n));
        assert(items_for(front, id).push(adds.last().item).drop_last() =~= items_for(front, id));
        lemma_lens(items_for(front, id));
        if items_for(adds.take(n), id).len() > 0 {
            let i = choose|i: int| 0 <= i < n && (#[trigger] front[i]).id == id;
            assert(adds[i].id == id);
        }
    }
}

/// With room enough, routes wait in their groups, and nothing is sent.
proof fn lemma_roomy(adds: Seq<Addition>, budget: int, n: int, end: Packing, out: Seq<Sent>)
    requires
        roomy(adds, budget),
        0 <= n <= adds.len(),
        packs(nothing_open(), adds.take(n), budget, end, out),
    ensures
        out.len() == 0,
        end.charge <= charge_limit(adds.take(n)),
        forall|id: GroupId| #[trigger]
            end.open.contains_key(id) == (items_for(adds.take(n), id).len() > 0) && (end.open.contains_key(id)
                ==> end.open[id] == items_for(adds.take(n), id)),
    decreases n,
{
    if n > 0 {
        let now = adds.take(n);
        let before = adds.take(n - 1);
        assert(now.drop_last() =~= before);
        let a = now.last();
        assert(a == adds[n - 1]);
        let (mid, k) = choose|mid: Packing, k: int|
            0 <= k <= out.len() && packs(nothing_open(), now.drop_last(), budget, mid, out.take(k))
                && #[trigger] added_one(mid, end, a, budget, out.skip(k));
        lemma_roomy(adds, budget, n - 1, mid, out.take(k));
        assert(k == 0);
        let evictions = choose|evictions: int| #[trigger]
            mid.added(end, a.id, a.base, a.item, a.framable, budget, out.skip(k), evictions);
        assert(out.skip(0) =~= out);
        if displaced(mid.open, a.id) is Some {
            let x = displaced(mid.open, a.id)->0;
            assert(mid.open.contains_key(x) && x != a.id);
            lemma_items_so_far(adds, n - 1, x);
            let i = choose|i: int| 0 <= i < n - 1 && (#[trigger] adds[i]).id == x;
            assert(adds[i].id != adds[n - 1].id);
        }
        let len = item_len(a.item.0 is Some, a.item.1);
        let held = mid.items(a.id);
        assert(held =~= items_for(before, a.id));
        lemma_items_so_far(adds, n, a.id);
        assert(items_for(now, a.id) == held.push(a.item));
        assert(held.push(a.item).drop_last() =~= held);
        assert(views_len(held.push(a.item)) == views_len(held) + len);
        assert(a.base + views_len(held) + len <= MAX_BGP_UPDATE_LEN);
        lemma_lens(held);
        assert(views_cost(held.push(a.item)) == views_cost(held) + item_cost(a.item.1));
        let full = mid.without(a.id).with(a.id, held.push(a.item));
        lemma_items_so_far(adds, n, a.id);
        assert(charge_limit(now) == charge_limit(before) + AGG_MEM_PER_GROUP + item_cost(a.item.1));
        assert(full.charge <= charge_limit(now));
        assert(end == full && out.len() == 0);
    }
}

/// With room enough, all routes of a group go in one message, in the order in
/// which they were added; and each group has one.
pub proof fn a_group_goes_in_one_message(adds: Seq<Addition>, budget: int, sent: Seq<Sent>, id: GroupId)
    requires
        roomy(adds, budget),
        well_packed(adds, budget, sent),
    ensures
        items_for(adds, id).len() == 0 ==> forall|i: int| 0 <= i < sent.len() ==> (#[trigger] sent[i]).0 != id,
        items_for(adds, id).len() > 0 ==> exists|i: int|
            {
                &&& 0 <= i < sent.len()
                &&& #[trigger] sent[i] == (id, items_for(adds, id))
                &&& forall|j: int| 0 <= j < sent.len() && j != i ==> (#[trigger] sent[j]).0 != id
            },
{
    let (n, end) = choose|n: int, end: Packing|
        {
            &&& 0 <= n <= sent.len()
            &&& #[trigger] packs(nothing_open(), adds, budget, end, sent.take(n))
            &&& carry_groups(end.open, sent.skip(n))
            &&& sent_ids(sent.skip(n)) == end.open.dom()
        };
    assert(adds.take(adds.len() as int) =~= adds);
    lemma_roomy(adds, budget, adds.len() as int, end, sent.take(n));
    assert(n == 0);
    assert(sent.skip(0) =~= sent);
    if items_for(adds, id).len() == 0 {
        assert forall|i: int| 0 <= i < sent.len() implies (#[trigger] sent[i]).0 != id by {
            assert(end.open.contains_key(sent[i].0));
        }
    } else {
        assert(end.open.contains_key(id));
        assert(end.open.dom().contains(id));
        assert(sent_ids(sent).contains(id));
        let i = choose|i: int| 0 <= i < sent.len() && (#[trigger] sent[i]).0 == id;
        assert(sent[i] == (id, items_for(adds, id)));
    }
}

/// One more group is evicted.
pub proof fn lemma_evict_one(
    full: Map<GroupId, Seq<ItemView>>,
    before: Map<GroupId, Seq<ItemView>>,
    out: Seq<Sent>,
    id: GroupId,
)
    requires
        carry_groups(full, out),
        before == full.remove_keys(sent_ids(out)),
        fullest_out(out, before),
        before.contains_key(id),
        forall|k: GroupId| #[trigger]
            before.contains_key(k) ==> fuller(id.0.flowspec, before[id].len(), k.0.flowspec, before[k].len()),
    ensures
        carry_groups(full, out.push((id, before[id]))),
        before.remove(id) == full.remove_keys(sent_ids(out.push((id, before[id])))),
        fullest_out(out.push((id, before[id])), before.remove(id)),
{
    reveal(sent_so_far);
    let now = out.push((id, before[id]));
    lemma_sent_one(full, before, out, id);
    assert forall|i: int, j: int| 0 <= i < j < now.len() implies fuller(
        (#[trigger] now[i]).0.0.flowspec,
        now[i].1.len(),
        (#[trigger] now[j]).0.0.flowspec,
        now[j].1.len(),
    ) by {
        assert(now[i] == out[i]);
        if j < out.len() {
            assert(now[j] == out[j]);
        }
    }
    assert forall|i: int, k: GroupId| 0 <= i < now.len() && #[trigger] before.remove(id).contains_key(k) implies fuller(
        (#[trigger] now[i]).0.0.flowspec,
        now[i].1.len(),
        k.0.flowspec,
        before.remove(id)[k].len(),
    ) by {
        assert(before.contains_key(k));
        if i < out.len() {
            assert(now[i] == out[i]);
        }
    }
}

/// Whether messages carry groups, and `left` are those that they do not.
#[verifier::opaque]
pub open spec fn sent_so_far(
    full: Map<GroupId, Seq<ItemView>>,
    left: Map<GroupId, Seq<ItemView>>,
    out: Seq<Sent>,
) -> bool {
    carry_groups(full, out) && left == full.remove_keys(sent_ids(out))
}

pub proof fn lemma_sent_none(full: Map<GroupId, Seq<ItemView>>)
    ensures
        sent_so_far(full, full, Seq::empty()),
{
    reveal(sent_so_far);
    lemma_evict_none(full);
}

pub proof fn lemma_sent_one(
    full: Map<GroupId, Seq<ItemView>>,
    left: Map<GroupId, Seq<ItemView>>,
    out: Seq<Sent>,
    id: GroupId,
)
    requires
        sent_so_far(full, left, out),
        left.contains_key(id),
    ensures
        sent_so_far(full, left.remove(id), out.push((id, left[id]))),
{
    reveal(sent_so_far);
    let now = out.push((id, left[id]));
    assert forall|i: int, j: int| 0 <= i < j < now.len() implies (#[trigger] now[i]).0 != (#[trigger] now[j]).0 by {
        assert(now[i] == out[i]);
        if j < out.len() {
            assert(now[j] == out[j]);
        } else {
            assert(sent_ids(out).contains(out[i].0));
        }
    }
    assert forall|i: int| 0 <= i < now.len() implies full.contains_key((#[trigger] now[i]).0) && full[now[i].0]
        == now[i].1 by {
        if i < out.len() {
            assert(now[i] == out[i]);
        }
    }
    assert forall|k: GroupId| #[trigger] sent_ids(now).contains(k) == (sent_ids(out).contains(k) || k == id) by {
        if sent_ids(out).contains(k) {
            let i = choose|i: int| 0 <= i < out.len() && (#[trigger] out[i]).0 == k;
            assert(now[i].0 == k);
        }
        if k == id {
            assert(now[out.len() as int].0 == k);
        }
        if sent_ids(now).contains(k) && k != id {
            let i = choose|i: int| 0 <= i < now.len() && (#[trigger] now[i]).0 == k;
            assert(out[i].0 == k);
        }
    }
    assert(left.remove(id) =~= full.remove_keys(sent_ids(now)));
}

/// When no group is left, each one was sent.
pub proof fn lemma_sent_all(full: Map<GroupId, Seq<ItemView>>, left: Map<GroupId, Seq<ItemView>>, out: Seq<Sent>)
    requires
        sent_so_far(full, left, out),
        forall|id: GroupId| !#[trigger] left.contains_key(id),
    ensures
        carry_groups(full, out),
        sent_ids(out) == full.dom(),
{
    reveal(sent_so_far);
    assert forall|id: GroupId| #[trigger] sent_ids(out).contains(id) == full.contains_key(id) by {
        assert(!left.contains_key(id));
        if sent_ids(out).contains(id) {
            let i = choose|i: int| 0 <= i < out.len() && (#[trigger] out[i]).0 == id;
            assert(full.contains_key(out[i].0));
        }
    }
    assert(sent_ids(out) =~= full.dom());
}

/// Nothing was evicted yet.
pub proof fn lemma_evict_none(full: Map<GroupId, Seq<ItemView>>)
    ensures
        carry_groups(full, Seq::empty()),
        full == full.remove_keys(sent_ids(Seq::empty())),
        fullest_out(Seq::empty(), full),
{
    assert(full =~= full.remove_keys(sent_ids(Seq::empty())));
}

} // verus!
