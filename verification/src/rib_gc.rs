//! Sweeps over the register: ADD-PATH children that own nothing are retired,
//! and ingresses that stay disconnected are forgotten with their routes.
use std::collections::HashSet;

use vstd::prelude::*;
use vstd::std_specs::hash::*;

use crate::flowspec::FlowSpecRuleSet;
use crate::ingress::IngressInfo;
use crate::peer_stats::StatsView;
use crate::register::{is_disconnected, lemma_take_set, retirable};
use crate::rib::Rib;
use crate::rib_lifecycle::{counts_exact, evpn_withdrawn, gauges_reset, whole, without_muis};
use crate::store::{has_key, listed, RouteStore, Stored, StoreView};
use crate::table::Table;
use crate::types::{AfiSafiType, IngressId, IngressState, IngressType, PrefixKey};

verus! {

broadcast use vstd::std_specs::hash::group_hash_axioms;

/// Whether an ingress has an active record in a store.
pub open spec fn has_active<T>(s: StoreView<T>, id: IngressId) -> bool {
    exists|p: PrefixKey| (#[trigger] s.shown(p, id, false, false)) is Some
}

/// Whether an ingress has an active record in the FlowSpec store that holds a
/// rule.
pub open spec fn has_active_rule<T>(s: StoreView<Seq<T>>, id: IngressId) -> bool {
    exists|p: PrefixKey|
        (#[trigger] s.shown(p, id, false, false)) is Some && s.records[(p, id)].meta.len() > 0
}

impl Rib {
    /// Whether an ingress owns an active route of any family.
    pub open spec fn owns_active(self, id: IngressId) -> bool {
        ||| exists|k: (Seq<u8>, IngressId)| #[trigger]
            self.evpn@.contains_key(k) && k.1 == id && self.evpn@[k].active
        ||| has_active(self.unicast@, id)
        ||| has_active(self.multicast@, id)
        ||| has_active_rule(self.flowspec@, id)
    }

    /// Whether an ingress is a connected ADD-PATH child that owns no active
    /// route.
    pub open spec fn idle_child(self, id: IngressId) -> bool {
        &&& path_child(self.ingress_register@, id)
        &&& !self.owns_active(id)
    }

    /// The idle children, each with its activity.
    pub open spec fn idle_children(self) -> Map<IngressId, u64> {
        Map::new(|id: IngressId| self.idle_child(id), |id: IngressId| self.ingress_register@[id].path_activity)
    }
}

/// Whether an ingress is a connected ADD-PATH child.
pub open spec fn path_child(infos: Map<IngressId, IngressInfo>, id: IngressId) -> bool {
    &&& infos.contains_key(id)
    &&& infos[id].ingress_type == Some(IngressType::BgpPath)
    &&& infos[id].state == Some(IngressState::Connected)
}

/// The register after the children that were idle before, with the same
/// activity, were retired.
pub open spec fn after_reap(
    infos: Map<IngressId, IngressInfo>,
    idle: Map<IngressId, u64>,
    prev: Map<IngressId, u64>,
) -> Map<IngressId, IngressInfo> {
    Map::new(
        |id: IngressId| infos.contains_key(id),
        |id: IngressId|
            if idle.contains_key(id) && prev.contains_key(id) && prev[id] == idle[id] {
                IngressInfo { state: Some(IngressState::Disconnected), ..infos[id] }
            } else {
                infos[id]
            },
    )
}

/// Adds the ingresses that have an active record in a store.
fn add_active<M: Stored>(store: &RouteStore<M>, out: &mut HashSet<IngressId>)
    requires
        store.wf(),
    ensures
        forall|m: IngressId| #[trigger] final(out)@.contains(m) == (old(out)@.contains(m) || has_active(store@, m)),
{
    let ghost s = store@;
    let ghost was = out@;
    let keys = store.prefixes();
    let mut i: usize = 0;
    while i < keys.len()
        invariant
            i <= keys@.len(),
            store.wf(),
            s == store@,
            crate::store::distinct_keys(keys@),
            forall|m: IngressId| #[trigger] out@.contains(m) ==> was.contains(m) || has_active(s, m),
            forall|m: IngressId| was.contains(m) ==> #[trigger] out@.contains(m),
            forall|j: int, m: IngressId|
                0 <= j < i && (#[trigger] s.shown((#[trigger] keys@[j])@, m, false, false)) is Some ==> out@.contains(m),
        decreases keys@.len() - i,
    {
        let key = keys[i];
        let records = store.get_records_for_prefix(&key, None, false);
        let mut j: usize = 0;
        while j < records.len()
            invariant
                j <= records@.len(),
                s == store@,
                listed(s, key@, None, false, records@),
                forall|m: IngressId| #[trigger] out@.contains(m) ==> was.contains(m) || has_active(s, m),
                forall|m: IngressId| was.contains(m) ==> #[trigger] out@.contains(m),
                forall|k: int, m: IngressId|
                    0 <= k < i && (#[trigger] s.shown((#[trigger] keys@[k])@, m, false, false)) is Some ==> out@.contains(
                        m,
                    ),
                forall|l: int| 0 <= l < j ==> out@.contains((#[trigger] records@[l]).multi_uniq_id),
            decreases records@.len() - j,
        {
            let mui: IngressId = records[j].multi_uniq_id;
            assert(s.shown(key@, mui, false, false) is Some);
            out.insert(mui);
            j = j + 1;
        }
        proof {
            assert forall|m: IngressId| (#[trigger] s.shown(key@, m, false, false)) is Some implies out@.contains(m) by {
                let l = choose|l: int| 0 <= l < records@.len() && (#[trigger] records@[l]).multi_uniq_id == m;
            }
        }
        i = i + 1;
    }
    proof {
        assert forall|m: IngressId| has_active(s, m) implies #[trigger] out@.contains(m) by {
            let p = choose|p: PrefixKey| (#[trigger] s.shown(p, m, false, false)) is Some;
            assert(s.records.contains_key((p, m)));
            assert(s.has_prefix(p));
            assert(has_key(keys@, p));
            let j = choose|j: int| 0 <= j < keys@.len() && (#[trigger] keys@[j])@ == p;
            assert(s.shown(keys@[j]@, m, false, false) is Some);
        }
    }
}

/// Adds the ingresses that have an active rule.
fn add_active_rules(store: &RouteStore<FlowSpecRuleSet>, out: &mut HashSet<IngressId>)
    requires
        store.wf(),
    ensures
        forall|m: IngressId| #[trigger]
            final(out)@.contains(m) == (old(out)@.contains(m) || has_active_rule(store@, m)),
{
    let ghost s = store@;
    let ghost was = out@;
    let keys = store.prefixes();
    let mut i: usize = 0;
    while i < keys.len()
        invariant
            i <= keys@.len(),
            store.wf(),
            s == store@,
            crate::store::distinct_keys(keys@),
            forall|m: IngressId| #[trigger] out@.contains(m) ==> was.contains(m) || has_active_rule(s, m),
            forall|m: IngressId| was.contains(m) ==> #[trigger] out@.contains(m),
            forall|j: int, m: IngressId|
                0 <= j < i && (#[trigger] s.shown((#[trigger] keys@[j])@, m, false, false)) is Some && s.records[(
                    keys@[j]@,
                    m,
                )].meta.len() > 0 ==> out@.contains(m),
        decreases keys@.len() - i,
    {
        let key = keys[i];
        let records = store.get_records_for_prefix(&key, None, false);
        let mut j: usize = 0;
        while j < records.len()
            invariant
                j <= records@.len(),
                s == store@,
                listed(s, key@, None, false, records@),
                forall|m: IngressId| #[trigger] out@.contains(m) ==> was.contains(m) || has_active_rule(s, m),
                forall|m: IngressId| was.contains(m) ==> #[trigger] out@.contains(m),
                forall|k: int, m: IngressId|
                    0 <= k < i && (#[trigger] s.shown((#[trigger] keys@[k])@, m, false, false)) is Some && s.records[(
                        keys@[k]@,
                        m,
                    )].meta.len() > 0 ==> out@.contains(m),
                forall|l: int|
                    0 <= l < j && (#[trigger] records@[l]).meta@.len() > 0 ==> out@.contains(records@[l].multi_uniq_id),
            decreases records@.len() - j,
        {
            let mui: IngressId = records[j].multi_uniq_id;
            assert(s.shown(key@, mui, false, false) == Some(records@[j as int]@));
            if !records[j].meta.is_empty() {
                out.insert(mui);
            }
            j = j + 1;
        }
        proof {
            assert forall|m: IngressId|
                (#[trigger] s.shown(key@, m, false, false)) is Some && s.records[(key@, m)].meta.len()
                    > 0 implies out@.contains(m) by {
                let l = choose|l: int| 0 <= l < records@.len() && (#[trigger] records@[l]).multi_uniq_id == m;
                assert(s.shown(key@, m, false, false) == Some(records@[l]@));
            }
        }
        i = i + 1;
    }
    proof {
        assert forall|m: IngressId| has_active_rule(s, m) implies #[trigger] out@.contains(m) by {
            let p = choose|p: PrefixKey|
                (#[trigger] s.shown(p, m, false, false)) is Some && s.records[(p, m)].meta.len() > 0;
            assert(s.records.contains_key((p, m)));
            assert(s.has_prefix(p));
            assert(has_key(keys@, p));
            let j = choose|j: int| 0 <= j < keys@.len() && (#[trigger] keys@[j])@ == p;
            assert(s.shown(keys@[j]@, m, false, false) is Some);
        }
    }
}

impl Rib {
    /// The ingresses that own an active route.
    fn active_muis(&self) -> (r: HashSet<IngressId>)
        requires
            self.wf(),
        ensures
            forall|m: IngressId| #[trigger] r@.contains(m) == self.owns_active(m),
    {
        let mut out: HashSet<IngressId> = HashSet::new();
        let mut i: usize = 0;
        while i < self.evpn.len()
            invariant
                i <= self.evpn.size(),
                self.wf(),
                forall|m: IngressId| #[trigger]
                    out@.contains(m) ==> exists|k: (Seq<u8>, IngressId)| #[trigger]
                        self.evpn@.contains_key(k) && k.1 == m && self.evpn@[k].active,
                forall|j: int|
                    0 <= j < i && self.evpn@[#[trigger] self.evpn.key(j)].active ==> out@.contains(self.evpn.key(j).1),
            decreases self.evpn.size() - i,
        {
            let rec = self.evpn.value_at(i);
            if rec.active {
                out.insert(rec.ingress_id);
            }
            i = i + 1;
        }
        proof {
            self.evpn.lemma_keys();
            assert forall|m: IngressId|
                (exists|k: (Seq<u8>, IngressId)| #[trigger]
                    self.evpn@.contains_key(k) && k.1 == m && self.evpn@[k].active) implies #[trigger] out@.contains(
                m,
            ) by {
                let k = choose|k: (Seq<u8>, IngressId)| #[trigger]
                    self.evpn@.contains_key(k) && k.1 == m && self.evpn@[k].active;
                let j = choose|j: int| 0 <= j < self.evpn.size() && #[trigger] self.evpn.key(j) == k;
                assert(self.evpn@[self.evpn.key(j)].active);
            }
        }
        add_active(&self.unicast, &mut out);
        add_active(&self.multicast, &mut out);
        add_active_rules(&self.flowspec, &mut out);
        out
    }

    /// The idle ADD-PATH children.
    fn find_idle(&self) -> (r: Table<IngressId, u64>)
        requires
            self.wf(),
        ensures
            r.wf(),
            r@ == self.idle_children(),
    {
        let active = self.active_muis();
        let reg = &self.ingress_register.infos;
        let mut out: Table<IngressId, u64> = Table::new();
        let mut i: usize = 0;
        while i < reg.len()
            invariant
                i <= reg.size(),
                self.wf(),
                *reg == self.ingress_register.infos,
                out.wf(),
                forall|m: IngressId| #[trigger] active@.contains(m) == self.owns_active(m),
                forall|m: IngressId| #[trigger]
                    out@.contains_key(m) ==> self.idle_child(m) && out@[m] == self.ingress_register@[m].path_activity,
                forall|j: int|
                    0 <= j < i && self.idle_child(#[trigger] reg.key(j)) ==> out@.contains_key(reg.key(j)),
            decreases reg.size() - i,
        {
            let id: IngressId = *reg.key_at(i);
            let info = reg.value_at(i);
            let child = match (info.ingress_type, info.state) {
                (Some(IngressType::BgpPath), Some(IngressState::Connected)) => true,
                _ => false,
            };
            if child && !active.contains(&id) {
                out.insert(id, info.path_activity);
            }
            i = i + 1;
        }
        proof {
            reg.lemma_keys();
            assert forall|m: IngressId| self.idle_children().contains_key(m) implies #[trigger] out@.contains_key(m) by {
                let j = choose|j: int| 0 <= j < reg.size() && #[trigger] reg.key(j) == m;
                assert(self.idle_child(reg.key(j)));
            }
            assert(out@ =~= self.idle_children());
        }
        out
    }

    /// Retires the ADD-PATH children that were idle in the sweep before and
    /// are still, with no activity in between: marks them disconnected. Gives
    /// back the children that are idle now, for the next sweep.
    pub fn reap_idle_path_children(&mut self, prev: Table<IngressId, u64>) -> (r: Table<IngressId, u64>)
        requires
            old(self).wf(),
            prev.wf(),
        ensures
            final(self).wf(),
            r.wf(),
            r@ == old(self).idle_children(),
            *final(self) == (Rib { ingress_register: final(self).ingress_register, ..*old(self) }),
            final(self).ingress_register@ == after_reap(old(self).ingress_register@, r@, prev@),
    {
        let idle = self.find_idle();
        let ghost infos = self.ingress_register@;
        let mut i: usize = 0;
        while i < idle.len()
            invariant
                i <= idle.size(),
                idle.wf(),
                prev.wf(),
                self.wf(),
                *self == (Rib { ingress_register: self.ingress_register, ..*old(self) }),
                infos == old(self).ingress_register@,
                idle@ == old(self).idle_children(),
                self.ingress_register@.dom() == infos.dom(),
                forall|j: int|
                    0 <= j < i ==> self.ingress_register@[#[trigger] idle.key(j)] == after_reap(infos, idle@, prev@)[idle.key(
                        j,
                    )],
                forall|id: IngressId| #[trigger]
                    infos.contains_key(id) && (forall|j: int| 0 <= j < i ==> #[trigger] idle.key(j) != id)
                        ==> self.ingress_register@[id] == infos[id],
            decreases idle.size() - i,
        {
            let id: IngressId = *idle.key_at(i);
            let activity: u64 = *idle.value_at(i);
            let ghost before = self.ingress_register@;
            proof {
                idle.lemma_keys();
                assert(old(self).idle_child(id));
                assert(before[id] == infos[id]) by {
                    assert forall|j: int| 0 <= j < i implies #[trigger] idle.key(j) != id by {
                        assert(idle.key(j) != idle.key(i as int));
                    }
                    assert(infos.contains_key(id));
                }
                assert(retirable(before, id, activity));
            }
            let again = match prev.get(&id) {
                Some(a) => *a == activity,
                None => false,
            };
            if again {
                let _ = self.ingress_register.retire_path_child(id, activity);
            }
            proof {
                assert(self.ingress_register@.dom() =~= infos.dom());
                assert forall|j: int| 0 <= j < i + 1 implies self.ingress_register@[#[trigger] idle.key(j)]
                    == after_reap(infos, idle@, prev@)[idle.key(j)] by {
                    if j < i {
                        assert(idle.key(j) != idle.key(i as int));
                    }
                    assert(old(self).idle_child(idle.key(j)));
                }
                assert forall|k: IngressId| #[trigger] infos.contains_key(k) && (forall|j: int|
                    0 <= j < i + 1 ==> #[trigger] idle.key(j) != k) implies self.ingress_register@[k] == infos[k] by {
                    assert(idle.key(i as int) != k);
                    assert(forall|j: int| 0 <= j < i ==> #[trigger] idle.key(j) != k);
                }
            }
            i = i + 1;
        }
        proof {
            idle.lemma_keys();
            assert forall|id: IngressId| infos.contains_key(id) implies #[trigger] self.ingress_register@[id] == after_reap(
                infos,
                idle@,
                prev@,
            )[id] by {
                if idle@.contains_key(id) {
                    let j = choose|j: int| 0 <= j < idle.size() && #[trigger] idle.key(j) == id;
                    assert(self.ingress_register@[idle.key(j)] == after_reap(infos, idle@, prev@)[idle.key(j)]);
                } else {
                    assert forall|j: int| 0 <= j < idle.size() implies #[trigger] idle.key(j) != id by {
                        assert(idle@.contains_key(idle.key(j)));
                    }
                }
            }
            assert(self.ingress_register@ =~= after_reap(infos, idle@, prev@));
        }
        idle
    }
}

/// Whether some ingress has `id` for its parent.
pub open spec fn parent_in_use(infos: Map<IngressId, IngressInfo>, id: IngressId) -> bool {
    exists|child: IngressId| #[trigger] infos.contains_key(child) && infos[child].parent_ingress == Some(id)
}

/// What can be forgotten of an ingress that stays disconnected.
pub enum Reclaim {
    /// Its registration and its routes.
    Routes,
    /// Its registration: it owns no routes.
    Entry,
    /// Nothing yet: others depend on it.
    Deferred,
    /// It is not swept.
    Never,
}

/// What a sweep may do with a disconnected ingress.
pub open spec fn reclaim(infos: Map<IngressId, IngressInfo>, id: IngressId) -> Reclaim {
    if !is_disconnected(infos, id) {
        Reclaim::Never
    } else {
        match infos[id].ingress_type {
            Some(IngressType::BgpViaBmp) | Some(IngressType::Bgp) => if parent_in_use(infos, id) {
                Reclaim::Deferred
            } else {
                Reclaim::Routes
            },
            Some(IngressType::BgpPath) => Reclaim::Routes,
            Some(IngressType::Bmp) => if parent_in_use(infos, id) {
                Reclaim::Deferred
            } else {
                Reclaim::Entry
            },
            _ => Reclaim::Never,
        }
    }
}

/// The ingresses that a sweep sees disconnected.
pub open spec fn swept(infos: Map<IngressId, IngressInfo>) -> Set<IngressId> {
    Set::new(|id: IngressId| !(reclaim(infos, id) is Never))
}

/// The ingresses that a sweep forgets with their routes.
pub open spec fn reclaimed_peers(infos: Map<IngressId, IngressInfo>, prev: Set<IngressId>) -> Set<IngressId> {
    Set::new(|id: IngressId| reclaim(infos, id) is Routes && prev.contains(id))
}

/// The ingresses without routes that a sweep forgets.
pub open spec fn reclaimed_routers(infos: Map<IngressId, IngressInfo>, prev: Set<IngressId>) -> Set<IngressId> {
    Set::new(|id: IngressId| reclaim(infos, id) is Entry && prev.contains(id))
}

/// What a sweep found.
struct Sweep {
    seen: HashSet<IngressId>,
    peers: Vec<IngressId>,
    routers: Vec<IngressId>,
}

/// Only the gauges of the sessions that are reset change.
proof fn lemma_reset_touches(s: StatsView, ids: Seq<IngressId>)
    ensures
        gauges_reset(s, whole(ids)).aliases == s.aliases,
        gauges_reset(s, whole(ids)).sessions.dom() == s.sessions.dom(),
        forall|id: IngressId| #[trigger]
            s.sessions.contains_key(id) && !ids.contains(id) ==> gauges_reset(s, whole(ids)).sessions[id]
                == s.sessions[id],
    decreases ids.len(),
{
    if ids.len() > 0 {
        let front = ids.drop_last();
        lemma_reset_touches(s, front);
        assert(whole(ids).drop_last() =~= whole(front));
        assert(whole(ids).last() == (ids.last(), None::<AfiSafiType>));
        let mid = gauges_reset(s, whole(front));
        assert(gauges_reset(s, whole(ids)) == mid.after_reset(ids.last(), None));
        assert(mid.after_reset(ids.last(), None).sessions.dom() =~= s.sessions.dom());
        assert forall|id: IngressId| #[trigger]
            s.sessions.contains_key(id) && !ids.contains(id) implies gauges_reset(s, whole(ids)).sessions[id]
            == s.sessions[id] by {
            assert(id != ids[ids.len() - 1]);
            if front.contains(id) {
                let j = choose|j: int| 0 <= j < front.len() && front[j] == id;
                assert(ids[j] == id);
            }
        }
    } else {
        assert(whole(ids) =~= Seq::empty());
    }
}

impl Rib {
    /// The ingresses that have children.
    fn parents_in_use(&self) -> (r: HashSet<IngressId>)
        requires
            self.wf(),
        ensures
            forall|id: IngressId| #[trigger] r@.contains(id) == parent_in_use(self.ingress_register@, id),
    {
        let reg = &self.ingress_register.infos;
        let mut out: HashSet<IngressId> = HashSet::new();
        let mut i: usize = 0;
        while i < reg.len()
            invariant
                i <= reg.size(),
                self.wf(),
                *reg == self.ingress_register.infos,
                forall|id: IngressId| #[trigger] out@.contains(id) ==> parent_in_use(reg@, id),
                forall|j: int|
                    0 <= j < i ==> (reg@[#[trigger] reg.key(j)].parent_ingress matches Some(p) ==> out@.contains(p)),
            decreases reg.size() - i,
        {
            match reg.value_at(i).parent_ingress {
                Some(p) => {
                    out.insert(p);
                },
                None => {},
            }
            i = i + 1;
        }
        proof {
            reg.lemma_keys();
            assert forall|id: IngressId| parent_in_use(reg@, id) implies #[trigger] out@.contains(id) by {
                let child = choose|child: IngressId| #[trigger]
                    reg@.contains_key(child) && reg@[child].parent_ingress == Some(id);
                let j = choose|j: int| 0 <= j < reg.size() && #[trigger] reg.key(j) == child;
                assert(reg@[reg.key(j)].parent_ingress == Some(id));
            }
        }
        out
    }

    /// Finds what a sweep may forget.
    fn sweep(&self, prev: &HashSet<IngressId>) -> (r: Sweep)
        requires
            self.wf(),
        ensures
            r.seen@ == swept(self.ingress_register@),
            r.peers@.to_set() == reclaimed_peers(self.ingress_register@, prev@),
            r.routers@.to_set() == reclaimed_routers(self.ingress_register@, prev@),
    {
        let parents = self.parents_in_use();
        let reg = &self.ingress_register.infos;
        let ghost infos = reg@;
        let mut seen: HashSet<IngressId> = HashSet::new();
        let mut peers: Vec<IngressId> = Vec::new();
        let mut routers: Vec<IngressId> = Vec::new();
        let mut i: usize = 0;
        while i < reg.len()
            invariant
                i <= reg.size(),
                self.wf(),
                *reg == self.ingress_register.infos,
                infos == reg@,
                forall|id: IngressId| #[trigger] parents@.contains(id) == parent_in_use(infos, id),
                forall|id: IngressId| #[trigger] seen@.contains(id) ==> swept(infos).contains(id),
                forall|j: int| 0 <= j < i && swept(infos).contains(#[trigger] reg.key(j)) ==> seen@.contains(reg.key(j)),
                forall|j: int|
                    0 <= j < peers@.len() ==> reclaimed_peers(infos, prev@).contains(#[trigger] peers@[j]),
                forall|j: int|
                    0 <= j < i && reclaimed_peers(infos, prev@).contains(#[trigger] reg.key(j)) ==> peers@.contains(
                        reg.key(j),
                    ),
                forall|j: int|
                    0 <= j < routers@.len() ==> reclaimed_routers(infos, prev@).contains(#[trigger] routers@[j]),
                forall|j: int|
                    0 <= j < i && reclaimed_routers(infos, prev@).contains(#[trigger] reg.key(j)) ==> routers@.contains(
                        reg.key(j),
                    ),
            decreases reg.size() - i,
        {
            let id: IngressId = *reg.key_at(i);
            let info = reg.value_at(i);
            let ghost peers0 = peers@;
            let ghost routers0 = routers@;
            let gone = match info.state {
                Some(IngressState::Disconnected) => true,
                _ => false,
            };
            if gone {
                match info.ingress_type {
                    Some(IngressType::BgpViaBmp) | Some(IngressType::Bgp) => {
                        seen.insert(id);
                        if !parents.contains(&id) && prev.contains(&id) {
                            peers.push(id);
                        }
                    },
                    Some(IngressType::BgpPath) => {
                        seen.insert(id);
                        if prev.contains(&id) {
                            peers.push(id);
                        }
                    },
                    Some(IngressType::Bmp) => {
                        seen.insert(id);
                        if !parents.contains(&id) && prev.contains(&id) {
                            routers.push(id);
                        }
                    },
                    _ => {},
                }
            }
            proof {
                lemma_pushed(peers0, peers@, id);
                lemma_pushed(routers0, routers@, id);
            }
            i = i + 1;
        }
        proof {
            reg.lemma_keys();
            assert forall|id: IngressId| infos.contains_key(id) implies exists|j: int|
                0 <= j < reg.size() && #[trigger] reg.key(j) == id by {}
            assert(seen@ =~= swept(infos)) by {
                assert forall|id: IngressId| swept(infos).contains(id) implies #[trigger] seen@.contains(id) by {
                    let j = choose|j: int| 0 <= j < reg.size() && #[trigger] reg.key(j) == id;
                    assert(swept(infos).contains(reg.key(j)));
                }
            }
            assert(peers@.to_set() =~= reclaimed_peers(infos, prev@)) by {
                assert forall|id: IngressId| reclaimed_peers(infos, prev@).contains(id) implies #[trigger] peers@.to_set().contains(
                    id,
                ) by {
                    let j = choose|j: int| 0 <= j < reg.size() && #[trigger] reg.key(j) == id;
                    assert(reclaimed_peers(infos, prev@).contains(reg.key(j)));
                }
                assert forall|id: IngressId| #[trigger] peers@.to_set().contains(id) implies reclaimed_peers(
                    infos,
                    prev@,
                ).contains(id) by {
                    let j = choose|j: int| 0 <= j < peers@.len() && peers@[j] == id;
                    assert(reclaimed_peers(infos, prev@).contains(peers@[j]));
                }
            }
            assert(routers@.to_set() =~= reclaimed_routers(infos, prev@)) by {
                assert forall|id: IngressId| reclaimed_routers(infos, prev@).contains(id) implies #[trigger] routers@.to_set().contains(
                    id,
                ) by {
                    let j = choose|j: int| 0 <= j < reg.size() && #[trigger] reg.key(j) == id;
                    assert(reclaimed_routers(infos, prev@).contains(reg.key(j)));
                }
                assert forall|id: IngressId| #[trigger] routers@.to_set().contains(id) implies reclaimed_routers(
                    infos,
                    prev@,
                ).contains(id) by {
                    let j = choose|j: int| 0 <= j < routers@.len() && routers@[j] == id;
                    assert(reclaimed_routers(infos, prev@).contains(routers@[j]));
                }
            }
        }
        Sweep { seen, peers, routers }
    }

    /// Forgets the registration of disconnected ingresses.
    fn forget(&mut self, ids: &Vec<IngressId>)
        requires
            old(self).wf(),
            forall|j: int| 0 <= j < ids@.len() ==> is_disconnected(old(self).ingress_register@, #[trigger] ids@[j]),
        ensures
            final(self).wf(),
            *final(self) == (Rib { ingress_register: final(self).ingress_register, ..*old(self) }),
            final(self).ingress_register@ == old(self).ingress_register@.remove_keys(ids@.to_set()),
    {
        let ghost infos = self.ingress_register@;
        let mut i: usize = 0;
        assert(infos.remove_keys(ids@.take(0).to_set()) =~= infos);
        while i < ids.len()
            invariant
                i <= ids@.len(),
                self.wf(),
                infos == old(self).ingress_register@,
                forall|j: int| 0 <= j < ids@.len() ==> is_disconnected(infos, #[trigger] ids@[j]),
                *self == (Rib { ingress_register: self.ingress_register, ..*old(self) }),
                self.ingress_register@ == infos.remove_keys(ids@.take(i as int).to_set()),
            decreases ids@.len() - i,
        {
            let id: IngressId = ids[i];
            let _ = self.ingress_register.remove_if_disconnected(id);
            proof {
                lemma_take_set(ids@, i as int);
                assert(self.ingress_register@ =~= infos.remove_keys(ids@.take(i + 1).to_set()));
            }
            i = i + 1;
        }
        assert(ids@.take(ids@.len() as int) =~= ids@);
    }

    /// What a sweep does.
    pub open spec fn collected(self, after: Rib, prev: Set<IngressId>) -> bool {
        let infos = self.ingress_register@;
        let peers = reclaimed_peers(infos, prev);
        &&& after.ingress_register@ == infos.remove_keys(peers.union(reclaimed_routers(infos, prev)))
        &&& after.unicast@ == without_muis(self.unicast@, peers)
        &&& after.multicast@ == without_muis(self.multicast@, peers)
        &&& after.flowspec@ == without_muis(self.flowspec@, peers)
        &&& after.evpn@ == evpn_withdrawn(self.evpn@, peers, false)
        &&& after.peer_stats@ == (StatsView {
            sessions: self.peer_stats@.sessions.remove_keys(peers),
            aliases: self.peer_stats@.aliases.remove_keys(peers),
        })
        &&& after.flowspec_updates == self.flowspec_updates
        &&& if peers == Set::<IngressId>::empty() {
            after.flowspec_rule_counts == self.flowspec_rule_counts
        } else {
            counts_exact(after.flowspec@, after.flowspec_rule_counts)
        }
    }

    /// Forgets the ingresses that were disconnected in the sweep before and
    /// still are: peers and ADD-PATH children with their routes, and routers
    /// without children. A session or a router with children is kept until
    /// they are gone. Gives back the disconnected ingresses, for the next
    /// sweep.
    pub fn gc_disconnected_bmp_peers(&mut self, prev: HashSet<IngressId>) -> (r: HashSet<IngressId>)
        requires
            old(self).wf(),
        ensures
            final(self).wf(),
            r@ == swept(old(self).ingress_register@),
            old(self).collected(*final(self), prev@),
    {
        let found = self.sweep(&prev);
        let ghost infos = self.ingress_register@;
        let ghost stats = self.peer_stats@;
        let ghost peers = reclaimed_peers(infos, prev@);
        let ghost routers = reclaimed_routers(infos, prev@);
        proof {
            assert forall|j: int| 0 <= j < found.peers@.len() implies is_disconnected(infos, #[trigger] found.peers@[j]) by {
                assert(found.peers@.to_set().contains(found.peers@[j]));
            }
            assert forall|j: int| 0 <= j < found.routers@.len() implies is_disconnected(
                infos,
                #[trigger] found.routers@[j],
            ) && !peers.contains(found.routers@[j]) by {
                assert(found.routers@.to_set().contains(found.routers@[j]));
            }
        }
        if found.peers.len() > 0 {
            assert(peers.contains(found.peers@[0]));
            self.forget(&found.peers);
            let ghost before = *self;
            self.remove_for_ingresses(&found.peers);
            self.drop_stats(&found.peers);
            proof {
                lemma_reset_touches(stats, found.peers@);
                let mid = gauges_reset(stats, whole(found.peers@));
                assert(self.peer_stats@.sessions =~= stats.sessions.remove_keys(peers)) by {
                    assert forall|id: IngressId| #[trigger] stats.sessions.contains_key(id) && !peers.contains(id) implies mid.sessions[id]
                        == stats.sessions[id] by {
                        if found.peers@.contains(id) {
                            assert(found.peers@.to_set().contains(id));
                        }
                    }
                }
            }
        } else {
            proof {
                assert(found.peers@ =~= Seq::empty());
                assert(peers =~= Set::empty());
                lemma_nothing_removed(self.unicast@);
                lemma_nothing_removed(self.multicast@);
                lemma_nothing_removed(self.flowspec@);
                assert(evpn_withdrawn(self.evpn@, peers, false) =~= self.evpn@);
                assert(stats.sessions.remove_keys(peers) =~= stats.sessions);
                assert(stats.aliases.remove_keys(peers) =~= stats.aliases);
                assert(infos.remove_keys(peers) =~= infos);
            }
        }
        self.forget(&found.routers);
        assert(self.ingress_register@ =~= infos.remove_keys(peers.union(routers)));
        found.seen
    }

    /// Keeps no gauges for some ingresses any more.
    fn drop_stats(&mut self, ids: &Vec<IngressId>)
        requires
            old(self).wf(),
        ensures
            final(self).wf(),
            *final(self) == (Rib { peer_stats: final(self).peer_stats, ..*old(self) }),
            final(self).peer_stats@ == (StatsView {
                sessions: old(self).peer_stats@.sessions.remove_keys(ids@.to_set()),
                aliases: old(self).peer_stats@.aliases.remove_keys(ids@.to_set()),
            }),
    {
        let ghost stats = self.peer_stats@;
        let mut i: usize = 0;
        assert(stats.sessions.remove_keys(ids@.take(0).to_set()) =~= stats.sessions);
        assert(stats.aliases.remove_keys(ids@.take(0).to_set()) =~= stats.aliases);
        while i < ids.len()
            invariant
                i <= ids@.len(),
                self.wf(),
                *self == (Rib { peer_stats: self.peer_stats, ..*old(self) }),
                self.peer_stats@ == (StatsView {
                    sessions: stats.sessions.remove_keys(ids@.take(i as int).to_set()),
                    aliases: stats.aliases.remove_keys(ids@.take(i as int).to_set()),
                }),
            decreases ids@.len() - i,
        {
            self.peer_stats.remove(ids[i]);
            proof {
                lemma_take_set(ids@, i as int);
                assert(self.peer_stats@.sessions =~= stats.sessions.remove_keys(ids@.take(i + 1).to_set()));
                assert(self.peer_stats@.aliases =~= stats.aliases.remove_keys(ids@.take(i + 1).to_set()));
            }
            i = i + 1;
        }
        assert(ids@.take(ids@.len() as int) =~= ids@);
    }
}

proof fn lemma_nothing_removed<T>(s: StoreView<T>)
    ensures
        without_muis(s, Set::empty()) == s,
{
    assert(without_muis(s, Set::empty()) =~= s);
}

proof fn lemma_pushed(before: Seq<IngressId>, after: Seq<IngressId>, id: IngressId)
    requires
        after == before || after == before.push(id),
    ensures
        forall|x: IngressId| before.contains(x) ==> #[trigger] after.contains(x),
        after != before ==> after.contains(id),
        forall|j: int| 0 <= j < before.len() ==> #[trigger] after[j] == before[j],
{
    assert forall|x: IngressId| before.contains(x) implies #[trigger] after.contains(x) by {
        let j = choose|j: int| 0 <= j < before.len() && before[j] == x;
        assert(after[j] == x);
    }
    if after != before {
        assert(after[before.len() as int] == id);
    }
}

} // verus!
