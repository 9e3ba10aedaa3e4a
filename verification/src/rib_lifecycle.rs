//! What becomes of the routes of an ingress that goes: they are withdrawn or
//! dropped, and ingresses that stay away are forgotten.
use std::collections::{HashMap, HashSet};

use vstd::prelude::*;
use vstd::set_lib::*;
use vstd::std_specs::hash::*;

use crate::evpn::EvpnRecord;
use crate::flowspec::{rules_distinct, FlowSpecRuleSet, RuleView};
use crate::pamap::RotondaPaMap;
use crate::peer_stats::StatsView;
use crate::register::lemma_take_set;
use crate::rib::{keyed_by_route, no_attrs, EvpnKey, Rib, RuleCounts};
use crate::store::{blanked, listed, set_listed, PrefixRecord, Record, RouteStore, Scope, Stored, StoreView};
use crate::table::Table;
use crate::types::{AfiSafiType, IngressId, Prefix, PrefixKey};

verus! {

broadcast use vstd::std_specs::hash::group_hash_axioms;

/// Ingresses, each with the family that is meant, or none for all.
pub type Targets = Seq<(IngressId, Option<AfiSafiType>)>;

/// Whether an ingress is meant, in a family.
pub open spec fn hit(ids: Targets, m: IngressId, family: AfiSafiType) -> bool {
    exists|i: int|
        0 <= i < ids.len() && (#[trigger] ids[i]).0 == m && (ids[i].1 is None || ids[i].1 == Some(family))
}

/// The ingresses that are meant in a family.
pub open spec fn hits(ids: Targets, family: AfiSafiType) -> Set<IngressId> {
    Set::new(|m: IngressId| hit(ids, m, family))
}

/// The ingresses that are meant in a family.
fn ids_for(ids: &[(IngressId, Option<AfiSafiType>)], family: AfiSafiType) -> (r: HashSet<IngressId>)
    ensures
        r@ == hits(ids@, family),
{
    let mut out: HashSet<IngressId> = HashSet::new();
    let mut i: usize = 0;
    while i < ids.len()
        invariant
            i <= ids@.len(),
            forall|m: IngressId| #[trigger]
                out@.contains(m) == exists|j: int|
                    0 <= j < i && (#[trigger] ids@[j]).0 == m && (ids@[j].1 is None || ids@[j].1 == Some(family)),
        decreases ids@.len() - i,
    {
        let (id, f) = ids[i];
        let meant = match f {
            None => true,
            Some(g) => g == family,
        };
        let ghost before = out@;
        if meant {
            out.insert(id);
        }
        proof {
            assert forall|m: IngressId| #[trigger] out@.contains(m) == exists|j: int|
                0 <= j < i + 1 && (#[trigger] ids@[j]).0 == m && (ids@[j].1 is None || ids@[j].1 == Some(family)) by {
                if before.contains(m) {
                    let j = choose|j: int|
                        0 <= j < i && (#[trigger] ids@[j]).0 == m && (ids@[j].1 is None || ids@[j].1 == Some(family));
                    assert(ids@[j].0 == m);
                }
                if m == id && meant {
                    assert(ids@[i as int].0 == m);
                }
            }
        }
        i = i + 1;
    }
    assert(out@ =~= hits(ids@, family));
    out
}

/// The records of the meant ingresses in a store with two families.
pub open spec fn meant_records(ids: Targets, v4: AfiSafiType, v6: AfiSafiType) -> Set<(PrefixKey, IngressId)> {
    Set::new(
        |k: (PrefixKey, IngressId)|
            hit(
                ids,
                k.1,
                if k.0.0 {
                    v4
                } else {
                    v6
                },
            ),
    )
}

/// Blanks the records of the meant ingresses in a store.
fn compact_store<M: Stored>(
    store: &mut RouteStore<M>,
    ids: &[(IngressId, Option<AfiSafiType>)],
    v4: AfiSafiType,
    v6: AfiSafiType,
    blank: &M,
)
    requires
        old(store).wf(),
    ensures
        final(store).wf(),
        blanked(old(store)@, final(store)@, meant_records(ids@, v4, v6), blank@),
{
    let first = ids_for(ids, v4);
    store.blank_records(&first, &Scope::Family(true), blank);
    let ghost mid = store@;
    let second = ids_for(ids, v6);
    store.blank_records(&second, &Scope::Family(false), blank);
    proof {
        assert forall|k: (PrefixKey, IngressId)| #[trigger] store@.records.contains_key(k) implies mid.records.contains_key(
            k,
        ) by {}
    }
}

/// Those of some ingresses that have one of the records.
pub open spec fn holders(recs: Seq<Record<RotondaPaMap>>, ids: Set<IngressId>) -> Set<IngressId> {
    Set::new(|m: IngressId| ids.contains(m) && exists|i: int| 0 <= i < recs.len() && (#[trigger] recs[i]).multi_uniq_id == m)
}

/// The prefixes that are listed for an ingress.
pub open spec fn listed_for(m: Map<IngressId, Vec<Prefix>>, id: IngressId) -> Seq<Prefix> {
    if m.contains_key(id) {
        m[id]@
    } else {
        Seq::empty()
    }
}

/// Whether a prefix was listed once more for each of some ingresses, and for
/// no other.
pub open spec fn listed_once_more(
    before: Map<IngressId, Vec<Prefix>>,
    after: Map<IngressId, Vec<Prefix>>,
    prefix: Prefix,
    ids: Set<IngressId>,
) -> bool {
    &&& after.dom() == before.dom().union(ids)
    &&& forall|id: IngressId| #[trigger]
        after.contains_key(id) ==> after[id]@ == (if ids.contains(id) {
            listed_for(before, id).push(prefix)
        } else {
            listed_for(before, id)
        })
}

/// Lists a prefix for an ingress.
fn list_prefix(out: &mut HashMap<IngressId, Vec<Prefix>>, id: IngressId, prefix: Prefix)
    ensures
        listed_once_more(old(out)@, final(out)@, prefix, set![id]),
{
    let mut list: Vec<Prefix> = match out.remove(&id) {
        Some(v) => v,
        None => Vec::new(),
    };
    list.push(prefix);
    out.insert(id, list);
    assert(out@.dom() =~= old(out)@.dom().union(set![id]));
}

impl Rib {
    /// Lists the prefix of some records, once for each of the given ingresses
    /// that has one of them. Tells how many those are.
    pub fn group_prefix_by_ingress(
        prefix_record: &PrefixRecord<RotondaPaMap>,
        ingress_ids: &HashSet<IngressId>,
        out: &mut HashMap<IngressId, Vec<Prefix>>,
    ) -> (r: usize)
        ensures
            listed_once_more(
                old(out)@,
                final(out)@,
                prefix_record.prefix,
                holders(prefix_record.meta@, ingress_ids@),
            ),
            holders(prefix_record.meta@, ingress_ids@).finite(),
            r == holders(prefix_record.meta@, ingress_ids@).len(),
    {
        let ghost recs = prefix_record.meta@;
        let prefix = prefix_record.prefix;
        let mut matched: HashSet<IngressId> = HashSet::new();
        let mut added: usize = 0;
        let mut i: usize = 0;
        proof {
            assert(holders(recs.take(0), ingress_ids@) =~= Set::empty());
            assert(out@.dom().union(Set::empty()) =~= out@.dom());
        }
        while i < prefix_record.meta.len()
            invariant
                i <= recs.len(),
                added <= i,
                recs == prefix_record.meta@,
                prefix == prefix_record.prefix,
                matched@ == holders(recs.take(i as int), ingress_ids@),
                matched@.finite(),
                added == matched@.len(),
                listed_once_more(old(out)@, out@, prefix, matched@),
            decreases recs.len() - i,
        {
            let mui: IngressId = prefix_record.meta[i].multi_uniq_id;
            let ghost some = recs.take(i as int);
            let ghost next = recs.take(i + 1);
            let ghost so_far = matched@;
            proof {
                assert(next =~= some.push(recs[i as int]));
                assert(holders(next, ingress_ids@) =~= (if ingress_ids@.contains(mui) {
                    so_far.insert(mui)
                } else {
                    so_far
                })) by {
                    assert forall|m: IngressId| holders(next, ingress_ids@).contains(m) == (so_far.contains(m)
                        || ingress_ids@.contains(mui) && m == mui) by {
                        if so_far.contains(m) {
                            let k = choose|k: int| 0 <= k < some.len() && (#[trigger] some[k]).multi_uniq_id == m;
                            assert(next[k].multi_uniq_id == m);
                        }
                        if holders(next, ingress_ids@).contains(m) && m != mui {
                            let k = choose|k: int| 0 <= k < next.len() && (#[trigger] next[k]).multi_uniq_id == m;
                            assert(some[k].multi_uniq_id == m);
                        }
                        assert(next[i as int].multi_uniq_id == mui);
                    }
                }
            }
            if ingress_ids.contains(&mui) && !matched.contains(&mui) {
                let ghost mid = out@;
                list_prefix(out, mui, prefix);
                matched.insert(mui);
                added = added + 1;
                assert(out@.dom() =~= old(out)@.dom().union(matched@));
            } else {
                assert(so_far.insert(mui) =~= so_far || !ingress_ids@.contains(mui));
            }
            i = i + 1;
        }
        assert(recs.take(i as int) =~= recs);
        added
    }
}

/// The gauges after all meant sessions were reset.
pub open spec fn gauges_reset(s: StatsView, ids: Targets) -> StatsView
    decreases ids.len(),
{
    if ids.len() == 0 {
        s
    } else {
        gauges_reset(s, ids.drop_last()).after_reset(ids.last().0, ids.last().1)
    }
}

/// A store with the meant ingresses withdrawn as a whole.
pub open spec fn with_hits<T>(s: StoreView<T>, ids: Targets, v4: AfiSafiType, v6: AfiSafiType) -> StoreView<T> {
    StoreView { gone_v4: s.gone_v4.union(hits(ids, v4)), gone_v6: s.gone_v6.union(hits(ids, v6)), ..s }
}

/// The EVPN table after ingresses were withdrawn.
pub open spec fn evpn_withdrawn(
    evpn: Map<(Seq<u8>, IngressId), EvpnRecord>,
    gone: Set<IngressId>,
    retain: bool,
) -> Map<(Seq<u8>, IngressId), EvpnRecord> {
    Map::new(
        |k: (Seq<u8>, IngressId)| evpn.contains_key(k) && (retain || !gone.contains(k.1)),
        |k: (Seq<u8>, IngressId)|
            if gone.contains(k.1) {
                EvpnRecord { active: false, ..evpn[k] }
            } else {
                evpn[k]
            },
    )
}

/// Withdraws the EVPN routes of ingresses: marks them, or drops them.
fn withdraw_evpn(records: Table<EvpnKey, EvpnRecord>, gone: &HashSet<IngressId>, retain: bool) -> (r: Table<
    EvpnKey,
    EvpnRecord,
>)
    requires
        records.wf(),
        keyed_by_route(records@),
    ensures
        r.wf(),
        r@ == evpn_withdrawn(records@, gone@, retain),
        keyed_by_route(r@),
{
    let ghost all = records@;
    let mut rest = records;
    let mut out: Table<EvpnKey, EvpnRecord> = Table::new();
    while rest.len() > 0
        invariant
            rest.wf(),
            out.wf(),
            all == records@,
            keyed_by_route(all),
            forall|k: (Seq<u8>, IngressId)| #[trigger]
                rest@.contains_key(k) ==> all.contains_key(k) && rest@[k] == all[k] && !out@.contains_key(k),
            forall|k: (Seq<u8>, IngressId)| #[trigger]
                out@.contains_key(k) ==> evpn_withdrawn(all, gone@, retain).contains_key(k) && out@[k]
                    == evpn_withdrawn(all, gone@, retain)[k],
            forall|k: (Seq<u8>, IngressId)| #[trigger]
                evpn_withdrawn(all, gone@, retain).contains_key(k) ==> out@.contains_key(k) || rest@.contains_key(k),
        decreases rest.size(),
    {
        proof {
            rest.lemma_keys();
        }
        let (key, rec) = rest.pop();
        if gone.contains(&key.ingress_id) {
            if retain {
                out.insert(key, EvpnRecord { active: false, ..rec });
            }
        } else {
            out.insert(key, rec);
        }
    }
    proof {
        rest.lemma_keys();
        assert(rest@.dom().len() == 0);
        assert(rest@.dom() =~= Set::empty());
        assert(out@ =~= evpn_withdrawn(all, gone@, retain)) by {
            assert forall|k: (Seq<u8>, IngressId)| #[trigger] evpn_withdrawn(all, gone@, retain).contains_key(k) implies out@.contains_key(
                k,
            ) by {
                if rest@.contains_key(k) {
                    assert(rest@.dom().contains(k));
                }
            }
        }
    }
    out
}

/// A rule that can be seen: its prefix, its ingress and its place in the set.
pub type RulePlace = (PrefixKey, IngressId, int);

/// The rules of a family that can be seen.
pub open spec fn visible_rules(s: StoreView<Seq<RuleView>>, is_v4: bool) -> Set<RulePlace> {
    Set::new(
        |t: RulePlace|
            t.0.0 == is_v4 && s.shown(t.0, t.1, false, false) is Some && 0 <= t.2 < s.records[(t.0, t.1)].meta.len(),
    )
}

/// The places of `n` rules.
pub open spec fn places(p: PrefixKey, m: IngressId, n: nat) -> Set<RulePlace> {
    Set::new(|t: RulePlace| t.0 == p && t.1 == m && 0 <= t.2 < n)
}

pub proof fn lemma_places(p: PrefixKey, m: IngressId, n: nat)
    ensures
        places(p, m, n).finite(),
        places(p, m, n).len() == n,
    decreases n,
{
    if n == 0 {
        assert(places(p, m, n) =~= Set::empty());
    } else {
        lemma_places(p, m, (n - 1) as nat);
        assert(places(p, m, n) =~= places(p, m, (n - 1) as nat).insert((p, m, n - 1)));
    }
}

/// A number, or the greatest there is.
pub open spec fn capped(n: nat) -> u64 {
    if n <= u64::MAX {
        n as u64
    } else {
        u64::MAX
    }
}

/// The number of rules of a family that can be seen.
fn count_rules(store: &RouteStore<FlowSpecRuleSet>, is_v4: bool) -> (r: u64)
    requires
        store.wf(),
    ensures
        visible_rules(store@, is_v4).finite(),
        r == capped(visible_rules(store@, is_v4).len()),
{
    let ghost s = store@;
    let scope = Scope::Family(is_v4);
    let v = store.prefix_records(&scope, None, false);
    let mut n: u64 = 0;
    let ghost mut seen: Set<RulePlace> = Set::empty();
    let mut i: usize = 0;
    while i < v.len()
        invariant
            i <= v@.len(),
            s == store@,
            scope == Scope::Family(is_v4),
            set_listed(s, scope, None, false, v@),
            seen.finite(),
            n == capped(seen.len()),
            forall|t: RulePlace| #[trigger] seen.contains(t) ==> visible_rules(s, is_v4).contains(t),
            forall|t: RulePlace| #[trigger]
                seen.contains(t) ==> exists|k: int| 0 <= k < i && (#[trigger] v@[k]).prefix@ == t.0,
            forall|t: RulePlace, k: int|
                0 <= k < i && visible_rules(s, is_v4).contains(t) && (#[trigger] v@[k]).prefix@ == t.0
                    ==> #[trigger] seen.contains(t),
        decreases v@.len() - i,
    {
        let pr = &v[i];
        let ghost p = pr.prefix@;
        let ghost base = seen;
        let mut j: usize = 0;
        assert forall|t: RulePlace| #[trigger] base.contains(t) implies t.0 != p by {
            let k = choose|k: int| 0 <= k < i && (#[trigger] v@[k]).prefix@ == t.0;
            assert(v@[k].prefix@ != v@[i as int].prefix@);
        }
        while j < pr.meta.len()
            invariant
                j <= pr.meta@.len(),
                s == store@,
                p == pr.prefix@,
                p.0 == is_v4,
                listed(s, p, None, false, pr.meta@),
                base.subset_of(seen),
                forall|t: RulePlace| #[trigger] base.contains(t) ==> t.0 != p,
                seen.finite(),
                n == capped(seen.len()),
                forall|t: RulePlace| #[trigger]
                    seen.contains(t) ==> base.contains(t) || (t.0 == p && visible_rules(s, is_v4).contains(t)
                        && exists|l: int| 0 <= l < j && (#[trigger] pr.meta@[l]).multi_uniq_id == t.1),
                forall|t: RulePlace, l: int|
                    0 <= l < j && visible_rules(s, is_v4).contains(t) && t.0 == p && (
                    #[trigger] pr.meta@[l]).multi_uniq_id == t.1 ==> #[trigger] seen.contains(t),
            decreases pr.meta@.len() - j,
        {
            let rec = &pr.meta[j];
            let c: usize = rec.meta.rule_count();
            let ghost m = rec.multi_uniq_id;
            proof {
                let add = places(p, m, c as nat);
                lemma_places(p, m, c as nat);
                assert(s.shown(p, m, false, false) == Some(rec@));
                assert forall|t: RulePlace| seen.contains(t) implies !add.contains(t) by {
                    if t.0 == p && t.1 == m {
                        let l = choose|l: int| 0 <= l < j && (#[trigger] pr.meta@[l]).multi_uniq_id == t.1;
                        assert(pr.meta@[l].multi_uniq_id != pr.meta@[j as int].multi_uniq_id);
                    }
                }
                assert(seen.disjoint(add));
                lemma_set_disjoint_lens(seen, add);
                seen = seen + add;
            }
            n = n.saturating_add(c as u64);
            j = j + 1;
        }
        proof {
            assert forall|t: RulePlace, k: int|
                0 <= k < i + 1 && visible_rules(s, is_v4).contains(t) && (#[trigger] v@[k]).prefix@
                    == t.0 implies #[trigger] seen.contains(t) by {
                if k < i {
                    assert(base.contains(t));
                } else {
                    assert(s.shown(p, t.1, false, false) is Some);
                    let l = choose|l: int| 0 <= l < pr.meta@.len() && (#[trigger] pr.meta@[l]).multi_uniq_id == t.1;
                    assert(pr.meta@[l].multi_uniq_id == t.1);
                }
            }
            assert forall|t: RulePlace| #[trigger] seen.contains(t) implies exists|k: int|
                0 <= k < i + 1 && (#[trigger] v@[k]).prefix@ == t.0 by {
                if base.contains(t) {
                    let k = choose|k: int| 0 <= k < i && (#[trigger] v@[k]).prefix@ == t.0;
                    assert(v@[k].prefix@ == t.0);
                } else {
                    assert(v@[i as int].prefix@ == t.0);
                }
            }
        }
        i = i + 1;
    }
    proof {
        assert forall|t: RulePlace| visible_rules(s, is_v4).contains(t) implies #[trigger] seen.contains(t) by {
            assert(s.shown(t.0, t.1, false, false) is Some);
            assert(s.shows(t.0, None, false));
            assert(scope.has(t.0));
            let k = choose|k: int| 0 <= k < v@.len() && (#[trigger] v@[k]).prefix@ == t.0;
            assert(v@[k].prefix@ == t.0);
        }
        assert(seen =~= visible_rules(s, is_v4));
    }
    n
}

/// Whether rule counts are those of the rules that can be seen.
pub open spec fn counts_exact(s: StoreView<Seq<RuleView>>, counts: RuleCounts) -> bool {
    &&& visible_rules(s, true).finite()
    &&& visible_rules(s, false).finite()
    &&& counts.v4 == capped(visible_rules(s, true).len())
    &&& counts.v6 == capped(visible_rules(s, false).len())
}

impl Rib {
    /// Counts the rules that can be seen anew.
    pub fn recount_flowspec_rules(&mut self)
        requires
            old(self).wf(),
        ensures
            *final(self) == (Rib { flowspec_rule_counts: final(self).flowspec_rule_counts, ..*old(self) }),
            final(self).wf(),
            counts_exact(final(self).flowspec@, final(self).flowspec_rule_counts),
    {
        let v4: u64 = count_rules(&self.flowspec, true);
        let v6: u64 = count_rules(&self.flowspec, false);
        self.flowspec_rule_counts = RuleCounts { v4, v6 };
    }

    /// Whether the routes of the meant ingresses lost their attributes, and
    /// nothing else changed.
    pub open spec fn compacted(self, after: Rib, ids: Targets) -> bool {
        &&& blanked(
            self.unicast@,
            after.unicast@,
            meant_records(ids, AfiSafiType::Ipv4Unicast, AfiSafiType::Ipv6Unicast),
            no_attrs(),
        )
        &&& blanked(
            self.multicast@,
            after.multicast@,
            meant_records(ids, AfiSafiType::Ipv4Multicast, AfiSafiType::Ipv6Multicast),
            no_attrs(),
        )
        &&& blanked(
            self.flowspec@,
            after.flowspec@,
            meant_records(ids, AfiSafiType::Ipv4FlowSpec, AfiSafiType::Ipv6FlowSpec),
            Seq::<RuleView>::empty(),
        )
        &&& after.evpn == self.evpn
        &&& after.flowspec_rule_counts == self.flowspec_rule_counts
        &&& after.flowspec_updates == self.flowspec_updates
        &&& after.ingress_register == self.ingress_register
        &&& after.peer_stats == self.peer_stats
    }

    /// Overwrites the attributes of all routes of the meant ingresses, and
    /// withdraws them one by one. EVPN routes are left.
    pub fn compact_withdrawn_attributes_for_ingresses(&mut self, ids: &[(IngressId, Option<AfiSafiType>)])
        requires
            old(self).wf(),
        ensures
            final(self).wf(),
            old(self).compacted(*final(self), ids@),
    {
        let blank = RotondaPaMap::empty_path_attributes();
        compact_store(
            &mut self.unicast,
            ids,
            AfiSafiType::Ipv4Unicast,
            AfiSafiType::Ipv6Unicast,
            &blank,
        );
        compact_store(
            &mut self.multicast,
            ids,
            AfiSafiType::Ipv4Multicast,
            AfiSafiType::Ipv6Multicast,
            &blank,
        );
        let no_rules = FlowSpecRuleSet::new();
        compact_store(
            &mut self.flowspec,
            ids,
            AfiSafiType::Ipv4FlowSpec,
            AfiSafiType::Ipv6FlowSpec,
            &no_rules,
        );
        proof {
            assert forall|k: (PrefixKey, IngressId)| #[trigger] self.flowspec@.records.contains_key(k) implies rules_distinct(
                self.flowspec@.records[k].meta,
            ) by {
                assert(old(self).flowspec@.records.contains_key(k));
            }
        }
    }

    /// As `compact_withdrawn_attributes_for_ingresses`, for one ingress.
    pub fn compact_withdrawn_attributes_for_ingress(
        &mut self,
        ingress_id: IngressId,
        specific_afisafi: Option<AfiSafiType>,
    )
        requires
            old(self).wf(),
        ensures
            final(self).wf(),
            old(self).compacted(*final(self), seq![(ingress_id, specific_afisafi)]),
    {
        let ids: [(IngressId, Option<AfiSafiType>); 1] = [(ingress_id, specific_afisafi)];
        assert(ids@ =~= seq![(ingress_id, specific_afisafi)]);
        self.compact_withdrawn_attributes_for_ingresses(&ids);
    }

    /// What comes before the ingresses are withdrawn: nothing if attributes
    /// are retained, else they are dropped.
    pub open spec fn prepared(self, mid: Rib, ids: Targets, retain: bool) -> bool {
        if retain {
            mid == self
        } else {
            self.compacted(mid, ids)
        }
    }

    /// Whether the meant ingresses were withdrawn as a whole.
    pub open spec fn marked(self, after: Rib, ids: Targets, retain: bool) -> bool {
        &&& after.unicast@ == with_hits(self.unicast@, ids, AfiSafiType::Ipv4Unicast, AfiSafiType::Ipv6Unicast)
        &&& after.multicast@ == with_hits(self.multicast@, ids, AfiSafiType::Ipv4Multicast, AfiSafiType::Ipv6Multicast)
        &&& after.flowspec@ == with_hits(self.flowspec@, ids, AfiSafiType::Ipv4FlowSpec, AfiSafiType::Ipv6FlowSpec)
        &&& after.evpn@ == evpn_withdrawn(self.evpn@, hits(ids, AfiSafiType::L2VpnEvpn), retain)
        &&& after.peer_stats@ == gauges_reset(self.peer_stats@, ids)
        &&& counts_exact(after.flowspec@, after.flowspec_rule_counts)
        &&& after.flowspec_updates == self.flowspec_updates
        &&& after.ingress_register == self.ingress_register
    }

    /// What withdrawing the meant ingresses does.
    pub open spec fn withdrawn(self, after: Rib, ids: Targets, retain: bool) -> bool {
        if ids.len() == 0 {
            after == self
        } else {
            exists|mid: Rib| #[trigger] self.prepared(mid, ids, retain) && mid.marked(after, ids, retain)
        }
    }

    /// Withdraws one ingress in one of the stores.
    fn mark_withdrawn(&mut self, id: IngressId, family: Option<AfiSafiType>)
        requires
            old(self).wf(),
        ensures
            final(self).wf(),
            *final(self) == (Rib {
                unicast: final(self).unicast,
                multicast: final(self).multicast,
                flowspec: final(self).flowspec,
                ..*old(self)
            }),
            final(self).unicast@ == old(self).unicast@.with_gone(
                id,
                family is None || family == Some(AfiSafiType::Ipv4Unicast),
                family is None || family == Some(AfiSafiType::Ipv6Unicast),
            ),
            final(self).multicast@ == old(self).multicast@.with_gone(
                id,
                family is None || family == Some(AfiSafiType::Ipv4Multicast),
                family is None || family == Some(AfiSafiType::Ipv6Multicast),
            ),
            final(self).flowspec@ == old(self).flowspec@.with_gone(
                id,
                family is None || family == Some(AfiSafiType::Ipv4FlowSpec),
                family is None || family == Some(AfiSafiType::Ipv6FlowSpec),
            ),
    {
        match family {
            None => {
                self.unicast.mark_mui_as_withdrawn(id);
                self.multicast.mark_mui_as_withdrawn(id);
                self.flowspec.mark_mui_as_withdrawn(id);
            },
            Some(AfiSafiType::Ipv4Unicast) => {
                self.unicast.mark_family_as_withdrawn(id, true);
            },
            Some(AfiSafiType::Ipv6Unicast) => {
                self.unicast.mark_family_as_withdrawn(id, false);
            },
            Some(AfiSafiType::Ipv4Multicast) => {
                self.multicast.mark_family_as_withdrawn(id, true);
            },
            Some(AfiSafiType::Ipv6Multicast) => {
                self.multicast.mark_family_as_withdrawn(id, false);
            },
            Some(AfiSafiType::Ipv4FlowSpec) => {
                self.flowspec.mark_family_as_withdrawn(id, true);
            },
            Some(AfiSafiType::Ipv6FlowSpec) => {
                self.flowspec.mark_family_as_withdrawn(id, false);
            },
            Some(AfiSafiType::L2VpnEvpn) => {},
            Some(AfiSafiType::Unsupported(_, _)) => {},
        }
    }

    /// Withdraws the meant ingresses: their routes are not shown any more.
    /// Their attributes are dropped, or retained.
    pub fn withdraw_for_ingresses(
        &mut self,
        ids: &[(IngressId, Option<AfiSafiType>)],
        retain_withdrawn_attributes: bool,
    )
        requires
            old(self).wf(),
        ensures
            final(self).wf(),
            old(self).withdrawn(*final(self), ids@, retain_withdrawn_attributes),
    {
        let retain = retain_withdrawn_attributes;
        if ids.len() == 0 {
            return;
        }
        if !retain {
            self.compact_withdrawn_attributes_for_ingresses(ids);
        }
        let ghost mid = *self;
        let gone = ids_for(ids, AfiSafiType::L2VpnEvpn);
        let mut records: Table<EvpnKey, EvpnRecord> = Table::new();
        std::mem::swap(&mut records, &mut self.evpn);
        self.evpn = withdraw_evpn(records, &gone, retain);
        let mut i: usize = 0;
        proof {
            assert(ids@.take(0) =~= Seq::empty());
            lemma_no_hits(mid.unicast@, AfiSafiType::Ipv4Unicast, AfiSafiType::Ipv6Unicast);
            lemma_no_hits(mid.multicast@, AfiSafiType::Ipv4Multicast, AfiSafiType::Ipv6Multicast);
            lemma_no_hits(mid.flowspec@, AfiSafiType::Ipv4FlowSpec, AfiSafiType::Ipv6FlowSpec);
        }
        while i < ids.len()
            invariant
                i <= ids@.len(),
                self.wf(),
                self.evpn@ == evpn_withdrawn(mid.evpn@, hits(ids@, AfiSafiType::L2VpnEvpn), retain),
                self.ingress_register == mid.ingress_register,
                self.flowspec_updates == mid.flowspec_updates,
                self.peer_stats@ == gauges_reset(mid.peer_stats@, ids@.take(i as int)),
                self.unicast@ == with_hits(
                    mid.unicast@,
                    ids@.take(i as int),
                    AfiSafiType::Ipv4Unicast,
                    AfiSafiType::Ipv6Unicast,
                ),
                self.multicast@ == with_hits(
                    mid.multicast@,
                    ids@.take(i as int),
                    AfiSafiType::Ipv4Multicast,
                    AfiSafiType::Ipv6Multicast,
                ),
                self.flowspec@ == with_hits(
                    mid.flowspec@,
                    ids@.take(i as int),
                    AfiSafiType::Ipv4FlowSpec,
                    AfiSafiType::Ipv6FlowSpec,
                ),
            decreases ids@.len() - i,
        {
            let (id, family) = ids[i];
            self.peer_stats.reset_peer_gauge(id, family);
            self.mark_withdrawn(id, family);
            proof {
                assert(ids@.take(i + 1).drop_last() =~= ids@.take(i as int));
                assert(ids@.take(i + 1).last() == ids@[i as int]);
                lemma_one_more_hit(mid.unicast@, ids@, i as int, AfiSafiType::Ipv4Unicast, AfiSafiType::Ipv6Unicast);
                lemma_one_more_hit(
                    mid.multicast@,
                    ids@,
                    i as int,
                    AfiSafiType::Ipv4Multicast,
                    AfiSafiType::Ipv6Multicast,
                );
                lemma_one_more_hit(mid.flowspec@, ids@, i as int, AfiSafiType::Ipv4FlowSpec, AfiSafiType::Ipv6FlowSpec);
            }
            i = i + 1;
        }
        assert(ids@.take(ids@.len() as int) =~= ids@);
        self.recount_flowspec_rules();
        assert(old(self).prepared(mid, ids@, retain));
    }

    /// Withdraws one ingress, in one family or in all.
    pub fn withdraw_for_ingress(
        &mut self,
        ingress_id: IngressId,
        specific_afisafi: Option<AfiSafiType>,
        retain_withdrawn_attributes: bool,
    )
        requires
            old(self).wf(),
        ensures
            final(self).wf(),
            old(self).withdrawn(*final(self), seq![(ingress_id, specific_afisafi)], retain_withdrawn_attributes),
    {
        let ids: [(IngressId, Option<AfiSafiType>); 1] = [(ingress_id, specific_afisafi)];
        assert(ids@ =~= seq![(ingress_id, specific_afisafi)]);
        self.withdraw_for_ingresses(&ids, retain_withdrawn_attributes);
    }
}

/// A store without any trace of some ingresses.
pub open spec fn without_muis<T>(s: StoreView<T>, ids: Set<IngressId>) -> StoreView<T> {
    StoreView {
        records: s.records.remove_keys(Set::new(|k: (PrefixKey, IngressId)| ids.contains(k.1))),
        gone_v4: s.gone_v4.difference(ids),
        gone_v6: s.gone_v6.difference(ids),
        ..s
    }
}

/// Some ingresses, in all families.
pub open spec fn whole(ids: Seq<IngressId>) -> Targets {
    ids.map_values(|id: IngressId| (id, None::<AfiSafiType>))
}

/// Drops all records of some ingresses from a store.
fn remove_from<M: Stored>(store: &mut RouteStore<M>, ids: &[IngressId])
    requires
        old(store).wf(),
    ensures
        final(store).wf(),
        final(store)@ == without_muis(old(store)@, ids@.to_set()),
{
    let ghost s = store@;
    let mut i: usize = 0;
    proof {
        assert(ids@.take(0).to_set() =~= Set::empty());
        assert(without_muis(s, Set::empty()) =~= s);
    }
    while i < ids.len()
        invariant
            i <= ids@.len(),
            store.wf(),
            store@ == without_muis(s, ids@.take(i as int).to_set()),
        decreases ids@.len() - i,
    {
        store.remove_mui(ids[i]);
        proof {
            lemma_take_set(ids@, i as int);
            assert(store@ =~= without_muis(s, ids@.take(i + 1).to_set()));
        }
        i = i + 1;
    }
    assert(ids@.take(ids@.len() as int) =~= ids@);
}

/// Collects ids.
fn id_set(ids: &[IngressId]) -> (r: HashSet<IngressId>)
    ensures
        r@ == ids@.to_set(),
{
    let mut out: HashSet<IngressId> = HashSet::new();
    let mut i: usize = 0;
    assert(ids@.take(0).to_set() =~= Set::empty());
    while i < ids.len()
        invariant
            i <= ids@.len(),
            out@ == ids@.take(i as int).to_set(),
        decreases ids@.len() - i,
    {
        out.insert(ids[i]);
        proof {
            lemma_take_set(ids@, i as int);
        }
        i = i + 1;
    }
    assert(ids@.take(ids@.len() as int) =~= ids@);
    out
}

/// Whether `v` holds each EVPN route once, in any order.
pub open spec fn evpn_listed(evpn: Map<(Seq<u8>, IngressId), EvpnRecord>, v: Seq<EvpnRecord>) -> bool {
    &&& forall|i: int|
        0 <= i < v.len() ==> evpn.contains_key(((#[trigger] v[i]).nlri.key@, v[i].ingress_id)) && v[i].same(
            evpn[(v[i].nlri.key@, v[i].ingress_id)],
        )
    &&& forall|i: int, j: int|
        0 <= i < j < v.len() ==> ((#[trigger] v[i]).nlri.key@, v[i].ingress_id) != ((
        #[trigger] v[j]).nlri.key@, v[j].ingress_id)
    &&& forall|k: (Seq<u8>, IngressId)| #[trigger]
        evpn.contains_key(k) ==> exists|i: int|
            0 <= i < v.len() && ((#[trigger] v[i]).nlri.key@, v[i].ingress_id) == k
}

impl Rib {
    /// All EVPN routes, active or not, in any order.
    pub fn evpn_records(&self) -> (r: Vec<EvpnRecord>)
        requires
            self.wf(),
        ensures
            evpn_listed(self.evpn@, r@),
            r@.len() == self.evpn@.dom().len(),
    {
        let mut out: Vec<EvpnRecord> = Vec::new();
        let mut i: usize = 0;
        proof {
            self.evpn.lemma_keys();
        }
        while i < self.evpn.len()
            invariant
                i <= self.evpn.size(),
                self.wf(),
                out@.len() == i,
                forall|j: int| 0 <= j < i ==> self.evpn@.contains_key(#[trigger] self.evpn.key(j)),
                forall|j: int|
                    0 <= j < i ==> (#[trigger] out@[j]).same(self.evpn@[self.evpn.key(j)]) && (
                        out@[j].nlri.key@,
                        out@[j].ingress_id,
                    ) == self.evpn.key(j),
            decreases self.evpn.size() - i,
        {
            let rec = self.evpn.value_at(i);
            out.push(rec.clone());
            i = i + 1;
        }
        proof {
            self.evpn.lemma_keys();
            assert forall|k: (Seq<u8>, IngressId)| #[trigger] self.evpn@.contains_key(k) implies exists|i: int|
                0 <= i < out@.len() && ((#[trigger] out@[i]).nlri.key@, out@[i].ingress_id) == k by {
                let i = choose|i: int| 0 <= i < self.evpn.size() && #[trigger] self.evpn.key(i) == k;
                assert((out@[i].nlri.key@, out@[i].ingress_id) == k);
            }
            assert forall|i: int, j: int| 0 <= i < j < out@.len() implies ((
            #[trigger] out@[i]).nlri.key@, out@[i].ingress_id) != ((
            #[trigger] out@[j]).nlri.key@, out@[j].ingress_id) by {
                assert(self.evpn.key(i) != self.evpn.key(j));
            }
        }
        out
    }

    /// Whether some ingresses were dropped without a trace.
    pub open spec fn removed(self, after: Rib, ids: Seq<IngressId>) -> bool {
        &&& after.unicast@ == without_muis(self.unicast@, ids.to_set())
        &&& after.multicast@ == without_muis(self.multicast@, ids.to_set())
        &&& after.flowspec@ == without_muis(self.flowspec@, ids.to_set())
        &&& after.evpn@ == evpn_withdrawn(self.evpn@, ids.to_set(), false)
        &&& after.peer_stats@ == gauges_reset(self.peer_stats@, whole(ids))
        &&& after.flowspec_updates == self.flowspec_updates
        &&& after.ingress_register == self.ingress_register
        &&& if ids.len() == 0 {
            after.flowspec_rule_counts == self.flowspec_rule_counts
        } else {
            counts_exact(after.flowspec@, after.flowspec_rule_counts)
        }
    }

    /// Drops all routes of some ingresses, and ends their withdrawal.
    pub fn remove_for_ingresses(&mut self, ids: &[IngressId])
        requires
            old(self).wf(),
        ensures
            final(self).wf(),
            old(self).removed(*final(self), ids@),
    {
        let gone = id_set(ids);
        let mut records: Table<EvpnKey, EvpnRecord> = Table::new();
        std::mem::swap(&mut records, &mut self.evpn);
        self.evpn = withdraw_evpn(records, &gone, false);
        remove_from(&mut self.unicast, ids);
        remove_from(&mut self.multicast, ids);
        remove_from(&mut self.flowspec, ids);
        let ghost before = *self;
        let mut i: usize = 0;
        let ghost targets = whole(ids@);
        assert(targets.take(0) =~= Seq::empty());
        while i < ids.len()
            invariant
                i <= ids@.len(),
                targets == whole(ids@),
                self.peer_stats.wf(),
                self.peer_stats@ == gauges_reset(old(self).peer_stats@, targets.take(i as int)),
                *self == (Rib { peer_stats: self.peer_stats, ..before }),
            decreases ids@.len() - i,
        {
            self.peer_stats.reset_peer_gauge(ids[i], None);
            proof {
                assert(targets.take(i + 1).drop_last() =~= targets.take(i as int));
                assert(targets.take(i + 1).last() == (ids@[i as int], None::<AfiSafiType>));
            }
            i = i + 1;
        }
        assert(targets.take(ids@.len() as int) =~= targets);
        if ids.len() > 0 {
            self.recount_flowspec_rules();
        }
    }
}

proof fn lemma_no_hits<T>(s: StoreView<T>, v4: AfiSafiType, v6: AfiSafiType)
    ensures
        with_hits(s, Seq::empty(), v4, v6) == s,
{
    assert(hits(Seq::empty(), v4) =~= Set::empty());
    assert(hits(Seq::empty(), v6) =~= Set::empty());
    assert(with_hits(s, Seq::empty(), v4, v6) =~= s);
}

proof fn lemma_one_more_hit<T>(s: StoreView<T>, ids: Targets, i: int, v4: AfiSafiType, v6: AfiSafiType)
    requires
        0 <= i < ids.len(),
        v4 != v6,
    ensures
        with_hits(s, ids.take(i), v4, v6).with_gone(
            ids[i].0,
            ids[i].1 is None || ids[i].1 == Some(v4),
            ids[i].1 is None || ids[i].1 == Some(v6),
        ) == with_hits(s, ids.take(i + 1), v4, v6),
{
    lemma_hits_step(ids, i, v4);
    lemma_hits_step(ids, i, v6);
    let a = with_hits(s, ids.take(i), v4, v6).with_gone(
        ids[i].0,
        ids[i].1 is None || ids[i].1 == Some(v4),
        ids[i].1 is None || ids[i].1 == Some(v6),
    );
    let b = with_hits(s, ids.take(i + 1), v4, v6);
    assert(a.gone_v4 =~= b.gone_v4);
    assert(a.gone_v6 =~= b.gone_v6);
}

proof fn lemma_hits_step(ids: Targets, i: int, family: AfiSafiType)
    requires
        0 <= i < ids.len(),
    ensures
        hits(ids.take(i + 1), family) == (if ids[i].1 is None || ids[i].1 == Some(family) {
            hits(ids.take(i), family).insert(ids[i].0)
        } else {
            hits(ids.take(i), family)
        }),
{
    let t = ids.take(i + 1);
    let u = ids.take(i);
    assert forall|m: IngressId| #[trigger] hit(t, m, family) == (hit(u, m, family) || (ids[i].0 == m && (ids[i].1 is None
        || ids[i].1 == Some(family)))) by {
        if hit(u, m, family) {
            let j = choose|j: int|
                0 <= j < u.len() && (#[trigger] u[j]).0 == m && (u[j].1 is None || u[j].1 == Some(family));
            assert(t[j].0 == m);
        }
        if ids[i].0 == m && (ids[i].1 is None || ids[i].1 == Some(family)) {
            assert(t[i].0 == m);
        }
        if hit(t, m, family) {
            let j = choose|j: int|
                0 <= j < t.len() && (#[trigger] t[j]).0 == m && (t[j].1 is None || t[j].1 == Some(family));
            if j < i {
                assert(u[j].0 == m);
            }
        }
    }
    assert(hits(t, family) =~= (if ids[i].1 is None || ids[i].1 == Some(family) {
        hits(u, family).insert(ids[i].0)
    } else {
        hits(u, family)
    }));
}

} // verus!
