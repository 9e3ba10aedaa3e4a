//! The routing information base: the routes of all ingresses, by family.
use std::collections::hash_map::DefaultHasher;
use std::collections::HashSet;
use std::hash::Hasher;

use vstd::prelude::*;
use vstd::std_specs::hash::*;

use crate::evpn::{EvpnNlri, EvpnRecord};
use crate::flowspec::{
    has_rule, put_rule, rule_key, rule_prefix, rules_distinct, take_rule, FlowSpecRuleSet, FlowSpecValidity,
    RuleView,
};
use crate::ingress::{nothing_known, IngressInfo};
use crate::pamap::RotondaPaMap;
use crate::peer_stats::{down, up, GaugeChange, PeerStats, StatsView};
use crate::register::Register;
use crate::route::RotondaRoute;
use crate::store::{
    blank_record, lemma_shows, Record, RecordView, RouteStore, Scope, Stored,
    StoreView, UpsertReport,
};
use crate::table::{Key, Table};
use crate::types::{AfiSafiType, IngressId, IngressState, Prefix, PrefixKey, RouteStatus};
use crate::validation::{flowspec_identity, identity, validate_flowspec, verdict};
use crate::wire::{bytes_equal, copy_range};

verus! {

broadcast use vstd::std_specs::hash::group_hash_axioms;

/// What identifies an EVPN route of an ingress.
#[derive(Debug)]
pub struct EvpnKey {
    pub key: Vec<u8>,
    pub ingress_id: IngressId,
}

impl View for EvpnKey {
    type V = (Seq<u8>, IngressId);

    open spec fn view(&self) -> (Seq<u8>, IngressId) {
        (self.key@, self.ingress_id)
    }
}

impl Key for EvpnKey {
    open spec fn code(k: (Seq<u8>, IngressId)) -> u64 {
        DefaultHasher::spec_finish(seq![k.0])
    }

    fn to_code(&self) -> (r: u64) {
        let mut h = DefaultHasher::new();
        h.write(&self.key);
        assert(h@ =~= seq![self.key@]);
        h.finish()
    }

    fn same_key(&self, o: &Self) -> (r: bool) {
        self.ingress_id == o.ingress_id && bytes_equal(&self.key, &o.key)
    }
}

impl EvpnKey {
    pub fn of(nlri: &EvpnNlri, ingress_id: IngressId) -> (r: Self)
        ensures
            r@ == (nlri.key@, ingress_id),
    {
        let n: usize = nlri.key.len();
        let key = copy_range(&nlri.key, 0, n);
        assert(key@ =~= nlri.key@);
        EvpnKey { key, ingress_id }
    }
}

/// How many FlowSpec rules of each family are visible.
#[derive(Clone, Copy, Debug, PartialEq, Eq, Structural)]
pub struct RuleCounts {
    pub v4: u64,
    pub v6: u64,
}

impl RuleCounts {
    /// The counts after a rule of a family came or went.
    pub open spec fn after(self, is_v4: bool, more: bool) -> RuleCounts {
        let step = |n: u64|
            if more {
                up(n)
            } else {
                down(n)
            };
        if is_v4 {
            RuleCounts { v4: step(self.v4), ..self }
        } else {
            RuleCounts { v6: step(self.v6), ..self }
        }
    }

    fn change(&mut self, is_v4: bool, more: bool)
        ensures
            *final(self) == old(self).after(is_v4, more),
    {
        let n: u64 = if is_v4 { self.v4 } else { self.v6 };
        let m: u64 = if more {
            if n == u64::MAX { n } else { n + 1 }
        } else if n == 0 {
            n
        } else {
            n - 1
        };
        if is_v4 {
            self.v4 = m;
        } else {
            self.v6 = m;
        }
    }
}

/// How many FlowSpec updates of each family came: announcements and
/// withdrawals, whatever came of them.
#[derive(Clone, Copy, Debug, PartialEq, Eq, Structural)]
pub struct UpdateCounts {
    pub v4_announced: u64,
    pub v4_withdrawn: u64,
    pub v6_announced: u64,
    pub v6_withdrawn: u64,
}

impl UpdateCounts {
    /// The counts after one more update.
    pub open spec fn after(self, is_v4: bool, withdrawal: bool) -> UpdateCounts {
        if is_v4 && withdrawal {
            UpdateCounts { v4_withdrawn: up(self.v4_withdrawn), ..self }
        } else if is_v4 {
            UpdateCounts { v4_announced: up(self.v4_announced), ..self }
        } else if withdrawal {
            UpdateCounts { v6_withdrawn: up(self.v6_withdrawn), ..self }
        } else {
            UpdateCounts { v6_announced: up(self.v6_announced), ..self }
        }
    }

    fn note_update(&mut self, is_v4: bool, withdrawal: bool)
        ensures
            *final(self) == old(self).after(is_v4, withdrawal),
    {
        if is_v4 && withdrawal {
            self.v4_withdrawn = self.v4_withdrawn.saturating_add(1);
        } else if is_v4 {
            self.v4_announced = self.v4_announced.saturating_add(1);
        } else if withdrawal {
            self.v6_withdrawn = self.v6_withdrawn.saturating_add(1);
        } else {
            self.v6_announced = self.v6_announced.saturating_add(1);
        }
    }
}

/// The routing information base.
pub struct Rib {
    pub evpn: Table<EvpnKey, EvpnRecord>,
    pub unicast: RouteStore<RotondaPaMap>,
    pub multicast: RouteStore<RotondaPaMap>,
    /// FlowSpec rules, under their destination prefix or the default route of
    /// their family. A record is the whole set of rules of its ingress.
    pub flowspec: RouteStore<FlowSpecRuleSet>,
    pub flowspec_rule_counts: RuleCounts,
    pub flowspec_updates: UpdateCounts,
    pub ingress_register: Register,
    pub peer_stats: PeerStats,
}

/// The family of a prefix in the unicast or the multicast store.
pub open spec fn prefix_family(is_v4: bool, multicast: bool) -> AfiSafiType {
    if multicast {
        if is_v4 {
            AfiSafiType::Ipv4Multicast
        } else {
            AfiSafiType::Ipv6Multicast
        }
    } else if is_v4 {
        AfiSafiType::Ipv4Unicast
    } else {
        AfiSafiType::Ipv6Unicast
    }
}

fn prefix_afi_safi(is_v4: bool, multicast: bool) -> (r: AfiSafiType)
    ensures
        r == prefix_family(is_v4, multicast),
{
    if multicast {
        if is_v4 {
            AfiSafiType::Ipv4Multicast
        } else {
            AfiSafiType::Ipv6Multicast
        }
    } else if is_v4 {
        AfiSafiType::Ipv4Unicast
    } else {
        AfiSafiType::Ipv6Unicast
    }
}

/// The FlowSpec family.
pub open spec fn rule_family(is_v4: bool) -> AfiSafiType {
    if is_v4 {
        AfiSafiType::Ipv4FlowSpec
    } else {
        AfiSafiType::Ipv6FlowSpec
    }
}

fn flowspec_afi_safi(is_v4: bool) -> (r: AfiSafiType)
    ensures
        r == rule_family(is_v4),
{
    if is_v4 {
        AfiSafiType::Ipv4FlowSpec
    } else {
        AfiSafiType::Ipv6FlowSpec
    }
}

/// The content of a store in which there is nothing.
pub open spec fn empty_store<T>() -> StoreView<T> {
    StoreView {
        records: Map::empty(),
        gone_v4: Set::empty(),
        gone_v6: Set::empty(),
        known: Set::empty(),
    }
}

/// The stored bytes of no attributes at all.
pub open spec fn no_attrs() -> Seq<u8> {
    seq![0u8, 1u8]
}

/// A report of an insertion that inserted nothing, and found `count` records.
pub open spec fn nothing_inserted(count: usize) -> UpsertReport {
    UpsertReport { cas_count: 0, prefix_new: false, mui_new: false, mui_count: count }
}

/// Whether a report tells what an insertion did.
pub open spec fn reports<T>(
    before: StoreView<T>,
    after: StoreView<T>,
    p: PrefixKey,
    mui: IngressId,
    rep: UpsertReport,
) -> bool {
    &&& rep.prefix_new == !before.has_prefix(p)
    &&& rep.mui_new == !before.holds(p, mui)
    &&& after.muis(p).finite()
    &&& rep.mui_count == after.muis(p).len()
}

/// A store in which an ingress starts anew in a family: its records there are
/// withdrawn one by one and blank, and it is not withdrawn as a whole.
pub open spec fn renewed<T>(s: StoreView<T>, mui: IngressId, is_v4: bool, blank: T) -> StoreView<T> {
    StoreView {
        records: Map::new(
            |k: (PrefixKey, IngressId)| s.records.contains_key(k),
            |k: (PrefixKey, IngressId)|
                if k.1 == mui && k.0.0 == is_v4 {
                    blank_record(blank)
                } else {
                    s.records[k]
                },
        ),
        ..s.with_back(mui, is_v4)
    }
}

/// What is registered once an ingress is known to be connected.
pub open spec fn connected(infos: Map<IngressId, IngressInfo>, mui: IngressId) -> Map<IngressId, IngressInfo> {
    infos.insert(
        mui,
        if infos.contains_key(mui) {
            IngressInfo { state: Some(IngressState::Connected), ..infos[mui] }
        } else {
            IngressInfo { state: Some(IngressState::Connected), ..nothing_known() }
        },
    )
}

/// Whether an ingress has an active route for a prefix.
pub open spec fn was_active<T>(s: StoreView<T>, p: PrefixKey, mui: IngressId) -> bool {
    s.shown(p, mui, false, false) is Some
}

/// Whether an announcement makes an ingress start anew in its family.
pub open spec fn starts_anew<T>(s: StoreView<T>, is_v4: bool, mui: IngressId, status: RouteStatus) -> bool {
    status is Active && s.gone(is_v4).contains(mui)
}

/// What inserting a route for a prefix does to its store.
pub open spec fn prefix_inserted(
    before: StoreView<Seq<u8>>,
    after: StoreView<Seq<u8>>,
    p: PrefixKey,
    mui: IngressId,
    rec: RecordView<Seq<u8>>,
    retain: bool,
    r: Result<UpsertReport, String>,
) -> bool {
    if rec.status is Withdrawn && !retain && !before.holds(p, mui) {
        after == before && r == Ok::<UpsertReport, String>(nothing_inserted(0))
    } else if rec.status is Withdrawn && !retain {
        &&& r matches Ok(rep) && reports(before, after, p, mui, rep)
        &&& after == before.with_record(p, mui, RecordView { meta: no_attrs(), ..rec })
    } else if rec.status is Withdrawn {
        &&& r is Ok == before.known.contains(p)
        &&& r matches Ok(rep) ==> rep == nothing_inserted(
            if before.holds(p, mui) {
                1
            } else {
                0
            },
        )
        &&& after.gone_v4 == before.gone_v4
        &&& after.gone_v6 == before.gone_v6
        &&& after.known == before.known.insert(p)
        &&& after.records == (if before.holds(p, mui) {
            before.records.insert(
                (p, mui),
                RecordView { ltime: 0, status: RouteStatus::Withdrawn, meta: before.records[(p, mui)].meta },
            )
        } else {
            before.records
        })
    } else {
        let base = if starts_anew(before, p.0, mui, rec.status) {
            renewed(before, mui, p.0, no_attrs())
        } else {
            before
        };
        &&& r matches Ok(rep) && reports(base, after, p, mui, rep)
        &&& after == base.with_record(p, mui, rec)
    }
}

/// What inserting a route does to the gauges. They move only when a route
/// becomes active or stops to be.
pub open spec fn gauges_after_insert<T>(
    before: StatsView,
    after: StatsView,
    s: StoreView<T>,
    p: PrefixKey,
    mui: IngressId,
    status: RouteStatus,
    family: AfiSafiType,
    ok: bool,
) -> bool {
    if status is Withdrawn {
        after == (if was_active(s, p, mui) {
            before.after(mui, GaugeChange::Withdrawn(family))
        } else {
            before
        })
    } else {
        let base = if starts_anew(s, p.0, mui, status) {
            before.after_reset(mui, Some(family))
        } else {
            before
        };
        after == (if !ok || !(status is Active) {
            base
        } else if was_active(s, p, mui) {
            base.after(mui, GaugeChange::Duplicate)
        } else {
            base.after(mui, GaugeChange::Added(family))
        })
    }
}

/// What inserting a route does to the register: an ingress that starts anew
/// is connected.
pub open spec fn register_after_insert(
    before: Map<IngressId, IngressInfo>,
    after: Map<IngressId, IngressInfo>,
    mui: IngressId,
    anew: bool,
) -> bool {
    after == (if anew {
        connected(before, mui)
    } else {
        before
    })
}

/// Makes an ingress start anew in a family of a store: blanks its records
/// there and ends its withdrawal.
fn renew<M: Stored>(store: &mut RouteStore<M>, mui: IngressId, is_v4: bool, blank: &M)
    requires
        old(store).wf(),
    ensures
        final(store).wf(),
        final(store)@ == renewed(old(store)@, mui, is_v4, blank@),
{
    let mut ids: HashSet<IngressId> = HashSet::new();
    ids.insert(mui);
    assert(ids@ =~= set![mui]);
    store.blank_records(&ids, &Scope::Family(is_v4), blank);
    store.mark_family_as_active(mui, is_v4);
    assert(store@.records =~= renewed(old(store)@, mui, is_v4, blank@).records);
}

/// Inserts a route for a prefix into its store.
fn insert_prefix(
    store: &mut RouteStore<RotondaPaMap>,
    register: &mut Register,
    stats: &mut PeerStats,
    prefix: &Prefix,
    multicast: bool,
    attrs: &RotondaPaMap,
    status: RouteStatus,
    ltime: u64,
    mui: IngressId,
    retain: bool,
) -> (r: Result<UpsertReport, String>)
    requires
        old(store).wf(),
        old(register).wf(),
        old(stats).wf(),
        prefix.wf(),
    ensures
        final(store).wf(),
        final(register).wf(),
        final(stats).wf(),
        final(register).next == old(register).next,
        prefix_inserted(
            old(store)@,
            final(store)@,
            prefix@,
            mui,
            (RecordView { ltime, status, meta: attrs@ }),
            retain,
            r,
        ),
        gauges_after_insert(
            old(stats)@,
            final(stats)@,
            old(store)@,
            prefix@,
            mui,
            status,
            prefix_family(prefix@.0, multicast),
            r is Ok,
        ),
        register_after_insert(
            old(register)@,
            final(register)@,
            mui,
            starts_anew(old(store)@, prefix@.0, mui, status),
        ),
{
    let is_v4 = prefix.is_v4();
    let family = prefix_afi_safi(is_v4, multicast);
    let held = stats.peer_gauge(mui).is_some() && !store.mui_is_withdrawn(mui, is_v4) && is_active(store, prefix, mui);
    if status == RouteStatus::Withdrawn {
        if held {
            stats.note(mui, GaugeChange::Withdrawn(family));
        }
        let existed = store.contains(prefix, mui);
        if !retain {
            if !existed {
                return Ok(UpsertReport { cas_count: 0, prefix_new: false, mui_new: false, mui_count: 0 });
            }
            proof {
                assert(store@.records.contains_key((prefix@, mui)));
            }
            return store.insert(
                prefix,
                Record { multi_uniq_id: mui, ltime, status, meta: RotondaPaMap::empty_path_attributes() },
            );
        }
        proof {
            store.lemma_known();
        }
        return match store.mark_mui_as_withdrawn_for_prefix(prefix, mui, 0) {
            Ok(_) => Ok(
                UpsertReport {
                    cas_count: 0,
                    prefix_new: false,
                    mui_new: false,
                    mui_count: if existed {
                        1
                    } else {
                        0
                    },
                },
            ),
            Err(e) => Err(e),
        };
    }
    let ghost s = store@;
    if status == RouteStatus::Active && store.mui_is_withdrawn(mui, is_v4) {
        let blank = RotondaPaMap::empty_path_attributes();
        renew(store, mui, is_v4, &blank);
        stats.reset_peer_gauge(mui, Some(family));
        register_connected(register, mui);
        assert(store@.records.dom() =~= s.records.dom());
    }
    match store.insert(prefix, Record { multi_uniq_id: mui, ltime, status, meta: attrs.clone() }) {
        Ok(rep) => {
            if status == RouteStatus::Active {
                if held {
                    stats.note(mui, GaugeChange::Duplicate);
                } else {
                    stats.note(mui, GaugeChange::Added(family));
                }
            }
            Ok(rep)
        },
        Err(e) => Err(e),
    }
}

/// Notes that an ingress is connected.
fn register_connected(register: &mut Register, mui: IngressId)
    requires
        old(register).wf(),
    ensures
        final(register).wf(),
        final(register).next == old(register).next,
        final(register)@ == connected(old(register)@, mui),
{
    let info = IngressInfo { state: Some(IngressState::Connected), ..IngressInfo::new() };
    register.update_info(mui, info);
}

/// Whether an ingress that is not withdrawn has an active record.
fn is_active<M: Stored>(store: &RouteStore<M>, prefix: &Prefix, mui: IngressId) -> (r: bool)
    requires
        store.wf(),
        prefix.wf(),
        !store@.gone(prefix@.0).contains(mui),
    ensures
        r == was_active(store@, prefix@, mui),
{
    let found = store.get_records_for_prefix(prefix, Some(mui), false);
    proof {
        lemma_shows(store@, prefix@, Some(mui), false, found@);
        if was_active(store@, prefix@, mui) {
            assert(store@.shown(prefix@, mui, true, false) is Some);
        }
    }
    found.len() > 0
}

/// What an ingress has announced under a prefix.
pub open spec fn rules_at(s: StoreView<Seq<RuleView>>, p: PrefixKey, mui: IngressId) -> Seq<RuleView> {
    if s.holds(p, mui) {
        s.records[(p, mui)].meta
    } else {
        Seq::empty()
    }
}

/// What inserting a FlowSpec rule does to its store.
pub open spec fn rule_inserted(
    before: StoreView<Seq<RuleView>>,
    after: StoreView<Seq<RuleView>>,
    p: PrefixKey,
    mui: IngressId,
    ltime: u64,
    status: RouteStatus,
    rule: RuleView,
    r: Result<UpsertReport, String>,
) -> bool {
    if status is Withdrawn {
        let rest = take_rule(rules_at(before, p, mui), rule.nlri);
        if !has_rule(rules_at(before, p, mui), rule.nlri) {
            after == before && r == Ok::<UpsertReport, String>(nothing_inserted(0))
        } else {
            &&& r matches Ok(rep) && reports(before, after, p, mui, rep)
            &&& after == before.with_record(
                p,
                mui,
                RecordView {
                    ltime,
                    status: if rest.len() == 0 {
                        RouteStatus::Withdrawn
                    } else {
                        RouteStatus::Active
                    },
                    meta: rest,
                },
            )
        }
    } else {
        let base = if starts_anew(before, p.0, mui, status) {
            renewed(before, mui, p.0, Seq::<RuleView>::empty())
        } else {
            before
        };
        &&& r matches Ok(rep) && reports(base, after, p, mui, rep)
        &&& after == base.with_record(
            p,
            mui,
            RecordView { ltime, status, meta: put_rule(rules_at(base, p, mui), rule) },
        )
    }
}

/// What inserting a FlowSpec rule does to its store, where an announced rule
/// is stored with a verdict on it.
pub open spec fn rule_stored(
    before: StoreView<Seq<RuleView>>,
    after: StoreView<Seq<RuleView>>,
    unicast: StoreView<Seq<u8>>,
    infos: Map<IngressId, IngressInfo>,
    nlri: Seq<u8>,
    is_v4: bool,
    attrs: Seq<u8>,
    status: RouteStatus,
    ltime: u64,
    mui: IngressId,
    r: Result<UpsertReport, String>,
) -> bool {
    exists|validity: FlowSpecValidity| #[trigger]
        rule_inserted(
            before,
            after,
            rule_key(nlri, is_v4),
            mui,
            ltime,
            status,
            RuleView { nlri, pamap: attrs, validity },
            r,
        ) && (!(status is Withdrawn) && r is Ok ==> verdict(
            unicast,
            infos,
            nlri,
            is_v4,
            identity(infos, attrs, mui).0,
            validity,
        ))
}

/// What inserting a FlowSpec rule does to the gauges and the rule counts.
/// They move only when a rule that was not there comes, or one that was goes.
pub open spec fn counts_after_rule(
    before: (StatsView, RuleCounts),
    after: (StatsView, RuleCounts),
    s: StoreView<Seq<RuleView>>,
    p: PrefixKey,
    mui: IngressId,
    status: RouteStatus,
    nlri: Seq<u8>,
    ok: bool,
) -> bool {
    let family = rule_family(p.0);
    if status is Withdrawn {
        if !has_rule(rules_at(s, p, mui), nlri) {
            after == before
        } else {
            &&& after.0 == before.0.after(mui, GaugeChange::Withdrawn(family))
            &&& after.1 == before.1.after(p.0, false)
        }
    } else {
        let anew = starts_anew(s, p.0, mui, status);
        let base = if anew {
            before.0.after_reset(mui, Some(family))
        } else {
            before.0
        };
        let replaced = !anew && has_rule(rules_at(s, p, mui), nlri);
        if ok {
            &&& after.0 == base.after(
                mui,
                if replaced {
                    GaugeChange::Duplicate
                } else {
                    GaugeChange::Added(family)
                },
            )
            &&& after.1 == (if replaced {
                before.1
            } else {
                before.1.after(p.0, true)
            })
        } else {
            after.1 == before.1 && after.0 == base
        }
    }
}

/// Whether all sets of rules in a store have distinct rules.
pub open spec fn sets_distinct(s: StoreView<Seq<RuleView>>) -> bool {
    forall|k: (PrefixKey, IngressId)| #[trigger] s.records.contains_key(k) ==> rules_distinct(s.records[k].meta)
}

/// The rules that an ingress has announced under a prefix.
fn load_rules(store: &RouteStore<FlowSpecRuleSet>, prefix: &Prefix, mui: IngressId) -> (r: FlowSpecRuleSet)
    requires
        store.wf(),
        prefix.wf(),
    ensures
        r@ == rules_at(store@, prefix@, mui),
{
    let mut found = store.get_records_for_prefix(prefix, Some(mui), true);
    proof {
        if found@.len() > 0 {
            let last = found@[found@.len() - 1];
            assert(store@.shown(prefix@, last.multi_uniq_id, true, true) == Some(last@));
        } else {
            assert(store@.shown(prefix@, mui, true, true) is None);
        }
    }
    match found.pop() {
        Some(rec) => rec.meta,
        None => FlowSpecRuleSet::new(),
    }
}

/// Inserts or withdraws one FlowSpec rule.
fn insert_flowspec(
    store: &mut RouteStore<FlowSpecRuleSet>,
    unicast: &RouteStore<RotondaPaMap>,
    register: &mut Register,
    stats: &mut PeerStats,
    counts: &mut RuleCounts,
    updates: &mut UpdateCounts,
    nlri_raw: &[u8],
    is_v4: bool,
    attrs: &RotondaPaMap,
    status: RouteStatus,
    ltime: u64,
    mui: IngressId,
) -> (r: Result<UpsertReport, String>)
    requires
        old(store).wf(),
        unicast.wf(),
        old(register).wf(),
        old(stats).wf(),
        sets_distinct(old(store)@),
    ensures
        final(store).wf(),
        final(register).wf(),
        final(stats).wf(),
        final(register).next == old(register).next,
        sets_distinct(final(store)@),
        *final(updates) == old(updates).after(is_v4, status is Withdrawn),
        rule_stored(
            old(store)@,
            final(store)@,
            unicast@,
            final(register)@,
            nlri_raw@,
            is_v4,
            attrs@,
            status,
            ltime,
            mui,
            r,
        ),
        counts_after_rule(
            (old(stats)@, *old(counts)),
            (final(stats)@, *final(counts)),
            old(store)@,
            rule_key(nlri_raw@, is_v4),
            mui,
            status,
            nlri_raw@,
            r is Ok,
        ),
        register_after_insert(
            old(register)@,
            final(register)@,
            mui,
            starts_anew(old(store)@, is_v4, mui, status),
        ),
{
    let key = rule_prefix(nlri_raw, is_v4);
    let family = flowspec_afi_safi(is_v4);
    let ghost s = store@;
    if status == RouteStatus::Active && store.mui_is_withdrawn(mui, is_v4) {
        let blank = FlowSpecRuleSet::new();
        renew(store, mui, is_v4, &blank);
        stats.reset_peer_gauge(mui, Some(family));
        register_connected(register, mui);
        assert(store@.records.dom() =~= s.records.dom());
    }
    let mut ruleset = load_rules(store, &key, mui);
    if status == RouteStatus::Withdrawn {
        updates.note_update(is_v4, true);
        let ghost rule = RuleView { nlri: nlri_raw@, pamap: attrs@, validity: FlowSpecValidity::NotValidated };
        if !ruleset.remove(nlri_raw) {
            assert(rule_inserted(s, store@, key@, mui, ltime, status, rule, Ok(nothing_inserted(0))));
            return Ok(UpsertReport { cas_count: 0, prefix_new: false, mui_new: false, mui_count: 0 });
        }
        stats.note(mui, GaugeChange::Withdrawn(family));
        proof {
            assert(store@.records.contains_key((key@, mui)));
        }
        let left = if ruleset.is_empty() {
            RouteStatus::Withdrawn
        } else {
            RouteStatus::Active
        };
        let r = store.insert(&key, Record { multi_uniq_id: mui, ltime, status: left, meta: ruleset });
        if r.is_ok() {
            counts.change(is_v4, false);
        }
        assert(rule_inserted(s, store@, key@, mui, ltime, status, rule, r));
        return r;
    }
    updates.note_update(is_v4, false);
    let (originator, _) = flowspec_identity(register, attrs, mui);
    let validity = validate_flowspec(unicast, register, nlri_raw, &originator, is_v4);
    let ghost rule = RuleView { nlri: nlri_raw@, pamap: attrs@, validity };
    let replaced = ruleset.upsert(nlri_raw, attrs, validity);
    let r = store.insert(&key, Record { multi_uniq_id: mui, ltime, status, meta: ruleset });
    if r.is_ok() {
        if replaced {
            stats.note(mui, GaugeChange::Duplicate);
        } else {
            counts.change(is_v4, true);
            stats.note(mui, GaugeChange::Added(family));
        }
    }
    assert(rule_inserted(s, store@, key@, mui, ltime, status, rule, r));
    r
}

/// What inserting an EVPN route does to the EVPN table.
pub open spec fn evpn_inserted(
    before: Map<(Seq<u8>, IngressId), EvpnRecord>,
    after: Map<(Seq<u8>, IngressId), EvpnRecord>,
    nlri: EvpnNlri,
    attrs: Seq<u8>,
    status: RouteStatus,
    ltime: u64,
    mui: IngressId,
    retain: bool,
) -> bool {
    let key = (nlri.key@, mui);
    if status is Active {
        &&& after.contains_key(key)
        &&& after == before.insert(key, after[key])
        &&& after[key].ingress_id == mui
        &&& after[key].ltime == ltime
        &&& after[key].active
        &&& after[key].nlri.same(nlri)
        &&& after[key].attributes@ == attrs
    } else if !retain {
        after == before.remove(key)
    } else if before.contains_key(key) {
        after == before.insert(key, EvpnRecord { active: false, ltime, ..before[key] })
    } else {
        after == before
    }
}

/// Whether an EVPN route is there and active.
pub open spec fn evpn_active(evpn: Map<(Seq<u8>, IngressId), EvpnRecord>, key: (Seq<u8>, IngressId)) -> bool {
    evpn.contains_key(key) && evpn[key].active
}

/// What inserting an EVPN route reports.
pub open spec fn evpn_report(existed: bool, active: bool) -> UpsertReport {
    UpsertReport {
        cas_count: 0,
        prefix_new: !existed && active,
        mui_new: !existed && active,
        mui_count: if active {
            1
        } else {
            0
        },
    }
}

/// What an EVPN route that comes or goes does to the gauges.
pub open spec fn evpn_gauge(before: bool, now: bool) -> GaugeChange {
    if now && !before {
        GaugeChange::Added(AfiSafiType::L2VpnEvpn)
    } else if !now && before {
        GaugeChange::Withdrawn(AfiSafiType::L2VpnEvpn)
    } else {
        GaugeChange::Nothing
    }
}

/// Whether each EVPN record stands under its own key, and tells what its
/// octets hold.
pub open spec fn keyed_by_route(evpn: Map<(Seq<u8>, IngressId), EvpnRecord>) -> bool {
    forall|k: (Seq<u8>, IngressId)| #[trigger]
        evpn.contains_key(k) ==> evpn[k].nlri.key@ == k.0 && evpn[k].ingress_id == k.1 && evpn[k].nlri.wf()
}

/// Inserts or withdraws an EVPN route.
fn insert_evpn(
    records: &mut Table<EvpnKey, EvpnRecord>,
    stats: &mut PeerStats,
    nlri: &EvpnNlri,
    attrs: &RotondaPaMap,
    status: RouteStatus,
    ltime: u64,
    mui: IngressId,
    retain: bool,
) -> (r: UpsertReport)
    requires
        old(records).wf(),
        old(stats).wf(),
        keyed_by_route(old(records)@),
        nlri.wf(),
    ensures
        final(records).wf(),
        final(stats).wf(),
        keyed_by_route(final(records)@),
        evpn_inserted(old(records)@, final(records)@, *nlri, attrs@, status, ltime, mui, retain),
        r == evpn_report(old(records)@.contains_key((nlri.key@, mui)), status is Active),
        final(stats)@ == old(stats)@.after(
            mui,
            evpn_gauge(evpn_active(old(records)@, (nlri.key@, mui)), status is Active),
        ),
{
    let key = EvpnKey::of(nlri, mui);
    let (existed, was_active) = match records.get(&key) {
        Some(r) => (true, r.active),
        None => (false, false),
    };
    let active = status == RouteStatus::Active;
    let change = if active && !was_active {
        GaugeChange::Added(AfiSafiType::L2VpnEvpn)
    } else if !active && was_active {
        GaugeChange::Withdrawn(AfiSafiType::L2VpnEvpn)
    } else {
        GaugeChange::Nothing
    };
    stats.note(mui, change);
    if active {
        let rec = EvpnRecord { ingress_id: mui, ltime, active, nlri: nlri.clone(), attributes: attrs.clone() };
        records.insert(key, rec);
    } else {
        match records.remove(&key) {
            Some(rec) => {
                if retain {
                    let kept = EvpnRecord { active: false, ltime, ..rec };
                    records.insert(key, kept);
                    assert(records@ =~= old(records)@.insert((nlri.key@, mui), kept));
                }
            },
            None => {
                assert(records@ =~= old(records)@);
            },
        }
    }
    UpsertReport {
        cas_count: 0,
        prefix_new: !existed && active,
        mui_new: !existed && active,
        mui_count: if active {
            1
        } else {
            0
        },
    }
}

impl Rib {
    /// Each part is well-formed; EVPN records stand under their own keys and
    /// tell what their octets hold, and no set of rules has a rule twice.
    pub open spec fn wf(self) -> bool {
        &&& self.evpn.wf()
        &&& self.unicast.wf()
        &&& self.multicast.wf()
        &&& self.flowspec.wf()
        &&& self.ingress_register.wf()
        &&& self.peer_stats.wf()
        &&& keyed_by_route(self.evpn@)
        &&& sets_distinct(self.flowspec@)
    }

    /// An empty table, for the ingresses of a register.
    pub fn new(ingress_register: Register) -> (r: Result<Self, String>)
        requires
            ingress_register.wf(),
        ensures
            r matches Ok(rib) && {
                &&& rib.wf()
                &&& rib.evpn@ == Map::<(Seq<u8>, IngressId), EvpnRecord>::empty()
                &&& rib.unicast@ == empty_store::<Seq<u8>>()
                &&& rib.multicast@ == empty_store::<Seq<u8>>()
                &&& rib.flowspec@ == empty_store::<Seq<RuleView>>()
                &&& rib.flowspec_rule_counts == (RuleCounts { v4: 0, v6: 0 })
                &&& rib.flowspec_updates == (UpdateCounts { v4_announced: 0, v4_withdrawn: 0, v6_announced: 0, v6_withdrawn: 0 })
                &&& rib.ingress_register == ingress_register
                &&& rib.peer_stats@ == (StatsView { sessions: Map::empty(), aliases: Map::empty() })
            },
    {
        Ok(
            Rib {
                evpn: Table::new(),
                unicast: RouteStore::new()?,
                multicast: RouteStore::new()?,
                flowspec: RouteStore::new()?,
                flowspec_rule_counts: RuleCounts { v4: 0, v6: 0 },
                flowspec_updates: UpdateCounts { v4_announced: 0, v4_withdrawn: 0, v6_announced: 0, v6_withdrawn: 0 },
                ingress_register,
                peer_stats: PeerStats::new(),
            },
        )
    }

    /// What inserting a route does.
    pub open spec fn inserted(
        self,
        after: Rib,
        val: RotondaRoute,
        status: RouteStatus,
        ltime: u64,
        mui: IngressId,
        retain: bool,
        r: Result<UpsertReport, String>,
    ) -> bool {
        match val {
            RotondaRoute::L2VpnEvpn(n, a) => {
                &&& evpn_inserted(self.evpn@, after.evpn@, n, a@, status, ltime, mui, retain)
                &&& r == Ok::<UpsertReport, String>(
                    evpn_report(self.evpn@.contains_key((n.key@, mui)), status is Active),
                )
                &&& after.peer_stats@ == self.peer_stats@.after(
                    mui,
                    evpn_gauge(evpn_active(self.evpn@, (n.key@, mui)), status is Active),
                )
                &&& after.unicast == self.unicast
                &&& after.multicast == self.multicast
                &&& after.flowspec == self.flowspec
                &&& after.flowspec_rule_counts == self.flowspec_rule_counts
                &&& after.flowspec_updates == self.flowspec_updates
                &&& after.ingress_register == self.ingress_register
            },
            RotondaRoute::Ipv4Unicast(p, a) => self.inserted_unicast(after, p@, a@, status, ltime, mui, retain, r),
            RotondaRoute::Ipv6Unicast(p, a) => self.inserted_unicast(after, p@, a@, status, ltime, mui, retain, r),
            RotondaRoute::Ipv4Multicast(p, a) => self.inserted_multicast(after, p@, a@, status, ltime, mui, retain, r),
            RotondaRoute::Ipv6Multicast(p, a) => self.inserted_multicast(after, p@, a@, status, ltime, mui, retain, r),
            RotondaRoute::Ipv4FlowSpec(n, a) => self.inserted_rule(after, n@, true, a@, status, ltime, mui, r),
            RotondaRoute::Ipv6FlowSpec(n, a) => self.inserted_rule(after, n@, false, a@, status, ltime, mui, r),
        }
    }

    /// What inserting a unicast route does.
    pub open spec fn inserted_unicast(
        self,
        after: Rib,
        p: PrefixKey,
        attrs: Seq<u8>,
        status: RouteStatus,
        ltime: u64,
        mui: IngressId,
        retain: bool,
        r: Result<UpsertReport, String>,
    ) -> bool {
        &&& prefix_inserted(
            self.unicast@,
            after.unicast@,
            p,
            mui,
            RecordView { ltime, status, meta: attrs },
            retain,
            r,
        )
        &&& gauges_after_insert(
            self.peer_stats@,
            after.peer_stats@,
            self.unicast@,
            p,
            mui,
            status,
            prefix_family(p.0, false),
            r is Ok,
        )
        &&& register_after_insert(
            self.ingress_register@,
            after.ingress_register@,
            mui,
            starts_anew(self.unicast@, p.0, mui, status),
        )
        &&& after.evpn == self.evpn
        &&& after.multicast == self.multicast
        &&& after.flowspec == self.flowspec
        &&& after.flowspec_rule_counts == self.flowspec_rule_counts
        &&& after.flowspec_updates == self.flowspec_updates
    }

    /// What inserting a multicast route does.
    pub open spec fn inserted_multicast(
        self,
        after: Rib,
        p: PrefixKey,
        attrs: Seq<u8>,
        status: RouteStatus,
        ltime: u64,
        mui: IngressId,
        retain: bool,
        r: Result<UpsertReport, String>,
    ) -> bool {
        &&& prefix_inserted(
            self.multicast@,
            after.multicast@,
            p,
            mui,
            RecordView { ltime, status, meta: attrs },
            retain,
            r,
        )
        &&& gauges_after_insert(
            self.peer_stats@,
            after.peer_stats@,
            self.multicast@,
            p,
            mui,
            status,
            prefix_family(p.0, true),
            r is Ok,
        )
        &&& register_after_insert(
            self.ingress_register@,
            after.ingress_register@,
            mui,
            starts_anew(self.multicast@, p.0, mui, status),
        )
        &&& after.evpn == self.evpn
        &&& after.unicast == self.unicast
        &&& after.flowspec == self.flowspec
        &&& after.flowspec_rule_counts == self.flowspec_rule_counts
        &&& after.flowspec_updates == self.flowspec_updates
    }

    /// What inserting a FlowSpec rule does.
    pub open spec fn inserted_rule(
        self,
        after: Rib,
        nlri: Seq<u8>,
        is_v4: bool,
        attrs: Seq<u8>,
        status: RouteStatus,
        ltime: u64,
        mui: IngressId,
        r: Result<UpsertReport, String>,
    ) -> bool {
        &&& rule_stored(
            self.flowspec@,
            after.flowspec@,
            self.unicast@,
            after.ingress_register@,
            nlri,
            is_v4,
            attrs,
            status,
            ltime,
            mui,
            r,
        )
        &&& counts_after_rule(
            (self.peer_stats@, self.flowspec_rule_counts),
            (after.peer_stats@, after.flowspec_rule_counts),
            self.flowspec@,
            rule_key(nlri, is_v4),
            mui,
            status,
            nlri,
            r is Ok,
        )
        &&& register_after_insert(
            self.ingress_register@,
            after.ingress_register@,
            mui,
            starts_anew(self.flowspec@, is_v4, mui, status),
        )
        &&& after.flowspec_updates == self.flowspec_updates.after(is_v4, status is Withdrawn)
        &&& after.evpn == self.evpn
        &&& after.unicast == self.unicast
        &&& after.multicast == self.multicast
    }

    /// Inserts a route, or withdraws it. Attributes of a withdrawn route are
    /// kept if `retain_withdrawn_attributes` is set. Whether equal attributes
    /// share memory makes no difference to what is stored.
    pub fn insert(
        &mut self,
        val: &RotondaRoute,
        route_status: RouteStatus,
        ltime: u64,
        ingress_id: IngressId,
        retain_withdrawn_attributes: bool,
        _deduplicate_path_attributes: bool,
    ) -> (r: Result<UpsertReport, String>)
        requires
            old(self).wf(),
            val.wf(),
        ensures
            final(self).wf(),
            old(self).inserted(
                *final(self),
                *val,
                route_status,
                ltime,
                ingress_id,
                retain_withdrawn_attributes,
                r,
            ),
    {
        match val {
            RotondaRoute::L2VpnEvpn(n, a) => {
                let report = insert_evpn(
                    &mut self.evpn,
                    &mut self.peer_stats,
                    n,
                    a,
                    route_status,
                    ltime,
                    ingress_id,
                    retain_withdrawn_attributes,
                );
                Ok(report)
            },
            RotondaRoute::Ipv4Unicast(p, a) | RotondaRoute::Ipv6Unicast(p, a) => {
                let r = insert_prefix(
                    &mut self.unicast,
                    &mut self.ingress_register,
                    &mut self.peer_stats,
                    p,
                    false,
                    a,
                    route_status,
                    ltime,
                    ingress_id,
                    retain_withdrawn_attributes,
                );
                assert(old(self).inserted_unicast(
                    *self,
                    p@,
                    a@,
                    route_status,
                    ltime,
                    ingress_id,
                    retain_withdrawn_attributes,
                    r,
                ));
                r
            },
            RotondaRoute::Ipv4Multicast(p, a) | RotondaRoute::Ipv6Multicast(p, a) => {
                let r = insert_prefix(
                    &mut self.multicast,
                    &mut self.ingress_register,
                    &mut self.peer_stats,
                    p,
                    true,
                    a,
                    route_status,
                    ltime,
                    ingress_id,
                    retain_withdrawn_attributes,
                );
                assert(old(self).inserted_multicast(
                    *self,
                    p@,
                    a@,
                    route_status,
                    ltime,
                    ingress_id,
                    retain_withdrawn_attributes,
                    r,
                ));
                r
            },
            RotondaRoute::Ipv4FlowSpec(n, a) => {
                let r = insert_flowspec(
                    &mut self.flowspec,
                    &self.unicast,
                    &mut self.ingress_register,
                    &mut self.peer_stats,
                    &mut self.flowspec_rule_counts,
                    &mut self.flowspec_updates,
                    n,
                    true,
                    a,
                    route_status,
                    ltime,
                    ingress_id,
                );
                assert(old(self).inserted_rule(*self, n@, true, a@, route_status, ltime, ingress_id, r));
                r
            },
            RotondaRoute::Ipv6FlowSpec(n, a) => {
                let r = insert_flowspec(
                    &mut self.flowspec,
                    &self.unicast,
                    &mut self.ingress_register,
                    &mut self.peer_stats,
                    &mut self.flowspec_rule_counts,
                    &mut self.flowspec_updates,
                    n,
                    false,
                    a,
                    route_status,
                    ltime,
                    ingress_id,
                );
                assert(old(self).inserted_rule(*self, n@, false, a@, route_status, ltime, ingress_id, r));
                r
            },
        }
    }
}

} // verus!
