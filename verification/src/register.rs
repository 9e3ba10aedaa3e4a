//! The register of ingresses: what is known of each source of routes, under
//! its id.
use vstd::prelude::*;

use crate::ingress::{InfoView, IngressInfo};
use crate::table::Table;
use crate::types::{IngressId, IngressState, IngressType};

verus! {

/// The register of ingresses.
#[derive(Debug)]
pub struct Register {
    pub infos: Table<IngressId, IngressInfo>,
    pub next: IngressId,
}

/// How many ingresses are in which state, and how many are of the types that
/// there are many of.
#[derive(Clone, Copy, Debug, PartialEq, Eq, Structural)]
pub struct RegisterSummary {
    pub total: usize,
    pub connected: usize,
    pub disconnected: usize,
    pub non_network: usize,
    pub state_unset: usize,
    pub bgp_via_bmp: usize,
    pub bgp_path: usize,
}

impl RegisterSummary {
    /// Whether it counts what is known.
    pub open spec fn summarizes(self, infos: Map<IngressId, IngressInfo>) -> bool {
        &&& self.total == infos.dom().len()
        &&& self.connected == ids_with(infos, |i: IngressInfo| i.state == Some(IngressState::Connected)).len()
        &&& self.disconnected == ids_with(infos, |i: IngressInfo| i.state == Some(IngressState::Disconnected)).len()
        &&& self.non_network == ids_with(infos, |i: IngressInfo| i.state == Some(IngressState::NonNetwork)).len()
        &&& self.state_unset == ids_with(infos, |i: IngressInfo| i.state == None::<IngressState>).len()
        &&& self.bgp_via_bmp == ids_with(infos, |i: IngressInfo| i.ingress_type == Some(IngressType::BgpViaBmp)).len()
        &&& self.bgp_path == ids_with(infos, |i: IngressInfo| i.ingress_type == Some(IngressType::BgpPath)).len()
    }
}

/// `new` if it is known, else `old`.
pub open spec fn newer<T>(new: Option<T>, old: Option<T>) -> Option<T> {
    match new {
        Some(_) => new,
        None => old,
    }
}

fn pick<T>(new: Option<T>, old: Option<T>) -> (r: Option<T>)
    ensures
        r == newer(new, old),
{
    match new {
        Some(_) => new,
        None => old,
    }
}

/// What is known after an update: each field from the update that has it,
/// else from before.
pub open spec fn merged(old: IngressInfo, new: IngressInfo) -> IngressInfo {
    IngressInfo {
        ingress_type: newer(new.ingress_type, old.ingress_type),
        parent_ingress: newer(new.parent_ingress, old.parent_ingress),
        path_id: newer(new.path_id, old.path_id),
        state: newer(new.state, old.state),
        path_activity: old.path_activity,
        remote_addr: newer(new.remote_addr, old.remote_addr),
        remote_asn: newer(new.remote_asn, old.remote_asn),
        local_addr: newer(new.local_addr, old.local_addr),
        bgp_id: newer(new.bgp_id, old.bgp_id),
        peer_type: newer(new.peer_type, old.peer_type),
        peer_rib_type: newer(new.peer_rib_type, old.peer_rib_type),
        distinguisher: newer(new.distinguisher, old.distinguisher),
        remote_capabilities: newer(new.remote_capabilities, old.remote_capabilities),
        addpath_families: newer(new.addpath_families, old.addpath_families),
        peer_hostname: newer(new.peer_hostname, old.peer_hostname),
        peer_software_version: newer(new.peer_software_version, old.peer_software_version),
        peer_role: newer(new.peer_role, old.peer_role),
        session_up_time: newer(new.session_up_time, old.session_up_time),
        name: newer(new.name, old.name),
        desc: newer(new.desc, old.desc),
        filename: newer(new.filename, old.filename),
    }
}

/// What is known after an update.
pub open spec fn merged_view(old: InfoView, new: InfoView) -> InfoView {
    InfoView {
        ingress_type: newer(new.ingress_type, old.ingress_type),
        parent_ingress: newer(new.parent_ingress, old.parent_ingress),
        path_id: newer(new.path_id, old.path_id),
        state: newer(new.state, old.state),
        path_activity: old.path_activity,
        remote_addr: newer(new.remote_addr, old.remote_addr),
        remote_asn: newer(new.remote_asn, old.remote_asn),
        local_addr: newer(new.local_addr, old.local_addr),
        bgp_id: newer(new.bgp_id, old.bgp_id),
        peer_type: newer(new.peer_type, old.peer_type),
        peer_rib_type: newer(new.peer_rib_type, old.peer_rib_type),
        distinguisher: newer(new.distinguisher, old.distinguisher),
        remote_capabilities: newer(new.remote_capabilities, old.remote_capabilities),
        addpath_families: newer(new.addpath_families, old.addpath_families),
        peer_hostname: newer(new.peer_hostname, old.peer_hostname),
        peer_software_version: newer(new.peer_software_version, old.peer_software_version),
        peer_role: newer(new.peer_role, old.peer_role),
        session_up_time: newer(new.session_up_time, old.session_up_time),
        name: newer(new.name, old.name),
        desc: newer(new.desc, old.desc),
        filename: newer(new.filename, old.filename),
    }
}

pub proof fn lemma_merged_view(old: IngressInfo, new: IngressInfo)
    ensures
        merged(old, new)@ == merged_view(old@, new@),
{
}

/// What is known of all ingresses.
pub open spec fn known(infos: Map<IngressId, IngressInfo>) -> Map<IngressId, InfoView> {
    infos.map_values(|i: IngressInfo| i@)
}

fn merge(old: IngressInfo, new: IngressInfo) -> (r: IngressInfo)
    ensures
        r == merged(old, new),
{
    IngressInfo {
        ingress_type: pick(new.ingress_type, old.ingress_type),
        parent_ingress: pick(new.parent_ingress, old.parent_ingress),
        path_id: pick(new.path_id, old.path_id),
        state: pick(new.state, old.state),
        path_activity: old.path_activity,
        remote_addr: pick(new.remote_addr, old.remote_addr),
        remote_asn: pick(new.remote_asn, old.remote_asn),
        local_addr: pick(new.local_addr, old.local_addr),
        bgp_id: pick(new.bgp_id, old.bgp_id),
        peer_type: pick(new.peer_type, old.peer_type),
        peer_rib_type: pick(new.peer_rib_type, old.peer_rib_type),
        distinguisher: pick(new.distinguisher, old.distinguisher),
        remote_capabilities: pick(new.remote_capabilities, old.remote_capabilities),
        addpath_families: pick(new.addpath_families, old.addpath_families),
        peer_hostname: pick(new.peer_hostname, old.peer_hostname),
        peer_software_version: pick(new.peer_software_version, old.peer_software_version),
        peer_role: pick(new.peer_role, old.peer_role),
        session_up_time: pick(new.session_up_time, old.session_up_time),
        name: pick(new.name, old.name),
        desc: pick(new.desc, old.desc),
        filename: pick(new.filename, old.filename),
    }
}

/// The ids of the ingresses that satisfy `p`.
pub open spec fn ids_with(infos: Map<IngressId, IngressInfo>, p: spec_fn(IngressInfo) -> bool) -> Set<IngressId> {
    Set::new(|id: IngressId| infos.contains_key(id) && p(infos[id]))
}

/// The session that an ingress belongs to: the parent of an ADD-PATH child,
/// if it is known, else the ingress itself.
pub open spec fn session_of(infos: Map<IngressId, IngressInfo>, id: IngressId) -> IngressId {
    if infos.contains_key(id) && infos[id].ingress_type == Some(IngressType::BgpPath) {
        match infos[id].parent_ingress {
            Some(parent) => parent,
            None => id,
        }
    } else {
        id
    }
}

/// Whether an ingress is an ADD-PATH child that can be retired, given that it
/// was idle since its activity was `activity`.
pub open spec fn retirable(infos: Map<IngressId, IngressInfo>, id: IngressId, activity: u64) -> bool {
    &&& infos.contains_key(id)
    &&& infos[id].ingress_type == Some(IngressType::BgpPath)
    &&& infos[id].state == Some(IngressState::Connected)
    &&& infos[id].path_activity == activity
}

/// Whether an ingress is registered as disconnected.
pub open spec fn is_disconnected(infos: Map<IngressId, IngressInfo>, id: IngressId) -> bool {
    infos.contains_key(id) && infos[id].state == Some(IngressState::Disconnected)
}

/// Whether `copy` tells the same of each ingress in `ids`, and has no other.
pub open spec fn copies(
    copy: Map<IngressId, IngressInfo>,
    infos: Map<IngressId, IngressInfo>,
    ids: Set<IngressId>,
) -> bool {
    &&& forall|id: IngressId| #[trigger] copy.contains_key(id) == (infos.contains_key(id) && ids.contains(id))
    &&& forall|id: IngressId| #[trigger] copy.contains_key(id) ==> copy[id].same(infos[id])
}

/// The ingresses of `ids` and the parents of those that are registered.
pub open spec fn with_parents(infos: Map<IngressId, IngressInfo>, ids: Set<IngressId>) -> Set<IngressId> {
    Set::new(
        |id: IngressId|
            ids.contains(id) || exists|child: IngressId| #[trigger]
                ids.contains(child) && infos.contains_key(child) && infos[child].parent_ingress == Some(id),
    )
}

/// The set of the first items of a list grows by the next.
pub proof fn lemma_take_set<T>(s: Seq<T>, i: int)
    requires
        0 <= i < s.len(),
    ensures
        s.take(i + 1).to_set() == s.take(i).to_set().insert(s[i]),
{
    let t = s.take(i + 1);
    let u = s.take(i);
    assert(t =~= u.push(s[i]));
    assert forall|k: T| #[trigger] t.to_set().contains(k) == u.to_set().insert(s[i]).contains(k) by {
        if t.contains(k) {
            let j = choose|j: int| 0 <= j < t.len() && t[j] == k;
            if j < i {
                assert(u[j] == k);
            }
        }
        if u.contains(k) {
            let j = choose|j: int| 0 <= j < u.len() && u[j] == k;
            assert(t[j] == k);
        }
        assert(t[i] == s[i]);
    }
    assert(t.to_set() =~= u.to_set().insert(s[i]));
}

impl View for Register {
    type V = Map<IngressId, IngressInfo>;

    open spec fn view(&self) -> Map<IngressId, IngressInfo> {
        self.infos@
    }
}

impl Register {
    pub open spec fn wf(self) -> bool {
        self.infos.wf()
    }

    /// An empty register, whose ids start at one.
    pub fn new() -> (r: Self)
        ensures
            r.wf(),
            r@ == Map::<IngressId, IngressInfo>::empty(),
            r.next == 1,
    {
        Register { infos: Table::new(), next: 1 }
    }

    /// Hands out an id of which nothing is known yet.
    pub fn register(&mut self) -> (r: IngressId)
        requires
            old(self).wf(),
            old(self).next < u32::MAX,
        ensures
            final(self).wf(),
            r == old(self).next,
            final(self).next == old(self).next + 1,
            final(self)@ == old(self)@,
    {
        let id: IngressId = self.next;
        self.next = id + 1;
        id
    }

    /// Hands out an id of which nothing is known yet, unless all ids are
    /// taken.
    pub fn try_register(&mut self) -> (r: Option<IngressId>)
        requires
            old(self).wf(),
        ensures
            final(self).wf(),
            final(self)@ == old(self)@,
            match r {
                Some(id) => id == old(self).next && final(self).next == old(self).next + 1,
                None => old(self).next == u32::MAX && final(self).next == old(self).next,
            },
    {
        if self.next == u32::MAX {
            None
        } else {
            Some(self.register())
        }
    }

    pub fn get(&self, id: IngressId) -> (r: Option<&IngressInfo>)
        requires
            self.wf(),
        ensures
            match r {
                Some(i) => self@.contains_key(id) && *i == self@[id],
                None => !self@.contains_key(id),
            },
    {
        self.infos.get(&id)
    }

    /// Adds to what is known of an ingress.
    pub fn update_info(&mut self, id: IngressId, info: IngressInfo)
        requires
            old(self).wf(),
        ensures
            final(self).wf(),
            final(self).next == old(self).next,
            final(self)@ == old(self)@.insert(
                id,
                if old(self)@.contains_key(id) {
                    merged(old(self)@[id], info)
                } else {
                    info
                },
            ),
    {
        match self.infos.remove(&id) {
            Some(known) => {
                let m = merge(known, info);
                self.infos.insert(id, m);
                assert(self@ =~= old(self)@.insert(id, m));
            },
            None => {
                self.infos.insert(id, info);
                assert(self@ =~= old(self)@.insert(id, info));
            },
        }
    }

    /// The session that an ingress belongs to.
    pub fn session_for(&self, id: IngressId) -> (r: IngressId)
        requires
            self.wf(),
        ensures
            r == session_of(self@, id),
    {
        match self.infos.get(&id) {
            Some(info) => {
                match (info.ingress_type, info.parent_ingress) {
                    (Some(IngressType::BgpPath), Some(parent)) => parent,
                    _ => id,
                }
            },
            None => id,
        }
    }

    /// The BGP identifier and the AS number of the far end, as far as known.
    pub fn bgp_id_and_remote_asn(&self, id: IngressId) -> (r: (Option<[u8; 4]>, Option<u32>))
        requires
            self.wf(),
        ensures
            r == (if self@.contains_key(id) {
                (self@[id].bgp_id, self@[id].remote_asn)
            } else {
                (None, None)
            }),
    {
        match self.infos.get(&id) {
            Some(info) => (info.bgp_id, info.remote_asn),
            None => (None, None),
        }
    }

    /// Disconnects an ADD-PATH child that has been idle since its activity
    /// was `activity`, and tells whether it did.
    pub fn retire_path_child(&mut self, id: IngressId, activity: u64) -> (r: bool)
        requires
            old(self).wf(),
        ensures
            final(self).wf(),
            final(self).next == old(self).next,
            r == retirable(old(self)@, id, activity),
            final(self)@ == (if r {
                old(self)@.insert(
                    id,
                    IngressInfo { state: Some(IngressState::Disconnected), ..old(self)@[id] },
                )
            } else {
                old(self)@
            }),
    {
        let idle = match self.infos.get(&id) {
            Some(info) => {
                info.path_activity == activity && match (info.ingress_type, info.state) {
                    (Some(IngressType::BgpPath), Some(IngressState::Connected)) => true,
                    _ => false,
                }
            },
            None => false,
        };
        if idle {
            match self.infos.remove(&id) {
                Some(info) => {
                    let retired = IngressInfo { state: Some(IngressState::Disconnected), ..info };
                    self.infos.insert(id, retired);
                    assert(self@ =~= old(self)@.insert(id, retired));
                },
                None => {},
            }
        }
        idle
    }

    /// Forgets an ingress if it is disconnected.
    pub fn remove_if_disconnected(&mut self, id: IngressId) -> (r: Option<IngressInfo>)
        requires
            old(self).wf(),
        ensures
            final(self).wf(),
            final(self).next == old(self).next,
            match r {
                Some(info) => is_disconnected(old(self)@, id) && info == old(self)@[id] && final(self)@
                    == old(self)@.remove(id),
                None => !is_disconnected(old(self)@, id) && final(self)@ == old(self)@,
            },
    {
        let gone = match self.infos.get(&id) {
            Some(info) => match info.state {
                Some(IngressState::Disconnected) => true,
                _ => false,
            },
            None => false,
        };
        if gone {
            self.infos.remove(&id)
        } else {
            None
        }
    }

    /// What is known of all ingresses.
    pub fn cloned_info(&self) -> (r: Table<IngressId, IngressInfo>)
        requires
            self.wf(),
        ensures
            r.wf(),
            copies(r@, self@, self@.dom()),
    {
        let mut out: Table<IngressId, IngressInfo> = Table::new();
        let mut i: usize = 0;
        while i < self.infos.len()
            invariant
                i <= self.infos.size(),
                self.wf(),
                out.wf(),
                forall|id: IngressId| #[trigger]
                    out@.contains_key(id) ==> self@.contains_key(id) && out@[id].same(self@[id]),
                forall|j: int| 0 <= j < i ==> out@.contains_key(#[trigger] self.infos.key(j)),
            decreases self.infos.size() - i,
        {
            let id: IngressId = *self.infos.key_at(i);
            let info = self.infos.value_at(i).duplicate();
            out.insert(id, info);
            i = i + 1;
        }
        proof {
            self.infos.lemma_keys();
            assert forall|id: IngressId| self@.contains_key(id) implies #[trigger] out@.contains_key(id) by {
                let j = choose|j: int| 0 <= j < self.infos.size() && #[trigger] self.infos.key(j) == id;
                assert(out@.contains_key(self.infos.key(j)));
            }
        }
        out
    }

    /// Adds what is known of one ingress to a copy.
    fn copy_one(&self, out: &mut Table<IngressId, IngressInfo>, id: IngressId)
        requires
            self.wf(),
            old(out).wf(),
        ensures
            final(out).wf(),
            forall|k: IngressId| #[trigger]
                final(out)@.contains_key(k) == (old(out)@.contains_key(k) || (k == id && self@.contains_key(k))),
            forall|k: IngressId| #[trigger]
                final(out)@.contains_key(k) ==> if k == id && self@.contains_key(id) {
                    final(out)@[k].same(self@[k])
                } else {
                    final(out)@[k] == old(out)@[k]
                },
    {
        match self.infos.get(&id) {
            Some(info) => {
                out.insert(id, info.duplicate());
            },
            None => {},
        }
    }

    /// What is known of some ingresses and of their parents.
    pub fn cloned_info_for(&self, ids: &[IngressId]) -> (r: Table<IngressId, IngressInfo>)
        requires
            self.wf(),
        ensures
            r.wf(),
            copies(r@, self@, with_parents(self@, ids@.to_set())),
    {
        let mut out: Table<IngressId, IngressInfo> = Table::new();
        let mut i: usize = 0;
        while i < ids.len()
            invariant
                i <= ids@.len(),
                self.wf(),
                out.wf(),
                forall|k: IngressId| #[trigger]
                    out@.contains_key(k) ==> self@.contains_key(k) && out@[k].same(self@[k]),
                copies(out@, self@, with_parents(self@, ids@.take(i as int).to_set())),
            decreases ids@.len() - i,
        {
            let id: IngressId = ids[i];
            let ghost before = out@;
            self.copy_one(&mut out, id);
            let parent: Option<IngressId> = match self.infos.get(&id) {
                Some(info) => info.parent_ingress,
                None => None,
            };
            match parent {
                Some(p) => {
                    self.copy_one(&mut out, p);
                },
                None => {},
            }
            proof {
                let a = ids@.take(i as int).to_set();
                let b = ids@.take(i + 1).to_set();
                lemma_take_set(ids@, i as int);
                assert forall|k: IngressId| #[trigger] out@.contains_key(k) == (self@.contains_key(k) && with_parents(
                    self@,
                    b,
                ).contains(k)) by {
                    assert(with_parents(self@, b).contains(k) == (with_parents(self@, a).contains(k) || k == id || (
                    self@.contains_key(id) && self@[id].parent_ingress == Some(k)))) by {
                        if with_parents(self@, a).contains(k) && !a.contains(k) {
                            let c = choose|c: IngressId| #[trigger]
                                a.contains(c) && self@.contains_key(c) && self@[c].parent_ingress == Some(k);
                            assert(b.contains(c));
                        }
                        if self@.contains_key(id) && self@[id].parent_ingress == Some(k) {
                            assert(b.contains(id));
                        }
                        if with_parents(self@, b).contains(k) && !b.contains(k) {
                            let c = choose|c: IngressId| #[trigger]
                                b.contains(c) && self@.contains_key(c) && self@[c].parent_ingress == Some(k);
                            if c != id {
                                assert(a.contains(c));
                            }
                        }
                    }
                }
            }
            i = i + 1;
        }
        assert(ids@.take(ids@.len() as int) =~= ids@);
        out
    }

    fn count_state(&self, state: Option<IngressState>) -> (r: usize)
        requires
            self.wf(),
        ensures
            r == ids_with(self@, |i: IngressInfo| i.state == state).len(),
    {
        let ghost p = |i: IngressInfo| i.state == state;
        let mut n: usize = 0;
        let mut i: usize = 0;
        let ghost mut seen: Set<IngressId> = Set::empty();
        while i < self.infos.len()
            invariant
                n <= i <= self.infos.size(),
                self.wf(),
                p == (|i: IngressInfo| i.state == state),
                seen.finite(),
                n == seen.len(),
                forall|j: int| 0 <= j < i && p(self@[self.infos.key(j)]) ==> seen.contains(#[trigger] self.infos.key(j)),
                forall|id: IngressId| #[trigger]
                    seen.contains(id) ==> self@.contains_key(id) && p(self@[id]) && exists|j: int|
                        0 <= j < i && #[trigger] self.infos.key(j) == id,
            decreases self.infos.size() - i,
        {
            proof {
                self.infos.lemma_keys();
            }
            let ghost was = seen;
            if self.infos.value_at(i).state == state {
                n = n + 1;
                proof {
                    let k = self.infos.key(i as int);
                    if seen.contains(k) {
                        let j = choose|j: int| 0 <= j < i && #[trigger] self.infos.key(j) == k;
                        assert(self.infos.key(j) != self.infos.key(i as int));
                    }
                    seen = seen.insert(k);
                }
            }
            i = i + 1;
        }
        proof {
            self.infos.lemma_keys();
            assert(seen =~= ids_with(self@, p)) by {
                assert forall|id: IngressId| ids_with(self@, p).contains(id) implies #[trigger] seen.contains(id) by {
                    let j = choose|j: int| 0 <= j < self.infos.size() && #[trigger] self.infos.key(j) == id;
                }
            }
        }
        n
    }

    fn count_type(&self, ty: IngressType) -> (r: usize)
        requires
            self.wf(),
        ensures
            r == ids_with(self@, |i: IngressInfo| i.ingress_type == Some(ty)).len(),
    {
        let ghost p = |i: IngressInfo| i.ingress_type == Some(ty);
        let mut n: usize = 0;
        let mut i: usize = 0;
        let ghost mut seen: Set<IngressId> = Set::empty();
        while i < self.infos.len()
            invariant
                n <= i <= self.infos.size(),
                self.wf(),
                p == (|i: IngressInfo| i.ingress_type == Some(ty)),
                seen.finite(),
                n == seen.len(),
                forall|j: int| 0 <= j < i && p(self@[self.infos.key(j)]) ==> seen.contains(#[trigger] self.infos.key(j)),
                forall|id: IngressId| #[trigger]
                    seen.contains(id) ==> self@.contains_key(id) && p(self@[id]) && exists|j: int|
                        0 <= j < i && #[trigger] self.infos.key(j) == id,
            decreases self.infos.size() - i,
        {
            proof {
                self.infos.lemma_keys();
            }
            if self.infos.value_at(i).ingress_type == Some(ty) {
                n = n + 1;
                proof {
                    let k = self.infos.key(i as int);
                    if seen.contains(k) {
                        let j = choose|j: int| 0 <= j < i && #[trigger] self.infos.key(j) == k;
                        assert(self.infos.key(j) != self.infos.key(i as int));
                    }
                    seen = seen.insert(k);
                }
            }
            i = i + 1;
        }
        proof {
            self.infos.lemma_keys();
            assert(seen =~= ids_with(self@, p)) by {
                assert forall|id: IngressId| ids_with(self@, p).contains(id) implies #[trigger] seen.contains(id) by {
                    let j = choose|j: int| 0 <= j < self.infos.size() && #[trigger] self.infos.key(j) == id;
                }
            }
        }
        n
    }

    /// How many ingresses are in which state.
    pub fn memory_summary(&self) -> (r: RegisterSummary)
        requires
            self.wf(),
        ensures
            r.summarizes(self@),
    {
        proof {
            self.infos.lemma_keys();
        }
        RegisterSummary {
            total: self.infos.len(),
            connected: self.count_state(Some(IngressState::Connected)),
            disconnected: self.count_state(Some(IngressState::Disconnected)),
            non_network: self.count_state(Some(IngressState::NonNetwork)),
            state_unset: self.count_state(None),
            bgp_via_bmp: self.count_type(IngressType::BgpViaBmp),
            bgp_path: self.count_type(IngressType::BgpPath),
        }
    }
}

} // verus!
