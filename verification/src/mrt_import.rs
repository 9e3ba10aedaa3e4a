//! The peers and the paths of MRT files: the ingresses that their routes come
//! from, and the families that have path ids.
use vstd::prelude::*;

use crate::ingress::{nothing_known, viewed, InfoView, IngressInfo};
use crate::mrt_format::{MrtPeer, PeerView};
use crate::register::{known, lemma_merged_view, merged_view, Register};
use crate::table::{Key, Table};
use crate::types::{AfiSafiType, IngressId, IngressState, IngressType};
use crate::wire::{be16, push_be16};

verus! {

impl Key for MrtPeer {
    open spec fn code(k: PeerView) -> u64 {
        k.2 as u64
    }

    fn to_code(&self) -> (r: u64) {
        self.asn as u64
    }

    fn same_key(&self, o: &Self) -> (r: bool) {
        self.addr.equals(&o.addr) && self.asn == o.asn
    }
}

/// A path of a peer.
#[derive(Clone, Copy, Debug)]
pub struct PathKey {
    pub parent: IngressId,
    pub path_id: u32,
}

impl View for PathKey {
    type V = (IngressId, u32);

    open spec fn view(&self) -> (IngressId, u32) {
        (self.parent, self.path_id)
    }
}

impl Key for PathKey {
    open spec fn code(k: (IngressId, u32)) -> u64 {
        (k.0 * 0x1_0000_0000 + k.1) as u64
    }

    fn to_code(&self) -> (r: u64) {
        self.parent as u64 * 0x1_0000_0000 + self.path_id as u64
    }

    fn same_key(&self, o: &Self) -> (r: bool) {
        self.parent == o.parent && self.path_id == o.path_id
    }
}

/// What was learned from the files that were read so far.
#[derive(Debug)]
pub struct MrtImportState {
    /// The ingress of each path.
    pub path_children: Table<PathKey, IngressId>,
    /// The families in which a peer uses path ids.
    pub addpath_families: Table<MrtPeer, Vec<AfiSafiType>>,
}

/// What was learned from the files that were read so far, and what is known
/// of the ingresses.
#[verifier::ext_equal]
pub struct ImportView {
    pub infos: Map<IngressId, InfoView>,
    pub next: IngressId,
    pub children: Map<(IngressId, u32), IngressId>,
    pub families: Map<PeerView, Seq<AfiSafiType>>,
}

/// The families in which each peer uses path ids.
pub open spec fn family_lists(m: Map<PeerView, Vec<AfiSafiType>>) -> Map<PeerView, Seq<AfiSafiType>> {
    m.map_values(|v: Vec<AfiSafiType>| v@)
}

/// What was learned, and what the register knows.
pub open spec fn seen(register: Register, state: MrtImportState) -> ImportView {
    ImportView {
        infos: known(register@),
        next: register.next,
        children: state.path_children@,
        families: family_lists(state.addpath_families@),
    }
}

/// Families, four octets each: the family, and that path ids go both ways.
pub open spec fn encoded(families: Seq<AfiSafiType>) -> Seq<u8>
    decreases families.len(),
{
    if families.len() == 0 {
        Seq::empty()
    } else {
        let (afi, safi) = families.last().pair();
        encoded(families.drop_last()) + be16(afi as int) + seq![safi, 3u8]
    }
}

/// What there is to tell of a family.
pub open spec fn with_families(families: Seq<u8>) -> InfoView {
    InfoView { addpath_families: Some(families), ..nothing_known()@ }
}

/// What is told of a peer that is known.
pub open spec fn peer_news(file: Option<Seq<char>>, families: Seq<u8>) -> InfoView {
    InfoView {
        filename: file,
        addpath_families: if families.len() == 0 {
            None
        } else {
            Some(families)
        },
        ..nothing_known()@
    }
}

/// What is told of a new peer.
pub open spec fn peer_info(parent: IngressId, peer: PeerView, file: Option<Seq<char>>, families: Seq<u8>) -> InfoView {
    InfoView {
        parent_ingress: Some(parent),
        remote_addr: Some((peer.0, peer.1)),
        remote_asn: Some(peer.2),
        ingress_type: Some(IngressType::Mrt),
        ..peer_news(file, families)
    }
}

/// What is told of a new path: it goes back to the peer, of which it takes
/// over the address, the AS number, the BGP id and the file.
pub open spec fn path_info(infos: Map<IngressId, InfoView>, parent: IngressId, path_id: u32) -> InfoView {
    let of = if infos.contains_key(parent) {
        infos[parent]
    } else {
        nothing_known()@
    };
    InfoView {
        ingress_type: Some(IngressType::BgpPath),
        parent_ingress: Some(parent),
        path_id: Some(path_id),
        state: Some(IngressState::NonNetwork),
        remote_addr: of.remote_addr,
        remote_asn: of.remote_asn,
        bgp_id: of.bgp_id,
        filename: of.filename,
        ..nothing_known()@
    }
}

/// Whether an ingress is a peer of the files that an ingress reads.
pub open spec fn is_mrt_peer(info: InfoView, parent: IngressId, peer: PeerView) -> bool {
    &&& info.parent_ingress == Some(parent)
    &&& info.remote_addr == Some((peer.0, peer.1))
    &&& info.remote_asn == Some(peer.2)
    &&& info.ingress_type == Some(IngressType::Mrt)
}

/// Whether an ingress is the first that is the peer.
pub open spec fn is_first_peer(
    infos: Map<IngressId, InfoView>,
    parent: IngressId,
    peer: PeerView,
    id: IngressId,
) -> bool {
    &&& infos.contains_key(id)
    &&& is_mrt_peer(infos[id], parent, peer)
    &&& forall|j: IngressId| #[trigger] infos.contains_key(j) && is_mrt_peer(infos[j], parent, peer) ==> id <= j
}

/// The ingress that is a peer.
pub open spec fn existing(infos: Map<IngressId, InfoView>, parent: IngressId, peer: PeerView) -> Option<IngressId> {
    if exists|id: IngressId| is_first_peer(infos, parent, peer, id) {
        Some(choose|id: IngressId| is_first_peer(infos, parent, peer, id))
    } else {
        None
    }
}

/// The families in which a peer uses path ids.
pub open spec fn listed_families(m: Map<PeerView, Seq<AfiSafiType>>, peer: PeerView) -> Seq<AfiSafiType> {
    if m.contains_key(peer) {
        m[peer]
    } else {
        Seq::empty()
    }
}

/// Families once it is known that a peer uses path ids in one. Families that
/// are not sent on are of no interest.
pub open spec fn noted_in(m: Map<PeerView, Seq<AfiSafiType>>, peer: PeerView, family: AfiSafiType) -> Map<
    PeerView,
    Seq<AfiSafiType>,
> {
    if !family.reemitted() || listed_families(m, peer).contains(family) {
        m
    } else {
        m.insert(peer, listed_families(m, peer).push(family))
    }
}

impl ImportView {
    /// Whether no path shares its ingress with another one, and no family is
    /// listed twice.
    pub open spec fn sound(self) -> bool {
        &&& forall|k: (IngressId, u32)| #[trigger] self.children.contains_key(k) ==> self.children[k] < self.next
        &&& forall|k: (IngressId, u32), l: (IngressId, u32)| #[trigger]
            self.children.contains_key(k) && #[trigger] self.children.contains_key(l) && k != l ==> self.children[k]
                != self.children[l]
        &&& forall|p: PeerView| #[trigger]
            self.families.contains_key(p) ==> self.families[p].no_duplicates() && forall|i: int|
                0 <= i < self.families[p].len() ==> (#[trigger] self.families[p][i]).reemitted()
    }

    /// The families in which a peer uses path ids.
    pub open spec fn families_of(self, peer: PeerView) -> Seq<AfiSafiType> {
        listed_families(self.families, peer)
    }

    /// Once it is known that a peer uses path ids in a family.
    pub open spec fn noted(self, peer: PeerView, family: AfiSafiType) -> ImportView {
        ImportView { families: noted_in(self.families, peer, family), ..self }
    }

    /// Once something was told of an ingress.
    pub open spec fn updated(self, id: IngressId, info: InfoView) -> ImportView {
        ImportView {
            infos: self.infos.insert(
                id,
                if self.infos.contains_key(id) {
                    merged_view(self.infos[id], info)
                } else {
                    info
                },
            ),
            ..self
        }
    }

    /// Once it is known that the peer of an ingress uses path ids in a
    /// family.
    pub open spec fn noted_at(self, id: IngressId, family: AfiSafiType) -> ImportView {
        if !self.infos.contains_key(id) {
            self
        } else {
            match (self.infos[id].remote_addr, self.infos[id].remote_asn) {
                (Some(addr), Some(asn)) => {
                    let peer = (addr.0, addr.1, asn);
                    let v = self.noted(peer, family);
                    v.updated(id, with_families(encoded(v.families_of(peer))))
                },
                _ => self,
            }
        }
    }

    /// Once the next id was handed out, and something was told of it.
    pub open spec fn joined_by(self, info: InfoView) -> ImportView {
        ImportView { next: (self.next + 1) as u32, ..self }.updated(self.next, info)
    }

    /// The ingress of a peer, which is made if there is none yet, and what is
    /// known then. There is none where all ids are taken.
    pub open spec fn peer_for(self, parent: IngressId, peer: PeerView, file: Option<Seq<char>>) -> (
        ImportView,
        Option<IngressId>,
    ) {
        let families = encoded(self.families_of(peer));
        match existing(self.infos, parent, peer) {
            Some(id) => (self.updated(id, peer_news(file, families)), Some(id)),
            None => if self.next == u32::MAX {
                (self, None)
            } else {
                (self.joined_by(peer_info(parent, peer, file, families)), Some(self.next))
            },
        }
    }

    /// The ingress of a path of a peer, which is made if there is none yet,
    /// and what is known then. There is none where all ids are taken.
    pub open spec fn path_for(self, parent: IngressId, path_id: u32, family: AfiSafiType) -> (
        ImportView,
        Option<IngressId>,
    ) {
        let v = self.noted_at(parent, family);
        if v.children.contains_key((parent, path_id)) {
            (v, Some(v.children[(parent, path_id)]))
        } else if v.next == u32::MAX {
            (v, None)
        } else {
            let w = v.joined_by(path_info(v.infos, parent, path_id));
            (ImportView { children: w.children.insert((parent, path_id), v.next), ..w }, Some(v.next))
        }
    }

    /// The ingresses of the paths of a peer.
    pub open spec fn children_of(self, parent: IngressId) -> Set<IngressId> {
        Set::new(
            |c: IngressId|
                exists|p: u32| #[trigger]
                    self.children.contains_key((parent, p)) && self.children[(parent, p)] == c,
        )
    }
}

/// Noting a family keeps the families distinct, and touches nothing else.
pub proof fn lemma_noted(v: ImportView, peer: PeerView, family: AfiSafiType)
    requires
        v.sound(),
    ensures
        v.noted(peer, family).sound(),
{
    let w = v.noted(peer, family);
    assert forall|p: PeerView| #[trigger] w.families.contains_key(p) implies w.families[p].no_duplicates() && forall|
        i: int,
    |
        0 <= i < w.families[p].len() ==> (#[trigger] w.families[p][i]).reemitted() by {
        if v.families.contains_key(p) {
            assert(v.families[p].no_duplicates());
        }
    }
}

pub proof fn lemma_noted_at(v: ImportView, id: IngressId, family: AfiSafiType)
    requires
        v.sound(),
    ensures
        v.noted_at(id, family).sound(),
        v.noted_at(id, family).children == v.children,
        v.noted_at(id, family).next == v.next,
{
    if v.infos.contains_key(id) {
        match (v.infos[id].remote_addr, v.infos[id].remote_asn) {
            (Some(addr), Some(asn)) => {
                lemma_noted(v, (addr.0, addr.1, asn), family);
            },
            _ => {},
        }
    }
}

/// Finding the ingress of a path keeps what was learned sound.
pub proof fn lemma_path_for(v: ImportView, parent: IngressId, path_id: u32, family: AfiSafiType)
    requires
        v.sound(),
    ensures
        v.path_for(parent, path_id, family).0.sound(),
{
    lemma_noted_at(v, parent, family);
    let n = v.noted_at(parent, family);
    let w = v.path_for(parent, path_id, family).0;
    assert forall|k: (IngressId, u32), l: (IngressId, u32)| #[trigger]
        w.children.contains_key(k) && #[trigger] w.children.contains_key(l) && k != l implies w.children[k]
        != w.children[l] by {
        if k != (parent, path_id) {
            assert(n.children.contains_key(k));
        }
        if l != (parent, path_id) {
            assert(n.children.contains_key(l));
        }
    }
    assert forall|k: (IngressId, u32)| #[trigger] w.children.contains_key(k) implies w.children[k] < w.next by {
        if n.children.contains_key(k) {
            assert(n.children[k] < n.next);
        }
    }
}

/// A path keeps its ingress.
pub proof fn a_path_keeps_its_ingress(
    v: ImportView,
    parent: IngressId,
    path_id: u32,
    family: AfiSafiType,
    later: AfiSafiType,
)
    requires
        v.path_for(parent, path_id, family).1 is Some,
    ensures
        v.path_for(parent, path_id, family).0.path_for(parent, path_id, later).1 == v.path_for(
            parent,
            path_id,
            family,
        ).1,
{
}

/// Paths of one peer with different ids, or of different peers, never share
/// an ingress.
pub proof fn paths_do_not_share_an_ingress(
    v: ImportView,
    a: (IngressId, u32),
    b: (IngressId, u32),
    f: AfiSafiType,
    g: AfiSafiType,
)
    requires
        v.sound(),
        a != b,
        v.path_for(a.0, a.1, f).1 is Some,
        v.path_for(a.0, a.1, f).0.path_for(b.0, b.1, g).1 is Some,
    ensures
        v.path_for(a.0, a.1, f).1 != v.path_for(a.0, a.1, f).0.path_for(b.0, b.1, g).1,
{
    lemma_path_for(v, a.0, a.1, f);
    let w = v.path_for(a.0, a.1, f).0;
    lemma_path_for(w, b.0, b.1, g);
    let x = w.path_for(b.0, b.1, g).0;
    assert(w.children.contains_key(a) && w.children[a] == v.path_for(a.0, a.1, f).1->0);
    lemma_noted_at(w, b.0, g);
    assert(x.children.contains_key(a) && x.children.contains_key(b));
}

/// A peer keeps its ingress, whichever files it is found in.
pub proof fn a_peer_keeps_its_ingress(
    v: ImportView,
    parent: IngressId,
    peer: PeerView,
    file: Option<Seq<char>>,
    later: Option<Seq<char>>,
)
    requires
        v.peer_for(parent, peer, file).1 is Some,
        !v.infos.contains_key(v.next),
    ensures
        v.peer_for(parent, peer, file).0.peer_for(parent, peer, later).1 == v.peer_for(parent, peer, file).1,
{
    let (w, found) = v.peer_for(parent, peer, file);
    let id = found->0;
    if existing(v.infos, parent, peer) is Some {
        assert(is_first_peer(v.infos, parent, peer, id));
    } else {
        assert forall|j: IngressId| v.infos.contains_key(j) implies !is_mrt_peer(v.infos[j], parent, peer) by {
            if is_mrt_peer(v.infos[j], parent, peer) {
                lemma_first_exists(v.infos, parent, peer, j);
            }
        }
    }
    assert forall|j: IngressId| #[trigger]
        w.infos.contains_key(j) && is_mrt_peer(w.infos[j], parent, peer) implies id <= j by {
        if j != id {
            assert(v.infos.contains_key(j) && v.infos[j] == w.infos[j]);
        }
    }
    assert(is_first_peer(w.infos, parent, peer, id));
    lemma_existing(w.infos, parent, peer, id);
}

/// Where there is an ingress that is a peer, there is a first one.
pub proof fn lemma_first_exists(infos: Map<IngressId, InfoView>, parent: IngressId, peer: PeerView, id: IngressId)
    requires
        infos.contains_key(id),
        is_mrt_peer(infos[id], parent, peer),
    ensures
        existing(infos, parent, peer) is Some,
    decreases id,
{
    if !is_first_peer(infos, parent, peer, id) {
        let j = choose|j: IngressId| #[trigger]
            infos.contains_key(j) && is_mrt_peer(infos[j], parent, peer) && !(id <= j);
        lemma_first_exists(infos, parent, peer, j);
    }
}

pub proof fn lemma_existing(infos: Map<IngressId, InfoView>, parent: IngressId, peer: PeerView, id: IngressId)
    requires
        is_first_peer(infos, parent, peer, id),
    ensures
        existing(infos, parent, peer) == Some(id),
{
    let c = choose|c: IngressId| is_first_peer(infos, parent, peer, c);
    assert(is_first_peer(infos, parent, peer, c));
    assert(infos.contains_key(c) && infos.contains_key(id));
}

/// Finds the ingress that is a peer.
pub fn find_existing_peer(register: &Register, parent: IngressId, peer: &MrtPeer) -> (r: Option<IngressId>)
    requires
        register.wf(),
    ensures
        r == existing(known(register@), parent, peer@),
{
    let ghost infos = known(register@);
    let mut best: Option<IngressId> = None;
    let mut i: usize = 0;
    while i < register.infos.len()
        invariant
            i <= register.infos.size(),
            register.wf(),
            infos == known(register@),
            match best {
                Some(b) => infos.contains_key(b) && is_mrt_peer(infos[b], parent, peer@),
                None => true,
            },
            forall|j: int|
                0 <= j < i && is_mrt_peer(infos[#[trigger] register.infos.key(j)], parent, peer@) ==> best is Some
                    && best->0 <= register.infos.key(j),
        decreases register.infos.size() - i,
    {
        proof {
            register.infos.lemma_keys();
        }
        let id: IngressId = *register.infos.key_at(i);
        let info = register.infos.value_at(i);
        assert(infos.contains_key(id) && infos[id] == info@);
        let fits = match (info.parent_ingress, &info.remote_addr, info.remote_asn, info.ingress_type) {
            (Some(p), Some(addr), Some(asn), Some(IngressType::Mrt)) => p == parent && addr.equals(&peer.addr) && asn
                == peer.asn,
            _ => false,
        };
        assert(fits == is_mrt_peer(infos[id], parent, peer@));
        if fits {
            best = match best {
                Some(b) => if b <= id {
                    Some(b)
                } else {
                    Some(id)
                },
                None => Some(id),
            };
        }
        i = i + 1;
    }
    proof {
        register.infos.lemma_keys();
        assert forall|k: IngressId| #[trigger]
            infos.contains_key(k) && is_mrt_peer(infos[k], parent, peer@) implies best is Some && best->0 <= k by {
            assert(register@.contains_key(k));
            let j = choose|j: int| 0 <= j < register.infos.size() && #[trigger] register.infos.key(j) == k;
        }
        match best {
            Some(b) => {
                assert(is_first_peer(infos, parent, peer@, b));
                lemma_existing(infos, parent, peer@, b);
            },
            None => {
                assert forall|k: IngressId| !is_first_peer(infos, parent, peer@, k) by {
                    if is_first_peer(infos, parent, peer@, k) {
                        assert(infos.contains_key(k));
                    }
                }
            },
        }
    }
    best
}

/// Adds to what the register knows.
fn tell(register: &mut Register, state: &MrtImportState, id: IngressId, info: IngressInfo)
    requires
        old(register).wf(),
    ensures
        final(register).wf(),
        seen(*final(register), *state) == seen(*old(register), *state).updated(id, info@),
{
    proof {
        if register@.contains_key(id) {
            lemma_merged_view(register@[id], info);
        }
    }
    register.update_info(id, info);
    assert(seen(*register, *state) =~= seen(*old(register), *state).updated(id, info@));
}

/// Hands out the next id, and tells of it.
fn join(register: &mut Register, state: &MrtImportState, info: IngressInfo) -> (r: Option<IngressId>)
    requires
        old(register).wf(),
    ensures
        final(register).wf(),
        match r {
            Some(id) => id == old(register).next < u32::MAX && seen(*final(register), *state) == seen(
                *old(register),
                *state,
            ).joined_by(info@),
            None => old(register).next == u32::MAX && seen(*final(register), *state) == seen(*old(register), *state),
        },
{
    match register.try_register() {
        Some(id) => {
            tell(register, state, id, info);
            Some(id)
        },
        None => None,
    }
}

/// Whether an ingress is that of a path of a peer, among the first ones.
spec fn path_among(t: Table<PathKey, IngressId>, n: int, parent: IngressId, c: IngressId) -> bool {
    exists|j: int| 0 <= j < n && (#[trigger] t.key(j)).0 == parent && t@[t.key(j)] == c
}

impl MrtImportState {
    pub open spec fn wf(self) -> bool {
        self.path_children.wf() && self.addpath_families.wf()
    }

    /// Nothing learned yet.
    pub fn new() -> (r: Self)
        ensures
            r.wf(),
            r.path_children@ == Map::<(IngressId, u32), IngressId>::empty(),
            r.addpath_families@ == Map::<PeerView, Vec<AfiSafiType>>::empty(),
    {
        MrtImportState { path_children: Table::new(), addpath_families: Table::new() }
    }

    /// The ingress of a path, if it has one.
    pub fn path_child(&self, parent: IngressId, path_id: u32) -> (r: Option<IngressId>)
        requires
            self.wf(),
        ensures
            match r {
                Some(id) => self.path_children@.contains_key((parent, path_id)) && id == self.path_children@[(
                    parent,
                    path_id,
                )],
                None => !self.path_children@.contains_key((parent, path_id)),
            },
    {
        match self.path_children.get(&PathKey { parent, path_id }) {
            Some(id) => Some(*id),
            None => None,
        }
    }

    /// The ingresses of all paths of a peer, in no particular order.
    pub fn path_children(&self, register: &Register, parent: IngressId) -> (r: Vec<IngressId>)
        requires
            self.wf(),
            seen(*register, *self).sound(),
        ensures
            r@.no_duplicates(),
            r@.to_set() == seen(*register, *self).children_of(parent),
    {
        let ghost v = seen(*register, *self);
        let mut out: Vec<IngressId> = Vec::new();
        let mut i: usize = 0;
        while i < self.path_children.len()
            invariant
                i <= self.path_children.size(),
                self.wf(),
                v == seen(*register, *self),
                v.sound(),
                out@.no_duplicates(),
                forall|a: int|
                    0 <= a < out@.len() ==> path_among(self.path_children, i as int, parent, #[trigger] out@[a]),
                forall|j: int|
                    0 <= j < i && (#[trigger] self.path_children.key(j)).0 == parent ==> out@.contains(
                        self.path_children@[self.path_children.key(j)],
                    ),
            decreases self.path_children.size() - i,
        {
            proof {
                self.path_children.lemma_keys();
            }
            let key = self.path_children.key_at(i);
            let child: IngressId = *self.path_children.value_at(i);
            let ghost before = out@;
            proof {
                assert forall|a: int| 0 <= a < before.len() implies path_among(
                    self.path_children,
                    i + 1,
                    parent,
                    #[trigger] before[a],
                ) by {
                    assert(path_among(self.path_children, i as int, parent, before[a]));
                }
            }
            if key.parent == parent {
                proof {
                    assert forall|a: int| 0 <= a < before.len() implies before[a] != child by {
                        assert(path_among(self.path_children, i as int, parent, before[a]));
                        let j = choose|j: int|
                            0 <= j < i && (#[trigger] self.path_children.key(j)).0 == parent
                                && self.path_children@[self.path_children.key(j)] == before[a];
                        assert(self.path_children.key(j) != self.path_children.key(i as int));
                        assert(v.children.contains_key(self.path_children.key(j)) && v.children.contains_key(
                            self.path_children.key(i as int),
                        ));
                    }
                }
                out.push(child);
                proof {
                    assert(out@[before.len() as int] == child);
                    assert(self.path_children.key(i as int).0 == parent);
                    assert(path_among(self.path_children, i + 1, parent, child));
                    assert forall|j: int| 0 <= j < i + 1 && (#[trigger] self.path_children.key(j)).0
                        == parent implies out@.contains(self.path_children@[self.path_children.key(j)]) by {
                        if j < i {
                            let c = self.path_children@[self.path_children.key(j)];
                            let a = choose|a: int| 0 <= a < before.len() && before[a] == c;
                            assert(out@[a] == c);
                        }
                    }
                }
            }
            i = i + 1;
        }
        proof {
            self.path_children.lemma_keys();
            assert forall|c: IngressId| #[trigger] out@.to_set().contains(c) == v.children_of(parent).contains(c) by {
                if out@.contains(c) {
                    let a = choose|a: int| 0 <= a < out@.len() && out@[a] == c;
                    assert(path_among(self.path_children, i as int, parent, out@[a]));
                    let j = choose|j: int|
                        0 <= j < i && (#[trigger] self.path_children.key(j)).0 == parent
                            && self.path_children@[self.path_children.key(j)] == out@[a];
                    let k = self.path_children.key(j);
                    assert(v.children.contains_key((parent, k.1)));
                }
                if v.children_of(parent).contains(c) {
                    let p = choose|p: u32| #[trigger]
                        v.children.contains_key((parent, p)) && v.children[(parent, p)] == c;
                    assert(self.path_children@.contains_key((parent, p)));
                    let j = choose|j: int|
                        0 <= j < self.path_children.size() && #[trigger] self.path_children.key(j) == (parent, p);
                }
            }
            assert(out@.to_set() =~= v.children_of(parent));
        }
        out
    }

    /// Notes that a peer uses path ids in a family.
    pub fn note_addpath_family(&mut self, peer: MrtPeer, afisafi: AfiSafiType)
        requires
            old(self).wf(),
        ensures
            final(self).wf(),
            final(self).path_children == old(self).path_children,
            family_lists(final(self).addpath_families@) == noted_in(
                family_lists(old(self).addpath_families@),
                peer@,
                afisafi,
            ),
    {
        if !afisafi.is_reemitted() {
            return;
        }
        let mut families: Vec<AfiSafiType> = match self.addpath_families.remove(&peer) {
            Some(list) => list,
            None => Vec::new(),
        };
        let ghost before = families@;
        let mut listed = false;
        let mut i: usize = 0;
        while i < families.len()
            invariant
                i <= families@.len(),
                families@ == before,
                listed == before.take(i as int).contains(afisafi),
            decreases families@.len() - i,
        {
            if families[i] == afisafi {
                listed = true;
            }
            proof {
                let t = before.take(i as int);
                let u = before.take(i + 1);
                assert(u =~= t.push(before[i as int]));
                if t.contains(afisafi) {
                    let j = choose|j: int| 0 <= j < t.len() && t[j] == afisafi;
                    assert(u[j] == afisafi);
                }
                assert(u[i as int] == before[i as int]);
                if u.contains(afisafi) && before[i as int] != afisafi {
                    let j = choose|j: int| 0 <= j < u.len() && u[j] == afisafi;
                    assert(t[j] == afisafi);
                }
            }
            i = i + 1;
        }
        assert(before.take(i as int) =~= before);
        if !listed {
            families.push(afisafi);
        }
        self.addpath_families.insert(peer, families);
        assert(family_lists(self.addpath_families@) =~= noted_in(
            family_lists(old(self).addpath_families@),
            peer@,
            afisafi,
        ));
    }

    /// The families in which a peer uses path ids, four octets each.
    pub fn encoded_addpath_families(&self, peer: &MrtPeer) -> (r: Vec<u8>)
        requires
            self.wf(),
        ensures
            r@ == encoded(listed_families(family_lists(self.addpath_families@), peer@)),
    {
        let mut out: Vec<u8> = Vec::new();
        match self.addpath_families.get(peer) {
            Some(families) => {
                let mut i: usize = 0;
                while i < families.len()
                    invariant
                        i <= families@.len(),
                        out@ == encoded(families@.take(i as int)),
                    decreases families@.len() - i,
                {
                    let (afi, safi): (u16, u8) = families[i].to_pair();
                    assert(families@.take(i + 1).drop_last() =~= families@.take(i as int));
                    push_be16(&mut out, afi as usize);
                    out.push(safi);
                    out.push(3);
                    assert(out@ =~= encoded(families@.take(i as int)) + be16(afi as int) + seq![safi, 3u8]);
                    i = i + 1;
                }
                assert(families@.take(i as int) =~= families@);
            },
            None => {},
        }
        out
    }

    /// Notes that the peer of an ingress uses path ids in a family, here and
    /// in the register.
    pub fn note_ingress_addpath_family(
        &mut self,
        register: &mut Register,
        ingress_id: IngressId,
        afisafi: AfiSafiType,
    )
        requires
            old(self).wf(),
            old(register).wf(),
        ensures
            final(self).wf(),
            final(register).wf(),
            seen(*final(register), *final(self)) == seen(*old(register), *old(self)).noted_at(ingress_id, afisafi),
    {
        let ghost v = seen(*register, *self);
        let peer = match register.get(ingress_id) {
            Some(info) => match (info.remote_addr, info.remote_asn) {
                (Some(addr), Some(asn)) => MrtPeer { addr, asn },
                _ => {
                    return;
                },
            },
            None => {
                return;
            },
        };
        self.note_addpath_family(peer, afisafi);
        let families = self.encoded_addpath_families(&peer);
        let ghost w = seen(*register, *self);
        assert(w == v.noted(peer@, afisafi));
        assert(families@ == encoded(w.families_of(peer@)));
        let mut info = IngressInfo::new();
        info.addpath_families = Some(families);
        assert(info@ =~= with_families(families@));
        tell(register, self, ingress_id, info);
    }
}

/// The ingress of a peer, which is made if there is none yet.
pub fn peer_ingress(
    register: &mut Register,
    import_state: &MrtImportState,
    unit_parent: IngressId,
    peer: &MrtPeer,
    filename: Option<&String>,
) -> (r: Option<IngressId>)
    requires
        old(register).wf(),
        import_state.wf(),
    ensures
        final(register).wf(),
        (seen(*final(register), *import_state), r) == seen(*old(register), *import_state).peer_for(
            unit_parent,
            peer@,
            viewed(filename),
        ),
{
    let ghost v = seen(*register, *import_state);
    let families = import_state.encoded_addpath_families(peer);
    assert(families@ == encoded(v.families_of(peer@)));
    let mut info = IngressInfo::new();
    match filename {
        Some(f) => {
            info.filename = Some(f.clone());
        },
        None => {},
    }
    let ghost octets = families@;
    if families.len() > 0 {
        info.addpath_families = Some(families);
    }
    assert(info@ =~= peer_news(viewed(filename), octets));
    match find_existing_peer(register, unit_parent, peer) {
        Some(id) => {
            tell(register, import_state, id, info);
            Some(id)
        },
        None => {
            info.parent_ingress = Some(unit_parent);
            info.remote_addr = Some(peer.addr);
            info.remote_asn = Some(peer.asn);
            info.ingress_type = Some(IngressType::Mrt);
            assert(info@ =~= peer_info(unit_parent, peer@, viewed(filename), octets));
            join(register, import_state, info)
        },
    }
}

/// The ingress of a path of a peer, which is made if there is none yet.
pub fn mrt_path_ingress(
    register: &mut Register,
    import_state: &mut MrtImportState,
    parent_id: IngressId,
    path_id: u32,
    afisafi: AfiSafiType,
) -> (r: Option<IngressId>)
    requires
        old(register).wf(),
        old(import_state).wf(),
    ensures
        final(register).wf(),
        final(import_state).wf(),
        (seen(*final(register), *final(import_state)), r) == seen(*old(register), *old(import_state)).path_for(
            parent_id,
            path_id,
            afisafi,
        ),
{
    import_state.note_ingress_addpath_family(register, parent_id, afisafi);
    let ghost v = seen(*register, *import_state);
    match import_state.path_child(parent_id, path_id) {
        Some(id) => {
            return Some(id);
        },
        None => {},
    }
    let mut info = IngressInfo::new();
    info.ingress_type = Some(IngressType::BgpPath);
    info.parent_ingress = Some(parent_id);
    info.path_id = Some(path_id);
    info.state = Some(IngressState::NonNetwork);
    match register.get(parent_id) {
        Some(parent) => {
            info.remote_addr = parent.remote_addr;
            info.remote_asn = parent.remote_asn;
            info.bgp_id = parent.bgp_id;
            info.filename = match &parent.filename {
                Some(f) => Some(f.clone()),
                None => None,
            };
        },
        None => {},
    }
    assert(info@ =~= path_info(v.infos, parent_id, path_id));
    match join(register, import_state, info) {
        Some(id) => {
            let ghost w = seen(*register, *import_state);
            import_state.path_children.insert(PathKey { parent: parent_id, path_id }, id);
            assert(seen(*register, *import_state) =~= (ImportView {
                children: w.children.insert((parent_id, path_id), v.next),
                ..w
            }));
            Some(id)
        },
        None => None,
    }
}

} // verus!
