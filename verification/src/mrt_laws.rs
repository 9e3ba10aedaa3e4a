//! What holds of MRT files that are read one after the other: peers and paths
//! keep their ingresses, and no two of them share one.
use vstd::prelude::*;

use crate::explode::{update_routes, ExplodedView};
use crate::ingress::InfoView;
use crate::mrt_file::{
    announced_by, entries_told, entry_attrs, entry_nlri, entry_told, file_told, messages_told,
    peers_for, record_told, supported, table_told, tables_told, update_told, Shown, Told,
};
use crate::mrt_format::{
    joined, leftover, message_of, peer_index, records, rib_records, rib_table, Bgp4MpView, EntryView, PeerView,
    TableNlriView,
};
use crate::mrt_import::{
    encoded, existing, is_first_peer, is_mrt_peer, lemma_existing, lemma_first_exists, lemma_noted, lemma_path_for, path_info,
    peer_info, peer_news, with_families, ImportView,
};
use crate::types::{AfiSafiType, IngressId, IngressType, RouteStatus};

verus! {

/// Whether an ingress is the path of a peer.
pub open spec fn is_path(info: InfoView, parent: IngressId, path_id: u32) -> bool {
    &&& info.ingress_type == Some(IngressType::BgpPath)
    &&& info.parent_ingress == Some(parent)
    &&& info.path_id == Some(path_id)
}

/// Whether what is known is in order: what was learned is sound, all ids that
/// were handed out are below the next one, and each path is registered as
/// the path that it is.
pub open spec fn settled(v: ImportView) -> bool {
    &&& v.sound()
    &&& forall|id: IngressId| #[trigger] v.infos.contains_key(id) ==> id < v.next
    &&& forall|k: (IngressId, u32)| #[trigger]
        v.children.contains_key(k) ==> v.infos.contains_key(v.children[k]) && is_path(
            v.infos[v.children[k]],
            k.0,
            k.1,
        )
}

/// Whether it is known, and registered, that a peer uses path ids.
pub open spec fn uses_path_ids(v: ImportView, id: IngressId) -> bool {
    &&& v.infos.contains_key(id)
    &&& match (v.infos[id].remote_addr, v.infos[id].remote_asn, v.infos[id].addpath_families) {
        (Some(addr), Some(asn), Some(families)) => {
            &&& v.families_of((addr.0, addr.1, asn)).len() > 0
            &&& families.len() > 0
        },
        _ => false,
    }
}

/// Whether two are the same ingress: of the same kind, under the same parent,
/// with the same path id, address and AS number.
pub open spec fn same_ingress(a: InfoView, b: InfoView) -> bool {
    &&& a.ingress_type == b.ingress_type
    &&& a.parent_ingress == b.parent_ingress
    &&& a.path_id == b.path_id
    &&& a.remote_addr == b.remote_addr
    &&& a.remote_asn == b.remote_asn
}

/// Whether all that is known stays so: each ingress stays what it is, each
/// path keeps its ingress, and what is new has a new id.
pub open spec fn carries_on(v: ImportView, w: ImportView) -> bool {
    &&& v.next <= w.next
    &&& forall|k: (IngressId, u32)| #[trigger]
        v.children.contains_key(k) ==> w.children.contains_key(k) && w.children[k] == v.children[k]
    &&& forall|id: IngressId| #[trigger]
        v.infos.contains_key(id) ==> w.infos.contains_key(id) && same_ingress(v.infos[id], w.infos[id])
    &&& forall|id: IngressId| #[trigger] w.infos.contains_key(id) && !v.infos.contains_key(id) ==> v.next <= id
    &&& forall|p: PeerView| v.families_of(p).len() <= #[trigger] w.families_of(p).len()
    &&& forall|id: IngressId| #[trigger] uses_path_ids(v, id) ==> uses_path_ids(w, id)
}

pub proof fn lemma_carries_on_twice(v: ImportView, w: ImportView, x: ImportView)
    requires
        carries_on(v, w),
        carries_on(w, x),
    ensures
        carries_on(v, x),
{
    assert forall|id: IngressId| #[trigger] x.infos.contains_key(id) && !v.infos.contains_key(id) implies v.next <= id by {
        if w.infos.contains_key(id) {
        }
    }
    assert forall|p: PeerView| v.families_of(p).len() <= #[trigger] x.families_of(p).len() by {
        assert(v.families_of(p).len() <= w.families_of(p).len());
    }
}

proof fn lemma_encoded_len(families: Seq<AfiSafiType>)
    ensures
        encoded(families).len() == 4 * families.len(),
    decreases families.len(),
{
    if families.len() > 0 {
        lemma_encoded_len(families.drop_last());
    }
}

/// News of a known ingress that leave it what it is.
proof fn lemma_told_more(v: ImportView, id: IngressId, info: InfoView)
    requires
        settled(v),
        v.infos.contains_key(id),
        info.ingress_type is None,
        info.parent_ingress is None,
        info.path_id is None,
        info.remote_addr is None,
        info.remote_asn is None,
        uses_path_ids(v, id) ==> (info.addpath_families matches Some(f) ==> f.len() > 0),
    ensures
        settled(v.updated(id, info)),
        carries_on(v, v.updated(id, info)),
{
    let w = v.updated(id, info);
    assert forall|k: (IngressId, u32)| #[trigger] w.children.contains_key(k) implies w.infos.contains_key(w.children[k])
        && is_path(w.infos[w.children[k]], k.0, k.1) by {
        assert(v.children.contains_key(k));
    }
    assert forall|p: PeerView| v.families_of(p).len() <= #[trigger] w.families_of(p).len() by {
        assert(w.families_of(p) == v.families_of(p));
    }
    assert forall|x: IngressId| #[trigger] uses_path_ids(v, x) implies uses_path_ids(w, x) by {
        if x != id {
            assert(w.infos[x] == v.infos[x]);
        }
        assert(same_ingress(v.infos[x], w.infos[x]));
    }
}

/// A new ingress.
proof fn lemma_one_more_ingress(v: ImportView, info: InfoView)
    requires
        settled(v),
        v.next < u32::MAX,
    ensures
        settled(v.joined_by(info)),
        carries_on(v, v.joined_by(info)),
        v.joined_by(info).infos == v.infos.insert(v.next, info),
{
    let w = v.joined_by(info);
    assert(!v.infos.contains_key(v.next));
    assert forall|k: (IngressId, u32)| #[trigger] w.children.contains_key(k) implies w.infos.contains_key(w.children[k])
        && is_path(w.infos[w.children[k]], k.0, k.1) by {
        assert(v.children.contains_key(k));
        assert(v.children[k] < v.next);
    }
    assert forall|p: PeerView| v.families_of(p).len() <= #[trigger] w.families_of(p).len() by {
        assert(w.families_of(p) == v.families_of(p));
    }
}

/// A family in which a peer uses path ids.
proof fn lemma_family_noted(v: ImportView, peer: PeerView, family: AfiSafiType)
    requires
        settled(v),
    ensures
        settled(v.noted(peer, family)),
        carries_on(v, v.noted(peer, family)),
        family.reemitted() ==> v.noted(peer, family).families_of(peer).len() > 0,
{
    let w = v.noted(peer, family);
    lemma_noted(v, peer, family);
    assert forall|p: PeerView| v.families_of(p).len() <= #[trigger] w.families_of(p).len() by {
        if p == peer {
        }
    }
    if family.reemitted() && v.families_of(peer).contains(family) {
        assert(v.families_of(peer).len() > 0);
    }
}

/// A family in which the peer of an ingress uses path ids.
proof fn lemma_family_noted_at(v: ImportView, id: IngressId, family: AfiSafiType)
    requires
        settled(v),
    ensures
        settled(v.noted_at(id, family)),
        carries_on(v, v.noted_at(id, family)),
        family.reemitted() && v.infos.contains_key(id) && v.infos[id].remote_addr is Some
            && v.infos[id].remote_asn is Some ==> uses_path_ids(v.noted_at(id, family), id),
{
    if v.infos.contains_key(id) {
        match (v.infos[id].remote_addr, v.infos[id].remote_asn) {
            (Some(addr), Some(asn)) => {
                let peer = (addr.0, addr.1, asn);
                let w = v.noted(peer, family);
                lemma_family_noted(v, peer, family);
                lemma_encoded_len(w.families_of(peer));
                let x = w.updated(id, with_families(encoded(w.families_of(peer))));
                lemma_told_more(w, id, with_families(encoded(w.families_of(peer))));
                lemma_carries_on_twice(v, w, x);
                assert(x.families_of(peer) == w.families_of(peer));
            },
            _ => {
                lemma_same(v);
            },
        }
    } else {
        lemma_same(v);
    }
}

/// Nothing happens.
proof fn lemma_same(v: ImportView)
    ensures
        carries_on(v, v),
{
}

/// The ingress of a peer.
pub proof fn lemma_peer_found(v: ImportView, parent: IngressId, peer: PeerView, file: Option<Seq<char>>)
    requires
        settled(v),
    ensures
        settled(v.peer_for(parent, peer, file).0),
        carries_on(v, v.peer_for(parent, peer, file).0),
        v.peer_for(parent, peer, file).1 matches Some(id) ==> existing(
            v.peer_for(parent, peer, file).0.infos,
            parent,
            peer,
        ) == Some(id),
{
    let (w, found) = v.peer_for(parent, peer, file);
    let families = encoded(v.families_of(peer));
    match existing(v.infos, parent, peer) {
        Some(id) => {
            assert(is_first_peer(v.infos, parent, peer, id));
            lemma_encoded_len(v.families_of(peer));
            lemma_told_more(v, id, peer_news(file, families));
            lemma_peer_stays(v, w, parent, peer);
        },
        None => {
            if v.next == u32::MAX {
                lemma_same(v);
            } else {
                let info = peer_info(parent, peer, file, families);
                lemma_one_more_ingress(v, info);
                let id = v.next;
                assert forall|j: IngressId| #[trigger]
                    w.infos.contains_key(j) && is_mrt_peer(w.infos[j], parent, peer) implies id <= j by {
                    if j != id {
                        assert(v.infos.contains_key(j) && v.infos[j] == w.infos[j]);
                        lemma_first_exists(v.infos, parent, peer, j);
                    }
                }
                assert(is_first_peer(w.infos, parent, peer, id));
                lemma_existing(w.infos, parent, peer, id);
            }
        },
    }
}

/// A peer that has an ingress keeps it.
pub proof fn lemma_peer_stays(v: ImportView, w: ImportView, parent: IngressId, peer: PeerView)
    requires
        settled(v),
        carries_on(v, w),
        existing(v.infos, parent, peer) is Some,
    ensures
        existing(w.infos, parent, peer) == existing(v.infos, parent, peer),
{
    let id = existing(v.infos, parent, peer)->0;
    assert(is_first_peer(v.infos, parent, peer, id));
    assert forall|j: IngressId| #[trigger] w.infos.contains_key(j) && is_mrt_peer(w.infos[j], parent, peer) implies id
        <= j by {
        if v.infos.contains_key(j) {
            assert(same_ingress(v.infos[j], w.infos[j]));
        } else {
            assert(id < v.next);
        }
    }
    assert(same_ingress(v.infos[id], w.infos[id]));
    assert(is_first_peer(w.infos, parent, peer, id));
    lemma_existing(w.infos, parent, peer, id);
}

/// The ingress of a path.
proof fn lemma_path_found(v: ImportView, parent: IngressId, path_id: u32, family: AfiSafiType)
    requires
        settled(v),
    ensures
        settled(v.path_for(parent, path_id, family).0),
        carries_on(v, v.path_for(parent, path_id, family).0),
        v.path_for(parent, path_id, family).1 matches Some(id) ==> {
            let w = v.path_for(parent, path_id, family).0;
            &&& w.children.contains_key((parent, path_id))
            &&& w.children[(parent, path_id)] == id
            &&& family.reemitted() && v.infos.contains_key(parent) && v.infos[parent].remote_addr is Some
                && v.infos[parent].remote_asn is Some ==> uses_path_ids(w, parent)
        },
{
    let n = v.noted_at(parent, family);
    lemma_family_noted_at(v, parent, family);
    let w = v.path_for(parent, path_id, family).0;
    if !n.children.contains_key((parent, path_id)) && n.next < u32::MAX {
        let info = path_info(n.infos, parent, path_id);
        let x = n.joined_by(info);
        lemma_one_more_ingress(n, info);
        lemma_path_for(v, parent, path_id, family);
        assert(x.infos == n.infos.insert(n.next, info));
        assert(carries_on(n, w)) by {
            assert forall|p: PeerView| n.families_of(p).len() <= #[trigger] w.families_of(p).len() by {
                assert(w.families_of(p) == n.families_of(p));
            }
            assert forall|i: IngressId| #[trigger] uses_path_ids(n, i) implies uses_path_ids(w, i) by {
                assert(i < n.next);
                assert(w.infos[i] == n.infos[i]);
            }
        }
        lemma_carries_on_twice(v, n, w);
        assert forall|k: (IngressId, u32)| #[trigger] w.children.contains_key(k) implies w.infos.contains_key(
            w.children[k],
        ) && is_path(w.infos[w.children[k]], k.0, k.1) by {
            if k != (parent, path_id) {
                assert(n.children.contains_key(k));
                assert(n.children[k] < n.next);
            }
        }
    }
}

/// The routes of a message.
pub proof fn lemma_announced(v: ImportView, peer: IngressId, list: Seq<ExplodedView>)
    requires
        settled(v),
    ensures
        settled(announced_by(v, peer, list).0),
        carries_on(v, announced_by(v, peer, list).0),
    decreases list.len(),
{
    if list.len() == 0 {
        lemma_same(v);
    } else {
        lemma_announced(v, peer, list.drop_last());
        let (w, before) = announced_by(v, peer, list.drop_last());
        let e = list.last();
        if before is Some {
            match e.path_id {
                Some(p) => {
                    lemma_path_found(w, peer, p, e.family);
                    lemma_carries_on_twice(v, w, w.path_for(peer, p, e.family).0);
                },
                None => {},
            }
        }
    }
}

/// A message.
proof fn lemma_message(v: ImportView, parent: IngressId, rec: Seq<u8>)
    requires
        settled(v),
    ensures
        settled(record_told(v, parent, rec).state),
        carries_on(v, record_told(v, parent, rec).state),
{
    lemma_same(v);
    match message_of(rec) {
        Some(m) => {
            match m {
                Bgp4MpView::StateChange { .. } => {},
                Bgp4MpView::Message { peer, path_ids, pdu } => {
                    match update_routes(pdu, path_ids) {
                        Some(Some((a, w))) => {
                            lemma_update(
                                v,
                                parent,
                                peer,
                                supported(a),
                                supported(w),
                            );
                        },
                        _ => {},
                    }
                },
            }
        },
        None => {},
    }
}

/// An UPDATE.
proof fn lemma_update(
    v: ImportView,
    parent: IngressId,
    peer: PeerView,
    announced: Seq<ExplodedView>,
    withdrawn: Seq<ExplodedView>,
)
    requires
        settled(v),
    ensures
        settled(update_told(v, parent, peer, announced, withdrawn).state),
        carries_on(v, update_told(v, parent, peer, announced, withdrawn).state),
{
    lemma_same(v);
    lemma_peer_found(v, parent, peer, None);
    let (w, found) = v.peer_for(parent, peer, None);
    match found {
        Some(id) => {
            lemma_announced(w, id, announced);
            lemma_carries_on_twice(v, w, announced_by(w, id, announced).0);
        },
        None => {},
    }
}

/// The messages of a file.
proof fn lemma_messages(v: ImportView, parent: IngressId, recs: Seq<Seq<u8>>)
    requires
        settled(v),
    ensures
        settled(messages_told(v, parent, recs).state),
        carries_on(v, messages_told(v, parent, recs).state),
    decreases recs.len(),
{
    if recs.len() == 0 {
        lemma_same(v);
    } else {
        lemma_messages(v, parent, recs.drop_last());
        let o = messages_told(v, parent, recs.drop_last());
        if o.fault is None {
            lemma_message(o.state, parent, recs.last());
            lemma_carries_on_twice(v, o.state, record_told(o.state, parent, recs.last()).state);
        }
    }
}

/// The ingress that the route of an entry comes from: that of its peer, or of
/// the path of the peer.
pub open spec fn entry_ingress(w: ImportView, peer: IngressId, path_id: Option<u32>) -> IngressId {
    match path_id {
        None => peer,
        Some(p) => w.children[(peer, p)],
    }
}

/// What an entry tells: one route in use, if it is for something well-formed,
/// and nothing otherwise.
pub open spec fn entry_route(
    w: ImportView,
    peers: Seq<IngressId>,
    family: AfiSafiType,
    nlri: TableNlriView,
    e: EntryView,
) -> Seq<Told> {
    match entry_nlri(family, nlri) {
        None => Seq::empty(),
        Some(n) => seq![
            Told::Route(
                Shown {
                    family,
                    nlri: n,
                    attrs: seq![0u8, 1u8] + entry_attrs(family, nlri, e.2),
                    ingress: entry_ingress(w, peers[e.0 as int], e.1),
                    status: RouteStatus::Active,
                },
            ),
        ],
    }
}

/// What entries tell, in order.
pub open spec fn entry_routes(
    w: ImportView,
    peers: Seq<IngressId>,
    family: AfiSafiType,
    nlri: TableNlriView,
    list: Seq<EntryView>,
) -> Seq<Told>
    decreases list.len(),
{
    if list.len() == 0 {
        Seq::empty()
    } else {
        entry_routes(w, peers, family, nlri, list.drop_last()) + entry_route(w, peers, family, nlri, list.last())
    }
}

/// What the records of a table dump tell, in order.
pub open spec fn table_routes(w: ImportView, peers: Seq<IngressId>, recs: Seq<Seq<u8>>) -> Seq<Told>
    decreases recs.len(),
{
    if recs.len() == 0 {
        Seq::empty()
    } else {
        table_routes(w, peers, recs.drop_last()) + (match rib_table(recs.last()) {
            Some(Some(t)) => entry_routes(w, peers, t.family, t.nlri, t.entries),
            _ => Seq::empty(),
        })
    }
}

/// Whether each path that an entry is of has an ingress, and, in a family
/// that is sent on, its peer is registered as one that uses path ids.
pub open spec fn path_known(w: ImportView, peers: Seq<IngressId>, family: AfiSafiType, nlri: TableNlriView, e: EntryView) -> bool {
    entry_nlri(family, nlri) is Some ==> match e.1 {
        None => true,
        Some(p) => {
            let peer = peers[e.0 as int];
            &&& w.children.contains_key((peer, p))
            &&& family.reemitted() && w.infos.contains_key(peer) && w.infos[peer].remote_addr is Some
                && w.infos[peer].remote_asn is Some ==> uses_path_ids(w, peer)
        },
    }
}

/// Whether that holds of all entries of a record.
pub open spec fn record_paths_known(w: ImportView, peers: Seq<IngressId>, rec: Seq<u8>) -> bool {
    match rib_table(rec) {
        Some(Some(t)) => entry_paths_known(w, peers, t.family, t.nlri, t.entries),
        _ => true,
    }
}

/// Whether that holds of entries.
pub open spec fn entry_paths_known(
    w: ImportView,
    peers: Seq<IngressId>,
    family: AfiSafiType,
    nlri: TableNlriView,
    list: Seq<EntryView>,
) -> bool {
    forall|k: int| 0 <= k < list.len() ==> path_known(w, peers, family, nlri, #[trigger] list[k])
}

/// Whether that holds of all entries of some records.
pub open spec fn paths_known(w: ImportView, peers: Seq<IngressId>, recs: Seq<Seq<u8>>) -> bool {
    forall|i: int| 0 <= i < recs.len() ==> record_paths_known(w, peers, #[trigger] recs[i])
}

/// Whether all of these are registered.
pub open spec fn all_registered(v: ImportView, ids: Seq<IngressId>) -> bool {
    forall|i: int| 0 <= i < ids.len() ==> v.infos.contains_key(#[trigger] ids[i])
}

/// An entry.
proof fn lemma_entry(
    v: ImportView,
    peers: Seq<IngressId>,
    family: AfiSafiType,
    nlri: TableNlriView,
    e: EntryView,
    w: ImportView,
)
    requires
        settled(v),
        all_registered(v, peers),
    ensures
        settled(entry_told(v, peers, family, nlri, e).state),
        carries_on(v, entry_told(v, peers, family, nlri, e).state),
        entry_told(v, peers, family, nlri, e).fault is None && carries_on(
            entry_told(v, peers, family, nlri, e).state,
            w,
        ) ==> entry_told(v, peers, family, nlri, e).told == entry_route(w, peers, family, nlri, e) && path_known(
            w,
            peers,
            family,
            nlri,
            e,
        ),
{
    lemma_same(v);
    let o = entry_told(v, peers, family, nlri, e);
    if e.0 < peers.len() && entry_nlri(family, nlri) is Some {
        let peer = peers[e.0 as int];
        match e.1 {
            None => {},
            Some(p) => {
                lemma_path_found(v, peer, p, family);
                let x = v.path_for(peer, p, family).0;
                if o.fault is None && carries_on(o.state, w) {
                    assert(o.state == x);
                    assert(x.children.contains_key((peer, p)));
                    assert(w.children[(peer, p)] == x.children[(peer, p)]);
                    assert(v.infos.contains_key(peer));
                    lemma_carries_on_twice(v, x, w);
                    assert(same_ingress(v.infos[peer], w.infos[peer]));
                    if uses_path_ids(x, peer) {
                        assert(uses_path_ids(w, peer));
                    }
                }
            },
        }
        if o.fault is None && carries_on(o.state, w) {
            assert(o.told =~= entry_route(w, peers, family, nlri, e));
        }
    }
}

/// The entries of a record.
proof fn lemma_entries(
    v: ImportView,
    peers: Seq<IngressId>,
    family: AfiSafiType,
    nlri: TableNlriView,
    list: Seq<EntryView>,
    w: ImportView,
)
    requires
        settled(v),
        all_registered(v, peers),
    ensures
        settled(entries_told(v, peers, family, nlri, list).state),
        carries_on(v, entries_told(v, peers, family, nlri, list).state),
        entries_told(v, peers, family, nlri, list).fault is None && carries_on(
            entries_told(v, peers, family, nlri, list).state,
            w,
        ) ==> entries_told(v, peers, family, nlri, list).told == entry_routes(w, peers, family, nlri, list)
            && entry_paths_known(w, peers, family, nlri, list),
    decreases list.len(),
{
    if list.len() == 0 {
        lemma_same(v);
    } else {
        let front = list.drop_last();
        let o = entries_told(v, peers, family, nlri, front);
        lemma_entries(v, peers, family, nlri, front, w);
        if o.fault is None {
            assert(all_registered(o.state, peers));
            let p = entry_told(o.state, peers, family, nlri, list.last());
            lemma_entry(o.state, peers, family, nlri, list.last(), w);
            lemma_carries_on_twice(v, o.state, p.state);
            if p.fault is None && carries_on(p.state, w) {
                lemma_carries_on_twice(o.state, p.state, w);
                assert forall|k: int| 0 <= k < list.len() implies path_known(
                    w,
                    peers,
                    family,
                    nlri,
                    #[trigger] list[k],
                ) by {
                    if k < front.len() {
                        assert(front[k] == list[k]);
                    }
                }
            }
        }
    }
}

/// The records of a table dump.
proof fn lemma_tables(v: ImportView, peers: Seq<IngressId>, recs: Seq<Seq<u8>>, w: ImportView)
    requires
        settled(v),
        all_registered(v, peers),
    ensures
        settled(tables_told(v, peers, recs).state),
        carries_on(v, tables_told(v, peers, recs).state),
        tables_told(v, peers, recs).fault is None && carries_on(tables_told(v, peers, recs).state, w)
            ==> tables_told(v, peers, recs).told == table_routes(w, peers, recs) && paths_known(w, peers, recs),
    decreases recs.len(),
{
    if recs.len() == 0 {
        lemma_same(v);
    } else {
        let front = recs.drop_last();
        let o = tables_told(v, peers, front);
        lemma_tables(v, peers, front, w);
        if o.fault is None {
            assert(all_registered(o.state, peers));
            lemma_same(o.state);
            let rec = recs.last();
            let p = table_told(o.state, peers, rec);
            match rib_table(rec) {
                Some(Some(t)) => {
                    lemma_entries(o.state, peers, t.family, t.nlri, t.entries, w);
                },
                _ => {},
            }
            lemma_carries_on_twice(v, o.state, p.state);
            if p.fault is None && carries_on(p.state, w) {
                lemma_carries_on_twice(o.state, p.state, w);
                assert forall|i: int| 0 <= i < recs.len() implies record_paths_known(w, peers, #[trigger] recs[i]) by {
                    if i < front.len() {
                        assert(front[i] == recs[i]);
                    }
                }
            }
        }
    }
}

/// Whether these are the ingresses of peers, registered as what they are.
pub open spec fn peer_ids(w: ImportView, parent: IngressId, peers: Seq<PeerView>, ids: Seq<IngressId>) -> bool {
    &&& ids.len() == peers.len()
    &&& forall|i: int|
        0 <= i < ids.len() ==> existing(w.infos, parent, peers[i]) == Some(#[trigger] ids[i])
            && w.infos.contains_key(ids[i]) && is_mrt_peer(w.infos[ids[i]], parent, peers[i])
}

/// The ingresses of peers stay those.
proof fn lemma_peer_ids_stay(
    v: ImportView,
    w: ImportView,
    parent: IngressId,
    peers: Seq<PeerView>,
    ids: Seq<IngressId>,
)
    requires
        settled(v),
        carries_on(v, w),
        peer_ids(v, parent, peers, ids),
    ensures
        peer_ids(w, parent, peers, ids),
{
    assert forall|i: int| 0 <= i < ids.len() implies existing(w.infos, parent, peers[i]) == Some(#[trigger] ids[i])
        && w.infos.contains_key(ids[i]) && is_mrt_peer(w.infos[ids[i]], parent, peers[i]) by {
        assert(existing(v.infos, parent, peers[i]) == Some(ids[i]));
        lemma_peer_stays(v, w, parent, peers[i]);
        assert(same_ingress(v.infos[ids[i]], w.infos[ids[i]]));
    }
}

/// The peers of a table dump.
proof fn lemma_peers(v: ImportView, parent: IngressId, peers: Seq<PeerView>, file: Option<Seq<char>>)
    requires
        settled(v),
    ensures
        settled(peers_for(v, parent, peers, file).0),
        carries_on(v, peers_for(v, parent, peers, file).0),
        peers_for(v, parent, peers, file).1 matches Some(ids) ==> peer_ids(
            peers_for(v, parent, peers, file).0,
            parent,
            peers,
            ids,
        ),
    decreases peers.len(),
{
    if peers.len() == 0 {
        lemma_same(v);
    } else {
        let front = peers.drop_last();
        lemma_peers(v, parent, front, file);
        let (w, some) = peers_for(v, parent, front, file);
        match some {
            None => {},
            Some(ids) => {
                lemma_peer_found(w, parent, peers.last(), file);
                let (x, found) = w.peer_for(parent, peers.last(), file);
                lemma_carries_on_twice(v, w, x);
                match found {
                    None => {},
                    Some(id) => {
                        lemma_peer_ids_stay(w, x, parent, front, ids);
                        let all = ids.push(id);
                        assert forall|i: int| 0 <= i < all.len() implies existing(x.infos, parent, peers[i]) == Some(
                            #[trigger] all[i],
                        ) && x.infos.contains_key(all[i]) && is_mrt_peer(x.infos[all[i]], parent, peers[i]) by {
                            if i < ids.len() {
                                assert(all[i] == ids[i] && front[i] == peers[i]);
                            } else {
                                assert(is_first_peer(x.infos, parent, peers.last(), id));
                            }
                        }
                    },
                }
            },
        }
    }
}

/// A file.
proof fn lemma_file(v: ImportView, parent: IngressId, raw: Seq<u8>, file: Seq<char>)
    requires
        settled(v),
    ensures
        settled(file_told(v, parent, raw, file).state),
        carries_on(v, file_told(v, parent, raw, file).state),
{
    lemma_same(v);
    let recs = records(raw);
    if leftover(raw).len() == 0 {
        match peer_index(joined(rib_records(recs))) {
            None => {
                lemma_messages(v, parent, recs);
            },
            Some(peers) => {
                lemma_peers(v, parent, peers, Some(file));
                let (w, found) = peers_for(v, parent, peers, Some(file));
                match found {
                    None => {},
                    Some(ids) => {
                        assert(all_registered(w, ids));
                        lemma_tables(w, ids, rib_records(recs), w);
                        let o = tables_told(w, ids, rib_records(recs));
                        lemma_carries_on_twice(v, w, o.state);
                        if o.fault is None {
                            lemma_messages(o.state, parent, recs);
                            lemma_carries_on_twice(v, o.state, messages_told(o.state, parent, recs).state);
                        }
                    },
                }
            },
        }
    }
}

/// Whether these are the states between files that are read one after the
/// other.
pub open spec fn files_read(
    states: Seq<ImportView>,
    parent: IngressId,
    files: Seq<(Seq<u8>, Seq<char>)>,
) -> bool {
    &&& states.len() == files.len() + 1
    &&& forall|k: int|
        0 <= k < files.len() ==> states[k + 1] == file_told(states[k], parent, (#[trigger] files[k]).0, files[k].1).state
}

/// However many files are read, all that is known stays in order, and each
/// peer and each path keeps its ingress.
pub proof fn files_keep_peers_and_paths(
    states: Seq<ImportView>,
    parent: IngressId,
    files: Seq<(Seq<u8>, Seq<char>)>,
    i: int,
    j: int,
)
    requires
        settled(states[0]),
        files_read(states, parent, files),
        0 <= i <= j <= files.len(),
    ensures
        settled(states[j]),
        carries_on(states[i], states[j]),
        forall|peer: PeerView|
            #![trigger existing(states[j].infos, parent, peer)]
            existing(states[i].infos, parent, peer) is Some ==> existing(states[j].infos, parent, peer) == existing(
                states[i].infos,
                parent,
                peer,
            ),
    decreases j,
{
    if j > 0 {
        assert(states[j - 1 + 1] == file_told(states[j - 1], parent, files[j - 1].0, files[j - 1].1).state);
        if i < j {
            files_keep_peers_and_paths(states, parent, files, i, j - 1);
        } else {
            files_keep_peers_and_paths(states, parent, files, i - 1, j - 1);
        }
        lemma_file(states[j - 1], parent, files[j - 1].0, files[j - 1].1);
        if i < j {
            lemma_carries_on_twice(states[i], states[j - 1], states[j]);
        }
    }
    if i == j {
        lemma_same(states[j]);
    } else {
        lemma_settled_before(states, parent, files, i);
    }
    assert forall|peer: PeerView|
        #![trigger existing(states[j].infos, parent, peer)]
        existing(states[i].infos, parent, peer) is Some implies existing(states[j].infos, parent, peer) == existing(
        states[i].infos,
        parent,
        peer,
    ) by {
        lemma_peer_stays(states[i], states[j], parent, peer);
    }
}

proof fn lemma_settled_before(
    states: Seq<ImportView>,
    parent: IngressId,
    files: Seq<(Seq<u8>, Seq<char>)>,
    i: int,
)
    requires
        settled(states[0]),
        files_read(states, parent, files),
        0 <= i <= files.len(),
    ensures
        settled(states[i]),
    decreases i,
{
    if i > 0 {
        lemma_settled_before(states, parent, files, i - 1);
        assert(states[i - 1 + 1] == file_told(states[i - 1], parent, files[i - 1].0, files[i - 1].1).state);
        lemma_file(states[i - 1], parent, files[i - 1].0, files[i - 1].1);
    }
}

/// Each entry of the table dump of a file, if it is for something
/// well-formed, gives one route in use. It comes from the ingress of its
/// peer, or of the path of the peer, and that is their ingress whatever is
/// read later. A peer is registered as one, and a peer with paths, in a
/// family that is sent on, as one that uses path ids.
pub proof fn a_table_tells_each_entry_once(
    v: ImportView,
    parent: IngressId,
    raw: Seq<u8>,
    file: Seq<char>,
    peers: Seq<PeerView>,
    later: ImportView,
)
    requires
        settled(v),
        file_told(v, parent, raw, file).fault is None,
        peer_index(joined(rib_records(records(raw)))) == Some(peers),
        carries_on(file_told(v, parent, raw, file).state, later),
    ensures
        exists|ids: Seq<IngressId>|
            {
                &&& #[trigger] peer_ids(later, parent, peers, ids)
                &&& table_routes(later, ids, rib_records(records(raw))).is_prefix_of(
                    file_told(v, parent, raw, file).told,
                )
                &&& paths_known(later, ids, rib_records(records(raw)))
            },
{
    let recs = records(raw);
    let end = file_told(v, parent, raw, file).state;
    lemma_peers(v, parent, peers, Some(file));
    let (w, found) = peers_for(v, parent, peers, Some(file));
    let ids = found->0;
    assert(all_registered(w, ids));
    let o = tables_told(w, ids, rib_records(recs));
    lemma_tables(w, ids, rib_records(recs), later);
    lemma_messages(o.state, parent, recs);
    lemma_carries_on_twice(w, o.state, end);
    lemma_carries_on_twice(w, end, later);
    lemma_carries_on_twice(o.state, end, later);
    lemma_peer_ids_stay(w, later, parent, peers, ids);
    assert(peer_ids(later, parent, peers, ids));
}

/// No two peers share an ingress, nor do two paths, nor a peer and a path.
pub proof fn no_ingress_is_shared(
    v: ImportView,
    parent: IngressId,
    p: PeerView,
    q: PeerView,
    k: (IngressId, u32),
    l: (IngressId, u32),
)
    requires
        settled(v),
    ensures
        p != q && existing(v.infos, parent, p) is Some ==> existing(v.infos, parent, p) != existing(
            v.infos,
            parent,
            q,
        ),
        k != l && v.children.contains_key(k) && v.children.contains_key(l) ==> v.children[k] != v.children[l],
        existing(v.infos, parent, p) is Some && v.children.contains_key(k) ==> existing(v.infos, parent, p) != Some(
            v.children[k],
        ),
{
    if existing(v.infos, parent, p) is Some {
        assert(is_first_peer(v.infos, parent, p, existing(v.infos, parent, p)->0));
    }
    if existing(v.infos, parent, q) is Some {
        assert(is_first_peer(v.infos, parent, q, existing(v.infos, parent, q)->0));
    }
}

} // verus!
