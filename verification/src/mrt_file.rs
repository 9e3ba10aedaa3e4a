//! Reading MRT files: the updates that their records turn into.
use vstd::prelude::*;

use crate::client::{Payload, Update};
use crate::explode::{
    explode_update, exploded_views, is_rule, mk_flowspec_route, update_routes, ExplodedRoute, ExplodedUpdate,
    ExplodedView,
};
use crate::ingress::viewed;
use crate::bmp_builder::nlri_bytes;
use crate::mrt_attrs::{normalize_mrt_mp_reach, normalized};
use crate::mrt_format::{
    cut_short, entry_views, joined, leftover, message_of, peer_index, peer_views, picked_records_make_up_a_file,
    read_message, read_peer_index, read_rib_record, record_end, records, rib_records, rib_table,
    supported_rib_records, Bgp4Mp, Bgp4MpView, BgpMessage, EntryView, MrtError, MrtPeer, PeerView, RibRecord,
    RibTable, StateChange, TableEntry, TableNlri, TableNlriView,
};
use crate::mrt_import::{
    existing, find_existing_peer, lemma_path_for, mrt_path_ingress, peer_ingress, seen, ImportView, MrtImportState,
};
use crate::pamap::RotondaPaMap;
use crate::register::Register;
use crate::route::{NlriKind, RotondaRoute};
use crate::types::{AfiSafiType, IngressId, RouteStatus};
use crate::wire::copy_range;

verus! {

/// A route as it comes out of a file.
pub struct Shown {
    pub family: AfiSafiType,
    pub nlri: NlriKind,
    pub attrs: Seq<u8>,
    pub ingress: IngressId,
    pub status: RouteStatus,
}

/// What a file tells.
pub enum Told {
    Route(Shown),
    Routes(Seq<Shown>),
    /// A peer is gone, with the paths that it had.
    Gone(IngressId, Set<IngressId>),
    Other,
}

pub open spec fn shown(p: Payload) -> Shown {
    Shown {
        family: p.rx_value.family(),
        nlri: p.rx_value.nlri(),
        attrs: p.rx_value.attrs(),
        ingress: p.ingress_id,
        status: p.route_status,
    }
}

pub open spec fn all_shown(ps: Seq<Payload>) -> Seq<Shown> {
    Seq::new(ps.len(), |i: int| shown(ps[i]))
}

/// What an update tells.
pub open spec fn told_of(u: Update) -> Told {
    match u {
        Update::Single(p) => Told::Route(shown(p)),
        Update::Bulk(ps) => Told::Routes(all_shown(ps@)),
        Update::WithdrawBulk(es) => Told::Gone(
            es@[0].0,
            Set::new(|c: IngressId| exists|i: int| 1 <= i < es@.len() && (#[trigger] es@[i]).0 == c),
        ),
        _ => Told::Other,
    }
}

pub open spec fn all_told(us: Seq<Update>) -> Seq<Told> {
    Seq::new(us.len(), |i: int| told_of(us[i]))
}

/// Whether an update is in order: its routes are well-formed, and of what
/// goes away nothing is listed twice or about to be forgotten.
pub open spec fn in_order(u: Update) -> bool {
    &&& u.wf()
    &&& u matches Update::WithdrawBulk(es) ==> {
        &&& es@.len() > 0
        &&& forall|i: int| 0 <= i < es@.len() ==> (#[trigger] es@[i]).1 is None
        &&& forall|i: int, j: int| 1 <= i < j < es@.len() ==> (#[trigger] es@[i]).0 != (#[trigger] es@[j]).0
    }
}

pub open spec fn all_in_order(us: Seq<Update>) -> bool {
    forall|i: int| 0 <= i < us.len() ==> in_order(#[trigger] us[i])
}

/// Why a file is not read any further.
pub enum Fault {
    /// It ends with an incomplete record.
    Cut(Seq<u8>),
    /// The table of peers cannot be read.
    Index,
    /// A record of a table dump cannot be read.
    Table,
    /// An entry is of a peer that there is not.
    Peer,
    /// An UPDATE has an NLRI that cannot be read.
    Nlri,
    /// All ingress ids are taken.
    Ids,
}

/// Whether an error tells of a fault.
pub open spec fn tells_of(e: MrtError, f: Fault) -> bool {
    match f {
        Fault::Cut(rest) => cut_short(rest, e),
        Fault::Index => (e matches MrtError::Parse(t) && t@ == "malformed peer index table"@),
        Fault::Table => (e matches MrtError::Parse(t) && t@ == "malformed RIB record"@),
        Fault::Peer => (e matches MrtError::Parse(t) && t@ == "RIB entry of unknown peer"@),
        Fault::Nlri => (e matches MrtError::Parse(t) && t@ == "malformed NLRI"@),
        Fault::Ids => (e matches MrtError::Other(t) && t@ == "out of ingress ids"@),
    }
}

/// Whether something went wrong as it had to.
pub open spec fn fails<T>(r: Result<T, MrtError>, fault: Option<Fault>) -> bool {
    match (r, fault) {
        (Ok(_), None) => true,
        (Err(e), Some(f)) => tells_of(e, f),
        _ => false,
    }
}

/// What came of reading something: what is known then, what was told, and
/// why it ended early.
pub struct Outcome {
    pub state: ImportView,
    pub told: Seq<Told>,
    pub fault: Option<Fault>,
}

pub open spec fn nothing(v: ImportView) -> Outcome {
    Outcome { state: v, told: Seq::empty(), fault: None }
}

pub open spec fn failed(v: ImportView, f: Fault) -> Outcome {
    Outcome { state: v, told: Seq::empty(), fault: Some(f) }
}

/// What came of one thing after another.
pub open spec fn after(o: Outcome, p: Outcome) -> Outcome {
    Outcome { state: p.state, told: o.told + p.told, fault: p.fault }
}

// Messages

/// The routes of families that are sent on.
pub open spec fn supported(list: Seq<ExplodedView>) -> Seq<ExplodedView> {
    list.filter(|e: ExplodedView| e.family.reemitted())
}

proof fn lemma_supported_push(list: Seq<ExplodedView>, e: ExplodedView)
    ensures
        supported(list.push(e)) == (if e.family.reemitted() {
            supported(list).push(e)
        } else {
            supported(list)
        }),
        supported(Seq::empty()) == Seq::<ExplodedView>::empty(),
{
    reveal(Seq::filter);
    assert(list.push(e).drop_last() =~= list);
}

/// A route from an ingress.
pub open spec fn from_ingress(e: ExplodedView, ingress: IngressId, status: RouteStatus) -> Shown {
    Shown { family: e.family, nlri: e.nlri, attrs: e.attrs, ingress, status }
}

/// The announced routes of a peer: those with a path id come from an ingress
/// of their own. None where all ids are taken.
pub open spec fn announced_by(v: ImportView, peer: IngressId, list: Seq<ExplodedView>) -> (ImportView, Option<Seq<Shown>>)
    decreases list.len(),
{
    if list.len() == 0 {
        (v, Some(Seq::empty()))
    } else {
        let (w, before) = announced_by(v, peer, list.drop_last());
        let e = list.last();
        match before {
            None => (w, None),
            Some(s) => match e.path_id {
                None => (w, Some(s.push(from_ingress(e, peer, RouteStatus::Active)))),
                Some(p) => match w.path_for(peer, p, e.family) {
                    (x, Some(id)) => (x, Some(s.push(from_ingress(e, id, RouteStatus::Active)))),
                    (x, None) => (x, None),
                },
            },
        }
    }
}

/// The withdrawn routes of a peer, but for paths that are not known.
pub open spec fn withdrawn_by(v: ImportView, peer: IngressId, list: Seq<ExplodedView>) -> Seq<Shown>
    decreases list.len(),
{
    if list.len() == 0 {
        Seq::empty()
    } else {
        let before = withdrawn_by(v, peer, list.drop_last());
        let e = list.last();
        match e.path_id {
            None => before.push(from_ingress(e, peer, RouteStatus::Withdrawn)),
            Some(p) => if v.children.contains_key((peer, p)) {
                before.push(from_ingress(e, v.children[(peer, p)], RouteStatus::Withdrawn))
            } else {
                before
            },
        }
    }
}

/// Whether all routes have path ids.
pub open spec fn all_paths(list: Seq<ExplodedView>) -> bool {
    forall|i: int| 0 <= i < list.len() ==> (#[trigger] list[i]).path_id is Some
}

/// What comes of an UPDATE of a peer that announces and withdraws routes. A
/// peer that only withdraws paths is not made for it.
pub open spec fn update_told(
    v: ImportView,
    parent: IngressId,
    peer: PeerView,
    announced: Seq<ExplodedView>,
    withdrawn: Seq<ExplodedView>,
) -> Outcome {
    if announced.len() == 0 && withdrawn.len() == 0 {
        nothing(v)
    } else if existing(v.infos, parent, peer) is None && announced.len() == 0 && all_paths(withdrawn) {
        nothing(v)
    } else {
        match v.peer_for(parent, peer, None) {
            (w, None) => failed(w, Fault::Ids),
            (w, Some(id)) => match announced_by(w, id, announced) {
                (x, None) => failed(x, Fault::Ids),
                (x, Some(s)) => {
                    let all = s + withdrawn_by(x, id, withdrawn);
                    Outcome {
                        state: x,
                        told: if all.len() == 0 {
                            Seq::empty()
                        } else {
                            seq![Told::Routes(all)]
                        },
                        fault: None,
                    }
                },
            },
        }
    }
}

/// The states of a session that is up, and of one that is down.
pub const ESTABLISHED: u16 = 6;

pub const IDLE: u16 = 1;

/// What comes of a message, or of a change of state: a peer whose session
/// goes down withdraws all its routes.
pub open spec fn message_told(v: ImportView, parent: IngressId, m: Bgp4MpView) -> Outcome {
    match m {
        Bgp4MpView::StateChange { peer, old_state, new_state } => match existing(v.infos, parent, peer) {
            Some(id) => if old_state == ESTABLISHED && new_state == IDLE {
                Outcome { state: v, told: seq![Told::Gone(id, v.children_of(id))], fault: None }
            } else {
                nothing(v)
            },
            None => nothing(v),
        },
        Bgp4MpView::Message { peer, path_ids, pdu } => match update_routes(pdu, path_ids) {
            None => nothing(v),
            Some(None) => failed(v, Fault::Nlri),
            Some(Some((a, w))) => update_told(v, parent, peer, supported(a), supported(w)),
        },
    }
}

/// What comes of a record, if it is one of messages.
pub open spec fn record_told(v: ImportView, parent: IngressId, rec: Seq<u8>) -> Outcome {
    match message_of(rec) {
        Some(m) => message_told(v, parent, m),
        None => nothing(v),
    }
}

/// What comes of the messages among some records.
pub open spec fn messages_told(v: ImportView, parent: IngressId, recs: Seq<Seq<u8>>) -> Outcome
    decreases recs.len(),
{
    if recs.len() == 0 {
        nothing(v)
    } else {
        let o = messages_told(v, parent, recs.drop_last());
        match o.fault {
            Some(_) => o,
            None => after(o, record_told(o.state, parent, recs.last())),
        }
    }
}

// Table dumps

/// The attributes of an entry as they go on: those of IPv6 prefixes have a
/// next hop that is written out in full.
pub open spec fn entry_attrs(family: AfiSafiType, nlri: TableNlriView, attrs: Seq<u8>) -> Seq<u8> {
    match (family, nlri) {
        (AfiSafiType::Ipv6Unicast, TableNlriView::Prefix(k)) => normalized(attrs, 2, 1, nlri_bytes(k, None)),
        (AfiSafiType::Ipv6Multicast, TableNlriView::Prefix(k)) => normalized(attrs, 2, 2, nlri_bytes(k, None)),
        _ => attrs,
    }
}

/// What an entry is a route for, if it is one.
pub open spec fn entry_nlri(family: AfiSafiType, nlri: TableNlriView) -> Option<NlriKind> {
    match nlri {
        TableNlriView::Prefix(k) => Some(NlriKind::Prefix(k)),
        TableNlriView::Rule(r) => if is_rule(r, family is Ipv4FlowSpec) {
            Some(NlriKind::Rule(r))
        } else {
            None
        },
    }
}

/// Whether a table of a family can be for something.
pub open spec fn table_fits(family: AfiSafiType, nlri: TableNlriView) -> bool {
    match nlri {
        TableNlriView::Prefix(k) => match family {
            AfiSafiType::Ipv4Unicast | AfiSafiType::Ipv4Multicast => k.0,
            AfiSafiType::Ipv6Unicast | AfiSafiType::Ipv6Multicast => !k.0,
            _ => false,
        },
        TableNlriView::Rule(_) => family is Ipv4FlowSpec || family is Ipv6FlowSpec,
    }
}

/// What comes of an entry of a table.
pub open spec fn entry_told(
    v: ImportView,
    peers: Seq<IngressId>,
    family: AfiSafiType,
    nlri: TableNlriView,
    e: EntryView,
) -> Outcome {
    if e.0 >= peers.len() {
        failed(v, Fault::Peer)
    } else {
        match entry_nlri(family, nlri) {
            None => nothing(v),
            Some(n) => {
                let (w, id) = match e.1 {
                    None => (v, Some(peers[e.0 as int])),
                    Some(p) => v.path_for(peers[e.0 as int], p, family),
                };
                match id {
                    None => failed(w, Fault::Ids),
                    Some(ingress) => Outcome {
                        state: w,
                        told: seq![
                            Told::Route(
                                Shown {
                                    family,
                                    nlri: n,
                                    attrs: seq![0u8, 1u8] + entry_attrs(family, nlri, e.2),
                                    ingress,
                                    status: RouteStatus::Active,
                                },
                            ),
                        ],
                        fault: None,
                    },
                }
            },
        }
    }
}

/// What comes of some entries of a table.
pub open spec fn entries_told(
    v: ImportView,
    peers: Seq<IngressId>,
    family: AfiSafiType,
    nlri: TableNlriView,
    list: Seq<EntryView>,
) -> Outcome
    decreases list.len(),
{
    if list.len() == 0 {
        nothing(v)
    } else {
        let o = entries_told(v, peers, family, nlri, list.drop_last());
        match o.fault {
            Some(_) => o,
            None => after(o, entry_told(o.state, peers, family, nlri, list.last())),
        }
    }
}

/// What comes of a record of a table dump.
pub open spec fn table_told(v: ImportView, peers: Seq<IngressId>, rec: Seq<u8>) -> Outcome {
    match rib_table(rec) {
        None => failed(v, Fault::Table),
        Some(None) => nothing(v),
        Some(Some(t)) => entries_told(v, peers, t.family, t.nlri, t.entries),
    }
}

/// What comes of the records of a table dump.
pub open spec fn tables_told(v: ImportView, peers: Seq<IngressId>, recs: Seq<Seq<u8>>) -> Outcome
    decreases recs.len(),
{
    if recs.len() == 0 {
        nothing(v)
    } else {
        let o = tables_told(v, peers, recs.drop_last());
        match o.fault {
            Some(_) => o,
            None => after(o, table_told(o.state, peers, recs.last())),
        }
    }
}

/// The ingresses of the peers of a table dump. None where all ids are taken.
pub open spec fn peers_for(
    v: ImportView,
    parent: IngressId,
    peers: Seq<PeerView>,
    file: Option<Seq<char>>,
) -> (ImportView, Option<Seq<IngressId>>)
    decreases peers.len(),
{
    if peers.len() == 0 {
        (v, Some(Seq::empty()))
    } else {
        match peers_for(v, parent, peers.drop_last(), file) {
            (w, None) => (w, None),
            (w, Some(ids)) => match w.peer_for(parent, peers.last(), file) {
                (x, None) => (x, None),
                (x, Some(id)) => (x, Some(ids.push(id))),
            },
        }
    }
}

/// What comes of a file: first of its table dump, if it has one whose peers
/// can be read, then of its messages.
pub open spec fn file_told(v: ImportView, parent: IngressId, raw: Seq<u8>, file: Seq<char>) -> Outcome {
    let recs = records(raw);
    if leftover(raw).len() > 0 {
        failed(v, Fault::Cut(leftover(raw)))
    } else {
        match peer_index(joined(rib_records(recs))) {
            None => messages_told(v, parent, recs),
            Some(peers) => match peers_for(v, parent, peers, Some(file)) {
                (w, None) => failed(w, Fault::Ids),
                (w, Some(ids)) => {
                    let o = tables_told(w, ids, rib_records(recs));
                    match o.fault {
                        Some(_) => o,
                        None => after(o, messages_told(o.state, parent, recs)),
                    }
                },
            },
        }
    }
}

// Reading

/// A fault, as an error.
pub(crate) fn nlri_error() -> (r: MrtError)
    ensures
        tells_of(r, Fault::Nlri),
{
    MrtError::parse("malformed NLRI")
}

pub(crate) fn table_error() -> (r: MrtError)
    ensures
        tells_of(r, Fault::Table),
{
    MrtError::parse("malformed RIB record")
}

pub(crate) fn peer_error() -> (r: MrtError)
    ensures
        tells_of(r, Fault::Peer),
{
    MrtError::parse("RIB entry of unknown peer")
}

pub(crate) fn index_error() -> (r: MrtError)
    ensures
        tells_of(r, Fault::Index),
{
    MrtError::parse("malformed peer index table")
}

fn ids_error() -> (r: MrtError)
    ensures
        tells_of(r, Fault::Ids),
{
    MrtError::other("out of ingress ids")
}

/// Whether something came of it as it had to, with one update at most.
pub open spec fn came(r: Result<Option<Update>, MrtError>, after: ImportView, o: Outcome) -> bool {
    &&& after == o.state
    &&& fails(r, o.fault)
    &&& match r {
        Ok(Some(u)) => in_order(u) && o.told == seq![told_of(u)],
        _ => o.told == Seq::<Told>::empty(),
    }
}

/// Keeps the routes of families that are sent on.
fn keep_supported(list: Vec<ExplodedRoute>) -> (r: Vec<ExplodedRoute>)
    requires
        forall|i: int| 0 <= i < list@.len() ==> (#[trigger] list@[i]).route.wf(),
    ensures
        forall|i: int| 0 <= i < r@.len() ==> (#[trigger] r@[i]).route.wf(),
        exploded_views(r@) == supported(exploded_views(list@)),
{
    let ghost all = list@;
    let ghost views = exploded_views(all);
    let mut out: Vec<ExplodedRoute> = Vec::new();
    proof {
        assert(views.take(0) =~= Seq::empty());
        assert(exploded_views(out@) =~= Seq::empty());
        lemma_supported_push(Seq::empty(), arbitrary());
    }
    for e in it: list
        invariant
            it.seq() == all,
            views == exploded_views(all),
            forall|i: int| 0 <= i < all.len() ==> (#[trigger] all[i]).route.wf(),
            forall|i: int| 0 <= i < out@.len() ==> (#[trigger] out@[i]).route.wf(),
            exploded_views(out@) == supported(views.take(it.index() as int)),
    {
        let ghost n = it.index() as int;
        let ghost before = out@;
        proof {
            assert(e == all[n]);
            assert(views.take(n + 1) =~= views.take(n).push(e@));
            lemma_supported_push(views.take(n), e@);
        }
        if e.route.afisafi().is_reemitted() {
            out.push(e);
            assert(exploded_views(out@) =~= exploded_views(before).push(e@));
        }
    }
    assert(views.take(views.len() as int) =~= views);
    out
}

/// Adds the announced routes of a peer.
fn push_announced(
    register: &mut Register,
    import_state: &mut MrtImportState,
    peer: IngressId,
    list: Vec<ExplodedRoute>,
    out: &mut Vec<Payload>,
) -> (r: Result<(), MrtError>)
    requires
        old(register).wf(),
        old(import_state).wf(),
        old(out)@.len() == 0,
        forall|i: int| 0 <= i < list@.len() ==> (#[trigger] list@[i]).route.wf(),
    ensures
        final(register).wf(),
        final(import_state).wf(),
        forall|i: int| 0 <= i < final(out)@.len() ==> (#[trigger] final(out)@[i]).rx_value.wf(),
        ({
            let (v, s) = announced_by(seen(*old(register), *old(import_state)), peer, exploded_views(list@));
            &&& seen(*final(register), *final(import_state)) == v
            &&& match r {
                Ok(_) => s == Some(all_shown(final(out)@)),
                Err(e) => s is None && tells_of(e, Fault::Ids),
            }
        }),
{
    let ghost v = seen(*register, *import_state);
    let ghost all = list@;
    let ghost views = exploded_views(all);
    proof {
        assert(views.take(0) =~= Seq::empty());
        assert(all_shown(out@) =~= Seq::empty());
    }
    for e in it: list
        invariant
            it.seq() == all,
            views == exploded_views(all),
            all == list@,
            v == seen(*old(register), *old(import_state)),
            register.wf(),
            import_state.wf(),
            forall|i: int| 0 <= i < all.len() ==> (#[trigger] all[i]).route.wf(),
            forall|i: int| 0 <= i < out@.len() ==> (#[trigger] out@[i]).rx_value.wf(),
            announced_by(v, peer, views.take(it.index() as int)) == (
                seen(*register, *import_state),
                Some(all_shown(out@)),
            ),
    {
        let ghost n = it.index() as int;
        let ghost before = out@;
        proof {
            assert(e == all[n]);
            assert(views.take(n + 1).drop_last() =~= views.take(n));
            assert(views.take(n + 1).last() == e@);
        }
        let id: IngressId = match e.path_id {
            None => peer,
            Some(p) => match mrt_path_ingress(register, import_state, peer, p, e.route.afisafi()) {
                Some(id) => id,
                None => {
                    proof {
                        lemma_stays_short(v, peer, views, n + 1);
                    }
                    return Err(ids_error());
                },
            },
        };
        out.push(Payload { rx_value: e.route, ingress_id: id, route_status: RouteStatus::Active });
        assert(all_shown(out@) =~= all_shown(before).push(from_ingress(e@, id, RouteStatus::Active)));
    }
    assert(views.take(views.len() as int) =~= views);
    Ok(())
}

/// Once all ids are taken, it stays so.
proof fn lemma_stays_short(v: ImportView, peer: IngressId, list: Seq<ExplodedView>, n: int)
    requires
        0 <= n <= list.len(),
        announced_by(v, peer, list.take(n)).1 is None,
    ensures
        announced_by(v, peer, list) == announced_by(v, peer, list.take(n)),
    decreases list.len() - n,
{
    if n == list.len() {
        assert(list.take(n) =~= list);
    } else {
        assert(list.take(n + 1).drop_last() =~= list.take(n));
        lemma_stays_short(v, peer, list, n + 1);
    }
}

/// Adds the withdrawn routes of a peer.
fn push_withdrawn(
    register: &Register,
    import_state: &MrtImportState,
    peer: IngressId,
    list: Vec<ExplodedRoute>,
    out: &mut Vec<Payload>,
)
    requires
        import_state.wf(),
        forall|i: int| 0 <= i < list@.len() ==> (#[trigger] list@[i]).route.wf(),
        forall|i: int| 0 <= i < old(out)@.len() ==> (#[trigger] old(out)@[i]).rx_value.wf(),
    ensures
        forall|i: int| 0 <= i < final(out)@.len() ==> (#[trigger] final(out)@[i]).rx_value.wf(),
        all_shown(final(out)@) == all_shown(old(out)@) + withdrawn_by(
            seen(*register, *import_state),
            peer,
            exploded_views(list@),
        ),
{
    let ghost v = seen(*register, *import_state);
    let ghost all = list@;
    let ghost views = exploded_views(all);
    let ghost first = all_shown(out@);
    proof {
        assert(views.take(0) =~= Seq::empty());
        assert(first + Seq::empty() =~= first);
    }
    for e in it: list
        invariant
            it.seq() == all,
            views == exploded_views(all),
            import_state.wf(),
            v == seen(*register, *import_state),
            forall|i: int| 0 <= i < all.len() ==> (#[trigger] all[i]).route.wf(),
            forall|i: int| 0 <= i < out@.len() ==> (#[trigger] out@[i]).rx_value.wf(),
            all_shown(out@) == first + withdrawn_by(v, peer, views.take(it.index() as int)),
    {
        let ghost n = it.index() as int;
        let ghost before = out@;
        proof {
            assert(e == all[n]);
            assert(views.take(n + 1).drop_last() =~= views.take(n));
            assert(views.take(n + 1).last() == e@);
        }
        let id: Option<IngressId> = match e.path_id {
            None => Some(peer),
            Some(p) => import_state.path_child(peer, p),
        };
        match id {
            Some(id) => {
                out.push(Payload { rx_value: e.route, ingress_id: id, route_status: RouteStatus::Withdrawn });
                assert(all_shown(out@) =~= all_shown(before).push(from_ingress(e@, id, RouteStatus::Withdrawn)));
            },
            None => {},
        }
    }
    assert(views.take(views.len() as int) =~= views);
}

/// Whether all routes have path ids.
fn only_paths(list: &Vec<ExplodedRoute>) -> (r: bool)
    ensures
        r == all_paths(exploded_views(list@)),
{
    let ghost views = exploded_views(list@);
    let mut i: usize = 0;
    while i < list.len()
        invariant
            i <= list@.len(),
            views == exploded_views(list@),
            forall|j: int| 0 <= j < i ==> (#[trigger] views[j]).path_id is Some,
        decreases list@.len() - i,
    {
        if list[i].path_id.is_none() {
            assert(views[i as int].path_id is None);
            return false;
        }
        i = i + 1;
    }
    true
}

/// Turns the routes of an UPDATE of a peer into an update.
pub fn process_update(
    register: &mut Register,
    import_state: &mut MrtImportState,
    parent_id: IngressId,
    peer: &MrtPeer,
    update: ExplodedUpdate,
) -> (r: Result<Option<Update>, MrtError>)
    requires
        old(register).wf(),
        old(import_state).wf(),
        update.wf(),
    ensures
        final(register).wf(),
        final(import_state).wf(),
        came(
            r,
            seen(*final(register), *final(import_state)),
            update_told(
                seen(*old(register), *old(import_state)),
                parent_id,
                peer@,
                supported(exploded_views(update.announced@)),
                supported(exploded_views(update.withdrawn@)),
            ),
        ),
{
    let announced = keep_supported(update.announced);
    let withdrawn = keep_supported(update.withdrawn);
    if announced.len() == 0 && withdrawn.len() == 0 {
        return Ok(None);
    }
    let is_new = find_existing_peer(register, parent_id, peer).is_none();
    if is_new && announced.len() == 0 && only_paths(&withdrawn) {
        return Ok(None);
    }
    let id: IngressId = match peer_ingress(register, import_state, parent_id, peer, None) {
        Some(id) => id,
        None => {
            return Err(ids_error());
        },
    };
    let mut payloads: Vec<Payload> = Vec::new();
    match push_announced(register, import_state, id, announced, &mut payloads) {
        Ok(_) => {},
        Err(e) => {
            return Err(e);
        },
    }
    push_withdrawn(register, import_state, id, withdrawn, &mut payloads);
    if payloads.len() == 0 {
        Ok(None)
    } else {
        Ok(Some(Update::Bulk(payloads)))
    }
}

/// Turns a message into an update.
pub fn process_message(
    register: &mut Register,
    parent_id: IngressId,
    import_state: &mut MrtImportState,
    msg: &BgpMessage,
) -> (r: Result<Option<Update>, MrtError>)
    requires
        old(register).wf(),
        old(import_state).wf(),
    ensures
        final(register).wf(),
        final(import_state).wf(),
        came(
            r,
            seen(*final(register), *final(import_state)),
            message_told(seen(*old(register), *old(import_state)), parent_id, Bgp4Mp::Message(*msg)@),
        ),
{
    let peer = MrtPeer { addr: msg.peer_addr, asn: msg.peer_asn };
    match explode_update(&msg.pdu, msg.path_ids) {
        None => Ok(None),
        Some(Err(_)) => Err(nlri_error()),
        Some(Ok(update)) => process_update(register, import_state, parent_id, &peer, update),
    }
}

/// Turns a change of state into an update.
pub fn process_state_change(
    register: &Register,
    parent_id: IngressId,
    import_state: &MrtImportState,
    sc: &StateChange,
) -> (r: Option<Update>)
    requires
        register.wf(),
        import_state.wf(),
        seen(*register, *import_state).sound(),
    ensures
        came(
            Ok(r),
            seen(*register, *import_state),
            message_told(seen(*register, *import_state), parent_id, Bgp4Mp::StateChange(*sc)@),
        ),
{
    if sc.old_state != ESTABLISHED || sc.new_state != IDLE {
        return None;
    }
    let ghost v = seen(*register, *import_state);
    let peer = MrtPeer { addr: sc.peer_addr, asn: sc.peer_asn };
    match find_existing_peer(register, parent_id, &peer) {
        None => None,
        Some(id) => {
            let children = import_state.path_children(register, id);
            let mut entries: Vec<(IngressId, Option<crate::ingress::IngressInfo>)> = Vec::new();
            entries.push((id, None));
            let mut i: usize = 0;
            while i < children.len()
                invariant
                    i <= children@.len(),
                    entries@.len() == i + 1,
                    entries@[0].0 == id,
                    forall|j: int| 0 <= j < entries@.len() ==> (#[trigger] entries@[j]).1 is None,
                    forall|j: int| 1 <= j < entries@.len() ==> (#[trigger] entries@[j]).0 == children@[j - 1],
                decreases children@.len() - i,
            {
                entries.push((children[i], None));
                i = i + 1;
            }
            let u = Update::WithdrawBulk(entries);
            proof {
                let gone = Set::new(
                    |c: IngressId| exists|i: int| 1 <= i < entries@.len() && (#[trigger] entries@[i]).0 == c,
                );
                assert forall|c: IngressId| #[trigger] gone.contains(c) == children@.to_set().contains(c) by {
                    if children@.contains(c) {
                        let a = choose|a: int| 0 <= a < children@.len() && children@[a] == c;
                        assert(entries@[a + 1].0 == c);
                    }
                }
                assert(gone =~= v.children_of(id));
                assert(told_of(u) == Told::Gone(id, v.children_of(id)));
            }
            Some(u)
        },
    }
}

/// Reading keeps what was learned sound.
proof fn lemma_peer_sound(v: ImportView, parent: IngressId, peer: PeerView, file: Option<Seq<char>>)
    requires
        v.sound(),
    ensures
        v.peer_for(parent, peer, file).0.sound(),
{
    let w = v.peer_for(parent, peer, file).0;
    assert(w.children == v.children && w.families == v.families && w.next >= v.next);
    assert forall|k: (IngressId, u32)| #[trigger] w.children.contains_key(k) implies w.children[k] < w.next by {
        assert(v.children.contains_key(k));
    }
}

proof fn lemma_announced_sound(v: ImportView, peer: IngressId, list: Seq<ExplodedView>)
    requires
        v.sound(),
    ensures
        announced_by(v, peer, list).0.sound(),
    decreases list.len(),
{
    if list.len() > 0 {
        lemma_announced_sound(v, peer, list.drop_last());
        let w = announced_by(v, peer, list.drop_last()).0;
        match list.last().path_id {
            Some(p) => {
                lemma_path_for(w, peer, p, list.last().family);
            },
            None => {},
        }
    }
}

proof fn lemma_record_sound(v: ImportView, parent: IngressId, rec: Seq<u8>)
    requires
        v.sound(),
    ensures
        record_told(v, parent, rec).state.sound(),
{
    match message_of(rec) {
        Some(Bgp4MpView::Message { peer, path_ids, pdu }) => match update_routes(pdu, path_ids) {
            Some(Some((a, w))) => {
                lemma_peer_sound(v, parent, peer, None);
                match v.peer_for(parent, peer, None) {
                    (x, Some(id)) => {
                        lemma_announced_sound(x, id, supported(a));
                    },
                    _ => {},
                }
            },
            _ => {},
        },
        _ => {},
    }
}

proof fn lemma_entry_sound(
    v: ImportView,
    peers: Seq<IngressId>,
    family: AfiSafiType,
    nlri: TableNlriView,
    e: EntryView,
)
    requires
        v.sound(),
    ensures
        entry_told(v, peers, family, nlri, e).state.sound(),
{
    match e.1 {
        Some(p) => {
            lemma_path_for(v, peers[e.0 as int], p, family);
        },
        None => {},
    }
}

proof fn lemma_entries_sound(
    v: ImportView,
    peers: Seq<IngressId>,
    family: AfiSafiType,
    nlri: TableNlriView,
    list: Seq<EntryView>,
)
    requires
        v.sound(),
    ensures
        entries_told(v, peers, family, nlri, list).state.sound(),
    decreases list.len(),
{
    if list.len() > 0 {
        lemma_entries_sound(v, peers, family, nlri, list.drop_last());
        let o = entries_told(v, peers, family, nlri, list.drop_last());
        lemma_entry_sound(o.state, peers, family, nlri, list.last());
    }
}

/// A route for an entry of a table.
fn entry_route(family: AfiSafiType, nlri: &TableNlri, attrs: &[u8]) -> (r: Option<RotondaRoute>)
    requires
        nlri.wf(),
        table_fits(family, nlri@),
    ensures
        match r {
            Some(route) => {
                &&& route.wf()
                &&& route.family() == family
                &&& entry_nlri(family, nlri@) == Some(route.nlri())
                &&& route.attrs() == seq![0u8, 1u8] + entry_attrs(family, nlri@, attrs@)
            },
            None => entry_nlri(family, nlri@) is None,
        },
{
    match nlri {
        TableNlri::Prefix(p) => match family {
            AfiSafiType::Ipv4Unicast => Some(RotondaRoute::Ipv4Unicast(*p, RotondaPaMap::from_attributes(attrs))),
            AfiSafiType::Ipv6Unicast => {
                let full = normalize_mrt_mp_reach(attrs, 2, 1, p);
                Some(RotondaRoute::Ipv6Unicast(*p, RotondaPaMap::from_attributes(&full)))
            },
            AfiSafiType::Ipv4Multicast => Some(
                RotondaRoute::Ipv4Multicast(*p, RotondaPaMap::from_attributes(attrs)),
            ),
            AfiSafiType::Ipv6Multicast => {
                let full = normalize_mrt_mp_reach(attrs, 2, 2, p);
                Some(RotondaRoute::Ipv6Multicast(*p, RotondaPaMap::from_attributes(&full)))
            },
            _ => None,
        },
        TableNlri::Rule(rule) => {
            let n: usize = rule.len();
            let copy = copy_range(rule, 0, n);
            assert(copy@ =~= rule@);
            mk_flowspec_route(family, copy, attrs)
        },
    }
}

/// Turns an entry of a table into an update.
pub fn process_entry(
    register: &mut Register,
    import_state: &mut MrtImportState,
    ingress_map: &Vec<IngressId>,
    family: AfiSafiType,
    nlri: &TableNlri,
    entry: &TableEntry,
) -> (r: Result<Option<Update>, MrtError>)
    requires
        old(register).wf(),
        old(import_state).wf(),
        nlri.wf(),
        table_fits(family, nlri@),
    ensures
        final(register).wf(),
        final(import_state).wf(),
        came(
            r,
            seen(*final(register), *final(import_state)),
            entry_told(seen(*old(register), *old(import_state)), ingress_map@, family, nlri@, entry@),
        ),
{
    if entry.peer as usize >= ingress_map.len() {
        return Err(peer_error());
    }
    let route = match entry_route(family, nlri, &entry.attrs) {
        Some(route) => route,
        None => {
            return Ok(None);
        },
    };
    let peer: IngressId = ingress_map[entry.peer as usize];
    let id: Option<IngressId> = match entry.path_id {
        None => Some(peer),
        Some(p) => mrt_path_ingress(register, import_state, peer, p, family),
    };
    match id {
        None => Err(ids_error()),
        Some(id) => Ok(
            Some(Update::Single(Payload { rx_value: route, ingress_id: id, route_status: RouteStatus::Active })),
        ),
    }
}

/// Whether what was read came to what it had to.
pub open spec fn came_all(
    updates: Seq<Update>,
    r: Result<(), MrtError>,
    after: ImportView,
    o: Outcome,
) -> bool {
    &&& after == o.state
    &&& all_in_order(updates)
    &&& all_told(updates) == o.told
    &&& fails(r, o.fault)
}

/// Once reading went wrong, nothing more comes of it.
proof fn lemma_entries_stop(
    v: ImportView,
    peers: Seq<IngressId>,
    family: AfiSafiType,
    nlri: TableNlriView,
    list: Seq<EntryView>,
    n: int,
)
    requires
        0 <= n <= list.len(),
        entries_told(v, peers, family, nlri, list.take(n)).fault is Some,
    ensures
        entries_told(v, peers, family, nlri, list) == entries_told(v, peers, family, nlri, list.take(n)),
    decreases list.len() - n,
{
    if n == list.len() {
        assert(list.take(n) =~= list);
    } else {
        assert(list.take(n + 1).drop_last() =~= list.take(n));
        lemma_entries_stop(v, peers, family, nlri, list, n + 1);
    }
}

proof fn lemma_all_told_push(us: Seq<Update>, u: Update)
    ensures
        all_told(us.push(u)) == all_told(us) + seq![told_of(u)],
{
    assert(all_told(us.push(u)) =~= all_told(us) + seq![told_of(u)]);
}

/// Turns the entries of a table into updates, up to one that cannot be read.
fn process_table(
    register: &mut Register,
    import_state: &mut MrtImportState,
    ingress_map: &Vec<IngressId>,
    table: &RibTable,
) -> (r: (Vec<Update>, Result<(), MrtError>))
    requires
        old(register).wf(),
        old(import_state).wf(),
        table.nlri.wf(),
        table_fits(table.family, table.nlri@),
    ensures
        final(register).wf(),
        final(import_state).wf(),
        came_all(
            r.0@,
            r.1,
            seen(*final(register), *final(import_state)),
            entries_told(
                seen(*old(register), *old(import_state)),
                ingress_map@,
                table.family,
                table.nlri@,
                entry_views(table.entries@),
            ),
        ),
{
    let ghost v = seen(*register, *import_state);
    let ghost list = entry_views(table.entries@);
    let mut out: Vec<Update> = Vec::new();
    let mut i: usize = 0;
    proof {
        assert(list.take(0) =~= Seq::empty());
        assert(all_told(out@) =~= Seq::empty());
    }
    while i < table.entries.len()
        invariant
            i <= table.entries@.len(),
            register.wf(),
            import_state.wf(),
            table.nlri.wf(),
            table_fits(table.family, table.nlri@),
            list == entry_views(table.entries@),
            v == seen(*old(register), *old(import_state)),
            all_in_order(out@),
            entries_told(v, ingress_map@, table.family, table.nlri@, list.take(i as int)) == (Outcome {
                state: seen(*register, *import_state),
                told: all_told(out@),
                fault: None,
            }),
        decreases table.entries@.len() - i,
    {
        proof {
            assert(list.take(i + 1).drop_last() =~= list.take(i as int));
            assert(list.take(i + 1).last() == table.entries@[i as int]@);
        }
        let ghost before = out@;
        match process_entry(register, import_state, ingress_map, table.family, &table.nlri, &table.entries[i]) {
            Ok(Some(u)) => {
                proof {
                    lemma_all_told_push(out@, u);
                }
                out.push(u);
            },
            Ok(None) => {
                assert(all_told(before) + Seq::<Told>::empty() =~= all_told(before));
            },
            Err(e) => {
                proof {
                    assert(all_told(before) + Seq::<Told>::empty() =~= all_told(before));
                    lemma_entries_stop(v, ingress_map@, table.family, table.nlri@, list, i + 1);
                }
                return (out, Err(e));
            },
        }
        i = i + 1;
    }
    assert(list.take(i as int) =~= list);
    (out, Ok(()))
}

/// Turns a record of a table dump into updates, up to an entry that cannot be
/// read.
pub fn process_rib_record(
    register: &mut Register,
    import_state: &mut MrtImportState,
    ingress_map: &Vec<IngressId>,
    rec: &[u8],
) -> (r: (Vec<Update>, Result<(), MrtError>))
    requires
        old(register).wf(),
        old(import_state).wf(),
        rec@.len() >= 12,
    ensures
        final(register).wf(),
        final(import_state).wf(),
        came_all(
            r.0@,
            r.1,
            seen(*final(register), *final(import_state)),
            table_told(seen(*old(register), *old(import_state)), ingress_map@, rec@),
        ),
{
    let none: Vec<Update> = Vec::new();
    assert(all_told(none@) =~= Seq::empty());
    match read_rib_record(rec) {
        None => (none, Err(table_error())),
        Some(RibRecord::Skipped) => (none, Ok(())),
        Some(RibRecord::Table(table)) => {
            assert(table@.family == table.family && table@.nlri == table.nlri@);
            process_table(register, import_state, ingress_map, &table)
        },
    }
}

/// Turns a record of messages into an update; other records are passed over.
pub fn process_record(
    register: &mut Register,
    import_state: &mut MrtImportState,
    parent_id: IngressId,
    rec: &[u8],
) -> (r: Result<Option<Update>, MrtError>)
    requires
        old(register).wf(),
        old(import_state).wf(),
        seen(*old(register), *old(import_state)).sound(),
        rec@.len() >= 12,
    ensures
        final(register).wf(),
        final(import_state).wf(),
        came(
            r,
            seen(*final(register), *final(import_state)),
            record_told(seen(*old(register), *old(import_state)), parent_id, rec@),
        ),
{
    match read_message(rec) {
        None => Ok(None),
        Some(Bgp4Mp::StateChange(sc)) => Ok(process_state_change(register, parent_id, import_state, &sc)),
        Some(Bgp4Mp::Message(msg)) => process_message(register, parent_id, import_state, &msg),
    }
}

/// Registers the peers of a table dump.
fn register_peers(
    register: &mut Register,
    import_state: &MrtImportState,
    parent_id: IngressId,
    peers: &Vec<MrtPeer>,
    filename: &String,
) -> (r: Option<Vec<IngressId>>)
    requires
        old(register).wf(),
        import_state.wf(),
        seen(*old(register), *import_state).sound(),
    ensures
        final(register).wf(),
        seen(*final(register), *import_state).sound(),
        ({
            let (v, ids) = peers_for(
                seen(*old(register), *import_state),
                parent_id,
                peer_views(peers@),
                Some(filename@),
            );
            &&& seen(*final(register), *import_state) == v
            &&& viewed(r) == ids
        }),
{
    let ghost v = seen(*register, *import_state);
    let ghost views = peer_views(peers@);
    let mut out: Vec<IngressId> = Vec::new();
    let mut i: usize = 0;
    assert(views.take(0) =~= Seq::empty());
    while i < peers.len()
        invariant
            i <= peers@.len(),
            register.wf(),
            import_state.wf(),
            views == peer_views(peers@),
            v == seen(*old(register), *import_state),
            seen(*register, *import_state).sound(),
            peers_for(v, parent_id, views.take(i as int), Some(filename@)) == (
                seen(*register, *import_state),
                Some(out@),
            ),
        decreases peers@.len() - i,
    {
        proof {
            assert(views.take(i + 1).drop_last() =~= views.take(i as int));
            assert(views.take(i + 1).last() == peers@[i as int]@);
            lemma_peer_sound(seen(*register, *import_state), parent_id, peers@[i as int]@, Some(filename@));
        }
        match peer_ingress(register, import_state, parent_id, &peers[i], Some(filename)) {
            Some(id) => {
                out.push(id);
            },
            None => {
                proof {
                    lemma_peers_stop(v, parent_id, views, Some(filename@), i + 1);
                }
                return None;
            },
        }
        i = i + 1;
    }
    assert(views.take(i as int) =~= views);
    Some(out)
}

proof fn lemma_peers_stop(
    v: ImportView,
    parent: IngressId,
    peers: Seq<PeerView>,
    file: Option<Seq<char>>,
    n: int,
)
    requires
        0 <= n <= peers.len(),
        peers_for(v, parent, peers.take(n), file).1 is None,
    ensures
        peers_for(v, parent, peers, file) == peers_for(v, parent, peers.take(n), file),
    decreases peers.len() - n,
{
    if n == peers.len() {
        assert(peers.take(n) =~= peers);
    } else {
        assert(peers.take(n + 1).drop_last() =~= peers.take(n));
        lemma_peers_stop(v, parent, peers, file, n + 1);
    }
}

/// A file that is being read, record by record: first its table dump, then
/// its messages.
#[derive(Debug)]
pub struct FileImport {
    /// The records of the table dump, and how far they have been read.
    rib: Vec<u8>,
    rib_at: usize,
    /// The ingress of each peer of the table dump.
    ingress_map: Vec<IngressId>,
    /// How far the messages of the file have been read.
    at: usize,
}

impl FileImport {
    /// The records of the table dump that have not been read.
    pub closed spec fn tables_left(self) -> Seq<Seq<u8>> {
        records(self.rib@.skip(self.rib_at as int))
    }

    /// The records of the file whose messages have not been read.
    pub closed spec fn messages_left(self, raw: Seq<u8>) -> Seq<Seq<u8>> {
        records(raw.skip(self.at as int))
    }

    /// The ingresses of the peers.
    pub closed spec fn peers(self) -> Seq<IngressId> {
        self.ingress_map@
    }

    /// Whether the file is the one that is being read.
    pub closed spec fn reads(self, raw: Seq<u8>) -> bool {
        &&& self.rib_at <= self.rib@.len()
        &&& leftover(self.rib@.skip(self.rib_at as int)).len() == 0
        &&& self.at <= raw.len()
        &&& leftover(raw.skip(self.at as int)).len() == 0
    }

    /// Begins with a file, and registers the peers of its table dump.
    pub fn start(
        register: &mut Register,
        import_state: &MrtImportState,
        parent_id: IngressId,
        raw: &[u8],
        filename: &String,
    ) -> (r: Result<FileImport, MrtError>)
        requires
            old(register).wf(),
            import_state.wf(),
            seen(*old(register), *import_state).sound(),
        ensures
            final(register).wf(),
            seen(*final(register), *import_state).sound(),
            ({
                let v = seen(*old(register), *import_state);
                let w = seen(*final(register), *import_state);
                let recs = records(raw@);
                match r {
                    Ok(f) => {
                        &&& leftover(raw@).len() == 0
                        &&& f.reads(raw@)
                        &&& f.messages_left(raw@) == recs
                        &&& match peer_index(joined(rib_records(recs))) {
                            None => w == v && f.tables_left() == Seq::<Seq<u8>>::empty(),
                            Some(peers) => f.tables_left() == rib_records(recs) && peers_for(
                                v,
                                parent_id,
                                peers,
                                Some(filename@),
                            ) == (w, Some(f.peers())),
                        }
                    },
                    Err(e) => if leftover(raw@).len() > 0 {
                        w == v && tells_of(e, Fault::Cut(leftover(raw@)))
                    } else {
                        &&& peer_index(joined(rib_records(recs))) matches Some(peers)
                        &&& peers_for(v, parent_id, peers, Some(filename@)) == (w, None::<Seq<IngressId>>)
                        &&& tells_of(e, Fault::Ids)
                    },
                }
            }),
    {
        let rib = match supported_rib_records(raw) {
            Ok(rib) => rib,
            Err(e) => {
                return Err(e);
            },
        };
        proof {
            picked_records_make_up_a_file(raw@);
            assert(raw@.skip(0) =~= raw@);
            assert(rib@.skip(0) =~= rib@);
        }
        match read_peer_index(&rib) {
            None => {
                let none: Vec<u8> = Vec::new();
                assert(none@.skip(0) =~= Seq::empty());
                Ok(FileImport { rib: none, rib_at: 0, ingress_map: Vec::new(), at: 0 })
            },
            Some(peers) => match register_peers(register, import_state, parent_id, &peers, filename) {
                Some(ingress_map) => Ok(FileImport { rib, rib_at: 0, ingress_map, at: 0 }),
                None => Err(ids_error()),
            },
        }
    }

    /// Whether the whole file has been read.
    pub fn done(&self, raw: &[u8]) -> (r: bool)
        requires
            self.reads(raw@),
        ensures
            r == (self.tables_left().len() == 0 && self.messages_left(raw@).len() == 0),
    {
        proof {
            lemma_nothing_left(self.rib@, self.rib_at as int);
            lemma_nothing_left(raw@, self.at as int);
        }
        self.rib_at == self.rib.len() && self.at == raw.len()
    }

    /// Reads the next record.
    pub fn step(
        &mut self,
        register: &mut Register,
        import_state: &mut MrtImportState,
        parent_id: IngressId,
        raw: &[u8],
    ) -> (r: (Vec<Update>, Result<(), MrtError>))
        requires
            old(self).reads(raw@),
            old(self).tables_left().len() > 0 || old(self).messages_left(raw@).len() > 0,
            old(register).wf(),
            old(import_state).wf(),
            seen(*old(register), *old(import_state)).sound(),
        ensures
            final(self).reads(raw@),
            final(self).peers() == old(self).peers(),
            final(register).wf(),
            final(import_state).wf(),
            seen(*final(register), *final(import_state)).sound(),
            ({
                let v = seen(*old(register), *old(import_state));
                let w = seen(*final(register), *final(import_state));
                let tables = old(self).tables_left();
                let messages = old(self).messages_left(raw@);
                if tables.len() > 0 {
                    &&& final(self).tables_left() == tables.skip(1)
                    &&& final(self).messages_left(raw@) == messages
                    &&& came_all(r.0@, r.1, w, table_told(v, old(self).peers(), tables[0]))
                } else {
                    &&& final(self).tables_left() == tables
                    &&& final(self).messages_left(raw@) == messages.skip(1)
                    &&& came_all(r.0@, r.1, w, record_told(v, parent_id, messages[0]))
                }
            }),
    {
        let ghost v = seen(*register, *import_state);
        proof {
            lemma_nothing_left(self.rib@, self.rib_at as int);
            lemma_nothing_left(raw@, self.at as int);
        }
        if self.rib_at < self.rib.len() {
            let ghost s = self.rib@.skip(self.rib_at as int);
            match record_end(&self.rib, self.rib_at) {
                Some(end) => {
                    let rec = &self.rib[self.rib_at..end];
                    proof {
                        let n = end - self.rib_at;
                        assert(rec@ =~= s.take(n));
                        assert(s.skip(n) =~= self.rib@.skip(end as int));
                        assert(records(s) == seq![rec@] + records(s.skip(n)));
                        assert(records(s)[0] == rec@);
                        assert(records(s).skip(1) =~= records(s.skip(n)));
                        lemma_table_sound(v, self.ingress_map@, rec@);
                    }
                    let r = process_rib_record(register, import_state, &self.ingress_map, rec);
                    self.rib_at = end;
                    r
                },
                None => {
                    assert(leftover(s) == s);
                    (Vec::new(), Ok(()))
                },
            }
        } else {
            let ghost s = raw@.skip(self.at as int);
            match record_end(raw, self.at) {
                Some(end) => {
                    let rec = &raw[self.at..end];
                    proof {
                        let n = end - self.at;
                        assert(rec@ =~= s.take(n));
                        assert(s.skip(n) =~= raw@.skip(end as int));
                        assert(records(s) == seq![rec@] + records(s.skip(n)));
                        assert(records(s)[0] == rec@);
                        assert(records(s).skip(1) =~= records(s.skip(n)));
                        lemma_record_sound(v, parent_id, rec@);
                    }
                    let mut out: Vec<Update> = Vec::new();
                    assert(all_told(out@) =~= Seq::empty());
                    let r = match process_record(register, import_state, parent_id, rec) {
                        Ok(Some(u)) => {
                            proof {
                                lemma_all_told_push(out@, u);
                                assert(all_told(out@) + seq![told_of(u)] =~= seq![told_of(u)]);
                            }
                            out.push(u);
                            Ok(())
                        },
                        Ok(None) => Ok(()),
                        Err(e) => Err(e),
                    };
                    self.at = end;
                    (out, r)
                },
                None => {
                    assert(leftover(s) == s);
                    (Vec::new(), Ok(()))
                },
            }
        }
    }
}

proof fn lemma_table_sound(v: ImportView, peers: Seq<IngressId>, rec: Seq<u8>)
    requires
        v.sound(),
    ensures
        table_told(v, peers, rec).state.sound(),
{
    match rib_table(rec) {
        Some(Some(t)) => {
            lemma_entries_sound(v, peers, t.family, t.nlri, t.entries);
        },
        _ => {},
    }
}

/// Of complete records nothing is left where there are no more octets.
proof fn lemma_nothing_left(s: Seq<u8>, at: int)
    requires
        0 <= at <= s.len(),
        leftover(s.skip(at)).len() == 0,
    ensures
        (records(s.skip(at)).len() == 0) == (at == s.len()),
{
}

proof fn lemma_tables_stop(v: ImportView, peers: Seq<IngressId>, recs: Seq<Seq<u8>>, n: int)
    requires
        0 <= n <= recs.len(),
        tables_told(v, peers, recs.take(n)).fault is Some,
    ensures
        tables_told(v, peers, recs) == tables_told(v, peers, recs.take(n)),
    decreases recs.len() - n,
{
    if n == recs.len() {
        assert(recs.take(n) =~= recs);
    } else {
        assert(recs.take(n + 1).drop_last() =~= recs.take(n));
        lemma_tables_stop(v, peers, recs, n + 1);
    }
}

proof fn lemma_messages_stop(v: ImportView, parent: IngressId, recs: Seq<Seq<u8>>, n: int)
    requires
        0 <= n <= recs.len(),
        messages_told(v, parent, recs.take(n)).fault is Some,
    ensures
        messages_told(v, parent, recs) == messages_told(v, parent, recs.take(n)),
    decreases recs.len() - n,
{
    if n == recs.len() {
        assert(recs.take(n) =~= recs);
    } else {
        assert(recs.take(n + 1).drop_last() =~= recs.take(n));
        lemma_messages_stop(v, parent, recs, n + 1);
    }
}

/// What comes of a file whose peers are registered, once `n` of its tables
/// and `m` of its records of messages were read.
#[verifier::opaque]
spec fn read_up_to(
    v: ImportView,
    parent: IngressId,
    peers: Seq<IngressId>,
    tables: Seq<Seq<u8>>,
    messages: Seq<Seq<u8>>,
    n: int,
    m: int,
) -> Outcome {
    let o = tables_told(v, peers, tables.take(n));
    match o.fault {
        Some(_) => o,
        None => after(o, messages_told(o.state, parent, messages.take(m))),
    }
}

/// The next record adds to what came of a file, or ends it.
proof fn lemma_read_on(
    v: ImportView,
    parent: IngressId,
    peers: Seq<IngressId>,
    tables: Seq<Seq<u8>>,
    messages: Seq<Seq<u8>>,
    n: int,
    m: int,
)
    requires
        0 <= n <= tables.len(),
        0 <= m <= messages.len(),
        m > 0 ==> n == tables.len(),
        n < tables.len() || m < messages.len(),
        read_up_to(v, parent, peers, tables, messages, n, m).fault is None,
    ensures
        ({
            let o = read_up_to(v, parent, peers, tables, messages, n, m);
            let (p, next) = if n < tables.len() {
                (
                    table_told(o.state, peers, tables[n]),
                    read_up_to(v, parent, peers, tables, messages, n + 1, m),
                )
            } else {
                (
                    record_told(o.state, parent, messages[m]),
                    read_up_to(v, parent, peers, tables, messages, n, m + 1),
                )
            };
            &&& next == after(o, p)
            &&& p.fault is Some ==> next == read_up_to(
                v,
                parent,
                peers,
                tables,
                messages,
                tables.len() as int,
                messages.len() as int,
            )
        }),
{
    reveal(read_up_to);
    let o = read_up_to(v, parent, peers, tables, messages, n, m);
    let t = tables_told(v, peers, tables.take(n));
    if n < tables.len() {
        assert(tables.take(n + 1).drop_last() =~= tables.take(n));
        assert(messages.take(0) =~= Seq::empty());
        assert(t.told + Seq::<Told>::empty() =~= t.told);
        let p = table_told(o.state, peers, tables[n]);
        let next = read_up_to(v, parent, peers, tables, messages, n + 1, m);
        assert(next.told =~= o.told + p.told);
        if p.fault is Some {
            lemma_tables_stop(v, peers, tables, n + 1);
            assert(tables.take(tables.len() as int) =~= tables);
        }
    } else {
        assert(messages.take(m + 1).drop_last() =~= messages.take(m));
        let p = record_told(o.state, parent, messages[m]);
        let next = read_up_to(v, parent, peers, tables, messages, n, m + 1);
        assert(next.told =~= o.told + p.told);
        if p.fault is Some {
            lemma_messages_stop(t.state, parent, messages, m + 1);
            assert(messages.take(messages.len() as int) =~= messages);
        }
    }
}

/// What comes of a file before and after all its records were read.
proof fn lemma_read_ends(
    v: ImportView,
    parent: IngressId,
    peers: Seq<IngressId>,
    tables: Seq<Seq<u8>>,
    messages: Seq<Seq<u8>>,
)
    ensures
        read_up_to(v, parent, peers, tables, messages, 0, 0) == nothing(v),
        read_up_to(v, parent, peers, tables, messages, tables.len() as int, messages.len() as int) == ({
            let o = tables_told(v, peers, tables);
            match o.fault {
                Some(_) => o,
                None => after(o, messages_told(o.state, parent, messages)),
            }
        }),
{
    reveal(read_up_to);
    assert(tables.take(0) =~= Seq::empty());
    assert(messages.take(0) =~= Seq::empty());
    assert(nothing(v).told + nothing(v).told =~= nothing(v).told);
    assert(tables.take(tables.len() as int) =~= tables);
    assert(messages.take(messages.len() as int) =~= messages);
}

/// What more updates tell.
proof fn lemma_more_told(before: Seq<Update>, more: Seq<Update>)
    requires
        all_in_order(before),
        all_in_order(more),
    ensures
        all_in_order(before + more),
        all_told(before + more) == all_told(before) + all_told(more),
{
    let out = before + more;
    assert(all_told(out) =~= all_told(before) + all_told(more));
    assert forall|i: int| 0 <= i < out.len() implies in_order(#[trigger] out[i]) by {
        if i < before.len() {
            assert(out[i] == before[i]);
        } else {
            assert(out[i] == more[i - before.len()]);
        }
    }
}

/// The next record is the first of those that are left.
proof fn lemma_next_left(recs: Seq<Seq<u8>>, n: int)
    requires
        0 <= n < recs.len(),
    ensures
        recs.skip(n).len() > 0,
        recs.skip(n)[0] == recs[n],
        recs.skip(n).skip(1) == recs.skip(n + 1),
{
    assert(recs.skip(n).skip(1) =~= recs.skip(n + 1));
}

/// Whether updates are what came of a file, once `n` of its tables and `m` of
/// its records of messages were read.
#[verifier::opaque]
spec fn came_so_far(
    v: ImportView,
    parent: IngressId,
    peers: Seq<IngressId>,
    tables: Seq<Seq<u8>>,
    messages: Seq<Seq<u8>>,
    n: int,
    m: int,
    state: ImportView,
    out: Seq<Update>,
) -> bool {
    &&& 0 <= n <= tables.len()
    &&& 0 <= m <= messages.len()
    &&& m > 0 ==> n == tables.len()
    &&& all_in_order(out)
    &&& read_up_to(v, parent, peers, tables, messages, n, m) == (Outcome { state, told: all_told(out), fault: None })
}

/// One more record was read.
proof fn lemma_one_more_record(
    v: ImportView,
    parent: IngressId,
    peers: Seq<IngressId>,
    tables: Seq<Seq<u8>>,
    messages: Seq<Seq<u8>>,
    n: int,
    m: int,
    state: ImportView,
    out: Seq<Update>,
    state_after: ImportView,
    more: Seq<Update>,
    r: Result<(), MrtError>,
)
    requires
        came_so_far(v, parent, peers, tables, messages, n, m, state, out),
        n < tables.len() || m < messages.len(),
        came_all(
            more,
            r,
            state_after,
            if n < tables.len() {
                table_told(state, peers, tables[n])
            } else {
                record_told(state, parent, messages[m])
            },
        ),
    ensures
        ({
            let goal = read_up_to(
                v,
                parent,
                peers,
                tables,
                messages,
                tables.len() as int,
                messages.len() as int,
            );
            match r {
                Ok(_) => came_so_far(
                    v,
                    parent,
                    peers,
                    tables,
                    messages,
                    if n < tables.len() {
                        n + 1
                    } else {
                        n
                    },
                    if n < tables.len() {
                        m
                    } else {
                        m + 1
                    },
                    state_after,
                    out + more,
                ),
                Err(_) => came_all(out + more, r, state_after, goal),
            }
        }),
{
    reveal(came_so_far);
    lemma_read_on(v, parent, peers, tables, messages, n, m);
    lemma_more_told(out, more);
}

/// Turns a whole file into updates, up to something that cannot be read.
pub fn process_file(
    register: &mut Register,
    parent_id: IngressId,
    raw: &[u8],
    filename: &String,
    import_state: &mut MrtImportState,
) -> (r: (Vec<Update>, Result<(), MrtError>))
    requires
        old(register).wf(),
        old(import_state).wf(),
        seen(*old(register), *old(import_state)).sound(),
    ensures
        final(register).wf(),
        final(import_state).wf(),
        came_all(
            r.0@,
            r.1,
            seen(*final(register), *final(import_state)),
            file_told(seen(*old(register), *old(import_state)), parent_id, raw@, filename@),
        ),
{
    let mut out: Vec<Update> = Vec::new();
    assert(all_told(out@) =~= Seq::empty());
    let mut import = match FileImport::start(register, import_state, parent_id, raw, filename) {
        Ok(f) => f,
        Err(e) => {
            return (out, Err(e));
        },
    };
    let ghost v = seen(*register, *import_state);
    let ghost peers = import.peers();
    let ghost tables = import.tables_left();
    let ghost messages = import.messages_left(raw@);
    let ghost mut n: int = 0;
    let ghost mut m: int = 0;
    let ghost goal = read_up_to(v, parent_id, peers, tables, messages, tables.len() as int, messages.len() as int);
    proof {
        reveal(came_so_far);
        lemma_read_ends(v, parent_id, peers, tables, messages);
        assert(tables.skip(0) =~= tables);
        assert(messages.skip(0) =~= messages);
        let told = file_told(seen(*old(register), *old(import_state)), parent_id, raw@, filename@);
        assert(goal.told =~= told.told);
        assert(goal == told);
    }
    while !import.done(raw)
        invariant
            register.wf(),
            import_state.wf(),
            seen(*register, *import_state).sound(),
            import.reads(raw@),
            import.peers() == peers,
            0 <= n <= tables.len(),
            0 <= m <= messages.len(),
            import.tables_left() == tables.skip(n),
            import.messages_left(raw@) == messages.skip(m),
            came_so_far(v, parent_id, peers, tables, messages, n, m, seen(*register, *import_state), out@),
            goal == read_up_to(v, parent_id, peers, tables, messages, tables.len() as int, messages.len() as int),
            goal == file_told(seen(*old(register), *old(import_state)), parent_id, raw@, filename@),
        decreases tables.len() - n + messages.len() - m,
    {
        let ghost before = out@;
        let ghost state = seen(*register, *import_state);
        proof {
            if n < tables.len() {
                lemma_next_left(tables, n);
            } else {
                lemma_next_left(messages, m);
            }
        }
        let (mut some, r) = import.step(register, import_state, parent_id, raw);
        let ghost told = some@;
        out.append(&mut some);
        proof {
            let now = seen(*register, *import_state);
            lemma_one_more_record(v, parent_id, peers, tables, messages, n, m, state, before, now, told, r);
            if n < tables.len() {
                n = n + 1;
            } else {
                m = m + 1;
            }
        }
        match r {
            Ok(_) => {},
            Err(e) => {
                return (out, Err(e));
            },
        }
    }
    proof {
        reveal(came_so_far);
    }
    (out, Ok(()))
}

} // verus!
