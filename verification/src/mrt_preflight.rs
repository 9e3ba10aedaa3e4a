//! A first look through MRT files, for the families in which their peers use
//! path ids. It comes before any route is sent on, so that what is told of a
//! peer when it appears holds for all its routes.
use vstd::prelude::*;

use crate::explode::{explode_update, exploded_views, update_routes, ExplodedRoute, ExplodedView};
use crate::mrt_file::{
    announced_by, entries_told, fails, file_told, index_error, messages_told, nlri_error, peer_error, peers_for,
    record_told, supported, table_error, table_told, tables_told, Fault,
};
use crate::mrt_format::{
    entry_views, joined, leftover, message_of, peer_index, peer_views, picked_records_make_up_a_file, read_message,
    read_peer_index, read_rib_record, record_end, records, rib_records, rib_table, supported_rib_records, Bgp4Mp,
    Bgp4MpView, EntryView, MrtError, MrtPeer, PeerView, RibRecord, RibTable, TableNlriView,
};
use crate::mrt_import::{existing, family_lists, listed_families, noted_in, ImportView, MrtImportState};
use crate::types::{AfiSafiType, IngressId};

verus! {

/// The families in which each peer uses path ids.
pub type Families = Map<PeerView, Seq<AfiSafiType>>;

/// Families once an entry of a table was seen.
pub open spec fn entry_noted(m: Families, peers: Seq<PeerView>, family: AfiSafiType, e: EntryView) -> (
    Families,
    Option<Fault>,
) {
    if e.0 >= peers.len() {
        (m, Some(Fault::Peer))
    } else if e.1 is Some {
        (noted_in(m, peers[e.0 as int], family), None)
    } else {
        (m, None)
    }
}

pub open spec fn entries_noted(m: Families, peers: Seq<PeerView>, family: AfiSafiType, list: Seq<EntryView>) -> (
    Families,
    Option<Fault>,
)
    decreases list.len(),
{
    if list.len() == 0 {
        (m, None)
    } else {
        match entries_noted(m, peers, family, list.drop_last()) {
            (n, Some(f)) => (n, Some(f)),
            (n, None) => entry_noted(n, peers, family, list.last()),
        }
    }
}

/// Families once a record of a table dump was seen.
pub open spec fn table_noted(m: Families, peers: Seq<PeerView>, rec: Seq<u8>) -> (Families, Option<Fault>) {
    match rib_table(rec) {
        None => (m, Some(Fault::Table)),
        Some(None) => (m, None),
        Some(Some(t)) => entries_noted(m, peers, t.family, t.entries),
    }
}

pub open spec fn tables_noted(m: Families, peers: Seq<PeerView>, recs: Seq<Seq<u8>>) -> (Families, Option<Fault>)
    decreases recs.len(),
{
    if recs.len() == 0 {
        (m, None)
    } else {
        match tables_noted(m, peers, recs.drop_last()) {
            (n, Some(f)) => (n, Some(f)),
            (n, None) => table_noted(n, peers, recs.last()),
        }
    }
}

/// Families once some routes of a peer were seen.
pub open spec fn routes_noted(m: Families, peer: PeerView, list: Seq<ExplodedView>) -> Families
    decreases list.len(),
{
    if list.len() == 0 {
        m
    } else {
        let n = routes_noted(m, peer, list.drop_last());
        if list.last().path_id is Some {
            noted_in(n, peer, list.last().family)
        } else {
            n
        }
    }
}

/// Families once a record was seen, if it is one of messages.
pub open spec fn record_noted(m: Families, rec: Seq<u8>) -> (Families, Option<Fault>) {
    match message_of(rec) {
        Some(Bgp4MpView::Message { peer, path_ids, pdu }) => match update_routes(pdu, path_ids) {
            None => (m, None),
            Some(None) => (m, Some(Fault::Nlri)),
            Some(Some((a, w))) => (routes_noted(routes_noted(m, peer, a), peer, w), None),
        },
        _ => (m, None),
    }
}

pub open spec fn messages_noted(m: Families, recs: Seq<Seq<u8>>) -> (Families, Option<Fault>)
    decreases recs.len(),
{
    if recs.len() == 0 {
        (m, None)
    } else {
        match messages_noted(m, recs.drop_last()) {
            (n, Some(f)) => (n, Some(f)),
            (n, None) => record_noted(n, recs.last()),
        }
    }
}

/// Families once a file was seen. A table dump has to begin with its peers.
pub open spec fn preflighted(m: Families, raw: Seq<u8>) -> (Families, Option<Fault>) {
    let recs = records(raw);
    let rib = rib_records(recs);
    if leftover(raw).len() > 0 {
        (m, Some(Fault::Cut(leftover(raw))))
    } else if joined(rib).len() == 0 {
        messages_noted(m, recs)
    } else {
        match peer_index(joined(rib)) {
            None => (m, Some(Fault::Index)),
            Some(peers) => match tables_noted(m, peers, rib) {
                (n, Some(f)) => (n, Some(f)),
                (n, None) => messages_noted(n, recs),
            },
        }
    }
}

proof fn lemma_entries_stop(m: Families, peers: Seq<PeerView>, family: AfiSafiType, list: Seq<EntryView>, n: int)
    requires
        0 <= n <= list.len(),
        entries_noted(m, peers, family, list.take(n)).1 is Some,
    ensures
        entries_noted(m, peers, family, list) == entries_noted(m, peers, family, list.take(n)),
    decreases list.len() - n,
{
    if n == list.len() {
        assert(list.take(n) =~= list);
    } else {
        assert(list.take(n + 1).drop_last() =~= list.take(n));
        lemma_entries_stop(m, peers, family, list, n + 1);
    }
}

proof fn lemma_tables_stop(m: Families, peers: Seq<PeerView>, recs: Seq<Seq<u8>>, n: int)
    requires
        0 <= n <= recs.len(),
        tables_noted(m, peers, recs.take(n)).1 is Some,
    ensures
        tables_noted(m, peers, recs) == tables_noted(m, peers, recs.take(n)),
    decreases recs.len() - n,
{
    if n == recs.len() {
        assert(recs.take(n) =~= recs);
    } else {
        assert(recs.take(n + 1).drop_last() =~= recs.take(n));
        lemma_tables_stop(m, peers, recs, n + 1);
    }
}

proof fn lemma_messages_stop(m: Families, recs: Seq<Seq<u8>>, n: int)
    requires
        0 <= n <= recs.len(),
        messages_noted(m, recs.take(n)).1 is Some,
    ensures
        messages_noted(m, recs) == messages_noted(m, recs.take(n)),
    decreases recs.len() - n,
{
    if n == recs.len() {
        assert(recs.take(n) =~= recs);
    } else {
        assert(recs.take(n + 1).drop_last() =~= recs.take(n));
        lemma_messages_stop(m, recs, n + 1);
    }
}

/// The first of some records is found at `at`.
proof fn lemma_next_record(raw: Seq<u8>, at: int, end: int)
    requires
        0 <= at < end <= raw.len(),
        leftover(raw.skip(at)).len() == 0,
        crate::mrt_format::record_size(raw.skip(at)) == Some(end - at),
    ensures
        records(raw.skip(at)) == seq![raw.subrange(at, end)] + records(raw.skip(end)),
        leftover(raw.skip(end)).len() == 0,
{
    let s = raw.skip(at);
    assert(s.take(end - at) =~= raw.subrange(at, end));
    assert(s.skip(end - at) =~= raw.skip(end));
}

impl MrtImportState {
    /// The families that were noted.
    pub open spec fn noted_families(self) -> Families {
        family_lists(self.addpath_families@)
    }

    /// Looks through a table.
    fn preflight_table(&mut self, peers: &Vec<MrtPeer>, table: &RibTable) -> (r: Result<(), MrtError>)
        requires
            old(self).wf(),
        ensures
            final(self).wf(),
            final(self).path_children == old(self).path_children,
            ({
                let o = entries_noted(
                    old(self).noted_families(),
                    peer_views(peers@),
                    table.family,
                    entry_views(table.entries@),
                );
                final(self).noted_families() == o.0 && fails(r, o.1)
            }),
    {
        let ghost m = self.noted_families();
        let ghost views = peer_views(peers@);
        let ghost list = entry_views(table.entries@);
        let mut i: usize = 0;
        assert(list.take(0) =~= Seq::empty());
        while i < table.entries.len()
            invariant
                i <= table.entries@.len(),
                self.wf(),
                self.path_children == old(self).path_children,
                m == old(self).noted_families(),
                views == peer_views(peers@),
                list == entry_views(table.entries@),
                entries_noted(m, views, table.family, list.take(i as int)) == (self.noted_families(), None::<Fault>),
            decreases table.entries@.len() - i,
        {
            proof {
                assert(list.take(i + 1).drop_last() =~= list.take(i as int));
                assert(list.take(i + 1).last() == table.entries@[i as int]@);
            }
            let at: usize = table.entries[i].peer as usize;
            if at >= peers.len() {
                proof {
                    lemma_entries_stop(m, views, table.family, list, i + 1);
                }
                return Err(peer_error());
            }
            if table.entries[i].path_id.is_some() {
                self.note_addpath_family(peers[at], table.family);
            }
            i = i + 1;
        }
        assert(list.take(i as int) =~= list);
        Ok(())
    }

    /// Looks through a table dump.
    fn preflight_tables(&mut self, peers: &Vec<MrtPeer>, rib: &[u8]) -> (r: Result<(), MrtError>)
        requires
            old(self).wf(),
            leftover(rib@).len() == 0,
        ensures
            final(self).wf(),
            final(self).path_children == old(self).path_children,
            ({
                let o = tables_noted(old(self).noted_families(), peer_views(peers@), records(rib@));
                final(self).noted_families() == o.0 && fails(r, o.1)
            }),
    {
        let ghost m = self.noted_families();
        let ghost views = peer_views(peers@);
        let ghost all = records(rib@);
        let ghost mut n: int = 0;
        let mut at: usize = 0;
        proof {
            assert(rib@.skip(0) =~= rib@);
            assert(all.skip(0) =~= all);
            assert(all.take(0) =~= Seq::empty());
        }
        while at < rib.len()
            invariant
                at <= rib@.len(),
                0 <= n <= all.len(),
                self.wf(),
                self.path_children == old(self).path_children,
                m == old(self).noted_families(),
                views == peer_views(peers@),
                all == records(rib@),
                records(rib@.skip(at as int)) == all.skip(n),
                leftover(rib@.skip(at as int)).len() == 0,
                tables_noted(m, views, all.take(n)) == (self.noted_families(), None::<Fault>),
            decreases rib@.len() - at,
        {
            let end: usize = match record_end(rib, at) {
                Some(end) => end,
                None => {
                    assert(leftover(rib@.skip(at as int)) == rib@.skip(at as int));
                    return Ok(());
                },
            };
            let rec = &rib[at..end];
            proof {
                lemma_next_record(rib@, at as int, end as int);
                assert(rec@ =~= rib@.subrange(at as int, end as int));
                assert(all.skip(n)[0] == rec@);
                assert(all.skip(n).skip(1) =~= all.skip(n + 1));
                assert((seq![rec@] + records(rib@.skip(end as int))).skip(1) =~= records(rib@.skip(end as int)));
                assert(all.take(n + 1).drop_last() =~= all.take(n));
                assert(all.take(n + 1).last() == rec@);
            }
            let r = match read_rib_record(rec) {
                None => Err(table_error()),
                Some(RibRecord::Skipped) => Ok(()),
                Some(RibRecord::Table(table)) => self.preflight_table(peers, &table),
            };
            match r {
                Ok(_) => {},
                Err(e) => {
                    proof {
                        lemma_tables_stop(m, views, all, n + 1);
                    }
                    return Err(e);
                },
            }
            proof {
                n = n + 1;
            }
            at = end;
        }
        proof {
            assert(rib@.skip(at as int) =~= Seq::empty());
            assert(all.skip(n).len() == 0);
            assert(all.take(n) =~= all);
        }
        Ok(())
    }

    /// Looks through some routes of a peer.
    fn preflight_routes(&mut self, peer: MrtPeer, list: &Vec<ExplodedRoute>)
        requires
            old(self).wf(),
        ensures
            final(self).wf(),
            final(self).path_children == old(self).path_children,
            final(self).noted_families() == routes_noted(old(self).noted_families(), peer@, exploded_views(list@)),
    {
        let ghost m = self.noted_families();
        let ghost views = exploded_views(list@);
        let mut i: usize = 0;
        assert(views.take(0) =~= Seq::empty());
        while i < list.len()
            invariant
                i <= list@.len(),
                self.wf(),
                self.path_children == old(self).path_children,
                m == old(self).noted_families(),
                views == exploded_views(list@),
                self.noted_families() == routes_noted(m, peer@, views.take(i as int)),
            decreases list@.len() - i,
        {
            proof {
                assert(views.take(i + 1).drop_last() =~= views.take(i as int));
                assert(views.take(i + 1).last() == list@[i as int]@);
            }
            if list[i].path_id.is_some() {
                self.note_addpath_family(peer, list[i].route.afisafi());
            }
            i = i + 1;
        }
        assert(views.take(i as int) =~= views);
    }

    /// Looks through a record of messages.
    fn preflight_record(&mut self, rec: &[u8]) -> (r: Result<(), MrtError>)
        requires
            old(self).wf(),
            rec@.len() >= 12,
        ensures
            final(self).wf(),
            final(self).path_children == old(self).path_children,
            ({
                let o = record_noted(old(self).noted_families(), rec@);
                final(self).noted_families() == o.0 && fails(r, o.1)
            }),
    {
        match read_message(rec) {
            Some(Bgp4Mp::Message(msg)) => {
                let peer = MrtPeer { addr: msg.peer_addr, asn: msg.peer_asn };
                match explode_update(&msg.pdu, msg.path_ids) {
                    None => Ok(()),
                    Some(Err(_)) => Err(nlri_error()),
                    Some(Ok(update)) => {
                        self.preflight_routes(peer, &update.announced);
                        self.preflight_routes(peer, &update.withdrawn);
                        Ok(())
                    },
                }
            },
            _ => Ok(()),
        }
    }

    /// Looks through the messages of a file.
    fn preflight_messages(&mut self, raw: &[u8]) -> (r: Result<(), MrtError>)
        requires
            old(self).wf(),
            leftover(raw@).len() == 0,
        ensures
            final(self).wf(),
            final(self).path_children == old(self).path_children,
            ({
                let o = messages_noted(old(self).noted_families(), records(raw@));
                final(self).noted_families() == o.0 && fails(r, o.1)
            }),
    {
        let ghost m = self.noted_families();
        let ghost all = records(raw@);
        let ghost mut n: int = 0;
        let mut at: usize = 0;
        proof {
            assert(raw@.skip(0) =~= raw@);
            assert(all.skip(0) =~= all);
            assert(all.take(0) =~= Seq::empty());
        }
        while at < raw.len()
            invariant
                at <= raw@.len(),
                0 <= n <= all.len(),
                self.wf(),
                self.path_children == old(self).path_children,
                m == old(self).noted_families(),
                all == records(raw@),
                records(raw@.skip(at as int)) == all.skip(n),
                leftover(raw@.skip(at as int)).len() == 0,
                messages_noted(m, all.take(n)) == (self.noted_families(), None::<Fault>),
            decreases raw@.len() - at,
        {
            let end: usize = match record_end(raw, at) {
                Some(end) => end,
                None => {
                    assert(leftover(raw@.skip(at as int)) == raw@.skip(at as int));
                    return Ok(());
                },
            };
            let rec = &raw[at..end];
            proof {
                lemma_next_record(raw@, at as int, end as int);
                assert(rec@ =~= raw@.subrange(at as int, end as int));
                assert(all.skip(n)[0] == rec@);
                assert(all.skip(n).skip(1) =~= all.skip(n + 1));
                assert((seq![rec@] + records(raw@.skip(end as int))).skip(1) =~= records(raw@.skip(end as int)));
                assert(all.take(n + 1).drop_last() =~= all.take(n));
                assert(all.take(n + 1).last() == rec@);
            }
            match self.preflight_record(rec) {
                Ok(_) => {},
                Err(e) => {
                    proof {
                        lemma_messages_stop(m, all, n + 1);
                    }
                    return Err(e);
                },
            }
            proof {
                n = n + 1;
            }
            at = end;
        }
        proof {
            assert(raw@.skip(at as int) =~= Seq::empty());
            assert(all.skip(n).len() == 0);
            assert(all.take(n) =~= all);
        }
        Ok(())
    }

    /// Looks through a file.
    pub fn preflight_bytes(&mut self, bytes: &[u8]) -> (r: Result<(), MrtError>)
        requires
            old(self).wf(),
        ensures
            final(self).wf(),
            final(self).path_children == old(self).path_children,
            ({
                let o = preflighted(old(self).noted_families(), bytes@);
                final(self).noted_families() == o.0 && fails(r, o.1)
            }),
    {
        let rib = match supported_rib_records(bytes) {
            Ok(rib) => rib,
            Err(e) => {
                return Err(e);
            },
        };
        proof {
            picked_records_make_up_a_file(bytes@);
        }
        if rib.len() > 0 {
            match read_peer_index(&rib) {
                None => {
                    return Err(index_error());
                },
                Some(peers) => match self.preflight_tables(&peers, &rib) {
                    Ok(_) => {},
                    Err(e) => {
                        return Err(e);
                    },
                },
            }
        }
        self.preflight_messages(bytes)
    }
}

/// Whether families hold all that others hold.
pub open spec fn holds_all(big: Families, small: Families) -> bool {
    forall|p: PeerView, f: AfiSafiType| #[trigger]
        listed_families(small, p).contains(f) ==> listed_families(big, p).contains(f)
}

proof fn lemma_noted_holds(m: Families, peer: PeerView, family: AfiSafiType)
    ensures
        holds_all(noted_in(m, peer, family), m),
        family.reemitted() ==> listed_families(noted_in(m, peer, family), peer).contains(family),
{
    let n = noted_in(m, peer, family);
    assert forall|p: PeerView, f: AfiSafiType| #[trigger] listed_families(m, p).contains(f) implies listed_families(
        n,
        p,
    ).contains(f) by {
        if p == peer {
            let i = choose|i: int| 0 <= i < listed_families(m, p).len() && listed_families(m, p)[i] == f;
            assert(listed_families(n, p)[i] == f);
        }
    }
    if family.reemitted() && !listed_families(m, peer).contains(family) {
        let l = listed_families(n, peer);
        assert(l[l.len() - 1] == family);
    }
}

proof fn lemma_entry_holds(m: Families, peers: Seq<PeerView>, family: AfiSafiType, e: EntryView)
    ensures
        holds_all(entry_noted(m, peers, family, e).0, m),
{
    if e.0 < peers.len() {
        lemma_noted_holds(m, peers[e.0 as int], family);
    }
}

proof fn lemma_entries_hold(m: Families, peers: Seq<PeerView>, family: AfiSafiType, list: Seq<EntryView>)
    ensures
        holds_all(entries_noted(m, peers, family, list).0, m),
    decreases list.len(),
{
    if list.len() > 0 {
        lemma_entries_hold(m, peers, family, list.drop_last());
        lemma_entry_holds(entries_noted(m, peers, family, list.drop_last()).0, peers, family, list.last());
    }
}

proof fn lemma_table_holds(m: Families, peers: Seq<PeerView>, rec: Seq<u8>)
    ensures
        holds_all(table_noted(m, peers, rec).0, m),
{
    match rib_table(rec) {
        Some(Some(t)) => {
            lemma_entries_hold(m, peers, t.family, t.entries);
        },
        _ => {},
    }
}

proof fn lemma_routes_hold(m: Families, peer: PeerView, list: Seq<ExplodedView>)
    ensures
        holds_all(routes_noted(m, peer, list), m),
        forall|i: int|
            0 <= i < list.len() && (#[trigger] list[i]).path_id is Some && list[i].family.reemitted()
                ==> listed_families(routes_noted(m, peer, list), peer).contains(list[i].family),
    decreases list.len(),
{
    if list.len() > 0 {
        let rest = list.drop_last();
        let n = routes_noted(m, peer, rest);
        lemma_routes_hold(m, peer, rest);
        lemma_noted_holds(n, peer, list.last().family);
        assert forall|i: int| 0 <= i < list.len() && (#[trigger] list[i]).path_id is Some
            && list[i].family.reemitted() implies listed_families(routes_noted(m, peer, list), peer).contains(
            list[i].family,
        ) by {
            if i < rest.len() {
                assert(rest[i] == list[i]);
                assert(listed_families(n, peer).contains(list[i].family));
            }
        }
    }
}

proof fn lemma_record_holds(m: Families, rec: Seq<u8>)
    ensures
        holds_all(record_noted(m, rec).0, m),
{
    match message_of(rec) {
        Some(Bgp4MpView::Message { peer, path_ids, pdu }) => match update_routes(pdu, path_ids) {
            Some(Some((a, w))) => {
                lemma_routes_hold(m, peer, a);
                lemma_routes_hold(routes_noted(m, peer, a), peer, w);
            },
            _ => {},
        },
        _ => {},
    }
}

proof fn lemma_messages_hold(m: Families, recs: Seq<Seq<u8>>)
    ensures
        holds_all(messages_noted(m, recs).0, m),
    decreases recs.len(),
{
    if recs.len() > 0 {
        lemma_messages_hold(m, recs.drop_last());
        lemma_record_holds(messages_noted(m, recs.drop_last()).0, recs.last());
    }
}

/// Whether nothing is known yet of ids that were not handed out.
pub open spec fn ids_are_fresh(v: ImportView) -> bool {
    forall|id: IngressId| #[trigger] v.infos.contains_key(id) ==> id < v.next
}

/// Whether an ingress is that of a peer.
pub open spec fn is_at(v: ImportView, id: IngressId, peer: PeerView) -> bool {
    &&& v.infos.contains_key(id)
    &&& v.infos[id].remote_addr == Some((peer.0, peer.1))
    &&& v.infos[id].remote_asn == Some(peer.2)
}

/// Whether a step keeps the families, and the peers of all ingresses.
pub open spec fn keeps_peers(v: ImportView, w: ImportView) -> bool {
    &&& w.families == v.families
    &&& ids_are_fresh(w)
    &&& forall|id: IngressId, peer: PeerView| #[trigger] is_at(v, id, peer) ==> is_at(w, id, peer)
}

proof fn lemma_path_keeps(v: ImportView, id: IngressId, path_id: u32, family: AfiSafiType, peer: PeerView)
    requires
        ids_are_fresh(v),
        is_at(v, id, peer),
        family.reemitted() ==> listed_families(v.families, peer).contains(family),
    ensures
        keeps_peers(v, v.path_for(id, path_id, family).0),
{
    assert(peer == (peer.0, peer.1, peer.2));
    assert(v.noted(peer, family) == v);
    let n = v.noted_at(id, family);
    assert(keeps_peers(v, n));
    let w = v.path_for(id, path_id, family).0;
    assert(!n.infos.contains_key(n.next));
    assert forall|i: IngressId, p: PeerView| #[trigger] is_at(v, i, p) implies is_at(w, i, p) by {
        assert(is_at(n, i, p));
    }
}

proof fn lemma_peer_keeps(v: ImportView, parent: IngressId, peer: PeerView, file: Option<Seq<char>>)
    requires
        ids_are_fresh(v),
    ensures
        keeps_peers(v, v.peer_for(parent, peer, file).0),
        v.peer_for(parent, peer, file).1 matches Some(id) ==> is_at(v.peer_for(parent, peer, file).0, id, peer),
{
    match existing(v.infos, parent, peer) {
        Some(id) => {
            assert(crate::mrt_import::is_first_peer(v.infos, parent, peer, id));
        },
        None => {
            assert(!v.infos.contains_key(v.next));
        },
    }
}

/// Whether all ingresses are those of the peers.
pub open spec fn are_at(v: ImportView, ids: Seq<IngressId>, peers: Seq<PeerView>) -> bool {
    &&& ids.len() == peers.len()
    &&& forall|i: int| 0 <= i < ids.len() ==> is_at(v, #[trigger] ids[i], peers[i])
}

proof fn lemma_still_at(v: ImportView, w: ImportView, ids: Seq<IngressId>, peers: Seq<PeerView>)
    requires
        are_at(v, ids, peers),
        keeps_peers(v, w),
    ensures
        are_at(w, ids, peers),
{
    assert forall|i: int| 0 <= i < ids.len() implies is_at(w, #[trigger] ids[i], peers[i]) by {
        assert(is_at(v, ids[i], peers[i]));
    }
}

proof fn lemma_peers_keep(v: ImportView, parent: IngressId, peers: Seq<PeerView>, file: Option<Seq<char>>)
    requires
        ids_are_fresh(v),
    ensures
        keeps_peers(v, peers_for(v, parent, peers, file).0),
        peers_for(v, parent, peers, file).1 matches Some(ids) ==> are_at(
            peers_for(v, parent, peers, file).0,
            ids,
            peers,
        ),
    decreases peers.len(),
{
    if peers.len() > 0 {
        let rest = peers.drop_last();
        lemma_peers_keep(v, parent, rest, file);
        let (w, some) = peers_for(v, parent, rest, file);
        match some {
            Some(ids) => {
                lemma_peer_keeps(w, parent, peers.last(), file);
                let (x, id) = w.peer_for(parent, peers.last(), file);
                lemma_still_at(w, x, ids, rest);
                if let Some(id) = id {
                    let all = ids.push(id);
                    assert forall|i: int| 0 <= i < all.len() implies is_at(x, #[trigger] all[i], peers[i]) by {
                        if i < ids.len() {
                            assert(is_at(x, ids[i], rest[i]));
                        }
                    }
                }
                assert forall|i: IngressId, p: PeerView| #[trigger] is_at(v, i, p) implies is_at(x, i, p) by {
                    assert(is_at(w, i, p));
                }
            },
            None => {},
        }
    }
}

proof fn lemma_entries_keep(
    m: Families,
    v: ImportView,
    ids: Seq<IngressId>,
    peers: Seq<PeerView>,
    family: AfiSafiType,
    nlri: TableNlriView,
    list: Seq<EntryView>,
)
    requires
        ids_are_fresh(v),
        are_at(v, ids, peers),
        entries_noted(m, peers, family, list).1 is None,
        holds_all(v.families, entries_noted(m, peers, family, list).0),
    ensures
        keeps_peers(v, entries_told(v, ids, family, nlri, list).state),
    decreases list.len(),
{
    if list.len() > 0 {
        let rest = list.drop_last();
        let e = list.last();
        let n = entries_noted(m, peers, family, rest).0;
        lemma_entry_holds(n, peers, family, e);
        assert(holds_all(v.families, n)) by {
            assert forall|p: PeerView, f: AfiSafiType| #[trigger]
                listed_families(n, p).contains(f) implies listed_families(v.families, p).contains(f) by {
                assert(listed_families(entry_noted(n, peers, family, e).0, p).contains(f));
            }
        }
        lemma_entries_keep(m, v, ids, peers, family, nlri, rest);
        let o = entries_told(v, ids, family, nlri, rest);
        let w = o.state;
        lemma_still_at(v, w, ids, peers);
        match e.1 {
            Some(path_id) => {
                let peer = peers[e.0 as int];
                lemma_noted_holds(n, peer, family);
                assert(is_at(w, ids[e.0 as int], peer));
                if family.reemitted() {
                    assert(listed_families(noted_in(n, peer, family), peer).contains(family));
                }
                lemma_path_keeps(w, ids[e.0 as int], path_id, family, peer);
            },
            None => {},
        }
        let x = entries_told(v, ids, family, nlri, list).state;
        assert(keeps_peers(w, x));
        assert forall|i: IngressId, p: PeerView| #[trigger] is_at(v, i, p) implies is_at(x, i, p) by {
            assert(is_at(w, i, p));
        }
    }
}

/// What is held is held by whatever holds more.
proof fn lemma_holds_trans(a: Families, b: Families, c: Families)
    requires
        holds_all(a, b),
        holds_all(b, c),
    ensures
        holds_all(a, c),
{
    assert forall|p: PeerView, f: AfiSafiType| #[trigger] listed_families(c, p).contains(f) implies listed_families(
        a,
        p,
    ).contains(f) by {
        assert(listed_families(b, p).contains(f));
    }
}

proof fn lemma_keeps_trans(u: ImportView, v: ImportView, w: ImportView)
    requires
        keeps_peers(u, v),
        keeps_peers(v, w),
    ensures
        keeps_peers(u, w),
{
    assert forall|i: IngressId, p: PeerView| #[trigger] is_at(u, i, p) implies is_at(w, i, p) by {
        assert(is_at(v, i, p));
    }
}

proof fn lemma_tables_keep(
    m: Families,
    v: ImportView,
    ids: Seq<IngressId>,
    peers: Seq<PeerView>,
    recs: Seq<Seq<u8>>,
)
    requires
        ids_are_fresh(v),
        are_at(v, ids, peers),
        tables_noted(m, peers, recs).1 is None,
        holds_all(v.families, tables_noted(m, peers, recs).0),
    ensures
        keeps_peers(v, tables_told(v, ids, recs).state),
    decreases recs.len(),
{
    if recs.len() > 0 {
        let rest = recs.drop_last();
        let n = tables_noted(m, peers, rest).0;
        lemma_table_holds(n, peers, recs.last());
        lemma_holds_trans(v.families, table_noted(n, peers, recs.last()).0, n);
        lemma_tables_keep(m, v, ids, peers, rest);
        let w = tables_told(v, ids, rest).state;
        lemma_still_at(v, w, ids, peers);
        match rib_table(recs.last()) {
            Some(Some(t)) => {
                lemma_entries_keep(n, w, ids, peers, t.family, t.nlri, t.entries);
                lemma_keeps_trans(v, w, table_told(w, ids, recs.last()).state);
            },
            _ => {},
        }
    }
}

proof fn lemma_announced_keep(v: ImportView, id: IngressId, peer: PeerView, list: Seq<ExplodedView>)
    requires
        ids_are_fresh(v),
        is_at(v, id, peer),
        forall|i: int|
            0 <= i < list.len() && (#[trigger] list[i]).path_id is Some && list[i].family.reemitted()
                ==> listed_families(v.families, peer).contains(list[i].family),
    ensures
        keeps_peers(v, announced_by(v, id, list).0),
    decreases list.len(),
{
    if list.len() > 0 {
        let rest = list.drop_last();
        assert forall|i: int| 0 <= i < rest.len() && (#[trigger] rest[i]).path_id is Some
            && rest[i].family.reemitted() implies listed_families(v.families, peer).contains(rest[i].family) by {
            assert(rest[i] == list[i]);
        }
        lemma_announced_keep(v, id, peer, rest);
        let w = announced_by(v, id, rest).0;
        let e = list.last();
        assert(e == list[list.len() - 1]);
        match e.path_id {
            Some(p) => {
                lemma_path_keeps(w, id, p, e.family, peer);
                lemma_keeps_trans(v, w, w.path_for(id, p, e.family).0);
            },
            None => {},
        }
    }
}

/// What is picked from some routes is among them.
proof fn lemma_supported_among(list: Seq<ExplodedView>, i: int)
    requires
        0 <= i < supported(list).len(),
    ensures
        list.contains(supported(list)[i]),
    decreases list.len(),
{
    reveal(Seq::filter);
    let rest = list.drop_last();
    if i < supported(rest).len() {
        lemma_supported_among(rest, i);
        let j = choose|j: int| 0 <= j < rest.len() && rest[j] == supported(rest)[i];
        assert(list[j] == supported(list)[i]);
    } else {
        assert(list[list.len() - 1] == supported(list)[i]);
    }
}

proof fn lemma_record_keeps(m: Families, v: ImportView, parent: IngressId, rec: Seq<u8>)
    requires
        ids_are_fresh(v),
        record_noted(m, rec).1 is None,
        holds_all(v.families, record_noted(m, rec).0),
    ensures
        keeps_peers(v, record_told(v, parent, rec).state),
{
    match message_of(rec) {
        Some(Bgp4MpView::Message { peer, path_ids, pdu }) => match update_routes(pdu, path_ids) {
            Some(Some((a, w))) => {
                let list = supported(a);
                let n = routes_noted(m, peer, a);
                lemma_routes_hold(m, peer, a);
                lemma_routes_hold(n, peer, w);
                lemma_holds_trans(v.families, record_noted(m, rec).0, n);
                lemma_peer_keeps(v, parent, peer, None);
                match v.peer_for(parent, peer, None) {
                    (x, Some(id)) => {
                        assert forall|i: int| 0 <= i < list.len() && (#[trigger] list[i]).path_id is Some
                            && list[i].family.reemitted() implies listed_families(x.families, peer).contains(
                            list[i].family,
                        ) by {
                            lemma_supported_among(a, i);
                            let j = choose|j: int| 0 <= j < a.len() && a[j] == list[i];
                            assert(listed_families(n, peer).contains(a[j].family));
                        }
                        lemma_announced_keep(x, id, peer, list);
                        lemma_keeps_trans(v, x, announced_by(x, id, list).0);
                    },
                    _ => {},
                }
            },
            _ => {},
        },
        _ => {},
    }
}

proof fn lemma_messages_keep(m: Families, v: ImportView, parent: IngressId, recs: Seq<Seq<u8>>)
    requires
        ids_are_fresh(v),
        messages_noted(m, recs).1 is None,
        holds_all(v.families, messages_noted(m, recs).0),
    ensures
        keeps_peers(v, messages_told(v, parent, recs).state),
    decreases recs.len(),
{
    if recs.len() > 0 {
        let rest = recs.drop_last();
        let n = messages_noted(m, rest).0;
        lemma_record_holds(n, recs.last());
        lemma_holds_trans(v.families, record_noted(n, recs.last()).0, n);
        lemma_messages_keep(m, v, parent, rest);
        let w = messages_told(v, parent, rest).state;
        lemma_record_keeps(n, w, parent, recs.last());
        lemma_keeps_trans(v, w, record_told(w, parent, recs.last()).state);
    }
}

/// Once a file has been looked through, reading it finds no family in which a
/// peer uses path ids that was not known before the first of its routes: what
/// is told of a peer when it appears stays true.
pub proof fn a_first_look_finds_all_families(
    m: Families,
    v: ImportView,
    parent: IngressId,
    raw: Seq<u8>,
    file: Seq<char>,
)
    requires
        ids_are_fresh(v),
        preflighted(m, raw).1 is None,
        holds_all(v.families, preflighted(m, raw).0),
    ensures
        file_told(v, parent, raw, file).state.families == v.families,
{
    let recs = records(raw);
    let rib = rib_records(recs);
    picked_records_make_up_a_file(raw);
    if joined(rib).len() == 0 {
        lemma_messages_keep(m, v, parent, recs);
    } else {
        match peer_index(joined(rib)) {
            Some(peers) => {
                let n = tables_noted(m, peers, rib).0;
                lemma_messages_hold(n, recs);
                lemma_holds_trans(v.families, messages_noted(n, recs).0, n);
                lemma_peers_keep(v, parent, peers, Some(file));
                let (w, some) = peers_for(v, parent, peers, Some(file));
                match some {
                    Some(ids) => {
                        lemma_tables_keep(m, w, ids, peers, rib);
                        let o = tables_told(w, ids, rib);
                        lemma_messages_keep(n, o.state, parent, recs);
                    },
                    None => {},
                }
            },
            None => {},
        }
    }
}

} // verus!
