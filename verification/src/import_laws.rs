//! Laws of what is imported: how peers and paths of files are registered, in
//! which families they are known to use path ids, and which routes are sent
//! on.
use vstd::prelude::*;

use crate::bmp_builder::nlri_bytes;
use crate::explode::ExplodedView;
use crate::ingress::{InfoView, IngressInfo};
use crate::mrt_attrs::{full_reach, is_short_reach, normalized, reach_attr};
use crate::mrt_file::{entry_attrs, supported};
use crate::mrt_format::{is_rib_record, rib_records, PeerView, TableNlriView};
use crate::mrt_import::{
    encoded, existing, is_first_peer, is_mrt_peer, lemma_existing, lemma_first_exists, noted_in, ImportView,
};
use crate::mrt_source::{bunzipped, gunzipped, unpacked};
use crate::pamap::attr_extent;
use crate::register::{is_disconnected, retirable, session_of};
use crate::types::{valid_key, AfiSafiType, IngressId, IngressState, IngressType, PrefixKey};

verus! {

/// Whether an ingress is registered as a peer of the files that another one
/// reads: with that one for its parent, and with the address and the AS number
/// of the peer.
pub open spec fn is_peer_of(info: InfoView, parent: IngressId, peer: PeerView) -> bool {
    &&& info.ingress_type == Some(IngressType::Mrt)
    &&& info.parent_ingress == Some(parent)
    &&& info.remote_addr == Some((peer.0, peer.1))
    &&& info.remote_asn == Some(peer.2)
}

/// A peer that is not known is registered under the next id, as the file tells
/// of it.
pub proof fn a_new_peer_is_registered_as_told(
    v: ImportView,
    parent: IngressId,
    peer: PeerView,
    file: Option<Seq<char>>,
)
    requires
        v.next < u32::MAX,
        !v.infos.contains_key(v.next),
        forall|id: IngressId| #[trigger] v.infos.contains_key(id) ==> !is_peer_of(v.infos[id], parent, peer),
    ensures
        ({
            let (w, r) = v.peer_for(parent, peer, file);
            &&& r == Some(v.next)
            &&& w.next == v.next + 1
            &&& w.infos.contains_key(v.next)
            &&& is_peer_of(w.infos[v.next], parent, peer)
            &&& w.infos[v.next].filename == file
            &&& w.infos[v.next].path_id is None
            &&& w.infos[v.next].state is None
            &&& w.infos[v.next].bgp_id is None
            &&& forall|id: IngressId|
                id != v.next ==> (#[trigger] w.infos.contains_key(id) == v.infos.contains_key(id)) && w.infos[id]
                    == v.infos[id]
        }),
{
    assert(existing(v.infos, parent, peer) is None) by {
        if existing(v.infos, parent, peer) is Some {
            let id = choose|id: IngressId| is_first_peer(v.infos, parent, peer, id);
            assert(is_first_peer(v.infos, parent, peer, id));
            assert(v.infos.contains_key(id));
        }
    }
}

/// A peer that is known keeps its ingress, and nothing that is known of it is
/// lost; the file that it was last read from is noted.
pub proof fn a_known_peer_is_found(
    v: ImportView,
    parent: IngressId,
    peer: PeerView,
    file: Option<Seq<char>>,
    known: IngressId,
)
    requires
        v.infos.contains_key(known),
        is_peer_of(v.infos[known], parent, peer),
    ensures
        ({
            let (w, r) = v.peer_for(parent, peer, file);
            &&& r matches Some(id) && {
                &&& id <= known
                &&& v.infos.contains_key(id)
                &&& is_peer_of(v.infos[id], parent, peer)
                &&& is_peer_of(w.infos[id], parent, peer)
                &&& w.infos[id].bgp_id == v.infos[id].bgp_id
                &&& w.infos[id].state == v.infos[id].state
                &&& file is Some ==> w.infos[id].filename == file
                &&& file is None ==> w.infos[id].filename == v.infos[id].filename
            }
            &&& w.next == v.next
        }),
{
    lemma_first_exists(v.infos, parent, peer, known);
    let id = choose|id: IngressId| is_first_peer(v.infos, parent, peer, id);
    assert(is_first_peer(v.infos, parent, peer, id));
    lemma_existing(v.infos, parent, peer, id);
    assert(is_mrt_peer(v.infos[known], parent, peer));
}

/// A path that is not known is registered under the next id: as a path of its
/// peer, with its path id, and with what is known of the peer.
pub proof fn a_new_path_is_registered_under_its_peer(
    v: ImportView,
    parent: IngressId,
    path_id: u32,
    family: AfiSafiType,
)
    requires
        v.next < u32::MAX,
        parent < v.next,
        v.infos.contains_key(parent),
        !v.infos.contains_key(v.next),
        !v.children.contains_key((parent, path_id)),
    ensures
        ({
            let (w, r) = v.path_for(parent, path_id, family);
            let info = w.infos[v.next];
            let of = v.infos[parent];
            &&& r == Some(v.next)
            &&& w.next == v.next + 1
            &&& w.children.contains_key((parent, path_id))
            &&& w.children[(parent, path_id)] == v.next
            &&& w.infos.contains_key(v.next)
            &&& info.ingress_type == Some(IngressType::BgpPath)
            &&& info.parent_ingress == Some(parent)
            &&& info.path_id == Some(path_id)
            &&& info.state == Some(IngressState::NonNetwork)
            &&& info.remote_addr == of.remote_addr
            &&& info.remote_asn == of.remote_asn
            &&& info.bgp_id == of.bgp_id
            &&& info.filename == of.filename
        }),
{
}

/// Each family is written with four octets: its two numbers, and that path ids
/// go both ways.
pub proof fn families_are_written_with_four_octets(families: Seq<AfiSafiType>)
    ensures
        encoded(families).len() == 4 * families.len(),
        forall|i: int| 0 <= i < families.len() ==> stands_at(encoded(families), i, #[trigger] families[i]),
    decreases families.len(),
{
    if families.len() > 0 {
        let rest = families.drop_last();
        families_are_written_with_four_octets(rest);
        let s = encoded(families);
        let t = encoded(rest);
        assert forall|i: int| 0 <= i < families.len() implies stands_at(s, i, #[trigger] families[i]) by {
            if i < rest.len() {
                assert(stands_at(t, i, rest[i]));
                assert(s[4 * i] == t[4 * i] && s[4 * i + 1] == t[4 * i + 1] && s[4 * i + 2] == t[4 * i + 2] && s[4 * i
                    + 3] == t[4 * i + 3]);
            } else {
                let (afi, safi) = families.last().pair();
                assert(s[4 * i] == afi as int / 256 && s[4 * i + 1] == afi as int % 256);
                assert(s[4 * i + 2] == safi && s[4 * i + 3] == 3);
            }
        }
    }
}

/// Whether four octets stand for a family with path ids both ways.
pub open spec fn stands_at(s: Seq<u8>, i: int, family: AfiSafiType) -> bool {
    &&& s[4 * i + 3] == 3
    &&& match family {
        AfiSafiType::Ipv4Unicast => s[4 * i] == 0 && s[4 * i + 1] == 1 && s[4 * i + 2] == 1,
        AfiSafiType::Ipv6Unicast => s[4 * i] == 0 && s[4 * i + 1] == 2 && s[4 * i + 2] == 1,
        AfiSafiType::Ipv4Multicast => s[4 * i] == 0 && s[4 * i + 1] == 1 && s[4 * i + 2] == 2,
        AfiSafiType::Ipv6Multicast => s[4 * i] == 0 && s[4 * i + 1] == 2 && s[4 * i + 2] == 2,
        AfiSafiType::Ipv4FlowSpec => s[4 * i] == 0 && s[4 * i + 1] == 1 && s[4 * i + 2] == 133,
        AfiSafiType::Ipv6FlowSpec => s[4 * i] == 0 && s[4 * i + 1] == 2 && s[4 * i + 2] == 133,
        AfiSafiType::L2VpnEvpn => s[4 * i] == 0 && s[4 * i + 1] == 25 && s[4 * i + 2] == 70,
        AfiSafiType::Unsupported(afi, safi) => s[4 * i] * 256 + s[4 * i + 1] == afi && s[4 * i + 2] == safi,
    }
}

/// Whether routes of a family are sent on: unicast and EVPN routes, and
/// FlowSpec rules.
pub open spec fn goes_on(family: AfiSafiType) -> bool {
    family is Ipv4Unicast || family is Ipv6Unicast || family is Ipv4FlowSpec || family is Ipv6FlowSpec
        || family is L2VpnEvpn
}

/// It is noted once that a peer uses path ids in a family, if routes of that
/// family are sent on; nothing is noted of others.
pub proof fn a_family_with_path_ids_is_noted_once(
    m: Map<PeerView, Seq<AfiSafiType>>,
    peer: PeerView,
    family: AfiSafiType,
    other: PeerView,
)
    ensures
        ({
            let w = noted_in(m, peer, family);
            let before = if m.contains_key(peer) { m[peer] } else { Seq::empty() };
            &&& goes_on(family) ==> w.contains_key(peer) && w[peer].contains(family)
            &&& goes_on(family) && !before.contains(family) ==> w[peer] == before.push(family)
            &&& !goes_on(family) || before.contains(family) ==> w == m
            &&& other != peer ==> (w.contains_key(other) == m.contains_key(other)) && w[other] == m[other]
        }),
{
    let before = if m.contains_key(peer) { m[peer] } else { Seq::empty() };
    assert(before.push(family)[before.len() as int] == family);
}

/// Of the routes of an UPDATE just those of families that are sent on count.
pub proof fn routes_that_are_sent_on_count(list: Seq<ExplodedView>, e: ExplodedView)
    ensures
        supported(list).contains(e) <==> list.contains(e) && goes_on(e.family),
{
    let p = |e: ExplodedView| e.family.reemitted();
    assert(supported(list) == list.filter(p));
    if list.contains(e) && goes_on(e.family) {
        let i = choose|i: int| 0 <= i < list.len() && list[i] == e;
        assert(p(list[i]));
        list.lemma_filter_contains(p, i);
    }
    if supported(list).contains(e) {
        broadcast use vstd::seq_lib::group_filter_ensures;

        list.lemma_filter_contains_rev(p, e);
        let i = choose|i: int| 0 <= i < list.filter(p).len() && list.filter(p)[i] == e;
        assert(p(list.filter(p)[i]));
    }
}

/// A file is unpacked by the extension of its name, and left as it is without
/// one of the two that are known.
pub proof fn a_file_is_unpacked_by_its_extension(data: Seq<u8>, extension: Seq<char>)
    ensures
        extension == seq!['g', 'z'] ==> unpacked(data, Some(extension)) == gunzipped(data),
        extension == seq!['b', 'z', '2'] ==> unpacked(data, Some(extension)) == bunzipped(data),
        extension != seq!['g', 'z'] && extension != seq!['b', 'z', '2'] ==> unpacked(data, Some(extension)) == Some(data),
        unpacked(data, None) == Some(data),
{
    reveal_strlit("gz");
    reveal_strlit("bz2");
    assert("gz"@ =~= seq!['g', 'z']);
    assert("bz2"@ =~= seq!['b', 'z', '2']);
}

/// The records of a table dump are told by the two numbers of their header:
/// the peers, the four tables of prefixes, rules and what else comes with its
/// family, and those of them that may have path ids, but for multicast ones.
pub proof fn table_records_are_told_by_their_numbers(rec: Seq<u8>)
    ensures
        is_rib_record(rec) <==> rec[4] == 0 && rec[5] == 13 && rec[6] == 0 && (rec[7] == 1 || rec[7] == 2 || rec[7] == 3
            || rec[7] == 4 || rec[7] == 5 || rec[7] == 6 || rec[7] == 8 || rec[7] == 10 || rec[7] == 12),
{
}

/// Those records of a file, and no others, make up its table dump.
pub proof fn a_table_dump_has_its_records(recs: Seq<Seq<u8>>, rec: Seq<u8>)
    ensures
        rib_records(recs).contains(rec) <==> recs.contains(rec) && is_rib_record(rec),
{
    let p = |r: Seq<u8>| is_rib_record(r);
    assert(rib_records(recs) == recs.filter(p));
    if recs.contains(rec) && is_rib_record(rec) {
        let i = choose|i: int| 0 <= i < recs.len() && recs[i] == rec;
        assert(p(recs[i]));
        recs.lemma_filter_contains(p, i);
    }
    if rib_records(recs).contains(rec) {
        broadcast use vstd::seq_lib::group_filter_ensures;

        recs.lemma_filter_contains_rev(p, rec);
        let i = choose|i: int| 0 <= i < recs.filter(p).len() && recs.filter(p)[i] == rec;
        assert(p(recs.filter(p)[i]));
    }
}

/// The attribute that a table dump stores short is written out with the two
/// numbers of its family, the next hop that it has, and the NLRI.
pub proof fn a_short_attribute_is_written_out(value: Seq<u8>, afi: u16, safi: u8, nlri: Seq<u8>)
    requires
        value.len() > 0,
        value.len() >= 1 + value[0],
    ensures
        ({
            let v = full_reach(value, afi, safi, nlri);
            let n = value[0] as int;
            &&& is_short_reach(value)
            &&& v.len() == 5 + n + nlri.len()
            &&& v[0] * 256 + v[1] == afi
            &&& v[2] == safi
            &&& v[3] == n
            &&& v.subrange(4, 4 + n) == value.subrange(1, 1 + n)
            &&& v[4 + n] == 0
            &&& v.skip(5 + n) == nlri
        }),
{
    let v = full_reach(value, afi, safi, nlri);
    let n = value[0] as int;
    assert(v.subrange(4, 4 + n) =~= value.subrange(1, 1 + n));
    assert(v.skip(5 + n) =~= nlri);
}

/// A path is retired only while it is connected and nothing came of it; an
/// ingress is forgotten only if it is disconnected; and a path belongs to the
/// session that it is of.
pub proof fn ingresses_are_told_by_what_is_registered(
    infos: Map<IngressId, IngressInfo>,
    id: IngressId,
    activity: u64,
)
    requires
        infos.contains_key(id),
    ensures
        ({
            let info = infos[id];
            let path = info.ingress_type == Some(IngressType::BgpPath);
            &&& retirable(infos, id, activity) <==> path && info.state == Some(IngressState::Connected)
                && info.path_activity == activity
            &&& is_disconnected(infos, id) <==> info.state == Some(IngressState::Disconnected)
            &&& path && info.parent_ingress is Some ==> Some(session_of(infos, id)) == info.parent_ingress
            &&& !path || info.parent_ingress is None ==> session_of(infos, id) == id
        }),
{
}

/// The next hop that a table dump stores for an IPv6 prefix goes on in an
/// attribute that names the family of the table and the prefix.
#[verifier::spinoff_prover]
#[verifier::rlimit(30)]
pub proof fn a_stored_next_hop_goes_on_with_its_family(
    family: AfiSafiType,
    k: PrefixKey,
    flags: u8,
    hop: Seq<u8>,
    attr: Seq<u8>,
)
    requires
        family is Ipv6Unicast || family is Ipv6Multicast,
        valid_key(k),
        !k.0,
        hop.len() <= 200,
        flags & 0x10u8 == 0,
        attr == seq![flags, 14u8, (hop.len() + 1) as u8, hop.len() as u8] + hop,
    ensures
        entry_attrs(family, TableNlriView::Prefix(k), attr) == seq![
            flags,
            14u8,
            (5 + hop.len() + 1 + (k.2 + 7) / 8) as u8,
            0u8,
            2u8,
            if family is Ipv6Unicast { 1u8 } else { 2u8 },
            hop.len() as u8,
        ] + hop + seq![0u8, k.2] + k.1.take((k.2 + 7) / 8),
{
    let value = seq![hop.len() as u8] + hop;
    let safi: u8 = if family is Ipv6Unicast { 1 } else { 2 };
    let n = (k.2 + 7) / 8;
    let nlri = nlri_bytes(k, None);
    assert(nlri =~= seq![k.2] + k.1.take(n));
    assert(attr_extent(attr) == Some((3int, attr.len() as int)));
    assert(attr.take(attr.len() as int) =~= attr);
    assert(attr.skip(3) =~= value);
    assert(attr.skip(attr.len() as int) =~= Seq::<u8>::empty());
    let full = full_reach(value, 2, safi, nlri);
    assert(value.subrange(1, 1 + value[0]) =~= hop);
    assert(flags & !0x10u8 == flags) by (bit_vector)
        requires
            flags & 0x10u8 == 0,
    ;
    assert(full.len() == 5 + hop.len() + 1 + n);
    reveal_with_fuel(normalized, 2);
    let r = normalized(attr, 2, safi, nlri);
    assert(r =~= reach_attr(flags, full));
    assert(full =~= seq![0u8, 2u8, safi, hop.len() as u8] + hop + seq![0u8, k.2] + k.1.take(n));
    assert(reach_attr(flags, full) =~= seq![flags, 14u8, full.len() as u8] + full);
}

/// The attributes of other entries go on as they are stored.
pub proof fn other_attributes_go_on_as_they_are(family: AfiSafiType, nlri: TableNlriView, attrs: Seq<u8>)
    requires
        !(family is Ipv6Unicast || family is Ipv6Multicast),
    ensures
        entry_attrs(family, nlri, attrs) == attrs,
{
}

} // verus!
