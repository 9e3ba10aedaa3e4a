//! What a receiver reads of a peer out of the messages about it.
use vstd::prelude::*;
use vstd::utf8::*;

use crate::bmp_builder::{
    addpath_value, addr16_bytes, describes, fan_in_number, peer_down_bytes, peer_up_bytes, per_peer_header_with,
    raw_route_monitoring_bytes, received_open, route_monitoring_bytes, same_peer, sent_open, statistics_report_bytes,
    PeerInfo, Timestamp,
};
use crate::client::{shown_peer, EmitOptions};
use crate::client_dump::initiation_bytes;
use crate::ingress::IngressInfo;
use crate::types::{IngressId, IngressType, IpAddress, PeerRibType, PeerType};
use crate::wire::{be16, be32, be64, bmp_length_field_is_message_length, lemma_be32_roundtrip, zeros};

verus! {

/// The number in four octets of a message.
pub open spec fn four(b: Seq<u8>, at: int) -> int {
    b[at] * 16777216 + b[at + 1] * 65536 + b[at + 2] * 256 + b[at + 3]
}

/// Whether sixteen octets from one on are an address: all of one of IPv6, or
/// twelve zeros and then one of IPv4.
#[verifier::opaque]
pub open spec fn reads_addr(b: Seq<u8>, at: int, a: IpAddress) -> bool {
    match a {
        IpAddress::V4(o) => b.subrange(at, at + 12) == zeros(12) && b.subrange(at + 12, at + 16) == o@,
        IpAddress::V6(o) => b.subrange(at, at + 16) == o@,
    }
}

/// Whether a message has the headers of a BMP message of a type about a peer
/// and of a time: version 3, the length of all, the type; and then the type of
/// the peer, the flags, the distinguisher, the address, the AS number, the BGP
/// id, and the time.
#[verifier::opaque]
pub open spec fn is_headed(b: Seq<u8>, ty: u8, peer: PeerInfo, flags: u8, at: Timestamp) -> bool {
    &&& b.len() >= 48
    &&& b[0] == 3
    &&& b.len() <= u32::MAX ==> four(b, 1) == b.len()
    &&& b[5] == ty
    &&& b[6] == (match peer.peer_type {
        PeerType::GlobalInstance => 0,
        PeerType::RdInstance => 1,
        PeerType::LocalInstance => 2,
        PeerType::LocalRibInstance => 3,
        PeerType::Unimplemented(n) => n,
    })
    &&& b[7] == flags
    &&& b.subrange(8, 16) == peer.peer_distinguisher@
    &&& reads_addr(b, 16, peer.peer_address)
    &&& four(b, 32) == peer.peer_asn
    &&& b.subrange(36, 40) == peer.peer_bgp_id@
    &&& four(b, 40) == at.0
    &&& four(b, 44) == at.1
}

/// A message about a peer is headed as one, and what follows the headers is
/// what it was made of.
proof fn lemma_headed(ty: u8, peer: PeerInfo, flags: u8, at: Timestamp, rest: Seq<u8>, b: Seq<u8>)
    requires
        b == crate::wire::bmp_message_bytes(ty, per_peer_header_with(peer, flags, at) + rest),
    ensures
        is_headed(b, ty, peer, flags, at),
        b.skip(48) == rest,
{
    reveal(is_headed);
    reveal(reads_addr);
    let h = per_peer_header_with(peer, flags, at);
    let a = addr16_bytes(peer.peer_address);
    assert(a.len() == 16);
    assert(h.len() == 42);
    assert(b.skip(48) =~= rest);
    lemma_be32_roundtrip(peer.peer_asn as int);
    lemma_be32_roundtrip(at.0 as int);
    lemma_be32_roundtrip(at.1 as int);
    assert(b.subrange(8, 16) =~= peer.peer_distinguisher@);
    assert(b.subrange(36, 40) =~= peer.peer_bgp_id@);
    assert(b[32] == be32(peer.peer_asn as int)[0] && b[33] == be32(peer.peer_asn as int)[1]);
    assert(b[34] == be32(peer.peer_asn as int)[2] && b[35] == be32(peer.peer_asn as int)[3]);
    assert(b[40] == be32(at.0 as int)[0] && b[41] == be32(at.0 as int)[1]);
    assert(b[42] == be32(at.0 as int)[2] && b[43] == be32(at.0 as int)[3]);
    assert(b[44] == be32(at.1 as int)[0] && b[45] == be32(at.1 as int)[1]);
    assert(b[46] == be32(at.1 as int)[2] && b[47] == be32(at.1 as int)[3]);
    match peer.peer_address {
        IpAddress::V4(o) => {
            assert(b.subrange(16, 28) =~= zeros(12));
            assert(b.subrange(28, 32) =~= o@);
        },
        IpAddress::V6(o) => {
            assert(b.subrange(16, 32) =~= o@);
        },
    }
    if b.len() <= u32::MAX {
        bmp_length_field_is_message_length(ty, h + rest);
    }
}

/// A route monitoring message is of type 0, and holds just the UPDATE.
pub proof fn a_route_monitoring_message_is_read_back(peer: PeerInfo, at: Timestamp, update: Seq<u8>)
    ensures
        is_headed(route_monitoring_bytes(peer, at, update), 0, peer, peer.peer_flags, at),
        route_monitoring_bytes(peer, at, update).skip(48) == update,
{
    lemma_headed(0, peer, peer.peer_flags, at, update, route_monitoring_bytes(peer, at, update));
}

/// A statistics report is of type 1, and holds just the counters.
pub proof fn a_statistics_report_is_read_back(peer: PeerInfo, body: Seq<u8>, at: Timestamp)
    ensures
        is_headed(statistics_report_bytes(peer, body, at), 1, peer, peer.peer_flags, at),
        statistics_report_bytes(peer, body, at).skip(48) == body,
{
    lemma_headed(1, peer, peer.peer_flags, at, body, statistics_report_bytes(peer, body, at));
}

/// A Peer Down is of type 2, and gives as its reason that the remote end
/// closed without a notification.
pub proof fn a_peer_down_is_read_back(peer: PeerInfo, at: Timestamp)
    ensures
        is_headed(peer_down_bytes(peer, at), 2, peer, peer.peer_flags, at),
        peer_down_bytes(peer, at).skip(48) == seq![4u8],
{
    lemma_headed(2, peer, peer.peer_flags, at, seq![4u8], peer_down_bytes(peer, at));
}

/// A Peer Up is of type 3 and of the time when the session came up, where that
/// is known. It tells the local address and port 179 of the remote end, and
/// holds the OPEN that was sent and the one that was received.
pub proof fn a_peer_up_is_read_back(peer: PeerInfo, restart: bool, now: Timestamp)
    ensures
        ({
            let b = peer_up_bytes(peer, restart, now);
            let (sent, received) = (sent_open(peer, restart), received_open(peer, restart));
            &&& peer.session_up_time matches Some(t) ==> is_headed(b, 3, peer, peer.peer_flags, t)
            &&& peer.session_up_time is None ==> is_headed(b, 3, peer, peer.peer_flags, now)
            &&& b.len() >= 68 + sent.len() + received.len()
            &&& reads_addr(b, 48, peer.local_addr)
            &&& b[64] == 0 && b[65] == 0
            &&& b[66] == 0 && b[67] == 179
            &&& b.subrange(68, 68int + sent.len()) == sent
            &&& b.subrange(68int + sent.len(), 68int + sent.len() + received.len()) == received
        }),
{
    let b = peer_up_bytes(peer, restart, now);
    let (sent, received) = (sent_open(peer, restart), received_open(peer, restart));
    let at = match peer.session_up_time {
        Some(t) => t,
        None => now,
    };
    let tail = crate::bmp_builder::admin_label_tlv(peer.admin_label);
    let rest = addr16_bytes(peer.local_addr) + be16(0) + be16(179) + sent + received + tail;
    lemma_headed(3, peer, peer.peer_flags, at, rest, b);
    lemma_up_rest(peer.local_addr, sent, received, tail, b);
}

proof fn lemma_up_rest(local: IpAddress, sent: Seq<u8>, received: Seq<u8>, tail: Seq<u8>, b: Seq<u8>)
    requires
        b.len() >= 48,
        b.skip(48) == addr16_bytes(local) + be16(0) + be16(179) + sent + received + tail,
    ensures
        b.len() >= 68 + sent.len() + received.len(),
        reads_addr(b, 48, local),
        b[64] == 0 && b[65] == 0,
        b[66] == 0 && b[67] == 179,
        b.subrange(68, 68int + sent.len()) == sent,
        b.subrange(68int + sent.len(), 68int + sent.len() + received.len()) == received,
{
    reveal(reads_addr);
    let a = addr16_bytes(local);
    let rest = a + be16(0) + be16(179) + sent + received + tail;
    assert(a.len() == 16);
    let n = sent.len() as int;
    let m = received.len() as int;
    assert(b.len() == 48 + rest.len());
    assert(b.skip(48)[16] == b[64] && b.skip(48)[17] == b[65] && b.skip(48)[18] == b[66] && b.skip(48)[19] == b[67]);
    assert(b.subrange(68, 68 + n) =~= b.skip(48).subrange(20, 20 + n));
    assert(rest.subrange(20, 20 + n) =~= sent);
    assert(b.subrange(68 + n, 68 + n + m) =~= b.skip(48).subrange(20 + n, 20 + n + m));
    assert(rest.subrange(20 + n, 20 + n + m) =~= received);
    match local {
        IpAddress::V4(o) => {
            assert(b.subrange(48, 60) =~= b.skip(48).subrange(0, 12));
            assert(b.subrange(60, 64) =~= b.skip(48).subrange(12, 16));
            assert(rest.subrange(0, 12) =~= zeros(12));
            assert(rest.subrange(12, 16) =~= o@);
        },
        IpAddress::V6(o) => {
            assert(b.subrange(48, 64) =~= b.skip(48).subrange(0, 16));
            assert(rest.subrange(0, 16) =~= o@);
        },
    }
}

/// A route monitoring message that is handed on has the header of its peer,
/// the time that it came with and the UPDATE that it came with, and says that
/// AS paths have two octets just where it said so before.
pub proof fn a_message_is_handed_on_as_it_came(peer: PeerInfo, body: Seq<u8>)
    requires
        body.len() >= 42,
    ensures
        ({
            let b = raw_route_monitoring_bytes(peer, body);
            &&& is_headed(
                b,
                0,
                peer,
                peer.peer_flags | (body[1] & 0x20u8),
                (four(body, 34) as u32, four(body, 38) as u32),
            )
            &&& b.skip(48) == body.skip(42)
        }),
{
    let b = raw_route_monitoring_bytes(peer, body);
    lemma_headed(
        0,
        peer,
        peer.peer_flags | (body[1] & 0x20u8),
        (crate::wire::get32(body, 34) as u32, crate::wire::get32(body, 38) as u32),
        body.skip(42),
        b,
    );
}

/// Whether what messages tell of a peer is what is registered of its ingress:
/// the address, the AS number, the BGP id, the local address, the type, the
/// table that the flags tell, and the distinguisher, unless it tells the
/// router.
#[verifier::opaque]
pub open spec fn is_told_as_registered(info: IngressInfo, options: EmitOptions, peer: PeerInfo) -> bool {
    let none = Seq::new(4, |i: int| 0u8);
    &&& info.remote_addr matches Some(a) ==> peer.peer_address == a
    &&& info.remote_addr is None ==> peer.peer_address is V4 && peer.peer_address.octets() == none
    &&& info.remote_asn matches Some(n) ==> peer.peer_asn == n
    &&& info.remote_asn is None ==> peer.peer_asn == 0
    &&& info.bgp_id matches Some(d) ==> peer.peer_bgp_id == d
    &&& info.bgp_id is None ==> peer.peer_bgp_id@ == none
    &&& info.local_addr matches Some(a) ==> peer.local_addr == a
    &&& info.local_addr is None ==> peer.local_addr is V4 && peer.local_addr.octets() == none
    &&& info.peer_type matches Some(t) ==> peer.peer_type == t
    &&& info.peer_type is None ==> peer.peer_type is GlobalInstance
    &&& info.session_up_time == peer.session_up_time
    &&& info.peer_hostname == peer.peer_hostname
    &&& info.peer_software_version == peer.peer_software_version
    &&& info.peer_role == peer.peer_role
    &&& peer.peer_capabilities@ == (match info.remote_capabilities {
        Some(c) => c@,
        None => Seq::empty(),
    }) + (if info.ingress_type == Some(IngressType::Mrt) {
        seq![1u8, 4u8, 0u8, 2u8, 0u8, 1u8] + seq![1u8, 4u8, 0u8, 1u8, 0u8, 133u8] + seq![
            1u8,
            4u8,
            0u8,
            2u8,
            0u8,
            133u8,
        ]
    } else {
        Seq::empty()
    })
    &&& !options.forward_router_info || info.parent_ingress is None ==> peer.admin_label is None
    &&& (peer.peer_flags >= 128) == (peer.peer_address is V6)
    &&& {
        let low = peer.peer_flags % 128;
        &&& info.peer_rib_type == Some(PeerRibType::InPre) ==> low == 0
        &&& info.peer_rib_type == Some(PeerRibType::InPost) ==> low == 64
        &&& info.peer_rib_type == Some(PeerRibType::OutPre) ==> low == 16
        &&& info.peer_rib_type == Some(PeerRibType::OutPost) ==> low == 80
        &&& info.peer_rib_type == Some(PeerRibType::Loc) ==> low == 64
        &&& info.peer_rib_type is None ==> low == 64
    }
    &&& info.distinguisher matches Some(d) ==> (exists|i: int| 0 <= i < 8 && #[trigger] d@[i] != 0)
        ==> peer.peer_distinguisher@ == d@
    &&& options.fan_in_peer_distinguisher is Off || info.parent_ingress is None ==> {
        &&& info.distinguisher matches Some(d) ==> peer.peer_distinguisher@ == d@
        &&& info.distinguisher is None ==> peer.peer_distinguisher@ == zeros(8)
    }
    &&& options.fan_in_peer_distinguisher is IngressHash ==> (info.parent_ingress matches Some(p)
        ==> info.distinguisher is None ==> peer.peer_distinguisher@ == be64(fan_in_number(p) as int))
}

/// What messages tell of a peer is what is registered of its ingress.
pub proof fn a_peer_is_told_as_it_is_registered(
    infos: Map<IngressId, IngressInfo>,
    id: IngressId,
    options: EmitOptions,
    peer: PeerInfo,
)
    requires
        shown_peer(infos, id, options, peer),
    ensures
        infos.contains_key(id),
        is_told_as_registered(infos[id], options, peer),
{
    reveal(is_told_as_registered);
    let info = infos[id];
    let own = choose|own: PeerInfo|
        {
            &&& #[trigger] describes(info, own)
            &&& same_peer(
                peer,
                (PeerInfo { admin_label: peer.admin_label, peer_distinguisher: peer.peer_distinguisher, ..own }),
            )
            &&& crate::text::opt_text(peer.admin_label) == crate::emit::label_of(infos, info, options.forward_router_info)
            &&& peer.peer_distinguisher@ == crate::emit::stamped(
                info,
                options.fan_in_peer_distinguisher,
                own.peer_distinguisher@,
            )
        };
    assert(zeros(4) =~= Seq::new(4, |i: int| 0u8));
    assert(crate::bmp_builder::mrt_caps() =~= seq![1u8, 4u8, 0u8, 2u8, 0u8, 1u8] + seq![1u8, 4u8, 0u8, 1u8, 0u8, 133u8]
        + seq![1u8, 4u8, 0u8, 2u8, 0u8, 133u8]);
    match info.distinguisher {
        Some(d) => {
            if exists|i: int| 0 <= i < 8 && #[trigger] d@[i] != 0 {
                let i = choose|i: int| 0 <= i < 8 && #[trigger] d@[i] != 0;
                assert(zeros(8)[i] == 0);
                assert(d@ != zeros(8));
            }
        },
        None => {},
    }
}

/// The first message names the sender: it is of version three, tells its own
/// length, and holds the description and then the name of the system.
pub proof fn an_initiation_message_is_read_back(sys_name: Seq<char>, sys_descr: Seq<char>)
    requires
        encode_utf8(sys_name).len() < 65536,
        encode_utf8(sys_descr).len() < 65536,
    ensures
        ({
            let m = initiation_bytes(sys_name, sys_descr);
            let d = encode_utf8(sys_descr);
            let n = encode_utf8(sys_name);
            &&& m.len() == 14 + d.len() + n.len()
            &&& m[0] == 3
            &&& m[1] * 16777216 + m[2] * 65536 + m[3] * 256 + m[4] == m.len()
            &&& m[5] == 4
            &&& m[6] * 256 + m[7] == 1
            &&& m[8] * 256 + m[9] == d.len()
            &&& m.subrange(10, 10int + d.len()) == d
            &&& m[10int + d.len()] * 256 + m[11int + d.len()] == 2
            &&& m[12int + d.len()] * 256 + m[13int + d.len()] == n.len()
            &&& m.skip(14int + d.len()) == n
        }),
{
    let m = initiation_bytes(sys_name, sys_descr);
    let d = encode_utf8(sys_descr);
    let n = encode_utf8(sys_name);
    let len = m.len() as int;
    assert(m[1] == (len / 16777216) % 256 && m[2] == (len / 65536) % 256 && m[3] == (len / 256) % 256 && m[4] == len
        % 256);
    assert(m.subrange(10, 10int + d.len()) =~= d);
    assert(m.skip(14int + d.len()) =~= n);
}

/// Whether four octets of some, counted in fours, name a family.
pub open spec fn names_pair(v: Seq<u8>, k: int, afi: u8, safi: u8) -> bool {
    v[4 * k] == 0 && v[4 * k + 1] == afi && v[4 * k + 2] == safi
}

/// Whether octets, in fours, name a family.
pub open spec fn has_pair(v: Seq<u8>, afi: u8, safi: u8) -> bool {
    exists|k: int| 0 <= k && 4 * k + 4 <= v.len() && #[trigger] names_pair(v, k, afi, safi)
}

/// Path ids are told for just those families in which a peer uses them, of
/// unicast prefixes and FlowSpec rules, and both ways.
#[verifier::spinoff_prover]
pub proof fn path_ids_are_told_for_the_families_that_have_them(f: Seq<u8>, afi: u8, safi: u8)
    requires
        afi == 1 || afi == 2,
        safi == 1 || safi == 133,
    ensures
        addpath_value(f).len() % 4 == 0,
        addpath_value(f).len() <= f.len(),
        has_pair(addpath_value(f), afi, safi) == has_pair(f, afi, safi),
        forall|k: int|
            0 <= k && 4 * k + 4 <= addpath_value(f).len() ==> #[trigger] is_path_group(addpath_value(f), k),
    decreases f.len(),
{
    lemma_path_groups(f);
    if f.len() >= 4 {
        let rest = f.skip(4);
        path_ids_are_told_for_the_families_that_have_them(rest, afi, safi);
        let kept = f[0] == 0 && (f[1] == 1 || f[1] == 2) && (f[2] == 1 || f[2] == 133);
        let first = f.take(4);
        assert(f =~= first + rest);
        lemma_pair_in_front(first, rest, afi, safi);
        if kept {
            let head = seq![f[0], f[1], f[2], 3u8];
            assert(addpath_value(f) =~= head + addpath_value(rest));
            lemma_pair_in_front(head, addpath_value(rest), afi, safi);
        } else {
            assert(addpath_value(f) =~= addpath_value(rest));
        }
    }
}

/// Four octets in front of others name a family, or those do.
#[verifier::spinoff_prover]
proof fn lemma_pair_in_front(head: Seq<u8>, rest: Seq<u8>, afi: u8, safi: u8)
    requires
        head.len() == 4,
    ensures
        has_pair(head + rest, afi, safi) == (names_pair(head, 0, afi, safi) || has_pair(rest, afi, safi)),
{
    let v = head + rest;
    if has_pair(v, afi, safi) {
        let k = choose|k: int| 0 <= k && 4 * k + 4 <= v.len() && #[trigger] names_pair(v, k, afi, safi);
        if k > 0 {
            assert(names_pair(rest, k - 1, afi, safi));
        }
    }
    if names_pair(head, 0, afi, safi) {
        assert(names_pair(v, 0, afi, safi));
    }
    if has_pair(rest, afi, safi) {
        let k = choose|k: int| 0 <= k && 4 * k + 4 <= rest.len() && #[trigger] names_pair(rest, k, afi, safi);
        assert(names_pair(v, k + 1, afi, safi));
    }
}

/// What is told is made up of fours that name families.
#[verifier::spinoff_prover]
proof fn lemma_path_groups(f: Seq<u8>)
    ensures
        addpath_value(f).len() % 4 == 0,
        addpath_value(f).len() <= f.len(),
        forall|k: int|
            0 <= k && 4 * k + 4 <= addpath_value(f).len() ==> #[trigger] is_path_group(addpath_value(f), k),
    decreases f.len(),
{
    if f.len() >= 4 {
        let rest = f.skip(4);
        let w = addpath_value(rest);
        let v = addpath_value(f);
        lemma_path_groups(rest);
        if f[0] == 0 && (f[1] == 1 || f[1] == 2) && (f[2] == 1 || f[2] == 133) {
            let head = seq![f[0], f[1], f[2], 3u8];
            assert(v =~= head + w);
            assert forall|k: int| 0 <= k && 4 * k + 4 <= v.len() implies #[trigger] is_path_group(v, k) by {
                if k > 0 {
                    assert(is_path_group(w, k - 1));
                }
            }
        } else {
            assert(v =~= w);
        }
    }
}

/// Whether four octets name a family of unicast prefixes or FlowSpec rules,
/// and that path ids go both ways.
pub open spec fn is_path_group(v: Seq<u8>, k: int) -> bool {
    &&& v[4 * k] == 0
    &&& v[4 * k + 1] == 1 || v[4 * k + 1] == 2
    &&& v[4 * k + 2] == 1 || v[4 * k + 2] == 133
    &&& v[4 * k + 3] == 3
}

/// What messages tell of the path ids of a peer is what is registered of its
/// ingress.
pub proof fn path_ids_are_told_as_registered(
    infos: Map<IngressId, IngressInfo>,
    id: IngressId,
    options: EmitOptions,
    peer: PeerInfo,
    afi: u8,
    safi: u8,
)
    requires
        shown_peer(infos, id, options, peer),
        afi == 1 || afi == 2,
        safi == 1 || safi == 133,
    ensures
        infos[id].addpath_families is None ==> peer.addpath_cap_value@.len() == 0,
        infos[id].addpath_families matches Some(f) ==> has_pair(peer.addpath_cap_value@, afi, safi) == has_pair(
            f@,
            afi,
            safi,
        ),
{
    match infos[id].addpath_families {
        Some(f) => path_ids_are_told_for_the_families_that_have_them(f@, afi, safi),
        None => {},
    }
}

} // verus!
