//! BMP message construction at byte level (RFC 7854).
use std::collections::hash_map::DefaultHasher;
use std::hash::Hasher;
use vstd::prelude::*;
use vstd::std_specs::hash::*;
use vstd::utf8::*;

use crate::ingress::{copy_opt_string, IngressInfo};
use crate::pamap::{
    attr_blob, attr_extent, filter_raw_path_attributes, kept_attrs, opt_bytes, reach_next_hop, RotondaPaMap,
};
use crate::route::RotondaRoute;
use crate::types::{
    prefix_octets, AfiSafiType, IngressId, IngressType, IpAddress, PeerRibType, PeerType, Prefix,
    PrefixKey,
};
use crate::wire::{
    be16, be32, be64, bgp_message, bgp_message_bytes, bgp_update, bmp_message, bmp_message_bytes, copy_range,
    extended_attr, extended_attr_bytes, get16, get32, lemma_be32_roundtrip, optional_attr, optional_attr_bytes,
    push_be16, push_be32, push_bytes, push_tlv, push_zeros, read_be16, read_be32, tlv_bytes, update_bytes, zeros,
};

verus! {

// BMP message types (RFC 7854 Section 4.1)
pub const BMP_MSG_ROUTE_MONITORING: u8 = 0;
pub const BMP_MSG_STATISTICS_REPORT: u8 = 1;
pub const BMP_MSG_PEER_DOWN: u8 = 2;
pub const BMP_MSG_PEER_UP: u8 = 3;
pub const BMP_MSG_INITIATION: u8 = 4;
pub const BMP_MSG_TERMINATION: u8 = 5;

/// Size of the BMP per-peer header.
pub const BMP_PER_PEER_HEADER_LEN: usize = 42;

/// Smallest BGP UPDATE: marker, length, type and two empty length fields.
pub const BGP_UPDATE_MIN_LEN: usize = 23;

/// Largest BGP UPDATE once the Extended Message capability (RFC 8654) is
/// negotiated. The synthesized OPENs advertise it in both directions.
pub const MAX_BGP_UPDATE_LEN: usize = 65535;

/// A point in time, as seconds and microseconds.
pub type Timestamp = (u32, u32);

/// What BMP messages tell of a peer.
#[derive(Debug)]
pub struct PeerInfo {
    pub peer_type: PeerType,
    pub peer_flags: u8,
    pub peer_distinguisher: [u8; 8],
    pub peer_address: IpAddress,
    pub peer_asn: u32,
    pub peer_bgp_id: [u8; 4],
    /// Local end of the session; unspecified when its origin tells none.
    pub local_addr: IpAddress,
    /// Re-emitted as an FQDN capability.
    pub peer_hostname: Option<String>,
    /// Re-emitted as a Software Version capability.
    pub peer_software_version: Option<String>,
    /// Re-emitted as a BGP Role capability.
    pub peer_role: Option<u8>,
    /// When the session came up, if known.
    pub session_up_time: Option<Timestamp>,
    /// The capabilities that the peer advertised, in wire format.
    pub peer_capabilities: Vec<u8>,
    /// The value of the ADD-PATH capability to advertise in both OPENs.
    pub addpath_cap_value: Vec<u8>,
    pub admin_label: Option<String>,
}

/// Whether both describe one peer alike.
pub open spec fn same_peer(a: PeerInfo, b: PeerInfo) -> bool {
    &&& a.peer_type == b.peer_type
    &&& a.peer_flags == b.peer_flags
    &&& a.peer_distinguisher == b.peer_distinguisher
    &&& a.peer_address == b.peer_address
    &&& a.peer_asn == b.peer_asn
    &&& a.peer_bgp_id == b.peer_bgp_id
    &&& a.local_addr == b.local_addr
    &&& a.peer_hostname == b.peer_hostname
    &&& a.peer_software_version == b.peer_software_version
    &&& a.peer_role == b.peer_role
    &&& a.session_up_time == b.session_up_time
    &&& a.peer_capabilities@ == b.peer_capabilities@
    &&& a.addpath_cap_value@ == b.addpath_cap_value@
    &&& a.admin_label == b.admin_label
}

impl Clone for PeerInfo {
    fn clone(&self) -> (r: Self)
        ensures
            same_peer(r, *self),
    {
        let n: usize = self.peer_capabilities.len();
        let m: usize = self.addpath_cap_value.len();
        let peer_capabilities = copy_range(&self.peer_capabilities, 0, n);
        let addpath_cap_value = copy_range(&self.addpath_cap_value, 0, m);
        assert(peer_capabilities@ =~= self.peer_capabilities@);
        assert(addpath_cap_value@ =~= self.addpath_cap_value@);
        PeerInfo {
            peer_type: self.peer_type,
            peer_flags: self.peer_flags,
            peer_distinguisher: self.peer_distinguisher,
            peer_address: self.peer_address,
            peer_asn: self.peer_asn,
            peer_bgp_id: self.peer_bgp_id,
            local_addr: self.local_addr,
            peer_hostname: copy_opt_string(&self.peer_hostname),
            peer_software_version: copy_opt_string(&self.peer_software_version),
            peer_role: self.peer_role,
            session_up_time: self.session_up_time,
            peer_capabilities,
            addpath_cap_value,
            admin_label: copy_opt_string(&self.admin_label),
        }
    }
}

/// The flags of the per-peer header: V for an IPv6 peer, L for a post-policy
/// table and O for an Adj-RIB-Out. A table that is not known counts as a
/// post-policy Adj-RIB-In.
pub open spec fn flags_for(addr: IpAddress, rib: Option<PeerRibType>) -> u8 {
    let v: int = if addr is V6 {
        0x80
    } else {
        0
    };
    let lo: int = match rib {
        Some(PeerRibType::InPost) => 0x40,
        Some(PeerRibType::InPre) => 0,
        Some(PeerRibType::OutPost) => 0x50,
        Some(PeerRibType::OutPre) => 0x10,
        Some(PeerRibType::Loc) => 0x40,
        None => 0x40,
    };
    (v + lo) as u8
}

/// The multiprotocol capability of a family.
pub open spec fn mp_cap_bytes(afi: int, safi: u8) -> Seq<u8> {
    seq![1u8, 4u8] + be16(afi) + seq![0u8, safi]
}

/// The capabilities that a peer read from an MRT file is taken to have
/// advertised: such files hold no OPEN.
pub open spec fn mrt_caps() -> Seq<u8> {
    mp_cap_bytes(2, 1) + mp_cap_bytes(1, 133) + mp_cap_bytes(2, 133)
}

/// The ADD-PATH families that BMP output re-encodes with path ids, each with
/// both directions.
pub open spec fn addpath_value(families: Seq<u8>) -> Seq<u8>
    decreases families.len(),
{
    if families.len() < 4 {
        Seq::empty()
    } else {
        (if families[0] == 0 && (families[1] == 1 || families[1] == 2) && (families[2] == 1
            || families[2] == 133) {
            seq![families[0], families[1], families[2], 3u8]
        } else {
            Seq::empty()
        }) + addpath_value(families.skip(4))
    }
}

/// The bytes of an optional byte string, none if it is absent.
pub open spec fn bytes_or_empty(o: Option<Vec<u8>>) -> Seq<u8> {
    match o {
        Some(v) => v@,
        None => Seq::empty(),
    }
}

/// The unspecified IPv4 address.
pub open spec fn is_unspecified_v4(a: IpAddress) -> bool {
    a is V4 && a.octets() == zeros(4)
}

fn unspecified_v4() -> (r: IpAddress)
    ensures
        is_unspecified_v4(r),
{
    let r = IpAddress::V4([0, 0, 0, 0]);
    assert(r.octets() =~= zeros(4));
    r
}

/// Appends the multiprotocol capability of a family.
fn push_mp_cap(buf: &mut Vec<u8>, afi: u16, safi: u8)
    ensures
        final(buf)@ == old(buf)@ + mp_cap_bytes(afi as int, safi),
{
    buf.push(1);
    buf.push(4);
    push_be16(buf, afi as usize);
    buf.push(0);
    buf.push(safi);
    assert(buf@ =~= old(buf)@ + mp_cap_bytes(afi as int, safi));
}

/// Filters the negotiated ADD-PATH families.
fn addpath_families_value(families: &[u8]) -> (r: Vec<u8>)
    ensures
        r@ == addpath_value(families@),
{
    let mut r: Vec<u8> = Vec::new();
    let mut pos: usize = 0;
    assert(families@.skip(0) =~= families@);
    while families.len() - pos >= 4
        invariant
            pos <= families@.len(),
            addpath_value(families@) == r@ + addpath_value(families@.skip(pos as int)),
        decreases families@.len() - pos,
    {
        let ghost s = families@.skip(pos as int);
        let ghost before = r@;
        assert(s[0] == families@[pos as int] && s[1] == families@[pos + 1] && s[2] == families@[pos
            + 2]);
        if families[pos] == 0 && (families[pos + 1] == 1 || families[pos + 1] == 2) && (
        families[pos + 2] == 1 || families[pos + 2] == 133) {
            r.push(families[pos]);
            r.push(families[pos + 1]);
            r.push(families[pos + 2]);
            r.push(3);
        }
        assert(s.skip(4) =~= families@.skip(pos + 4));
        assert(r@ + addpath_value(s.skip(4)) =~= before + addpath_value(s));
        pos = pos + 4;
    }
    assert(r@ + Seq::<u8>::empty() =~= r@);
    r
}

/// Whether `r` is what BMP messages tell of the peer behind an ingress.
pub open spec fn describes(info: IngressInfo, r: PeerInfo) -> bool {
    &&& r.peer_type == (match info.peer_type {
        Some(t) => t,
        None => PeerType::GlobalInstance,
    })
    &&& match info.remote_addr {
        Some(a) => r.peer_address == a,
        None => is_unspecified_v4(r.peer_address),
    }
    &&& r.peer_asn == (match info.remote_asn {
        Some(a) => a,
        None => 0,
    })
    &&& match info.distinguisher {
        Some(d) => r.peer_distinguisher == d,
        None => r.peer_distinguisher@ == zeros(8),
    }
    &&& r.peer_flags == flags_for(r.peer_address, info.peer_rib_type)
    &&& match info.bgp_id {
        Some(d) => r.peer_bgp_id == d,
        None => r.peer_bgp_id@ == zeros(4),
    }
    &&& match info.local_addr {
        Some(a) => r.local_addr == a,
        None => is_unspecified_v4(r.local_addr),
    }
    &&& r.peer_hostname == info.peer_hostname
    &&& r.peer_software_version == info.peer_software_version
    &&& r.peer_role == info.peer_role
    &&& r.session_up_time == info.session_up_time
    &&& r.peer_capabilities@ == bytes_or_empty(info.remote_capabilities) + (
    if info.ingress_type == Some(IngressType::Mrt) {
        mrt_caps()
    } else {
        Seq::empty()
    })
    &&& r.addpath_cap_value@ == addpath_value(bytes_or_empty(info.addpath_families))
    &&& r.admin_label is None
}

impl PeerInfo {
    /// What BMP messages tell of the peer behind an ingress.
    pub fn from_ingress_info(info: &IngressInfo) -> (r: Self)
        ensures
            describes(*info, r),
    {
        let peer_address = match info.remote_addr {
            Some(a) => a,
            None => unspecified_v4(),
        };
        let v: u8 = if peer_address.is_v4() {
            0
        } else {
            0x80
        };
        let lo: u8 = match info.peer_rib_type {
            Some(PeerRibType::InPost) => 0x40,
            Some(PeerRibType::InPre) => 0,
            Some(PeerRibType::OutPost) => 0x50,
            Some(PeerRibType::OutPre) => 0x10,
            Some(PeerRibType::Loc) => 0x40,
            None => 0x40,
        };
        let mut peer_capabilities: Vec<u8> = Vec::new();
        if let Some(caps) = &info.remote_capabilities {
            push_bytes(&mut peer_capabilities, caps);
        }
        let is_mrt = match info.ingress_type {
            Some(IngressType::Mrt) => true,
            _ => false,
        };
        if is_mrt {
            push_mp_cap(&mut peer_capabilities, 2, 1);
            push_mp_cap(&mut peer_capabilities, 1, 133);
            push_mp_cap(&mut peer_capabilities, 2, 133);
        }
        assert(peer_capabilities@ =~= bytes_or_empty(info.remote_capabilities) + (if is_mrt {
            mrt_caps()
        } else {
            Seq::empty()
        }));
        let addpath_cap_value = match &info.addpath_families {
            Some(f) => addpath_families_value(f),
            None => Vec::new(),
        };
        let no_distinguisher: [u8; 8] = [0, 0, 0, 0, 0, 0, 0, 0];
        assert(no_distinguisher@ =~= zeros(8));
        let no_id: [u8; 4] = [0, 0, 0, 0];
        assert(no_id@ =~= zeros(4));
        PeerInfo {
            peer_type: match info.peer_type {
                Some(t) => t,
                None => PeerType::GlobalInstance,
            },
            peer_flags: v + lo,
            peer_distinguisher: match info.distinguisher {
                Some(d) => d,
                None => no_distinguisher,
            },
            peer_address,
            peer_asn: match info.remote_asn {
                Some(a) => a,
                None => 0,
            },
            peer_bgp_id: match info.bgp_id {
                Some(d) => d,
                None => no_id,
            },
            local_addr: match info.local_addr {
                Some(a) => a,
                None => unspecified_v4(),
            },
            peer_hostname: copy_opt_string(&info.peer_hostname),
            peer_software_version: copy_opt_string(&info.peer_software_version),
            peer_role: info.peer_role,
            session_up_time: info.session_up_time,
            peer_capabilities,
            addpath_cap_value,
            admin_label: None,
        }
    }

    /// Stamps `tag` as the distinguisher of a peer that has none of its own.
    /// A peer with a route distinguisher keeps it.
    pub fn apply_fan_in_distinguisher(&mut self, tag: [u8; 8])
        ensures
            final(self).peer_distinguisher == (if old(self).peer_distinguisher@ == zeros(8) {
                tag
            } else {
                old(self).peer_distinguisher
            }),
            same_peer(
                *final(self),
                (PeerInfo { peer_distinguisher: final(self).peer_distinguisher, ..*old(self) }),
            ),
    {
        let d = self.peer_distinguisher;
        let mut all_zero = true;
        let mut i: usize = 0;
        while i < 8
            invariant
                i <= 8,
                d@.len() == 8,
                all_zero == (forall|j: int| 0 <= j < i ==> d@[j] == 0),
            decreases 8 - i,
        {
            if d[i] != 0 {
                all_zero = false;
            }
            i = i + 1;
        }
        if all_zero {
            assert(d@ =~= zeros(8));
            self.peer_distinguisher = tag;
        } else {
            assert(d@ != zeros(8)) by {
                let j = choose|j: int| 0 <= j < 8 && d@[j] != 0;
                assert(zeros(8)[j] == 0);
            }
        }
    }

    /// Whether the peer advertised the family. IPv4 unicast needs no
    /// capability; the others do.
    pub fn supports_afisafi(&self, afisafi: AfiSafiType) -> (r: bool)
        ensures
            r == supports(self.peer_capabilities@, afisafi),
    {
        match afisafi {
            AfiSafiType::Ipv4Unicast => {
                return true;
            },
            _ => {},
        }
        if !afisafi.is_reemitted() {
            return false;
        }
        let (afi, safi) = afisafi.to_pair();
        let caps = split_capabilities(&self.peer_capabilities);
        let ghost list = cap_list(self.peer_capabilities@);
        let mut i: usize = 0;
        while i < caps.len()
            invariant
                i <= caps@.len(),
                caps@.len() == list.len(),
                list == cap_list(self.peer_capabilities@),
                afisafi.reemitted(),
                (afi, safi) == afisafi.pair(),
                forall|j: int| 0 <= j < caps@.len() ==> (#[trigger] caps@[j])@ == list[j],
                forall|j: int| 0 <= j < i ==> !is_mp_cap(#[trigger] list[j], afi, safi),
            decreases caps@.len() - i,
        {
            let c = &caps[i];
            assert(c@ == list[i as int]);
            if c.len() == 6 && c[0] == 1 && c[1] == 4 && read_be16(c, 2) == afi && c[5] == safi {
                assert(is_mp_cap(list[i as int], afi, safi));
                return true;
            }
            i = i + 1;
        }
        false
    }

    /// The families that the peer advertised, among those that BMP output
    /// can carry.
    pub fn supported_afisafis(&self) -> (r: Vec<AfiSafiType>)
        ensures
            r@ == supported_list(self.peer_capabilities@),
    {
        let ghost caps = self.peer_capabilities@;
        let mut r: Vec<AfiSafiType> = Vec::new();
        r.push(AfiSafiType::Ipv4Unicast);
        if self.supports_afisafi(AfiSafiType::Ipv6Unicast) {
            r.push(AfiSafiType::Ipv6Unicast);
        }
        if self.supports_afisafi(AfiSafiType::Ipv4FlowSpec) {
            r.push(AfiSafiType::Ipv4FlowSpec);
        }
        if self.supports_afisafi(AfiSafiType::Ipv6FlowSpec) {
            r.push(AfiSafiType::Ipv6FlowSpec);
        }
        if self.supports_afisafi(AfiSafiType::L2VpnEvpn) {
            r.push(AfiSafiType::L2VpnEvpn);
        }
        proof {
            reveal_with_fuel(Seq::filter, 6);
            let all = reemitted_families();
            let p = |f: AfiSafiType| supports(caps, f);
            assert(all.drop_last() =~= seq![
                AfiSafiType::Ipv4Unicast,
                AfiSafiType::Ipv6Unicast,
                AfiSafiType::Ipv4FlowSpec,
                AfiSafiType::Ipv6FlowSpec,
            ]);
            assert(all.drop_last().drop_last() =~= seq![
                AfiSafiType::Ipv4Unicast,
                AfiSafiType::Ipv6Unicast,
                AfiSafiType::Ipv4FlowSpec,
            ]);
            assert(all.drop_last().drop_last().drop_last() =~= seq![
                AfiSafiType::Ipv4Unicast,
                AfiSafiType::Ipv6Unicast,
            ]);
            assert(all.drop_last().drop_last().drop_last().drop_last() =~= seq![
                AfiSafiType::Ipv4Unicast,
            ]);
            assert(all.drop_last().drop_last().drop_last().drop_last().drop_last() =~= Seq::<
                AfiSafiType,
            >::empty());
            assert(r@ =~= all.filter(p));
        }
        r
    }
}

/// The capabilities of a blob, each with its code and length, up to the
/// first that is cut short.
pub open spec fn cap_list(s: Seq<u8>) -> Seq<Seq<u8>>
    decreases s.len(),
{
    if s.len() < 2 || 2 + s[1] > s.len() {
        Seq::empty()
    } else {
        seq![s.take(2 + s[1])] + cap_list(s.skip(2 + s[1]))
    }
}

/// Whether a capability is the multiprotocol capability of a family.
pub open spec fn is_mp_cap(c: Seq<u8>, afi: u16, safi: u8) -> bool {
    c.len() == 6 && c[0] == 1 && c[1] == 4 && get16(c, 2) == afi && c[5] == safi
}

/// Whether a peer with these capabilities can send routes of the family.
pub open spec fn supports(caps: Seq<u8>, afisafi: AfiSafiType) -> bool {
    ||| afisafi is Ipv4Unicast
    ||| afisafi.reemitted() && exists|i: int|
        0 <= i < cap_list(caps).len() && is_mp_cap(
            #[trigger] cap_list(caps)[i],
            afisafi.pair().0,
            afisafi.pair().1,
        )
}

/// The families that BMP output can carry, in the order of advertisement.
pub open spec fn reemitted_families() -> Seq<AfiSafiType> {
    seq![
        AfiSafiType::Ipv4Unicast,
        AfiSafiType::Ipv6Unicast,
        AfiSafiType::Ipv4FlowSpec,
        AfiSafiType::Ipv6FlowSpec,
        AfiSafiType::L2VpnEvpn,
    ]
}

/// Those families that a peer with these capabilities advertised.
pub open spec fn supported_list(caps: Seq<u8>) -> Seq<AfiSafiType> {
    reemitted_families().filter(|f: AfiSafiType| supports(caps, f))
}

/// Splits a blob of capabilities.
pub fn split_capabilities(blob: &[u8]) -> (r: Vec<Vec<u8>>)
    ensures
        r@.len() == cap_list(blob@).len(),
        forall|i: int| 0 <= i < r@.len() ==> (#[trigger] r@[i])@ == cap_list(blob@)[i],
{
    let mut r: Vec<Vec<u8>> = Vec::new();
    let mut pos: usize = 0;
    let ghost all = cap_list(blob@);
    assert(blob@.skip(0) =~= blob@);
    while blob.len() - pos >= 2 && blob[pos + 1] as usize <= blob.len() - pos - 2
        invariant
            pos <= blob@.len(),
            all.len() == r@.len() + cap_list(blob@.skip(pos as int)).len(),
            forall|i: int| 0 <= i < r@.len() ==> (#[trigger] r@[i])@ == all[i],
            forall|i: int|
                0 <= i < cap_list(blob@.skip(pos as int)).len() ==> #[trigger] all[r@.len() + i] == cap_list(
                    blob@.skip(pos as int),
                )[i],
        decreases blob@.len() - pos,
    {
        let ghost s = blob@.skip(pos as int);
        let end: usize = pos + 2 + blob[pos + 1] as usize;
        let ghost total = 2 + s[1];
        assert(s[1] == blob@[pos + 1]);
        let ghost rest = cap_list(s.skip(total));
        assert(cap_list(s) == seq![s.take(total)] + rest);
        assert(s.skip(total) =~= blob@.skip(end as int));
        let c = copy_range(blob, pos, end);
        assert(c@ =~= s.take(total));
        assert(all[r@.len() as int] == cap_list(s)[0]) by { assert(all[r@.len() + 0int] == cap_list(s)[0]); }
        let ghost before = r@;
        r.push(c);
        assert forall|i: int| 0 <= i < rest.len() implies #[trigger] all[r@.len() + i] == rest[i] by {
            assert(all[before.len() + (i + 1)] == cap_list(s)[i + 1]);
        }
        pos = end;
    }
    r
}

/// What the hasher is fed for the fan-in tag of a router: a domain prefix
/// and the ingress id, least significant octet first.
pub open spec fn fan_in_input(parent: IngressId) -> Seq<Seq<u8>> {
    seq![
        encode_utf8("rotonda:bmp-out:fan-in:v1"@),
        seq![
            (parent % 256) as u8,
            ((parent / 256) % 256) as u8,
            ((parent / 65536) % 256) as u8,
            (parent / 16777216) as u8,
        ],
    ]
}

/// The number that the fan-in tag of a router spells: a hash of its ingress
/// id that is never zero.
pub open spec fn fan_in_number(parent: IngressId) -> u64 {
    let h = DefaultHasher::spec_finish(fan_in_input(parent));
    if h == 0 {
        1
    } else {
        h
    }
}

/// A tag that tells the routes of one monitored router from those of the
/// others, never all zeros. It depends on the ingress id alone. The domain
/// prefix is kept: with another one every tagged peer would look new.
pub fn fan_in_distinguisher_tag(parent_ingress_id: IngressId) -> (r: [u8; 8])
    ensures
        r@ == be64(fan_in_number(parent_ingress_id) as int),
        r@ != zeros(8),
{
    let mut hasher = DefaultHasher::new();
    hasher.write("rotonda:bmp-out:fan-in:v1".as_bytes());
    let id: [u8; 4] = [
        (parent_ingress_id % 256) as u8,
        ((parent_ingress_id / 256) % 256) as u8,
        ((parent_ingress_id / 65536) % 256) as u8,
        (parent_ingress_id / 16777216) as u8,
    ];
    hasher.write(id.as_slice());
    proof {
        assert(id@ =~= fan_in_input(parent_ingress_id)[1]);
        assert(hasher@ =~= fan_in_input(parent_ingress_id));
    }
    let h: u64 = hasher.finish();
    let v: u64 = if h == 0 {
        1
    } else {
        h
    };
    let hi: u64 = v / 4294967296;
    let r: [u8; 8] = [
        ((hi / 16777216) % 256) as u8,
        ((hi / 65536) % 256) as u8,
        ((hi / 256) % 256) as u8,
        (hi % 256) as u8,
        ((v / 16777216) % 256) as u8,
        ((v / 65536) % 256) as u8,
        ((v / 256) % 256) as u8,
        (v % 256) as u8,
    ];
    proof {
        assert(r@ =~= be64(v as int));
        lemma_be64_nonzero(v as int);
    }
    r
}

/// Only zero is spelled by eight zero octets.
proof fn lemma_be64_nonzero(n: int)
    requires
        0 < n <= u64::MAX,
    ensures
        be64(n) != zeros(8),
{
    if be64(n) == zeros(8) {
        let hi = n / 4294967296;
        lemma_be32_roundtrip(hi);
        assert forall|i: int| 0 <= i < 4 implies #[trigger] be32(hi)[i] == 0 by {
            assert(be64(n)[i] == be32(hi)[i]);
            assert(zeros(8)[i] == 0);
        }
        assert(hi == 0);
        lemma_be32_roundtrip(n);
        assert forall|i: int| 0 <= i < 4 implies #[trigger] be32(n)[i] == 0 by {
            assert(be64(n)[4 + i] == be32(n)[i]);
            assert(zeros(8)[4 + i] == 0);
        }
        assert(n == 0);
    }
}

/// The sixteen octets that stand for an address: an IPv4 address comes after
/// twelve zeros.
pub open spec fn addr16_bytes(a: IpAddress) -> Seq<u8> {
    match a {
        IpAddress::V4(o) => zeros(12) + o@,
        IpAddress::V6(o) => o@,
    }
}

/// Appends the sixteen octets that stand for an address.
fn push_addr16(buf: &mut Vec<u8>, a: &IpAddress)
    ensures
        final(buf)@ == old(buf)@ + addr16_bytes(*a),
{
    match a {
        IpAddress::V4(o) => {
            push_zeros(buf, 12);
            push_bytes(buf, o.as_slice());
            assert(buf@ =~= old(buf)@ + (zeros(12) + o@));
        },
        IpAddress::V6(o) => {
            push_bytes(buf, o.as_slice());
        },
    }
}

/// The per-peer header of a message about `peer`, with the given flags.
pub open spec fn per_peer_header_with(peer: PeerInfo, flags: u8, at: Timestamp) -> Seq<u8> {
    seq![peer.peer_type.code(), flags] + peer.peer_distinguisher@ + addr16_bytes(peer.peer_address)
        + be32(peer.peer_asn as int) + peer.peer_bgp_id@ + be32(at.0 as int) + be32(at.1 as int)
}

/// The per-peer header of a message about `peer`.
pub open spec fn per_peer_header(peer: PeerInfo, at: Timestamp) -> Seq<u8> {
    per_peer_header_with(peer, peer.peer_flags, at)
}

/// Appends a per-peer header.
fn write_per_peer_header(buf: &mut Vec<u8>, peer: &PeerInfo, flags: u8, at: Timestamp)
    ensures
        final(buf)@ == old(buf)@ + per_peer_header_with(*peer, flags, at),
{
    buf.push(peer.peer_type.to_code());
    buf.push(flags);
    push_bytes(buf, peer.peer_distinguisher.as_slice());
    push_addr16(buf, &peer.peer_address);
    push_be32(buf, peer.peer_asn);
    push_bytes(buf, peer.peer_bgp_id.as_slice());
    push_be32(buf, at.0);
    push_be32(buf, at.1);
    assert(buf@ =~= old(buf)@ + per_peer_header_with(*peer, flags, at));
}

/// The current time since the epoch, from `std::time::SystemTime::now`. The
/// number of microseconds is below a million; nothing else is claimed.
#[verifier::external_body]
pub(crate) fn current_time() -> (r: Timestamp)
    ensures
        r.1 < 1000000,
{
    let now = std::time::SystemTime::now().duration_since(std::time::UNIX_EPOCH).unwrap_or_default();
    (now.as_secs() as u32, now.subsec_micros())
}

/// A message about a peer: common header, per-peer header and what follows.
pub open spec fn peer_message_bytes(
    msg_type: u8,
    peer: PeerInfo,
    at: Timestamp,
    rest: Seq<u8>,
) -> Seq<u8> {
    bmp_message_bytes(msg_type, per_peer_header(peer, at) + rest)
}

/// Assembles a message about a peer.
fn peer_message(msg_type: u8, peer: &PeerInfo, at: Timestamp, rest: &[u8]) -> (r: Vec<u8>)
    ensures
        r@ == peer_message_bytes(msg_type, *peer, at, rest@),
{
    let mut body: Vec<u8> = Vec::new();
    write_per_peer_header(&mut body, peer, peer.peer_flags, at);
    push_bytes(&mut body, rest);
    assert(body@ =~= per_peer_header(*peer, at) + rest@);
    bmp_message(msg_type, &body)
}

/// A route monitoring message around a BGP UPDATE.
pub open spec fn route_monitoring_bytes(peer: PeerInfo, at: Timestamp, update: Seq<u8>) -> Seq<u8> {
    peer_message_bytes(BMP_MSG_ROUTE_MONITORING, peer, at, update)
}

/// An initiation message: the description, then the name of the system.
pub fn build_initiation_message(sys_name: &str, sys_descr: &str) -> (r: Vec<u8>)
    ensures
        r@ == bmp_message_bytes(
            BMP_MSG_INITIATION,
            tlv_bytes(1, encode_utf8(sys_descr@)) + tlv_bytes(2, encode_utf8(sys_name@)),
        ),
{
    let mut body: Vec<u8> = Vec::new();
    push_tlv(&mut body, 1, sys_descr.as_bytes());
    push_tlv(&mut body, 2, sys_name.as_bytes());
    assert(body@ =~= tlv_bytes(1, encode_utf8(sys_descr@)) + tlv_bytes(2, encode_utf8(sys_name@)));
    bmp_message(BMP_MSG_INITIATION, &body)
}

/// A termination message with reason "administratively closed".
pub fn build_termination_message() -> (r: Vec<u8>)
    ensures
        r@ == bmp_message_bytes(BMP_MSG_TERMINATION, tlv_bytes(0, be16(0))),
{
    let mut reason: Vec<u8> = Vec::new();
    push_be16(&mut reason, 0);
    assert(reason@ =~= be16(0));
    let mut body: Vec<u8> = Vec::new();
    push_tlv(&mut body, 0, &reason);
    assert(body@ =~= tlv_bytes(0, be16(0)));
    bmp_message(BMP_MSG_TERMINATION, &body)
}


/// Optional capabilities that an upstream peer advertised, to be repeated in
/// the OPEN that stands for the one received from it.
pub struct OpenCapExtras {
    pub hostname: Option<String>,
    pub software_version: Option<String>,
    pub role: Option<u8>,
    /// Capabilities to repeat as they are, but for those that are
    /// synthesized or do not fit the way routes are encoded.
    pub passthrough: Vec<u8>,
}

impl Default for OpenCapExtras {
    fn default() -> (r: Self)
        ensures
            r.hostname is None,
            r.software_version is None,
            r.role is None,
            r.passthrough@ == Seq::<u8>::empty(),
    {
        OpenCapExtras {
            hostname: None,
            software_version: None,
            role: None,
            passthrough: Vec::new(),
        }
    }
}

/// The multiprotocol capabilities of the families that can be carried.
pub open spec fn mp_caps(families: Seq<AfiSafiType>) -> Seq<u8>
    decreases families.len(),
{
    if families.len() == 0 {
        Seq::empty()
    } else {
        mp_caps(families.drop_last()) + (if families.last().reemitted() {
            mp_cap_bytes(families.last().pair().0 as int, families.last().pair().1)
        } else {
            Seq::empty()
        })
    }
}

/// The families that the graceful restart capability lists.
pub open spec fn gr_families(families: Seq<AfiSafiType>) -> Seq<u8>
    decreases families.len(),
{
    if families.len() == 0 {
        Seq::empty()
    } else {
        gr_families(families.drop_last()) + (if families.last().reemitted() {
            be16(families.last().pair().0 as int) + seq![families.last().pair().1, 0u8]
        } else {
            Seq::empty()
        })
    }
}

/// The graceful restart capability. Its length counts four octets for each of
/// the families, so it is for families that can be carried.
pub open spec fn gr_cap(families: Seq<AfiSafiType>) -> Seq<u8> {
    seq![64u8, ((2 + families.len() * 4) % 256) as u8] + be16(0) + gr_families(families)
}

/// Families that can be carried are all listed.
proof fn lemma_gr_families(families: Seq<AfiSafiType>)
    requires
        forall|i: int| 0 <= i < families.len() ==> (#[trigger] families[i]).reemitted(),
    ensures
        gr_families(families).len() == 4 * families.len(),
    decreases families.len(),
{
    if families.len() > 0 {
        assert forall|i: int| 0 <= i < families.drop_last().len() implies (#[trigger] families.drop_last()[i]).reemitted() by {
            assert(families.drop_last()[i] == families[i]);
        }
        lemma_gr_families(families.drop_last());
        assert(families[families.len() - 1].reemitted());
    }
}

/// The graceful restart capability of a peer is as long as it says: it lists
/// all families that the peer advertised and that can be carried.
pub proof fn graceful_restart_length_is_exact(caps: Seq<u8>)
    ensures
        ({
            let cap = gr_cap(supported_list(caps));
            cap[1] == cap.len() - 2
        }),
{
    let all = reemitted_families();
    let families = supported_list(caps);
    let wanted = |f: AfiSafiType| supports(caps, f);
    all.lemma_filter_len(wanted);
    assert forall|i: int| 0 <= i < families.len() implies (#[trigger] families[i]).reemitted() by {
        all.lemma_filter_contains_rev(wanted, families[i]);
        let k = choose|k: int| 0 <= k < all.len() && all[k] == families[i];
    }
    lemma_gr_families(families);
    assert(families.len() <= 5);
}

/// The ADD-PATH capability, absent when there is nothing to advertise.
pub open spec fn addpath_cap(value: Seq<u8>) -> Seq<u8> {
    if value.len() == 0 {
        Seq::empty()
    } else {
        seq![69u8, (value.len() % 256) as u8] + value
    }
}

/// The capabilities that do not depend on what the peer advertised.
pub open spec fn base_caps(
    asn: u32,
    families: Seq<AfiSafiType>,
    graceful_restart: bool,
    addpath: Seq<u8>,
) -> Seq<u8> {
    seq![65u8, 4u8] + be32(asn as int) + seq![6u8, 0u8] + mp_caps(families) + addpath_cap(addpath)
        + (if graceful_restart {
        gr_cap(families)
    } else {
        Seq::empty()
    })
}

/// `caps` with one more capability, if the optional parameters still fit
/// their one-octet length. The header of the one parameter counts two octets.
pub open spec fn with_cap(caps: Seq<u8>, code: u8, value: Seq<u8>) -> Seq<u8> {
    if caps.len() + 2 + value.len() <= 253 {
        caps + seq![code, value.len() as u8] + value
    } else {
        caps
    }
}

/// Whether a capability code is never repeated as it is: multiprotocol,
/// extended next hop, extended message, role, graceful restart, four-octet
/// AS number, ADD-PATH, FQDN and software version.
pub open spec fn passthrough_excluded(code: u8) -> bool {
    ||| code == 1
    ||| code == 5
    ||| code == 6
    ||| code == 9
    ||| code == 64
    ||| code == 65
    ||| code == 69
    ||| code == 73
    ||| code == 75
}

/// `caps` with those of `list` that are to be repeated and still fit.
pub open spec fn with_passthrough(caps: Seq<u8>, list: Seq<Seq<u8>>) -> Seq<u8>
    decreases list.len(),
{
    if list.len() == 0 {
        caps
    } else {
        let before = with_passthrough(caps, list.drop_last());
        let c = list.last();
        if !passthrough_excluded(c[0]) && before.len() + c.len() <= 253 {
            before + c
        } else {
            before
        }
    }
}

/// `caps` with the hostname capability, if there is a hostname that fits.
pub open spec fn with_hostname(caps: Seq<u8>, host: Option<String>) -> Seq<u8> {
    match host {
        Some(h) => {
            let b = encode_utf8(h@);
            if 0 < b.len() <= 255 {
                with_cap(caps, 73, seq![b.len() as u8] + b + seq![0u8])
            } else {
                caps
            }
        },
        None => caps,
    }
}

/// `caps` with the software version capability, if there is one that fits.
pub open spec fn with_version(caps: Seq<u8>, version: Option<String>) -> Seq<u8> {
    match version {
        Some(v) => {
            let b = encode_utf8(v@);
            if 0 < b.len() <= 255 {
                with_cap(caps, 75, seq![b.len() as u8] + b)
            } else {
                caps
            }
        },
        None => caps,
    }
}

/// `caps` with the role capability, if there is a role.
pub open spec fn with_role(caps: Seq<u8>, role: Option<u8>) -> Seq<u8> {
    match role {
        Some(x) => with_cap(caps, 9, seq![x]),
        None => caps,
    }
}

/// All capabilities of a synthesized OPEN.
pub open spec fn open_caps(
    asn: u32,
    extras: OpenCapExtras,
    families: Seq<AfiSafiType>,
    graceful_restart: bool,
    addpath: Seq<u8>,
) -> Seq<u8> {
    with_passthrough(
        with_role(
            with_version(
                with_hostname(base_caps(asn, families, graceful_restart, addpath), extras.hostname),
                extras.software_version,
            ),
            extras.role,
        ),
        cap_list(extras.passthrough@),
    )
}

/// An OPEN message around the given capabilities.
pub open spec fn open_bytes(asn: u32, bgp_id: Seq<u8>, caps: Seq<u8>) -> Seq<u8> {
    let opt_params = seq![2u8, (caps.len() % 256) as u8] + caps;
    bgp_message_bytes(
        1,
        seq![4u8] + be16(
            if asn > 65535 {
                23456
            } else {
                asn as int
            },
        ) + be16(90) + bgp_id + seq![(opt_params.len() % 256) as u8] + opt_params,
    )
}

/// The OPEN that [`build_bgp_open`] makes.
pub open spec fn synthesized_open(
    asn: u32,
    bgp_id: Seq<u8>,
    extras: OpenCapExtras,
    families: Seq<AfiSafiType>,
    graceful_restart: bool,
    addpath: Seq<u8>,
) -> Seq<u8> {
    open_bytes(asn, bgp_id, open_caps(asn, extras, families, graceful_restart, addpath))
}

/// Appends a capability if it still fits.
fn push_cap(caps: &mut Vec<u8>, code: u8, value: &[u8])
    ensures
        final(caps)@ == with_cap(old(caps)@, code, value@),
{
    if value.len() <= 251 && caps.len() <= 251 && caps.len() + 2 + value.len() <= 253 {
        caps.push(code);
        caps.push(value.len() as u8);
        push_bytes(caps, value);
        assert(caps@ =~= with_cap(old(caps)@, code, value@));
    }
}

/// Appends the multiprotocol capabilities of the families.
fn push_mp_caps(caps: &mut Vec<u8>, families: &[AfiSafiType])
    ensures
        final(caps)@ == old(caps)@ + mp_caps(families@),
{
    let mut i: usize = 0;
    assert(families@.take(0) =~= Seq::empty());
    assert(caps@ =~= old(caps)@ + mp_caps(families@.take(0)));
    while i < families.len()
        invariant
            i <= families@.len(),
            caps@ == old(caps)@ + mp_caps(families@.take(i as int)),
        decreases families@.len() - i,
    {
        let f = families[i];
        let ghost before = caps@;
        assert(families@.take(i + 1).drop_last() =~= families@.take(i as int));
        if f.is_reemitted() {
            let (afi, safi) = f.to_pair();
            push_mp_cap(caps, afi, safi);
        }
        i = i + 1;
        assert(caps@ =~= old(caps)@ + mp_caps(families@.take(i as int)));
    }
    assert(families@.take(i as int) =~= families@);
}

/// Appends the families of the graceful restart capability.
fn push_gr_families(caps: &mut Vec<u8>, families: &[AfiSafiType])
    ensures
        final(caps)@ == old(caps)@ + gr_families(families@),
{
    let mut i: usize = 0;
    assert(families@.take(0) =~= Seq::empty());
    assert(caps@ =~= old(caps)@ + gr_families(families@.take(0)));
    while i < families.len()
        invariant
            i <= families@.len(),
            caps@ == old(caps)@ + gr_families(families@.take(i as int)),
        decreases families@.len() - i,
    {
        let f = families[i];
        assert(families@.take(i + 1).drop_last() =~= families@.take(i as int));
        if f.is_reemitted() {
            let (afi, safi) = f.to_pair();
            push_be16(caps, afi as usize);
            caps.push(safi);
            caps.push(0);
        }
        i = i + 1;
        assert(caps@ =~= old(caps)@ + gr_families(families@.take(i as int)));
    }
    assert(families@.take(i as int) =~= families@);
}

/// Appends the capabilities that are to be repeated and still fit.
fn push_passthrough(caps: &mut Vec<u8>, blob: &[u8])
    ensures
        final(caps)@ == with_passthrough(old(caps)@, cap_list(blob@)),
{
    let list = split_capabilities(blob);
    let ghost l = cap_list(blob@);
    let mut i: usize = 0;
    assert(l.take(0) =~= Seq::empty());
    proof {
        lemma_cap_list_nonempty(blob@);
    }
    while i < list.len()
        invariant
            i <= list@.len(),
            list@.len() == l.len(),
            forall|j: int| 0 <= j < l.len() ==> (#[trigger] list@[j])@ == l[j],
            forall|j: int| 0 <= j < l.len() ==> 2 <= (#[trigger] l[j]).len(),
            caps@ == with_passthrough(old(caps)@, l.take(i as int)),
        decreases list@.len() - i,
    {
        let c = &list[i];
        assert(c@ == l[i as int]);
        assert(l.take(i + 1).drop_last() =~= l.take(i as int));
        assert(l.take(i + 1).last() == l[i as int]);
        let code: u8 = c[0];
        let excluded = code == 1 || code == 5 || code == 6 || code == 9 || code == 64 || code == 65
            || code == 69 || code == 73 || code == 75;
        if !excluded && c.len() <= 253 && caps.len() <= 253 - c.len() {
            push_bytes(caps, c);
        }
        i = i + 1;
    }
    assert(l.take(i as int) =~= l);
}

/// Every capability of a blob has a code and a length.
proof fn lemma_cap_list_nonempty(s: Seq<u8>)
    ensures
        forall|j: int| 0 <= j < cap_list(s).len() ==> 2 <= (#[trigger] cap_list(s)[j]).len(),
    decreases s.len(),
{
    if !(s.len() < 2 || 2 + s[1] > s.len()) {
        lemma_cap_list_nonempty(s.skip(2 + s[1]));
        let rest = cap_list(s.skip(2 + s[1]));
        assert forall|j: int| 0 <= j < cap_list(s).len() implies 2 <= (#[trigger] cap_list(s)[j]).len() by {
            if j > 0 {
                assert(cap_list(s)[j] == rest[j - 1]);
            }
        }
    }
}

/// Repeated capabilities never overflow the length of the optional parameters.
proof fn lemma_passthrough_fits(caps: Seq<u8>, list: Seq<Seq<u8>>)
    requires
        caps.len() <= 253,
    ensures
        caps.len() <= with_passthrough(caps, list).len() <= 253,
    decreases list.len(),
{
    if list.len() > 0 {
        lemma_passthrough_fits(caps, list.drop_last());
    }
}

/// The three lengths of a synthesized OPEN are exact, if the capabilities
/// that do not depend on what the peer advertised fit: that of the message,
/// that of the optional parameters, and that of the one parameter.
pub proof fn open_lengths_are_exact(
    asn: u32,
    bgp_id: Seq<u8>,
    extras: OpenCapExtras,
    families: Seq<AfiSafiType>,
    graceful_restart: bool,
    addpath: Seq<u8>,
)
    requires
        bgp_id.len() == 4,
        base_caps(asn, families, graceful_restart, addpath).len() <= 253,
    ensures
        ({
            let r = synthesized_open(asn, bgp_id, extras, families, graceful_restart, addpath);
            &&& get16(r, 16) == r.len()
            &&& r[28] == r.len() - 29
            &&& r[30] == r.len() - 31
        }),
{
    let base = base_caps(asn, families, graceful_restart, addpath);
    let named = with_hostname(base, extras.hostname);
    let told = with_role(with_version(named, extras.software_version), extras.role);
    lemma_passthrough_fits(told, cap_list(extras.passthrough@));
    let caps = open_caps(asn, extras, families, graceful_restart, addpath);
    let r = open_bytes(asn, bgp_id, caps);
    assert(r.len() == 31 + caps.len());
}

/// Builds the OPEN of a peer up message.
///
/// This is a normalized OPEN, not one that was exchanged: it advertises
/// four-octet AS numbers, extended messages, the families of the peer, and
/// such capabilities of the peer as fit the way its routes are encoded.
pub fn build_bgp_open(
    asn: u32,
    bgp_id: [u8; 4],
    extras: &OpenCapExtras,
    afisafis: &[AfiSafiType],
    advertise_graceful_restart: bool,
    addpath_cap_value: &[u8],
) -> (r: Vec<u8>)
    ensures
        r@ == synthesized_open(
            asn,
            bgp_id@,
            *extras,
            afisafis@,
            advertise_graceful_restart,
            addpath_cap_value@,
        ),
{
    let mut caps: Vec<u8> = Vec::new();
    caps.push(65);
    caps.push(4);
    push_be32(&mut caps, asn);
    caps.push(6);
    caps.push(0);
    push_mp_caps(&mut caps, afisafis);
    if addpath_cap_value.len() > 0 {
        caps.push(69);
        caps.push((addpath_cap_value.len() % 256) as u8);
        push_bytes(&mut caps, addpath_cap_value);
    }
    assert(caps@ =~= seq![65u8, 4u8] + be32(asn as int) + seq![6u8, 0u8] + mp_caps(afisafis@)
        + addpath_cap(addpath_cap_value@));
    if advertise_graceful_restart {
        caps.push(64);
        let n: usize = afisafis.len();
        let gr_len: usize = (2 + (n % 64) * 4) % 256;
        assert(gr_len == (2 + n * 4) % 256) by {
            assert(n == (n / 64) * 64 + n % 64);
            assert((2 + n * 4) - (2 + (n % 64) * 4) == (n / 64) * 256);
        }
        caps.push(gr_len as u8);
        push_be16(&mut caps, 0);
        push_gr_families(&mut caps, afisafis);
    }
    let ghost base = base_caps(asn, afisafis@, advertise_graceful_restart, addpath_cap_value@);
    assert(caps@ =~= base);

    if let Some(h) = &extras.hostname {
        let host = h.as_str().as_bytes();
        if host.len() > 0 && host.len() <= 255 {
            let mut value: Vec<u8> = Vec::new();
            value.push(host.len() as u8);
            push_bytes(&mut value, host);
            value.push(0);
            assert(value@ =~= seq![host@.len() as u8] + host@ + seq![0u8]);
            push_cap(&mut caps, 73, &value);
        }
    }
    assert(caps@ == with_hostname(base, extras.hostname));
    if let Some(v) = &extras.software_version {
        let ver = v.as_str().as_bytes();
        if ver.len() > 0 && ver.len() <= 255 {
            let mut value: Vec<u8> = Vec::new();
            value.push(ver.len() as u8);
            push_bytes(&mut value, ver);
            assert(value@ =~= seq![ver@.len() as u8] + ver@);
            push_cap(&mut caps, 75, &value);
        }
    }
    if let Some(role) = extras.role {
        let value: [u8; 1] = [role];
        assert(value@ =~= seq![role]);
        push_cap(&mut caps, 9, value.as_slice());
    }
    push_passthrough(&mut caps, &extras.passthrough);
    let ghost all = open_caps(
        asn,
        *extras,
        afisafis@,
        advertise_graceful_restart,
        addpath_cap_value@,
    );
    assert(caps@ == all);

    let mut opt_params: Vec<u8> = Vec::new();
    opt_params.push(2);
    opt_params.push((caps.len() % 256) as u8);
    push_bytes(&mut opt_params, &caps);
    assert(opt_params@ =~= seq![2u8, (all.len() % 256) as u8] + all);

    let mut body: Vec<u8> = Vec::new();
    body.push(4);
    let two_byte_asn: usize = if asn > 65535 {
        23456
    } else {
        asn as usize
    };
    push_be16(&mut body, two_byte_asn);
    push_be16(&mut body, 90);
    push_bytes(&mut body, bgp_id.as_slice());
    body.push((opt_params.len() % 256) as u8);
    push_bytes(&mut body, &opt_params);
    assert(body@ =~= seq![4u8] + be16(
        if asn > 65535 {
            23456
        } else {
            asn as int
        },
    ) + be16(90) + bgp_id@ + seq![(opt_params@.len() % 256) as u8] + opt_params@);
    bgp_message(1, &body)
}

/// The OPEN that stands for the one sent to the peer: no optional
/// capability and no BGP identifier.
pub open spec fn sent_open(peer: PeerInfo, graceful_restart: bool) -> Seq<u8> {
    open_bytes(
        peer.peer_asn,
        zeros(4),
        base_caps(
            peer.peer_asn,
            supported_list(peer.peer_capabilities@),
            graceful_restart,
            peer.addpath_cap_value@,
        ),
    )
}

/// The OPEN that stands for the one received from the peer.
pub open spec fn received_open(peer: PeerInfo, graceful_restart: bool) -> Seq<u8> {
    open_bytes(
        peer.peer_asn,
        peer.peer_bgp_id@,
        with_passthrough(
            with_role(
                with_version(
                    with_hostname(
                        base_caps(
                            peer.peer_asn,
                            supported_list(peer.peer_capabilities@),
                            graceful_restart,
                            peer.addpath_cap_value@,
                        ),
                        peer.peer_hostname,
                    ),
                    peer.peer_software_version,
                ),
                peer.peer_role,
            ),
            cap_list(peer.peer_capabilities@),
        ),
    )
}

/// The Admin Label element of a peer up message, absent if there is no label
/// or if its length does not fit two octets.
pub open spec fn admin_label_tlv(label: Option<String>) -> Seq<u8> {
    match label {
        Some(l) => if encode_utf8(l@).len() <= 65535 {
            tlv_bytes(4, encode_utf8(l@))
        } else {
            Seq::empty()
        },
        None => Seq::empty(),
    }
}

/// A peer up message, stamped with the time the session came up if that is
/// known, and with `now` if not.
pub open spec fn peer_up_bytes(peer: PeerInfo, graceful_restart: bool, now: Timestamp) -> Seq<u8> {
    peer_message_bytes(
        BMP_MSG_PEER_UP,
        peer,
        match peer.session_up_time {
            Some(t) => t,
            None => now,
        },
        addr16_bytes(peer.local_addr) + be16(0) + be16(179) + sent_open(peer, graceful_restart)
            + received_open(peer, graceful_restart) + admin_label_tlv(peer.admin_label),
    )
}

/// Builds a peer up message.
pub fn build_peer_up(peer: &PeerInfo, advertise_graceful_restart: bool) -> (r: Vec<u8>)
    ensures
        exists|now: Timestamp| r@ == peer_up_bytes(*peer, advertise_graceful_restart, now),
{
    let now = current_time();
    let r = build_peer_up_at(peer, advertise_graceful_restart, now);
    assert(r@ == peer_up_bytes(*peer, advertise_graceful_restart, now));
    r
}

/// As [`build_peer_up`], at the given time.
pub fn build_peer_up_at(peer: &PeerInfo, advertise_graceful_restart: bool, now: Timestamp) -> (r:
    Vec<u8>)
    ensures
        r@ == peer_up_bytes(*peer, advertise_graceful_restart, now),
{
    let afisafis = peer.supported_afisafis();
    let no_extras = OpenCapExtras::default();
    let n: usize = peer.peer_capabilities.len();
    let extras = OpenCapExtras {
        hostname: copy_opt_string(&peer.peer_hostname),
        software_version: copy_opt_string(&peer.peer_software_version),
        role: peer.peer_role,
        passthrough: copy_range(&peer.peer_capabilities, 0, n),
    };
    assert(extras.passthrough@ =~= peer.peer_capabilities@);
    let no_id: [u8; 4] = [0, 0, 0, 0];
    assert(no_id@ =~= zeros(4));
    let sent = build_bgp_open(
        peer.peer_asn,
        no_id,
        &no_extras,
        &afisafis,
        advertise_graceful_restart,
        &peer.addpath_cap_value,
    );
    assert(cap_list(no_extras.passthrough@) =~= Seq::empty());
    assert(sent@ == sent_open(*peer, advertise_graceful_restart));
    let received = build_bgp_open(
        peer.peer_asn,
        peer.peer_bgp_id,
        &extras,
        &afisafis,
        advertise_graceful_restart,
        &peer.addpath_cap_value,
    );
    assert(received@ == received_open(*peer, advertise_graceful_restart));
    let mut rest: Vec<u8> = Vec::new();
    push_addr16(&mut rest, &peer.local_addr);
    push_be16(&mut rest, 0);
    push_be16(&mut rest, 179);
    push_bytes(&mut rest, &sent);
    push_bytes(&mut rest, &received);
    if let Some(label) = &peer.admin_label {
        let bytes = label.as_str().as_bytes();
        if bytes.len() <= 65535 {
            push_tlv(&mut rest, 4, bytes);
        }
    }
    assert(rest@ =~= addr16_bytes(peer.local_addr) + be16(0) + be16(179) + sent_open(
        *peer,
        advertise_graceful_restart,
    ) + received_open(*peer, advertise_graceful_restart) + admin_label_tlv(peer.admin_label));
    let at = match peer.session_up_time {
        Some(t) => t,
        None => now,
    };
    peer_message(BMP_MSG_PEER_UP, peer, at, &rest)
}

/// A peer down message: the remote end closed without a notification.
pub open spec fn peer_down_bytes(peer: PeerInfo, now: Timestamp) -> Seq<u8> {
    peer_message_bytes(BMP_MSG_PEER_DOWN, peer, now, seq![4u8])
}

/// Builds a peer down message.
pub fn build_peer_down(peer: &PeerInfo) -> (r: Vec<u8>)
    ensures
        exists|now: Timestamp| r@ == peer_down_bytes(*peer, now),
{
    let now = current_time();
    let r = build_peer_down_at(peer, now);
    assert(r@ == peer_down_bytes(*peer, now));
    r
}

/// As [`build_peer_down`], at the given time.
pub fn build_peer_down_at(peer: &PeerInfo, now: Timestamp) -> (r: Vec<u8>)
    ensures
        r@ == peer_down_bytes(*peer, now),
{
    let reason: [u8; 1] = [4];
    assert(reason@ =~= seq![4u8]);
    peer_message(BMP_MSG_PEER_DOWN, peer, now, reason.as_slice())
}

/// A statistics report: the counters as they were received.
pub open spec fn statistics_report_bytes(peer: PeerInfo, body: Seq<u8>, now: Timestamp) -> Seq<u8> {
    peer_message_bytes(BMP_MSG_STATISTICS_REPORT, peer, now, body)
}

/// Builds a statistics report for a peer, with the counters as they were
/// received from upstream.
pub fn build_statistics_report(peer: &PeerInfo, body: &[u8]) -> (r: Vec<u8>)
    ensures
        exists|now: Timestamp| r@ == statistics_report_bytes(*peer, body@, now),
{
    let now = current_time();
    let r = build_statistics_report_at(peer, body, now);
    assert(r@ == statistics_report_bytes(*peer, body@, now));
    r
}

/// As [`build_statistics_report`], at the given time.
pub fn build_statistics_report_at(peer: &PeerInfo, body: &[u8], now: Timestamp) -> (r: Vec<u8>)
    ensures
        r@ == statistics_report_bytes(*peer, body@, now),
{
    peer_message(BMP_MSG_STATISTICS_REPORT, peer, now, body)
}

/// Whether `body` is a per-peer header followed by one well-framed BGP
/// UPDATE.
pub open spec fn is_raw_route_monitoring(body: Seq<u8>) -> bool {
    &&& body.len() >= 65
    &&& body[60] == 2
    &&& get16(body, 58) == body.len() - 42
}

/// A route monitoring message around the UPDATE of `body`, with the header
/// of `peer`; the flag for two-octet AS paths and the time are those that
/// came with the UPDATE.
pub open spec fn raw_route_monitoring_bytes(peer: PeerInfo, body: Seq<u8>) -> Seq<u8> {
    bmp_message_bytes(
        BMP_MSG_ROUTE_MONITORING,
        per_peer_header_with(
            peer,
            peer.peer_flags | (body[1] & 0x20u8),
            (get32(body, 34) as u32, get32(body, 38) as u32),
        ) + body.skip(42),
    )
}

/// Builds a route monitoring message around an UPDATE as it was received.
/// `body` is the message from upstream without its common header. There is
/// none if it is cut short, holds no UPDATE or is not framed as it says.
pub fn build_route_monitoring_raw(peer: &PeerInfo, body: &[u8]) -> (r: Option<Vec<u8>>)
    ensures
        match r {
            Some(m) => is_raw_route_monitoring(body@) && m@ == raw_route_monitoring_bytes(
                *peer,
                body@,
            ),
            None => !is_raw_route_monitoring(body@),
        },
{
    let n: usize = body.len();
    if n < 65 {
        return None;
    }
    let declared: usize = read_be16(body, 58) as usize;
    if body[60] != 2 || declared != n - 42 {
        return None;
    }
    let at = (read_be32(body, 34), read_be32(body, 38));
    let mut rest: Vec<u8> = Vec::new();
    write_per_peer_header(&mut rest, peer, peer.peer_flags | (body[1] & 0x20), at);
    push_bytes(&mut rest, &body[42..n]);
    assert(body@.subrange(42, n as int) =~= body@.skip(42));
    assert(rest@ =~= per_peer_header_with(
        *peer,
        peer.peer_flags | (body@[1] & 0x20u8),
        at,
    ) + body@.skip(42));
    Some(bmp_message(BMP_MSG_ROUTE_MONITORING, &rest))
}


/// A path identifier (RFC 7911), if there is one.
pub open spec fn path_id_bytes(path_id: Option<u32>) -> Seq<u8> {
    match path_id {
        Some(id) => be32(id as int),
        None => Seq::empty(),
    }
}

/// A prefix as NLRI: its path id, its length, and the octets that hold its
/// bits.
pub open spec fn nlri_bytes(prefix: PrefixKey, path_id: Option<u32>) -> Seq<u8> {
    path_id_bytes(path_id) + seq![prefix.2] + prefix.1.take(prefix_octets(prefix.2 as int))
}

/// Appends a prefix as NLRI.
pub fn append_prefix_nlri(buf: &mut Vec<u8>, prefix: &Prefix, path_id: Option<u32>)
    requires
        prefix.wf(),
    ensures
        final(buf)@ == old(buf)@ + nlri_bytes(prefix@, path_id),
{
    if let Some(id) = path_id {
        push_be32(buf, id);
    }
    buf.push(prefix.len);
    let n: usize = (prefix.len as usize + 7) / 8;
    match &prefix.addr {
        IpAddress::V4(o) => {
            push_bytes(buf, &o.as_slice()[0..n]);
            assert(o@.subrange(0, n as int) =~= o@.take(n as int));
        },
        IpAddress::V6(o) => {
            push_bytes(buf, &o.as_slice()[0..n]);
            assert(o@.subrange(0, n as int) =~= o@.take(n as int));
        },
    }
    assert(buf@ =~= old(buf)@ + nlri_bytes(prefix@, path_id));
}

/// Encodes a prefix as NLRI.
pub fn encode_prefix_nlri(prefix: &Prefix, path_id: Option<u32>) -> (r: Vec<u8>)
    requires
        prefix.wf(),
    ensures
        r@ == nlri_bytes(prefix@, path_id),
{
    let mut buf: Vec<u8> = Vec::new();
    append_prefix_nlri(&mut buf, prefix, path_id);
    assert(buf@ =~= nlri_bytes(prefix@, path_id));
    buf
}

/// The length of a prefix as NLRI.
pub fn nlri_encoded_len(prefix: &Prefix, has_path_id: bool) -> (r: usize)
    requires
        prefix.wf(),
    ensures
        forall|id: Option<u32>| id is Some == has_path_id ==> r == (#[trigger] nlri_bytes(prefix@, id)).len(),
        r <= 21,
{
    let n: usize = 1 + (prefix.len as usize + 7) / 8;
    if has_path_id {
        n + 4
    } else {
        n
    }
}

/// MP_REACH_NLRI for one prefix. Without a next hop there are zeros.
pub open spec fn mp_reach_bytes(
    prefix: PrefixKey,
    next_hop: Option<Seq<u8>>,
    path_id: Option<u32>,
) -> Seq<u8> {
    let nh = match next_hop {
        Some(b) => b,
        None => zeros(
            if prefix.0 {
                4
            } else {
                16
            },
        ),
    };
    optional_attr_bytes(
        14,
        be16(
            if prefix.0 {
                1
            } else {
                2
            },
        ) + seq![1u8, (nh.len() % 256) as u8] + nh + seq![0u8] + nlri_bytes(prefix, path_id),
    )
}

/// Builds MP_REACH_NLRI for one prefix.
fn build_mp_reach_nlri(prefix: &Prefix, next_hop: &Option<Vec<u8>>, path_id: Option<u32>) -> (r:
    Vec<u8>)
    requires
        prefix.wf(),
    ensures
        r@ == mp_reach_bytes(prefix@, opt_bytes(*next_hop), path_id),
{
    let is_v4 = prefix.is_v4();
    let mut value: Vec<u8> = Vec::new();
    push_be16(
        &mut value,
        if is_v4 {
            1
        } else {
            2
        },
    );
    value.push(1);
    match next_hop {
        Some(nh) => {
            value.push((nh.len() % 256) as u8);
            push_bytes(&mut value, nh);
        },
        None => {
            let n: usize = if is_v4 {
                4
            } else {
                16
            };
            value.push(n as u8);
            push_zeros(&mut value, n);
        },
    }
    value.push(0);
    append_prefix_nlri(&mut value, prefix, path_id);
    let ghost nh = match opt_bytes(*next_hop) {
        Some(b) => b,
        None => zeros(
            if prefix@.0 {
                4
            } else {
                16
            },
        ),
    };
    assert(value@ =~= be16(
        if prefix@.0 {
            1
        } else {
            2
        },
    ) + seq![1u8, (nh.len() % 256) as u8] + nh + seq![0u8] + nlri_bytes(prefix@, path_id));
    optional_attr(14, &value)
}

/// MP_UNREACH_NLRI for one prefix.
pub open spec fn mp_unreach_bytes(prefix: PrefixKey, path_id: Option<u32>) -> Seq<u8> {
    optional_attr_bytes(
        15,
        be16(
            if prefix.0 {
                1
            } else {
                2
            },
        ) + seq![1u8] + nlri_bytes(prefix, path_id),
    )
}

/// Builds MP_UNREACH_NLRI for one prefix.
fn build_mp_unreach_nlri(prefix: &Prefix, path_id: Option<u32>) -> (r: Vec<u8>)
    requires
        prefix.wf(),
    ensures
        r@ == mp_unreach_bytes(prefix@, path_id),
{
    let mut value: Vec<u8> = Vec::new();
    push_be16(
        &mut value,
        if prefix.is_v4() {
            1
        } else {
            2
        },
    );
    value.push(1);
    append_prefix_nlri(&mut value, prefix, path_id);
    assert(value@ =~= be16(
        if prefix@.0 {
            1
        } else {
            2
        },
    ) + seq![1u8] + nlri_bytes(prefix@, path_id));
    optional_attr(15, &value)
}

/// The UPDATE that withdraws one prefix.
pub open spec fn withdrawal_bytes(prefix: PrefixKey, path_id: Option<u32>) -> Seq<u8> {
    if prefix.0 {
        update_bytes(nlri_bytes(prefix, path_id), Seq::empty(), Seq::empty())
    } else {
        update_bytes(Seq::empty(), mp_unreach_bytes(prefix, path_id), Seq::empty())
    }
}

/// Builds the UPDATE that withdraws one prefix.
fn build_bgp_update_withdrawal(prefix: &Prefix, path_id: Option<u32>) -> (r: Vec<u8>)
    requires
        prefix.wf(),
    ensures
        r@ == withdrawal_bytes(prefix@, path_id),
{
    let empty: Vec<u8> = Vec::new();
    assert(empty@ =~= Seq::empty());
    if prefix.is_v4() {
        bgp_update(&encode_prefix_nlri(prefix, path_id), &empty, &empty)
    } else {
        bgp_update(&empty, &build_mp_unreach_nlri(prefix, path_id), &empty)
    }
}

/// The UPDATE that announces one prefix: its attributes with a fresh
/// MP_REACH_NLRI where the family needs one.
pub open spec fn announcement_bytes(prefix: PrefixKey, raw: Seq<u8>, path_id: Option<u32>) -> Seq<
    u8,
> {
    let attrs = kept_attrs(attr_blob(raw));
    if prefix.0 {
        update_bytes(Seq::empty(), attrs, nlri_bytes(prefix, path_id))
    } else {
        update_bytes(
            Seq::empty(),
            attrs + mp_reach_bytes(prefix, reach_next_hop(attr_blob(raw)), path_id),
            Seq::empty(),
        )
    }
}

/// An UPDATE that the two-octet length of a BGP message can frame. One that
/// is longer would upset the framing of everything after it.
pub open spec fn framed(update: Seq<u8>) -> Option<Seq<u8>> {
    if update.len() > MAX_BGP_UPDATE_LEN {
        None
    } else {
        Some(update)
    }
}

/// The UPDATE for one prefix, if it can be framed.
pub open spec fn prefix_update(
    prefix: PrefixKey,
    raw: Seq<u8>,
    is_withdrawal: bool,
    path_id: Option<u32>,
) -> Option<Seq<u8>> {
    if is_withdrawal {
        Some(withdrawal_bytes(prefix, path_id))
    } else {
        framed(announcement_bytes(prefix, raw, path_id))
    }
}

/// Drops an UPDATE that cannot be framed.
fn drop_too_long(update: Vec<u8>) -> (r: Option<Vec<u8>>)
    ensures
        opt_bytes(r) == framed(update@),
{
    if update.len() > MAX_BGP_UPDATE_LEN {
        None
    } else {
        Some(update)
    }
}

/// Builds the UPDATE for one prefix.
pub fn build_bgp_update(
    prefix: &Prefix,
    pamap: &RotondaPaMap,
    is_withdrawal: bool,
    path_id: Option<u32>,
) -> (r: Option<Vec<u8>>)
    requires
        prefix.wf(),
    ensures
        opt_bytes(r) == prefix_update(prefix@, pamap@, is_withdrawal, path_id),
{
    if is_withdrawal {
        return Some(build_bgp_update_withdrawal(prefix, path_id));
    }
    let (attrs, next_hop) = filter_raw_path_attributes(pamap);
    let empty: Vec<u8> = Vec::new();
    assert(empty@ =~= Seq::empty());
    let update = if prefix.is_v4() {
        bgp_update(&empty, &attrs, &encode_prefix_nlri(prefix, path_id))
    } else {
        let mut all: Vec<u8> = Vec::new();
        push_bytes(&mut all, &attrs);
        push_bytes(&mut all, &build_mp_reach_nlri(prefix, &next_hop, path_id));
        assert(all@ =~= attrs@ + mp_reach_bytes(prefix@, opt_bytes(next_hop), path_id));
        bgp_update(&empty, &all, &empty)
    };
    drop_too_long(update)
}

/// A route monitoring message around an optional UPDATE.
pub open spec fn monitored(peer: PeerInfo, now: Timestamp, update: Option<Seq<u8>>) -> Option<
    Seq<u8>,
> {
    match update {
        Some(u) => Some(route_monitoring_bytes(peer, now, u)),
        None => None,
    }
}

/// Wraps an UPDATE.
pub fn monitor_update(peer: &PeerInfo, now: Timestamp, update: &[u8]) -> (r: Vec<u8>)
    ensures
        r@ == route_monitoring_bytes(*peer, now, update@),
{
    peer_message(BMP_MSG_ROUTE_MONITORING, peer, now, update)
}

/// Wraps an optional UPDATE.
fn monitor(peer: &PeerInfo, now: Timestamp, update: Option<Vec<u8>>) -> (r: Option<Vec<u8>>)
    ensures
        opt_bytes(r) == monitored(*peer, now, opt_bytes(update)),
{
    match update {
        Some(u) => Some(monitor_update(peer, now, &u)),
        None => None,
    }
}

/// Builds a route monitoring message for one prefix, with the path id that
/// goes before it if the session has ADD-PATH. There is none if the UPDATE
/// cannot be framed.
pub fn build_route_monitoring(
    peer: &PeerInfo,
    prefix: &Prefix,
    pamap: &RotondaPaMap,
    is_withdrawal: bool,
    path_id: Option<u32>,
) -> (r: Option<Vec<u8>>)
    requires
        prefix.wf(),
    ensures
        exists|now: Timestamp|
            opt_bytes(r) == #[trigger] monitored(
                *peer,
                now,
                prefix_update(prefix@, pamap@, is_withdrawal, path_id),
            ),
{
    build_route_monitoring_at(peer, prefix, pamap, is_withdrawal, path_id, current_time())
}

/// As [`build_route_monitoring`], at the given time.
pub fn build_route_monitoring_at(
    peer: &PeerInfo,
    prefix: &Prefix,
    pamap: &RotondaPaMap,
    is_withdrawal: bool,
    path_id: Option<u32>,
    now: Timestamp,
) -> (r: Option<Vec<u8>>)
    requires
        prefix.wf(),
    ensures
        opt_bytes(r) == monitored(
            *peer,
            now,
            prefix_update(prefix@, pamap@, is_withdrawal, path_id),
        ),
{
    monitor(peer, now, build_bgp_update(prefix, pamap, is_withdrawal, path_id))
}

/// The number of octets of a FlowSpec rule that its length header can tell.
pub open spec fn flowspec_len(raw: Seq<u8>) -> int {
    if raw.len() > 4095 {
        4095
    } else {
        raw.len() as int
    }
}

/// A FlowSpec rule as NLRI: its path id, a length of one octet below 240 and
/// of two from there on, and the components.
pub open spec fn flowspec_nlri_bytes(raw: Seq<u8>, path_id: Option<u32>) -> Seq<u8> {
    let n = flowspec_len(raw);
    path_id_bytes(path_id) + (if n >= 240 {
        be16(0xf000 + n)
    } else {
        seq![n as u8]
    }) + raw.take(n)
}

/// Appends a FlowSpec rule as NLRI.
pub fn append_flowspec_nlri(buf: &mut Vec<u8>, raw: &[u8], path_id: Option<u32>)
    ensures
        final(buf)@ == old(buf)@ + flowspec_nlri_bytes(raw@, path_id),
{
    if let Some(id) = path_id {
        push_be32(buf, id);
    }
    let n: usize = if raw.len() > 4095 {
        4095
    } else {
        raw.len()
    };
    if n >= 240 {
        push_be16(buf, 0xf000 + n);
    } else {
        buf.push(n as u8);
    }
    push_bytes(buf, &raw[0..n]);
    assert(raw@.subrange(0, n as int) =~= raw@.take(n as int));
    assert(buf@ =~= old(buf)@ + flowspec_nlri_bytes(raw@, path_id));
}

/// The length that a FlowSpec rule is taken to have as NLRI.
pub open spec fn flowspec_nlri_len(raw: Seq<u8>, has_path_id: bool) -> int {
    (if has_path_id {
        4int
    } else {
        0
    }) + raw.len() + (if raw.len() >= 240 {
        2int
    } else {
        1
    })
}

/// The length of a FlowSpec rule as NLRI.
pub fn flowspec_nlri_encoded_len(raw: &[u8], has_path_id: bool) -> (r: usize)
    requires
        raw@.len() + 6 <= usize::MAX,
    ensures
        r == flowspec_nlri_len(raw@, has_path_id),
{
    let header: usize = if raw.len() >= 240 {
        2
    } else {
        1
    };
    let id: usize = if has_path_id {
        4
    } else {
        0
    };
    id + raw.len() + header
}

/// The length that is told of a FlowSpec rule is that of its encoding, for
/// every rule that its length header can tell.
pub proof fn flowspec_length_agrees_with_encoding(raw: Seq<u8>, path_id: Option<u32>)
    requires
        raw.len() <= 4095,
    ensures
        flowspec_nlri_bytes(raw, path_id).len() == flowspec_nlri_len(raw, path_id is Some),
{
}

/// The attribute that announces or withdraws one FlowSpec rule.
pub open spec fn flowspec_attr_bytes(
    is_v4: bool,
    raw: Seq<u8>,
    is_withdrawal: bool,
    path_id: Option<u32>,
) -> Seq<u8> {
    let type_code = if is_withdrawal {
        15u8
    } else {
        14u8
    };
    let fixed = be16(
        if is_v4 {
            1
        } else {
            2
        },
    ) + (if is_withdrawal {
        seq![133u8]
    } else {
        seq![133u8, 0u8, 0u8]
    });
    let n = fixed.len() + flowspec_nlri_len(raw, path_id is Some);
    (if n > 255 {
        seq![0x90u8, type_code] + be16(n)
    } else {
        seq![0x80u8, type_code, n as u8]
    }) + fixed + flowspec_nlri_bytes(raw, path_id)
}

/// The UPDATE for one FlowSpec rule. An announcement keeps the attributes,
/// so that traffic actions travel with the rule; a withdrawal has none.
pub open spec fn flowspec_update(
    is_v4: bool,
    nlri: Seq<u8>,
    raw: Seq<u8>,
    is_withdrawal: bool,
    path_id: Option<u32>,
) -> Option<Seq<u8>> {
    framed(
        update_bytes(
            Seq::empty(),
            (if is_withdrawal {
                Seq::empty()
            } else {
                kept_attrs(attr_blob(raw))
            }) + flowspec_attr_bytes(is_v4, nlri, is_withdrawal, path_id),
            Seq::empty(),
        ),
    )
}

/// Two octets tell the lower part of a number.
proof fn lemma_be16_low(low: int, q: int)
    requires
        0 <= low,
        0 <= q,
    ensures
        be16(low + 65536 * q) == be16(low),
{
    let n = low + 65536 * q;
    assert(n % 256 == low % 256);
    assert(n / 256 == low / 256 + 256 * q);
    assert((n / 256) % 256 == (low / 256) % 256);
    assert(be16(n) =~= be16(low));
}

/// Builds the attribute that announces or withdraws one FlowSpec rule.
fn build_flowspec_attr(is_v4: bool, nlri_raw: &[u8], is_withdrawal: bool, path_id: Option<u32>) -> (r:
    Vec<u8>)
    ensures
        r@ == flowspec_attr_bytes(is_v4, nlri_raw@, is_withdrawal, path_id),
{
    let mut fixed: Vec<u8> = Vec::new();
    let afi: usize = if is_v4 {
        1
    } else {
        2
    };
    push_be16(&mut fixed, afi);
    fixed.push(133);
    if !is_withdrawal {
        fixed.push(0);
        fixed.push(0);
    }
    let ghost spec_fixed = be16(
        if is_v4 {
            1
        } else {
            2
        },
    ) + (if is_withdrawal {
        seq![133u8]
    } else {
        seq![133u8, 0u8, 0u8]
    });
    assert(fixed@ =~= spec_fixed);
    let header: usize = if nlri_raw.len() >= 240 {
        2
    } else {
        1
    };
    let id: usize = if path_id.is_some() {
        4
    } else {
        0
    };
    // The length field has two octets: what it tells of a longer value is its
    // lower part.
    let n: usize = fixed.len() + id + header + nlri_raw.len() % 65536;
    let ghost full = fixed@.len() + flowspec_nlri_len(nlri_raw@, path_id is Some);
    assert(full == n + 65536 * (nlri_raw@.len() as int / 65536)) by {
        assert(nlri_raw@.len() == 65536 * (nlri_raw@.len() as int / 65536) + nlri_raw@.len() as int % 65536);
    }
    let type_code: u8 = if is_withdrawal {
        15
    } else {
        14
    };
    let mut attr: Vec<u8> = Vec::new();
    if nlri_raw.len() >= 65536 || n > 255 {
        attr.push(0x90);
        attr.push(type_code);
        push_be16(&mut attr, n);
        proof {
            lemma_be16_low(n as int, nlri_raw@.len() as int / 65536);
        }
        assert(attr@ =~= seq![0x90u8, type_code] + be16(full));
    } else {
        attr.push(0x80);
        attr.push(type_code);
        attr.push(n as u8);
        assert(attr@ =~= seq![0x80u8, type_code, n as u8]);
    }
    push_bytes(&mut attr, &fixed);
    append_flowspec_nlri(&mut attr, nlri_raw, path_id);
    attr
}

/// Builds the UPDATE for one FlowSpec rule.
pub fn build_flowspec_bgp_update(
    is_v4: bool,
    nlri_raw: &[u8],
    pamap: &RotondaPaMap,
    is_withdrawal: bool,
    path_id: Option<u32>,
) -> (r: Option<Vec<u8>>)
    ensures
        opt_bytes(r) == flowspec_update(is_v4, nlri_raw@, pamap@, is_withdrawal, path_id),
{
    let mut attrs: Vec<u8> = if is_withdrawal {
        Vec::new()
    } else {
        filter_raw_path_attributes(pamap).0
    };
    push_bytes(&mut attrs, &build_flowspec_attr(is_v4, nlri_raw, is_withdrawal, path_id));
    let empty: Vec<u8> = Vec::new();
    assert(empty@ =~= Seq::empty());
    drop_too_long(bgp_update(&empty, &attrs, &empty))
}

/// Builds a route monitoring message for one FlowSpec rule.
pub fn build_flowspec_route_monitoring(
    peer: &PeerInfo,
    is_v4: bool,
    nlri_raw: &[u8],
    pamap: &RotondaPaMap,
    is_withdrawal: bool,
    path_id: Option<u32>,
) -> (r: Option<Vec<u8>>)
    ensures
        exists|now: Timestamp|
            opt_bytes(r) == #[trigger] monitored(
                *peer,
                now,
                flowspec_update(is_v4, nlri_raw@, pamap@, is_withdrawal, path_id),
            ),
{
    build_flowspec_route_monitoring_at(
        peer,
        is_v4,
        nlri_raw,
        pamap,
        is_withdrawal,
        path_id,
        current_time(),
    )
}

/// As [`build_flowspec_route_monitoring`], at the given time.
pub fn build_flowspec_route_monitoring_at(
    peer: &PeerInfo,
    is_v4: bool,
    nlri_raw: &[u8],
    pamap: &RotondaPaMap,
    is_withdrawal: bool,
    path_id: Option<u32>,
    now: Timestamp,
) -> (r: Option<Vec<u8>>)
    ensures
        opt_bytes(r) == monitored(
            *peer,
            now,
            flowspec_update(is_v4, nlri_raw@, pamap@, is_withdrawal, path_id),
        ),
{
    monitor(
        peer,
        now,
        build_flowspec_bgp_update(is_v4, nlri_raw, pamap, is_withdrawal, path_id),
    )
}

/// The value of the attribute that announces or withdraws an EVPN route.
pub open spec fn evpn_value(
    nlri: Seq<u8>,
    next_hop: Seq<u8>,
    withdrawn: bool,
    path_id: Option<u32>,
) -> Seq<u8> {
    seq![0u8, 25u8, 70u8] + (if withdrawn {
        Seq::empty()
    } else {
        seq![next_hop.len() as u8] + next_hop + seq![0u8]
    }) + path_id_bytes(path_id) + nlri
}

/// The UPDATE for one EVPN route. There is no announcement without a next
/// hop.
pub open spec fn evpn_update(nlri: Seq<u8>, raw: Seq<u8>, withdrawn: bool, path_id: Option<u32>) -> Option<
    Seq<u8>,
> {
    if withdrawn {
        framed(
            update_bytes(
                Seq::empty(),
                extended_attr_bytes(15, evpn_value(nlri, Seq::empty(), true, path_id)),
                Seq::empty(),
            ),
        )
    } else {
        match reach_next_hop(attr_blob(raw)) {
            None => None,
            Some(nh) => framed(
                update_bytes(
                    Seq::empty(),
                    kept_attrs(attr_blob(raw)) + extended_attr_bytes(
                        14,
                        evpn_value(nlri, nh, false, path_id),
                    ),
                    Seq::empty(),
                ),
            ),
        }
    }
}

/// Builds a route monitoring message for one EVPN route: the attributes and
/// the next hop are kept, the MP-BGP framing is made anew.
pub fn build_evpn_route_monitoring(
    peer: &PeerInfo,
    raw: &[u8],
    pamap: &RotondaPaMap,
    withdrawn: bool,
    path_id: Option<u32>,
) -> (r: Option<Vec<u8>>)
    ensures
        exists|now: Timestamp|
            opt_bytes(r) == #[trigger] monitored(
                *peer,
                now,
                evpn_update(raw@, pamap@, withdrawn, path_id),
            ),
{
    build_evpn_route_monitoring_at(peer, raw, pamap, withdrawn, path_id, current_time())
}

/// As [`build_evpn_route_monitoring`], at the given time.
pub fn build_evpn_route_monitoring_at(
    peer: &PeerInfo,
    raw: &[u8],
    pamap: &RotondaPaMap,
    withdrawn: bool,
    path_id: Option<u32>,
    now: Timestamp,
) -> (r: Option<Vec<u8>>)
    ensures
        opt_bytes(r) == monitored(*peer, now, evpn_update(raw@, pamap@, withdrawn, path_id)),
{
    let (kept, next_hop) = filter_raw_path_attributes(pamap);
    let mut attrs: Vec<u8> = Vec::new();
    let mut value: Vec<u8> = Vec::new();
    value.push(0);
    value.push(25);
    value.push(70);
    let ghost mut nh_bytes: Seq<u8> = Seq::empty();
    if !withdrawn {
        match &next_hop {
            None => {
                return None;
            },
            Some(nh) => {
                proof {
                    nh_bytes = nh@;
                    lemma_next_hop_fits_an_octet(attr_blob(pamap@));
                }
                value.push(nh.len() as u8);
                push_bytes(&mut value, nh);
                value.push(0);
            },
        }
        push_bytes(&mut attrs, &kept);
    }
    if let Some(id) = path_id {
        push_be32(&mut value, id);
    }
    push_bytes(&mut value, raw);
    assert(value@ =~= evpn_value(raw@, nh_bytes, withdrawn, path_id));
    let ghost before = attrs@;
    let type_code: u8 = if withdrawn {
        15
    } else {
        14
    };
    push_bytes(&mut attrs, &extended_attr(type_code, &value));
    assert(attrs@ =~= (if withdrawn {
        extended_attr_bytes(type_code, value@)
    } else {
        kept@ + extended_attr_bytes(type_code, value@)
    }));
    let empty: Vec<u8> = Vec::new();
    assert(empty@ =~= Seq::empty());
    monitor(peer, now, drop_too_long(bgp_update(&empty, &attrs, &empty)))
}

/// A next hop has at most as many octets as one octet can tell.
pub proof fn lemma_next_hop_fits_an_octet(s: Seq<u8>)
    ensures
        reach_next_hop(s) matches Some(nh) ==> nh.len() <= 255,
    decreases s.len(),
{
    match attr_extent(s) {
        None => {},
        Some((header, total)) => {
            lemma_next_hop_fits_an_octet(s.skip(total));
        },
    }
}

/// The UPDATE for a route of any family.
pub open spec fn route_update(route: RotondaRoute, is_withdrawal: bool, path_id: Option<u32>) -> Option<
    Seq<u8>,
> {
    match route {
        RotondaRoute::Ipv4Unicast(p, a) => prefix_update(p@, a@, is_withdrawal, path_id),
        RotondaRoute::Ipv6Unicast(p, a) => prefix_update(p@, a@, is_withdrawal, path_id),
        RotondaRoute::Ipv4Multicast(p, a) => prefix_update(p@, a@, is_withdrawal, path_id),
        RotondaRoute::Ipv6Multicast(p, a) => prefix_update(p@, a@, is_withdrawal, path_id),
        RotondaRoute::Ipv4FlowSpec(n, a) => flowspec_update(true, n@, a@, is_withdrawal, path_id),
        RotondaRoute::Ipv6FlowSpec(n, a) => flowspec_update(false, n@, a@, is_withdrawal, path_id),
        RotondaRoute::L2VpnEvpn(n, a) => evpn_update(n.raw@, a@, is_withdrawal, path_id),
    }
}

/// Builds a route monitoring message for a route of any family.
pub fn build_route_monitoring_from_route(
    peer: &PeerInfo,
    route: &RotondaRoute,
    is_withdrawal: bool,
    path_id: Option<u32>,
) -> (r: Option<Vec<u8>>)
    requires
        route.wf(),
    ensures
        exists|now: Timestamp|
            opt_bytes(r) == #[trigger] monitored(
                *peer,
                now,
                route_update(*route, is_withdrawal, path_id),
            ),
{
    build_route_monitoring_from_route_at(peer, route, is_withdrawal, path_id, current_time())
}

/// As [`build_route_monitoring_from_route`], at the given time.
pub fn build_route_monitoring_from_route_at(
    peer: &PeerInfo,
    route: &RotondaRoute,
    is_withdrawal: bool,
    path_id: Option<u32>,
    now: Timestamp,
) -> (r: Option<Vec<u8>>)
    requires
        route.wf(),
    ensures
        opt_bytes(r) == monitored(*peer, now, route_update(*route, is_withdrawal, path_id)),
{
    match route {
        RotondaRoute::Ipv4Unicast(p, a) => build_route_monitoring_at(
            peer,
            p,
            a,
            is_withdrawal,
            path_id,
            now,
        ),
        RotondaRoute::Ipv6Unicast(p, a) => build_route_monitoring_at(
            peer,
            p,
            a,
            is_withdrawal,
            path_id,
            now,
        ),
        RotondaRoute::Ipv4Multicast(p, a) => build_route_monitoring_at(
            peer,
            p,
            a,
            is_withdrawal,
            path_id,
            now,
        ),
        RotondaRoute::Ipv6Multicast(p, a) => build_route_monitoring_at(
            peer,
            p,
            a,
            is_withdrawal,
            path_id,
            now,
        ),
        RotondaRoute::Ipv4FlowSpec(n, a) => build_flowspec_route_monitoring_at(
            peer,
            true,
            n,
            a,
            is_withdrawal,
            path_id,
            now,
        ),
        RotondaRoute::Ipv6FlowSpec(n, a) => build_flowspec_route_monitoring_at(
            peer,
            false,
            n,
            a,
            is_withdrawal,
            path_id,
            now,
        ),
        RotondaRoute::L2VpnEvpn(n, a) => build_evpn_route_monitoring_at(
            peer,
            &n.raw,
            a,
            is_withdrawal,
            path_id,
            now,
        ),
    }
}

/// The End-of-RIB marker of a family: an empty UPDATE for IPv4 unicast, an
/// MP_UNREACH_NLRI without routes for the others.
pub open spec fn end_of_rib_update(afisafi: AfiSafiType) -> Option<Seq<u8>> {
    if afisafi is Ipv4Unicast {
        Some(update_bytes(Seq::empty(), Seq::empty(), Seq::empty()))
    } else if afisafi.reemitted() {
        Some(
            update_bytes(
                Seq::empty(),
                optional_attr_bytes(
                    15,
                    be16(afisafi.pair().0 as int) + seq![afisafi.pair().1],
                ),
                Seq::empty(),
            ),
        )
    } else {
        None
    }
}

/// Builds the End-of-RIB marker of a family, if BMP output carries it.
pub fn build_end_of_rib_marker(peer: &PeerInfo, afisafi: AfiSafiType) -> (r: Option<Vec<u8>>)
    ensures
        exists|now: Timestamp|
            opt_bytes(r) == #[trigger] monitored(*peer, now, end_of_rib_update(afisafi)),
{
    build_end_of_rib_marker_at(peer, afisafi, current_time())
}

/// As [`build_end_of_rib_marker`], at the given time.
pub fn build_end_of_rib_marker_at(peer: &PeerInfo, afisafi: AfiSafiType, now: Timestamp) -> (r:
    Option<Vec<u8>>)
    ensures
        opt_bytes(r) == monitored(*peer, now, end_of_rib_update(afisafi)),
{
    let empty: Vec<u8> = Vec::new();
    assert(empty@ =~= Seq::empty());
    match afisafi {
        AfiSafiType::Ipv4Unicast => {
            return monitor(peer, now, Some(bgp_update(&empty, &empty, &empty)));
        },
        _ => {},
    }
    if !afisafi.is_reemitted() {
        return None;
    }
    let (afi, safi) = afisafi.to_pair();
    let mut value: Vec<u8> = Vec::new();
    push_be16(&mut value, afi as usize);
    value.push(safi);
    assert(value@ =~= be16(afi as int) + seq![safi]);
    monitor(peer, now, Some(bgp_update(&empty, &optional_attr(15, &value), &empty)))
}

/// The distinguisher, the address and the AS number of a peer are the same
/// in every message about it, whatever the message and the time.
pub proof fn peer_identity_is_the_same_in_every_message(
    peer: PeerInfo,
    t1: u8,
    at1: Timestamp,
    rest1: Seq<u8>,
    t2: u8,
    at2: Timestamp,
    rest2: Seq<u8>,
)
    ensures
        peer_message_bytes(t1, peer, at1, rest1).subrange(6, 40) == peer_message_bytes(
            t2,
            peer,
            at2,
            rest2,
        ).subrange(6, 40),
        peer_message_bytes(t1, peer, at1, rest1).subrange(8, 16) == peer.peer_distinguisher@,
{
    let a = peer_message_bytes(t1, peer, at1, rest1);
    let b = peer_message_bytes(t2, peer, at2, rest2);
    assert(addr16_bytes(peer.peer_address).len() == 16);
    assert(a.subrange(6, 40) =~= b.subrange(6, 40));
    assert(a.subrange(8, 16) =~= peer.peer_distinguisher@);
}

/// Two monitored routers whose fan-in numbers differ get different tags, so
/// that peers behind them with the same address and AS number differ in
/// their per-peer header.
pub proof fn fan_in_tags_tell_routers_apart(a: IngressId, b: IngressId)
    requires
        fan_in_number(a) != fan_in_number(b),
    ensures
        be64(fan_in_number(a) as int) != be64(fan_in_number(b) as int),
{
    let x = fan_in_number(a) as int;
    let y = fan_in_number(b) as int;
    if be64(x) == be64(y) {
        let hx = x / 4294967296;
        let hy = y / 4294967296;
        assert forall|i: int| 0 <= i < 4 implies #[trigger] be32(hx)[i] == be32(hy)[i] by {
            assert(be64(x)[i] == be32(hx)[i]);
            assert(be64(y)[i] == be32(hy)[i]);
        }
        assert(be32(hx) =~= be32(hy));
        lemma_be32_roundtrip(hx);
        lemma_be32_roundtrip(hy);
        let lx = x % 4294967296;
        let ly = y % 4294967296;
        lemma_be32_low(x);
        lemma_be32_low(y);
        assert forall|i: int| 0 <= i < 4 implies #[trigger] be32(x)[i] == be32(y)[i] by {
            assert(be64(x)[4 + i] == be32(x)[i]);
            assert(be64(y)[4 + i] == be32(y)[i]);
        }
        assert(be32(x) =~= be32(y));
        lemma_be32_roundtrip(lx);
        lemma_be32_roundtrip(ly);
    }
}

/// Only the four low-order octets of a number take part in `be32`.
#[verifier::spinoff_prover]
proof fn lemma_be32_low(n: int)
    requires
        0 <= n <= u64::MAX,
    ensures
        be32(n) == be32(n % 4294967296),
{
    let m = n % 4294967296;
    let h = n / 4294967296;
    assert(n == h * 4294967296 + m);
    assert(n / 16777216 == h * 256 + m / 16777216);
    assert(n / 65536 == h * 65536 + m / 65536);
    assert(n / 256 == h * 16777216 + m / 256);
    assert(be32(n) =~= be32(m));
}

} // verus!
