//! What a receiver reads out of the OPEN messages that stand for a session.
use vstd::prelude::*;
use vstd::utf8::*;

use crate::bmp_builder::{
    addpath_cap, base_caps, cap_list, gr_cap, gr_families, is_mp_cap, mp_cap_bytes, mp_caps, open_bytes, received_open,
    reemitted_families, sent_open, supported_list, supports, with_cap, with_hostname, with_passthrough, with_role,
    with_version, PeerInfo,
};
use crate::types::AfiSafiType;
use crate::wire::{be16, be32};

verus! {

/// An OPEN is read back: sixteen octets of ones, the length of all, type 1,
/// version 4, the AS number or 23456 where two octets cannot tell it, ninety
/// seconds, the BGP id, and one parameter with the capabilities.
pub proof fn an_open_is_read_back(asn: u32, bgp_id: Seq<u8>, caps: Seq<u8>)
    requires
        bgp_id.len() == 4,
        caps.len() <= 253,
    ensures
        ({
            let o = open_bytes(asn, bgp_id, caps);
            &&& o.len() == 31 + caps.len()
            &&& forall|i: int| 0 <= i < 16 ==> #[trigger] o[i] == 255
            &&& o[16] * 256 + o[17] == o.len()
            &&& o[18] == 1
            &&& o[19] == 4
            &&& asn <= 65535 ==> o[20] * 256 + o[21] == asn
            &&& asn > 65535 ==> o[20] * 256 + o[21] == 23456
            &&& o[22] * 256 + o[23] == 90
            &&& o.subrange(24, 28) == bgp_id
            &&& o[28] == caps.len() + 2
            &&& o[29] == 2
            &&& o[30] == caps.len()
            &&& o.skip(31) == caps
        }),
{
    let o = open_bytes(asn, bgp_id, caps);
    assert(o.subrange(24, 28) =~= bgp_id);
    assert(o.skip(31) =~= caps);
    let n: int = if asn > 65535 {
        23456
    } else {
        asn as int
    };
    assert(o[20] == be16(n)[0] && o[21] == be16(n)[1]);
    let l = o.len() as int;
    assert(o[16] == be16(l)[0] && o[17] == be16(l)[1]);
}

/// Whether octets are capabilities and nothing else.
pub open spec fn whole_caps(s: Seq<u8>) -> bool
    decreases s.len(),
{
    s.len() == 0 || (s.len() >= 2 && 2 + s[1] <= s.len() && whole_caps(s.skip(2 + s[1])))
}

/// Capabilities after others are read after them.
proof fn lemma_caps_add(a: Seq<u8>, b: Seq<u8>)
    requires
        whole_caps(a),
    ensures
        cap_list(a + b) == cap_list(a) + cap_list(b),
        whole_caps(b) ==> whole_caps(a + b),
    decreases a.len(),
{
    if a.len() == 0 {
        assert(a + b =~= b);
        assert(cap_list(a) + cap_list(b) =~= cap_list(b));
    } else {
        let n = 2 + a[1];
        lemma_caps_add(a.skip(n), b);
        assert((a + b).take(n) =~= a.take(n));
        assert((a + b).skip(n) =~= a.skip(n) + b);
        assert((a + b)[1] == a[1]);
        assert(cap_list(a + b) =~= cap_list(a) + cap_list(b));
    }
}

/// One capability by itself.
proof fn lemma_one_cap(c: Seq<u8>)
    requires
        c.len() >= 2,
        c.len() == 2 + c[1],
    ensures
        whole_caps(c),
        cap_list(c) == seq![c],
{
    assert(c.take(c.len() as int) =~= c);
    assert(c.skip(c.len() as int) =~= Seq::empty());
    assert(whole_caps(Seq::empty()));
    assert(cap_list(Seq::<u8>::empty()) =~= Seq::empty());
    assert(cap_list(c) =~= seq![c]);
}

/// Whether capabilities have one.
pub open spec fn advertises(caps: Seq<u8>, c: Seq<u8>) -> bool {
    cap_list(caps).contains(c)
}

/// Whether a peer with these capabilities advertised a family: those octets
/// are among them, whatever the fifth is.
pub open spec fn names_family(caps: Seq<u8>, afi: u8, safi: u8) -> bool {
    exists|i: int|
        0 <= i < cap_list(caps).len() && {
            let c = #[trigger] cap_list(caps)[i];
            c.len() == 6 && c[0] == 1 && c[1] == 4 && c[2] == 0 && c[3] == afi && c[5] == safi
        }
}

/// The families of a peer are IPv4 unicast in any case, and of IPv6 unicast,
/// the two of FlowSpec and EVPN those that it advertised.
pub proof fn families_are_those_that_were_advertised(caps: Seq<u8>)
    ensures
        supported_list(caps).contains(AfiSafiType::Ipv4Unicast),
        supported_list(caps).contains(AfiSafiType::Ipv6Unicast) <==> names_family(caps, 2, 1),
        supported_list(caps).contains(AfiSafiType::Ipv4FlowSpec) <==> names_family(caps, 1, 133),
        supported_list(caps).contains(AfiSafiType::Ipv6FlowSpec) <==> names_family(caps, 2, 133),
        supported_list(caps).contains(AfiSafiType::L2VpnEvpn) <==> names_family(caps, 25, 70),
        !supported_list(caps).contains(AfiSafiType::Ipv4Multicast),
        !supported_list(caps).contains(AfiSafiType::Ipv6Multicast),
{
    let all = reemitted_families();
    let wanted = |f: AfiSafiType| supports(caps, f);
    assert forall|f: AfiSafiType| all.contains(f) && wanted(f) implies #[trigger] all.filter(wanted).contains(f) by {
        let i = choose|i: int| 0 <= i < all.len() && all[i] == f;
        all.lemma_filter_contains(wanted, i);
    }
    assert forall|f: AfiSafiType| #[trigger] all.filter(wanted).contains(f) implies all.contains(f) && wanted(f) by {
        all.lemma_filter_contains_rev(wanted, f);
        broadcast use vstd::seq_lib::group_filter_ensures;

        let i = choose|i: int| 0 <= i < all.filter(wanted).len() && all.filter(wanted)[i] == f;
        assert(wanted(all.filter(wanted)[i]));
    }
    assert(all[0] is Ipv4Unicast && all[1] is Ipv6Unicast && all[2] is Ipv4FlowSpec && all[3] is Ipv6FlowSpec
        && all[4] is L2VpnEvpn);
    lemma_names(caps, AfiSafiType::Ipv6Unicast, 2, 1);
    lemma_names(caps, AfiSafiType::Ipv4FlowSpec, 1, 133);
    lemma_names(caps, AfiSafiType::Ipv6FlowSpec, 2, 133);
    lemma_names(caps, AfiSafiType::L2VpnEvpn, 25, 70);
}

proof fn lemma_names(caps: Seq<u8>, f: AfiSafiType, afi: u8, safi: u8)
    requires
        f.reemitted(),
        !(f is Ipv4Unicast),
        f.pair() == (afi as u16, safi),
    ensures
        supports(caps, f) <==> names_family(caps, afi, safi),
{
    let list = cap_list(caps);
    if supports(caps, f) {
        let i = choose|i: int| 0 <= i < list.len() && is_mp_cap(#[trigger] list[i], f.pair().0, f.pair().1);
        let c = list[i];
        assert(c[2] * 256 + c[3] == afi);
        assert(c[2] == 0);
    }
    if names_family(caps, afi, safi) {
        let i = choose|i: int|
            0 <= i < list.len() && {
                let c = #[trigger] list[i];
                c.len() == 6 && c[0] == 1 && c[1] == 4 && c[2] == 0 && c[3] == afi && c[5] == safi
            };
        assert(is_mp_cap(list[i], f.pair().0, f.pair().1));
    }
}

/// The capability of a family, as it is advertised.
proof fn lemma_mp_caps(families: Seq<AfiSafiType>)
    requires
        forall|i: int| 0 <= i < families.len() ==> (#[trigger] families[i]).reemitted(),
    ensures
        whole_caps(mp_caps(families)),
        cap_list(mp_caps(families)).len() == families.len(),
        forall|i: int|
            0 <= i < families.len() ==> #[trigger] cap_list(mp_caps(families))[i] == mp_cap_bytes(
                families[i].pair().0 as int,
                families[i].pair().1,
            ),
    decreases families.len(),
{
    if families.len() > 0 {
        let front = families.drop_last();
        assert forall|i: int| 0 <= i < front.len() implies (#[trigger] front[i]).reemitted() by {
            assert(front[i] == families[i]);
        }
        lemma_mp_caps(front);
        assert(families[families.len() - 1].reemitted());
        let c = mp_cap_bytes(families.last().pair().0 as int, families.last().pair().1);
        lemma_one_cap(c);
        lemma_caps_add(mp_caps(front), c);
        let list = cap_list(mp_caps(families));
        assert(list =~= cap_list(mp_caps(front)).push(c));
        assert forall|i: int| 0 <= i < families.len() implies #[trigger] list[i] == mp_cap_bytes(
            families[i].pair().0 as int,
            families[i].pair().1,
        ) by {
            if i < front.len() {
                assert(front[i] == families[i]);
                assert(list[i] == cap_list(mp_caps(front))[i]);
            }
        }
    } else {
        assert(cap_list(mp_caps(families)) =~= Seq::empty());
    }
}

/// The families of a peer can be carried, and are at most five.
proof fn lemma_supported(caps: Seq<u8>)
    ensures
        forall|i: int| 0 <= i < supported_list(caps).len() ==> (#[trigger] supported_list(caps)[i]).reemitted(),
        supported_list(caps).len() <= 5,
{
    let all = reemitted_families();
    let wanted = |f: AfiSafiType| supports(caps, f);
    all.lemma_filter_len(wanted);
    assert forall|i: int| 0 <= i < all.filter(wanted).len() implies (#[trigger] all.filter(wanted)[i]).reemitted() by {
        all.lemma_filter_contains_rev(wanted, all.filter(wanted)[i]);
        let k = choose|k: int| 0 <= k < all.len() && all[k] == all.filter(wanted)[i];
    }
}

/// The capabilities that each OPEN begins with, one after the other.
proof fn lemma_base(asn: u32, caps: Seq<u8>, restart: bool, addpath: Seq<u8>)
    requires
        addpath.len() < 256,
    ensures
        ({
            let families = supported_list(caps);
            let base = base_caps(asn, families, restart, addpath);
            let none = Seq::<Seq<u8>>::empty();
            &&& whole_caps(base)
            &&& cap_list(base) == seq![seq![65u8, 4u8] + be32(asn as int)] + seq![seq![6u8, 0u8]] + cap_list(
                mp_caps(families),
            ) + (if addpath.len() == 0 {
                none
            } else {
                seq![seq![69u8, addpath.len() as u8] + addpath]
            }) + (if restart {
                seq![gr_cap(families)]
            } else {
                none
            })
        }),
{
    let families = supported_list(caps);
    lemma_supported(caps);
    let c1 = seq![65u8, 4u8] + be32(asn as int);
    let c2 = seq![6u8, 0u8];
    let c3 = mp_caps(families);
    let c4 = addpath_cap(addpath);
    let none = Seq::<u8>::empty();
    let c5 = if restart {
        gr_cap(families)
    } else {
        none
    };
    lemma_one_cap(c1);
    lemma_one_cap(c2);
    lemma_mp_caps(families);
    assert(whole_caps(none));
    assert(cap_list(none) =~= Seq::empty());
    if addpath.len() > 0 {
        lemma_one_cap(c4);
    }
    if restart {
        crate::bmp_builder::graceful_restart_length_is_exact(caps);
        lemma_one_cap(c5);
    }
    lemma_caps_add(c1, c2);
    lemma_caps_add(c1 + c2, c3);
    lemma_caps_add(c1 + c2 + c3, c4);
    lemma_caps_add(c1 + c2 + c3 + c4, c5);
    assert(base_caps(asn, families, restart, addpath) =~= c1 + c2 + c3 + c4 + c5);
}

/// Whether capabilities have those that each OPEN of a session has: the AS
/// number in four octets, long messages, each family of the session, the
/// families with path ids, if there are any, and graceful restart just where
/// it is asked for.
#[verifier::opaque]
pub open spec fn has_basics(caps: Seq<u8>, peer: PeerInfo, restart: bool) -> bool {
    let mine = peer.peer_capabilities@;
    let n = peer.peer_asn as int;
    &&& advertises(
        caps,
        seq![65u8, 4u8, (n / 16777216) as u8, (n / 65536 % 256) as u8, (n / 256 % 256) as u8, (n % 256) as u8],
    )
    &&& advertises(caps, seq![6u8, 0u8])
    &&& advertises(caps, seq![1u8, 4u8, 0u8, 1u8, 0u8, 1u8])
    &&& names_family(mine, 2, 1) ==> advertises(caps, seq![1u8, 4u8, 0u8, 2u8, 0u8, 1u8])
    &&& names_family(mine, 1, 133) ==> advertises(caps, seq![1u8, 4u8, 0u8, 1u8, 0u8, 133u8])
    &&& names_family(mine, 2, 133) ==> advertises(caps, seq![1u8, 4u8, 0u8, 2u8, 0u8, 133u8])
    &&& names_family(mine, 25, 70) ==> advertises(caps, seq![1u8, 4u8, 0u8, 25u8, 0u8, 70u8])
    &&& peer.addpath_cap_value@.len() > 0 ==> advertises(
        caps,
        seq![69u8, peer.addpath_cap_value@.len() as u8] + peer.addpath_cap_value@,
    )
    &&& restart ==> exists|i: int| 0 <= i < cap_list(caps).len() && (#[trigger] cap_list(caps)[i])[0] == 64
}

/// The basics of a session are among the capabilities that its OPENs begin
/// with.
proof fn lemma_basics(peer: PeerInfo, restart: bool)
    requires
        peer.addpath_cap_value@.len() < 256,
    ensures
        has_basics(
            base_caps(
                peer.peer_asn,
                supported_list(peer.peer_capabilities@),
                restart,
                peer.addpath_cap_value@,
            ),
            peer,
            restart,
        ),
{
    reveal(has_basics);
    let mine = peer.peer_capabilities@;
    let families = supported_list(mine);
    let addpath = peer.addpath_cap_value@;
    let base = base_caps(peer.peer_asn, families, restart, addpath);
    lemma_base(peer.peer_asn, mine, restart, addpath);
    lemma_supported(mine);
    lemma_mp_caps(families);
    let list = cap_list(base);
    let n = peer.peer_asn as int;
    assert(list[0] =~= seq![
        65u8,
        4u8,
        (n / 16777216) as u8,
        (n / 65536 % 256) as u8,
        (n / 256 % 256) as u8,
        (n % 256) as u8,
    ]);
    assert(list[1] == seq![6u8, 0u8]);
    let m = families.len() as int;
    assert forall|i: int| 0 <= i < m implies list[2 + i] == #[trigger] cap_list(mp_caps(families))[i] by {}
    families_are_those_that_were_advertised(mine);
    lemma_family_listed(families, list, AfiSafiType::Ipv4Unicast, 1, 1);
    lemma_family_listed(families, list, AfiSafiType::Ipv6Unicast, 2, 1);
    lemma_family_listed(families, list, AfiSafiType::Ipv4FlowSpec, 1, 133);
    lemma_family_listed(families, list, AfiSafiType::Ipv6FlowSpec, 2, 133);
    lemma_family_listed(families, list, AfiSafiType::L2VpnEvpn, 25, 70);
    if addpath.len() > 0 {
        assert(list[2 + m] == seq![69u8, addpath.len() as u8] + addpath);
    }
    if restart {
        assert(list[list.len() - 1] == gr_cap(families));
    }
}

proof fn lemma_family_listed(
    families: Seq<AfiSafiType>,
    list: Seq<Seq<u8>>,
    f: AfiSafiType,
    afi: u8,
    safi: u8,
)
    requires
        f.pair() == (afi as u16, safi),
        cap_list(mp_caps(families)).len() == families.len(),
        2 + families.len() <= list.len(),
        forall|i: int|
            0 <= i < families.len() ==> #[trigger] cap_list(mp_caps(families))[i] == mp_cap_bytes(
                families[i].pair().0 as int,
                families[i].pair().1,
            ) && list[2 + i] == cap_list(mp_caps(families))[i],
    ensures
        families.contains(f) ==> list.contains(seq![1u8, 4u8, 0u8, afi, 0u8, safi]),
{
    if families.contains(f) {
        let i = choose|i: int| 0 <= i < families.len() && families[i] == f;
        assert(cap_list(mp_caps(families))[i] == mp_cap_bytes(f.pair().0 as int, f.pair().1));
        assert(mp_cap_bytes(afi as int, safi) =~= seq![1u8, 4u8, 0u8, afi, 0u8, safi]);
        assert(list[2 + i] == seq![1u8, 4u8, 0u8, afi, 0u8, safi]);
    }
}

/// The OPEN that was sent to a peer has the basics of the session, and no BGP
/// id.
pub proof fn the_sent_open_is_read_back(peer: PeerInfo, restart: bool)
    requires
        peer.addpath_cap_value@.len() <= 120,
    ensures
        ({
            let o = sent_open(peer, restart);
            &&& o.len() >= 31
            &&& o[18] == 1
            &&& o.subrange(24, 28) == seq![0u8, 0u8, 0u8, 0u8]
            &&& has_basics(o.skip(31), peer, restart)
        }),
{
    let caps = base_caps(peer.peer_asn, supported_list(peer.peer_capabilities@), restart, peer.addpath_cap_value@);
    lemma_basics(peer, restart);
    lemma_base_len(peer, restart);
    let id = crate::wire::zeros(4);
    assert(id =~= seq![0u8, 0u8, 0u8, 0u8]);
    an_open_is_read_back(peer.peer_asn, id, caps);
}

/// The capabilities that an OPEN begins with leave room for some more.
proof fn lemma_base_len(peer: PeerInfo, restart: bool)
    requires
        peer.addpath_cap_value@.len() <= 120,
    ensures
        base_caps(
            peer.peer_asn,
            supported_list(peer.peer_capabilities@),
            restart,
            peer.addpath_cap_value@,
        ).len() <= 84 + peer.addpath_cap_value@.len(),
{
    let families = supported_list(peer.peer_capabilities@);
    lemma_supported(peer.peer_capabilities@);
    lemma_mp_len(families);
}

proof fn lemma_mp_len(families: Seq<AfiSafiType>)
    ensures
        mp_caps(families).len() <= 6 * families.len(),
        gr_families(families).len() <= 4 * families.len(),
    decreases families.len(),
{
    if families.len() > 0 {
        lemma_mp_len(families.drop_last());
    }
}

/// Whether capabilities have all of others, and are whole.
spec fn grown(a: Seq<u8>, b: Seq<u8>) -> bool {
    &&& whole_caps(a) ==> whole_caps(b)
    &&& whole_caps(a) ==> forall|c: Seq<u8>| #[trigger] cap_list(a).contains(c) ==> cap_list(b).contains(c)
    &&& b.len() <= 253 || b == a
}

proof fn lemma_with_cap(caps: Seq<u8>, code: u8, value: Seq<u8>)
    ensures
        grown(caps, with_cap(caps, code, value)),
        whole_caps(caps) && caps.len() + 2 + value.len() <= 253 ==> advertises(
            with_cap(caps, code, value),
            seq![code, value.len() as u8] + value,
        ),
{
    if caps.len() + 2 + value.len() <= 253 {
        let c = seq![code, value.len() as u8] + value;
        lemma_one_cap(c);
        assert(with_cap(caps, code, value) =~= caps + c);
        if whole_caps(caps) {
            lemma_caps_add(caps, c);
            let (x, y) = (cap_list(caps), cap_list(caps + c));
            assert(y[x.len() as int] == c);
            assert forall|k: Seq<u8>| #[trigger] x.contains(k) implies y.contains(k) by {
                let i = choose|i: int| 0 <= i < x.len() && x[i] == k;
                assert(y[i] == k);
            }
        }
    }
}

proof fn lemma_passthrough(caps: Seq<u8>, list: Seq<Seq<u8>>)
    requires
        whole_caps(caps),
        forall|i: int| 0 <= i < list.len() ==> (#[trigger] list[i]).len() >= 2 && list[i].len() == 2 + list[i][1],
    ensures
        grown(caps, with_passthrough(caps, list)),
        caps.len() + total(list) <= 253 ==> forall|i: int|
            0 <= i < list.len() && !is_made_anew((#[trigger] list[i])[0]) ==> advertises(
                with_passthrough(caps, list),
                list[i],
            ),
        forall|c: Seq<u8>| #[trigger]
            cap_list(with_passthrough(caps, list)).contains(c) && !cap_list(caps).contains(c) ==> list.contains(c)
                && !is_made_anew(c[0]),
        with_passthrough(caps, list).len() <= caps.len() + total(list),
    decreases list.len(),
{
    if list.len() > 0 {
        let front = list.drop_last();
        assert forall|i: int| 0 <= i < front.len() implies (#[trigger] front[i]).len() >= 2 && front[i].len() == 2
            + front[i][1] by {
            assert(front[i] == list[i]);
        }
        lemma_passthrough(caps, front);
        let before = with_passthrough(caps, front);
        let c = list[list.len() - 1];
        let end = with_passthrough(caps, list);
        lemma_one_cap(c);
        lemma_caps_add(before, c);
        let (x, y) = (cap_list(before), cap_list(end));
        if end != before {
            assert(end == before + c);
            assert(y[x.len() as int] == c);
        }
        assert forall|k: Seq<u8>| #[trigger] x.contains(k) implies y.contains(k) by {
            let i = choose|i: int| 0 <= i < x.len() && x[i] == k;
            assert(y[i] == k);
        }
        assert forall|k: Seq<u8>| #[trigger] y.contains(k) && !cap_list(caps).contains(k) implies list.contains(k)
            && !is_made_anew(k[0]) by {
            if x.contains(k) {
                let i = choose|i: int| 0 <= i < front.len() && front[i] == k;
                assert(list[i] == k);
            } else {
                let i = choose|i: int| 0 <= i < y.len() && y[i] == k;
                assert(i >= x.len());
                assert(k == c);
            }
        }
        if caps.len() + total(list) <= 253 {
            assert forall|i: int| 0 <= i < list.len() && !is_made_anew((#[trigger] list[i])[0]) implies advertises(
                end,
                list[i],
            ) by {
                if i < front.len() {
                    assert(front[i] == list[i]);
                    assert(x.contains(list[i]));
                }
            }
        }
    }
}

/// Whether a capability of a peer is not repeated but made anew, or does not
/// fit the way routes are encoded: multiprotocol, extended next hop, long
/// messages, role, graceful restart, the AS number in four octets, path ids,
/// host name and software version.
pub open spec fn is_made_anew(code: u8) -> bool {
    code == 1 || code == 5 || code == 6 || code == 9 || code == 64 || code == 65 || code == 69 || code == 73 || code
        == 75
}

/// The octets of some capabilities.
pub open spec fn total(list: Seq<Seq<u8>>) -> int
    decreases list.len(),
{
    if list.len() == 0 {
        0
    } else {
        total(list.drop_last()) + list.last().len()
    }
}

/// Each capability that is read is as long as it says, and all together are no
/// longer than the octets.
proof fn lemma_listed_caps(s: Seq<u8>)
    ensures
        forall|i: int|
            0 <= i < cap_list(s).len() ==> (#[trigger] cap_list(s)[i]).len() >= 2 && cap_list(s)[i].len() == 2 + cap_list(
                s,
            )[i][1],
    decreases s.len(),
{
    if s.len() >= 2 && 2 + s[1] <= s.len() {
        let n = 2 + s[1];
        lemma_listed_caps(s.skip(n));
        let list = cap_list(s);
        assert forall|i: int| 0 <= i < list.len() implies (#[trigger] list[i]).len() >= 2 && list[i].len() == 2
            + list[i][1] by {
            if i > 0 {
                assert(list[i] == cap_list(s.skip(n))[i - 1]);
            }
        }
    }
}

/// The capabilities of the OPEN that was received from a peer.
#[verifier::opaque]
spec fn received_caps(peer: PeerInfo, restart: bool) -> Seq<u8> {
    with_passthrough(
        with_role(
            with_version(
                with_hostname(
                    base_caps(
                        peer.peer_asn,
                        supported_list(peer.peer_capabilities@),
                        restart,
                        peer.addpath_cap_value@,
                    ),
                    peer.peer_hostname,
                ),
                peer.peer_software_version,
            ),
            peer.peer_role,
        ),
        cap_list(peer.peer_capabilities@),
    )
}

/// The octets of an optional text.
pub open spec fn octets_or_none(text: Option<String>) -> Seq<u8> {
    match text {
        Some(t) => encode_utf8(t@),
        None => Seq::empty(),
    }
}

/// Whether the capabilities of a peer, with its host name, its software
/// version and its families with path ids, leave room for all in one OPEN.
pub open spec fn has_room(peer: PeerInfo) -> bool {
    peer.addpath_cap_value@.len() + octets_or_none(peer.peer_hostname).len() + octets_or_none(
        peer.peer_software_version,
    ).len() + total(cap_list(peer.peer_capabilities@)) <= 150
}

/// Whether capabilities have what a peer tells of itself: its host name, its
/// software version, its role, and each of its capabilities that is not made
/// anew.
#[verifier::opaque]
pub open spec fn has_extras(caps: Seq<u8>, peer: PeerInfo) -> bool {
    let mine = cap_list(peer.peer_capabilities@);
    let host = octets_or_none(peer.peer_hostname);
    let version = octets_or_none(peer.peer_software_version);
    &&& host.len() > 0 ==> advertises(
        caps,
        seq![73u8, (host.len() + 2) as u8] + (seq![host.len() as u8] + host + seq![0u8]),
    )
    &&& version.len() > 0 ==> advertises(
        caps,
        seq![75u8, (version.len() + 1) as u8] + (seq![version.len() as u8] + version),
    )
    &&& peer.peer_role matches Some(x) ==> advertises(caps, seq![9u8, 1u8] + seq![x])
    &&& forall|i: int| 0 <= i < mine.len() && !is_made_anew((#[trigger] mine[i])[0]) ==> advertises(caps, mine[i])
}

/// The OPEN that was received from a peer has its BGP id and the basics of the
/// session; and, where there is room for all, what the peer tells of itself.
pub proof fn the_received_open_is_read_back(peer: PeerInfo, restart: bool)
    requires
        peer.addpath_cap_value@.len() <= 120,
    ensures
        ({
            let o = received_open(peer, restart);
            &&& o.len() >= 31
            &&& o[18] == 1
            &&& o.subrange(24, 28) == peer.peer_bgp_id@
            &&& has_basics(o.skip(31), peer, restart)
            &&& has_room(peer) ==> has_extras(o.skip(31), peer)
        }),
{
    let caps = received_caps(peer, restart);
    assert(received_open(peer, restart) == open_bytes(peer.peer_asn, peer.peer_bgp_id@, caps)) by {
        reveal(received_caps);
    }
    lemma_received_caps(peer, restart);
    an_open_is_read_back(peer.peer_asn, peer.peer_bgp_id@, caps);
}

proof fn lemma_received_caps(peer: PeerInfo, restart: bool)
    requires
        peer.addpath_cap_value@.len() <= 120,
    ensures
        received_caps(peer, restart).len() <= 253,
        has_basics(received_caps(peer, restart), peer, restart),
        has_room(peer) ==> has_extras(received_caps(peer, restart), peer),
{
    let base = base_caps(peer.peer_asn, supported_list(peer.peer_capabilities@), restart, peer.addpath_cap_value@);
    let mine = cap_list(peer.peer_capabilities@);
    lemma_basics(peer, restart);
    lemma_base_len(peer, restart);
    lemma_base(peer.peer_asn, peer.peer_capabilities@, restart, peer.addpath_cap_value@);
    lemma_listed_caps(peer.peer_capabilities@);
    lemma_grow(base, peer, restart);
}

proof fn lemma_grow(base: Seq<u8>, peer: PeerInfo, restart: bool)
    requires
        base == base_caps(
            peer.peer_asn,
            supported_list(peer.peer_capabilities@),
            restart,
            peer.addpath_cap_value@,
        ),
        whole_caps(base),
        base.len() <= 84 + peer.addpath_cap_value@.len(),
        peer.addpath_cap_value@.len() <= 120,
        has_basics(base, peer, restart),
        forall|i: int|
            0 <= i < cap_list(peer.peer_capabilities@).len() ==> (#[trigger] cap_list(peer.peer_capabilities@)[i]).len()
                >= 2 && cap_list(peer.peer_capabilities@)[i].len() == 2 + cap_list(peer.peer_capabilities@)[i][1],
    ensures
        received_caps(peer, restart).len() <= 253,
        has_basics(received_caps(peer, restart), peer, restart),
        has_room(peer) ==> has_extras(received_caps(peer, restart), peer),
{
    reveal(received_caps);
    let mine = cap_list(peer.peer_capabilities@);
    let c1 = with_hostname(base, peer.peer_hostname);
    let c2 = with_version(c1, peer.peer_software_version);
    let c3 = with_role(c2, peer.peer_role);
    let caps = with_passthrough(c3, mine);
    lemma_hostname(base, peer.peer_hostname);
    lemma_version(c1, peer.peer_software_version);
    lemma_role(c2, peer.peer_role);
    lemma_passthrough(c3, mine);
    lemma_grown_twice(c2, c3, caps);
    lemma_grown_twice(c1, c2, caps);
    lemma_grown_twice(base, c1, caps);
    lemma_basics_stay(base, caps, peer, restart);
    lemma_total(mine);
    reveal(has_extras);
}

proof fn lemma_total(list: Seq<Seq<u8>>)
    ensures
        total(list) >= 0,
    decreases list.len(),
{
    if list.len() > 0 {
        lemma_total(list.drop_last());
    }
}

proof fn lemma_grown_twice(a: Seq<u8>, b: Seq<u8>, c: Seq<u8>)
    requires
        grown(a, b),
        grown(b, c),
    ensures
        grown(a, c),
{
}

proof fn lemma_hostname(caps: Seq<u8>, host: Option<String>)
    requires
        whole_caps(caps),
    ensures
        grown(caps, with_hostname(caps, host)),
        whole_caps(with_hostname(caps, host)),
        host matches Some(h) ==> {
            let b = encode_utf8(h@);
            &&& with_hostname(caps, host).len() <= caps.len() + b.len() + 4
            &&& 0 < b.len() <= 150 && caps.len() + b.len() + 4 <= 253 ==> advertises(
                with_hostname(caps, host),
                seq![73u8, (b.len() + 2) as u8] + (seq![b.len() as u8] + b + seq![0u8]),
            )
        },
        host is None ==> with_hostname(caps, host) == caps,
{
    match host {
        Some(h) => {
            let b = encode_utf8(h@);
            lemma_with_cap(caps, 73, seq![b.len() as u8] + b + seq![0u8]);
        },
        None => {},
    }
}

proof fn lemma_version(caps: Seq<u8>, version: Option<String>)
    requires
        whole_caps(caps),
    ensures
        grown(caps, with_version(caps, version)),
        whole_caps(with_version(caps, version)),
        version matches Some(v) ==> {
            let b = encode_utf8(v@);
            &&& with_version(caps, version).len() <= caps.len() + b.len() + 3
            &&& 0 < b.len() <= 150 && caps.len() + b.len() + 3 <= 253 ==> advertises(
                with_version(caps, version),
                seq![75u8, (b.len() + 1) as u8] + (seq![b.len() as u8] + b),
            )
        },
        version is None ==> with_version(caps, version) == caps,
{
    match version {
        Some(v) => {
            let b = encode_utf8(v@);
            lemma_with_cap(caps, 75, seq![b.len() as u8] + b);
        },
        None => {},
    }
}

proof fn lemma_role(caps: Seq<u8>, role: Option<u8>)
    requires
        whole_caps(caps),
    ensures
        grown(caps, with_role(caps, role)),
        whole_caps(with_role(caps, role)),
        with_role(caps, role).len() <= caps.len() + 3,
        caps.len() + 3 <= 253 ==> (role matches Some(x) ==> advertises(with_role(caps, role), seq![9u8, 1u8] + seq![x])),
{
    match role {
        Some(x) => {
            lemma_with_cap(caps, 9, seq![x]);
        },
        None => {},
    }
}

/// What grows keeps the basics.
proof fn lemma_basics_stay(a: Seq<u8>, b: Seq<u8>, peer: PeerInfo, restart: bool)
    requires
        whole_caps(a),
        grown(a, b),
        has_basics(a, peer, restart),
    ensures
        has_basics(b, peer, restart),
{
    reveal(has_basics);
    if restart {
        let i = choose|i: int| 0 <= i < cap_list(a).len() && (#[trigger] cap_list(a)[i])[0] == 64;
        assert(cap_list(a).contains(cap_list(a)[i]));
        let k = choose|k: int| 0 <= k < cap_list(b).len() && cap_list(b)[k] == cap_list(a)[i];
        assert(cap_list(b)[k][0] == 64);
    }
}

} // verus!
