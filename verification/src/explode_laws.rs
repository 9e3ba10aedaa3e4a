//! Laws of the routes of an UPDATE: each NLRI of a known family becomes one
//! route of that family, with its path id and the attributes of the UPDATE.
use vstd::prelude::*;

use crate::explode::{
    exploded, nlri_of, path_id_families, route_of, update_attrs, update_routes, ExplodedView, WireView,
};
use crate::labelled::{is_last_label, labelled_fit, labels_len};
use crate::route::{NlriKind, RotondaRoute};
use crate::types::{AfiSafiType, PeerType};
use crate::wire::get16;

verus! {

/// A route is of the family that its kind names, has the attributes that it
/// was made with, and is for what it was made for.
pub proof fn a_route_is_what_its_kind_says(route: RotondaRoute)
    ensures
        match route {
            RotondaRoute::Ipv4Unicast(p, a) => route.family() is Ipv4Unicast && route.nlri() == NlriKind::Prefix(p@)
                && route.attrs() == a@,
            RotondaRoute::Ipv6Unicast(p, a) => route.family() is Ipv6Unicast && route.nlri() == NlriKind::Prefix(p@)
                && route.attrs() == a@,
            RotondaRoute::Ipv4Multicast(p, a) => route.family() is Ipv4Multicast && route.nlri() == NlriKind::Prefix(p@)
                && route.attrs() == a@,
            RotondaRoute::Ipv6Multicast(p, a) => route.family() is Ipv6Multicast && route.nlri() == NlriKind::Prefix(p@)
                && route.attrs() == a@,
            RotondaRoute::Ipv4FlowSpec(n, a) => route.family() is Ipv4FlowSpec && route.nlri() == NlriKind::Rule(n@)
                && route.attrs() == a@,
            RotondaRoute::Ipv6FlowSpec(n, a) => route.family() is Ipv6FlowSpec && route.nlri() == NlriKind::Rule(n@)
                && route.attrs() == a@,
            RotondaRoute::L2VpnEvpn(n, a) => route.family() is L2VpnEvpn && route.nlri() == NlriKind::Evpn(n.raw@)
                && route.attrs() == a@,
        },
{
}

/// Families are told apart by two numbers, and peers of a monitored router by
/// one.
pub proof fn numbers_tell_families_and_peers(family: AfiSafiType, peer: PeerType)
    ensures
        family is Ipv4Unicast ==> family.pair() == (1u16, 1u8),
        family is Ipv6Unicast ==> family.pair() == (2u16, 1u8),
        family is Ipv4Multicast ==> family.pair() == (1u16, 2u8),
        family is Ipv6Multicast ==> family.pair() == (2u16, 2u8),
        family is Ipv4FlowSpec ==> family.pair() == (1u16, 133u8),
        family is Ipv6FlowSpec ==> family.pair() == (2u16, 133u8),
        family is L2VpnEvpn ==> family.pair() == (25u16, 70u8),
        family matches AfiSafiType::Unsupported(afi, safi) ==> family.pair() == (afi, safi),
        peer is GlobalInstance ==> peer.code() == 0,
        peer is RdInstance ==> peer.code() == 1,
        peer is LocalInstance ==> peer.code() == 2,
        peer is LocalRibInstance ==> peer.code() == 3,
        peer matches PeerType::Unimplemented(n) ==> peer.code() == n,
        family.reemitted() == !(family is Ipv4Multicast || family is Ipv6Multicast || family is Unsupported),
{
}

/// The octets of an NLRI behind its path id, if it has one.
pub open spec fn behind_path_id(w: WireView) -> Seq<u8> {
    if w.2 {
        w.3.skip(4)
    } else {
        w.3
    }
}

/// Whether a route is that of an NLRI, with some attributes.
pub open spec fn is_route_of(e: ExplodedView, w: WireView, attrs: Seq<u8>) -> bool {
    &&& nlri_of(w.0, w.1, behind_path_id(w)) == Some((e.family, e.nlri))
    &&& e.attrs == seq![0u8, 1] + attrs
    &&& !w.2 ==> e.path_id is None
    &&& w.2 ==> w.3.len() >= 4 && e.path_id == Some(
        (w.3[0] * 16777216 + w.3[1] * 65536 + w.3[2] * 256 + w.3[3]) as u32,
    )
}

/// Each NLRI of a known family becomes a route, with its path id and the
/// attributes, and nothing else does.
pub proof fn each_nlri_becomes_a_route(list: Seq<WireView>, attrs: Seq<u8>)
    ensures
        forall|i: int|
            0 <= i < list.len() && ((#[trigger] list[i]).2 ==> list[i].3.len() >= 4) && nlri_of(
                list[i].0,
                list[i].1,
                behind_path_id(list[i]),
            ) is Some ==> has_route_of(exploded(list, attrs), list[i], attrs),
        forall|k: int|
            0 <= k < exploded(list, attrs).len() ==> comes_from(list, #[trigger] exploded(list, attrs)[k], attrs),
        exploded(list, attrs).len() <= list.len(),
    decreases list.len(),
{
    let all = exploded(list, attrs);
    if list.len() > 0 {
        let before = list.drop_last();
        let rest = exploded(before, attrs);
        let w = list.last();
        each_nlri_becomes_a_route(before, attrs);
        assert(w.3.skip(0) =~= w.3);
        if route_of(w) is Some {
            assert(route_of(w) matches Some((family, _, _)) && all[rest.len() as int].family == family);
            assert(is_route_of(all[rest.len() as int], w, attrs));
            assert forall|k: int| 0 <= k < rest.len() implies all[k] == rest[k] by {}
        }
        assert forall|i: int|
            0 <= i < list.len() && ((#[trigger] list[i]).2 ==> list[i].3.len() >= 4) && nlri_of(
                list[i].0,
                list[i].1,
                behind_path_id(list[i]),
            ) is Some implies has_route_of(all, list[i], attrs) by {
            if i < before.len() {
                assert(before[i] == list[i]);
                assert(has_route_of(rest, before[i], attrs));
                let k = choose|k: int| 0 <= k < rest.len() && is_route_of(#[trigger] rest[k], before[i], attrs);
                assert(is_route_of(all[k], list[i], attrs));
            } else {
                assert(is_route_of(all[rest.len() as int], list[i], attrs));
            }
        }
        assert forall|k: int| 0 <= k < all.len() implies comes_from(list, #[trigger] all[k], attrs) by {
            if k < rest.len() {
                assert(comes_from(before, rest[k], attrs));
                let i = choose|i: int| 0 <= i < before.len() && is_route_of(rest[k], #[trigger] before[i], attrs);
                assert(is_route_of(all[k], list[i], attrs));
            } else {
                assert(is_route_of(all[k], list[list.len() - 1], attrs));
            }
        }
    }
}

/// Whether routes have that of an NLRI.
pub open spec fn has_route_of(all: Seq<ExplodedView>, w: WireView, attrs: Seq<u8>) -> bool {
    exists|k: int| 0 <= k < all.len() && is_route_of(#[trigger] all[k], w, attrs)
}

/// Whether a route is that of one of some NLRI.
pub open spec fn comes_from(list: Seq<WireView>, e: ExplodedView, attrs: Seq<u8>) -> bool {
    exists|i: int| 0 <= i < list.len() && is_route_of(e, #[trigger] list[i], attrs)
}

/// The attributes of an UPDATE stand behind its header, the withdrawn routes
/// and the two lengths.
pub proof fn attributes_are_found_by_the_lengths(
    head: Seq<u8>,
    withdrawn: Seq<u8>,
    attrs: Seq<u8>,
    nlri: Seq<u8>,
    pdu: Seq<u8>,
)
    requires
        head.len() == 19,
        withdrawn.len() < 65536,
        attrs.len() < 65536,
        pdu == head + seq![(withdrawn.len() / 256) as u8, (withdrawn.len() % 256) as u8] + withdrawn + seq![
            (attrs.len() / 256) as u8,
            (attrs.len() % 256) as u8,
        ] + attrs + nlri,
    ensures
        update_attrs(pdu) == attrs,
{
    let w = withdrawn.len() as int;
    let n = attrs.len() as int;
    assert(pdu[19] == w / 256 && pdu[20] == w % 256);
    assert(get16(pdu, 19) == w);
    assert(pdu[21 + w] == n / 256 && pdu[22 + w] == n % 256);
    assert(get16(pdu, 21 + w) == n);
    assert(pdu.subrange(23 + w, 23 + w + n) =~= attrs);
}

/// What an UPDATE announces has its attributes; what it withdraws has none.
pub proof fn announced_routes_have_the_attributes(pdu: Seq<u8>, path_ids: bool)
    requires
        update_routes(pdu, path_ids) matches Some(Some(_)),
    ensures
        ({
            let (a, w) = update_routes(pdu, path_ids)->Some_0->Some_0;
            &&& forall|k: int| 0 <= k < a.len() ==> (#[trigger] a[k]).attrs == seq![0u8, 1] + update_attrs(pdu)
            &&& forall|k: int| 0 <= k < w.len() ==> (#[trigger] w[k]).attrs == seq![0u8, 1]
        }),
{
    let families = path_id_families(path_ids);
    let (a, w) = update_routes(pdu, path_ids)->Some_0->Some_0;
    let none = Seq::<u8>::empty();
    let la = crate::explode::announced_nlri(pdu, families)->Some_0;
    let lw = crate::explode::withdrawn_nlri(pdu, families)->Some_0;
    each_nlri_becomes_a_route(la, update_attrs(pdu));
    each_nlri_becomes_a_route(lw, none);
    assert(seq![0u8, 1] + none =~= seq![0u8, 1]);
    assert forall|k: int| 0 <= k < a.len() implies (#[trigger] a[k]).attrs == seq![0u8, 1] + update_attrs(pdu) by {
        assert(comes_from(la, a[k], update_attrs(pdu)));
    }
    assert forall|k: int| 0 <= k < w.len() implies (#[trigger] w[k]).attrs == seq![0u8, 1] by {
        assert(comes_from(lw, w[k], none));
    }
}

/// All known families have path ids where any have.
pub proof fn path_ids_are_for_all_families(path_ids: bool, family: AfiSafiType)
    requires
        !(family is Unsupported),
    ensures
        path_id_families(path_ids).contains(family.pair()) == path_ids,
{
    let all = path_id_families(path_ids);
    if path_ids {
        assert(all[0] == (1u16, 1u8) && all[1] == (2u16, 1u8) && all[2] == (1u16, 2u8) && all[3] == (2u16, 2u8)
            && all[4] == (1u16, 133u8) && all[5] == (2u16, 133u8) && all[6] == (25u16, 70u8));
    }
}

/// An NLRI with one label is refused just if its prefix is longer than an
/// address of its family. A route distinguisher may stand between the label
/// and the prefix, and a path id in front.
#[verifier::spinoff_prover]
#[verifier::rlimit(30)]
pub proof fn a_labelled_prefix_fits_its_family(
    path_id: Seq<u8>,
    label: Seq<u8>,
    rd: Seq<u8>,
    bits: u8,
    octets: Seq<u8>,
    is_v4: bool,
)
    requires
        path_id.len() == 0 || path_id.len() == 4,
        label.len() == 3,
        label[2] % 2 == 1,
        rd.len() == 0 || rd.len() == 8,
        octets.len() == (bits + 7) / 8,
        24 + 8 * rd.len() + bits <= 255,
    ensures
        labelled_fit(
            path_id + seq![(24 + 8 * rd.len() + bits) as u8] + label + rd + octets,
            is_v4,
            rd.len() == 8,
            path_id.len() == 4,
        ) == (bits <= (if is_v4 { 32int } else { 128 })),
{
    let s = path_id + seq![(24 + 8 * rd.len() + bits) as u8] + label + rd + octets;
    let head = path_id.len() + 1;
    let t = s.skip(head as int);
    let l = label[2];
    assert(l & 1 == 1) by (bit_vector)
        requires
            l % 2 == 1,
    ;
    assert(t[0] == label[0] && t[1] == label[1] && t[2] == label[2]);
    assert(is_last_label(t));
    assert(labels_len(t) == Some(3int));
    let end = head + 3 + rd.len() + octets.len();
    assert(s[head - 1] == 24 + 8 * rd.len() + bits);
    assert(s.skip(end as int) =~= Seq::<u8>::empty());
    reveal_with_fuel(labelled_fit, 2);
}

} // verus!
