//! Laws of EVPN routes: where their fields stand in the octets of a route and
//! of its path attributes, and that a query shows what was announced.
use vstd::prelude::*;

use crate::evpn::{
    admin_number_text, community_mac, community_targets, evpn_body, evpn_next_hop, label_list, mac_of, opt_addr,
    opt_prefix, targets_of, texts_are, EvpnNlri,
};
use crate::evpn_rows::{evpn_passes, has_evpn_row, is_asked_for, is_overlay, route_key, EvpnFilter, EvpnRow};
use crate::pamap::{attr_blob, attr_list, RotondaPaMap};
use crate::rib::Rib;
use crate::route::RotondaRoute;
use crate::store::UpsertReport;
use crate::text::{colon_hex, decimal, dotted, hex_text, opt_text};
use crate::types::{IngressId, RouteStatus};

verus! {

/// The number that two octets from a position on hold.
pub open spec fn pair_at(s: Seq<u8>, at: int) -> nat {
    (s[at] * 256 + s[at + 1]) as nat
}

/// The number that four octets from a position on hold.
pub open spec fn quad_at(s: Seq<u8>, at: int) -> nat {
    (s[at] * 16777216 + s[at + 1] * 65536 + s[at + 2] * 256 + s[at + 3]) as nat
}

/// The number that three octets from a position on hold.
pub open spec fn triple_at(s: Seq<u8>, at: int) -> int {
    s[at] * 65536 + s[at + 1] * 256 + s[at + 2]
}

/// The route distinguisher of a route is shown by its type: as a two-octet AS
/// number and a number, as an address and a number, as a four-octet AS number
/// and a number, or in hexadecimal digits.
pub proof fn a_route_distinguisher_is_shown_by_its_type(n: EvpnNlri)
    requires
        n.wf(),
    ensures
        ({
            let raw = n.raw@;
            let colon = seq![':'];
            &&& raw[2] == 0 && raw[3] == 0 ==> n.rd@ == decimal(pair_at(raw, 4)) + colon + decimal(quad_at(raw, 6))
            &&& raw[2] == 0 && raw[3] == 1 ==> n.rd@ == dotted(raw.subrange(4, 8)) + colon + decimal(pair_at(raw, 8))
            &&& raw[2] == 0 && raw[3] == 2 ==> n.rd@ == decimal(quad_at(raw, 4)) + colon + decimal(pair_at(raw, 8))
            &&& raw[2] != 0 || raw[3] > 2 ==> n.rd@ == hex_text(raw.subrange(2, 10))
        }),
{
    let raw = n.raw@;
    let b = evpn_body(raw).take(8);
    assert(forall|i: int| 0 <= i < 8 ==> #[trigger] b[i] == raw[i + 2]);
    assert(b =~= raw.subrange(2, 10));
    assert(b.subrange(2, 6) =~= raw.subrange(4, 8));
}

/// An Ethernet auto-discovery route has its segment, its tag and one label,
/// in that order, behind the route distinguisher.
pub proof fn an_auto_discovery_route_is_read_by_place(n: EvpnNlri)
    requires
        n.wf(),
        n.raw@[0] == 1,
    ensures
        ({
            let raw = n.raw@;
            &&& raw.len() == 27
            &&& n.route_type == 1
            &&& opt_text(n.esi) == Some(hex_text(raw.subrange(10, 20)))
            &&& n.ethernet_tag == Some(quad_at(raw, 20) as u32)
            &&& n.labels@.len() == 1
            &&& n.labels@[0] == triple_at(raw, 24)
            &&& n.mac is None
            &&& n.prefix is None
            &&& n.gateway is None
            &&& n.key@ == seq![1u8] + raw.subrange(2, 24)
        }),
{
    let raw = n.raw@;
    let b = evpn_body(raw);
    lemma_body(raw);
    assert(b.subrange(8, 18) =~= raw.subrange(10, 20));
    assert(b.take(22) =~= raw.subrange(2, 24));
    lemma_labels(b.subrange(22, 25));
}

/// A MAC/IP route has its segment, its tag, its MAC, an address or none, and
/// one or two labels, in that order, behind the route distinguisher.
#[verifier::spinoff_prover]
#[verifier::rlimit(30)]
pub proof fn a_mac_ip_route_is_read_by_place(n: EvpnNlri)
    requires
        n.wf(),
        n.raw@[0] == 2,
    ensures
        ({
            let raw = n.raw@;
            let size: int = if raw[31] == 32 { 4 } else if raw[31] == 128 { 16 } else { 0 };
            &&& raw[24] == 48
            &&& raw[31] == 0 || raw[31] == 32 || raw[31] == 128
            &&& raw.len() == 35 + size || raw.len() == 38 + size
            &&& n.route_type == 2
            &&& opt_text(n.esi) == Some(hex_text(raw.subrange(10, 20)))
            &&& n.ethernet_tag == Some(quad_at(raw, 20) as u32)
            &&& opt_text(n.mac) == Some(colon_hex(raw.subrange(25, 31)))
            &&& raw[31] == 0 ==> n.prefix is None
            &&& raw[31] != 0 ==> opt_prefix(n.prefix) == Some((raw[31] == 32, raw.subrange(32, 32 + size), raw[31]))
            &&& n.labels@.len() == (if raw.len() == 38 + size { 2int } else { 1 })
            &&& n.labels@[0] == triple_at(raw, 32 + size)
            &&& raw.len() == 38 + size ==> n.labels@[1] == triple_at(raw, 35 + size)
            &&& n.gateway is None
            &&& n.key@ == seq![2u8] + raw.subrange(2, 10) + raw.subrange(20, 24) + raw.subrange(24, 32 + size)
        }),
{
    let raw = n.raw@;
    let b = evpn_body(raw);
    lemma_body(raw);
    let size: int = if raw[31] == 32 { 4 } else if raw[31] == 128 { 16 } else { 0 };
    assert(b.subrange(8, 18) =~= raw.subrange(10, 20));
    assert(b.subrange(23, 29) =~= raw.subrange(25, 31));
    assert(b.subrange(30, 30 + size) =~= raw.subrange(32, 32 + size));
    assert(b.take(8) =~= raw.subrange(2, 10));
    assert(b.subrange(18, 22) =~= raw.subrange(20, 24));
    assert(b.subrange(22, 30 + size) =~= raw.subrange(24, 32 + size));
    let t = b.skip(30 + size);
    lemma_labels(t);
    assert(t[0] == raw[32 + size] && t[1] == raw[33 + size] && t[2] == raw[34 + size]);
    if raw.len() == 38 + size {
        assert(t[3] == raw[35 + size] && t[4] == raw[36 + size] && t[5] == raw[37 + size]);
    }
}

/// A multicast route has its tag and an address behind the route
/// distinguisher; a segment route has its segment and an address. Their octets
/// identify them.
pub proof fn multicast_and_segment_routes_are_read_by_place(n: EvpnNlri)
    requires
        n.wf(),
    ensures
        ({
            let raw = n.raw@;
            &&& n.raw@[0] == 3 ==> {
                &&& n.route_type == 3
                &&& n.ethernet_tag == Some(quad_at(raw, 10) as u32)
                &&& n.esi is None
                &&& raw[14] == 32 && raw.len() == 19 || raw[14] == 128 && raw.len() == 31
            }
            &&& n.raw@[0] == 4 ==> {
                &&& n.route_type == 4
                &&& opt_text(n.esi) == Some(hex_text(raw.subrange(10, 20)))
                &&& n.ethernet_tag is None
                &&& raw[20] == 32 && raw.len() == 25 || raw[20] == 128 && raw.len() == 37
            }
            &&& n.raw@[0] == 3 || n.raw@[0] == 4 ==> {
                &&& n.mac is None
                &&& n.prefix is None
                &&& n.gateway is None
                &&& n.labels@.len() == 0
                &&& n.key@ == raw
            }
        }),
{
    let raw = n.raw@;
    let b = evpn_body(raw);
    lemma_body(raw);
    if raw[0] == 4 {
        assert(b.subrange(8, 18) =~= raw.subrange(10, 20));
    }
}

/// An IP prefix route has its segment, its tag, its prefix, its gateway and
/// one label, in that order, behind the route distinguisher.
#[verifier::spinoff_prover]
#[verifier::rlimit(30)]
pub proof fn an_ip_prefix_route_is_read_by_place(n: EvpnNlri)
    requires
        n.wf(),
        n.raw@[0] == 5,
    ensures
        ({
            let raw = n.raw@;
            let size: int = if raw.len() == 36 { 4 } else { 16 };
            &&& raw.len() == 36 || raw.len() == 60
            &&& n.route_type == 5
            &&& opt_text(n.esi) == Some(hex_text(raw.subrange(10, 20)))
            &&& n.ethernet_tag == Some(quad_at(raw, 20) as u32)
            &&& opt_prefix(n.prefix) == Some((size == 4, raw.subrange(25, 25 + size), raw[24]))
            &&& opt_addr(n.gateway) == Some((size == 4, raw.subrange(25 + size, 25 + 2 * size)))
            &&& n.labels@.len() == 1
            &&& n.labels@[0] == triple_at(raw, 25 + 2 * size)
            &&& n.mac is None
            &&& n.key@.take(13) == seq![5u8] + raw.subrange(2, 10) + raw.subrange(20, 24)
        }),
{
    let raw = n.raw@;
    let b = evpn_body(raw);
    lemma_body(raw);
    let size: int = if raw.len() == 36 { 4 } else { 16 };
    assert(b.subrange(8, 18) =~= raw.subrange(10, 20));
    assert(b.subrange(23, 23 + size) =~= raw.subrange(25, 25 + size));
    assert(b.subrange(23 + size, 23 + 2 * size) =~= raw.subrange(25 + size, 25 + 2 * size));
    assert(b.take(8) =~= raw.subrange(2, 10));
    assert(b.subrange(18, 22) =~= raw.subrange(20, 24));
    let t = b.skip(23 + 2 * size);
    lemma_labels(t);
    assert(t[0] == raw[25 + 2 * size] && t[1] == raw[26 + 2 * size] && t[2] == raw[27 + 2 * size]);
    assert(n.key@.take(13) =~= seq![5u8] + raw.subrange(2, 10) + raw.subrange(20, 24));
}

/// What follows the type and the length of a route, octet by octet.
proof fn lemma_body(raw: Seq<u8>)
    requires
        raw.len() >= 2,
    ensures
        evpn_body(raw).len() == raw.len() - 2,
        forall|i: int| 0 <= i < raw.len() - 2 ==> #[trigger] evpn_body(raw)[i] == raw[i + 2],
{
}

/// Three octets hold one label, six hold two.
proof fn lemma_labels(s: Seq<u8>)
    ensures
        s.len() == 3 ==> label_list(s).len() == 1 && label_list(s)[0] == s[0] * 65536 + s[1] * 256 + s[2],
        s.len() == 6 ==> label_list(s).len() == 2 && label_list(s)[0] == s[0] * 65536 + s[1] * 256 + s[2]
            && label_list(s)[1] == s[3] * 65536 + s[4] * 256 + s[5],
{
    reveal_with_fuel(label_list, 3);
}

/// Whether the eight octets of an extended community, counted from none, are
/// a route target, and `text` shows it: a two-octet AS number, an address or
/// a four-octet AS number, and a number.
pub open spec fn is_target(v: Seq<u8>, k: int, text: Seq<char>) -> bool {
    let at = 8 * k;
    let colon = seq![':'];
    &&& v[at + 1] == 2
    &&& {
        ||| v[at] == 0 && text == decimal(pair_at(v, at + 2)) + colon + decimal(quad_at(v, at + 4))
        ||| v[at] == 1 && text == dotted(v.subrange(at + 2, at + 6)) + colon + decimal(pair_at(v, at + 6))
        ||| v[at] == 2 && text == decimal(quad_at(v, at + 2)) + colon + decimal(pair_at(v, at + 6))
    }
}

/// The texts of the route targets among extended communities are those of the
/// groups of eight octets that are route targets, and of no other.
pub proof fn route_targets_are_read_by_place(v: Seq<u8>, text: Seq<char>)
    ensures
        community_targets(v).contains(text) <==> exists|k: int|
            0 <= k && 8 * k + 8 <= v.len() && #[trigger] is_target(v, k, text),
    decreases v.len(),
{
    if v.len() >= 8 {
        let rest = v.skip(8);
        let first = v.take(8);
        route_targets_are_read_by_place(rest, text);
        let head = if v[1] == 2 && v[0] <= 2 {
            seq![admin_number_text(v[0] as int, first)]
        } else {
            Seq::empty()
        };
        let all = community_targets(v);
        assert(all == head + community_targets(rest));
        assert(v.subrange(2, 6) =~= first.subrange(2, 6));
        assert(forall|i: int| 0 <= i < 8 ==> first[i] == v[i]);
        assert(head.contains(text) <==> is_target(v, 0, text)) by {
            if is_target(v, 0, text) {
                assert(head[0] == text);
            }
        }
        assert forall|k: int| 0 <= k && 8 * k + 8 <= rest.len() implies #[trigger] is_target(rest, k, text)
            == is_target(v, k + 1, text) by {
            assert(rest.subrange(8 * k + 2, 8 * k + 6) =~= v.subrange(8 * (k + 1) + 2, 8 * (k + 1) + 6));
            assert(forall|i: int| 0 <= i < 8 ==> #[trigger] rest[8 * k + i] == v[8 * (k + 1) + i]);
        }
        if all.contains(text) {
            let i = choose|i: int| 0 <= i < all.len() && all[i] == text;
            if i < head.len() {
                assert(head[i] == text);
                assert(is_target(v, 0, text));
            } else {
                assert(community_targets(rest)[i - head.len()] == text);
                let k = choose|k: int| 0 <= k && 8 * k + 8 <= rest.len() && #[trigger] is_target(rest, k, text);
                assert(is_target(v, k + 1, text));
            }
        }
        if exists|k: int| 0 <= k && 8 * k + 8 <= v.len() && #[trigger] is_target(v, k, text) {
            let k = choose|k: int| 0 <= k && 8 * k + 8 <= v.len() && #[trigger] is_target(v, k, text);
            if k == 0 {
                assert(head.contains(text));
                let i = choose|i: int| 0 <= i < head.len() && head[i] == text;
                assert(all[i] == text);
            } else {
                assert(is_target(rest, k - 1, text));
                assert(community_targets(rest).contains(text));
                let i = choose|i: int| 0 <= i < community_targets(rest).len() && community_targets(rest)[i] == text;
                assert(all[head.len() + i] == text);
            }
        }
    }
}

/// The route targets of a route are those of its extended communities
/// attributes, and of no other attribute.
pub proof fn route_targets_are_those_of_the_attributes(attrs: Seq<(u8, Seq<u8>)>, text: Seq<char>)
    ensures
        targets_of(attrs).contains(text) <==> exists|j: int|
            0 <= j < attrs.len() && (#[trigger] attrs[j]).0 == 16 && community_targets(attrs[j].1).contains(text),
    decreases attrs.len(),
{
    if attrs.len() > 0 {
        let rest = attrs.drop_last();
        route_targets_are_those_of_the_attributes(rest, text);
        let tail = if attrs.last().0 == 16 {
            community_targets(attrs.last().1)
        } else {
            Seq::empty()
        };
        let all = targets_of(attrs);
        assert(all == targets_of(rest) + tail);
        if all.contains(text) {
            let i = choose|i: int| 0 <= i < all.len() && all[i] == text;
            if i < targets_of(rest).len() {
                assert(targets_of(rest)[i] == text);
                let j = choose|j: int|
                    0 <= j < rest.len() && (#[trigger] rest[j]).0 == 16 && community_targets(rest[j].1).contains(text);
                assert(attrs[j] == rest[j]);
            } else {
                assert(tail[i - targets_of(rest).len()] == text);
                assert(attrs[attrs.len() - 1] == attrs.last());
            }
        }
        if exists|j: int|
            0 <= j < attrs.len() && (#[trigger] attrs[j]).0 == 16 && community_targets(attrs[j].1).contains(text) {
            let j = choose|j: int|
                0 <= j < attrs.len() && (#[trigger] attrs[j]).0 == 16 && community_targets(attrs[j].1).contains(text);
            if j < rest.len() {
                assert(rest[j] == attrs[j]);
                let i = choose|i: int| 0 <= i < targets_of(rest).len() && targets_of(rest)[i] == text;
                assert(all[i] == text);
            } else {
                let i = choose|i: int| 0 <= i < tail.len() && tail[i] == text;
                assert(all[targets_of(rest).len() + i] == text);
            }
        }
    }
}

/// A single extended community tells a router MAC if it is of that type.
pub proof fn a_router_mac_is_read_by_place(v: Seq<u8>)
    requires
        v.len() == 8,
    ensures
        v[0] == 6 && v[1] == 3 ==> community_mac(v) == Some(colon_hex(v.subrange(2, 8))),
        !(v[0] == 6 && v[1] == 3) ==> community_mac(v) is None,
{
    reveal_with_fuel(community_mac, 2);
}

/// The router MAC of a route is that of the last extended communities
/// attribute that has one.
pub proof fn the_last_router_mac_counts(attrs: Seq<(u8, Seq<u8>)>, j: int)
    requires
        0 <= j < attrs.len(),
        attrs[j].0 == 16,
        community_mac(attrs[j].1) is Some,
        forall|i: int| j < i < attrs.len() ==> (#[trigger] attrs[i]).0 != 16 || community_mac(attrs[i].1) is None,
    ensures
        mac_of(attrs) == community_mac(attrs[j].1),
    decreases attrs.len(),
{
    if j < attrs.len() - 1 {
        let rest = attrs.drop_last();
        assert(attrs.last() == attrs[attrs.len() - 1]);
        assert forall|i: int| j < i < rest.len() implies (#[trigger] rest[i]).0 != 16 || community_mac(rest[i].1) is None by {
            assert(attrs[i] == rest[i]);
        }
        the_last_router_mac_counts(rest, j);
    }
}

/// The next hop of a route is that of its last MP_REACH_NLRI attribute for
/// EVPN: four or sixteen octets behind the family and the length.
pub proof fn the_last_evpn_next_hop_counts(attrs: Seq<(u8, Seq<u8>)>, j: int, v4: bool, octets: Seq<u8>)
    requires
        0 <= j < attrs.len(),
        attrs[j].0 == 14,
        octets.len() == (if v4 { 4int } else { 16 }),
        attrs[j].1.len() >= 4 + octets.len(),
        attrs[j].1.take(4) == seq![0u8, 25, 70, if v4 { 4u8 } else { 16u8 }],
        attrs[j].1.subrange(4, 4int + octets.len()) == octets,
        forall|i: int| j < i < attrs.len() ==> (#[trigger] attrs[i]).0 != 14,
    ensures
        evpn_next_hop(attrs) == Some((v4, octets)),
    decreases attrs.len(),
{
    if j < attrs.len() - 1 {
        let rest = attrs.drop_last();
        assert(attrs.last() == attrs[attrs.len() - 1]);
        assert forall|i: int| j < i < rest.len() implies (#[trigger] rest[i]).0 != 14 by {
            assert(attrs[i] == rest[i]);
        }
        the_last_evpn_next_hop_counts(rest, j, v4, octets);
    } else {
        let v = attrs[j].1;
        let head = v.take(4);
        assert(v[0] == head[0] && v[1] == head[1] && v[2] == head[2] && v[3] == head[3]);
    }
}

/// A query lets a route pass if and only if the route has all that the query
/// names.
pub proof fn a_route_passes_if_it_has_what_is_asked(f: EvpnFilter, row: EvpnRow)
    requires
        is_overlay(row.overlay, row.route.attributes@),
    ensures
        evpn_passes(f, row.route) == is_asked_for(f, row),
{
    let texts = targets_of(attr_list(attr_blob(row.route.attributes@)));
    let shown = row.overlay.route_targets@;
    assert(texts_are(shown, texts));
    match f.route_target {
        Some(t) => {
            if texts.contains(t@) {
                let i = choose|i: int| 0 <= i < texts.len() && texts[i] == t@;
                assert(shown[i]@ == t@);
            }
            if exists|i: int| 0 <= i < shown.len() && (#[trigger] shown[i])@ == t@ {
                let i = choose|i: int| 0 <= i < shown.len() && (#[trigger] shown[i])@ == t@;
                assert(texts[i] == t@);
            }
        },
        None => {},
    }
    match f.vni {
        Some(v) => {
            let labels = row.route.nlri.labels@;
            if labels.contains(v) {
                let i = choose|i: int| 0 <= i < labels.len() && labels[i] == v;
                assert(labels[i] == v);
            }
        },
        None => {},
    }
}

/// An EVPN route that was announced is shown, as it was announced, to who
/// asks for all routes, for its type, for its route distinguisher or for its
/// ingress; one that was withdrawn is not.
pub proof fn an_announced_evpn_route_is_shown(
    before: Rib,
    after: Rib,
    n: EvpnNlri,
    a: RotondaPaMap,
    status: RouteStatus,
    ltime: u64,
    mui: IngressId,
    retain: bool,
    r: Result<UpsertReport, String>,
    f: EvpnFilter,
    rows: Seq<EvpnRow>,
)
    requires
        n.wf(),
        before.inserted(after, RotondaRoute::L2VpnEvpn(n, a), status, ltime, mui, retain, r),
        f.rd matches Some(t) ==> t@ == n.rd@,
        f.route_type matches Some(t) ==> t == n.route_type,
        f.ingress_id matches Some(id) ==> id == mui,
        f.route_target is None,
        f.vni is None,
        f.prefix is None,
        !f.include_withdrawn,
        forall|i: int| 0 <= i < rows.len() ==> after.is_evpn_row(f, #[trigger] rows[i]),
        forall|k: (Seq<u8>, IngressId)|
            #![trigger after.evpn@.contains_key(k)]
            after.evpn@.contains_key(k) && evpn_passes(f, after.evpn@[k]) ==> has_evpn_row(rows, k),
    ensures
        status is Active ==> exists|i: int|
            #![trigger rows[i]]
            0 <= i < rows.len() && rows[i].route.ingress_id == mui && rows[i].route.nlri.raw@ == n.raw@
                && rows[i].route.attributes@ == a@ && rows[i].route.active && rows[i].route.ltime == ltime,
        status is Withdrawn ==> forall|i: int|
            #![trigger rows[i]]
            0 <= i < rows.len() && rows[i].route.ingress_id == mui ==> rows[i].route.nlri.key@ != n.key@,
{
    let k = (n.key@, mui);
    if status is Active {
        assert(after.evpn@.contains_key(k));
        assert(evpn_passes(f, after.evpn@[k]));
        assert(has_evpn_row(rows, k));
        let i = choose|i: int| 0 <= i < rows.len() && route_key((#[trigger] rows[i]).route) == k;
        assert(after.is_evpn_row(f, rows[i]));
        assert(rows[i].route.same(after.evpn@[k]));
    }
    if status is Withdrawn {
        assert forall|i: int| #![trigger rows[i]]
            0 <= i < rows.len() && rows[i].route.ingress_id == mui implies rows[i].route.nlri.key@ != n.key@ by {
            assert(after.is_evpn_row(f, rows[i]));
            if rows[i].route.nlri.key@ == n.key@ {
                assert(route_key(rows[i].route) == k);
            }
        }
    }
}

} // verus!
