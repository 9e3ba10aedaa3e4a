//! The routes of a BGP UPDATE, as the `routecore` crate finds them.
use octseq::Parser;
use routecore::bgp::message::{SessionConfig, UpdateMessage};
use routecore::bgp::nlri::afisafi::{Afi, NlriType};
use routecore::bgp::nlri::flowspec::FlowSpecNlri;
use vstd::prelude::*;

use crate::bmp_builder::{append_flowspec_nlri, flowspec_nlri_bytes};
use crate::evpn::{evpn_valid, EvpnNlri};
use crate::labelled::{check_prefixes, prefixes_fit};
use crate::mrt_format::{find_rule, prefix_at, read_prefix, rule_extent};
use crate::pamap::RotondaPaMap;
use crate::route::{NlriKind, RotondaRoute};
use crate::types::AfiSafiType;
use crate::wire::{copy_range, get16, get32, read_be16, read_be32};

verus! {

/// An NLRI in wire format, with its path id if it has one.
#[derive(Debug)]
pub struct WireNlri {
    pub afi: u16,
    pub safi: u8,
    pub has_path_id: bool,
    pub octets: Vec<u8>,
}

pub type WireView = (u16, u8, bool, Seq<u8>);

impl View for WireNlri {
    type V = WireView;

    open spec fn view(&self) -> WireView {
        (self.afi, self.safi, self.has_path_id, self.octets@)
    }
}

pub open spec fn wire_views(v: Seq<WireNlri>) -> Seq<WireView> {
    Seq::new(v.len(), |i: int| v[i]@)
}

pub open spec fn opt_wire(o: Option<Vec<WireNlri>>) -> Option<Seq<WireView>> {
    match o {
        Some(v) => Some(wire_views(v@)),
        None => None,
    }
}

/// Whether `routecore` takes a message for an UPDATE, of a session that uses
/// path ids for some families.
pub uninterp spec fn is_update(pdu: Seq<u8>, path_families: Seq<(u16, u8)>) -> bool;

/// The NLRI that `routecore` finds announced in an UPDATE; none if one of
/// them is malformed.
pub uninterp spec fn announced_nlri(pdu: Seq<u8>, path_families: Seq<(u16, u8)>) -> Option<Seq<WireView>>;

/// The NLRI that `routecore` finds withdrawn in an UPDATE; none if one of
/// them is malformed.
pub uninterp spec fn withdrawn_nlri(pdu: Seq<u8>, path_families: Seq<(u16, u8)>) -> Option<Seq<WireView>>;

/// Whether `routecore` takes octets for a FlowSpec rule with its length in
/// front.
pub uninterp spec fn rule_parses(wire: Seq<u8>, is_v4: bool) -> bool;

/// Tells an UPDATE from other messages, by `UpdateMessage::from_octets` on a
/// session of four-octet AS numbers. The verdict depends on the message and
/// on the families with path ids alone. An UPDATE has the length of its fixed
/// parts and says what it is; what else it takes is left unsaid.
#[verifier::external_body]
fn check_update(pdu: &[u8], path_families: &[(u16, u8)]) -> (r: bool)
    ensures
        r == is_update(pdu@, path_families@),
        r ==> pdu@.len() >= 23 && pdu@[18] == 2,
{
    let mut config = SessionConfig::modern();
    for family in path_families {
        config.add_addpath_rxtx((*family).into());
    }
    UpdateMessage::from_octets(pdu, &config).is_ok()
}

/// Lists what an UPDATE announces, by `UpdateMessage::announcements_vec`,
/// each NLRI as `Nlri::compose` writes it. The list depends on the message
/// and on the families with path ids alone; how it is read is left unsaid. A
/// labelled prefix that is longer than an address would make it panic.
#[verifier::external_body]
fn list_announced(pdu: &[u8], path_families: &[(u16, u8)]) -> (r: Option<Vec<WireNlri>>)
    requires
        prefixes_fit(update_attrs(pdu@), true, path_families@),
    ensures
        opt_wire(r) == announced_nlri(pdu@, path_families@),
{
    let mut config = SessionConfig::modern();
    for family in path_families {
        config.add_addpath_rxtx((*family).into());
    }
    let update = UpdateMessage::from_octets(pdu, &config).ok()?;
    let mut out: Vec<WireNlri> = Vec::new();
    for nlri in update.announcements_vec().ok()? {
        let (afi, safi): (u16, u8) = nlri.afi_safi().into();
        let has_path_id = nlri.nlri_type() == NlriType::from((nlri.afi_safi(), true));
        let mut octets: Vec<u8> = Vec::new();
        nlri.compose(&mut octets).ok()?;
        out.push(WireNlri { afi, safi, has_path_id, octets });
    }
    Some(out)
}

/// Lists what an UPDATE withdraws, by `UpdateMessage::withdrawals_vec`, each
/// NLRI as `Nlri::compose` writes it. The list depends on the message and on
/// the families with path ids alone; how it is read is left unsaid. A labelled
/// prefix that is longer than an address would make it panic.
#[verifier::external_body]
fn list_withdrawn(pdu: &[u8], path_families: &[(u16, u8)]) -> (r: Option<Vec<WireNlri>>)
    requires
        prefixes_fit(update_attrs(pdu@), false, path_families@),
    ensures
        opt_wire(r) == withdrawn_nlri(pdu@, path_families@),
{
    let mut config = SessionConfig::modern();
    for family in path_families {
        config.add_addpath_rxtx((*family).into());
    }
    let update = UpdateMessage::from_octets(pdu, &config).ok()?;
    let mut out: Vec<WireNlri> = Vec::new();
    for nlri in update.withdrawals_vec().ok()? {
        let (afi, safi): (u16, u8) = nlri.afi_safi().into();
        let has_path_id = nlri.nlri_type() == NlriType::from((nlri.afi_safi(), true));
        let mut octets: Vec<u8> = Vec::new();
        nlri.compose(&mut octets).ok()?;
        out.push(WireNlri { afi, safi, has_path_id, octets });
    }
    Some(out)
}

/// Checks a FlowSpec rule, by `FlowSpecNlri::parse`. The verdict depends on
/// the octets and the family alone. The components of an IPv6 rule are not
/// looked at, so that it passes if its length is right; which IPv4 rules pass
/// is left unsaid.
#[verifier::external_body]
fn check_rule(wire: &[u8], is_v4: bool) -> (r: bool)
    ensures
        r == rule_parses(wire@, is_v4),
        !is_v4 ==> r == (rule_extent(wire@) is Some),
{
    let afi = if is_v4 { Afi::Ipv4 } else { Afi::Ipv6 };
    FlowSpecNlri::parse(&mut Parser::from_ref(&wire), afi).is_ok()
}

/// Spells out a FlowSpec rule, by `FlowSpecNlri`'s `Display`, which writes
/// the same words for every rule; none if `FlowSpecNlri::parse` refuses it.
#[verifier::external_body]
fn display_rule(wire: &[u8], is_v4: bool) -> (r: Option<String>)
    ensures
        r is Some == rule_parses(wire@, is_v4),
        r matches Some(t) ==> t@ == "FLOWSPEC-NLRI"@,
{
    let afi = if is_v4 { Afi::Ipv4 } else { Afi::Ipv6 };
    FlowSpecNlri::parse(&mut Parser::from_ref(&wire), afi).ok().map(|n| n.to_string())
}

/// What a rule is shown as, if it is one.
pub fn spell_rule(raw_nlri: &[u8], is_v4: bool) -> (r: Option<String>)
    ensures
        r is Some == is_rule(raw_nlri@, is_v4),
        r matches Some(t) ==> t@ == "FLOWSPEC-NLRI"@,
{
    if raw_nlri.len() > 4095 {
        return None;
    }
    let mut wire: Vec<u8> = Vec::new();
    append_flowspec_nlri(&mut wire, raw_nlri, None);
    assert(wire@ =~= flowspec_nlri_bytes(raw_nlri@, None));
    display_rule(&wire, is_v4)
}

/// What a route is for, by its family and its NLRI without a path id.
pub open spec fn nlri_of(afi: u16, safi: u8, s: Seq<u8>) -> Option<(AfiSafiType, NlriKind)> {
    if (afi == 1 || afi == 2) && (safi == 1 || safi == 2) {
        let family = if afi == 1 && safi == 1 {
            AfiSafiType::Ipv4Unicast
        } else if afi == 2 && safi == 1 {
            AfiSafiType::Ipv6Unicast
        } else if afi == 1 {
            AfiSafiType::Ipv4Multicast
        } else {
            AfiSafiType::Ipv6Multicast
        };
        match prefix_at(s, afi == 1) {
            Some((key, end)) => if end == s.len() {
                Some((family, NlriKind::Prefix(key)))
            } else {
                None
            },
            None => None,
        }
    } else if (afi == 1 || afi == 2) && safi == 133 {
        let family = if afi == 1 {
            AfiSafiType::Ipv4FlowSpec
        } else {
            AfiSafiType::Ipv6FlowSpec
        };
        match rule_extent(s) {
            Some((start, end)) => if end == s.len() {
                Some((family, NlriKind::Rule(s.subrange(start, end))))
            } else {
                None
            },
            None => None,
        }
    } else if afi == 25 && safi == 70 {
        if evpn_valid(s) {
            Some((AfiSafiType::L2VpnEvpn, NlriKind::Evpn(s)))
        } else {
            None
        }
    } else {
        None
    }
}

/// What a route is for, and its path id.
pub open spec fn route_of(w: WireView) -> Option<(AfiSafiType, NlriKind, Option<u32>)> {
    let skipped: int = if w.2 {
        4
    } else {
        0
    };
    if w.3.len() < skipped {
        None
    } else {
        match nlri_of(w.0, w.1, w.3.skip(skipped)) {
            Some((family, nlri)) => Some(
                (
                    family,
                    nlri,
                    if w.2 {
                        Some(get32(w.3, 0) as u32)
                    } else {
                        None
                    },
                ),
            ),
            None => None,
        }
    }
}

/// A route of one family for an NLRI.
fn make_route(afi: u16, safi: u8, s: &[u8], attrs: &[u8]) -> (r: Option<RotondaRoute>)
    ensures
        match r {
            Some(route) => {
                &&& route.wf()
                &&& nlri_of(afi, safi, s@) == Some((route.family(), route.nlri()))
                &&& route.attrs() == seq![0u8, 1u8] + attrs@
            },
            None => nlri_of(afi, safi, s@) is None,
        },
{
    let pamap = RotondaPaMap::from_attributes(attrs);
    if (afi == 1 || afi == 2) && (safi == 1 || safi == 2) {
        match read_prefix(s, afi == 1) {
            Some((p, end)) => {
                if end != s.len() {
                    return None;
                }
                if afi == 1 && safi == 1 {
                    Some(RotondaRoute::Ipv4Unicast(p, pamap))
                } else if afi == 2 && safi == 1 {
                    Some(RotondaRoute::Ipv6Unicast(p, pamap))
                } else if afi == 1 {
                    Some(RotondaRoute::Ipv4Multicast(p, pamap))
                } else {
                    Some(RotondaRoute::Ipv6Multicast(p, pamap))
                }
            },
            None => None,
        }
    } else if (afi == 1 || afi == 2) && safi == 133 {
        match find_rule(s) {
            Some((start, end)) => {
                if end != s.len() {
                    return None;
                }
                let rule = copy_range(s, start, end);
                if afi == 1 {
                    Some(RotondaRoute::Ipv4FlowSpec(rule, pamap))
                } else {
                    Some(RotondaRoute::Ipv6FlowSpec(rule, pamap))
                }
            },
            None => None,
        }
    } else if afi == 25 && safi == 70 {
        match EvpnNlri::parse(s) {
            Ok(n) => Some(RotondaRoute::L2VpnEvpn(n, pamap)),
            Err(_) => None,
        }
    } else {
        None
    }
}

/// A route of an UPDATE, with its path id.
#[derive(Debug)]
pub struct ExplodedRoute {
    pub route: RotondaRoute,
    pub path_id: Option<u32>,
}

/// What a route of an UPDATE is.
pub struct ExplodedView {
    pub family: AfiSafiType,
    pub nlri: NlriKind,
    pub attrs: Seq<u8>,
    pub path_id: Option<u32>,
}

impl View for ExplodedRoute {
    type V = ExplodedView;

    open spec fn view(&self) -> ExplodedView {
        ExplodedView {
            family: self.route.family(),
            nlri: self.route.nlri(),
            attrs: self.route.attrs(),
            path_id: self.path_id,
        }
    }
}

pub open spec fn exploded_views(v: Seq<ExplodedRoute>) -> Seq<ExplodedView> {
    Seq::new(v.len(), |i: int| v[i]@)
}

/// The routes that NLRI stand for, in order, but for those of families that
/// are not known.
pub open spec fn exploded(list: Seq<WireView>, attrs: Seq<u8>) -> Seq<ExplodedView>
    decreases list.len(),
{
    if list.len() == 0 {
        Seq::empty()
    } else {
        let rest = exploded(list.drop_last(), attrs);
        match route_of(list.last()) {
            Some((family, nlri, path_id)) => rest.push(
                ExplodedView { family, nlri, attrs: seq![0u8, 1u8] + attrs, path_id },
            ),
            None => rest,
        }
    }
}

/// Turns NLRI into routes.
pub fn explode_nlri(list: &Vec<WireNlri>, attrs: &[u8]) -> (r: Vec<ExplodedRoute>)
    ensures
        exploded_views(r@) == exploded(wire_views(list@), attrs@),
        forall|i: int| 0 <= i < r@.len() ==> (#[trigger] r@[i]).route.wf(),
{
    let ghost all = wire_views(list@);
    let mut out: Vec<ExplodedRoute> = Vec::new();
    let mut i: usize = 0;
    assert(exploded_views(out@) =~= exploded(all.take(0), attrs@));
    while i < list.len()
        invariant
            i <= list@.len(),
            all == wire_views(list@),
            exploded_views(out@) == exploded(all.take(i as int), attrs@),
            forall|k: int| 0 <= k < out@.len() ==> (#[trigger] out@[k]).route.wf(),
        decreases list@.len() - i,
    {
        let w = &list[i];
        let ghost before = out@;
        proof {
            assert(all.take(i + 1).drop_last() =~= all.take(i as int));
            assert(all.take(i + 1).last() == w@);
        }
        let n: usize = w.octets.len();
        let skipped: usize = if w.has_path_id {
            4
        } else {
            0
        };
        if n >= skipped {
            let rest = &w.octets[skipped..n];
            assert(rest@ =~= w.octets@.skip(skipped as int));
            match make_route(w.afi, w.safi, rest, attrs) {
                Some(route) => {
                    let path_id = if w.has_path_id {
                        Some(read_be32(&w.octets, 0))
                    } else {
                        None
                    };
                    let e = ExplodedRoute { route, path_id };
                    let ghost view = e@;
                    out.push(e);
                    assert(exploded_views(out@) =~= exploded_views(before).push(view));
                },
                None => {},
            }
        }
        i = i + 1;
    }
    assert(all.take(i as int) =~= all);
    out
}

/// The attributes of an UPDATE.
pub open spec fn update_attrs(pdu: Seq<u8>) -> Seq<u8> {
    if pdu.len() < 23 || pdu.len() < 23 + get16(pdu, 19) {
        Seq::empty()
    } else {
        let at = 21 + get16(pdu, 19);
        if pdu.len() < at + 2 + get16(pdu, at) {
            Seq::empty()
        } else {
            pdu.subrange(at + 2, at + 2 + get16(pdu, at))
        }
    }
}

/// Finds the attributes of an UPDATE.
fn find_update_attrs(pdu: &[u8]) -> (r: Vec<u8>)
    ensures
        r@ == update_attrs(pdu@),
{
    if pdu.len() < 23 {
        return Vec::new();
    }
    let withdrawn: usize = read_be16(pdu, 19) as usize;
    if pdu.len() < 23 + withdrawn {
        return Vec::new();
    }
    let at: usize = 21 + withdrawn;
    let n: usize = read_be16(pdu, at) as usize;
    if pdu.len() < at + 2 + n {
        return Vec::new();
    }
    copy_range(pdu, at + 2, at + 2 + n)
}

/// The families that have path ids where any have.
pub open spec fn path_id_families(path_ids: bool) -> Seq<(u16, u8)> {
    if path_ids {
        seq![(1u16, 1u8), (2, 1), (1, 2), (2, 2), (1, 133), (2, 133), (25, 70)]
    } else {
        Seq::empty()
    }
}

fn families_with_path_ids(path_ids: bool) -> (r: Vec<(u16, u8)>)
    ensures
        r@ == path_id_families(path_ids),
{
    let mut out: Vec<(u16, u8)> = Vec::new();
    if path_ids {
        out.push((1, 1));
        out.push((2, 1));
        out.push((1, 2));
        out.push((2, 2));
        out.push((1, 133));
        out.push((2, 133));
        out.push((25, 70));
    }
    assert(out@ =~= path_id_families(path_ids));
    out
}

/// What an UPDATE tells: the routes that it announces, with its attributes,
/// and those that it withdraws, without any.
#[derive(Debug)]
pub struct ExplodedUpdate {
    pub announced: Vec<ExplodedRoute>,
    pub withdrawn: Vec<ExplodedRoute>,
}

impl ExplodedUpdate {
    pub open spec fn wf(self) -> bool {
        &&& forall|i: int| 0 <= i < self.announced@.len() ==> (#[trigger] self.announced@[i]).route.wf()
        &&& forall|i: int| 0 <= i < self.withdrawn@.len() ==> (#[trigger] self.withdrawn@[i]).route.wf()
    }
}

/// What a message is, if it is an UPDATE: its routes, unless an NLRI is
/// malformed. One is if its labels hide a prefix longer than an address.
pub open spec fn update_routes(pdu: Seq<u8>, path_ids: bool) -> Option<Option<(Seq<ExplodedView>, Seq<ExplodedView>)>> {
    let families = path_id_families(path_ids);
    if !is_update(pdu, families) {
        None
    } else {
        let attrs = update_attrs(pdu);
        Some(
            if !prefixes_fit(attrs, true, families) || !prefixes_fit(attrs, false, families) {
                None
            } else {
                match (announced_nlri(pdu, families), withdrawn_nlri(pdu, families)) {
                    (Some(a), Some(w)) => Some((exploded(a, attrs), exploded(w, Seq::empty()))),
                    _ => None,
                }
            },
        )
    }
}

/// Reads the routes of a message. `None` for a message that is no UPDATE, an
/// error for an UPDATE with a malformed NLRI.
pub fn explode_update(pdu: &[u8], path_ids: bool) -> (r: Option<Result<ExplodedUpdate, ()>>)
    ensures
        match (r, update_routes(pdu@, path_ids)) {
            (None, None) => true,
            (Some(Err(_)), Some(None)) => true,
            (Some(Ok(u)), Some(Some((a, w)))) => u.wf() && exploded_views(u.announced@) == a && exploded_views(
                u.withdrawn@,
            ) == w,
            _ => false,
        },
        pdu@.len() < 23 || pdu@[18] != 2 ==> r is None,
{
    let families = families_with_path_ids(path_ids);
    if !check_update(pdu, &families) {
        return None;
    }
    let empty: Vec<u8> = Vec::new();
    assert(empty@ =~= Seq::empty());
    let attrs = find_update_attrs(pdu);
    if !check_prefixes(&attrs, true, &families) || !check_prefixes(&attrs, false, &families) {
        return Some(Err(()));
    }
    let announced = match list_announced(pdu, &families) {
        Some(list) => explode_nlri(&list, &attrs),
        None => {
            return Some(Err(()));
        },
    };
    let withdrawn = match list_withdrawn(pdu, &families) {
        Some(list) => explode_nlri(&list, &empty),
        None => {
            return Some(Err(()));
        },
    };
    Some(Ok(ExplodedUpdate { announced, withdrawn }))
}

/// Whether a FlowSpec rule of a table dump is one: not too long for a length
/// in front, and well-formed.
pub open spec fn is_rule(raw: Seq<u8>, is_v4: bool) -> bool {
    raw.len() <= 4095 && rule_parses(flowspec_nlri_bytes(raw, None), is_v4)
}

/// The route for a FlowSpec rule of a table dump.
pub fn mk_flowspec_route(afisafi: AfiSafiType, raw_nlri: Vec<u8>, raw_attr: &[u8]) -> (r: Option<RotondaRoute>)
    ensures
        match r {
            Some(route) => {
                &&& route.wf()
                &&& afisafi is Ipv4FlowSpec || afisafi is Ipv6FlowSpec
                &&& is_rule(raw_nlri@, afisafi is Ipv4FlowSpec)
                &&& route.family() == afisafi
                &&& route.nlri() == NlriKind::Rule(raw_nlri@)
                &&& route.attrs() == seq![0u8, 1u8] + raw_attr@
            },
            None => !(afisafi is Ipv4FlowSpec || afisafi is Ipv6FlowSpec) || !is_rule(
                raw_nlri@,
                afisafi is Ipv4FlowSpec,
            ),
        },
{
    if raw_nlri.len() > 4095 {
        return None;
    }
    let mut wire: Vec<u8> = Vec::new();
    append_flowspec_nlri(&mut wire, &raw_nlri, None);
    assert(wire@ =~= flowspec_nlri_bytes(raw_nlri@, None));
    let pamap = RotondaPaMap::from_attributes(raw_attr);
    match afisafi {
        AfiSafiType::Ipv4FlowSpec => if check_rule(&wire, true) {
            Some(RotondaRoute::Ipv4FlowSpec(raw_nlri, pamap))
        } else {
            None
        },
        AfiSafiType::Ipv6FlowSpec => if check_rule(&wire, false) {
            Some(RotondaRoute::Ipv6FlowSpec(raw_nlri, pamap))
        } else {
            None
        },
        _ => None,
    }
}

} // verus!
