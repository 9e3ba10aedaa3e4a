//! Routes of every family that is stored.
use vstd::prelude::*;

use crate::evpn::EvpnNlri;
use crate::pamap::RotondaPaMap;
use crate::flowspec::{rule_key, rule_prefix};
use crate::types::{AfiSafiType, Prefix, PrefixKey};

verus! {

/// A route with its path attributes. FlowSpec rules are their components as
/// they stand on the wire, without the length in front.
#[derive(Debug)]
pub enum RotondaRoute {
    Ipv4Unicast(Prefix, RotondaPaMap),
    Ipv6Unicast(Prefix, RotondaPaMap),
    Ipv4Multicast(Prefix, RotondaPaMap),
    Ipv6Multicast(Prefix, RotondaPaMap),
    Ipv4FlowSpec(Vec<u8>, RotondaPaMap),
    Ipv6FlowSpec(Vec<u8>, RotondaPaMap),
    L2VpnEvpn(EvpnNlri, RotondaPaMap),
}

/// What a route is for, beside its family.
pub enum NlriKind {
    Prefix(PrefixKey),
    Rule(Seq<u8>),
    Evpn(Seq<u8>),
}

impl RotondaRoute {
    /// What the route is for.
    pub open spec fn nlri(self) -> NlriKind {
        match self {
            RotondaRoute::Ipv4Unicast(p, _) => NlriKind::Prefix(p@),
            RotondaRoute::Ipv6Unicast(p, _) => NlriKind::Prefix(p@),
            RotondaRoute::Ipv4Multicast(p, _) => NlriKind::Prefix(p@),
            RotondaRoute::Ipv6Multicast(p, _) => NlriKind::Prefix(p@),
            RotondaRoute::Ipv4FlowSpec(n, _) => NlriKind::Rule(n@),
            RotondaRoute::Ipv6FlowSpec(n, _) => NlriKind::Rule(n@),
            RotondaRoute::L2VpnEvpn(n, _) => NlriKind::Evpn(n.raw@),
        }
    }

    /// Whether the prefix, if there is one, is canonical and of the family
    /// of the route, and an EVPN route tells what its octets hold.
    pub open spec fn wf(self) -> bool {
        match self {
            RotondaRoute::Ipv4Unicast(p, _) => p.wf() && p@.0,
            RotondaRoute::Ipv6Unicast(p, _) => p.wf() && !p@.0,
            RotondaRoute::Ipv4Multicast(p, _) => p.wf() && p@.0,
            RotondaRoute::Ipv6Multicast(p, _) => p.wf() && !p@.0,
            RotondaRoute::L2VpnEvpn(n, _) => n.wf(),
            _ => true,
        }
    }

    /// The stored bytes of the path attributes.
    pub open spec fn attrs(self) -> Seq<u8> {
        match self {
            RotondaRoute::Ipv4Unicast(_, a) => a@,
            RotondaRoute::Ipv6Unicast(_, a) => a@,
            RotondaRoute::Ipv4Multicast(_, a) => a@,
            RotondaRoute::Ipv6Multicast(_, a) => a@,
            RotondaRoute::Ipv4FlowSpec(_, a) => a@,
            RotondaRoute::Ipv6FlowSpec(_, a) => a@,
            RotondaRoute::L2VpnEvpn(_, a) => a@,
        }
    }

    /// The family of the route.
    pub open spec fn family(self) -> AfiSafiType {
        match self {
            RotondaRoute::Ipv4Unicast(_, _) => AfiSafiType::Ipv4Unicast,
            RotondaRoute::Ipv6Unicast(_, _) => AfiSafiType::Ipv6Unicast,
            RotondaRoute::Ipv4Multicast(_, _) => AfiSafiType::Ipv4Multicast,
            RotondaRoute::Ipv6Multicast(_, _) => AfiSafiType::Ipv6Multicast,
            RotondaRoute::Ipv4FlowSpec(_, _) => AfiSafiType::Ipv4FlowSpec,
            RotondaRoute::Ipv6FlowSpec(_, _) => AfiSafiType::Ipv6FlowSpec,
            RotondaRoute::L2VpnEvpn(_, _) => AfiSafiType::L2VpnEvpn,
        }
    }

    /// The prefix that the route is stored under. EVPN routes are not stored
    /// under prefixes.
    pub fn index_prefix(&self) -> (r: Option<Prefix>)
        requires
            self.wf(),
        ensures
            match (r, self.nlri()) {
                (Some(p), NlriKind::Prefix(k)) => p.wf() && p@ == k,
                (Some(p), NlriKind::Rule(n)) => p.wf() && p@ == rule_key(n, self.family() is Ipv4FlowSpec),
                (None, NlriKind::Evpn(_)) => true,
                _ => false,
            },
    {
        match self {
            RotondaRoute::Ipv4Unicast(p, _) => Some(*p),
            RotondaRoute::Ipv6Unicast(p, _) => Some(*p),
            RotondaRoute::Ipv4Multicast(p, _) => Some(*p),
            RotondaRoute::Ipv6Multicast(p, _) => Some(*p),
            RotondaRoute::Ipv4FlowSpec(n, _) => Some(rule_prefix(n, true)),
            RotondaRoute::Ipv6FlowSpec(n, _) => Some(rule_prefix(n, false)),
            RotondaRoute::L2VpnEvpn(_, _) => None,
        }
    }

    /// The path attributes.
    pub fn rotonda_pamap(&self) -> (r: &RotondaPaMap)
        ensures
            r@ == self.attrs(),
    {
        match self {
            RotondaRoute::Ipv4Unicast(_, a) => a,
            RotondaRoute::Ipv6Unicast(_, a) => a,
            RotondaRoute::Ipv4Multicast(_, a) => a,
            RotondaRoute::Ipv6Multicast(_, a) => a,
            RotondaRoute::Ipv4FlowSpec(_, a) => a,
            RotondaRoute::Ipv6FlowSpec(_, a) => a,
            RotondaRoute::L2VpnEvpn(_, a) => a,
        }
    }

    /// The family of the route.
    pub fn afisafi(&self) -> (r: AfiSafiType)
        ensures
            r == self.family(),
    {
        match self {
            RotondaRoute::Ipv4Unicast(_, _) => AfiSafiType::Ipv4Unicast,
            RotondaRoute::Ipv6Unicast(_, _) => AfiSafiType::Ipv6Unicast,
            RotondaRoute::Ipv4Multicast(_, _) => AfiSafiType::Ipv4Multicast,
            RotondaRoute::Ipv6Multicast(_, _) => AfiSafiType::Ipv6Multicast,
            RotondaRoute::Ipv4FlowSpec(_, _) => AfiSafiType::Ipv4FlowSpec,
            RotondaRoute::Ipv6FlowSpec(_, _) => AfiSafiType::Ipv6FlowSpec,
            RotondaRoute::L2VpnEvpn(_, _) => AfiSafiType::L2VpnEvpn,
        }
    }
}

} // verus!
