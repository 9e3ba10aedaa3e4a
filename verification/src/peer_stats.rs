//! Per-session gauges: how many routes of each family a BGP session has in
//! the table, and how often it announced what it had announced before.
use vstd::prelude::*;

use crate::table::Table;
use crate::types::{AfiSafiType, IngressId};

verus! {

/// The gauges of one session.
#[derive(Clone, Copy, Debug, PartialEq, Eq, Structural)]
pub struct PeerCounts {
    pub ipv4_unicast: u64,
    pub ipv6_unicast: u64,
    pub ipv4_multicast: u64,
    pub ipv6_multicast: u64,
    pub ipv4_flowspec: u64,
    pub ipv6_flowspec: u64,
    pub l2vpn_evpn: u64,
    pub dup_prefix_advertisements: u64,
}

/// All gauges at zero.
pub open spec fn zero_counts() -> PeerCounts {
    PeerCounts {
        ipv4_unicast: 0,
        ipv6_unicast: 0,
        ipv4_multicast: 0,
        ipv6_multicast: 0,
        ipv4_flowspec: 0,
        ipv6_flowspec: 0,
        l2vpn_evpn: 0,
        dup_prefix_advertisements: 0,
    }
}

impl PeerCounts {
    /// The gauge of a family; families that are not stored have none.
    pub open spec fn routes(self, family: AfiSafiType) -> u64 {
        match family {
            AfiSafiType::Ipv4Unicast => self.ipv4_unicast,
            AfiSafiType::Ipv6Unicast => self.ipv6_unicast,
            AfiSafiType::Ipv4Multicast => self.ipv4_multicast,
            AfiSafiType::Ipv6Multicast => self.ipv6_multicast,
            AfiSafiType::Ipv4FlowSpec => self.ipv4_flowspec,
            AfiSafiType::Ipv6FlowSpec => self.ipv6_flowspec,
            AfiSafiType::L2VpnEvpn => self.l2vpn_evpn,
            AfiSafiType::Unsupported(_, _) => 0,
        }
    }

    /// The gauges with that of one family set.
    pub open spec fn with(self, family: AfiSafiType, n: u64) -> PeerCounts {
        match family {
            AfiSafiType::Ipv4Unicast => PeerCounts { ipv4_unicast: n, ..self },
            AfiSafiType::Ipv6Unicast => PeerCounts { ipv6_unicast: n, ..self },
            AfiSafiType::Ipv4Multicast => PeerCounts { ipv4_multicast: n, ..self },
            AfiSafiType::Ipv6Multicast => PeerCounts { ipv6_multicast: n, ..self },
            AfiSafiType::Ipv4FlowSpec => PeerCounts { ipv4_flowspec: n, ..self },
            AfiSafiType::Ipv6FlowSpec => PeerCounts { ipv6_flowspec: n, ..self },
            AfiSafiType::L2VpnEvpn => PeerCounts { l2vpn_evpn: n, ..self },
            AfiSafiType::Unsupported(_, _) => self,
        }
    }

    pub fn get(&self, family: AfiSafiType) -> (r: u64)
        ensures
            r == self.routes(family),
    {
        match family {
            AfiSafiType::Ipv4Unicast => self.ipv4_unicast,
            AfiSafiType::Ipv6Unicast => self.ipv6_unicast,
            AfiSafiType::Ipv4Multicast => self.ipv4_multicast,
            AfiSafiType::Ipv6Multicast => self.ipv6_multicast,
            AfiSafiType::Ipv4FlowSpec => self.ipv4_flowspec,
            AfiSafiType::Ipv6FlowSpec => self.ipv6_flowspec,
            AfiSafiType::L2VpnEvpn => self.l2vpn_evpn,
            AfiSafiType::Unsupported(_, _) => 0,
        }
    }

    pub fn set(&self, family: AfiSafiType, n: u64) -> (r: Self)
        ensures
            r == self.with(family, n),
    {
        match family {
            AfiSafiType::Ipv4Unicast => PeerCounts { ipv4_unicast: n, ..*self },
            AfiSafiType::Ipv6Unicast => PeerCounts { ipv6_unicast: n, ..*self },
            AfiSafiType::Ipv4Multicast => PeerCounts { ipv4_multicast: n, ..*self },
            AfiSafiType::Ipv6Multicast => PeerCounts { ipv6_multicast: n, ..*self },
            AfiSafiType::Ipv4FlowSpec => PeerCounts { ipv4_flowspec: n, ..*self },
            AfiSafiType::Ipv6FlowSpec => PeerCounts { ipv6_flowspec: n, ..*self },
            AfiSafiType::L2VpnEvpn => PeerCounts { l2vpn_evpn: n, ..*self },
            AfiSafiType::Unsupported(_, _) => *self,
        }
    }
}

/// What an event does to a gauge.
#[derive(Clone, Copy, Debug)]
pub enum GaugeChange {
    /// A route that was not there came.
    Added(AfiSafiType),
    /// A route that was there went.
    Withdrawn(AfiSafiType),
    /// A route that was there was announced again.
    Duplicate,
    /// Nothing that the gauges count.
    Nothing,
}

/// The gauges of a session after a change. They stop at their limits.
pub open spec fn changed(c: PeerCounts, change: GaugeChange) -> PeerCounts {
    match change {
        GaugeChange::Added(f) => c.with(f, up(c.routes(f))),
        GaugeChange::Withdrawn(f) => c.with(f, down(c.routes(f))),
        GaugeChange::Duplicate => PeerCounts {
            dup_prefix_advertisements: up(c.dup_prefix_advertisements),
            ..c
        },
        GaugeChange::Nothing => c,
    }
}

pub open spec fn up(n: u64) -> u64 {
    if n == u64::MAX {
        n
    } else {
        (n + 1) as u64
    }
}

pub open spec fn down(n: u64) -> u64 {
    if n == 0 {
        n
    } else {
        (n - 1) as u64
    }
}

/// The gauges of all sessions, and the ingresses that count for another one:
/// the ADD-PATH children of a session.
#[derive(Debug)]
pub struct PeerStats {
    pub sessions: Table<IngressId, PeerCounts>,
    pub aliases: Table<IngressId, IngressId>,
}

#[verifier::ext_equal]
pub struct StatsView {
    pub sessions: Map<IngressId, PeerCounts>,
    pub aliases: Map<IngressId, IngressId>,
}

impl View for PeerStats {
    type V = StatsView;

    open spec fn view(&self) -> StatsView {
        StatsView { sessions: self.sessions@, aliases: self.aliases@ }
    }
}

impl StatsView {
    /// The session whose gauges count the routes of an ingress.
    pub open spec fn gauge(self, mui: IngressId) -> Option<IngressId> {
        if self.sessions.contains_key(mui) {
            Some(mui)
        } else if self.aliases.contains_key(mui) && self.sessions.contains_key(self.aliases[mui]) {
            Some(self.aliases[mui])
        } else {
            None
        }
    }

    /// The gauges after a change to those of an ingress.
    pub open spec fn after(self, mui: IngressId, change: GaugeChange) -> StatsView {
        match self.gauge(mui) {
            Some(s) => StatsView { sessions: self.sessions.insert(s, changed(self.sessions[s], change)), ..self },
            None => self,
        }
    }

    /// The gauges after a session lost all its routes, or all of a family.
    pub open spec fn after_reset(self, mui: IngressId, family: Option<AfiSafiType>) -> StatsView {
        if self.sessions.contains_key(mui) {
            let c = self.sessions[mui];
            StatsView {
                sessions: self.sessions.insert(
                    mui,
                    match family {
                        None => PeerCounts {
                            dup_prefix_advertisements: c.dup_prefix_advertisements,
                            ..zero_counts()
                        },
                        Some(f) => c.with(f, 0),
                    },
                ),
                ..self
            }
        } else {
            self
        }
    }
}

impl PeerStats {
    pub open spec fn wf(self) -> bool {
        self.sessions.wf() && self.aliases.wf()
    }

    pub fn new() -> (r: Self)
        ensures
            r.wf(),
            r@ == (StatsView { sessions: Map::empty(), aliases: Map::empty() }),
    {
        PeerStats { sessions: Table::new(), aliases: Table::new() }
    }

    /// Starts to keep gauges for a session.
    pub fn add_session(&mut self, mui: IngressId)
        requires
            old(self).wf(),
        ensures
            final(self).wf(),
            final(self)@ == (StatsView {
                sessions: old(self)@.sessions.insert(mui, zero_counts()),
                ..old(self)@
            }),
    {
        self.sessions.insert(
            mui,
            PeerCounts {
                ipv4_unicast: 0,
                ipv6_unicast: 0,
                ipv4_multicast: 0,
                ipv6_multicast: 0,
                ipv4_flowspec: 0,
                ipv6_flowspec: 0,
                l2vpn_evpn: 0,
                dup_prefix_advertisements: 0,
            },
        );
    }

    /// Counts the routes of an ingress for a session.
    pub fn add_alias(&mut self, mui: IngressId, session: IngressId)
        requires
            old(self).wf(),
        ensures
            final(self).wf(),
            final(self)@ == (StatsView { aliases: old(self)@.aliases.insert(mui, session), ..old(self)@ }),
    {
        self.aliases.insert(mui, session);
    }

    /// The session whose gauges count the routes of an ingress, if any.
    pub fn peer_gauge(&self, mui: IngressId) -> (r: Option<IngressId>)
        requires
            self.wf(),
        ensures
            r == self@.gauge(mui),
    {
        if self.sessions.get(&mui).is_some() {
            return Some(mui);
        }
        match self.aliases.get(&mui) {
            Some(s) => {
                if self.sessions.get(s).is_some() {
                    Some(*s)
                } else {
                    None
                }
            },
            None => None,
        }
    }

    /// Changes the gauges that count for an ingress.
    pub fn note(&mut self, mui: IngressId, change: GaugeChange)
        requires
            old(self).wf(),
        ensures
            final(self).wf(),
            final(self)@ == old(self)@.after(mui, change),
    {
        match self.peer_gauge(mui) {
            Some(s) => {
                match self.sessions.get(&s) {
                    Some(counts) => {
                        let c = *counts;
                        let new = match change {
                            GaugeChange::Added(f) => {
                                let n: u64 = c.get(f);
                                c.set(f, if n == u64::MAX { n } else { n + 1 })
                            },
                            GaugeChange::Withdrawn(f) => {
                                let n: u64 = c.get(f);
                                c.set(f, if n == 0 { n } else { n - 1 })
                            },
                            GaugeChange::Duplicate => {
                                let n: u64 = c.dup_prefix_advertisements;
                                PeerCounts {
                                    dup_prefix_advertisements: if n == u64::MAX {
                                        n
                                    } else {
                                        n + 1
                                    },
                                    ..c
                                }
                            },
                            GaugeChange::Nothing => c,
                        };
                        self.sessions.insert(s, new);
                    },
                    None => {},
                }
            },
            None => {},
        }
    }

    /// Sets the gauges of a session to zero, all but the duplicates, or that
    /// of one family.
    pub fn reset_peer_gauge(&mut self, mui: IngressId, family: Option<AfiSafiType>)
        requires
            old(self).wf(),
        ensures
            final(self).wf(),
            final(self)@ == old(self)@.after_reset(mui, family),
    {
        match self.sessions.get(&mui) {
            Some(counts) => {
                let c = *counts;
                let new = match family {
                    None => PeerCounts {
                        ipv4_unicast: 0,
                        ipv6_unicast: 0,
                        ipv4_multicast: 0,
                        ipv6_multicast: 0,
                        ipv4_flowspec: 0,
                        ipv6_flowspec: 0,
                        l2vpn_evpn: 0,
                        dup_prefix_advertisements: c.dup_prefix_advertisements,
                    },
                    Some(f) => c.set(f, 0),
                };
                self.sessions.insert(mui, new);
            },
            None => {},
        }
    }

    /// Keeps no gauges for an ingress any more.
    pub fn remove(&mut self, mui: IngressId)
        requires
            old(self).wf(),
        ensures
            final(self).wf(),
            final(self)@ == (StatsView {
                sessions: old(self)@.sessions.remove(mui),
                aliases: old(self)@.aliases.remove(mui),
            }),
    {
        let _ = self.sessions.remove(&mui);
        let _ = self.aliases.remove(&mui);
    }
}

} // verus!
