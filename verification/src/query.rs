//! What a query for routes asks for.
use vstd::prelude::*;

use crate::text::str_equal;
use crate::types::{IngressId, IngressType, IpAddress, PeerRibType};

verus! {

/// The form of an answer.
#[derive(Clone, Copy, Debug, PartialEq, Eq, Structural)]
pub enum OutputFormat {
    Json,
    Jsonl,
}

/// What an answer holds besides the prefix that was asked for.
#[derive(Clone, Copy, Debug, PartialEq, Eq, Structural)]
pub enum Include {
    MoreSpecifics,
    LessSpecifics,
}

/// A name of something that no answer can hold.
#[derive(Clone, Copy, Debug, PartialEq, Eq, Structural)]
pub struct UnknownInclude;

impl UnknownInclude {
    pub fn message(&self) -> (r: String)
        ensures
            r@ == "unknown include"@,
    {
        "unknown include".to_string()
    }
}

impl Include {
    /// What a name stands for.
    pub fn parse(s: &str) -> (r: Result<Self, UnknownInclude>)
        ensures
            r == (if s@ == "moreSpecifics"@ {
                Ok::<Include, UnknownInclude>(Include::MoreSpecifics)
            } else if s@ == "lessSpecifics"@ {
                Ok(Include::LessSpecifics)
            } else {
                Err(UnknownInclude)
            }),
    {
        if str_equal(s, "moreSpecifics") {
            Ok(Include::MoreSpecifics)
        } else if str_equal(s, "lessSpecifics") {
            Ok(Include::LessSpecifics)
        } else {
            Err(UnknownInclude)
        }
    }
}

impl IngressType {
    /// The kind of ingress that a query names. Only this spelling counts, so
    /// that a slip is refused and not taken for no filter at all.
    pub fn parse(s: &str) -> (r: Option<Self>)
        ensures
            r == (if s@ == "bgp"@ {
                Some(IngressType::Bgp)
            } else if s@ == "bmp"@ {
                Some(IngressType::Bmp)
            } else if s@ == "bgpViaBmp"@ {
                Some(IngressType::BgpViaBmp)
            } else if s@ == "bgpPath"@ {
                Some(IngressType::BgpPath)
            } else if s@ == "mrt"@ {
                Some(IngressType::Mrt)
            } else {
                None
            }),
    {
        if str_equal(s, "bgp") {
            Some(IngressType::Bgp)
        } else if str_equal(s, "bmp") {
            Some(IngressType::Bmp)
        } else if str_equal(s, "bgpViaBmp") {
            Some(IngressType::BgpViaBmp)
        } else if str_equal(s, "bgpPath") {
            Some(IngressType::BgpPath)
        } else if str_equal(s, "mrt") {
            Some(IngressType::Mrt)
        } else {
            None
        }
    }
}

impl std::str::FromStr for Include {
    type Err = UnknownInclude;

    fn from_str(s: &str) -> Result<Self, UnknownInclude> {
        Include::parse(s)
    }
}

/// What a query for routes asks for. A filter that is `None` lets all pass.
#[derive(Debug)]
pub struct QueryFilter {
    pub included: Vec<Include>,
    pub ingress_id: Option<IngressId>,
    pub origin_asn: Option<u32>,
    pub otc: Option<u32>,
    pub community: Option<u32>,
    pub large_community: Option<(u32, u32, u32)>,
    /// The kind of session that a route was learned over.
    pub ingress_type: Option<IngressType>,
    pub rib_type: Option<PeerRibType>,
    pub rov_status: Option<u8>,
    pub peer_asn: Option<u32>,
    pub peer_addr: Option<IpAddress>,
    /// The path attributes to show, by type code.
    pub fields_path_attributes: Option<Vec<u8>>,
    /// The name of a filter function of the configuration.
    pub roto_function: Option<String>,
    pub format: OutputFormat,
}

impl Default for QueryFilter {
    /// A query that lets all pass.
    fn default() -> (r: Self)
        ensures
            r.included@ == Seq::<Include>::empty(),
            r.ingress_id is None,
            r.origin_asn is None,
            r.otc is None,
            r.community is None,
            r.large_community is None,
            r.ingress_type is None,
            r.rib_type is None,
            r.rov_status is None,
            r.peer_asn is None,
            r.peer_addr is None,
            r.fields_path_attributes is None,
            r.roto_function is None,
            r.format is Json,
    {
        QueryFilter {
            included: Vec::new(),
            ingress_id: None,
            origin_asn: None,
            otc: None,
            community: None,
            large_community: None,
            ingress_type: None,
            rib_type: None,
            rov_status: None,
            peer_asn: None,
            peer_addr: None,
            fields_path_attributes: None,
            roto_function: None,
            format: OutputFormat::Json,
        }
    }
}

impl QueryFilter {
    /// Whether something is to be included.
    pub fn includes(&self, what: Include) -> (r: bool)
        ensures
            r == self.included@.contains(what),
    {
        let mut i: usize = 0;
        while i < self.included.len()
            invariant
                i <= self.included@.len(),
                forall|j: int| 0 <= j < i ==> self.included@[j] != what,
            decreases self.included@.len() - i,
        {
            if self.included[i] == what {
                assert(self.included@[i as int] == what);
                return true;
            }
            i = i + 1;
        }
        false
    }

    /// Includes the more specific prefixes.
    pub fn enable_more_specifics(&mut self)
        ensures
            final(self).included@ == (if old(self).included@.contains(Include::MoreSpecifics) {
                old(self).included@
            } else {
                old(self).included@.push(Include::MoreSpecifics)
            }),
            *final(self) == (QueryFilter { included: final(self).included, ..*old(self) }),
    {
        if !self.includes(Include::MoreSpecifics) {
            self.included.push(Include::MoreSpecifics);
        }
    }
}

} // verus!
