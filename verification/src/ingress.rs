//! What is known of each source of routes.
use vstd::prelude::*;

use crate::types::{IngressId, IngressState, IngressType, IpAddress, PeerRibType, PeerType};
use crate::wire::copy_range;

verus! {

/// What is known of one ingress. A field that is `None` is not known.
#[derive(Debug)]
pub struct IngressInfo {
    pub ingress_type: Option<IngressType>,
    pub parent_ingress: Option<IngressId>,
    pub path_id: Option<u32>,
    pub state: Option<IngressState>,
    /// Advances whenever a route resolves to an ADD-PATH child.
    pub path_activity: u64,
    pub remote_addr: Option<IpAddress>,
    pub remote_asn: Option<u32>,
    pub local_addr: Option<IpAddress>,
    pub bgp_id: Option<[u8; 4]>,
    pub peer_type: Option<PeerType>,
    pub peer_rib_type: Option<PeerRibType>,
    pub distinguisher: Option<[u8; 8]>,
    pub remote_capabilities: Option<Vec<u8>>,
    /// Negotiated ADD-PATH families, four octets each.
    pub addpath_families: Option<Vec<u8>>,
    pub peer_hostname: Option<String>,
    pub peer_software_version: Option<String>,
    pub peer_role: Option<u8>,
    /// When the session came up, in seconds and microseconds.
    pub session_up_time: Option<(u32, u32)>,
    pub name: Option<String>,
    pub desc: Option<String>,
    /// The file that routes were read from.
    pub filename: Option<String>,
}

/// What is known of one ingress.
#[verifier::ext_equal]
pub struct InfoView {
    pub ingress_type: Option<IngressType>,
    pub parent_ingress: Option<IngressId>,
    pub path_id: Option<u32>,
    pub state: Option<IngressState>,
    pub path_activity: u64,
    pub remote_addr: Option<(bool, Seq<u8>)>,
    pub remote_asn: Option<u32>,
    pub local_addr: Option<(bool, Seq<u8>)>,
    pub bgp_id: Option<Seq<u8>>,
    pub peer_type: Option<PeerType>,
    pub peer_rib_type: Option<PeerRibType>,
    pub distinguisher: Option<Seq<u8>>,
    pub remote_capabilities: Option<Seq<u8>>,
    pub addpath_families: Option<Seq<u8>>,
    pub peer_hostname: Option<Seq<char>>,
    pub peer_software_version: Option<Seq<char>>,
    pub peer_role: Option<u8>,
    pub session_up_time: Option<(u32, u32)>,
    pub name: Option<Seq<char>>,
    pub desc: Option<Seq<char>>,
    pub filename: Option<Seq<char>>,
}

/// The view of something that may be missing.
pub open spec fn viewed<T: View>(o: Option<T>) -> Option<T::V> {
    match o {
        Some(v) => Some(v@),
        None => None,
    }
}

impl View for IngressInfo {
    type V = InfoView;

    open spec fn view(&self) -> InfoView {
        InfoView {
            ingress_type: self.ingress_type,
            parent_ingress: self.parent_ingress,
            path_id: self.path_id,
            state: self.state,
            path_activity: self.path_activity,
            remote_addr: viewed(self.remote_addr),
            remote_asn: self.remote_asn,
            local_addr: viewed(self.local_addr),
            bgp_id: viewed(self.bgp_id),
            peer_type: self.peer_type,
            peer_rib_type: self.peer_rib_type,
            distinguisher: viewed(self.distinguisher),
            remote_capabilities: viewed(self.remote_capabilities),
            addpath_families: viewed(self.addpath_families),
            peer_hostname: viewed(self.peer_hostname),
            peer_software_version: viewed(self.peer_software_version),
            peer_role: self.peer_role,
            session_up_time: self.session_up_time,
            name: viewed(self.name),
            desc: viewed(self.desc),
            filename: viewed(self.filename),
        }
    }
}

/// Whether two optional byte strings hold the same bytes.
pub open spec fn same_opt_bytes(a: Option<Vec<u8>>, b: Option<Vec<u8>>) -> bool {
    match (a, b) {
        (Some(x), Some(y)) => x@ == y@,
        (None, None) => true,
        _ => false,
    }
}

/// Copies an optional byte string.
pub fn copy_opt_bytes(a: &Option<Vec<u8>>) -> (r: Option<Vec<u8>>)
    ensures
        same_opt_bytes(r, *a),
{
    match a {
        Some(v) => {
            let n: usize = v.len();
            let c = copy_range(v, 0, n);
            assert(c@ =~= v@);
            Some(c)
        },
        None => None,
    }
}

/// Copies an optional string.
pub fn copy_opt_string(a: &Option<String>) -> (r: Option<String>)
    ensures
        r == *a,
{
    match a {
        Some(s) => Some(s.clone()),
        None => None,
    }
}

/// What is known of an ingress of which nothing is known.
pub open spec fn nothing_known() -> IngressInfo {
    IngressInfo {
        ingress_type: None,
        parent_ingress: None,
        path_id: None,
        state: None,
        path_activity: 0,
        remote_addr: None,
        remote_asn: None,
        local_addr: None,
        bgp_id: None,
        peer_type: None,
        peer_rib_type: None,
        distinguisher: None,
        remote_capabilities: None,
        addpath_families: None,
        peer_hostname: None,
        peer_software_version: None,
        peer_role: None,
        session_up_time: None,
        name: None,
        desc: None,
        filename: None,
    }
}

impl IngressInfo {
    /// Whether both tell the same of an ingress.
    pub open spec fn same(self, o: IngressInfo) -> bool {
        &&& self.ingress_type == o.ingress_type
        &&& self.parent_ingress == o.parent_ingress
        &&& self.path_id == o.path_id
        &&& self.state == o.state
        &&& self.path_activity == o.path_activity
        &&& self.remote_addr == o.remote_addr
        &&& self.remote_asn == o.remote_asn
        &&& self.local_addr == o.local_addr
        &&& self.bgp_id == o.bgp_id
        &&& self.peer_type == o.peer_type
        &&& self.peer_rib_type == o.peer_rib_type
        &&& self.distinguisher == o.distinguisher
        &&& same_opt_bytes(self.remote_capabilities, o.remote_capabilities)
        &&& same_opt_bytes(self.addpath_families, o.addpath_families)
        &&& self.peer_hostname == o.peer_hostname
        &&& self.peer_software_version == o.peer_software_version
        &&& self.peer_role == o.peer_role
        &&& self.session_up_time == o.session_up_time
        &&& self.name == o.name
        &&& self.desc == o.desc
        &&& self.filename == o.filename
    }

    /// Nothing known.
    pub fn new() -> (r: Self)
        ensures
            r == nothing_known(),
    {
        IngressInfo {
            ingress_type: None,
            parent_ingress: None,
            path_id: None,
            state: None,
            path_activity: 0,
            remote_addr: None,
            remote_asn: None,
            local_addr: None,
            bgp_id: None,
            peer_type: None,
            peer_rib_type: None,
            distinguisher: None,
            remote_capabilities: None,
            addpath_families: None,
            peer_hostname: None,
            peer_software_version: None,
            peer_role: None,
            session_up_time: None,
            name: None,
            desc: None,
            filename: None,
        }
    }

    /// A copy that tells the same.
    pub fn duplicate(&self) -> (r: Self)
        ensures
            r.same(*self),
    {
        IngressInfo {
            ingress_type: self.ingress_type,
            parent_ingress: self.parent_ingress,
            path_id: self.path_id,
            state: self.state,
            path_activity: self.path_activity,
            remote_addr: self.remote_addr,
            remote_asn: self.remote_asn,
            local_addr: self.local_addr,
            bgp_id: self.bgp_id,
            peer_type: self.peer_type,
            peer_rib_type: self.peer_rib_type,
            distinguisher: self.distinguisher,
            remote_capabilities: copy_opt_bytes(&self.remote_capabilities),
            addpath_families: copy_opt_bytes(&self.addpath_families),
            peer_hostname: copy_opt_string(&self.peer_hostname),
            peer_software_version: copy_opt_string(&self.peer_software_version),
            peer_role: self.peer_role,
            session_up_time: self.session_up_time,
            name: copy_opt_string(&self.name),
            desc: copy_opt_string(&self.desc),
            filename: copy_opt_string(&self.filename),
        }
    }
}

} // verus!
