//! How ingresses are shown to the clients that BMP messages go to.
use vstd::prelude::*;

use crate::bmp_builder::{
    describes, fan_in_distinguisher_tag, fan_in_number, same_peer, PeerInfo,
};
use crate::ingress::IngressInfo;
use crate::register::Register;
use crate::text::{admin_label_text, build_admin_label_json, opt_str, opt_text, usable_text};
use crate::types::{IngressId, IngressType};
use crate::wire::{be64, zeros};

verus! {

/// Whether peers are told apart by the router that they were seen at.
#[derive(Clone, Copy, Debug, PartialEq, Eq, Structural)]
pub enum FanInPeerDistinguisher {
    Off,
    IngressHash,
}

impl FanInPeerDistinguisher {
    pub fn is_enabled(&self) -> (r: bool)
        ensures
            r == (self is IngressHash),
    {
        match self {
            FanInPeerDistinguisher::Off => false,
            FanInPeerDistinguisher::IngressHash => true,
        }
    }
}

/// The label that names the router behind an ingress, if it is to be told and
/// the router is known.
pub open spec fn label_of(infos: Map<IngressId, IngressInfo>, info: IngressInfo, forward_router_info: bool) -> Option<
    Seq<char>,
> {
    match info.parent_ingress {
        Some(p) => if forward_router_info && infos.contains_key(p) {
            admin_label_text(
                usable_text(opt_text(infos[p].name), "no-sysname"@),
                usable_text(opt_text(infos[p].desc), "no-sysdesc"@),
            )
        } else {
            None
        },
        None => None,
    }
}

/// The string slice in an optional string.
fn as_deref(o: &Option<String>) -> (r: Option<&str>)
    ensures
        opt_str(r) == opt_text(*o),
{
    match o {
        Some(s) => Some(s.as_str()),
        None => None,
    }
}

/// The label that names the router behind an ingress.
pub fn resolve_admin_label(info: &IngressInfo, ingress_register: &Register, forward_router_info: bool) -> (r: Option<
    String,
>)
    requires
        ingress_register.wf(),
    ensures
        opt_text(r) == label_of(ingress_register@, *info, forward_router_info),
{
    if !forward_router_info {
        return None;
    }
    match info.parent_ingress {
        Some(parent_id) => match ingress_register.get(parent_id) {
            Some(parent) => build_admin_label_json(as_deref(&parent.name), as_deref(&parent.desc)),
            None => None,
        },
        None => None,
    }
}

/// The distinguisher of a peer once it is stamped with the tag of its router.
/// One that tells something of its own stays.
pub open spec fn stamped(info: IngressInfo, fan_in: FanInPeerDistinguisher, own: Seq<u8>) -> Seq<u8> {
    match info.parent_ingress {
        Some(p) => if fan_in is IngressHash && own == zeros(8) {
            be64(fan_in_number(p) as int)
        } else {
            own
        },
        None => own,
    }
}

/// Whether `r` is what messages to a client tell of the peer behind an
/// ingress: with the label and the tag of its router.
pub open spec fn emitted(
    infos: Map<IngressId, IngressInfo>,
    info: IngressInfo,
    forward_router_info: bool,
    fan_in: FanInPeerDistinguisher,
    r: PeerInfo,
) -> bool {
    exists|own: PeerInfo|
        {
            &&& #[trigger] describes(info, own)
            &&& same_peer(
                r,
                (PeerInfo { admin_label: r.admin_label, peer_distinguisher: r.peer_distinguisher, ..own }),
            )
            &&& opt_text(r.admin_label) == label_of(infos, info, forward_router_info)
            &&& r.peer_distinguisher@ == stamped(info, fan_in, own.peer_distinguisher@)
        }
}

/// What messages to a client tell of the peer behind an ingress. All kinds of
/// messages tell the same, as it depends on the ingress and its router alone.
pub fn build_peer_info_for_emit(
    info: &IngressInfo,
    ingress_register: &Register,
    forward_router_info: bool,
    fan_in_peer_distinguisher: FanInPeerDistinguisher,
) -> (r: PeerInfo)
    requires
        ingress_register.wf(),
    ensures
        emitted(ingress_register@, *info, forward_router_info, fan_in_peer_distinguisher, r),
{
    let mut peer_info = PeerInfo::from_ingress_info(info);
    let ghost own = peer_info;
    peer_info.admin_label = resolve_admin_label(info, ingress_register, forward_router_info);
    if fan_in_peer_distinguisher.is_enabled() {
        if let Some(parent_id) = info.parent_ingress {
            let tag = fan_in_distinguisher_tag(parent_id);
            peer_info.apply_fan_in_distinguisher(tag);
        }
    }
    assert(describes(*info, own));
    peer_info
}

/// The ingress that routes of a registered ingress are shown as, and the path
/// id that they bear: those of a path of an ADD-PATH session go under the
/// session.
pub open spec fn shown_as(info: IngressInfo, id: IngressId) -> (IngressId, Option<u32>) {
    if info.ingress_type == Some(IngressType::BgpPath) {
        (
            match info.parent_ingress {
                Some(p) => p,
                None => id,
            },
            info.path_id,
        )
    } else {
        (id, None)
    }
}

/// The ingress that routes of an ingress are shown as; none for one that is
/// not registered.
pub open spec fn registered_target(infos: Map<IngressId, IngressInfo>, id: IngressId) -> Option<
    (IngressId, Option<u32>),
> {
    if infos.contains_key(id) {
        Some(shown_as(infos[id], id))
    } else {
        None
    }
}

/// The ingress that routes of an ingress are shown as.
pub fn find_target(ingress_register: &Register, id: IngressId) -> (r: Option<(IngressId, Option<u32>)>)
    requires
        ingress_register.wf(),
    ensures
        r == registered_target(ingress_register@, id),
{
    match ingress_register.get(id) {
        Some(info) => {
            let is_path = match info.ingress_type {
                Some(IngressType::BgpPath) => true,
                _ => false,
            };
            if is_path {
                let parent: IngressId = match info.parent_ingress {
                    Some(p) => p,
                    None => id,
                };
                Some((parent, info.path_id))
            } else {
                Some((id, None))
            }
        },
        None => None,
    }
}

/// All paths of a session are shown as the session, each with its own path
/// id.
pub proof fn paths_go_under_their_session(
    infos: Map<IngressId, IngressInfo>,
    a: IngressId,
    b: IngressId,
    session: IngressId,
)
    requires
        infos.contains_key(a),
        infos.contains_key(b),
        infos[a].ingress_type == Some(IngressType::BgpPath),
        infos[b].ingress_type == Some(IngressType::BgpPath),
        infos[a].parent_ingress == Some(session),
        infos[b].parent_ingress == Some(session),
    ensures
        registered_target(infos, a) == Some((session, infos[a].path_id)),
        registered_target(infos, b) == Some((session, infos[b].path_id)),
{
}

/// A peer that was seen at two routers is told apart by the tags of both,
/// unless their tags collide or it has a distinguisher of its own.
pub proof fn routers_are_told_apart(
    infos: Map<IngressId, IngressInfo>,
    a: IngressInfo,
    b: IngressInfo,
    forward_router_info: bool,
    p: PeerInfo,
    q: PeerInfo,
)
    requires
        a.parent_ingress is Some,
        b.parent_ingress is Some,
        a.distinguisher is None,
        b.distinguisher is None,
        fan_in_number(a.parent_ingress->Some_0) != fan_in_number(b.parent_ingress->Some_0),
        emitted(infos, a, forward_router_info, FanInPeerDistinguisher::IngressHash, p),
        emitted(infos, b, forward_router_info, FanInPeerDistinguisher::IngressHash, q),
    ensures
        p.peer_distinguisher@ != q.peer_distinguisher@,
{
    crate::bmp_builder::fan_in_tags_tell_routers_apart(a.parent_ingress->Some_0, b.parent_ingress->Some_0);
}

/// A peer with a distinguisher of its own keeps it.
pub proof fn a_distinguisher_is_kept(
    infos: Map<IngressId, IngressInfo>,
    info: IngressInfo,
    forward_router_info: bool,
    fan_in: FanInPeerDistinguisher,
    p: PeerInfo,
)
    requires
        info.distinguisher matches Some(d) && d@ != zeros(8),
        emitted(infos, info, forward_router_info, fan_in, p),
    ensures
        p.peer_distinguisher@ == info.distinguisher->Some_0@,
{
}

} // verus!
