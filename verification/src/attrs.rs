//! What the `routecore` crate reads out of path attributes, and its names of
//! address families.
use routecore::bgp::aspath::HopPath;
use routecore::bgp::message::update::PduParseInfo;
use routecore::bgp::message::update_builder::StandardCommunitiesList;
use routecore::bgp::path_attributes::{LargeCommunitiesList, OwnedPathAttributes};
use routecore::bgp::types::Otc;
use vstd::prelude::*;

use crate::flowspec::wide_asns;
use crate::pamap::{attr_blob, attr_extent, attr_list, first_value, RotondaPaMap};
use crate::text::decimal;
use crate::types::AfiSafiType;
use crate::wire::{copy_range, get16, get32};

verus! {

/// The ONLY_TO_CUSTOMER attribute that `routecore` finds in attributes whose
/// AS numbers have four octets or two.
pub uninterp spec fn otc_of(wide: bool, attrs: Seq<u8>) -> Option<u32>;

/// The AS that `routecore` finds at the end of the AS_PATH, if it ends with
/// one.
pub uninterp spec fn origin_of(wide: bool, attrs: Seq<u8>) -> Option<u32>;

/// The COMMUNITIES that `routecore` finds.
pub uninterp spec fn communities_of(wide: bool, attrs: Seq<u8>) -> Option<Seq<u32>>;

/// The LARGE_COMMUNITIES that `routecore` finds.
pub uninterp spec fn large_communities_of(wide: bool, attrs: Seq<u8>) -> Option<Seq<(u32, u32, u32)>>;

/// The name that `routecore` gives to an address family.
pub open spec fn family_text(afi: u16, safi: u8) -> Seq<char> {
    if afi == 1 && safi == 1 {
        "Ipv4Unicast"@
    } else if afi == 1 && safi == 2 {
        "Ipv4Multicast"@
    } else if afi == 1 && safi == 4 {
        "Ipv4MplsUnicast"@
    } else if afi == 1 && safi == 128 {
        "Ipv4MplsVpnUnicast"@
    } else if afi == 1 && safi == 132 {
        "Ipv4RouteTarget"@
    } else if afi == 1 && safi == 133 {
        "Ipv4FlowSpec"@
    } else if afi == 2 && safi == 1 {
        "Ipv6Unicast"@
    } else if afi == 2 && safi == 2 {
        "Ipv6Multicast"@
    } else if afi == 2 && safi == 4 {
        "Ipv6MplsUnicast"@
    } else if afi == 2 && safi == 128 {
        "Ipv6MplsVpnUnicast"@
    } else if afi == 2 && safi == 133 {
        "Ipv6FlowSpec"@
    } else if afi == 25 && safi == 65 {
        "L2VpnVpls"@
    } else if afi == 25 && safi == 70 {
        "L2VpnEvpn"@
    } else {
        "UnsupportedAfiSafi("@ + decimal(afi as nat) + ", "@ + decimal(safi as nat) + ")"@
    }
}

/// The view of an optional list.
pub open spec fn opt_list<T>(o: Option<Vec<T>>) -> Option<Seq<T>> {
    match o {
        Some(v) => Some(v@),
        None => None,
    }
}

/// Whether octets are attributes and nothing else.
pub open spec fn framed(s: Seq<u8>) -> bool
    decreases s.len(),
{
    s.len() == 0 || (attr_extent(s) matches Some((_, total)) && framed(s.skip(total)))
}

/// The AS that a value of four octets names.
pub open spec fn otc_value(v: Seq<u8>) -> Option<u32> {
    if v.len() == 4 {
        Some(get32(v, 0) as u32)
    } else {
        None
    }
}

/// Whether the segments of an AS_PATH are of known types and all there.
pub open spec fn path_is_sound(v: Seq<u8>, wide: bool) -> bool
    decreases v.len(),
{
    if v.len() == 0 {
        true
    } else {
        let end = 2 + (if wide {
            4 * v[1]
        } else {
            2 * v[1]
        });
        v.len() >= 2 && 1 <= v[0] <= 4 && end <= v.len() && path_is_sound(v.skip(end), wide)
    }
}

/// The last AS of an AS_PATH that ends with a sequence.
pub open spec fn path_end(v: Seq<u8>, wide: bool) -> Option<u32>
    decreases v.len(),
{
    if v.len() < 2 {
        None
    } else {
        let end = 2 + (if wide {
            4 * v[1]
        } else {
            2 * v[1]
        });
        if end < v.len() {
            path_end(v.skip(end), wide)
        } else if v[0] != 2 || v[1] == 0 {
            None
        } else if wide {
            Some(get32(v, end - 4) as u32)
        } else {
            Some(get16(v, end - 2) as u32)
        }
    }
}

/// The AS at the end of an AS_PATH, if it is sound.
pub open spec fn origin_value(v: Seq<u8>, wide: bool) -> Option<u32> {
    if path_is_sound(v, wide) {
        path_end(v, wide)
    } else {
        None
    }
}

/// The communities of a value, four octets each.
pub open spec fn communities_value(v: Seq<u8>) -> Option<Seq<u32>> {
    if v.len() % 4 == 0 {
        Some(Seq::new(v.len() / 4, |i: int| get32(v, 4 * i) as u32))
    } else {
        None
    }
}

/// The large communities of a value, three times four octets each.
pub open spec fn large_value(v: Seq<u8>) -> Option<Seq<(u32, u32, u32)>> {
    if v.len() % 12 == 0 {
        Some(
            Seq::new(
                v.len() / 12,
                |i: int| (get32(v, 12 * i) as u32, get32(v, 12 * i + 4) as u32, get32(v, 12 * i + 8) as u32),
            ),
        )
    } else {
        None
    }
}

/// Whether `r` is what the ONLY_TO_CUSTOMER attribute holds. Of attributes
/// that break off without one nothing is said.
pub open spec fn tells_otc(attrs: Seq<u8>, r: Option<u32>) -> bool {
    match first_value(attr_list(attrs), 35) {
        Some(v) => r == otc_value(v),
        None => framed(attrs) ==> r is None,
    }
}

/// Whether `r` is the AS at the end of the AS_PATH. Of attributes that break
/// off without one nothing is said.
pub open spec fn tells_origin(wide: bool, attrs: Seq<u8>, r: Option<u32>) -> bool {
    match first_value(attr_list(attrs), 2) {
        Some(v) => r == origin_value(v, wide),
        None => framed(attrs) ==> r is None,
    }
}

/// Whether `r` are the COMMUNITIES. Of attributes that break off without them
/// nothing is said.
pub open spec fn tells_communities(attrs: Seq<u8>, r: Option<Seq<u32>>) -> bool {
    match first_value(attr_list(attrs), 8) {
        Some(v) => r == communities_value(v),
        None => framed(attrs) ==> r is None,
    }
}

/// Whether `r` are the LARGE_COMMUNITIES. Of attributes that break off without
/// them nothing is said.
pub open spec fn tells_large(attrs: Seq<u8>, r: Option<Seq<(u32, u32, u32)>>) -> bool {
    match first_value(attr_list(attrs), 32) {
        Some(v) => r == large_value(v),
        None => framed(attrs) ==> r is None,
    }
}

/// Reads the ONLY_TO_CUSTOMER attribute, by `OwnedPathAttributes::get`. It is
/// the first one, and counts if it has its length. What is found behind an
/// attribute that is cut short depends on the octets alone, and is left
/// unsaid.
#[verifier::external_body]
fn find_otc(wide: bool, attrs: Vec<u8>) -> (r: Option<u32>)
    ensures
        r == otc_of(wide, attrs@),
        tells_otc(attrs@, r),
{
    let ppi = if wide { PduParseInfo::modern() } else { PduParseInfo::legacy() };
    OwnedPathAttributes::new(ppi, attrs).get::<Otc>().map(u32::from)
}

/// Reads the AS at the end of the AS_PATH, by `OwnedPathAttributes::get` and
/// `HopPath::origin`. The path is the first one, and counts if it is sound; it
/// ends with an AS if its last segment is a sequence. What is found behind an
/// attribute that is cut short depends on the octets and the size of AS
/// numbers alone, and is left unsaid.
#[verifier::external_body]
fn find_origin(wide: bool, attrs: Vec<u8>) -> (r: Option<u32>)
    ensures
        r == origin_of(wide, attrs@),
        tells_origin(wide, attrs@, r),
{
    let ppi = if wide { PduParseInfo::modern() } else { PduParseInfo::legacy() };
    let path = OwnedPathAttributes::new(ppi, attrs).get::<HopPath>()?;
    inetnum::asn::Asn::try_from(path.origin()?.clone()).ok().map(|asn| asn.into_u32())
}

/// Reads the COMMUNITIES, by `OwnedPathAttributes::get`. They are those of the
/// first such attribute, if its length is a multiple of four. What is found
/// behind an attribute that is cut short depends on the octets alone, and is
/// left unsaid.
#[verifier::external_body]
fn find_communities(wide: bool, attrs: Vec<u8>) -> (r: Option<Vec<u32>>)
    ensures
        opt_list(r) == communities_of(wide, attrs@),
        tells_communities(attrs@, opt_list(r)),
{
    let ppi = if wide { PduParseInfo::modern() } else { PduParseInfo::legacy() };
    let list = OwnedPathAttributes::new(ppi, attrs).get::<StandardCommunitiesList>()?;
    Some(list.communities().iter().map(|c| c.to_u32()).collect())
}

/// Reads the LARGE_COMMUNITIES, by `OwnedPathAttributes::get`. They are those
/// of the first such attribute, if its length is a multiple of twelve. What is
/// found behind an attribute that is cut short depends on the octets alone,
/// and is left unsaid.
#[verifier::external_body]
fn find_large_communities(wide: bool, attrs: Vec<u8>) -> (r: Option<Vec<(u32, u32, u32)>>)
    ensures
        opt_list(r) == large_communities_of(wide, attrs@),
        tells_large(attrs@, opt_list(r)),
{
    let ppi = if wide { PduParseInfo::modern() } else { PduParseInfo::legacy() };
    let list = OwnedPathAttributes::new(ppi, attrs).get::<LargeCommunitiesList>()?;
    Some(list.communities().iter().map(|c| (c.global(), c.local1(), c.local2())).collect())
}

/// Names an address family, by the `Display` of `AfiSafiType`: one that it
/// knows by its name, another one by its two identifiers.
#[verifier::external_body]
fn display_family(afi: u16, safi: u8) -> (r: String)
    ensures
        r@ == family_text(afi, safi),
{
    routecore::bgp::types::AfiSafiType::from((afi, safi)).to_string()
}

/// The attributes of stored bytes, in a vector of their own.
fn blob_of(pamap: &RotondaPaMap) -> (r: Vec<u8>)
    ensures
        r@ == attr_blob(pamap@),
{
    let blob = pamap.blob();
    let n: usize = blob.len();
    let v = copy_range(blob, 0, n);
    assert(v@ =~= blob@);
    v
}

fn is_wide(pamap: &RotondaPaMap) -> (r: bool)
    ensures
        r == wide_asns(pamap@),
{
    pamap.raw.len() >= 2 && pamap.raw[1] == 1
}

impl RotondaPaMap {
    /// The octet that tells the RPKI state of the route.
    pub open spec fn rov(self) -> u8 {
        if self@.len() == 0 {
            0
        } else {
            self@[0]
        }
    }

    /// The octet that tells the RPKI state of the route.
    pub fn rov_status(&self) -> (r: u8)
        ensures
            r == self.rov(),
    {
        if self.raw.len() == 0 {
            0
        } else {
            self.raw[0]
        }
    }

    /// The ONLY_TO_CUSTOMER attribute.
    pub fn otc(&self) -> (r: Option<u32>)
        ensures
            r == otc_of(wide_asns(self@), attr_blob(self@)),
            tells_otc(attr_blob(self@), r),
    {
        find_otc(is_wide(self), blob_of(self))
    }

    /// The AS at the end of the AS_PATH.
    pub fn origin_asn(&self) -> (r: Option<u32>)
        ensures
            r == origin_of(wide_asns(self@), attr_blob(self@)),
            tells_origin(wide_asns(self@), attr_blob(self@), r),
    {
        find_origin(is_wide(self), blob_of(self))
    }

    /// The COMMUNITIES.
    pub fn communities(&self) -> (r: Option<Vec<u32>>)
        ensures
            opt_list(r) == communities_of(wide_asns(self@), attr_blob(self@)),
            tells_communities(attr_blob(self@), opt_list(r)),
    {
        find_communities(is_wide(self), blob_of(self))
    }

    /// The LARGE_COMMUNITIES.
    pub fn large_communities(&self) -> (r: Option<Vec<(u32, u32, u32)>>)
        ensures
            opt_list(r) == large_communities_of(wide_asns(self@), attr_blob(self@)),
            tells_large(attr_blob(self@), opt_list(r)),
    {
        find_large_communities(is_wide(self), blob_of(self))
    }
}

/// Whether a list holds a number.
pub fn holds_u32(list: &Vec<u32>, n: u32) -> (r: bool)
    ensures
        r == list@.contains(n),
{
    let mut i: usize = 0;
    while i < list.len()
        invariant
            i <= list@.len(),
            forall|j: int| 0 <= j < i ==> list@[j] != n,
        decreases list@.len() - i,
    {
        if list[i] == n {
            assert(list@[i as int] == n);
            return true;
        }
        i = i + 1;
    }
    false
}

/// Whether a list holds a triple.
pub fn holds_triple(list: &Vec<(u32, u32, u32)>, n: (u32, u32, u32)) -> (r: bool)
    ensures
        r == list@.contains(n),
{
    let mut i: usize = 0;
    while i < list.len()
        invariant
            i <= list@.len(),
            forall|j: int| 0 <= j < i ==> list@[j] != n,
        decreases list@.len() - i,
    {
        let c = list[i];
        if c.0 == n.0 && c.1 == n.1 && c.2 == n.2 {
            assert(list@[i as int] == n);
            return true;
        }
        i = i + 1;
    }
    false
}

impl AfiSafiType {
    /// The name of the family.
    pub open spec fn text(self) -> Seq<char> {
        family_text(self.pair().0, self.pair().1)
    }

    /// The name of the family.
    pub fn name(&self) -> (r: String)
        ensures
            r@ == self.text(),
    {
        let (afi, safi) = self.to_pair();
        display_family(afi, safi)
    }
}

} // verus!
