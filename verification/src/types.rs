//! Plain values shared by the whole library: addresses, prefixes, address
//! families and ingress types.
use vstd::prelude::*;

verus! {

/// Identifies one source of routes. It is also the key under which the
/// routes of that source are stored.
pub type IngressId = u32;

/// An IP address, as its octets in network order.
#[derive(Clone, Copy, Debug, PartialEq, Eq)]
pub enum IpAddress {
    V4([u8; 4]),
    V6([u8; 16]),
}

/// Octet-wise equality of two arrays of four.
pub fn octets4_equal(a: &[u8; 4], b: &[u8; 4]) -> (r: bool)
    ensures
        r == (a@ == b@),
{
    let r = a[0] == b[0] && a[1] == b[1] && a[2] == b[2] && a[3] == b[3];
    assert(r ==> a@ =~= b@);
    r
}

/// Octet-wise equality of two arrays of sixteen.
pub fn octets16_equal(a: &[u8; 16], b: &[u8; 16]) -> (r: bool)
    ensures
        r == (a@ == b@),
{
    let mut i: usize = 0;
    while i < 16
        invariant
            i <= 16,
            a@.len() == 16,
            b@.len() == 16,
            forall|j: int| 0 <= j < i ==> a@[j] == b@[j],
        decreases 16 - i,
    {
        if a[i] != b[i] {
            return false;
        }
        i = i + 1;
    }
    assert(a@ =~= b@);
    true
}

impl IpAddress {
    /// The octets of the address.
    pub open spec fn octets(self) -> Seq<u8> {
        match self {
            IpAddress::V4(o) => o@,
            IpAddress::V6(o) => o@,
        }
    }

    /// Whether both addresses are of one family and have the same octets.
    pub open spec fn same(self, other: IpAddress) -> bool {
        (self is V4 <==> other is V4) && self.octets() == other.octets()
    }

    pub fn is_v4(&self) -> (r: bool)
        ensures
            r == (self is V4),
    {
        match self {
            IpAddress::V4(_) => true,
            IpAddress::V6(_) => false,
        }
    }

    pub fn equals(&self, other: &IpAddress) -> (r: bool)
        ensures
            r == self.same(*other),
    {
        match (self, other) {
            (IpAddress::V4(a), IpAddress::V4(b)) => octets4_equal(a, b),
            (IpAddress::V6(a), IpAddress::V6(b)) => octets16_equal(a, b),
            _ => false,
        }
    }

    /// The octet at `i`.
    pub fn octet(&self, i: usize) -> (r: u8)
        requires
            i < self.octets().len(),
        ensures
            r == self.octets()[i as int],
    {
        match self {
            IpAddress::V4(o) => o[i],
            IpAddress::V6(o) => o[i],
        }
    }
}

impl View for IpAddress {
    type V = (bool, Seq<u8>);

    open spec fn view(&self) -> (bool, Seq<u8>) {
        (self is V4, self.octets())
    }
}

/// Octets filled up with zeros to the size of an address.
pub open spec fn padded(s: Seq<u8>, size: int) -> Seq<u8> {
    Seq::new(
        size as nat,
        |i: int|
            if i < s.len() {
                s[i]
            } else {
                0u8
            },
    )
}

/// An address that begins with some octets and goes on with zeros.
pub fn padded_address(octets: &[u8], is_v4: bool) -> (r: IpAddress)
    requires
        octets@.len() <= (if is_v4 {
            4int
        } else {
            16
        }),
    ensures
        r is V4 == is_v4,
        r.octets() == padded(octets@, if is_v4 {
            4
        } else {
            16
        }),
{
    let n: usize = octets.len();
    if is_v4 {
        let mut a: [u8; 4] = [0, 0, 0, 0];
        let mut i: usize = 0;
        while i < n
            invariant
                i <= n <= 4,
                n == octets@.len(),
                forall|j: int| 0 <= j < i ==> a@[j] == octets@[j],
                forall|j: int| i <= j < 4 ==> a@[j] == 0,
            decreases n - i,
        {
            a[i] = octets[i];
            i = i + 1;
        }
        assert(a@ =~= padded(octets@, 4));
        IpAddress::V4(a)
    } else {
        let mut a: [u8; 16] = [0, 0, 0, 0, 0, 0, 0, 0, 0, 0, 0, 0, 0, 0, 0, 0];
        let mut i: usize = 0;
        while i < n
            invariant
                i <= n <= 16,
                n == octets@.len(),
                forall|j: int| 0 <= j < i ==> a@[j] == octets@[j],
                forall|j: int| i <= j < 16 ==> a@[j] == 0,
            decreases n - i,
        {
            a[i] = octets[i];
            i = i + 1;
        }
        assert(a@ =~= padded(octets@, 16));
        IpAddress::V6(a)
    }
}

/// The number of octets that hold `len` leading bits.
pub open spec fn prefix_octets(len: int) -> int {
    (len + 7) / 8
}

/// The value of octet `i` of an address with only its first `len` bits kept.
pub open spec fn masked_octet(octets: Seq<u8>, len: int, i: int) -> int {
    if len >= 8 * (i + 1) {
        octets[i] as int
    } else if len <= 8 * i {
        0
    } else {
        let unit = octet_unit(len - 8 * i);
        (octets[i] as int / unit) * unit
    }
}

/// The weight of the last of the `kept` leading bits of an octet.
pub open spec fn octet_unit(kept: int) -> int {
    if kept <= 0 {
        256
    } else if kept == 1 {
        128
    } else if kept == 2 {
        64
    } else if kept == 3 {
        32
    } else if kept == 4 {
        16
    } else if kept == 5 {
        8
    } else if kept == 6 {
        4
    } else if kept == 7 {
        2
    } else {
        1
    }
}

/// An address prefix in canonical form: no bit after the first `len` is set.
#[derive(Clone, Copy, Debug, PartialEq, Eq)]
pub struct Prefix {
    pub addr: IpAddress,
    pub len: u8,
}

/// What a prefix stands for: its family, its octets and its length.
pub type PrefixKey = (bool, Seq<u8>, u8);

impl View for Prefix {
    type V = PrefixKey;

    open spec fn view(&self) -> PrefixKey {
        (self.addr is V4, self.addr.octets(), self.len)
    }
}

/// The greatest prefix length of a family.
pub open spec fn family_bits(is_v4: bool) -> int {
    if is_v4 {
        32
    } else {
        128
    }
}

/// Whether the first `len` bits of `octets` are all that is set in them.
pub open spec fn host_is_zero(octets: Seq<u8>, len: int) -> bool {
    forall|i: int| 0 <= i < octets.len() ==> #[trigger] octets[i] == masked_octet(octets, len, i)
}

/// Whether a key is that of a prefix in canonical form.
pub open spec fn valid_key(k: PrefixKey) -> bool {
    &&& k.1.len() == family_bits(k.0) / 8
    &&& k.2 <= family_bits(k.0)
    &&& host_is_zero(k.1, k.2 as int)
}

/// Whether prefix `a` covers prefix `b`: same family, not longer, and the
/// first bits of `b` are those of `a`.
pub open spec fn covers(a: PrefixKey, b: PrefixKey) -> bool {
    &&& a.0 == b.0
    &&& a.2 <= b.2
    &&& forall|i: int| 0 <= i < a.1.len() ==> #[trigger] a.1[i] == masked_octet(b.1, a.2 as int, i)
}

/// The octet `o` with only its first `kept` bits.
pub fn mask_octet(o: u8, kept: u8) -> (r: u8)
    ensures
        kept >= 8 ==> r == o,
        kept == 0 ==> r == 0,
        0 < kept < 8 ==> r == (o as int / octet_unit(kept as int)) * octet_unit(kept as int),
{
    if kept >= 8 {
        o
    } else if kept == 0 {
        0
    } else if kept == 1 {
        (o / 128) * 128
    } else if kept == 2 {
        (o / 64) * 64
    } else if kept == 3 {
        (o / 32) * 32
    } else if kept == 4 {
        (o / 16) * 16
    } else if kept == 5 {
        (o / 8) * 8
    } else if kept == 6 {
        (o / 4) * 4
    } else {
        (o / 2) * 2
    }
}

/// The octet at `i` of `addr` with only the first `len` bits of the address.
pub fn masked_at(addr: &IpAddress, len: u8, i: usize) -> (r: u8)
    requires
        i < addr.octets().len(),
    ensures
        r == masked_octet(addr.octets(), len as int, i as int),
{
    let o: u8 = addr.octet(i);
    if len as usize >= 8 * (i + 1) {
        o
    } else if len as usize <= 8 * i {
        0
    } else {
        mask_octet(o, (len as usize - 8 * i) as u8)
    }
}

impl Prefix {
    /// Whether the prefix is in canonical form.
    pub open spec fn wf(self) -> bool {
        valid_key(self@)
    }

    /// A prefix from an address and a length. There is none if the length
    /// exceeds that of the address, or if a bit after the length is set.
    pub fn new(addr: IpAddress, len: u8) -> (r: Option<Prefix>)
        ensures
            match r {
                Some(p) => p.addr == addr && p.len == len && p.wf(),
                None => !(Prefix { addr, len }).wf(),
            },
    {
        let bits: u8 = if addr.is_v4() { 32 } else { 128 };
        let n: usize = if addr.is_v4() { 4 } else { 16 };
        assert(n == addr.octets().len());
        let p = Prefix { addr, len };
        if len > bits {
            return None;
        }
        let mut i: usize = 0;
        while i < n
            invariant
                i <= n,
                n == addr.octets().len(),
                p == (Prefix { addr, len }),
                forall|j: int| 0 <= j < i ==> #[trigger] addr.octets()[j] == masked_octet(addr.octets(), len as int, j),
            decreases n - i,
        {
            if addr.octet(i) != masked_at(&addr, len, i) {
                assert(addr.octets()[i as int] != masked_octet(addr.octets(), len as int, i as int));
                assert(!host_is_zero(p@.1, p@.2 as int));
                return None;
            }
            i = i + 1;
        }
        assert(host_is_zero(p@.1, p@.2 as int));
        Some(p)
    }

    pub fn is_v4(&self) -> (r: bool)
        ensures
            r == self@.0,
    {
        self.addr.is_v4()
    }

    pub fn equals(&self, other: &Prefix) -> (r: bool)
        ensures
            r == (self@ == other@),
    {
        self.len == other.len && self.addr.equals(&other.addr)
    }

    /// Whether this prefix covers `other`.
    pub fn covers_prefix(&self, other: &Prefix) -> (r: bool)
        ensures
            r == covers(self@, other@),
    {
        if self.is_v4() != other.is_v4() || self.len > other.len {
            return false;
        }
        let n: usize = if self.is_v4() { 4 } else { 16 };
        assert(n == self@.1.len() && n == other@.1.len());
        let mut i: usize = 0;
        while i < n
            invariant
                i <= n,
                n == self@.1.len(),
                n == other@.1.len(),
                self@.0 == other@.0,
                self.len <= other.len,
                forall|j: int| 0 <= j < i ==> #[trigger] self@.1[j] == masked_octet(other@.1, self.len as int, j),
            decreases n - i,
        {
            if self.addr.octet(i) != masked_at(&other.addr, self.len, i) {
                assert(self@.1[i as int] != masked_octet(other@.1, self.len as int, i as int));
                return false;
            }
            i = i + 1;
        }
        true
    }

    /// The default route of a family: the prefix that covers all others.
    pub fn default_route(is_v4: bool) -> (r: Prefix)
        ensures
            r.wf(),
            r@.0 == is_v4,
            r.len == 0,
    {
        let p = if is_v4 {
            Prefix { addr: IpAddress::V4([0, 0, 0, 0]), len: 0 }
        } else {
            Prefix { addr: IpAddress::V6([0, 0, 0, 0, 0, 0, 0, 0, 0, 0, 0, 0, 0, 0, 0, 0]), len: 0 }
        };
        assert(host_is_zero(p@.1, 0));
        p
    }
}

/// The kind of peer that a BMP per-peer header speaks of.
#[derive(Clone, Copy, Debug, PartialEq, Eq, Structural)]
pub enum PeerType {
    GlobalInstance,
    RdInstance,
    LocalInstance,
    LocalRibInstance,
    Unimplemented(u8),
}

impl PeerType {
    /// The octet that stands for the peer type on the wire.
    pub open spec fn code(self) -> u8 {
        match self {
            PeerType::GlobalInstance => 0,
            PeerType::RdInstance => 1,
            PeerType::LocalInstance => 2,
            PeerType::LocalRibInstance => 3,
            PeerType::Unimplemented(n) => n,
        }
    }

    pub fn to_code(&self) -> (r: u8)
        ensures
            r == self.code(),
    {
        match self {
            PeerType::GlobalInstance => 0,
            PeerType::RdInstance => 1,
            PeerType::LocalInstance => 2,
            PeerType::LocalRibInstance => 3,
            PeerType::Unimplemented(n) => *n,
        }
    }
}

/// The table of a peer that a BMP session monitors.
#[derive(Clone, Copy, Debug, PartialEq, Eq, Structural)]
pub enum PeerRibType {
    InPre,
    InPost,
    OutPre,
    OutPost,
    Loc,
}

/// A BGP address family.
#[derive(Clone, Copy, Debug, PartialEq, Eq, Structural)]
pub enum AfiSafiType {
    Ipv4Unicast,
    Ipv6Unicast,
    Ipv4Multicast,
    Ipv6Multicast,
    Ipv4FlowSpec,
    Ipv6FlowSpec,
    L2VpnEvpn,
    Unsupported(u16, u8),
}

impl AfiSafiType {
    /// The address family and subsequent address family identifiers.
    pub open spec fn pair(self) -> (u16, u8) {
        match self {
            AfiSafiType::Ipv4Unicast => (1, 1),
            AfiSafiType::Ipv6Unicast => (2, 1),
            AfiSafiType::Ipv4Multicast => (1, 2),
            AfiSafiType::Ipv6Multicast => (2, 2),
            AfiSafiType::Ipv4FlowSpec => (1, 133),
            AfiSafiType::Ipv6FlowSpec => (2, 133),
            AfiSafiType::L2VpnEvpn => (25, 70),
            AfiSafiType::Unsupported(afi, safi) => (afi, safi),
        }
    }

    pub fn to_pair(&self) -> (r: (u16, u8))
        ensures
            r == self.pair(),
    {
        match self {
            AfiSafiType::Ipv4Unicast => (1, 1),
            AfiSafiType::Ipv6Unicast => (2, 1),
            AfiSafiType::Ipv4Multicast => (1, 2),
            AfiSafiType::Ipv6Multicast => (2, 2),
            AfiSafiType::Ipv4FlowSpec => (1, 133),
            AfiSafiType::Ipv6FlowSpec => (2, 133),
            AfiSafiType::L2VpnEvpn => (25, 70),
            AfiSafiType::Unsupported(afi, safi) => (*afi, *safi),
        }
    }

    /// Whether BMP output can carry routes of the family.
    pub open spec fn reemitted(self) -> bool {
        ||| self is Ipv4Unicast
        ||| self is Ipv6Unicast
        ||| self is Ipv4FlowSpec
        ||| self is Ipv6FlowSpec
        ||| self is L2VpnEvpn
    }

    pub fn is_reemitted(&self) -> (r: bool)
        ensures
            r == self.reemitted(),
    {
        match self {
            AfiSafiType::Ipv4Unicast
            | AfiSafiType::Ipv6Unicast
            | AfiSafiType::Ipv4FlowSpec
            | AfiSafiType::Ipv6FlowSpec
            | AfiSafiType::L2VpnEvpn => true,
            _ => false,
        }
    }
}

/// How an ingress came to be.
#[derive(Clone, Copy, Debug, PartialEq, Eq, Structural)]
pub enum IngressType {
    /// A BGP session that is terminated locally.
    Bgp,
    /// A monitored router.
    Bmp,
    /// A BGP session of a monitored router.
    BgpViaBmp,
    /// One ADD-PATH path of a session.
    BgpPath,
    /// A peer read from an MRT file.
    Mrt,
}

/// Whether the session behind an ingress is up.
#[derive(Clone, Copy, Debug, PartialEq, Eq, Structural)]
pub enum IngressState {
    Connected,
    Disconnected,
    NonNetwork,
}

/// Whether a stored route is in use.
#[derive(Clone, Copy, Debug, PartialEq, Eq, Structural)]
pub enum RouteStatus {
    Active,
    InActive,
    Withdrawn,
}

} // verus!
