//! EVPN routes (RFC 7432, RFC 9136). A route is identified by its route
//! distinguisher and what its type makes part of the key, never by the
//! tenant prefix alone.
use vstd::prelude::*;
use vstd::utf8::*;

use crate::ingress::copy_opt_string;
use crate::pamap::{attr_at, attr_blob, attr_extent, attr_list, RotondaPaMap};
use crate::text::{
    colon_hex, decimal, dotted, hex, hex_text, hex_with_colons, opt_text, push_char, push_decimal,
    push_dotted, dotted_prefix_tells_the_prefix,
};
use crate::types::{host_is_zero, valid_key, IngressId, IpAddress, Prefix, PrefixKey};
use crate::wire::{copy_range, get16, get32, push_bytes, read_be16, read_be32};

verus! {

/// An EVPN route.
#[derive(Debug)]
pub struct EvpnNlri {
    pub route_type: u8,
    pub rd: String,
    pub ethernet_tag: Option<u32>,
    pub esi: Option<String>,
    pub mac: Option<String>,
    pub prefix: Option<Prefix>,
    pub gateway: Option<IpAddress>,
    /// The 24-bit label fields as they are: VXLAN takes them for VNIs.
    pub labels: Vec<u32>,
    pub raw: Vec<u8>,
    /// What identifies the route.
    pub key: Vec<u8>,
}

/// The text form of a prefix, as `inetnum` displays it.
pub uninterp spec fn prefix_text(is_v4: bool, octets: Seq<u8>, len: u8) -> Seq<char>;

/// The text form of a prefix: for IPv4 the address in dotted decimal, a slash
/// and the length.
pub open spec fn shown_prefix(p: PrefixKey) -> Seq<char> {
    if p.0 {
        dotted(p.1) + seq!['/'] + decimal(p.2 as nat)
    } else {
        prefix_text(p.0, p.1, p.2)
    }
}

/// Whether a text is that of one prefix only.
pub open spec fn tells_prefix(text: Seq<char>, p: PrefixKey) -> bool {
    forall|q: PrefixKey| valid_key(q) && #[trigger] prefix_text(q.0, q.1, q.2) == text ==> q == p
}

/// Whether a prefix has its text form, which for IPv6 no other prefix has.
pub open spec fn spelled(p: PrefixKey) -> bool {
    &&& shown_prefix(p) == prefix_text(p.0, p.1, p.2)
    &&& !p.0 ==> tells_prefix(shown_prefix(p), p)
}

/// Displays a prefix, by `inetnum::addr::Prefix`'s `Display`: the address, a
/// slash and the length. An IPv4 address is in dotted decimal; how an IPv6
/// address is shortened depends on its octets alone, and is left unsaid, but
/// no other prefix has the same text: `Prefix`'s `FromStr` reads the prefix
/// back from it, as the address before the slash and the length behind it.
#[verifier::external_body]
pub(crate) fn display_prefix(p: &Prefix) -> (r: String)
    requires
        p.wf(),
    ensures
        r@ == prefix_text(p@.0, p@.1, p@.2),
        !p@.0 ==> tells_prefix(r@, p@),
        p@.0 ==> r@ == dotted(p@.1) + seq!['/'] + decimal(p@.2 as nat),
{
    match p.addr {
        IpAddress::V4(o) => inetnum::addr::Prefix::new_v4(o.into(), p.len).unwrap().to_string(),
        IpAddress::V6(o) => inetnum::addr::Prefix::new_v6(o.into(), p.len).unwrap().to_string(),
    }
}

/// An address of four or sixteen octets, as its family and its octets.
pub open spec fn addr_of(b: Seq<u8>) -> Option<(bool, Seq<u8>)> {
    if b.len() == 4 {
        Some((true, b))
    } else if b.len() == 16 {
        Some((false, b))
    } else {
        None
    }
}

/// The family and the octets of an optional address.
pub open spec fn opt_addr(a: Option<IpAddress>) -> Option<(bool, Seq<u8>)> {
    match a {
        Some(x) => Some((x is V4, x.octets())),
        None => None,
    }
}

/// An address from four or sixteen octets.
pub fn ip(raw: &[u8]) -> (r: Option<IpAddress>)
    ensures
        opt_addr(r) == addr_of(raw@),
{
    if raw.len() == 4 {
        let o: [u8; 4] = [raw[0], raw[1], raw[2], raw[3]];
        assert(o@ =~= raw@);
        Some(IpAddress::V4(o))
    } else if raw.len() == 16 {
        let o: [u8; 16] = [
            raw[0],
            raw[1],
            raw[2],
            raw[3],
            raw[4],
            raw[5],
            raw[6],
            raw[7],
            raw[8],
            raw[9],
            raw[10],
            raw[11],
            raw[12],
            raw[13],
            raw[14],
            raw[15],
        ];
        assert(o@ =~= raw@);
        Some(IpAddress::V6(o))
    } else {
        None
    }
}

/// The text of eight octets that a two-part administrator and number fill:
/// a two-octet AS number, an address or a four-octet AS number first.
pub open spec fn admin_number_text(kind: int, b: Seq<u8>) -> Seq<char> {
    if kind == 0 {
        decimal(get16(b, 2) as nat) + seq![':'] + decimal(get32(b, 4) as nat)
    } else if kind == 1 {
        dotted(b.subrange(2, 6)) + seq![':'] + decimal(get16(b, 6) as nat)
    } else {
        decimal(get32(b, 2) as nat) + seq![':'] + decimal(get16(b, 6) as nat)
    }
}

/// Writes eight octets of administrator and number.
fn admin_number(kind: u16, b: &[u8]) -> (r: String)
    requires
        b@.len() == 8,
    ensures
        r@ == admin_number_text(kind as int, b@),
{
    let mut s = String::new();
    if kind == 0 {
        push_decimal(&mut s, read_be16(b, 2) as u64);
        push_char(&mut s, ':');
        push_decimal(&mut s, read_be32(b, 4) as u64);
    } else if kind == 1 {
        push_dotted(&mut s, &b[2..6]);
        push_char(&mut s, ':');
        push_decimal(&mut s, read_be16(b, 6) as u64);
    } else {
        push_decimal(&mut s, read_be32(b, 2) as u64);
        push_char(&mut s, ':');
        push_decimal(&mut s, read_be16(b, 6) as u64);
    }
    assert(s@ =~= admin_number_text(kind as int, b@));
    s
}

/// The text of a route distinguisher.
pub open spec fn rd_text(b: Seq<u8>) -> Seq<char> {
    if get16(b, 0) <= 2 {
        admin_number_text(get16(b, 0), b)
    } else {
        hex_text(b)
    }
}

/// The 24-bit fields of `s`, as many as there are.
pub open spec fn label_list(s: Seq<u8>) -> Seq<u32>
    decreases s.len(),
{
    if s.len() < 3 {
        Seq::empty()
    } else {
        seq![(s[0] * 65536 + s[1] * 256 + s[2]) as u32] + label_list(s.skip(3))
    }
}

/// Reads 24-bit fields.
fn read_labels(s: &[u8]) -> (r: Vec<u32>)
    ensures
        r@ == label_list(s@),
{
    let mut r: Vec<u32> = Vec::new();
    let mut pos: usize = 0;
    assert(s@.skip(0) =~= s@);
    while s.len() - pos >= 3
        invariant
            pos <= s@.len(),
            label_list(s@) == r@ + label_list(s@.skip(pos as int)),
        decreases s@.len() - pos,
    {
        let ghost t = s@.skip(pos as int);
        let ghost before = r@;
        assert(t[0] == s@[pos as int] && t[1] == s@[pos + 1] && t[2] == s@[pos + 2]);
        r.push(s[pos] as u32 * 65536 + s[pos + 1] as u32 * 256 + s[pos + 2] as u32);
        assert(t.skip(3) =~= s@.skip(pos + 3));
        assert(r@ + label_list(t.skip(3)) =~= before + label_list(t));
        pos = pos + 3;
    }
    assert(r@ + Seq::<u32>::empty() =~= r@);
    r
}

/// What follows the type and the length of a route.
pub open spec fn evpn_body(raw: Seq<u8>) -> Seq<u8> {
    raw.skip(2)
}

/// The size of the address in a MAC/IP route, by its length in bits.
pub open spec fn mac_ip_size(bits: u8) -> int {
    if bits == 32 {
        4
    } else if bits == 128 {
        16
    } else {
        0
    }
}

/// The size of an address in an IP prefix route.
pub open spec fn rt5_size(b: Seq<u8>) -> int {
    if b.len() == 34 {
        4
    } else {
        16
    }
}

/// The prefix of an IP prefix route. The whole address is there, whatever
/// the prefix length.
pub open spec fn rt5_prefix(b: Seq<u8>) -> PrefixKey {
    (rt5_size(b) == 4, b.subrange(23, 23 + rt5_size(b)), b[22])
}

/// Whether the octets are those of a well-formed EVPN route. Of a type that
/// is not known only the frame is checked.
pub open spec fn evpn_valid(raw: Seq<u8>) -> bool {
    let b = evpn_body(raw);
    &&& raw.len() >= 10
    &&& raw[1] + 2 == raw.len()
    &&& raw[0] == 1 ==> b.len() == 25
    &&& raw[0] == 2 ==> {
        &&& b.len() >= 33
        &&& b[22] == 48
        &&& (b[29] == 0 || b[29] == 32 || b[29] == 128)
        &&& (b.len() == 33 + mac_ip_size(b[29]) || b.len() == 36 + mac_ip_size(b[29]))
    }
    &&& raw[0] == 3 ==> b.len() >= 13 && (b[12] == 32 && b.len() == 17 || b[12] == 128 && b.len()
        == 29)
    &&& raw[0] == 4 ==> b.len() >= 19 && (b[18] == 32 && b.len() == 23 || b[18] == 128 && b.len()
        == 35)
    &&& raw[0] == 5 ==> (b.len() == 34 || b.len() == 58) && valid_key(rt5_prefix(b))
}

/// What identifies a route. Labels are never part of it, nor is the segment
/// identifier of a MAC/IP or IP prefix route.
pub open spec fn evpn_key(raw: Seq<u8>) -> Seq<u8> {
    let b = evpn_body(raw);
    if raw[0] == 1 {
        seq![1u8] + b.take(22)
    } else if raw[0] == 2 {
        seq![2u8] + b.take(8) + b.subrange(18, 22) + b.subrange(22, 30 + mac_ip_size(b[29]))
    } else if raw[0] == 5 {
        let p = rt5_prefix(b);
        seq![5u8] + b.take(8) + b.subrange(18, 22) + encode_utf8(shown_prefix(p))
    } else {
        raw
    }
}

/// The labels of a route.
pub open spec fn evpn_labels(raw: Seq<u8>) -> Seq<u32> {
    let b = evpn_body(raw);
    if raw[0] == 1 {
        label_list(b.subrange(22, 25))
    } else if raw[0] == 2 {
        label_list(b.skip(30 + mac_ip_size(b[29])))
    } else if raw[0] == 5 {
        label_list(b.skip(23 + 2 * rt5_size(b)))
    } else {
        Seq::empty()
    }
}

/// The view of an optional prefix.
pub open spec fn opt_prefix(p: Option<Prefix>) -> Option<PrefixKey> {
    match p {
        Some(x) => Some(x@),
        None => None,
    }
}

/// The prefix of a route, if its type has one.
pub open spec fn evpn_prefix(raw: Seq<u8>) -> Option<PrefixKey> {
    let b = evpn_body(raw);
    if raw[0] == 2 && b[29] != 0 {
        Some((b[29] == 32, b.subrange(30, 30 + mac_ip_size(b[29])), b[29]))
    } else if raw[0] == 5 {
        Some(rt5_prefix(b))
    } else {
        None
    }
}

impl EvpnNlri {
    /// Whether the fields are those of the route that `raw` holds.
    pub open spec fn describes(self, raw: Seq<u8>) -> bool {
        let b = evpn_body(raw);
        let t = raw[0];
        &&& self.route_type == t
        &&& self.rd@ == rd_text(b.take(8))
        &&& self.ethernet_tag == (if t == 1 || t == 2 || t == 5 {
            Some(get32(b, 18) as u32)
        } else if t == 3 {
            Some(get32(b, 8) as u32)
        } else {
            None
        })
        &&& opt_text(self.esi) == (if t == 1 || t == 2 || t == 4 || t == 5 {
            Some(hex_text(b.subrange(8, 18)))
        } else {
            None
        })
        &&& opt_text(self.mac) == (if t == 2 {
            Some(colon_hex(b.subrange(23, 29)))
        } else {
            None
        })
        &&& opt_prefix(self.prefix) == evpn_prefix(raw)
        &&& opt_addr(self.gateway) == (if t == 5 {
            addr_of(b.subrange(23 + rt5_size(b), 23 + 2 * rt5_size(b)))
        } else {
            None
        })
        &&& self.labels@ == evpn_labels(raw)
        &&& self.raw@ == raw
        &&& self.key@ == evpn_key(raw)
        &&& t == 5 ==> spelled(rt5_prefix(b))
    }

    /// Whether the fields are those of the route that its octets hold.
    pub open spec fn wf(self) -> bool {
        evpn_valid(self.raw@) && self.describes(self.raw@)
    }

    /// Whether both are the same route with the same fields.
    pub open spec fn same(self, o: EvpnNlri) -> bool {
        &&& self.route_type == o.route_type
        &&& self.rd@ == o.rd@
        &&& self.ethernet_tag == o.ethernet_tag
        &&& opt_text(self.esi) == opt_text(o.esi)
        &&& opt_text(self.mac) == opt_text(o.mac)
        &&& self.prefix == o.prefix
        &&& self.gateway == o.gateway
        &&& self.labels@ == o.labels@
        &&& self.raw@ == o.raw@
        &&& self.key@ == o.key@
    }

    /// Parses a route: its type, its length and what the length spans.
    pub fn parse(raw: &[u8]) -> (r: Result<Self, ()>)
        ensures
            match r {
                Ok(n) => n.raw@ == raw@ && n.wf(),
                Err(_) => !evpn_valid(raw@),
            },
    {
        let len: usize = raw.len();
        if len < 10 || raw[1] as usize != len - 2 {
            return Err(());
        }
        let b = &raw[2..len];
        assert(b@ =~= evpn_body(raw@));
        let n: usize = b.len();
        let route_type: u8 = raw[0];
        let rd8 = &b[0..8];
        assert(rd8@ =~= b@.take(8));
        let rd_kind: u16 = read_be16(rd8, 0);
        let rd = if rd_kind <= 2 {
            admin_number(rd_kind, rd8)
        } else {
            hex(rd8)
        };
        let mut ethernet_tag: Option<u32> = None;
        let mut esi: Option<String> = None;
        let mut mac: Option<String> = None;
        let mut prefix: Option<Prefix> = None;
        let mut gateway: Option<IpAddress> = None;
        let mut labels: Vec<u32> = Vec::new();
        let mut key: Vec<u8> = Vec::new();

        if route_type == 1 {
            if n != 25 {
                return Err(());
            }
            esi = Some(hex(&b[8..18]));
            ethernet_tag = Some(read_be32(b, 18));
            labels = read_labels(&b[22..25]);
            key.push(1);
            push_bytes(&mut key, &b[0..22]);
            assert(b@.subrange(0, 22) =~= b@.take(22));
            assert(key@ =~= evpn_key(raw@));
        } else if route_type == 2 {
            if n < 33 || b[22] != 48 {
                return Err(());
            }
            let ip_len: usize = match b[29] {
                0 => 0,
                32 => 4,
                128 => 16,
                _ => {
                    return Err(());
                },
            };
            assert(ip_len == mac_ip_size(b@[29]));
            let labels_at: usize = 30 + ip_len;
            if n != labels_at + 3 && n != labels_at + 6 {
                return Err(());
            }
            esi = Some(hex(&b[8..18]));
            ethernet_tag = Some(read_be32(b, 18));
            mac = Some(hex_with_colons(&b[23..29]));
            if ip_len != 0 {
                let addr = match ip(&b[30..labels_at]) {
                    Some(a) => a,
                    None => {
                        assert(false);
                        return Err(());
                    },
                };
                proof {
                    lemma_full_length_host_is_zero(addr.octets(), b@[29] as int);
                }
                match Prefix::new(addr, b[29]) {
                    Some(p) => {
                        prefix = Some(p);
                    },
                    None => {
                        assert(false);
                        return Err(());
                    },
                }
            }
            labels = read_labels(&b[labels_at..n]);
            assert(b@.subrange(labels_at as int, n as int) =~= b@.skip(labels_at as int));
            key.push(2);
            push_bytes(&mut key, &b[0..8]);
            push_bytes(&mut key, &b[18..22]);
            push_bytes(&mut key, &b[22..labels_at]);
            assert(b@.subrange(0, 8) =~= b@.take(8));
            assert(key@ =~= evpn_key(raw@));
        } else if route_type == 3 {
            if n < 13 || !(b[12] == 32 && n == 17 || b[12] == 128 && n == 29) {
                return Err(());
            }
            ethernet_tag = Some(read_be32(b, 8));
            push_bytes(&mut key, raw);
            assert(key@ =~= raw@);
        } else if route_type == 4 {
            if n < 19 || !(b[18] == 32 && n == 23 || b[18] == 128 && n == 35) {
                return Err(());
            }
            esi = Some(hex(&b[8..18]));
            push_bytes(&mut key, raw);
            assert(key@ =~= raw@);
        } else if route_type == 5 {
            let size: usize = if n == 34 {
                4
            } else if n == 58 {
                16
            } else {
                return Err(());
            };
            assert(size == rt5_size(b@));
            let addr = match ip(&b[23..23 + size]) {
                Some(a) => a,
                None => {
                    assert(false);
                    return Err(());
                },
            };
            let p = match Prefix::new(addr, b[22]) {
                Some(p) => p,
                None => {
                    assert((Prefix { addr, len: b@[22] })@ == rt5_prefix(b@));
                    return Err(());
                },
            };
            assert(p@ == rt5_prefix(b@));
            esi = Some(hex(&b[8..18]));
            ethernet_tag = Some(read_be32(b, 18));
            prefix = Some(p);
            gateway = ip(&b[23 + size..23 + 2 * size]);
            labels = read_labels(&b[23 + 2 * size..n]);
            assert(b@.subrange(23 + 2 * size, n as int) =~= b@.skip(23 + 2 * size));
            key.push(5);
            push_bytes(&mut key, &b[0..8]);
            push_bytes(&mut key, &b[18..22]);
            let text = display_prefix(&p);
            assert(text@ == shown_prefix(rt5_prefix(b@)));
            push_bytes(&mut key, text.as_str().as_bytes());
            assert(b@.subrange(0, 8) =~= b@.take(8));
            assert(key@ =~= evpn_key(raw@));
        } else {
            push_bytes(&mut key, raw);
            assert(key@ =~= raw@);
        }
        let raw_copy = copy_range(raw, 0, len);
        assert(raw_copy@ =~= raw@);
        Ok(
            EvpnNlri {
                route_type,
                rd,
                ethernet_tag,
                esi,
                mac,
                prefix,
                gateway,
                labels,
                raw: raw_copy,
                key,
            },
        )
    }
}

impl Clone for EvpnNlri {
    fn clone(&self) -> (r: Self)
        ensures
            r.same(*self),
    {
        let n: usize = self.raw.len();
        let m: usize = self.key.len();
        let raw = copy_range(&self.raw, 0, n);
        let key = copy_range(&self.key, 0, m);
        assert(raw@ =~= self.raw@ && key@ =~= self.key@);
        let mut labels: Vec<u32> = Vec::new();
        labels.extend_from_slice(&self.labels);
        assert(labels@ =~= self.labels@);
        EvpnNlri {
            route_type: self.route_type,
            rd: self.rd.clone(),
            ethernet_tag: self.ethernet_tag,
            esi: copy_opt_string(&self.esi),
            mac: copy_opt_string(&self.mac),
            prefix: self.prefix,
            gateway: self.gateway,
            labels,
            raw,
            key,
        }
    }
}

/// No bit is left over after all bits of an address.
proof fn lemma_full_length_host_is_zero(octets: Seq<u8>, len: int)
    requires
        8 * octets.len() <= len,
    ensures
        host_is_zero(octets, len),
{
}

/// A route that was cut short is not well-formed: no proper prefix of the
/// octets of a well-formed route is one.
pub proof fn truncated_routes_are_invalid(raw: Seq<u8>, len: int)
    requires
        evpn_valid(raw),
        0 <= len < raw.len(),
    ensures
        !evpn_valid(raw.take(len)),
{
}

/// Two routes with different route distinguishers are never the same route,
/// whatever prefix or address they carry.
pub proof fn different_rd_means_different_key(a: Seq<u8>, b: Seq<u8>)
    requires
        evpn_valid(a),
        evpn_valid(b),
        a[0] == b[0],
        evpn_body(a).take(8) != evpn_body(b).take(8),
    ensures
        evpn_key(a) != evpn_key(b),
{
    let x = evpn_body(a);
    let y = evpn_body(b);
    if evpn_key(a) == evpn_key(b) {
        assert forall|i: int| 0 <= i < 8 implies x.take(8)[i] == y.take(8)[i] by {
            if a[0] == 1 || a[0] == 2 || a[0] == 5 {
                assert(evpn_key(a)[1 + i] == x[i]);
                assert(evpn_key(b)[1 + i] == y[i]);
            } else {
                assert(evpn_key(a)[2 + i] == x[i]);
                assert(evpn_key(b)[2 + i] == y[i]);
            }
        }
        assert(x.take(8) =~= y.take(8));
    }
}

/// Whether octets are those of the same route: of the same type, with the
/// same distinguisher and, of a type that has them, the same tag; with the
/// same segment identifier, for a discovery route; with the same MAC and IP
/// address, for a MAC/IP route; with the same prefix, for an IP prefix route.
/// Of other types all is the same.
pub open spec fn same_route(a: Seq<u8>, b: Seq<u8>) -> bool {
    let (x, y) = (evpn_body(a), evpn_body(b));
    &&& a[0] == b[0]
    &&& x.take(8) == y.take(8)
    &&& a[0] == 1 || a[0] == 2 || a[0] == 5 ==> x.subrange(18, 22) == y.subrange(18, 22)
    &&& a[0] == 1 ==> x.subrange(8, 18) == y.subrange(8, 18)
    &&& a[0] == 2 ==> x.subrange(23, 29) == y.subrange(23, 29)
    &&& a[0] == 2 || a[0] == 5 ==> evpn_prefix(a) == evpn_prefix(b)
    &&& a[0] != 1 && a[0] != 2 && a[0] != 5 ==> a == b
}

/// Two parsed routes have the same key just where they are the same route.
/// Labels and gateways never matter, nor does the segment identifier of a
/// MAC/IP or IP prefix route; and two distinguishers never share a key.
pub proof fn equal_keys_mean_equal_routes(n: EvpnNlri, m: EvpnNlri, a: Seq<u8>, b: Seq<u8>)
    requires
        evpn_valid(a),
        n.describes(a),
        evpn_valid(b),
        m.describes(b),
    ensures
        n.key@ == m.key@ <==> same_route(a, b),
{
    if n.key@ == m.key@ {
        lemma_same_key(a, b);
        if a[0] == 5 {
            let (p, q) = (rt5_prefix(evpn_body(a)), rt5_prefix(evpn_body(b)));
            assert(prefix_text(q.0, q.1, q.2) == prefix_text(p.0, p.1, p.2));
            if p.0 && q.0 {
                dotted_prefix_tells_the_prefix(p.1, p.2 as nat, q.1, q.2 as nat);
            }
        }
    }
    if same_route(a, b) {
        lemma_same_route(a, b);
    }
}

/// What two routes with the same key have in common.
proof fn lemma_same_key(a: Seq<u8>, b: Seq<u8>)
    requires
        evpn_valid(a),
        evpn_valid(b),
        evpn_key(a) == evpn_key(b),
    ensures
        a[0] != 5 ==> same_route(a, b),
        a[0] == 5 ==> {
            &&& b[0] == 5
            &&& evpn_body(a).take(8) == evpn_body(b).take(8)
            &&& evpn_body(a).subrange(18, 22) == evpn_body(b).subrange(18, 22)
            &&& shown_prefix(rt5_prefix(evpn_body(a))) == shown_prefix(rt5_prefix(evpn_body(b)))
        },
{
    let x = evpn_body(a);
    let y = evpn_body(b);
    let (k, l) = (evpn_key(a), evpn_key(b));
    assert(k[0] == a[0] && l[0] == b[0]);
    if a[0] == 1 {
        assert(k.subrange(1, 9) =~= x.take(8));
        assert(l.subrange(1, 9) =~= y.take(8));
        assert(k.subrange(9, 19) =~= x.subrange(8, 18));
        assert(l.subrange(9, 19) =~= y.subrange(8, 18));
        assert(k.subrange(19, 23) =~= x.subrange(18, 22));
        assert(l.subrange(19, 23) =~= y.subrange(18, 22));
    } else if a[0] == 2 || a[0] == 5 {
        assert(k.subrange(1, 9) =~= x.take(8));
        assert(l.subrange(1, 9) =~= y.take(8));
        assert(k.subrange(9, 13) =~= x.subrange(18, 22));
        assert(l.subrange(9, 13) =~= y.subrange(18, 22));
        if a[0] == 2 {
            assert(k[20] == x[29] && l[20] == y[29]);
            let e = 30 + mac_ip_size(x[29]);
            assert(k.subrange(14, 20) =~= x.subrange(23, 29));
            assert(l.subrange(14, 20) =~= y.subrange(23, 29));
            assert(k.subrange(21, e - 9) =~= x.subrange(30, e));
            assert(l.subrange(21, e - 9) =~= y.subrange(30, e));
        } else {
            let (p, q) = (rt5_prefix(x), rt5_prefix(y));
            assert(k.skip(13) =~= encode_utf8(shown_prefix(p)));
            assert(l.skip(13) =~= encode_utf8(shown_prefix(q)));
            encode_utf8_decode_utf8(shown_prefix(p));
            encode_utf8_decode_utf8(shown_prefix(q));
        }
    }
}

/// The same route has the same key.
proof fn lemma_same_route(a: Seq<u8>, b: Seq<u8>)
    requires
        evpn_valid(a),
        evpn_valid(b),
        same_route(a, b),
    ensures
        evpn_key(a) == evpn_key(b),
{
    let x = evpn_body(a);
    let y = evpn_body(b);
    if a[0] == 1 {
        assert(x.take(22) =~= x.take(8) + x.subrange(8, 18) + x.subrange(18, 22));
        assert(y.take(22) =~= y.take(8) + y.subrange(8, 18) + y.subrange(18, 22));
    } else if a[0] == 2 {
        let e = 30 + mac_ip_size(x[29]);
        assert(x[29] == y[29]);
        assert(x.subrange(30, e) =~= y.subrange(30, e));
        assert(x.subrange(22, e) =~= seq![48u8] + x.subrange(23, 29) + seq![x[29]] + x.subrange(30, e));
        assert(y.subrange(22, e) =~= seq![48u8] + y.subrange(23, 29) + seq![y[29]] + y.subrange(30, e));
    }
}

/// Two IP prefix routes with the same distinguisher, tag and prefix are the
/// same route, whatever their labels, gateways and segment identifiers.
pub proof fn labels_do_not_change_identity(a: Seq<u8>, b: Seq<u8>)
    requires
        evpn_valid(a),
        evpn_valid(b),
        a[0] == 5,
        b[0] == 5,
        evpn_body(a).take(8) == evpn_body(b).take(8),
        evpn_body(a).subrange(18, 22) == evpn_body(b).subrange(18, 22),
        rt5_prefix(evpn_body(a)) == rt5_prefix(evpn_body(b)),
    ensures
        evpn_key(a) == evpn_key(b),
{
}

/// Two MAC/IP routes with the same distinguisher, tag, MAC and IP are the
/// same route, whatever their labels and segment identifiers.
pub proof fn mac_ip_identity_ignores_labels(a: Seq<u8>, b: Seq<u8>)
    requires
        evpn_valid(a),
        evpn_valid(b),
        a[0] == 2,
        b[0] == 2,
        evpn_body(a)[29] == evpn_body(b)[29],
        evpn_body(a).take(8) == evpn_body(b).take(8),
        evpn_body(a).subrange(18, 30 + mac_ip_size(evpn_body(a)[29])) == evpn_body(b).subrange(
            18,
            30 + mac_ip_size(evpn_body(b)[29]),
        ),
    ensures
        evpn_key(a) == evpn_key(b),
{
    let x = evpn_body(a);
    let y = evpn_body(b);
    let e = 30 + mac_ip_size(x[29]);
    assert(x.subrange(18, 22) =~= x.subrange(18, e).subrange(0, 4));
    assert(y.subrange(18, 22) =~= y.subrange(18, e).subrange(0, 4));
    assert(x.subrange(22, e) =~= x.subrange(18, e).subrange(4, e - 18));
    assert(y.subrange(22, e) =~= y.subrange(18, e).subrange(4, e - 18));
}

/// A stored EVPN route.
#[derive(Debug)]
pub struct EvpnRecord {
    pub ingress_id: IngressId,
    pub ltime: u64,
    pub active: bool,
    pub nlri: EvpnNlri,
    pub attributes: RotondaPaMap,
}

impl EvpnRecord {
    pub open spec fn same(self, o: EvpnRecord) -> bool {
        &&& self.ingress_id == o.ingress_id
        &&& self.ltime == o.ltime
        &&& self.active == o.active
        &&& self.nlri.same(o.nlri)
        &&& self.attributes@ == o.attributes@
    }
}

impl Clone for EvpnRecord {
    fn clone(&self) -> (r: Self)
        ensures
            r.same(*self),
    {
        EvpnRecord {
            ingress_id: self.ingress_id,
            ltime: self.ltime,
            active: self.active,
            nlri: self.nlri.clone(),
            attributes: self.attributes.clone(),
        }
    }
}

/// What an overlay needs of the attributes of a route: the route targets,
/// the router MAC and the next hop.
#[derive(Debug)]
pub struct EvpnAttributes {
    pub route_targets: Vec<String>,
    pub router_mac: Option<String>,
    pub next_hop: Option<IpAddress>,
}

/// The route targets among extended communities.
pub open spec fn community_targets(v: Seq<u8>) -> Seq<Seq<char>>
    decreases v.len(),
{
    if v.len() < 8 {
        Seq::empty()
    } else {
        (if v[1] == 2 && v[0] <= 2 {
            seq![admin_number_text(v[0] as int, v.take(8))]
        } else {
            Seq::empty()
        }) + community_targets(v.skip(8))
    }
}

/// The last router MAC among extended communities.
pub open spec fn community_mac(v: Seq<u8>) -> Option<Seq<char>>
    decreases v.len(),
{
    if v.len() < 8 {
        None
    } else {
        let later = community_mac(v.skip(8));
        if later is Some {
            later
        } else if v[0] == 6 && v[1] == 3 {
            Some(colon_hex(v.subrange(2, 8)))
        } else {
            None
        }
    }
}

/// The route targets of all extended communities attributes.
pub open spec fn targets_of(attrs: Seq<(u8, Seq<u8>)>) -> Seq<Seq<char>>
    decreases attrs.len(),
{
    if attrs.len() == 0 {
        Seq::empty()
    } else {
        targets_of(attrs.drop_last()) + (if attrs.last().0 == 16 {
            community_targets(attrs.last().1)
        } else {
            Seq::empty()
        })
    }
}

/// The last router MAC of all extended communities attributes.
pub open spec fn mac_of(attrs: Seq<(u8, Seq<u8>)>) -> Option<Seq<char>>
    decreases attrs.len(),
{
    if attrs.len() == 0 {
        None
    } else if attrs.last().0 == 16 && community_mac(attrs.last().1) is Some {
        community_mac(attrs.last().1)
    } else {
        mac_of(attrs.drop_last())
    }
}

/// Whether a value is that of an MP_REACH_NLRI for EVPN with all of its next
/// hop.
pub open spec fn is_evpn_reach(v: Seq<u8>) -> bool {
    v.len() >= 4 && v[0] == 0 && v[1] == 25 && v[2] == 70 && 4 + v[3] <= v.len()
}

/// The next hop of the last MP_REACH_NLRI for EVPN.
pub open spec fn evpn_next_hop(attrs: Seq<(u8, Seq<u8>)>) -> Option<(bool, Seq<u8>)>
    decreases attrs.len(),
{
    if attrs.len() == 0 {
        None
    } else if attrs.last().0 == 14 && is_evpn_reach(attrs.last().1) {
        addr_of(attrs.last().1.subrange(4, 4 + attrs.last().1[3]))
    } else {
        evpn_next_hop(attrs.drop_last())
    }
}

/// Whether the strings are the given texts.
pub open spec fn texts_are(v: Seq<String>, t: Seq<Seq<char>>) -> bool {
    v.len() == t.len() && forall|i: int| 0 <= i < v.len() ==> (#[trigger] v[i])@ == t[i]
}

impl EvpnAttributes {
    /// Reads the extended communities and the next hop of a route.
    pub fn decode(attributes: &RotondaPaMap) -> (r: Self)
        ensures
            texts_are(r.route_targets@, targets_of(attr_list(attr_blob(attributes@)))),
            opt_text(r.router_mac) == mac_of(attr_list(attr_blob(attributes@))),
            opt_addr(r.next_hop) == evpn_next_hop(attr_list(attr_blob(attributes@))),
    {
        let mut out = EvpnAttributes {
            route_targets: Vec::new(),
            router_mac: None,
            next_hop: None,
        };
        let blob = attributes.blob();
        let mut pos: usize = 0;
        let ghost mut done: Seq<(u8, Seq<u8>)> = Seq::empty();
        proof {
            assert(blob@.skip(0) =~= blob@);
            assert(done + attr_list(blob@) =~= attr_list(blob@));
        }
        while pos < blob.len()
            invariant_except_break
                pos <= blob@.len(),
                attr_list(blob@) == done + attr_list(blob@.skip(pos as int)),
                texts_are(out.route_targets@, targets_of(done)),
                opt_text(out.router_mac) == mac_of(done),
                opt_addr(out.next_hop) == evpn_next_hop(done),
            ensures
                texts_are(out.route_targets@, targets_of(attr_list(blob@))),
                opt_text(out.router_mac) == mac_of(attr_list(blob@)),
                opt_addr(out.next_hop) == evpn_next_hop(attr_list(blob@)),
            decreases blob@.len() - pos,
        {
            let ghost s = blob@.skip(pos as int);
            match attr_at(blob, pos) {
                None => {
                    assert(done + Seq::<(u8, Seq<u8>)>::empty() =~= done);
                    break;
                },
                Some((start, end)) => {
                    let v = &blob[start..end];
                    let type_code: u8 = blob[pos + 1];
                    let ghost (header, total) = attr_extent(s)->0;
                    let ghost one = (type_code, v@);
                    proof {
                        assert(type_code == s[1]);
                        assert(v@ =~= s.subrange(header, total));
                        assert(s.skip(total) =~= blob@.skip(end as int));
                        assert(attr_list(s) == seq![one] + attr_list(s.skip(total)));
                        assert(done + attr_list(s) =~= done.push(one) + attr_list(s.skip(total)));
                        assert(done.push(one).drop_last() =~= done);
                        done = done.push(one);
                    }
                    if type_code == 16 {
                        out.read_communities(v);
                    } else if type_code == 14 && v.len() >= 4 && v[0] == 0 && v[1] == 25 && v[2]
                        == 70 {
                        let nh_len: usize = v[3] as usize;
                        if nh_len <= v.len() - 4 {
                            out.next_hop = ip(&v[4..4 + nh_len]);
                        }
                    }
                    pos = end;
                },
            }
        }
        out
    }

    /// Adds what one extended communities attribute tells.
    fn read_communities(&mut self, v: &[u8])
        ensures
            forall|t: Seq<Seq<char>>| texts_are(old(self).route_targets@, t) ==> texts_are(
                final(self).route_targets@,
                #[trigger] (t + community_targets(v@)),
            ),
            opt_text(final(self).router_mac) == (if community_mac(v@) is Some {
                community_mac(v@)
            } else {
                opt_text(old(self).router_mac)
            }),
            final(self).next_hop == old(self).next_hop,
    {
        let mut pos: usize = 0;
        let ghost mut added: Seq<Seq<char>> = Seq::empty();
        proof {
            assert(v@.skip(0) =~= v@);
            assert(added + community_targets(v@) =~= community_targets(v@));
            assert forall|t: Seq<Seq<char>>| texts_are(self.route_targets@, t) implies texts_are(
                self.route_targets@,
                #[trigger] (t + added),
            ) by {
                assert(t + added =~= t);
            }
        }
        while v.len() - pos >= 8
            invariant
                pos <= v@.len(),
                community_targets(v@) == added + community_targets(v@.skip(pos as int)),
                forall|t: Seq<Seq<char>>| texts_are(old(self).route_targets@, t) ==> texts_are(
                    self.route_targets@,
                    #[trigger] (t + added),
                ),
                (if community_mac(v@) is Some {
                    community_mac(v@)
                } else {
                    opt_text(old(self).router_mac)
                }) == (if community_mac(v@.skip(pos as int)) is Some {
                    community_mac(v@.skip(pos as int))
                } else {
                    opt_text(self.router_mac)
                }),
                self.next_hop == old(self).next_hop,
            decreases v@.len() - pos,
        {
            let ghost s = v@.skip(pos as int);
            let c = &v[pos..pos + 8];
            let ghost before = added;
            let ghost targets_before = self.route_targets@;
            proof {
                assert(c@ =~= s.take(8));
                assert(s.skip(8) =~= v@.skip(pos + 8));
            }
            if c[1] == 2 && c[0] <= 2 {
                let rt = admin_number(c[0] as u16, c);
                let ghost text = rt@;
                self.route_targets.push(rt);
                proof {
                    added = added.push(text);
                    assert forall|t: Seq<Seq<char>>| texts_are(old(self).route_targets@, t) implies texts_are(
                        self.route_targets@,
                        #[trigger] (t + added),
                    ) by {
                        assert(texts_are(targets_before, t + before));
                        assert(t + added =~= (t + before).push(text));
                    }
                    assert(before + community_targets(s) =~= added + community_targets(s.skip(8)));
                }
            } else {
                assert(before + community_targets(s) =~= added + community_targets(s.skip(8)));
            }
            if c[0] == 6 && c[1] == 3 {
                self.router_mac = Some(hex_with_colons(&c[2..8]));
                assert(c@.subrange(2, 8) =~= s.subrange(2, 8));
            }
            pos = pos + 8;
        }
        assert(added + Seq::<Seq<char>>::empty() =~= added);
    }
}

} // verus!
