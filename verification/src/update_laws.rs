//! What a receiver reads out of the messages that routes are told in.
use vstd::prelude::*;

use crate::aggregator::{group_next_hop, group_update, item_bytes, item_fits, items_bytes, AggItem, AggNlri, GroupKey};
use crate::bmp_builder::{
    announcement_bytes, end_of_rib_update, evpn_update, evpn_value, flowspec_attr_bytes, flowspec_nlri_bytes,
    flowspec_update, lemma_next_hop_fits_an_octet, mp_reach_bytes, nlri_bytes, path_id_bytes, prefix_update,
    route_update,
};
use crate::pamap::{attr_blob, attr_extent, attr_list, kept_attrs, lemma_attr_extent_prefix, reach_next_hop};
use crate::route::RotondaRoute;
use crate::types::{prefix_octets, valid_key, AfiSafiType, PrefixKey};
use crate::wire::{be16, be32, extended_attr_bytes, lemma_be32_roundtrip, optional_attr_bytes, update_bytes, zeros};

verus! {

/// The three parts of an UPDATE.
#[verifier::ext_equal]
pub struct UpdateParts {
    pub withdrawn: Seq<u8>,
    pub attrs: Seq<u8>,
    pub nlri: Seq<u8>,
}

/// The parts of an UPDATE, as a receiver takes it apart: after nineteen octets
/// of header come the length of the withdrawn routes and these, then the
/// length of the attributes and these; all the rest is NLRI.
#[verifier::opaque]
pub open spec fn parts_of(u: Seq<u8>) -> UpdateParts {
    let w = u[19] * 256 + u[20];
    let a = u[21 + w] * 256 + u[22 + w];
    UpdateParts {
        withdrawn: u.subrange(21, 21 + w),
        attrs: u.subrange(23 + w, 23 + w + a),
        nlri: u.skip(23 + w + a),
    }
}

/// Whether a receiver takes octets for one whole UPDATE: sixteen octets of
/// ones, the length of all, type 2, and two lengths that fit.
#[verifier::opaque]
pub open spec fn is_whole_update(u: Seq<u8>) -> bool {
    let w = u[19] * 256 + u[20];
    let a = u[21 + w] * 256 + u[22 + w];
    &&& u.len() >= 23
    &&& forall|i: int| 0 <= i < 16 ==> #[trigger] u[i] == 255
    &&& u[16] * 256 + u[17] == u.len()
    &&& u[18] == 2
    &&& 23 + w + a <= u.len()
}

/// Whether octets are the NLRI of just one prefix: the path id, if there is
/// one, the length of the prefix, and as many octets as that length needs.
#[verifier::opaque]
pub open spec fn spells_prefix(s: Seq<u8>, p: PrefixKey, path_id: Option<u32>) -> bool {
    let k: int = if path_id is Some {
        4
    } else {
        0
    };
    &&& s.len() == k + 1 + (p.2 + 7) / 8
    &&& path_id matches Some(id) ==> s[0] * 16777216 + s[1] * 65536 + s[2] * 256 + s[3] == id
    &&& s[k] == p.2
    &&& forall|i: int| 0 <= i < (p.2 + 7) / 8 ==> #[trigger] s[k + 1 + i] == p.1[i]
}

/// Whether octets are the NLRI of just one FlowSpec rule: the path id, if
/// there is one, the length of the rule in one octet below 240 and else in
/// twelve bits behind four ones, and the rule.
#[verifier::opaque]
pub open spec fn spells_rule(s: Seq<u8>, rule: Seq<u8>, path_id: Option<u32>) -> bool {
    let k: int = if path_id is Some {
        4
    } else {
        0
    };
    &&& path_id matches Some(id) ==> s[0] * 16777216 + s[1] * 65536 + s[2] * 256 + s[3] == id
    &&& if rule.len() < 240 {
        s.len() == k + 1 + rule.len() && s[k] == rule.len() && s.skip(k + 1) == rule
    } else {
        s.len() == k + 2 + rule.len() && (s[k] - 240) * 256 + s[k + 1] == rule.len() && s[k] >= 240 && s.skip(k + 2)
            == rule
    }
}

/// The attributes of stored octets, of which two go before them, but for
/// MP_REACH_NLRI and MP_UNREACH_NLRI.
pub open spec fn other_attrs(raw: Seq<u8>) -> Seq<(u8, Seq<u8>)> {
    attr_list(
        if raw.len() < 2 {
            Seq::empty()
        } else {
            raw.skip(2)
        },
    ).filter(|a: (u8, Seq<u8>)| a.0 != 14 && a.0 != 15)
}

/// Whether an UPDATE holds nothing but attributes: the given ones, and then
/// one more of the given type. Gives the value of that one.
#[verifier::opaque]
pub open spec fn ends_in(u: Seq<u8>, others: Seq<(u8, Seq<u8>)>, code: u8) -> Option<Seq<u8>> {
    let list = attr_list(parts_of(u).attrs);
    if is_whole_update(u) && parts_of(u).withdrawn.len() == 0 && parts_of(u).nlri.len() == 0 && list.len()
        == others.len() + 1 && list.drop_last() == others && list.last().0 == code {
        Some(list.last().1)
    } else {
        None
    }
}

/// An UPDATE whose length two octets can tell is taken apart into what it was
/// made of.
pub proof fn an_update_is_taken_apart(withdrawn: Seq<u8>, attrs: Seq<u8>, nlri: Seq<u8>)
    requires
        23 + withdrawn.len() + attrs.len() + nlri.len() <= 65535,
    ensures
        is_whole_update(update_bytes(withdrawn, attrs, nlri)),
        parts_of(update_bytes(withdrawn, attrs, nlri)) == (UpdateParts { withdrawn, attrs, nlri }),
        update_bytes(withdrawn, attrs, nlri).len() == 23 + withdrawn.len() + attrs.len() + nlri.len(),
{
    reveal(parts_of);
    reveal(is_whole_update);
    let u = update_bytes(withdrawn, attrs, nlri);
    let (w, a) = (withdrawn.len() as int, attrs.len() as int);
    assert(u.len() == 23 + w + a + nlri.len());
    lemma_be16_read(u.len() as int);
    lemma_be16_read(w);
    lemma_be16_read(a);
    assert(u[16] == be16(u.len() as int)[0] && u[17] == be16(u.len() as int)[1]);
    assert(u[19] == be16(w)[0] && u[20] == be16(w)[1]);
    assert(u[21 + w] == be16(a)[0] && u[22 + w] == be16(a)[1]);
    assert(u.subrange(21, 21 + w) =~= withdrawn);
    assert(u.subrange(23 + w, 23 + w + a) =~= attrs);
    assert(u.skip(23 + w + a) =~= nlri);
}

/// Two octets tell a number below 65536.
proof fn lemma_be16_read(n: int)
    requires
        0 <= n < 65536,
    ensures
        be16(n)[0] * 256 + be16(n)[1] == n,
        be16(n).len() == 2,
{
    assert((n / 256) % 256 == n / 256);
    assert(n == 256 * (n / 256) + n % 256);
}

/// An attribute in front of others is read first: the flags tell whether its
/// length takes one octet or two, the type comes before the length and the
/// value after it.
pub proof fn an_attribute_is_read_by_its_length(flags: u8, code: u8, value: Seq<u8>, rest: Seq<u8>)
    ensures
        (flags / 16) % 2 == 0 && value.len() < 256 ==> attr_list(
            seq![flags, code, value.len() as u8] + value + rest,
        ) == seq![(code, value)] + attr_list(rest),
        (flags / 16) % 2 == 1 && value.len() < 65536 ==> attr_list(
            seq![flags, code, (value.len() / 256) as u8, (value.len() % 256) as u8] + value + rest,
        ) == seq![(code, value)] + attr_list(rest),
{
    assert((flags & 0x10 != 0) == ((flags / 16) % 2 == 1)) by (bit_vector);
    let n = value.len() as int;
    if (flags / 16) % 2 == 0 && value.len() < 256 {
        let s = seq![flags, code, value.len() as u8] + value + rest;
        assert(s[0] == flags && s[1] == code && s[2] == n as u8);
        assert(s.subrange(3, 3 + n) =~= value);
        assert(s.skip(3 + n) =~= rest);
        assert(attr_extent(s) == Some((3int, 3 + n)));
    }
    if (flags / 16) % 2 == 1 && value.len() < 65536 {
        let s = seq![flags, code, (value.len() / 256) as u8, (value.len() % 256) as u8] + value + rest;
        assert(s[0] == flags && s[1] == code);
        assert(s[2] == (n / 256) as u8 && s[3] == (n % 256) as u8);
        assert(s.subrange(4, 4 + n) =~= value);
        assert(s.skip(4 + n) =~= rest);
        assert(n == 256 * (n / 256) + n % 256);
        assert(attr_extent(s) == Some((4int, 4 + n)));
    }
}

/// Octets that no attribute can begin with hold none.
pub proof fn too_few_octets_hold_no_attribute(s: Seq<u8>)
    requires
        s.len() < 3,
    ensures
        attr_list(s) == Seq::<(u8, Seq<u8>)>::empty(),
{
}

/// An optional attribute by itself is read back.
proof fn lemma_optional_read(code: u8, value: Seq<u8>)
    requires
        value.len() < 65536,
    ensures
        attr_list(optional_attr_bytes(code, value)) == seq![(code, value)],
        attr_list(extended_attr_bytes(code, value)) == seq![(code, value)],
{
    let none = Seq::<u8>::empty();
    let n = value.len() as int;
    let one = optional_attr_bytes(code, value);
    let two = extended_attr_bytes(code, value);
    an_attribute_is_read_by_its_length(0x80, code, value, none);
    an_attribute_is_read_by_its_length(0x90, code, value, none);
    too_few_octets_hold_no_attribute(none);
    assert((0x80u8 / 16) % 2 == 0 && (0x90u8 / 16) % 2 == 1);
    assert((n / 256) % 256 == n / 256);
    assert(two =~= seq![0x90u8, code, (value.len() / 256) as u8, (value.len() % 256) as u8] + value + none);
    if n > 255 {
        assert(one =~= two);
    } else {
        assert(one =~= seq![0x80u8, code, value.len() as u8] + value + none);
    }
    assert(seq![(code, value)] + attr_list(none) =~= seq![(code, value)]);
}

/// Filtered attributes are all read, and what follows them after them.
proof fn lemma_kept_read(s: Seq<u8>, rest: Seq<u8>)
    ensures
        attr_list(kept_attrs(s) + rest) == attr_list(s).filter(|a: (u8, Seq<u8>)| a.0 != 14 && a.0 != 15) + attr_list(
            rest,
        ),
    decreases s.len(),
{
    let keep = |a: (u8, Seq<u8>)| a.0 != 14 && a.0 != 15;
    match attr_extent(s) {
        None => {
            reveal(Seq::filter);
            assert(attr_list(s).filter(keep) =~= Seq::empty());
            assert(kept_attrs(s) + rest =~= rest);
            assert(attr_list(s).filter(keep) + attr_list(rest) =~= attr_list(rest));
        },
        Some((header, total)) => {
            let tail = s.skip(total);
            let one = (s[1], s.subrange(header, total));
            lemma_kept_read(tail, rest);
            Seq::filter_distributes_over_add(seq![one], attr_list(tail), keep);
            assert(seq![one].filter(keep) =~= (if keep(one) {
                seq![one]
            } else {
                Seq::empty()
            })) by {
                reveal(Seq::filter);
                assert(seq![one].drop_last() =~= Seq::empty());
                assert(Seq::<(u8, Seq<u8>)>::empty().filter(keep) =~= Seq::empty());
            }
            if s[1] == 14 || s[1] == 15 {
                assert(kept_attrs(s) =~= kept_attrs(tail));
                assert(attr_list(s).filter(keep) =~= attr_list(tail).filter(keep));
            } else {
                let more = kept_attrs(tail) + rest;
                lemma_attr_extent_prefix(s, total, more);
                assert(kept_attrs(s) + rest =~= s.take(total) + more);
                let x = s.take(total) + more;
                assert(x.subrange(header, total) == s.subrange(header, total));
                assert(attr_list(x) == seq![one] + attr_list(more));
                assert(attr_list(s).filter(keep) + attr_list(rest) =~= seq![one] + attr_list(more));
            }
        },
    }
}

/// The next hop of stored attributes is that of the last MP_REACH_NLRI that
/// has all of one: as many octets from the fifth on as the fourth tells.
pub proof fn the_last_next_hop_counts(s: Seq<u8>, i: int)
    requires
        0 <= i < attr_list(s).len(),
        attr_list(s)[i].0 == 14,
        attr_list(s)[i].1.len() >= 4,
        attr_list(s)[i].1.len() >= 4 + attr_list(s)[i].1[3],
        forall|j: int|
            i < j < attr_list(s).len() && (#[trigger] attr_list(s)[j]).0 == 14 ==> attr_list(s)[j].1.len() < 4 || attr_list(
                s,
            )[j].1.len() < 4 + attr_list(s)[j].1[3],
    ensures
        reach_next_hop(s) == Some(attr_list(s)[i].1.subrange(4, 4 + attr_list(s)[i].1[3])),
    decreases s.len(),
{
    match attr_extent(s) {
        None => {},
        Some((header, total)) => {
            let tail = s.skip(total);
            let list = attr_list(s);
            assert(list =~= seq![(s[1], s.subrange(header, total))] + attr_list(tail));
            assert forall|k: int| 0 <= k < attr_list(tail).len() implies attr_list(tail)[k] == #[trigger] list[k + 1] by {}
            if i > 0 {
                assert(attr_list(tail)[i - 1] == list[i]);
                assert forall|j: int|
                    i - 1 < j < attr_list(tail).len() && (#[trigger] attr_list(tail)[j]).0 == 14 implies attr_list(
                    tail,
                )[j].1.len() < 4 || attr_list(tail)[j].1.len() < 4 + attr_list(tail)[j].1[3] by {
                    assert(list[j + 1] == attr_list(tail)[j]);
                }
                the_last_next_hop_counts(tail, i - 1);
            } else {
                assert forall|j: int| 0 <= j < attr_list(tail).len() && (#[trigger] attr_list(tail)[j]).0 == 14 implies attr_list(
                    tail,
                )[j].1.len() < 4 || attr_list(tail)[j].1.len() < 4 + attr_list(tail)[j].1[3] by {
                    assert(list[j + 1] == attr_list(tail)[j]);
                }
                no_next_hop_is_made_up(tail);
            }
        },
    }
}

/// Stored attributes without an MP_REACH_NLRI that has all of a next hop have
/// none.
pub proof fn no_next_hop_is_made_up(s: Seq<u8>)
    requires
        forall|j: int|
            0 <= j < attr_list(s).len() && (#[trigger] attr_list(s)[j]).0 == 14 ==> attr_list(s)[j].1.len() < 4 || attr_list(
                s,
            )[j].1.len() < 4 + attr_list(s)[j].1[3],
    ensures
        reach_next_hop(s) is None,
    decreases s.len(),
{
    match attr_extent(s) {
        None => {},
        Some((header, total)) => {
            let tail = s.skip(total);
            let list = attr_list(s);
            assert(list =~= seq![(s[1], s.subrange(header, total))] + attr_list(tail));
            assert(list[0] == (s[1], s.subrange(header, total)));
            assert forall|j: int| 0 <= j < attr_list(tail).len() && (#[trigger] attr_list(tail)[j]).0 == 14 implies attr_list(
                tail,
            )[j].1.len() < 4 || attr_list(tail)[j].1.len() < 4 + attr_list(tail)[j].1[3] by {
                assert(list[j + 1] == attr_list(tail)[j]);
            }
            no_next_hop_is_made_up(tail);
        },
    }
}

/// A prefix as NLRI is read back.
proof fn lemma_nlri_read(p: PrefixKey, path_id: Option<u32>)
    requires
        valid_key(p),
    ensures
        spells_prefix(nlri_bytes(p, path_id), p, path_id),
        nlri_bytes(p, path_id).len() <= 21,
{
    reveal(spells_prefix);
    let s = nlri_bytes(p, path_id);
    let head = path_id_bytes(path_id);
    match path_id {
        Some(id) => {
            lemma_be32_roundtrip(id as int);
            assert(s[0] == head[0] && s[1] == head[1] && s[2] == head[2] && s[3] == head[3]);
        },
        None => {},
    }
    assert forall|i: int| 0 <= i < (p.2 + 7) / 8 implies #[trigger] s[head.len() + 1 + i] == p.1[i] by {
        assert(p.1.take(prefix_octets(p.2 as int))[i] == p.1[i]);
    }
}

/// An UPDATE of other attributes and one more is taken apart.
proof fn lemma_ends_in(others: Seq<u8>, list: Seq<(u8, Seq<u8>)>, last: Seq<u8>, code: u8, value: Seq<u8>)
    requires
        23 + others.len() + last.len() <= 65535,
        attr_list(others + last) == list + seq![(code, value)],
    ensures
        ends_in(update_bytes(Seq::empty(), others + last, Seq::empty()), list, code) == Some(value),
        parts_of(update_bytes(Seq::empty(), others + last, Seq::empty())).attrs == others + last,
        attr_list(parts_of(update_bytes(Seq::empty(), others + last, Seq::empty())).attrs) == list + seq![(code, value)],
{
    reveal(ends_in);
    let attrs = others + last;
    an_update_is_taken_apart(Seq::empty(), attrs, Seq::empty());
    let u = update_bytes(Seq::empty(), attrs, Seq::empty());
    assert(attr_list(parts_of(u).attrs).drop_last() =~= list);
}

/// An UPDATE with nothing but attributes.
#[verifier::opaque]
spec fn attrs_update(attrs: Seq<u8>) -> Seq<u8> {
    update_bytes(Seq::empty(), attrs, Seq::empty())
}

/// An attribute that has the extended-length form where it needs it.
#[verifier::opaque]
spec fn short_attr(code: u8, v: Seq<u8>) -> Seq<u8> {
    optional_attr_bytes(code, v)
}

/// An attribute in extended-length form.
#[verifier::opaque]
spec fn long_attr(code: u8, v: Seq<u8>) -> Seq<u8> {
    extended_attr_bytes(code, v)
}

/// The value of an attribute that announces something.
#[verifier::opaque]
spec fn reach_value(afi: u8, safi: u8, nh: Seq<u8>, nlri: Seq<u8>) -> Seq<u8> {
    seq![0u8, afi, safi, nh.len() as u8] + nh + seq![0u8] + nlri
}

/// The value of an attribute that withdraws something.
#[verifier::opaque]
spec fn unreach_value(afi: u8, safi: u8, nlri: Seq<u8>) -> Seq<u8> {
    seq![0u8, afi, safi] + nlri
}

proof fn lemma_attrs_update_len(attrs: Seq<u8>)
    ensures
        attrs_update(attrs).len() == 23 + attrs.len(),
{
    reveal(attrs_update);
}

/// The attributes of a route and one more that names it are taken apart.
proof fn lemma_announced(raw: Seq<u8>, last: Seq<u8>, v: Seq<u8>, u: Seq<u8>)
    requires
        u == attrs_update(kept_attrs(attr_blob(raw)) + last),
        u.len() <= 65535,
        last == short_attr(14, v) || last == long_attr(14, v),
        v.len() < 65536,
    ensures
        ends_in(u, other_attrs(raw), 14) == Some(v),
        v.len() >= 4 && v.len() >= 4 + v[3] ==> reach_next_hop(parts_of(u).attrs) == Some(v.subrange(4, 4 + v[3])),
{
    reveal(attrs_update);
    reveal(short_attr);
    reveal(long_attr);
    let kept = kept_attrs(attr_blob(raw));
    lemma_attrs_update_len(kept + last);
    lemma_optional_read(14, v);
    lemma_kept_read(attr_blob(raw), last);
    lemma_ends_in(kept, other_attrs(raw), last, 14, v);
    let list = attr_list(parts_of(u).attrs);
    assert(list[list.len() - 1] == (14u8, v));
    if v.len() >= 4 && v.len() >= 4 + v[3] {
        the_last_next_hop_counts(parts_of(u).attrs, list.len() - 1);
    }
}

/// One attribute that names what is withdrawn is taken apart.
proof fn lemma_withdrawn(last: Seq<u8>, v: Seq<u8>)
    requires
        last == short_attr(15, v) || last == long_attr(15, v),
        v.len() < 65000,
    ensures
        ends_in(attrs_update(last), Seq::empty(), 15) == Some(v),
        attrs_update(last).len() <= 65535,
{
    reveal(attrs_update);
    reveal(short_attr);
    reveal(long_attr);
    lemma_optional_read(15, v);
    let none = Seq::<u8>::empty();
    assert(none + last =~= last);
    assert(Seq::<(u8, Seq<u8>)>::empty() + seq![(15u8, v)] =~= seq![(15u8, v)]);
    lemma_attrs_update_len(last);
    lemma_ends_in(none, Seq::empty(), last, 15, v);
}

/// The parts of a value that announces something.
proof fn lemma_reach_value(afi: u8, safi: u8, nh: Seq<u8>, nlri: Seq<u8>)
    requires
        nh.len() <= 255,
    ensures
        ({
            let n = nh.len() as int;
            let v = reach_value(afi, safi, nh, nlri);
            &&& v.len() == 5 + n + nlri.len()
            &&& v[0] == 0 && v[1] == afi && v[2] == safi && v[3] == n && v[4 + n] == 0
            &&& v.skip(5 + n) == nlri
            &&& v.subrange(4, 4 + n) == nh
        }),
{
    reveal(reach_value);
    let n = nh.len() as int;
    let v = reach_value(afi, safi, nh, nlri);
    assert(v.skip(5 + n) =~= nlri);
    assert(v.subrange(4, 4 + n) =~= nh);
}

/// The parts of a value that withdraws something.
proof fn lemma_unreach_value(afi: u8, safi: u8, nlri: Seq<u8>)
    ensures
        ({
            let v = unreach_value(afi, safi, nlri);
            &&& v.len() == 3 + nlri.len()
            &&& v[0] == 0 && v[1] == afi && v[2] == safi
            &&& v.skip(3) == nlri
        }),
{
    reveal(unreach_value);
    let v = unreach_value(afi, safi, nlri);
    assert(v.skip(3) =~= nlri);
}

/// The next hop that an announced IPv6 prefix gets.
spec fn next_hop_or_zeros(raw: Seq<u8>) -> Seq<u8> {
    match reach_next_hop(attr_blob(raw)) {
        Some(b) => b,
        None => zeros(16),
    }
}

proof fn lemma_ipv6_update(p: PrefixKey, raw: Seq<u8>, path_id: Option<u32>, u: Seq<u8>)
    requires
        !p.0,
        prefix_update(p, raw, false, path_id) == Some(u),
    ensures
        next_hop_or_zeros(raw).len() <= 255,
        u == attrs_update(
            kept_attrs(attr_blob(raw)) + short_attr(14, reach_value(2, 1, next_hop_or_zeros(raw), nlri_bytes(p, path_id))),
        ),
        u.len() <= 65535,
{
    reveal(attrs_update);
    reveal(short_attr);
    reveal(reach_value);
    lemma_next_hop_fits_an_octet(attr_blob(raw));
    let nh = next_hop_or_zeros(raw);
    assert(nh.len() % 256 == nh.len());
    assert(be16(2) + seq![1u8, (nh.len() % 256) as u8] + nh + seq![0u8] + nlri_bytes(p, path_id) =~= reach_value(
        2,
        1,
        nh,
        nlri_bytes(p, path_id),
    ));
}

proof fn lemma_ipv6_withdrawal(p: PrefixKey, path_id: Option<u32>)
    requires
        !p.0,
    ensures
        prefix_update(p, Seq::empty(), true, path_id) == Some(
            attrs_update(short_attr(15, unreach_value(2, 1, nlri_bytes(p, path_id)))),
        ),
{
    reveal(attrs_update);
    reveal(short_attr);
    reveal(unreach_value);
    assert(be16(2) + seq![1u8] + nlri_bytes(p, path_id) =~= unreach_value(2, 1, nlri_bytes(p, path_id)));
}

proof fn lemma_rule_update(is_v4: bool, rule: Seq<u8>, raw: Seq<u8>, path_id: Option<u32>, u: Seq<u8>)
    requires
        rule.len() <= 4095,
        flowspec_update(is_v4, rule, raw, false, path_id) == Some(u),
    ensures
        u == attrs_update(
            kept_attrs(attr_blob(raw)) + short_attr(
                14,
                reach_value(
                    if is_v4 {
                        1
                    } else {
                        2
                    },
                    133,
                    Seq::empty(),
                    flowspec_nlri_bytes(rule, path_id),
                ),
            ),
        ),
        u.len() <= 65535,
{
    reveal(attrs_update);
    reveal(short_attr);
    reveal(reach_value);
    let afi: u8 = if is_v4 {
        1
    } else {
        2
    };
    let v = reach_value(afi, 133, Seq::empty(), flowspec_nlri_bytes(rule, path_id));
    assert(flowspec_attr_bytes(is_v4, rule, false, path_id) =~= optional_attr_bytes(14, v));
}

proof fn lemma_rule_withdrawal(is_v4: bool, rule: Seq<u8>, raw: Seq<u8>, path_id: Option<u32>)
    requires
        rule.len() <= 4095,
    ensures
        flowspec_update(is_v4, rule, raw, true, path_id) == Some(
            attrs_update(
                short_attr(
                    15,
                    unreach_value(
                        if is_v4 {
                            1
                        } else {
                            2
                        },
                        133,
                        flowspec_nlri_bytes(rule, path_id),
                    ),
                ),
            ),
        ),
{
    let afi: u8 = if is_v4 {
        1
    } else {
        2
    };
    let last = flowspec_attr_bytes(is_v4, rule, true, path_id);
    let v = unreach_value(afi, 133, flowspec_nlri_bytes(rule, path_id));
    assert(last =~= optional_attr_bytes(15, v)) by {
        reveal(unreach_value);
    }
    assert(Seq::<u8>::empty() + last =~= last);
    lemma_attrs_update_len(last);
    reveal(attrs_update);
    reveal(short_attr);
}

proof fn lemma_evpn_update(nlri: Seq<u8>, raw: Seq<u8>, path_id: Option<u32>, nh: Seq<u8>, u: Seq<u8>)
    requires
        reach_next_hop(attr_blob(raw)) == Some(nh),
        evpn_update(nlri, raw, false, path_id) == Some(u),
    ensures
        nh.len() <= 255,
        u == attrs_update(
            kept_attrs(attr_blob(raw)) + long_attr(14, reach_value(25, 70, nh, path_id_bytes(path_id) + nlri)),
        ),
        u.len() <= 65535,
        reach_value(25, 70, nh, path_id_bytes(path_id) + nlri).len() < 65536,
{
    reveal(attrs_update);
    reveal(long_attr);
    reveal(reach_value);
    lemma_next_hop_fits_an_octet(attr_blob(raw));
    let v = evpn_value(nlri, nh, false, path_id);
    assert(v =~= reach_value(25, 70, nh, path_id_bytes(path_id) + nlri));
    lemma_attrs_update_len(kept_attrs(attr_blob(raw)) + extended_attr_bytes(14, v));
}

proof fn lemma_evpn_withdrawal(nlri: Seq<u8>, raw: Seq<u8>, path_id: Option<u32>)
    requires
        nlri.len() <= 257,
    ensures
        evpn_update(nlri, raw, true, path_id) == Some(
            attrs_update(long_attr(15, unreach_value(25, 70, path_id_bytes(path_id) + nlri))),
        ),
{
    let v = evpn_value(nlri, Seq::empty(), true, path_id);
    assert(v =~= unreach_value(25, 70, path_id_bytes(path_id) + nlri)) by {
        reveal(unreach_value);
    }
    lemma_attrs_update_len(extended_attr_bytes(15, v));
    reveal(attrs_update);
    reveal(long_attr);
}

/// An announced IPv4 prefix is read back: the UPDATE holds the attributes of
/// the route but for those of other families, and just that prefix as NLRI.
pub proof fn an_announced_ipv4_prefix_is_read_back(
    route: RotondaRoute,
    p: PrefixKey,
    raw: Seq<u8>,
    path_id: Option<u32>,
    u: Seq<u8>,
)
    requires
        route.wf(),
        route matches RotondaRoute::Ipv4Unicast(q, a) ==> q@ == p && a@ == raw,
        route matches RotondaRoute::Ipv4Multicast(q, a) ==> q@ == p && a@ == raw,
        route is Ipv4Unicast || route is Ipv4Multicast,
        route_update(route, false, path_id) == Some(u),
    ensures
        is_whole_update(u),
        parts_of(u).withdrawn.len() == 0,
        attr_list(parts_of(u).attrs) == other_attrs(raw),
        spells_prefix(parts_of(u).nlri, p, path_id),
{
    let attrs = kept_attrs(attr_blob(raw));
    lemma_nlri_read(p, path_id);
    assert(u.len() == 23 + attrs.len() + nlri_bytes(p, path_id).len());
    an_update_is_taken_apart(Seq::empty(), attrs, nlri_bytes(p, path_id));
    lemma_kept_read(attr_blob(raw), Seq::empty());
    too_few_octets_hold_no_attribute(Seq::empty());
    assert(attrs + Seq::<u8>::empty() =~= attrs);
    assert(other_attrs(raw) + Seq::<(u8, Seq<u8>)>::empty() =~= other_attrs(raw));
}

/// An announced IPv6 prefix is read back: the UPDATE holds the attributes of
/// the route but for those that name routes, and then an MP_REACH_NLRI for
/// IPv6 unicast with the next hop that came with the route, or sixteen zeros
/// where none did, and just that prefix as NLRI.
pub proof fn an_announced_ipv6_prefix_is_read_back(
    route: RotondaRoute,
    p: PrefixKey,
    raw: Seq<u8>,
    path_id: Option<u32>,
    u: Seq<u8>,
)
    requires
        route.wf(),
        route matches RotondaRoute::Ipv6Unicast(q, a) ==> q@ == p && a@ == raw,
        route matches RotondaRoute::Ipv6Multicast(q, a) ==> q@ == p && a@ == raw,
        route is Ipv6Unicast || route is Ipv6Multicast,
        route_update(route, false, path_id) == Some(u),
    ensures
        ends_in(u, other_attrs(raw), 14) matches Some(v) && {
            let n = v[3] as int;
            &&& v.len() >= 5 + n
            &&& v[0] == 0 && v[1] == 2 && v[2] == 1 && v[4 + n] == 0
            &&& spells_prefix(v.skip(5 + n), p, path_id)
            &&& reach_next_hop(attr_blob(raw)) matches Some(nh) ==> v.subrange(4, 4 + n) == nh
            &&& reach_next_hop(attr_blob(raw)) is None ==> v.subrange(4, 4 + n) == zeros(16)
        },
        reach_next_hop(attr_blob(raw)) is Some ==> reach_next_hop(parts_of(u).attrs) == reach_next_hop(attr_blob(raw)),
{
    let nh = next_hop_or_zeros(raw);
    let nlri = nlri_bytes(p, path_id);
    lemma_ipv6_update(p, raw, path_id, u);
    lemma_nlri_read(p, path_id);
    lemma_reach_value(2, 1, nh, nlri);
    let v = reach_value(2, 1, nh, nlri);
    lemma_announced(raw, short_attr(14, v), v, u);
}

/// A withdrawn IPv4 prefix is read back: the UPDATE holds just that prefix
/// among the withdrawn routes, and nothing else.
pub proof fn a_withdrawn_ipv4_prefix_is_read_back(
    route: RotondaRoute,
    p: PrefixKey,
    path_id: Option<u32>,
)
    requires
        route.wf(),
        route matches RotondaRoute::Ipv4Unicast(q, _) ==> q@ == p,
        route matches RotondaRoute::Ipv4Multicast(q, _) ==> q@ == p,
        route is Ipv4Unicast || route is Ipv4Multicast,
    ensures
        route_update(route, true, path_id) matches Some(u) && {
            &&& is_whole_update(u)
            &&& spells_prefix(parts_of(u).withdrawn, p, path_id)
            &&& parts_of(u).attrs.len() == 0
            &&& parts_of(u).nlri.len() == 0
        },
{
    lemma_nlri_read(p, path_id);
    an_update_is_taken_apart(nlri_bytes(p, path_id), Seq::empty(), Seq::empty());
}

/// A withdrawn IPv6 prefix is read back: the UPDATE holds just an
/// MP_UNREACH_NLRI for IPv6 unicast with that prefix.
pub proof fn a_withdrawn_ipv6_prefix_is_read_back(
    route: RotondaRoute,
    p: PrefixKey,
    path_id: Option<u32>,
)
    requires
        route.wf(),
        route matches RotondaRoute::Ipv6Unicast(q, _) ==> q@ == p,
        route matches RotondaRoute::Ipv6Multicast(q, _) ==> q@ == p,
        route is Ipv6Unicast || route is Ipv6Multicast,
    ensures
        route_update(route, true, path_id) matches Some(u) && (ends_in(u, Seq::empty(), 15) matches Some(v) && {
            &&& v.len() >= 3
            &&& v[0] == 0 && v[1] == 2 && v[2] == 1
            &&& spells_prefix(v.skip(3), p, path_id)
        }),
{
    let nlri = nlri_bytes(p, path_id);
    lemma_ipv6_withdrawal(p, path_id);
    lemma_nlri_read(p, path_id);
    lemma_unreach_value(2, 1, nlri);
    let v = unreach_value(2, 1, nlri);
    lemma_withdrawn(short_attr(15, v), v);
}

/// A FlowSpec rule as NLRI is read back.
proof fn lemma_rule_read(rule: Seq<u8>, path_id: Option<u32>)
    requires
        rule.len() <= 4095,
    ensures
        spells_rule(flowspec_nlri_bytes(rule, path_id), rule, path_id),
        flowspec_nlri_bytes(rule, path_id).len() <= 4 + 2 + rule.len(),
{
    reveal(spells_rule);
    let s = flowspec_nlri_bytes(rule, path_id);
    let head = path_id_bytes(path_id);
    let k = head.len() as int;
    let n = rule.len() as int;
    match path_id {
        Some(id) => {
            lemma_be32_roundtrip(id as int);
            assert(s[0] == head[0] && s[1] == head[1] && s[2] == head[2] && s[3] == head[3]);
        },
        None => {},
    }
    assert(rule.take(n) =~= rule);
    if n < 240 {
        assert(s.skip(k + 1) =~= rule);
    } else {
        lemma_be16_read(0xf000 + n);
        let h = be16(0xf000 + n);
        assert(s[k] == h[0] && s[k + 1] == h[1]);
        assert((0xf000 + n) / 256 == 240 + n / 256);
        assert(h[0] == 240 + n / 256) by {
            assert((240 + n / 256) % 256 == 240 + n / 256);
        }
        assert(s.skip(k + 2) =~= rule);
    }
}

/// An announced FlowSpec rule is read back: the UPDATE holds the attributes of
/// the route but for those that name routes, and then an MP_REACH_NLRI for the
/// FlowSpec family of the route, without a next hop, with just that rule.
pub proof fn an_announced_rule_is_read_back(
    route: RotondaRoute,
    rule: Seq<u8>,
    raw: Seq<u8>,
    path_id: Option<u32>,
    u: Seq<u8>,
)
    requires
        route matches RotondaRoute::Ipv4FlowSpec(q, a) ==> q@ == rule && a@ == raw,
        route matches RotondaRoute::Ipv6FlowSpec(q, a) ==> q@ == rule && a@ == raw,
        route is Ipv4FlowSpec || route is Ipv6FlowSpec,
        rule.len() <= 4095,
        route_update(route, false, path_id) == Some(u),
    ensures
        ends_in(u, other_attrs(raw), 14) matches Some(v) && {
            &&& v.len() >= 5
            &&& v[0] == 0 && v[2] == 133 && v[3] == 0 && v[4] == 0
            &&& route is Ipv4FlowSpec ==> v[1] == 1
            &&& route is Ipv6FlowSpec ==> v[1] == 2
            &&& spells_rule(v.skip(5), rule, path_id)
        },
{
    let is_v4 = route is Ipv4FlowSpec;
    let nlri = flowspec_nlri_bytes(rule, path_id);
    let afi: u8 = if is_v4 {
        1
    } else {
        2
    };
    lemma_rule_update(is_v4, rule, raw, path_id, u);
    lemma_rule_read(rule, path_id);
    lemma_reach_value(afi, 133, Seq::empty(), nlri);
    let v = reach_value(afi, 133, Seq::empty(), nlri);
    lemma_announced(raw, short_attr(14, v), v, u);
}

/// A withdrawn FlowSpec rule is read back: the UPDATE holds just an
/// MP_UNREACH_NLRI for the FlowSpec family of the route with that rule.
pub proof fn a_withdrawn_rule_is_read_back(route: RotondaRoute, rule: Seq<u8>, path_id: Option<u32>)
    requires
        route matches RotondaRoute::Ipv4FlowSpec(q, _) ==> q@ == rule,
        route matches RotondaRoute::Ipv6FlowSpec(q, _) ==> q@ == rule,
        route is Ipv4FlowSpec || route is Ipv6FlowSpec,
        rule.len() <= 4095,
    ensures
        route_update(route, true, path_id) matches Some(u) && (ends_in(u, Seq::empty(), 15) matches Some(v) && {
            &&& v.len() >= 3
            &&& v[0] == 0 && v[2] == 133
            &&& route is Ipv4FlowSpec ==> v[1] == 1
            &&& route is Ipv6FlowSpec ==> v[1] == 2
            &&& spells_rule(v.skip(3), rule, path_id)
        }),
{
    let is_v4 = route is Ipv4FlowSpec;
    let nlri = flowspec_nlri_bytes(rule, path_id);
    let afi: u8 = if is_v4 {
        1
    } else {
        2
    };
    lemma_rule_withdrawal(is_v4, rule, route.attrs(), path_id);
    lemma_rule_read(rule, path_id);
    lemma_unreach_value(afi, 133, nlri);
    let v = unreach_value(afi, 133, nlri);
    lemma_withdrawn(short_attr(15, v), v);
}

/// Whether octets are the NLRI of just one EVPN route: the path id, if there
/// is one, and the route.
#[verifier::opaque]
pub open spec fn spells_evpn(s: Seq<u8>, nlri: Seq<u8>, path_id: Option<u32>) -> bool {
    match path_id {
        Some(id) => {
            &&& s.len() == 4 + nlri.len()
            &&& s[0] * 16777216 + s[1] * 65536 + s[2] * 256 + s[3] == id
            &&& s.skip(4) == nlri
        },
        None => s == nlri,
    }
}

/// An EVPN route as NLRI is read back.
proof fn lemma_evpn_read(nlri: Seq<u8>, path_id: Option<u32>)
    ensures
        spells_evpn(path_id_bytes(path_id) + nlri, nlri, path_id),
{
    reveal(spells_evpn);
    let s = path_id_bytes(path_id) + nlri;
    match path_id {
        Some(id) => {
            let head = be32(id as int);
            lemma_be32_roundtrip(id as int);
            assert(s[0] == head[0] && s[1] == head[1] && s[2] == head[2] && s[3] == head[3]);
            assert(s.skip(4) =~= nlri);
        },
        None => {
            assert(s =~= nlri);
        },
    }
}

/// An announced EVPN route is read back: the UPDATE holds the attributes of
/// the route but for those that name routes, and then an MP_REACH_NLRI for
/// EVPN with the next hop that came with the route, and just that route. One
/// that came without a next hop is not announced.
pub proof fn an_announced_evpn_route_is_read_back(
    route: RotondaRoute,
    nlri: Seq<u8>,
    raw: Seq<u8>,
    path_id: Option<u32>,
)
    requires
        route matches RotondaRoute::L2VpnEvpn(n, a) && n.raw@ == nlri && a@ == raw,
    ensures
        reach_next_hop(attr_blob(raw)) is None ==> route_update(route, false, path_id) is None,
        route_update(route, false, path_id) matches Some(u) ==> {
            &&& ends_in(u, other_attrs(raw), 14) matches Some(v) && {
                let n = v[3] as int;
                &&& v.len() >= 5 + n
                &&& v[0] == 0 && v[1] == 25 && v[2] == 70 && v[4 + n] == 0
                &&& Some(v.subrange(4, 4 + n)) == reach_next_hop(attr_blob(raw))
                &&& spells_evpn(v.skip(5 + n), nlri, path_id)
            }
            &&& reach_next_hop(parts_of(u).attrs) == reach_next_hop(attr_blob(raw))
        },
{
    match (reach_next_hop(attr_blob(raw)), route_update(route, false, path_id)) {
        (Some(nh), Some(u)) => {
            lemma_evpn_read(nlri, path_id);
            lemma_evpn_update(nlri, raw, path_id, nh, u);
            let tail = path_id_bytes(path_id) + nlri;
            lemma_reach_value(25, 70, nh, tail);
            let v = reach_value(25, 70, nh, tail);
            lemma_announced(raw, long_attr(14, v), v, u);
        },
        _ => {},
    }
}

proof fn lemma_evpn_withdrawn(nlri: Seq<u8>, path_id: Option<u32>, u: Seq<u8>)
    requires
        nlri.len() <= 257,
        u == attrs_update(long_attr(15, unreach_value(25, 70, path_id_bytes(path_id) + nlri))),
    ensures
        ends_in(u, Seq::empty(), 15) matches Some(v) && {
            &&& v.len() >= 3
            &&& v[0] == 0 && v[1] == 25 && v[2] == 70
            &&& spells_evpn(v.skip(3), nlri, path_id)
        },
{
    let tail = path_id_bytes(path_id) + nlri;
    lemma_evpn_read(nlri, path_id);
    lemma_unreach_value(25, 70, tail);
    let v = unreach_value(25, 70, tail);
    lemma_withdrawn(long_attr(15, v), v);
}

/// A withdrawn EVPN route is read back: the UPDATE holds just an
/// MP_UNREACH_NLRI for EVPN with that route.
pub proof fn a_withdrawn_evpn_route_is_read_back(route: RotondaRoute, nlri: Seq<u8>, path_id: Option<u32>)
    requires
        route matches RotondaRoute::L2VpnEvpn(n, _) && n.raw@ == nlri,
        nlri.len() <= 257,
    ensures
        route_update(route, true, path_id) matches Some(u) && (ends_in(u, Seq::empty(), 15) matches Some(v) && {
            &&& v.len() >= 3
            &&& v[0] == 0 && v[1] == 25 && v[2] == 70
            &&& spells_evpn(v.skip(3), nlri, path_id)
        }),
{
    lemma_evpn_withdrawal(nlri, route.attrs(), path_id);
    let u = attrs_update(long_attr(15, unreach_value(25, 70, path_id_bytes(path_id) + nlri)));
    lemma_evpn_withdrawn(nlri, path_id, u);
    assert(route_update(route, true, path_id) == evpn_update(nlri, route.attrs(), true, path_id));
}

/// Whether an UPDATE announces just a route, as a receiver reads it: with its
/// attributes, its next hop where its family has one, and its path id.
#[verifier::opaque]
pub open spec fn is_announcement(u: Seq<u8>, route: RotondaRoute, path_id: Option<u32>) -> bool {
    match route {
        RotondaRoute::Ipv4Unicast(p, a) => announces_ipv4(u, p@, a@, path_id),
        RotondaRoute::Ipv4Multicast(p, a) => announces_ipv4(u, p@, a@, path_id),
        RotondaRoute::Ipv6Unicast(p, a) => announces_ipv6(u, p@, a@, path_id),
        RotondaRoute::Ipv6Multicast(p, a) => announces_ipv6(u, p@, a@, path_id),
        RotondaRoute::Ipv4FlowSpec(n, a) => announces_rule(u, 1, n@, a@, path_id),
        RotondaRoute::Ipv6FlowSpec(n, a) => announces_rule(u, 2, n@, a@, path_id),
        RotondaRoute::L2VpnEvpn(n, a) => announces_evpn(u, n.raw@, a@, path_id),
    }
}

pub open spec fn announces_ipv4(u: Seq<u8>, p: PrefixKey, raw: Seq<u8>, path_id: Option<u32>) -> bool {
    &&& is_whole_update(u)
    &&& parts_of(u).withdrawn.len() == 0
    &&& attr_list(parts_of(u).attrs) == other_attrs(raw)
    &&& spells_prefix(parts_of(u).nlri, p, path_id)
}

pub open spec fn announces_ipv6(u: Seq<u8>, p: PrefixKey, raw: Seq<u8>, path_id: Option<u32>) -> bool {
    ends_in(u, other_attrs(raw), 14) matches Some(v) && {
        let n = v[3] as int;
        &&& v.len() >= 5 + n
        &&& v[0] == 0 && v[1] == 2 && v[2] == 1 && v[4 + n] == 0
        &&& spells_prefix(v.skip(5 + n), p, path_id)
        &&& reach_next_hop(attr_blob(raw)) matches Some(nh) ==> v.subrange(4, 4 + n) == nh
        &&& reach_next_hop(attr_blob(raw)) is None ==> v.subrange(4, 4 + n) == zeros(16)
    }
}

pub open spec fn announces_rule(u: Seq<u8>, afi: u8, rule: Seq<u8>, raw: Seq<u8>, path_id: Option<u32>) -> bool {
    ends_in(u, other_attrs(raw), 14) matches Some(v) && {
        &&& v.len() >= 5
        &&& v[0] == 0 && v[1] == afi && v[2] == 133 && v[3] == 0 && v[4] == 0
        &&& spells_rule(v.skip(5), rule, path_id)
    }
}

pub open spec fn announces_evpn(u: Seq<u8>, nlri: Seq<u8>, raw: Seq<u8>, path_id: Option<u32>) -> bool {
    ends_in(u, other_attrs(raw), 14) matches Some(v) && {
        let n = v[3] as int;
        &&& v.len() >= 5 + n
        &&& v[0] == 0 && v[1] == 25 && v[2] == 70 && v[4 + n] == 0
        &&& Some(v.subrange(4, 4 + n)) == reach_next_hop(attr_blob(raw))
        &&& spells_evpn(v.skip(5 + n), nlri, path_id)
    }
}

/// Whether an UPDATE withdraws just a route, as a receiver reads it.
#[verifier::opaque]
pub open spec fn is_withdrawal_of(u: Seq<u8>, route: RotondaRoute, path_id: Option<u32>) -> bool {
    match route {
        RotondaRoute::Ipv4Unicast(p, _) => withdraws_ipv4(u, p@, path_id),
        RotondaRoute::Ipv4Multicast(p, _) => withdraws_ipv4(u, p@, path_id),
        RotondaRoute::Ipv6Unicast(p, _) => withdraws_ipv6(u, p@, path_id),
        RotondaRoute::Ipv6Multicast(p, _) => withdraws_ipv6(u, p@, path_id),
        RotondaRoute::Ipv4FlowSpec(n, _) => withdraws_rule(u, 1, n@, path_id),
        RotondaRoute::Ipv6FlowSpec(n, _) => withdraws_rule(u, 2, n@, path_id),
        RotondaRoute::L2VpnEvpn(n, _) => withdraws_evpn(u, n.raw@, path_id),
    }
}

pub open spec fn withdraws_ipv4(u: Seq<u8>, p: PrefixKey, path_id: Option<u32>) -> bool {
    &&& is_whole_update(u)
    &&& spells_prefix(parts_of(u).withdrawn, p, path_id)
    &&& parts_of(u).attrs.len() == 0
    &&& parts_of(u).nlri.len() == 0
}

pub open spec fn withdraws_ipv6(u: Seq<u8>, p: PrefixKey, path_id: Option<u32>) -> bool {
    ends_in(u, Seq::empty(), 15) matches Some(v) && {
        &&& v.len() >= 3
        &&& v[0] == 0 && v[1] == 2 && v[2] == 1
        &&& spells_prefix(v.skip(3), p, path_id)
    }
}

pub open spec fn withdraws_rule(u: Seq<u8>, afi: u8, rule: Seq<u8>, path_id: Option<u32>) -> bool {
    ends_in(u, Seq::empty(), 15) matches Some(v) && {
        &&& v.len() >= 3
        &&& v[0] == 0 && v[1] == afi && v[2] == 133
        &&& spells_rule(v.skip(3), rule, path_id)
    }
}

pub open spec fn withdraws_evpn(u: Seq<u8>, nlri: Seq<u8>, path_id: Option<u32>) -> bool {
    ends_in(u, Seq::empty(), 15) matches Some(v) && {
        &&& v.len() >= 3
        &&& v[0] == 0 && v[1] == 25 && v[2] == 70
        &&& spells_evpn(v.skip(3), nlri, path_id)
    }
}

/// Whether a FlowSpec rule is no longer than its length in front can tell.
pub open spec fn rule_is_short(route: RotondaRoute) -> bool {
    &&& route matches RotondaRoute::Ipv4FlowSpec(n, _) ==> n@.len() <= 4095
    &&& route matches RotondaRoute::Ipv6FlowSpec(n, _) ==> n@.len() <= 4095
}

/// Each announced route is read back out of its UPDATE, whatever its family.
pub proof fn an_announced_route_is_read_back(route: RotondaRoute, path_id: Option<u32>, u: Seq<u8>)
    requires
        route.wf(),
        rule_is_short(route),
        route_update(route, false, path_id) == Some(u),
    ensures
        is_announcement(u, route, path_id),
{
    reveal(is_announcement);
    match route {
        RotondaRoute::Ipv4Unicast(p, a) => an_announced_ipv4_prefix_is_read_back(route, p@, a@, path_id, u),
        RotondaRoute::Ipv4Multicast(p, a) => an_announced_ipv4_prefix_is_read_back(route, p@, a@, path_id, u),
        RotondaRoute::Ipv6Unicast(p, a) => an_announced_ipv6_prefix_is_read_back(route, p@, a@, path_id, u),
        RotondaRoute::Ipv6Multicast(p, a) => an_announced_ipv6_prefix_is_read_back(route, p@, a@, path_id, u),
        RotondaRoute::Ipv4FlowSpec(n, a) => an_announced_rule_is_read_back(route, n@, a@, path_id, u),
        RotondaRoute::Ipv6FlowSpec(n, a) => an_announced_rule_is_read_back(route, n@, a@, path_id, u),
        RotondaRoute::L2VpnEvpn(n, a) => an_announced_evpn_route_is_read_back(route, n.raw@, a@, path_id),
    }
}

/// Each withdrawn route is read back out of its UPDATE, whatever its family.
pub proof fn a_withdrawn_route_is_read_back(route: RotondaRoute, path_id: Option<u32>)
    requires
        route.wf(),
        rule_is_short(route),
        route matches RotondaRoute::L2VpnEvpn(n, _) ==> n.raw@.len() <= 257,
    ensures
        route_update(route, true, path_id) matches Some(u) && is_withdrawal_of(u, route, path_id),
{
    reveal(is_withdrawal_of);
    match route {
        RotondaRoute::Ipv4Unicast(p, a) => a_withdrawn_ipv4_prefix_is_read_back(route, p@, path_id),
        RotondaRoute::Ipv4Multicast(p, a) => a_withdrawn_ipv4_prefix_is_read_back(route, p@, path_id),
        RotondaRoute::Ipv6Unicast(p, a) => a_withdrawn_ipv6_prefix_is_read_back(route, p@, path_id),
        RotondaRoute::Ipv6Multicast(p, a) => a_withdrawn_ipv6_prefix_is_read_back(route, p@, path_id),
        RotondaRoute::Ipv4FlowSpec(n, a) => a_withdrawn_rule_is_read_back(route, n@, path_id),
        RotondaRoute::Ipv6FlowSpec(n, a) => a_withdrawn_rule_is_read_back(route, n@, path_id),
        RotondaRoute::L2VpnEvpn(n, a) => a_withdrawn_evpn_route_is_read_back(route, n.raw@, path_id),
    }
}

/// A prefix is announced to whoever can hold its UPDATE: it is left out only
/// where its attributes leave no room in the longest message of BGP.
pub proof fn a_prefix_is_left_out_only_for_want_of_room(route: RotondaRoute, path_id: Option<u32>)
    requires
        route.wf(),
        route is Ipv4Unicast || route is Ipv6Unicast || route is Ipv4Multicast || route is Ipv6Multicast,
        route.attrs().len() <= 65000,
    ensures
        route_update(route, false, path_id) is Some,
{
    match route {
        RotondaRoute::Ipv4Unicast(p, a) => lemma_announcement_len(p@, a@, path_id),
        RotondaRoute::Ipv4Multicast(p, a) => lemma_announcement_len(p@, a@, path_id),
        RotondaRoute::Ipv6Unicast(p, a) => lemma_announcement_len(p@, a@, path_id),
        RotondaRoute::Ipv6Multicast(p, a) => lemma_announcement_len(p@, a@, path_id),
        _ => {},
    }
}

/// A FlowSpec rule or an EVPN route is announced to whoever can hold its
/// UPDATE: it is left out only where its attributes leave no room in the
/// longest message of BGP, or where an EVPN route has no next hop.
pub proof fn a_rule_or_evpn_route_is_left_out_only_for_want_of_room(route: RotondaRoute, path_id: Option<u32>)
    requires
        route is Ipv4FlowSpec || route is Ipv6FlowSpec || route is L2VpnEvpn,
        rule_is_short(route),
        route matches RotondaRoute::L2VpnEvpn(n, a) ==> n.raw@.len() <= 257 && reach_next_hop(attr_blob(a@)) is Some,
        route.attrs().len() <= 60000,
    ensures
        route_update(route, false, path_id) is Some,
{
    match route {
        RotondaRoute::Ipv4FlowSpec(n, a) => lemma_rule_has_room(true, n@, a@, path_id),
        RotondaRoute::Ipv6FlowSpec(n, a) => lemma_rule_has_room(false, n@, a@, path_id),
        RotondaRoute::L2VpnEvpn(n, a) => lemma_evpn_has_room(n.raw@, a@, path_id),
        _ => {},
    }
}

proof fn lemma_rule_has_room(is_v4: bool, nlri: Seq<u8>, raw: Seq<u8>, path_id: Option<u32>)
    requires
        nlri.len() <= 4095,
        raw.len() <= 60000,
    ensures
        flowspec_update(is_v4, nlri, raw, false, path_id) is Some,
{
    let kept = kept_attrs(attr_blob(raw));
    lemma_kept_len(attr_blob(raw));
    lemma_rule_attr_len(is_v4, nlri, path_id);
    let last = flowspec_attr_bytes(is_v4, nlri, false, path_id);
    lemma_attrs_update_len(kept + last);
    reveal(attrs_update);
}

proof fn lemma_rule_attr_len(is_v4: bool, nlri: Seq<u8>, path_id: Option<u32>)
    requires
        nlri.len() <= 4095,
    ensures
        flowspec_attr_bytes(is_v4, nlri, false, path_id).len() <= 20 + nlri.len(),
{
    assert(flowspec_nlri_bytes(nlri, path_id).len() <= 6 + nlri.len());
}

proof fn lemma_evpn_has_room(nlri: Seq<u8>, raw: Seq<u8>, path_id: Option<u32>)
    requires
        nlri.len() <= 257,
        raw.len() <= 60000,
        reach_next_hop(attr_blob(raw)) is Some,
    ensures
        evpn_update(nlri, raw, false, path_id) is Some,
{
    let kept = kept_attrs(attr_blob(raw));
    lemma_kept_len(attr_blob(raw));
    lemma_next_hop_fits_an_octet(attr_blob(raw));
    let nh = reach_next_hop(attr_blob(raw))->0;
    let value = evpn_value(nlri, nh, false, path_id);
    assert(value.len() <= 5 + 255 + 4 + 257);
    let last = extended_attr_bytes(14, value);
    assert(last.len() == 4 + value.len());
    lemma_attrs_update_len(kept + last);
    reveal(attrs_update);
}

/// An announcement is little longer than the attributes that are stored.
proof fn lemma_announcement_len(p: PrefixKey, raw: Seq<u8>, path_id: Option<u32>)
    requires
        valid_key(p),
    ensures
        announcement_bytes(p, raw, path_id).len() <= raw.len() + 400,
{
    let kept = kept_attrs(attr_blob(raw));
    lemma_kept_len(attr_blob(raw));
    lemma_nlri_read(p, path_id);
    lemma_next_hop_fits_an_octet(attr_blob(raw));
    assert(attr_blob(raw).len() <= raw.len());
    let last = mp_reach_bytes(p, reach_next_hop(attr_blob(raw)), path_id);
    assert(last.len() <= 4 + 4 + 255 + 1 + 21);
    if !p.0 {
        reveal(attrs_update);
        lemma_attrs_update_len(kept + last);
    }
}

/// Filtering makes attributes no longer.
proof fn lemma_kept_len(s: Seq<u8>)
    ensures
        kept_attrs(s).len() <= s.len(),
    decreases s.len(),
{
    match attr_extent(s) {
        None => {},
        Some((header, total)) => {
            lemma_kept_len(s.skip(total));
        },
    }
}

/// The number of octets that one item of a group takes as NLRI.
pub open spec fn octets_of(it: AggItem) -> int {
    (if it.path_id is Some {
        4int
    } else {
        0
    }) + match it.nlri {
        AggNlri::Prefix(p) => 1 + (p@.2 + 7) / 8,
        AggNlri::Rule(r) => r@.len() + if r@.len() < 240 {
            1int
        } else {
            2
        },
    }
}

/// Whether octets are the NLRI of items, one after the other.
pub open spec fn spelled_by(s: Seq<u8>, items: Seq<AggItem>) -> bool
    decreases items.len(),
{
    if items.len() == 0 {
        s.len() == 0
    } else {
        let it = items.last();
        let n = s.len() - octets_of(it);
        &&& 0 <= n
        &&& match it.nlri {
            AggNlri::Prefix(p) => spells_prefix(s.skip(n), p@, it.path_id),
            AggNlri::Rule(r) => spells_rule(s.skip(n), r@, it.path_id),
        }
        &&& spelled_by(s.take(n), items.drop_last())
    }
}

/// The items of a group as NLRI are read back.
proof fn lemma_items_read(key: GroupKey, items: Seq<AggItem>)
    requires
        forall|i: int| 0 <= i < items.len() ==> item_fits(key, #[trigger] items[i]),
        forall|i: int| 0 <= i < items.len() ==> ((#[trigger] items[i]).nlri matches AggNlri::Rule(r) ==> r@.len() <= 4095),
    ensures
        spelled_by(items_bytes(items), items),
    decreases items.len(),
{
    if items.len() > 0 {
        let it = items[items.len() - 1];
        let front = items.drop_last();
        assert forall|i: int| 0 <= i < front.len() implies item_fits(key, #[trigger] front[i]) by {
            assert(front[i] == items[i]);
        }
        assert forall|i: int| 0 <= i < front.len() implies ((#[trigger] front[i]).nlri matches AggNlri::Rule(r) ==> r@.len()
            <= 4095) by {
            assert(front[i] == items[i]);
        }
        lemma_items_read(key, front);
        assert(item_fits(key, it));
        let a = items_bytes(front);
        let b = item_bytes(it.path_id, it.nlri@);
        match it.nlri {
            AggNlri::Prefix(p) => {
                lemma_nlri_read(p@, it.path_id);
                assert(b.len() == octets_of(it)) by {
                    reveal(spells_prefix);
                }
            },
            AggNlri::Rule(r) => {
                lemma_rule_read(r@, it.path_id);
                assert(b.len() == octets_of(it)) by {
                    reveal(spells_rule);
                }
            },
        }
        assert((a + b).skip(a.len() as int) =~= b);
        assert((a + b).take(a.len() as int) =~= a);
    }
}

/// Routes of a peer that share their attributes are read back out of the one
/// UPDATE that tells them: it holds these attributes but for those that name
/// routes, and just those routes; for IPv4 prefixes as its NLRI, for IPv6
/// prefixes in an MP_REACH_NLRI with the next hop that came with them, for
/// FlowSpec rules in one without a next hop.
pub proof fn a_group_is_read_back(key: GroupKey, raw: Seq<u8>, items: Seq<AggItem>, u: Seq<u8>)
    requires
        forall|i: int| 0 <= i < items.len() ==> item_fits(key, #[trigger] items[i]),
        forall|i: int| 0 <= i < items.len() ==> ((#[trigger] items[i]).nlri matches AggNlri::Rule(r) ==> r@.len() <= 4095),
        u == group_update(key, raw, items),
        u.len() <= 65535,
    ensures
        !key.flowspec && key.is_v4 ==> {
            &&& is_whole_update(u)
            &&& parts_of(u).withdrawn.len() == 0
            &&& attr_list(parts_of(u).attrs) == other_attrs(raw)
            &&& spelled_by(parts_of(u).nlri, items)
        },
        !key.flowspec && !key.is_v4 ==> (ends_in(u, other_attrs(raw), 14) matches Some(v) && {
            let n = v[3] as int;
            &&& v.len() >= 5 + n
            &&& v[0] == 0 && v[1] == 2 && v[2] == 1 && v[4 + n] == 0
            &&& spelled_by(v.skip(5 + n), items)
            &&& reach_next_hop(attr_blob(raw)) matches Some(nh) ==> v.subrange(4, 4 + n) == nh
            &&& reach_next_hop(attr_blob(raw)) is None ==> v.subrange(4, 4 + n) == zeros(16)
        }),
        key.flowspec ==> (ends_in(u, other_attrs(raw), 14) matches Some(v) && {
            &&& v.len() >= 5
            &&& v[0] == 0 && v[2] == 133 && v[3] == 0 && v[4] == 0
            &&& key.is_v4 ==> v[1] == 1
            &&& !key.is_v4 ==> v[1] == 2
            &&& spelled_by(v.skip(5), items)
        }),
{
    let nlri = items_bytes(items);
    lemma_items_read(key, items);
    if key.flowspec {
        lemma_group_of_rules(key, raw, items, u);
    } else if key.is_v4 {
        lemma_group_of_ipv4(key, raw, items, u);
    } else {
        lemma_group_of_ipv6(key, raw, items, u);
    }
}

proof fn lemma_group_of_ipv4(key: GroupKey, raw: Seq<u8>, items: Seq<AggItem>, u: Seq<u8>)
    requires
        !key.flowspec,
        key.is_v4,
        u == group_update(key, raw, items),
        u.len() <= 65535,
    ensures
        is_whole_update(u),
        parts_of(u).withdrawn.len() == 0,
        attr_list(parts_of(u).attrs) == other_attrs(raw),
        parts_of(u).nlri == items_bytes(items),
{
    let attrs = kept_attrs(attr_blob(raw));
    assert(u.len() == 23 + attrs.len() + items_bytes(items).len());
    an_update_is_taken_apart(Seq::empty(), attrs, items_bytes(items));
    lemma_kept_read(attr_blob(raw), Seq::empty());
    too_few_octets_hold_no_attribute(Seq::empty());
    assert(attrs + Seq::<u8>::empty() =~= attrs);
    assert(other_attrs(raw) + Seq::<(u8, Seq<u8>)>::empty() =~= other_attrs(raw));
}

proof fn lemma_group_bytes(key: GroupKey, raw: Seq<u8>, items: Seq<AggItem>, u: Seq<u8>)
    requires
        u == group_update(key, raw, items),
    ensures
        group_next_hop(raw).len() <= 255,
        !key.flowspec && !key.is_v4 ==> u == attrs_update(
            kept_attrs(attr_blob(raw)) + long_attr(14, reach_value(2, 1, group_next_hop(raw), items_bytes(items))),
        ),
        key.flowspec ==> u == attrs_update(
            kept_attrs(attr_blob(raw)) + long_attr(
                14,
                reach_value(
                    if key.is_v4 {
                        1
                    } else {
                        2
                    },
                    133,
                    Seq::empty(),
                    items_bytes(items),
                ),
            ),
        ),
{
    reveal(attrs_update);
    reveal(long_attr);
    reveal(reach_value);
    lemma_next_hop_fits_an_octet(attr_blob(raw));
    let nh = group_next_hop(raw);
    let nlri = items_bytes(items);
    assert(nh.len() % 256 == nh.len());
    assert(be16(2) + seq![1u8, (nh.len() % 256) as u8] + nh + seq![0u8] + nlri =~= reach_value(2, 1, nh, nlri));
    assert(be16(1) + seq![133u8, 0u8, 0u8] + nlri =~= reach_value(1, 133, Seq::empty(), nlri));
    assert(be16(2) + seq![133u8, 0u8, 0u8] + nlri =~= reach_value(2, 133, Seq::empty(), nlri));
}

proof fn lemma_long_attr_len(v: Seq<u8>)
    ensures
        long_attr(14, v).len() == 4 + v.len(),
{
    reveal(long_attr);
}

proof fn lemma_group_of_ipv6(key: GroupKey, raw: Seq<u8>, items: Seq<AggItem>, u: Seq<u8>)
    requires
        !key.flowspec,
        !key.is_v4,
        u == group_update(key, raw, items),
        u.len() <= 65535,
    ensures
        ends_in(u, other_attrs(raw), 14) matches Some(v) && {
            let n = v[3] as int;
            &&& v.len() >= 5 + n
            &&& v[0] == 0 && v[1] == 2 && v[2] == 1 && v[4 + n] == 0
            &&& v.skip(5 + n) == items_bytes(items)
            &&& v.subrange(4, 4 + n) == group_next_hop(raw)
        },
{
    lemma_group_bytes(key, raw, items, u);
    let (nh, nlri) = (group_next_hop(raw), items_bytes(items));
    let v = reach_value(2, 1, nh, nlri);
    lemma_reach_value(2, 1, nh, nlri);
    lemma_attrs_update_len(kept_attrs(attr_blob(raw)) + long_attr(14, v));
    lemma_long_attr_len(v);
    lemma_announced(raw, long_attr(14, v), v, u);
}

proof fn lemma_group_of_rules(key: GroupKey, raw: Seq<u8>, items: Seq<AggItem>, u: Seq<u8>)
    requires
        key.flowspec,
        u == group_update(key, raw, items),
        u.len() <= 65535,
    ensures
        ends_in(u, other_attrs(raw), 14) matches Some(v) && {
            &&& v.len() >= 5
            &&& v[0] == 0 && v[2] == 133 && v[3] == 0 && v[4] == 0
            &&& key.is_v4 ==> v[1] == 1
            &&& !key.is_v4 ==> v[1] == 2
            &&& v.skip(5) == items_bytes(items)
        },
{
    lemma_group_bytes(key, raw, items, u);
    let nlri = items_bytes(items);
    let afi: u8 = if key.is_v4 {
        1
    } else {
        2
    };
    let v = reach_value(afi, 133, Seq::empty(), nlri);
    lemma_reach_value(afi, 133, Seq::empty(), nlri);
    lemma_attrs_update_len(kept_attrs(attr_blob(raw)) + long_attr(14, v));
    lemma_long_attr_len(v);
    lemma_announced(raw, long_attr(14, v), v, u);
}

/// The End-of-RIB marker of a family is read back: for IPv4 unicast an UPDATE
/// that holds nothing, for the other families that are carried one with just
/// an MP_UNREACH_NLRI that names the family and no route.
pub proof fn an_end_of_rib_marker_is_read_back(family: AfiSafiType)
    ensures
        family is Ipv4Unicast ==> (end_of_rib_update(family) matches Some(u) && {
            &&& is_whole_update(u)
            &&& u.len() == 23
        }),
        family is Ipv6Unicast ==> (end_of_rib_update(family) matches Some(u) && ends_in(u, Seq::empty(), 15) == Some(
            seq![0u8, 2u8, 1u8],
        )),
        family is Ipv4FlowSpec ==> (end_of_rib_update(family) matches Some(u) && ends_in(u, Seq::empty(), 15) == Some(
            seq![0u8, 1u8, 133u8],
        )),
        family is Ipv6FlowSpec ==> (end_of_rib_update(family) matches Some(u) && ends_in(u, Seq::empty(), 15) == Some(
            seq![0u8, 2u8, 133u8],
        )),
        family is L2VpnEvpn ==> (end_of_rib_update(family) matches Some(u) && ends_in(u, Seq::empty(), 15) == Some(
            seq![0u8, 25u8, 70u8],
        )),
{
    let none = Seq::<u8>::empty();
    if family is Ipv4Unicast {
        an_update_is_taken_apart(none, none, none);
    } else if family.reemitted() {
        let v = be16(family.pair().0 as int) + seq![family.pair().1];
        let last = optional_attr_bytes(15, v);
        lemma_optional_read(15, v);
        assert(none + last =~= last);
        assert(Seq::<(u8, Seq<u8>)>::empty() + seq![(15u8, v)] =~= seq![(15u8, v)]);
        lemma_ends_in(none, Seq::empty(), last, 15, v);
        assert(v =~= seq![(family.pair().0 / 256) as u8, (family.pair().0 % 256) as u8, family.pair().1]);
    }
}

} // verus!
