//! Path attributes as they are stored with a route: one octet of RPKI
//! state, one octet that tells how the attributes were encoded, and the
//! attributes themselves in wire format.
use vstd::prelude::*;

use crate::wire::{copy_range, get16, push_bytes, read_be16};

verus! {

/// The stored path attributes of a route.
#[derive(Debug)]
pub struct RotondaPaMap {
    pub raw: Vec<u8>,
}

impl View for RotondaPaMap {
    type V = Seq<u8>;

    open spec fn view(&self) -> Seq<u8> {
        self.raw@
    }
}

impl Clone for RotondaPaMap {
    fn clone(&self) -> (r: Self)
        ensures
            r@ == self@,
    {
        let n: usize = self.raw.len();
        RotondaPaMap { raw: copy_range(&self.raw, 0, n) }
    }
}

impl Default for RotondaPaMap {
    fn default() -> (r: Self)
        ensures
            r@ == seq![0u8, 1u8],
    {
        RotondaPaMap::empty_path_attributes()
    }
}

/// The attributes of stored bytes: all but the two leading octets.
pub open spec fn attr_blob(raw: Seq<u8>) -> Seq<u8> {
    if raw.len() < 2 {
        Seq::empty()
    } else {
        raw.skip(2)
    }
}

impl RotondaPaMap {
    /// Stores attributes whose AS numbers have four octets, with no RPKI
    /// state.
    pub fn from_attributes(attrs: &[u8]) -> (r: Self)
        ensures
            r@ == seq![0u8, 1u8] + attrs@,
    {
        let mut raw: Vec<u8> = Vec::new();
        raw.push(0);
        raw.push(1);
        push_bytes(&mut raw, attrs);
        assert(raw@ =~= seq![0u8, 1u8] + attrs@);
        RotondaPaMap { raw }
    }

    /// No attributes at all.
    pub fn empty_path_attributes() -> (r: Self)
        ensures
            r@ == seq![0u8, 1u8],
    {
        let mut raw: Vec<u8> = Vec::new();
        raw.push(0);
        raw.push(1);
        assert(raw@ =~= seq![0u8, 1u8]);
        RotondaPaMap { raw }
    }

    /// The attributes in wire format.
    pub fn blob(&self) -> (r: &[u8])
        ensures
            r@ == attr_blob(self@),
    {
        let n: usize = self.raw.len();
        if n < 2 {
            let r = &self.raw[0..0];
            assert(r@ =~= Seq::<u8>::empty());
            r
        } else {
            let r = &self.raw[2..n];
            assert(r@ =~= self@.skip(2));
            r
        }
    }
}

/// Where the first attribute of `s` ends: the length of its header and of
/// the whole attribute, if all of it is there.
pub open spec fn attr_extent(s: Seq<u8>) -> Option<(int, int)> {
    if s.len() < 3 {
        None
    } else if s[0] & 0x10u8 != 0 {
        if s.len() < 4 || 4 + get16(s, 2) > s.len() {
            None
        } else {
            Some((4, 4 + get16(s, 2)))
        }
    } else if 3 + s[2] > s.len() {
        None
    } else {
        Some((3, 3 + s[2]))
    }
}

/// The attributes of `s`, as type code and value, up to the first that is
/// cut short.
pub open spec fn attr_list(s: Seq<u8>) -> Seq<(u8, Seq<u8>)>
    decreases s.len(),
{
    match attr_extent(s) {
        None => Seq::empty(),
        Some((header, total)) => seq![(s[1], s.subrange(header, total))] + attr_list(s.skip(total)),
    }
}

/// Finds the attribute at `pos`: where its value starts and where it ends.
pub fn attr_at(blob: &[u8], pos: usize) -> (r: Option<(usize, usize)>)
    requires
        pos <= blob@.len(),
    ensures
        match (r, attr_extent(blob@.skip(pos as int))) {
            (Some((start, end)), Some((header, total))) => {
                &&& start == pos + header
                &&& end == pos + total
                &&& pos + 3 <= start <= end <= blob@.len()
            },
            (None, None) => true,
            _ => false,
        },
{
    let ghost s = blob@.skip(pos as int);
    let left: usize = blob.len() - pos;
    if left < 3 {
        return None;
    }
    assert(s[0] == blob@[pos as int]);
    assert(s[2] == blob@[pos + 2]);
    if blob[pos] & 0x10 != 0 {
        if left < 4 {
            return None;
        }
        assert(s[3] == blob@[pos + 3]);
        let len: usize = read_be16(blob, pos + 2) as usize;
        if len > left - 4 {
            return None;
        }
        Some((pos + 4, pos + 4 + len))
    } else {
        let len: usize = blob[pos + 2] as usize;
        if len > left - 3 {
            return None;
        }
        Some((pos + 3, pos + 3 + len))
    }
}

/// The attributes of `s` but for MP_REACH_NLRI and MP_UNREACH_NLRI, as they
/// stand in `s`.
pub open spec fn kept_attrs(s: Seq<u8>) -> Seq<u8>
    decreases s.len(),
{
    match attr_extent(s) {
        None => Seq::empty(),
        Some((header, total)) => (if s[1] == 14 || s[1] == 15 {
            Seq::empty()
        } else {
            s.take(total)
        }) + kept_attrs(s.skip(total)),
    }
}

/// The next hop that the value of an MP_REACH_NLRI attribute holds.
pub open spec fn value_next_hop(value: Seq<u8>) -> Option<Seq<u8>> {
    if value.len() >= 4 && value.len() >= 4 + value[3] {
        Some(value.subrange(4, 4 + value[3]))
    } else {
        None
    }
}

/// The next hop of the last MP_REACH_NLRI attribute that holds one.
pub open spec fn reach_next_hop(s: Seq<u8>) -> Option<Seq<u8>>
    decreases s.len(),
{
    match attr_extent(s) {
        None => None,
        Some((header, total)) => {
            let later = reach_next_hop(s.skip(total));
            if later is Some {
                later
            } else if s[1] == 14 {
                value_next_hop(s.subrange(header, total))
            } else {
                None
            }
        },
    }
}

/// The view of an optional byte string.
pub open spec fn opt_bytes(o: Option<Vec<u8>>) -> Option<Seq<u8>> {
    match o {
        Some(v) => Some(v@),
        None => None,
    }
}

/// The attributes of `pamap` without MP_REACH_NLRI and MP_UNREACH_NLRI, and
/// the next hop that MP_REACH_NLRI carried.
pub fn filter_raw_path_attributes(pamap: &RotondaPaMap) -> (r: (Vec<u8>, Option<Vec<u8>>))
    ensures
        r.0@ == kept_attrs(attr_blob(pamap@)),
        opt_bytes(r.1) == reach_next_hop(attr_blob(pamap@)),
{
    filter_pa_from_raw(&pamap.raw)
}

/// As [`filter_raw_path_attributes`], on the stored bytes themselves.
pub fn filter_pa_from_raw(raw: &[u8]) -> (r: (Vec<u8>, Option<Vec<u8>>))
    ensures
        r.0@ == kept_attrs(attr_blob(raw@)),
        opt_bytes(r.1) == reach_next_hop(attr_blob(raw@)),
{
    let n: usize = raw.len();
    if n < 2 {
        return (Vec::new(), None);
    }
    let blob = &raw[2..n];
    assert(blob@ =~= attr_blob(raw@));
    let mut result: Vec<u8> = Vec::new();
    let mut next_hop: Option<Vec<u8>> = None;
    let mut pos: usize = 0;
    assert(blob@.skip(0) =~= blob@);
    while pos < blob.len()
        invariant_except_break
            pos <= blob@.len(),
            kept_attrs(blob@) == result@ + kept_attrs(blob@.skip(pos as int)),
            reach_next_hop(blob@) == (match reach_next_hop(blob@.skip(pos as int)) {
                Some(nh) => Some(nh),
                None => opt_bytes(next_hop),
            }),
        ensures
            result@ == kept_attrs(blob@),
            opt_bytes(next_hop) == reach_next_hop(blob@),
        decreases blob@.len() - pos,
    {
        let ghost s = blob@.skip(pos as int);
        match attr_at(blob, pos) {
            None => {
                assert(result@ + Seq::<u8>::empty() =~= result@);
                break;
            },
            Some((start, end)) => {
                let type_code: u8 = blob[pos + 1];
                let ghost (header, total) = attr_extent(s)->0;
                assert(type_code == s[1]);
                assert(s.skip(total) =~= blob@.skip(end as int));
                let ghost before = result@;
                let ghost nh_before = opt_bytes(next_hop);
                if type_code == 14 {
                    let value = &blob[start..end];
                    assert(value@ =~= s.subrange(header, total));
                    if value.len() >= 4 {
                        let nh_len: usize = value[3] as usize;
                        if value.len() - 4 >= nh_len {
                            next_hop = Some(copy_range(value, 4, 4 + nh_len));
                        }
                    }
                } else if type_code != 15 {
                    push_bytes(&mut result, &blob[pos..end]);
                    assert(blob@.subrange(pos as int, end as int) =~= s.take(total));
                }
                assert(result@ + kept_attrs(s.skip(total)) =~= before + kept_attrs(s));
                pos = end;
            },
        }
    }
    (result, next_hop)
}

/// One attribute in front of others is found first.
pub proof fn lemma_attr_extent_prefix(s: Seq<u8>, total: int, rest: Seq<u8>)
    requires
        attr_extent(s) matches Some((h, t)) && t == total,
    ensures
        attr_extent(s.take(total) + rest) == attr_extent(s),
        (s.take(total) + rest)[1] == s[1],
        (s.take(total) + rest).take(total) == s.take(total),
        (s.take(total) + rest).skip(total) == rest,
        forall|h: int| 0 <= h <= total ==> #[trigger] (s.take(total) + rest).subrange(h, total) == s.subrange(h, total),
{
    let x = s.take(total) + rest;
    assert(x[0] == s[0] && x[1] == s[1] && x[2] == s[2]);
    assert(x.take(total) =~= s.take(total));
    assert(x.skip(total) =~= rest);
    if s[0] & 0x10u8 != 0 {
        assert(x[3] == s[3]);
    }
    assert forall|h: int| 0 <= h <= total implies #[trigger] x.subrange(h, total) == s.subrange(h, total) by {
        assert(x.subrange(h, total) =~= s.subrange(h, total));
    }
}

/// Filtering leaves no MP_REACH_NLRI and no MP_UNREACH_NLRI: what is kept
/// holds neither type, no next hop, and filtering it again changes nothing.
pub proof fn filtered_attributes_hold_no_mp_nlri(s: Seq<u8>)
    ensures
        forall|i: int|
            0 <= i < attr_list(kept_attrs(s)).len() ==> (#[trigger] attr_list(kept_attrs(s))[i]).0 != 14
                && attr_list(kept_attrs(s))[i].0 != 15,
        reach_next_hop(kept_attrs(s)) is None,
        kept_attrs(kept_attrs(s)) == kept_attrs(s),
    decreases s.len(),
{
    match attr_extent(s) {
        None => {},
        Some((header, total)) => {
            let rest = kept_attrs(s.skip(total));
            filtered_attributes_hold_no_mp_nlri(s.skip(total));
            if s[1] == 14 || s[1] == 15 {
                assert(kept_attrs(s) =~= rest);
            } else {
                let x = kept_attrs(s);
                assert(x =~= s.take(total) + rest);
                lemma_attr_extent_prefix(s, total, rest);
                assert(attr_list(x) == seq![(s[1], s.subrange(header, total))] + attr_list(rest));
                assert(kept_attrs(x) =~= x);
            }
        },
    }
}

/// The value of the first attribute with a type code.
pub open spec fn first_value(attrs: Seq<(u8, Seq<u8>)>, code: u8) -> Option<Seq<u8>>
    decreases attrs.len(),
{
    if attrs.len() == 0 {
        None
    } else {
        let earlier = first_value(attrs.drop_last(), code);
        if earlier is Some {
            earlier
        } else if attrs.last().0 == code {
            Some(attrs.last().1)
        } else {
            None
        }
    }
}

/// The value of the last attribute with a type code.
pub open spec fn last_value(attrs: Seq<(u8, Seq<u8>)>, code: u8) -> Option<Seq<u8>>
    decreases attrs.len(),
{
    if attrs.len() == 0 {
        None
    } else if attrs.last().0 == code {
        Some(attrs.last().1)
    } else {
        last_value(attrs.drop_last(), code)
    }
}

/// Finds the first and the last attribute with a type code.
pub fn find_values(blob: &[u8], code: u8) -> (r: (Option<Vec<u8>>, Option<Vec<u8>>))
    ensures
        opt_bytes(r.0) == first_value(attr_list(blob@), code),
        opt_bytes(r.1) == last_value(attr_list(blob@), code),
{
    let mut first: Option<Vec<u8>> = None;
    let mut last: Option<Vec<u8>> = None;
    let mut pos: usize = 0;
    let ghost mut done: Seq<(u8, Seq<u8>)> = Seq::empty();
    proof {
        assert(blob@.skip(0) =~= blob@);
        assert(done + attr_list(blob@) =~= attr_list(blob@));
    }
    loop
        invariant_except_break
            pos <= blob@.len(),
            attr_list(blob@) == done + attr_list(blob@.skip(pos as int)),
            opt_bytes(first) == first_value(done, code),
            opt_bytes(last) == last_value(done, code),
        ensures
            opt_bytes(first) == first_value(attr_list(blob@), code),
            opt_bytes(last) == last_value(attr_list(blob@), code),
        decreases blob@.len() - pos,
    {
        let ghost s = blob@.skip(pos as int);
        match attr_at(blob, pos) {
            None => {
                assert(done + Seq::<(u8, Seq<u8>)>::empty() =~= done);
                break;
            },
            Some((start, end)) => {
                let type_code: u8 = blob[pos + 1];
                let ghost (header, total) = attr_extent(s)->0;
                let value = copy_range(blob, start, end);
                let ghost one = (type_code, value@);
                proof {
                    assert(type_code == s[1]);
                    assert(value@ =~= s.subrange(header, total));
                    assert(s.skip(total) =~= blob@.skip(end as int));
                    assert(attr_list(s) == seq![one] + attr_list(s.skip(total)));
                    assert(done + attr_list(s) =~= done.push(one) + attr_list(s.skip(total)));
                    assert(done.push(one).drop_last() =~= done);
                    done = done.push(one);
                }
                if type_code == code {
                    if first.is_none() {
                        first = Some(copy_range(blob, start, end));
                    }
                    last = Some(value);
                }
                pos = end;
            },
        }
    }
    (first, last)
}

} // verus!
