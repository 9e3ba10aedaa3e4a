//! Path attributes as MRT table dumps store them, turned into those of the
//! BGP wire format.
use vstd::prelude::*;

use crate::bmp_builder::{encode_prefix_nlri, nlri_bytes};
use crate::pamap::{attr_at, attr_extent, kept_attrs, lemma_attr_extent_prefix, reach_next_hop, value_next_hop};
use crate::types::Prefix;
use crate::wire::{be16, push_be16, push_bytes};

verus! {

/// Whether a value is that of an MP_REACH_NLRI attribute as a table dump
/// stores it: the length of the next hop and the next hop. The family and the
/// NLRI follow from the table.
pub open spec fn is_short_reach(value: Seq<u8>) -> bool {
    value.len() > 0 && value.len() >= 1 + value[0]
}

/// The value of an MP_REACH_NLRI attribute in wire format.
pub open spec fn full_reach(value: Seq<u8>, afi: u16, safi: u8, nlri: Seq<u8>) -> Seq<u8> {
    be16(afi as int) + seq![safi, value[0]] + value.subrange(1, 1 + value[0]) + seq![0u8] + nlri
}

/// An MP_REACH_NLRI attribute with a value. Its length takes two octets only
/// where it has to.
pub open spec fn reach_attr(flags: u8, value: Seq<u8>) -> Seq<u8> {
    (if value.len() > 255 {
        seq![flags | 0x10u8, 14u8] + be16(value.len() as int)
    } else {
        seq![flags & !0x10u8, 14u8, value.len() as u8]
    }) + value
}

/// One attribute in wire format.
pub open spec fn normalized_attr(a: Seq<u8>, header: int, afi: u16, safi: u8, nlri: Seq<u8>) -> Seq<u8> {
    let value = a.skip(header);
    if a[1] == 14 && is_short_reach(value) {
        reach_attr(a[0], full_reach(value, afi, safi, nlri))
    } else {
        a
    }
}

/// Attributes in wire format. What is cut short stays as it is.
pub open spec fn normalized(s: Seq<u8>, afi: u16, safi: u8, nlri: Seq<u8>) -> Seq<u8>
    decreases s.len(),
{
    match attr_extent(s) {
        None => s,
        Some((header, total)) => normalized_attr(s.take(total), header, afi, safi, nlri) + normalized(
            s.skip(total),
            afi,
            safi,
            nlri,
        ),
    }
}

/// Appends an MP_REACH_NLRI attribute in wire format.
fn push_reach(out: &mut Vec<u8>, flags: u8, value: &[u8], afi: u16, safi: u8, nlri: &[u8])
    requires
        is_short_reach(value@),
        nlri@.len() <= 21,
    ensures
        final(out)@ == old(out)@ + reach_attr(flags, full_reach(value@, afi, safi, nlri@)),
{
    let nh_len: usize = value[0] as usize;
    let n: usize = 5 + nh_len + nlri.len();
    let ghost full = full_reach(value@, afi, safi, nlri@);
    assert(full.len() == n);
    if n > 255 {
        out.push(flags | 0x10);
        out.push(14);
        push_be16(out, n);
    } else {
        out.push(flags & !0x10);
        out.push(14);
        out.push(n as u8);
    }
    let ghost head = out@;
    push_be16(out, afi as usize);
    out.push(safi);
    out.push(nh_len as u8);
    push_bytes(out, &value[1..1 + nh_len]);
    out.push(0);
    push_bytes(out, nlri);
    assert(out@ =~= head + full);
    assert(out@ =~= old(out)@ + reach_attr(flags, full));
}

/// Rewrites the attributes of an entry of a table dump so that they are in
/// wire format.
pub fn normalize_mrt_mp_reach(raw_attr: &[u8], afi: u16, safi: u8, prefix: &Prefix) -> (r: Vec<u8>)
    requires
        prefix.wf(),
    ensures
        r@ == normalized(raw_attr@, afi, safi, nlri_bytes(prefix@, None)),
{
    let nlri = encode_prefix_nlri(prefix, None);
    assert(nlri@.len() <= 17);
    let ghost spelled = nlri@;
    let ghost all = raw_attr@;
    let mut out: Vec<u8> = Vec::new();
    let mut pos: usize = 0;
    proof {
        assert(all.skip(0) =~= all);
        assert(out@ + normalized(all, afi, safi, spelled) =~= normalized(all, afi, safi, spelled));
    }
    while pos < raw_attr.len()
        invariant_except_break
            pos <= all.len(),
            all == raw_attr@,
            nlri@ == spelled,
            nlri@.len() <= 17,
            out@ + normalized(all.skip(pos as int), afi, safi, spelled) == normalized(all, afi, safi, spelled),
        ensures
            out@ == normalized(all, afi, safi, spelled),
        decreases all.len() - pos,
    {
        let ghost s = all.skip(pos as int);
        let ghost before = out@;
        match attr_at(raw_attr, pos) {
            None => {
                let n: usize = raw_attr.len();
                push_bytes(&mut out, &raw_attr[pos..n]);
                assert(raw_attr@.subrange(pos as int, n as int) =~= s);
                break;
            },
            Some((start, end)) => {
                let ghost (header, total) = attr_extent(s)->0;
                let value = &raw_attr[start..end];
                let short = value.len() > 0 && value.len() - 1 >= value[0] as usize;
                proof {
                    assert(s.take(total).skip(header) =~= value@);
                    assert(s.take(total)[1] == s[1]);
                    assert(s.take(total)[0] == s[0]);
                    assert(s.skip(total) =~= all.skip(end as int));
                }
                if raw_attr[pos + 1] == 14 && short {
                    push_reach(&mut out, raw_attr[pos], value, afi, safi, &nlri);
                } else {
                    push_bytes(&mut out, &raw_attr[pos..end]);
                    assert(raw_attr@.subrange(pos as int, end as int) =~= s.take(total));
                }
                assert(out@ + normalized(s.skip(total), afi, safi, spelled) =~= before + normalized(
                    s,
                    afi,
                    safi,
                    spelled,
                ));
                pos = end;
            },
        }
        if pos >= raw_attr.len() {
            proof {
                let rest = all.skip(pos as int);
                assert(rest =~= Seq::empty());
                assert(normalized(rest, afi, safi, spelled) =~= Seq::empty());
                assert(out@ + normalized(rest, afi, safi, spelled) =~= out@);
            }
        }
    }
    out
}

/// The next hop of the last MP_REACH_NLRI attribute of a table dump that
/// holds one.
pub open spec fn stored_next_hop(s: Seq<u8>) -> Option<Seq<u8>>
    decreases s.len(),
{
    match attr_extent(s) {
        None => None,
        Some((header, total)) => {
            let later = stored_next_hop(s.skip(total));
            let value = s.subrange(header, total);
            if later is Some {
                later
            } else if s[1] != 14 {
                None
            } else if is_short_reach(value) {
                Some(value.subrange(1, 1 + value[0]))
            } else {
                value_next_hop(value)
            }
        },
    }
}

proof fn lemma_flags(flags: u8)
    ensures
        (flags | 0x10u8) & 0x10u8 != 0,
        (flags & !0x10u8) & 0x10u8 == 0,
{
    assert((flags | 0x10u8) & 0x10u8 != 0) by (bit_vector);
    assert((flags & !0x10u8) & 0x10u8 == 0) by (bit_vector);
}

/// An attribute that was rewritten is one attribute of the wire format, with
/// the next hop that was stored.
proof fn lemma_reach_attr(flags: u8, value: Seq<u8>, afi: u16, safi: u8, nlri: Seq<u8>, rest: Seq<u8>)
    requires
        is_short_reach(value),
        nlri.len() <= 21,
    ensures
        ({
            let full = full_reach(value, afi, safi, nlri);
            let a = reach_attr(flags, full);
            let h: int = if full.len() > 255 {
                4
            } else {
                3
            };
            &&& attr_extent(a + rest) == Some((h, a.len() as int))
            &&& (a + rest)[1] == 14
            &&& (a + rest).subrange(h, a.len() as int) == full
            &&& (a + rest).skip(a.len() as int) == rest
            &&& value_next_hop(full) == Some(value.subrange(1, 1 + value[0]))
        }),
{
    let full = full_reach(value, afi, safi, nlri);
    let a = reach_attr(flags, full);
    let x = a + rest;
    lemma_flags(flags);
    assert(full.len() == 5 + value[0] + nlri.len());
    assert(full[3] == value[0]);
    assert(full.subrange(4, 4 + value[0]) =~= value.subrange(1, 1 + value[0]));
    assert(x.skip(a.len() as int) =~= rest);
    if full.len() > 255 {
        let n = full.len() as int;
        assert(x[2] == be16(n)[0] && x[3] == be16(n)[1]);
        assert(crate::wire::get16(x, 2) == n);
        assert(x.subrange(4, a.len() as int) =~= full);
    } else {
        assert(x.subrange(3, a.len() as int) =~= full);
    }
}

/// Rewriting loses nothing: the next hop that a table dump stored is found in
/// the wire format, and the other attributes are the same.
pub proof fn rewriting_keeps_the_next_hop(s: Seq<u8>, afi: u16, safi: u8, prefix: Prefix)
    requires
        prefix.wf(),
    ensures
        reach_next_hop(normalized(s, afi, safi, nlri_bytes(prefix@, None))) == stored_next_hop(s),
        kept_attrs(normalized(s, afi, safi, nlri_bytes(prefix@, None))) == kept_attrs(s),
    decreases s.len(),
{
    let nlri = nlri_bytes(prefix@, None);
    match attr_extent(s) {
        None => {},
        Some((header, total)) => {
            let tail = s.skip(total);
            let rest = normalized(tail, afi, safi, nlri);
            rewriting_keeps_the_next_hop(tail, afi, safi, prefix);
            let value = s.subrange(header, total);
            assert(s.take(total).skip(header) =~= value);
            assert(s.take(total)[1] == s[1] && s.take(total)[0] == s[0]);
            let x = normalized(s, afi, safi, nlri);
            if s[1] == 14 && is_short_reach(value) {
                lemma_reach_attr(s[0], value, afi, safi, nlri, rest);
                let a = reach_attr(s[0], full_reach(value, afi, safi, nlri));
                assert(x == a + rest);
                assert(kept_attrs(x) =~= kept_attrs(rest));
                assert(kept_attrs(s) =~= kept_attrs(tail));
            } else {
                assert(x == s.take(total) + rest);
                lemma_attr_extent_prefix(s, total, rest);
                assert(x.subrange(header, total) == value);
                assert(kept_attrs(x) =~= kept_attrs(s));
            }
        },
    }
}

} // verus!
