//! Laws of the values of path attributes: where the numbers stand that a query
//! goes by.
use vstd::prelude::*;

use crate::attrs::{communities_value, large_value, origin_value, otc_value, path_end, path_is_sound};
use crate::pamap::{first_value, last_value};

verus! {

/// The number that four octets from a place on hold.
pub open spec fn number_at(v: Seq<u8>, at: int) -> u32 {
    (v[at] * 16777216 + v[at + 1] * 65536 + v[at + 2] * 256 + v[at + 3]) as u32
}

/// The AS that may hand a route on only to customers is the number of four
/// octets; a value of another length names none.
pub proof fn an_otc_value_is_one_number(v: Seq<u8>)
    ensures
        v.len() == 4 ==> otc_value(v) == Some(number_at(v, 0)),
        v.len() != 4 ==> otc_value(v) is None,
{
}

/// Communities are four octets each, and none is left over.
pub proof fn communities_are_four_octets_each(v: Seq<u8>, i: int)
    ensures
        v.len() % 4 != 0 ==> communities_value(v) is None,
        v.len() % 4 == 0 ==> communities_value(v) is Some && communities_value(v)->Some_0.len() == v.len() / 4,
        v.len() % 4 == 0 && 0 <= i < v.len() / 4 ==> communities_value(v)->Some_0[i] == number_at(v, 4 * i),
{
}

/// Large communities are three times four octets each, and none is left over.
pub proof fn large_communities_are_twelve_octets_each(v: Seq<u8>, i: int)
    ensures
        v.len() % 12 != 0 ==> large_value(v) is None,
        v.len() % 12 == 0 ==> large_value(v) is Some && large_value(v)->Some_0.len() == v.len() / 12,
        v.len() % 12 == 0 && 0 <= i < v.len() / 12 ==> large_value(v)->Some_0[i] == (
            number_at(v, 12 * i),
            number_at(v, 12 * i + 4),
            number_at(v, 12 * i + 8),
        ),
{
}

/// A segment of an AS_PATH: its type, the number of its ASes, and these.
pub open spec fn segment(kind: u8, octets: Seq<u8>, wide: bool) -> Seq<u8> {
    seq![kind, (octets.len() / (if wide { 4nat } else { 2 })) as u8] + octets
}

/// Whether octets are those of some ASes, as many as a segment can have.
pub open spec fn are_ases(octets: Seq<u8>, wide: bool) -> bool {
    if wide {
        octets.len() % 4 == 0 && octets.len() <= 1020
    } else {
        octets.len() % 2 == 0 && octets.len() <= 510
    }
}

/// A route originates at the last AS of its AS_PATH, if that ends with a
/// sequence of ASes; not with another kind of segment, or an empty one.
#[verifier::spinoff_prover]
pub proof fn a_route_originates_at_the_last_as(kind: u8, octets: Seq<u8>, wide: bool)
    requires
        1 <= kind <= 4,
        are_ases(octets, wide),
    ensures
        kind == 2 && octets.len() > 0 && wide ==> origin_value(segment(kind, octets, wide), wide) == Some(
            number_at(octets, octets.len() - 4),
        ),
        kind == 2 && octets.len() > 0 && !wide ==> origin_value(segment(kind, octets, wide), wide) == Some(
            (octets[octets.len() - 2] * 256 + octets[octets.len() - 1]) as u32,
        ),
        kind != 2 || octets.len() == 0 ==> origin_value(segment(kind, octets, wide), wide) is None,
{
    let s = segment(kind, octets, wide);
    lemma_segment(kind, octets, wide, Seq::empty());
    assert(s + Seq::<u8>::empty() =~= s);
    assert(s.skip(s.len() as int) =~= Seq::<u8>::empty());
    reveal_with_fuel(path_is_sound, 2);
    reveal_with_fuel(path_end, 2);
}

/// What comes before the last segment makes no difference.
pub proof fn earlier_segments_make_no_difference(kind: u8, octets: Seq<u8>, wide: bool, rest: Seq<u8>)
    requires
        1 <= kind <= 4,
        are_ases(octets, wide),
        rest.len() > 0,
    ensures
        origin_value(segment(kind, octets, wide) + rest, wide) == origin_value(rest, wide),
{
    lemma_segment(kind, octets, wide, rest);
}

/// A segment in front of others is as long as it says.
proof fn lemma_segment(kind: u8, octets: Seq<u8>, wide: bool, rest: Seq<u8>)
    requires
        are_ases(octets, wide),
    ensures
        ({
            let v = segment(kind, octets, wide) + rest;
            &&& v[0] == kind
            &&& (if wide { 4 * v[1] } else { 2 * v[1] }) == octets.len()
            &&& v.len() == 2 + octets.len() + rest.len()
            &&& v.skip(2 + octets.len() as int) == rest
            &&& v.subrange(2, 2 + octets.len() as int) == octets
        }),
{
    let v = segment(kind, octets, wide) + rest;
    assert(v.skip(2 + octets.len() as int) =~= rest);
    assert(v.subrange(2, 2 + octets.len() as int) =~= octets);
}

/// Of several attributes of a type the first one counts, or the last one,
/// where that is asked for; of none there is no value.
pub proof fn the_first_or_the_last_attribute_counts(list: Seq<(u8, Seq<u8>)>, code: u8, j: int)
    requires
        0 <= j <= list.len(),
        forall|i: int| 0 <= i < j ==> (#[trigger] list[i]).0 != code,
        j < list.len() ==> list[j].0 == code,
    ensures
        j < list.len() ==> first_value(list, code) == Some(list[j].1),
        j == list.len() ==> first_value(list, code) is None && last_value(list, code) is None,
        j < list.len() && (forall|i: int| j < i < list.len() ==> (#[trigger] list[i]).0 != code) ==> last_value(list, code)
            == Some(list[j].1),
    decreases list.len(),
{
    if list.len() > 0 {
        let rest = list.drop_last();
        assert(list.last() == list[list.len() - 1]);
        assert forall|i: int| 0 <= i < j && i < rest.len() implies (#[trigger] rest[i]).0 != code by {
            assert(rest[i] == list[i]);
        }
        if j < rest.len() {
            assert(rest[j] == list[j]);
            the_first_or_the_last_attribute_counts(rest, code, j);
            if forall|i: int| j < i < list.len() ==> (#[trigger] list[i]).0 != code {
                assert forall|i: int| j < i < rest.len() implies (#[trigger] rest[i]).0 != code by {
                    assert(rest[i] == list[i]);
                }
            }
        } else {
            the_first_or_the_last_attribute_counts(rest, code, rest.len() as int);
        }
    }
}

} // verus!
