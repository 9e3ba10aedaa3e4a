//! Laws of texts: which characters stand for octets and numbers, and how a
//! router is named.
use vstd::prelude::*;

use crate::emit::label_of;
use crate::filter::source_of;
use crate::ingress::IngressInfo;
use crate::text::{colon_hex, decimal, dotted, escaped, hex_digit, hex_text, opt_text};
use crate::types::{IngressId, IngressType};

verus! {

/// The value of a digit, lower-case letters among them.
pub open spec fn value_of(c: char) -> int {
    if '0' <= c <= '9' {
        c as int - '0' as int
    } else {
        c as int - 'a' as int + 10
    }
}

/// Whether a character is a digit below sixteen, in lower case.
pub open spec fn is_hex(c: char) -> bool {
    '0' <= c <= '9' || 'a' <= c <= 'f'
}

/// A digit stands for its number.
pub proof fn a_digit_stands_for_its_number(n: int)
    requires
        0 <= n < 16,
    ensures
        is_hex(hex_digit(n)),
        value_of(hex_digit(n)) == n,
        n < 10 ==> '0' <= hex_digit(n) <= '9',
{
}

/// Whether two digits from a place on stand for an octet, the greater one
/// first.
pub open spec fn writes(text: Seq<char>, at: int, octet: u8) -> bool {
    &&& is_hex(text[at])
    &&& is_hex(text[at + 1])
    &&& 16 * value_of(text[at]) + value_of(text[at + 1]) == octet
}

/// Each octet is written with two digits.
pub proof fn octets_are_written_with_two_digits(b: Seq<u8>)
    ensures
        hex_text(b).len() == 2 * b.len(),
        forall|i: int| 0 <= i < b.len() ==> writes(hex_text(b), 2 * i, #[trigger] b[i]),
    decreases b.len(),
{
    if b.len() > 0 {
        let rest = b.drop_last();
        octets_are_written_with_two_digits(rest);
        let t = hex_text(b);
        let u = hex_text(rest);
        let last = b.last() as int;
        a_digit_stands_for_its_number(last / 16);
        a_digit_stands_for_its_number(last % 16);
        assert forall|i: int| 0 <= i < b.len() implies writes(t, 2 * i, #[trigger] b[i]) by {
            if i < rest.len() {
                assert(writes(u, 2 * i, rest[i]));
                assert(t[2 * i] == u[2 * i]);
                assert(t[2 * i + 1] == u[2 * i + 1]);
            } else {
                assert(t[2 * i] == hex_digit(last / 16));
                assert(t[2 * i + 1] == hex_digit(last % 16));
            }
        }
    }
}

/// Octets of a MAC are written with two digits each, and colons in between.
pub proof fn colons_stand_between_octets(b: Seq<u8>)
    requires
        b.len() > 0,
    ensures
        colon_hex(b).len() == 3 * b.len() - 1,
        forall|i: int| 0 <= i < b.len() ==> writes(colon_hex(b), 3 * i, #[trigger] b[i]),
        forall|i: int| 0 < i < b.len() ==> #[trigger] colon_before(colon_hex(b), i),
    decreases b.len(),
{
    let t = colon_hex(b);
    let one = seq![b.last()];
    octets_are_written_with_two_digits(one);
    let h = hex_text(one);
    assert(writes(h, 0, one[0]));
    if b.len() == 1 {
        assert(one =~= b);
    } else {
        let rest = b.drop_last();
        colons_stand_between_octets(rest);
        let u = colon_hex(rest);
        assert(t == u + seq![':'] + h);
        assert forall|i: int| 0 <= i < b.len() implies writes(t, 3 * i, #[trigger] b[i]) by {
            if i < rest.len() {
                assert(writes(u, 3 * i, rest[i]));
                assert(t[3 * i] == u[3 * i]);
                assert(t[3 * i + 1] == u[3 * i + 1]);
            } else {
                assert(t[3 * i] == h[0]);
                assert(t[3 * i + 1] == h[1]);
            }
        }
        assert forall|i: int| 0 < i < b.len() implies #[trigger] colon_before(t, i) by {
            if i < rest.len() {
                assert(colon_before(u, i));
                assert(t[3 * i - 1] == u[3 * i - 1]);
            } else {
                assert(t[3 * i - 1] == ':');
            }
        }
    }
}

/// Whether a colon stands in front of the digits of an octet.
pub open spec fn colon_before(text: Seq<char>, i: int) -> bool {
    text[3 * i - 1] == ':'
}

/// The number that decimal digits stand for.
pub open spec fn number_of(s: Seq<char>) -> int
    decreases s.len(),
{
    if s.len() == 0 {
        0
    } else {
        10 * number_of(s.drop_last()) + (s.last() as int - '0' as int)
    }
}

/// The digits of a number stand for it, and none is there for nothing.
pub proof fn digits_stand_for_the_number(n: nat)
    ensures
        decimal(n).len() > 0,
        number_of(decimal(n)) == n,
        forall|i: int| 0 <= i < decimal(n).len() ==> '0' <= #[trigger] decimal(n)[i] <= '9',
        n > 0 ==> decimal(n)[0] != '0',
    decreases n,
{
    let t = decimal(n);
    if n < 10 {
        a_digit_stands_for_its_number(n as int);
        assert(t.drop_last() =~= Seq::<char>::empty());
        assert(number_of(t.drop_last()) == 0);
    } else {
        digits_stand_for_the_number(n / 10);
        a_digit_stands_for_its_number((n % 10) as int);
        assert(t.drop_last() =~= decimal(n / 10));
        assert(n == 10 * (n / 10) + n % 10);
        assert forall|i: int| 0 <= i < t.len() implies '0' <= #[trigger] t[i] <= '9' by {
            if i < decimal(n / 10).len() {
                assert(t[i] == decimal(n / 10)[i]);
            }
        }
        assert(t[0] == decimal(n / 10)[0]);
    }
}

/// An address is written as four numbers with dots in between.
pub proof fn dots_stand_between_octets(b: Seq<u8>)
    requires
        b.len() == 4,
    ensures
        dotted(b) == decimal(b[0] as nat) + seq!['.'] + decimal(b[1] as nat) + seq!['.'] + decimal(b[2] as nat) + seq![
            '.',
        ] + decimal(b[3] as nat),
{
}

/// Whether a text tells something, and is not what stands for nothing.
pub open spec fn tells(text: Option<String>, nothing: Seq<char>) -> bool {
    text matches Some(s) && s@.len() > 0 && s@ != nothing
}

/// A peer is labelled with what its router tells of itself, where that is to
/// be forwarded: with its name, with its description, or with both; texts
/// that stand for nothing are left out.
pub proof fn a_peer_is_labelled_with_its_router(
    infos: Map<IngressId, IngressInfo>,
    info: IngressInfo,
    forward: bool,
    router: IngressId,
)
    requires
        info.parent_ingress == Some(router),
    ensures
        ({
            let label = label_of(infos, info, forward);
            let parent = infos[router];
            let name = tells(parent.name, "no-sysname"@);
            let desc = tells(parent.desc, "no-sysdesc"@);
            &&& !forward || !infos.contains_key(router) || !name && !desc ==> label is None
            &&& forward && infos.contains_key(router) && name && !desc ==> label == Some(
                "{"@ + "\"sysName\":\""@ + escaped(parent.name->Some_0@) + "\""@ + "}"@,
            )
            &&& forward && infos.contains_key(router) && !name && desc ==> label == Some(
                "{"@ + "\"sysDescr\":\""@ + escaped(parent.desc->Some_0@) + "\""@ + "}"@,
            )
            &&& forward && infos.contains_key(router) && name && desc ==> label == Some(
                "{"@ + "\"sysName\":\""@ + escaped(parent.name->Some_0@) + "\""@ + ","@ + "\"sysDescr\":\""@ + escaped(
                    parent.desc->Some_0@,
                ) + "\""@ + "}"@,
            )
        }),
{
    assert(opt_text(infos[router].name) is Some == infos[router].name is Some);
}

/// An ingress without a router is not labelled.
pub proof fn a_peer_without_a_router_is_not_labelled(
    infos: Map<IngressId, IngressInfo>,
    info: IngressInfo,
    forward: bool,
)
    requires
        info.parent_ingress is None,
    ensures
        label_of(infos, info, forward) is None,
{
}

/// A route of a path is shown as one of its session, with its path id; any
/// other as one of its own ingress, with none.
pub proof fn a_route_is_shown_as_one_of_its_session(id: IngressId, info: Option<IngressInfo>)
    ensures
        ({
            let s = source_of(id, info);
            let path = info matches Some(i) && i.ingress_type == Some(IngressType::BgpPath);
            &&& path ==> s.path_id == info->Some_0.path_id && s.internal_path_ingress_id == Some(id)
            &&& path && info->Some_0.parent_ingress is Some ==> Some(s.ingress_id) == info->Some_0.parent_ingress
            &&& path && info->Some_0.parent_ingress is None ==> s.ingress_id == id
            &&& !path ==> s.ingress_id == id && s.path_id is None && s.internal_path_ingress_id is None
        }),
{
}

} // verus!
