//! Text: characters appended to strings, hexadecimal digits, JSON escapes.
use vstd::prelude::*;
use vstd::utf8::*;

use crate::wire::bytes_equal;

verus! {

/// Appends a character, by `String::push`.
#[verifier::external_body]
pub(crate) fn push_char(s: &mut String, c: char)
    ensures
        final(s)@ == old(s)@.push(c),
{
    s.push(c)
}

/// Whether two strings are equal.
pub fn str_equal(a: &str, b: &str) -> (r: bool)
    ensures
        r == (a@ == b@),
{
    let r = bytes_equal(a.as_bytes(), b.as_bytes());
    proof {
        encode_utf8_decode_utf8(a@);
        encode_utf8_decode_utf8(b@);
    }
    r
}

/// The lower-case hexadecimal digit for a number below sixteen.
pub open spec fn hex_digit(n: int) -> char {
    if n == 0 {
        '0'
    } else if n == 1 {
        '1'
    } else if n == 2 {
        '2'
    } else if n == 3 {
        '3'
    } else if n == 4 {
        '4'
    } else if n == 5 {
        '5'
    } else if n == 6 {
        '6'
    } else if n == 7 {
        '7'
    } else if n == 8 {
        '8'
    } else if n == 9 {
        '9'
    } else if n == 10 {
        'a'
    } else if n == 11 {
        'b'
    } else if n == 12 {
        'c'
    } else if n == 13 {
        'd'
    } else if n == 14 {
        'e'
    } else {
        'f'
    }
}

/// The hexadecimal digit for a number below sixteen.
pub fn to_hex_digit(n: u8) -> (r: char)
    ensures
        r == hex_digit(n as int),
{
    match n {
        0 => '0',
        1 => '1',
        2 => '2',
        3 => '3',
        4 => '4',
        5 => '5',
        6 => '6',
        7 => '7',
        8 => '8',
        9 => '9',
        10 => 'a',
        11 => 'b',
        12 => 'c',
        13 => 'd',
        14 => 'e',
        _ => 'f',
    }
}

/// Two hexadecimal digits for each octet.
pub open spec fn hex_text(bytes: Seq<u8>) -> Seq<char>
    decreases bytes.len(),
{
    if bytes.len() == 0 {
        Seq::empty()
    } else {
        hex_text(bytes.drop_last()).push(hex_digit(bytes.last() as int / 16)).push(
            hex_digit(bytes.last() as int % 16),
        )
    }
}

/// Two hexadecimal digits for each octet.
pub fn hex(bytes: &[u8]) -> (r: String)
    ensures
        r@ == hex_text(bytes@),
{
    let mut r = String::new();
    let mut i: usize = 0;
    assert(bytes@.take(0) =~= Seq::empty());
    while i < bytes.len()
        invariant
            i <= bytes@.len(),
            r@ == hex_text(bytes@.take(i as int)),
        decreases bytes@.len() - i,
    {
        assert(bytes@.take(i + 1).drop_last() =~= bytes@.take(i as int));
        push_char(&mut r, to_hex_digit(bytes[i] / 16));
        push_char(&mut r, to_hex_digit(bytes[i] % 16));
        i = i + 1;
    }
    assert(bytes@.take(i as int) =~= bytes@);
    r
}

/// Whether a character is a control character.
pub open spec fn is_control(c: char) -> bool {
    c as int <= 0x1f || 0x7f <= c as int <= 0x9f
}

/// A character as it stands in a JSON string.
pub open spec fn escaped_char(c: char) -> Seq<char> {
    if c == '"' {
        seq!['\\', '"']
    } else if c == '\\' {
        seq!['\\', '\\']
    } else if c == '\n' {
        seq!['\\', 'n']
    } else if c == '\r' {
        seq!['\\', 'r']
    } else if c == '\t' {
        seq!['\\', 't']
    } else if is_control(c) {
        seq!['\\', 'u', '0', '0', hex_digit(c as int / 16), hex_digit(c as int % 16)]
    } else {
        seq![c]
    }
}

/// A text as it stands in a JSON string.
pub open spec fn escaped(s: Seq<char>) -> Seq<char>
    decreases s.len(),
{
    if s.len() == 0 {
        Seq::empty()
    } else {
        escaped(s.drop_last()) + escaped_char(s.last())
    }
}

/// Escapes a string for JSON: quotes, backslashes and control characters.
pub fn escape_json_string(s: &str) -> (r: String)
    ensures
        r@ == escaped(s@),
{
    let mut out = String::new();
    let n: usize = s.unicode_len();
    let mut i: usize = 0;
    assert(s@.take(0) =~= Seq::empty());
    while i < n
        invariant
            i <= n,
            n == s@.len(),
            out@ == escaped(s@.take(i as int)),
        decreases n - i,
    {
        let c: char = s.get_char(i);
        let ghost before = out@;
        assert(s@.take(i + 1).drop_last() =~= s@.take(i as int));
        let code: u32 = c as u32;
        if c == '"' || c == '\\' {
            push_char(&mut out, '\\');
            push_char(&mut out, c);
        } else if c == '\n' {
            push_char(&mut out, '\\');
            push_char(&mut out, 'n');
        } else if c == '\r' {
            push_char(&mut out, '\\');
            push_char(&mut out, 'r');
        } else if c == '\t' {
            push_char(&mut out, '\\');
            push_char(&mut out, 't');
        } else if code <= 0x1f || (0x7f <= code && code <= 0x9f) {
            push_char(&mut out, '\\');
            push_char(&mut out, 'u');
            push_char(&mut out, '0');
            push_char(&mut out, '0');
            push_char(&mut out, to_hex_digit((code / 16) as u8));
            push_char(&mut out, to_hex_digit((code % 16) as u8));
        } else {
            push_char(&mut out, c);
        }
        assert(out@ =~= before + escaped_char(c));
        i = i + 1;
    }
    assert(s@.take(i as int) =~= s@);
    out
}

/// The number that a hexadecimal digit stands for.
pub open spec fn digit_value(c: char) -> Option<int> {
    if '0' <= c <= '9' {
        Some(c as int - '0' as int)
    } else if 'a' <= c <= 'f' {
        Some(c as int - 'a' as int + 10)
    } else if 'A' <= c <= 'F' {
        Some(c as int - 'A' as int + 10)
    } else {
        None
    }
}

/// The code of a character in four hexadecimal digits, unless it is one half
/// of a pair.
pub open spec fn code_of(s: Seq<char>) -> Option<int> {
    match (digit_value(s[0]), digit_value(s[1]), digit_value(s[2]), digit_value(s[3])) {
        (Some(a), Some(b), Some(c), Some(d)) => {
            let n = ((a * 16 + b) * 16 + c) * 16 + d;
            if 0xd800 <= n <= 0xdfff {
                None
            } else {
                Some(n)
            }
        },
        _ => None,
    }
}

/// The character that an escape of two characters stands for.
pub open spec fn short_escape(c: char) -> Option<char> {
    if c == '"' || c == '\\' || c == '/' {
        Some(c)
    } else if c == 'n' {
        Some('\n')
    } else if c == 'r' {
        Some('\r')
    } else if c == 't' {
        Some('\t')
    } else if c == 'b' {
        Some(8 as char)
    } else if c == 'f' {
        Some(12 as char)
    } else {
        None
    }
}

/// `c` before a text, if there is one.
pub open spec fn before_text(c: char, rest: Option<Seq<char>>) -> Option<Seq<char>> {
    match rest {
        Some(t) => Some(seq![c] + t),
        None => None,
    }
}

/// What a JSON reader makes of what stands in a JSON string, if it accepts
/// it. Pairs of escapes are not read.
pub open spec fn read_json(s: Seq<char>) -> Option<Seq<char>>
    decreases s.len(),
{
    if s.len() == 0 {
        Some(Seq::empty())
    } else if s[0] == '\\' {
        if s.len() >= 6 && s[1] == 'u' {
            match code_of(s.subrange(2, 6)) {
                Some(n) => before_text(n as char, read_json(s.skip(6))),
                None => None,
            }
        } else if s.len() >= 2 {
            match short_escape(s[1]) {
                Some(c) => before_text(c, read_json(s.skip(2))),
                None => None,
            }
        } else {
            None
        }
    } else if s[0] == '"' || s[0] as int <= 0x1f {
        None
    } else {
        before_text(s[0], read_json(s.skip(1)))
    }
}

/// Escaping goes character by character, also from the front.
proof fn lemma_escaped_front(c: char, t: Seq<char>)
    ensures
        escaped(seq![c] + t) == escaped_char(c) + escaped(t),
    decreases t.len(),
{
    let s = seq![c] + t;
    assert(s.last() == (if t.len() == 0 {
        c
    } else {
        t.last()
    }));
    if t.len() == 0 {
        assert(s.drop_last() =~= Seq::empty());
        assert(t =~= Seq::empty());
        assert(escaped(t) =~= Seq::empty());
        assert(escaped(s) =~= escaped_char(c));
    } else {
        let (x, y, z) = (escaped_char(c), escaped(t.drop_last()), escaped_char(t.last()));
        lemma_escaped_front(c, t.drop_last());
        assert(s.drop_last() =~= seq![c] + t.drop_last());
        assert(escaped(s) == x + y + z);
        assert(x + y + z =~= x + (y + z));
    }
}

/// A reader takes an escaped character for the character.
proof fn lemma_read_char(c: char, t: Seq<char>)
    ensures
        read_json(escaped_char(c) + t) == before_text(c, read_json(t)),
{
    let e = escaped_char(c);
    let s = e + t;
    assert(s.skip(e.len() as int) =~= t);
    if e.len() == 6 {
        let hi = c as int / 16;
        let lo = c as int % 16;
        assert(0 <= hi < 16 && 0 <= lo < 16);
        assert(digit_value(hex_digit(hi)) == Some(hi));
        assert(digit_value(hex_digit(lo)) == Some(lo));
        let four = s.subrange(2, 6);
        assert(four =~= seq!['0', '0', hex_digit(hi), hex_digit(lo)]);
        assert(code_of(four) == Some(c as int));
        assert((c as int) as char == c);
    }
}

/// What is escaped for JSON is read back as it was.
pub proof fn escaped_text_is_read_back(s: Seq<char>)
    ensures
        read_json(escaped(s)) == Some(s),
    decreases s.len(),
{
    if s.len() > 0 {
        let t = s.skip(1);
        assert(seq![s[0]] + t =~= s);
        lemma_escaped_front(s[0], t);
        escaped_text_is_read_back(t);
        lemma_read_char(s[0], escaped(t));
    }
}

/// The text that a router gave, unless it is empty or a placeholder.
pub open spec fn usable_text(text: Option<Seq<char>>, placeholder: Seq<char>) -> Option<Seq<char>> {
    match text {
        Some(s) => if s == placeholder || s.len() == 0 {
            None
        } else {
            Some(s)
        },
        None => None,
    }
}

/// The view of an optional string slice.
pub open spec fn opt_str(o: Option<&str>) -> Option<Seq<char>> {
    match o {
        Some(s) => Some(s@),
        None => None,
    }
}

/// A JSON object that names a router and describes it, as far as both are
/// known.
pub open spec fn admin_label_text(name: Option<Seq<char>>, desc: Option<Seq<char>>) -> Option<
    Seq<char>,
> {
    match (name, desc) {
        (None, None) => None,
        (Some(n), None) => Some("{"@ + "\"sysName\":\""@ + escaped(n) + "\""@ + "}"@),
        (None, Some(d)) => Some("{"@ + "\"sysDescr\":\""@ + escaped(d) + "\""@ + "}"@),
        (Some(n), Some(d)) => Some(
            "{"@ + "\"sysName\":\""@ + escaped(n) + "\""@ + ","@ + "\"sysDescr\":\""@ + escaped(d)
                + "\""@ + "}"@,
        ),
    }
}

/// The view of an optional string.
pub open spec fn opt_text(o: Option<String>) -> Option<Seq<char>> {
    match o {
        Some(s) => Some(s@),
        None => None,
    }
}

/// Builds a JSON label from the name and the description of a router.
/// Placeholders that some routers send for an unknown value count as absent;
/// with neither value there is no label.
pub fn build_admin_label_json(name: Option<&str>, desc: Option<&str>) -> (r: Option<String>)
    ensures
        opt_text(r) == admin_label_text(
            usable_text(opt_str(name), "no-sysname"@),
            usable_text(opt_str(desc), "no-sysdesc"@),
        ),
{
    let name = match name {
        Some(s) => if str_equal(s, "no-sysname") || s.is_empty() {
            None
        } else {
            Some(s)
        },
        None => None,
    };
    let desc = match desc {
        Some(s) => if str_equal(s, "no-sysdesc") || s.is_empty() {
            None
        } else {
            Some(s)
        },
        None => None,
    };
    if name.is_none() && desc.is_none() {
        return None;
    }
    let mut json = String::new();
    json.append("{");
    if let Some(n) = name {
        json.append("\"sysName\":\"");
        json.append(escape_json_string(n).as_str());
        json.append("\"");
    }
    if let Some(d) = desc {
        if name.is_some() {
            json.append(",");
        }
        json.append("\"sysDescr\":\"");
        json.append(escape_json_string(d).as_str());
        json.append("\"");
    }
    json.append("}");
    proof {
        match (name, desc) {
            (Some(n), Some(d)) => {
                assert(json@ =~= "{"@ + "\"sysName\":\""@ + escaped(n@) + "\""@ + ","@
                    + "\"sysDescr\":\""@ + escaped(d@) + "\""@ + "}"@);
            },
            (Some(n), None) => {
                assert(json@ =~= "{"@ + "\"sysName\":\""@ + escaped(n@) + "\""@ + "}"@);
            },
            (None, Some(d)) => {
                assert(json@ =~= "{"@ + "\"sysDescr\":\""@ + escaped(d@) + "\""@ + "}"@);
            },
            (None, None) => {},
        }
    }
    Some(json)
}


/// A number in decimal.
pub open spec fn decimal(n: nat) -> Seq<char>
    decreases n,
{
    if n < 10 {
        seq![hex_digit(n as int)]
    } else {
        decimal(n / 10).push(hex_digit((n % 10) as int))
    }
}

/// Appends a number in decimal.
pub fn push_decimal(s: &mut String, n: u64)
    ensures
        final(s)@ == old(s)@ + decimal(n as nat),
    decreases n,
{
    if n >= 10 {
        push_decimal(s, n / 10);
    }
    push_char(s, to_hex_digit((n % 10) as u8));
    assert(s@ =~= old(s)@ + decimal(n as nat));
}

/// Octets in hexadecimal, with a colon between each and the next.
pub open spec fn colon_hex(b: Seq<u8>) -> Seq<char>
    decreases b.len(),
{
    if b.len() == 0 {
        Seq::empty()
    } else if b.len() == 1 {
        hex_text(b)
    } else {
        colon_hex(b.drop_last()) + seq![':'] + hex_text(seq![b.last()])
    }
}

/// Octets in hexadecimal, with a colon between each and the next.
pub fn hex_with_colons(b: &[u8]) -> (r: String)
    ensures
        r@ == colon_hex(b@),
{
    let mut r = String::new();
    let mut i: usize = 0;
    assert(b@.take(0) =~= Seq::empty());
    while i < b.len()
        invariant
            i <= b@.len(),
            r@ == colon_hex(b@.take(i as int)),
        decreases b@.len() - i,
    {
        let ghost before = r@;
        let ghost t = b@.take(i + 1);
        assert(t.drop_last() =~= b@.take(i as int));
        if i > 0 {
            push_char(&mut r, ':');
        }
        push_char(&mut r, to_hex_digit(b[i] / 16));
        push_char(&mut r, to_hex_digit(b[i] % 16));
        proof {
            let one = seq![b@[i as int]];
            assert(one.drop_last() =~= Seq::<u8>::empty());
            assert(hex_text(Seq::<u8>::empty()) =~= Seq::<char>::empty());
            assert(hex_text(one) =~= seq![
                hex_digit(b@[i as int] as int / 16),
                hex_digit(b@[i as int] as int % 16),
            ]) by {
                reveal_with_fuel(hex_text, 2);
            }
            if i == 0 {
                assert(t =~= one);
                assert(r@ =~= hex_text(one));
            } else {
                assert(r@ =~= before + seq![':'] + hex_text(one));
            }
        }
        i = i + 1;
    }
    assert(b@.take(i as int) =~= b@);
    r
}

/// Four octets in dotted decimal.
pub open spec fn dotted(b: Seq<u8>) -> Seq<char> {
    decimal(b[0] as nat) + seq!['.'] + decimal(b[1] as nat) + seq!['.'] + decimal(b[2] as nat)
        + seq!['.'] + decimal(b[3] as nat)
}

/// Appends four octets in dotted decimal.
pub fn push_dotted(s: &mut String, b: &[u8])
    requires
        b@.len() == 4,
    ensures
        final(s)@ == old(s)@ + dotted(b@),
{
    push_decimal(s, b[0] as u64);
    push_char(s, '.');
    push_decimal(s, b[1] as u64);
    push_char(s, '.');
    push_decimal(s, b[2] as u64);
    push_char(s, '.');
    push_decimal(s, b[3] as u64);
    assert(s@ =~= old(s)@ + dotted(b@));
}

/// Whether a character is a decimal digit.
pub open spec fn is_digit(c: char) -> bool {
    '0' <= c <= '9'
}

proof fn lemma_decimal_digits(n: nat)
    ensures
        decimal(n).len() > 0,
        forall|i: int| 0 <= i < decimal(n).len() ==> is_digit(#[trigger] decimal(n)[i]),
    decreases n,
{
    if n >= 10 {
        lemma_decimal_digits(n / 10);
    }
}

/// No two numbers have the same digits.
pub proof fn decimal_tells_the_number(a: nat, b: nat)
    requires
        decimal(a) == decimal(b),
    ensures
        a == b,
    decreases a,
{
    lemma_decimal_digits(a / 10);
    lemma_decimal_digits(b / 10);
    assert(decimal(a).last() == decimal(b).last());
    assert(decimal(a).last() == hex_digit((a % 10) as int));
    assert(decimal(b).last() == hex_digit((b % 10) as int));
    assert(a % 10 == b % 10);
    if a >= 10 && b >= 10 {
        assert(decimal(a).drop_last() =~= decimal(a / 10));
        assert(decimal(b).drop_last() =~= decimal(b / 10));
        decimal_tells_the_number(a / 10, b / 10);
    }
}

/// A number ends where its digits end.
proof fn lemma_number_first(a: nat, b: nat, sep: char, s: Seq<char>, t: Seq<char>)
    requires
        !is_digit(sep),
        decimal(a) + seq![sep] + s == decimal(b) + seq![sep] + t,
    ensures
        a == b,
        s == t,
{
    lemma_decimal_digits(a);
    lemma_decimal_digits(b);
    let (x, y) = (decimal(a) + seq![sep] + s, decimal(b) + seq![sep] + t);
    let (n, m) = (decimal(a).len() as int, decimal(b).len() as int);
    assert(x[n] == sep && y[m] == sep);
    if n < m {
        assert(y[n] == decimal(b)[n]);
    }
    if m < n {
        assert(x[m] == decimal(a)[m]);
    }
    assert(x.take(n) =~= decimal(a));
    assert(y.take(m) =~= decimal(b));
    assert(x.skip(n + 1) =~= s);
    assert(y.skip(m + 1) =~= t);
    decimal_tells_the_number(a, b);
}

/// The parts of the text of an IPv4 prefix, from the front.
proof fn lemma_parts(a: Seq<char>, b: Seq<char>, c: Seq<char>, d: Seq<char>, n: Seq<char>)
    ensures
        a + seq!['.'] + b + seq!['.'] + c + seq!['.'] + d + seq!['/'] + n == a + seq!['.'] + (b + seq!['.'] + (c
            + seq!['.'] + (d + seq!['/'] + n))),
{
    assert(a + seq!['.'] + b + seq!['.'] + c + seq!['.'] + d + seq!['/'] + n =~= a + seq!['.'] + (b + seq!['.'] + (c
        + seq!['.'] + (d + seq!['/'] + n))));
}

/// An IPv4 prefix is known by its text.
pub proof fn dotted_prefix_tells_the_prefix(a: Seq<u8>, n: nat, b: Seq<u8>, m: nat)
    requires
        a.len() == 4,
        b.len() == 4,
        dotted(a) + seq!['/'] + decimal(n) == dotted(b) + seq!['/'] + decimal(m),
    ensures
        a == b,
        n == m,
{
    let (a0, a1, a2, a3) = (
        decimal(a[0] as nat),
        decimal(a[1] as nat),
        decimal(a[2] as nat),
        decimal(a[3] as nat),
    );
    let (b0, b1, b2, b3) = (
        decimal(b[0] as nat),
        decimal(b[1] as nat),
        decimal(b[2] as nat),
        decimal(b[3] as nat),
    );
    let (n0, m0) = (decimal(n), decimal(m));
    lemma_parts(a0, a1, a2, a3, n0);
    lemma_parts(b0, b1, b2, b3, m0);
    let (p2, q2) = (a3 + seq!['/'] + n0, b3 + seq!['/'] + m0);
    let (p1, q1) = (a2 + seq!['.'] + p2, b2 + seq!['.'] + q2);
    let (p0, q0) = (a1 + seq!['.'] + p1, b1 + seq!['.'] + q1);
    lemma_number_first(a[0] as nat, b[0] as nat, '.', p0, q0);
    lemma_number_first(a[1] as nat, b[1] as nat, '.', p1, q1);
    lemma_number_first(a[2] as nat, b[2] as nat, '.', p2, q2);
    lemma_number_first(a[3] as nat, b[3] as nat, '/', n0, m0);
    decimal_tells_the_number(n, m);
    assert(a =~= b);
}

} // verus!
