//! Big-endian byte encoding and the framing shared by BMP and BGP messages.
use vstd::prelude::*;

verus! {

/// The two low-order octets of `n`, most significant first.
pub open spec fn be16(n: int) -> Seq<u8> {
    seq![((n / 256) % 256) as u8, (n % 256) as u8]
}

/// The four low-order octets of `n`, most significant first.
pub open spec fn be32(n: int) -> Seq<u8> {
    seq![
        ((n / 16777216) % 256) as u8,
        ((n / 65536) % 256) as u8,
        ((n / 256) % 256) as u8,
        (n % 256) as u8,
    ]
}

/// The eight low-order octets of `n`, most significant first.
pub open spec fn be64(n: int) -> Seq<u8> {
    be32(n / 4294967296) + be32(n)
}

/// The number that two octets at `at` spell, most significant first.
pub open spec fn get16(s: Seq<u8>, at: int) -> int {
    s[at] * 256 + s[at + 1]
}

/// The number that four octets at `at` spell, most significant first.
pub open spec fn get32(s: Seq<u8>, at: int) -> int {
    s[at] * 16777216 + s[at + 1] * 65536 + s[at + 2] * 256 + s[at + 3]
}

/// `n` zero octets.
pub open spec fn zeros(n: nat) -> Seq<u8> {
    Seq::new(n, |i: int| 0u8)
}

/// Appends the two low-order octets of `n`.
pub fn push_be16(buf: &mut Vec<u8>, n: usize)
    ensures
        final(buf)@ == old(buf)@ + be16(n as int),
{
    buf.push(((n / 256) % 256) as u8);
    buf.push((n % 256) as u8);
    assert(buf@ =~= old(buf)@ + be16(n as int));
}

/// Appends the four octets of `n`.
pub fn push_be32(buf: &mut Vec<u8>, n: u32)
    ensures
        final(buf)@ == old(buf)@ + be32(n as int),
{
    buf.push(((n / 16777216) % 256) as u8);
    buf.push(((n / 65536) % 256) as u8);
    buf.push(((n / 256) % 256) as u8);
    buf.push((n % 256) as u8);
    assert(buf@ =~= old(buf)@ + be32(n as int));
}

/// Appends every octet of `bytes`.
pub fn push_bytes(buf: &mut Vec<u8>, bytes: &[u8])
    ensures
        final(buf)@ == old(buf)@ + bytes@,
{
    buf.extend_from_slice(bytes);
    assert(buf@ =~= old(buf)@ + bytes@);
}

/// Appends `n` zero octets.
pub fn push_zeros(buf: &mut Vec<u8>, n: usize)
    ensures
        final(buf)@ == old(buf)@ + zeros(n as nat),
{
    let mut i: usize = 0;
    while i < n
        invariant
            i <= n,
            buf@ == old(buf)@ + zeros(i as nat),
        decreases n - i,
    {
        buf.push(0);
        i = i + 1;
        assert(buf@ =~= old(buf)@ + zeros(i as nat));
    }
}

/// Reads the two octets at `at`.
pub fn read_be16(s: &[u8], at: usize) -> (n: u16)
    requires
        at + 2 <= s@.len(),
    ensures
        n == get16(s@, at as int),
{
    s[at] as u16 * 256 + s[at + 1] as u16
}

/// Reads the four octets at `at`.
pub fn read_be32(s: &[u8], at: usize) -> (n: u32)
    requires
        at + 4 <= s@.len(),
    ensures
        n == get32(s@, at as int),
{
    s[at] as u32 * 16777216 + s[at + 1] as u32 * 65536 + s[at + 2] as u32 * 256 + s[at + 3] as u32
}

/// Copies `s[from..to]` into a vector of its own.
pub fn copy_range(s: &[u8], from: usize, to: usize) -> (r: Vec<u8>)
    requires
        from <= to <= s@.len(),
    ensures
        r@ == s@.subrange(from as int, to as int),
{
    let mut r: Vec<u8> = Vec::new();
    push_bytes(&mut r, &s[from..to]);
    assert(r@ =~= s@.subrange(from as int, to as int));
    r
}

/// Whether two byte strings are equal.
pub fn bytes_equal(a: &[u8], b: &[u8]) -> (r: bool)
    ensures
        r == (a@ == b@),
{
    if a.len() != b.len() {
        return false;
    }
    let mut i: usize = 0;
    while i < a.len()
        invariant
            i <= a@.len(),
            a@.len() == b@.len(),
            forall|j: int| 0 <= j < i ==> a@[j] == b@[j],
        decreases a@.len() - i,
    {
        if a[i] != b[i] {
            return false;
        }
        i = i + 1;
    }
    assert(a@ =~= b@);
    true
}

/// A BMP message: version 3, the length of the whole message, its type and
/// its body.
pub open spec fn bmp_message_bytes(msg_type: u8, body: Seq<u8>) -> Seq<u8> {
    seq![3u8] + be32(6 + body.len() as int) + seq![msg_type] + body
}

/// Assembles the common header and the body of a BMP message.
pub fn bmp_message(msg_type: u8, body: &[u8]) -> (r: Vec<u8>)
    ensures
        r@ == bmp_message_bytes(msg_type, body@),
{
    let mut buf: Vec<u8> = Vec::new();
    buf.push(3);
    push_zeros(&mut buf, 4);
    buf.push(msg_type);
    push_bytes(&mut buf, body);
    let n: usize = buf.len();
    assert(n == 6 + body@.len());
    buf.set(1, ((n / 16777216) % 256) as u8);
    buf.set(2, ((n / 65536) % 256) as u8);
    buf.set(3, ((n / 256) % 256) as u8);
    buf.set(4, (n % 256) as u8);
    assert(buf@ =~= bmp_message_bytes(msg_type, body@));
    buf
}

/// The sixteen all-ones octets that open every BGP message.
pub open spec fn bgp_marker() -> Seq<u8> {
    Seq::new(16, |i: int| 255u8)
}

/// A BGP message: marker, the length of the whole message, type, body.
pub open spec fn bgp_message_bytes(msg_type: u8, body: Seq<u8>) -> Seq<u8> {
    bgp_marker() + be16(19 + body.len() as int) + seq![msg_type] + body
}

/// Assembles the header and the body of a BGP message.
pub fn bgp_message(msg_type: u8, body: &[u8]) -> (r: Vec<u8>)
    ensures
        r@ == bgp_message_bytes(msg_type, body@),
{
    let mut buf: Vec<u8> = Vec::new();
    let mut i: usize = 0;
    while i < 16
        invariant
            i <= 16,
            buf@ == Seq::new(i as nat, |k: int| 255u8),
        decreases 16 - i,
    {
        buf.push(255);
        i = i + 1;
        assert(buf@ =~= Seq::new(i as nat, |k: int| 255u8));
    }
    buf.push(0);
    buf.push(0);
    buf.push(msg_type);
    push_bytes(&mut buf, body);
    let n: usize = buf.len();
    assert(n == 19 + body@.len());
    buf.set(16, ((n / 256) % 256) as u8);
    buf.set(17, (n % 256) as u8);
    assert(buf@ =~= bgp_message_bytes(msg_type, body@));
    buf
}

/// The body of a BGP UPDATE: withdrawn routes, path attributes, NLRI.
pub open spec fn update_body_bytes(withdrawn: Seq<u8>, attrs: Seq<u8>, nlri: Seq<u8>) -> Seq<u8> {
    be16(withdrawn.len() as int) + withdrawn + be16(attrs.len() as int) + attrs + nlri
}

/// A BGP UPDATE carrying the given withdrawn routes, attributes and NLRI.
pub open spec fn update_bytes(withdrawn: Seq<u8>, attrs: Seq<u8>, nlri: Seq<u8>) -> Seq<u8> {
    bgp_message_bytes(2, update_body_bytes(withdrawn, attrs, nlri))
}

/// Assembles a BGP UPDATE.
pub fn bgp_update(withdrawn: &[u8], attrs: &[u8], nlri: &[u8]) -> (r: Vec<u8>)
    ensures
        r@ == update_bytes(withdrawn@, attrs@, nlri@),
{
    let mut body: Vec<u8> = Vec::new();
    push_be16(&mut body, withdrawn.len());
    push_bytes(&mut body, withdrawn);
    push_be16(&mut body, attrs.len());
    push_bytes(&mut body, attrs);
    push_bytes(&mut body, nlri);
    assert(body@ =~= update_body_bytes(withdrawn@, attrs@, nlri@));
    bgp_message(2, &body)
}

/// A type-length-value element with two-octet type and length, as BMP's
/// information elements are laid out.
pub open spec fn tlv_bytes(kind: int, value: Seq<u8>) -> Seq<u8> {
    be16(kind) + be16(value.len() as int) + value
}

/// Appends a type-length-value element.
pub fn push_tlv(buf: &mut Vec<u8>, kind: usize, value: &[u8])
    ensures
        final(buf)@ == old(buf)@ + tlv_bytes(kind as int, value@),
{
    push_be16(buf, kind);
    push_be16(buf, value.len());
    push_bytes(buf, value);
    assert(buf@ =~= old(buf)@ + tlv_bytes(kind as int, value@));
}

/// An optional path attribute: the extended-length form when the value
/// needs it, else the one-octet form.
pub open spec fn optional_attr_bytes(type_code: u8, value: Seq<u8>) -> Seq<u8> {
    if value.len() > 255 {
        seq![0x90u8, type_code] + be16(value.len() as int) + value
    } else {
        seq![0x80u8, type_code, value.len() as u8] + value
    }
}

/// Assembles an optional path attribute.
pub fn optional_attr(type_code: u8, value: &[u8]) -> (r: Vec<u8>)
    ensures
        r@ == optional_attr_bytes(type_code, value@),
{
    let mut buf: Vec<u8> = Vec::new();
    if value.len() > 255 {
        buf.push(0x90);
        buf.push(type_code);
        push_be16(&mut buf, value.len());
    } else {
        buf.push(0x80);
        buf.push(type_code);
        buf.push(value.len() as u8);
    }
    push_bytes(&mut buf, value);
    assert(buf@ =~= optional_attr_bytes(type_code, value@));
    buf
}

/// An optional path attribute that always has the extended-length form.
pub open spec fn extended_attr_bytes(type_code: u8, value: Seq<u8>) -> Seq<u8> {
    seq![0x90u8, type_code] + be16(value.len() as int) + value
}

/// Assembles an optional path attribute in extended-length form.
pub fn extended_attr(type_code: u8, value: &[u8]) -> (r: Vec<u8>)
    ensures
        r@ == extended_attr_bytes(type_code, value@),
{
    let mut buf: Vec<u8> = Vec::new();
    buf.push(0x90);
    buf.push(type_code);
    push_be16(&mut buf, value.len());
    push_bytes(&mut buf, value);
    assert(buf@ =~= extended_attr_bytes(type_code, value@));
    buf
}

/// The length field of a BMP message tells the length of the message, for
/// every message whose length four octets can tell.
pub proof fn bmp_length_field_is_message_length(msg_type: u8, body: Seq<u8>)
    requires
        6 + body.len() <= u32::MAX,
    ensures
        bmp_message_bytes(msg_type, body).len() == 6 + body.len(),
        get32(bmp_message_bytes(msg_type, body), 1) == bmp_message_bytes(msg_type, body).len(),
        bmp_message_bytes(msg_type, body)[0] == 3,
        bmp_message_bytes(msg_type, body)[5] == msg_type,
        bmp_message_bytes(msg_type, body).skip(6) == body,
{
    lemma_be32_roundtrip(6 + body.len() as int);
    let m = bmp_message_bytes(msg_type, body);
    assert(m.skip(6) =~= body);
}

/// The length field of a BGP message tells the length of the message, for
/// every message whose length two octets can tell.
pub proof fn bgp_length_field_is_message_length(msg_type: u8, body: Seq<u8>)
    requires
        19 + body.len() <= u16::MAX,
    ensures
        bgp_message_bytes(msg_type, body).len() == 19 + body.len(),
        get16(bgp_message_bytes(msg_type, body), 16) == bgp_message_bytes(msg_type, body).len(),
        bgp_message_bytes(msg_type, body)[18] == msg_type,
        bgp_message_bytes(msg_type, body).skip(19) == body,
{
    let m = bgp_message_bytes(msg_type, body);
    assert(m.skip(19) =~= body);
}

/// Reading back what `be32` wrote gives the number, if four octets hold it.
pub proof fn lemma_be32_roundtrip(n: int)
    requires
        0 <= n <= u32::MAX,
    ensures
        be32(n).len() == 4,
        get32(be32(n), 0) == n,
{
    assert(n == (n / 16777216) * 16777216 + ((n / 65536) % 256) * 65536 + ((n / 256) % 256) * 256
        + n % 256) by {
        assert(n / 65536 == (n / 16777216) * 256 + (n / 65536) % 256);
        assert(n / 256 == (n / 65536) * 256 + (n / 256) % 256);
        assert(n == (n / 256) * 256 + n % 256);
    }
}

} // verus!
