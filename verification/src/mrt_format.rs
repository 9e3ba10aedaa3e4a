//! The framing of MRT files: records, the table of peers, the entries of
//! table dumps and the BGP messages and state changes.
use vstd::prelude::*;

use crate::types::{
    padded, padded_address, prefix_octets, valid_key, AfiSafiType, IpAddress, Prefix, PrefixKey,
};
use crate::wire::{copy_range, get16, get32, push_bytes, read_be16, read_be32};

verus! {

/// Why an MRT file could not be read.
#[derive(Debug)]
pub enum MrtError {
    Io(String),
    Parse(String),
    Other(String),
}

impl MrtError {
    pub fn other(s: &str) -> (r: Self)
        ensures
            r matches MrtError::Other(t) && t@ == s@,
    {
        MrtError::Other(s.to_string())
    }

    pub fn parse(s: &str) -> (r: Self)
        ensures
            r matches MrtError::Parse(t) && t@ == s@,
    {
        MrtError::Parse(s.to_string())
    }

    /// The text of the error.
    pub open spec fn text(self) -> Seq<char> {
        match self {
            MrtError::Io(e) => "io error: "@ + e@,
            MrtError::Parse(e) => "parse error: "@ + e@,
            MrtError::Other(e) => "error: "@ + e@,
        }
    }

    pub fn message(&self) -> (r: String)
        ensures
            r@ == self.text(),
    {
        match self {
            MrtError::Io(e) => {
                let mut s = "io error: ".to_string();
                s.append(e.as_str());
                s
            },
            MrtError::Parse(e) => {
                let mut s = "parse error: ".to_string();
                s.append(e.as_str());
                s
            },
            MrtError::Other(e) => {
                let mut s = "error: ".to_string();
                s.append(e.as_str());
                s
            },
        }
    }
}

/// The size of the record that octets begin with, if all of it is there: a
/// header of twelve octets, and as many more as its last four tell.
pub open spec fn record_size(s: Seq<u8>) -> Option<int> {
    if s.len() < 12 || 12 + get32(s, 8) > s.len() {
        None
    } else {
        Some(12 + get32(s, 8))
    }
}

/// The records that octets consist of, up to one that is cut short.
pub open spec fn records(s: Seq<u8>) -> Seq<Seq<u8>>
    decreases s.len(),
{
    match record_size(s) {
        None => Seq::empty(),
        Some(n) => seq![s.take(n)] + records(s.skip(n)),
    }
}

/// What follows the last complete record.
pub open spec fn leftover(s: Seq<u8>) -> Seq<u8>
    decreases s.len(),
{
    match record_size(s) {
        None => s,
        Some(n) => leftover(s.skip(n)),
    }
}

/// The end of the record at `at`.
pub fn record_end(raw: &[u8], at: usize) -> (r: Option<usize>)
    requires
        at <= raw@.len(),
    ensures
        match (r, record_size(raw@.skip(at as int))) {
            (Some(end), Some(n)) => end == at + n && at + 12 <= end <= raw@.len(),
            (None, None) => true,
            _ => false,
        },
{
    let ghost s = raw@.skip(at as int);
    let left: usize = raw.len() - at;
    if left < 12 {
        return None;
    }
    let length: u32 = read_be32(raw, at + 8);
    assert(get32(s, 8) == get32(raw@, at + 8)) by {
        assert(s[8] == raw@[at + 8] && s[9] == raw@[at + 9] && s[10] == raw@[at + 10] && s[11] == raw@[at + 11]);
    }
    if (left - 12) as u64 >= length as u64 {
        Some(at + 12 + length as usize)
    } else {
        None
    }
}

/// The kind of a record.
pub open spec fn kind(rec: Seq<u8>) -> int {
    get16(rec, 4)
}

/// The subtype of a record.
pub open spec fn subtype(rec: Seq<u8>) -> int {
    get16(rec, 6)
}

/// The kind of the records of a table dump.
pub const TABLE_DUMP_V2: u16 = 13;

/// The kinds of records of messages, without and with microseconds.
pub const BGP4MP: u16 = 16;

pub const BGP4MP_ET: u16 = 17;

/// Whether a record belongs to a table dump of a family that is supported:
/// the table of peers, unicast and multicast prefixes, generic entries, and
/// those with path ids of unicast prefixes and generic entries.
pub open spec fn is_rib_record(rec: Seq<u8>) -> bool {
    kind(rec) == TABLE_DUMP_V2 && (1 <= subtype(rec) <= 6 || subtype(rec) == 8 || subtype(rec) == 10 || subtype(rec)
        == 12)
}

/// Some records, one after the other.
pub open spec fn joined(recs: Seq<Seq<u8>>) -> Seq<u8>
    decreases recs.len(),
{
    if recs.len() == 0 {
        Seq::empty()
    } else {
        joined(recs.drop_last()) + recs.last()
    }
}

proof fn lemma_joined_push(recs: Seq<Seq<u8>>, rec: Seq<u8>)
    ensures
        joined(recs.push(rec)) == joined(recs) + rec,
{
    assert(recs.push(rec).drop_last() =~= recs);
}

/// Those of some records that belong to a table dump.
pub open spec fn rib_records(recs: Seq<Seq<u8>>) -> Seq<Seq<u8>> {
    recs.filter(|r: Seq<u8>| is_rib_record(r))
}

proof fn lemma_no_rib_records()
    ensures
        rib_records(Seq::empty()) == Seq::<Seq<u8>>::empty(),
{
    reveal(Seq::filter);
}

proof fn lemma_rib_records_push(recs: Seq<Seq<u8>>, rec: Seq<u8>)
    ensures
        rib_records(recs.push(rec)) == (if is_rib_record(rec) {
            rib_records(recs).push(rec)
        } else {
            rib_records(recs)
        }),
{
    reveal(Seq::filter);
    assert(recs.push(rec).drop_last() =~= recs);
}

/// Why a file ends with an incomplete record.
pub open spec fn cut_short(rest: Seq<u8>, e: MrtError) -> bool {
    if rest.len() < 12 {
        e matches MrtError::Parse(t) && t@ == "short MRT header"@
    } else {
        e matches MrtError::Other(t) && t@ == "MRT record exceeds input"@
    }
}

/// The records of a file that belong to a table dump, without the others. A
/// file may hold records of any kind, but each has to be complete.
pub fn supported_rib_records(raw: &[u8]) -> (r: Result<Vec<u8>, MrtError>)
    ensures
        match r {
            Ok(v) => leftover(raw@).len() == 0 && v@ == joined(rib_records(records(raw@))),
            Err(e) => leftover(raw@).len() > 0 && cut_short(leftover(raw@), e),
        },
{
    let ghost all = raw@;
    let ghost mut done: Seq<Seq<u8>> = Seq::empty();
    let mut out: Vec<u8> = Vec::new();
    let mut at: usize = 0;
    proof {
        assert(all.skip(0) =~= all);
        assert(done + records(all) =~= records(all));
        lemma_no_rib_records();
    }
    while at < raw.len()
        invariant
            at <= all.len(),
            all == raw@,
            records(all) == done + records(all.skip(at as int)),
            leftover(all) == leftover(all.skip(at as int)),
            out@ == joined(rib_records(done)),
        decreases all.len() - at,
    {
        let ghost s = all.skip(at as int);
        match record_end(raw, at) {
            None => {
                return if raw.len() - at < 12 {
                    Err(MrtError::parse("short MRT header"))
                } else {
                    Err(MrtError::other("MRT record exceeds input"))
                };
            },
            Some(end) => {
                let ghost rec = s.take(end - at);
                let ty: u16 = read_be16(raw, at + 4);
                let sub: u16 = read_be16(raw, at + 6);
                proof {
                    assert(rec[4] == all[at + 4] && rec[5] == all[at + 5] && rec[6] == all[at + 6] && rec[7] == all[at
                        + 7]);
                    assert(s.skip(end - at) =~= all.skip(end as int));
                    assert(done + (seq![rec] + records(all.skip(end as int))) =~= done.push(rec) + records(
                        all.skip(end as int),
                    ));
                    lemma_rib_records_push(done, rec);
                    lemma_joined_push(rib_records(done), rec);
                }
                if ty == TABLE_DUMP_V2 && (1 <= sub && sub <= 6 || sub == 8 || sub == 10 || sub == 12) {
                    push_bytes(&mut out, &raw[at..end]);
                    assert(raw@.subrange(at as int, end as int) =~= rec);
                }
                proof {
                    done = done.push(rec);
                }
                at = end;
            },
        }
    }
    proof {
        assert(all.skip(at as int) =~= Seq::empty());
        assert(done + Seq::empty() =~= done);
    }
    Ok(out)
}

/// A peer of the router that a table was dumped at.
#[derive(Clone, Copy, Debug)]
pub struct MrtPeer {
    pub addr: IpAddress,
    pub asn: u32,
}

/// What is told of a peer: its address and its AS number.
pub type PeerView = (bool, Seq<u8>, u32);

impl View for MrtPeer {
    type V = PeerView;

    open spec fn view(&self) -> PeerView {
        (self.addr is V4, self.addr.octets(), self.asn)
    }
}

/// The number of octets of an address.
pub open spec fn addr_size(is_v4: bool) -> int {
    if is_v4 {
        4
    } else {
        16
    }
}

/// The number of octets of an AS number.
pub open spec fn asn_size(wide: bool) -> int {
    if wide {
        4
    } else {
        2
    }
}

/// The AS number at `at`.
pub open spec fn asn_at(s: Seq<u8>, at: int, wide: bool) -> u32 {
    if wide {
        get32(s, at) as u32
    } else {
        get16(s, at) as u32
    }
}

/// Reads an AS number.
fn read_asn(s: &[u8], at: usize, wide: bool) -> (r: u32)
    requires
        at + asn_size(wide) <= s@.len(),
    ensures
        r == asn_at(s@, at as int, wide),
{
    if wide {
        read_be32(s, at)
    } else {
        read_be16(s, at) as u32
    }
}

/// Reads an address.
fn read_addr(s: &[u8], at: usize, is_v4: bool) -> (r: IpAddress)
    requires
        at + addr_size(is_v4) <= s@.len(),
    ensures
        r is V4 == is_v4,
        r.octets() == s@.subrange(at as int, at + addr_size(is_v4)),
{
    let n: usize = if is_v4 {
        4
    } else {
        16
    };
    let len: usize = s.len();
    assert(at + n <= len);
    let part = &s[at..at + n];
    assert(padded(part@, addr_size(is_v4)) =~= s@.subrange(at as int, at + addr_size(is_v4)));
    padded_address(part, is_v4)
}

/// The number of octets of a peer of which the first octet is `ty`: the type,
/// an id, an address and an AS number.
pub open spec fn peer_size(ty: u8) -> int {
    5 + addr_size(ty & 1u8 == 0) + asn_size(ty & 2u8 == 2)
}

/// The peers that octets consist of, if they do.
pub open spec fn peer_list(s: Seq<u8>) -> Option<Seq<PeerView>>
    decreases s.len(),
{
    if s.len() == 0 {
        Some(Seq::empty())
    } else if s.len() < peer_size(s[0]) {
        None
    } else {
        let is_v4 = s[0] & 1u8 == 0;
        let wide = s[0] & 2u8 == 2;
        let p = (is_v4, s.subrange(5, 5 + addr_size(is_v4)), asn_at(s, 5 + addr_size(is_v4), wide));
        match peer_list(s.skip(peer_size(s[0]))) {
            Some(rest) => Some(seq![p] + rest),
            None => None,
        }
    }
}

/// What some peers are.
pub open spec fn peer_views(v: Seq<MrtPeer>) -> Seq<PeerView> {
    Seq::new(v.len(), |i: int| v[i]@)
}

/// Reads peers.
fn read_peers(s: &[u8]) -> (r: Option<Vec<MrtPeer>>)
    ensures
        match r {
            Some(v) => peer_list(s@) == Some(peer_views(v@)),
            None => peer_list(s@) is None,
        },
{
    let ghost all = s@;
    let mut out: Vec<MrtPeer> = Vec::new();
    let mut at: usize = 0;
    proof {
        assert(all.skip(0) =~= all);
        assert(peer_views(out@) =~= Seq::empty());
        if let Some(l) = peer_list(all) {
            assert(Seq::<PeerView>::empty() + l =~= l);
        }
    }
    while at < s.len()
        invariant
            at <= all.len(),
            all == s@,
            match peer_list(all.skip(at as int)) {
                Some(l) => peer_list(all) == Some(peer_views(out@) + l),
                None => peer_list(all) is None,
            },
        decreases all.len() - at,
    {
        let ghost rest = all.skip(at as int);
        let ty: u8 = s[at];
        let is_v4 = ty & 1 == 0;
        let wide = ty & 2 == 2;
        let n: usize = if is_v4 {
            4
        } else {
            16
        };
        let m: usize = if wide {
            4
        } else {
            2
        };
        let size: usize = 5 + n + m;
        assert(rest[0] == ty);
        assert(peer_size(ty) == size);
        if s.len() - at < size {
            return None;
        }
        let part = &s[at..at + size];
        let addr = read_addr(part, 5, is_v4);
        let asn: u32 = read_asn(part, 5 + n, wide);
        let ghost before = out@;
        let peer = MrtPeer { addr, asn };
        out.push(peer);
        proof {
            assert(part@ =~= rest.take(size as int));
            assert(part@.subrange(5, 5 + n) =~= rest.subrange(5, 5 + n));
            assert(asn_at(part@, 5 + n, wide) == asn_at(rest, 5 + n, wide));
            assert(rest.skip(size as int) =~= all.skip(at + size));
            assert(peer_views(out@) =~= peer_views(before).push(peer@));
            if let Some(l) = peer_list(rest.skip(size as int)) {
                assert(peer_views(before) + (seq![peer@] + l) =~= peer_views(out@) + l);
            }
        }
        at = at + size;
    }
    proof {
        assert(all.skip(at as int) =~= Seq::empty());
        assert(peer_views(out@) + Seq::empty() =~= peer_views(out@));
    }
    Some(out)
}

/// The peers of a record: an id, a name with its length in front, and the
/// number of peers come before them.
pub open spec fn peer_table(rec: Seq<u8>) -> Option<Seq<PeerView>> {
    let body = rec.skip(12);
    if kind(rec) != TABLE_DUMP_V2 || subtype(rec) != 1 || body.len() < 6 || body.len() < 8 + get16(body, 4) {
        None
    } else {
        let at = 6 + get16(body, 4);
        match peer_list(body.skip(at + 2)) {
            Some(l) => if l.len() == get16(body, at) {
                Some(l)
            } else {
                None
            },
            None => None,
        }
    }
}

/// The peers of a table dump: those of its first record.
pub open spec fn peer_index(raw: Seq<u8>) -> Option<Seq<PeerView>> {
    match record_size(raw) {
        Some(n) => peer_table(raw.take(n)),
        None => None,
    }
}

/// Reads the peers of a table dump.
pub fn read_peer_index(raw: &[u8]) -> (r: Option<Vec<MrtPeer>>)
    ensures
        match r {
            Some(v) => peer_index(raw@) == Some(peer_views(v@)),
            None => peer_index(raw@) is None,
        },
{
    assert(raw@.skip(0) =~= raw@);
    let end: usize = match record_end(raw, 0) {
        Some(end) => end,
        None => {
            return None;
        },
    };
    let rec = &raw[0..end];
    assert(rec@ =~= raw@.take(end as int));
    if read_be16(rec, 4) != TABLE_DUMP_V2 || read_be16(rec, 6) != 1 {
        return None;
    }
    let body = &rec[12..end];
    assert(body@ =~= rec@.skip(12));
    if body.len() < 6 {
        return None;
    }
    let name: usize = read_be16(body, 4) as usize;
    if body.len() < 8 + name {
        return None;
    }
    let count: u16 = read_be16(body, 6 + name);
    let n: usize = body.len();
    let list = &body[8 + name..n];
    assert(list@ =~= body@.skip(8 + name as int));
    match read_peers(list) {
        Some(v) => if v.len() == count as usize {
            Some(v)
        } else {
            None
        },
        None => None,
    }
}

/// One entry of a table: the place of its peer among the peers, its path id,
/// and its attributes.
#[derive(Debug)]
pub struct TableEntry {
    pub peer: u16,
    pub path_id: Option<u32>,
    pub attrs: Vec<u8>,
}

pub type EntryView = (u16, Option<u32>, Seq<u8>);

impl View for TableEntry {
    type V = EntryView;

    open spec fn view(&self) -> EntryView {
        (self.peer, self.path_id, self.attrs@)
    }
}

pub open spec fn entry_views(v: Seq<TableEntry>) -> Seq<EntryView> {
    Seq::new(v.len(), |i: int| v[i]@)
}

/// The number of octets of an entry before its attributes.
pub open spec fn entry_head(path_ids: bool) -> int {
    if path_ids {
        12
    } else {
        8
    }
}

/// The entries that octets consist of, if they do: the place of the peer, a
/// time, a path id where there are any, and the attributes with their length.
pub open spec fn entry_list(s: Seq<u8>, path_ids: bool) -> Option<Seq<EntryView>>
    decreases s.len(),
{
    let head = entry_head(path_ids);
    if s.len() == 0 {
        Some(Seq::empty())
    } else if s.len() < head || s.len() < head + get16(s, head - 2) {
        None
    } else {
        let total = head + get16(s, head - 2);
        let e = (
            get16(s, 0) as u16,
            if path_ids {
                Some(get32(s, 6) as u32)
            } else {
                None
            },
            s.subrange(head, total),
        );
        match entry_list(s.skip(total), path_ids) {
            Some(rest) => Some(seq![e] + rest),
            None => None,
        }
    }
}

/// Reads entries.
fn read_entries(s: &[u8], path_ids: bool) -> (r: Option<Vec<TableEntry>>)
    ensures
        match r {
            Some(v) => entry_list(s@, path_ids) == Some(entry_views(v@)),
            None => entry_list(s@, path_ids) is None,
        },
{
    let ghost all = s@;
    let mut out: Vec<TableEntry> = Vec::new();
    let mut at: usize = 0;
    let head: usize = if path_ids {
        12
    } else {
        8
    };
    proof {
        assert(all.skip(0) =~= all);
        assert(entry_views(out@) =~= Seq::empty());
        if let Some(l) = entry_list(all, path_ids) {
            assert(Seq::<EntryView>::empty() + l =~= l);
        }
    }
    while at < s.len()
        invariant
            at <= all.len(),
            all == s@,
            head == entry_head(path_ids),
            match entry_list(all.skip(at as int), path_ids) {
                Some(l) => entry_list(all, path_ids) == Some(entry_views(out@) + l),
                None => entry_list(all, path_ids) is None,
            },
        decreases all.len() - at,
    {
        let ghost rest = all.skip(at as int);
        let n: usize = s.len();
        let part = &s[at..n];
        assert(part@ =~= rest);
        if part.len() < head {
            return None;
        }
        let len: usize = read_be16(part, head - 2) as usize;
        if part.len() < head + len {
            return None;
        }
        let total: usize = head + len;
        let e = TableEntry {
            peer: read_be16(part, 0),
            path_id: if path_ids {
                Some(read_be32(part, 6))
            } else {
                None
            },
            attrs: copy_range(part, head, total),
        };
        let ghost before = out@;
        let ghost view = e@;
        out.push(e);
        proof {
            assert(rest.skip(total as int) =~= all.skip(at + total));
            assert(entry_views(out@) =~= entry_views(before).push(view));
            if let Some(l) = entry_list(rest.skip(total as int), path_ids) {
                assert(entry_views(before) + (seq![view] + l) =~= entry_views(out@) + l);
            }
        }
        at = at + total;
    }
    proof {
        assert(all.skip(at as int) =~= Seq::empty());
        assert(entry_views(out@) + Seq::empty() =~= entry_views(out@));
    }
    Some(out)
}

/// The prefix that octets begin with, and where it ends: its length in bits
/// and as many octets as it takes. Bits after the length must not be set.
pub open spec fn prefix_at(s: Seq<u8>, is_v4: bool) -> Option<(PrefixKey, int)> {
    if s.len() < 1 || s[0] > 8 * addr_size(is_v4) || s.len() < 1 + prefix_octets(s[0] as int) {
        None
    } else {
        let end = 1 + prefix_octets(s[0] as int);
        let key = (is_v4, padded(s.subrange(1, end), addr_size(is_v4)), s[0]);
        if valid_key(key) {
            Some((key, end))
        } else {
            None
        }
    }
}

/// Reads a prefix.
pub fn read_prefix(s: &[u8], is_v4: bool) -> (r: Option<(Prefix, usize)>)
    ensures
        match r {
            Some((p, end)) => p.wf() && end <= s@.len() && prefix_at(s@, is_v4) == Some((p@, end as int)),
            None => prefix_at(s@, is_v4) is None,
        },
{
    let size: usize = if is_v4 {
        4
    } else {
        16
    };
    if s.len() < 1 || s[0] as usize > 8 * size {
        return None;
    }
    let len: u8 = s[0];
    let n: usize = (len as usize + 7) / 8;
    if s.len() < 1 + n {
        return None;
    }
    let part = &s[1..1 + n];
    assert(part@ =~= s@.subrange(1, 1 + n));
    let addr = padded_address(part, is_v4);
    match Prefix::new(addr, len) {
        Some(p) => Some((p, 1 + n)),
        None => None,
    }
}

/// What a table is for.
#[derive(Debug)]
pub enum TableNlri {
    Prefix(Prefix),
    Rule(Vec<u8>),
}

pub enum TableNlriView {
    Prefix(PrefixKey),
    Rule(Seq<u8>),
}

impl View for TableNlri {
    type V = TableNlriView;

    open spec fn view(&self) -> TableNlriView {
        match self {
            TableNlri::Prefix(p) => TableNlriView::Prefix(p@),
            TableNlri::Rule(r) => TableNlriView::Rule(r@),
        }
    }
}

impl TableNlri {
    pub open spec fn wf(self) -> bool {
        self matches TableNlri::Prefix(p) ==> p.wf()
    }
}

/// A table: the routes of all peers for one prefix or rule.
#[derive(Debug)]
pub struct RibTable {
    pub family: AfiSafiType,
    pub nlri: TableNlri,
    pub entries: Vec<TableEntry>,
}

/// What a record of a table dump holds.
#[derive(Debug)]
pub enum RibRecord {
    Table(RibTable),
    /// The peers, or a family that is not supported.
    Skipped,
}

/// The family of the tables of a subtype, and whether they have path ids;
/// that of generic tables is told in them.
pub open spec fn table_family(subtype: int) -> Option<(AfiSafiType, bool)> {
    if subtype == 2 {
        Some((AfiSafiType::Ipv4Unicast, false))
    } else if subtype == 3 {
        Some((AfiSafiType::Ipv4Multicast, false))
    } else if subtype == 4 {
        Some((AfiSafiType::Ipv6Unicast, false))
    } else if subtype == 5 {
        Some((AfiSafiType::Ipv6Multicast, false))
    } else if subtype == 8 {
        Some((AfiSafiType::Ipv4Unicast, true))
    } else if subtype == 10 {
        Some((AfiSafiType::Ipv6Unicast, true))
    } else {
        None
    }
}

fn find_table_family(subtype: u16) -> (r: Option<(AfiSafiType, bool)>)
    ensures
        r == table_family(subtype as int),
{
    if subtype == 2 {
        Some((AfiSafiType::Ipv4Unicast, false))
    } else if subtype == 3 {
        Some((AfiSafiType::Ipv4Multicast, false))
    } else if subtype == 4 {
        Some((AfiSafiType::Ipv6Unicast, false))
    } else if subtype == 5 {
        Some((AfiSafiType::Ipv6Multicast, false))
    } else if subtype == 8 {
        Some((AfiSafiType::Ipv4Unicast, true))
    } else if subtype == 10 {
        Some((AfiSafiType::Ipv6Unicast, true))
    } else {
        None
    }
}

/// Whether a family has IPv4 prefixes.
pub open spec fn is_v4_family(f: AfiSafiType) -> bool {
    f.pair().0 == 1
}

/// What a table is.
pub struct TableView {
    pub family: AfiSafiType,
    pub nlri: TableNlriView,
    pub entries: Seq<EntryView>,
}

impl View for RibTable {
    type V = TableView;

    open spec fn view(&self) -> TableView {
        TableView { family: self.family, nlri: self.nlri@, entries: entry_views(self.entries@) }
    }
}

/// The table of prefixes in a body: a number, the prefix, the number of
/// entries, and the entries.
pub open spec fn prefix_table(body: Seq<u8>, family: AfiSafiType, path_ids: bool) -> Option<TableView> {
    if body.len() < 4 {
        None
    } else {
        match prefix_at(body.skip(4), is_v4_family(family)) {
            Some((key, end)) => if body.len() < 4 + end + 2 {
                None
            } else {
                match entry_list(body.skip(4 + end + 2), path_ids) {
                    Some(entries) => Some(TableView { family, nlri: TableNlriView::Prefix(key), entries }),
                    None => None,
                }
            },
            None => None,
        }
    }
}

/// The FlowSpec rule that octets begin with: where it starts, after a length
/// of one octet or two, and where it ends.
pub open spec fn rule_extent(s: Seq<u8>) -> Option<(int, int)> {
    if s.len() < 1 {
        None
    } else if s[0] >= 0xf0 {
        if s.len() < 2 || s.len() < 2 + (s[0] % 16) * 256 + s[1] {
            None
        } else {
            Some((2, 2 + (s[0] % 16) * 256 + s[1]))
        }
    } else if s.len() < 1 + s[0] {
        None
    } else {
        Some((1, 1 + s[0]))
    }
}

/// Finds a FlowSpec rule.
pub fn find_rule(s: &[u8]) -> (r: Option<(usize, usize)>)
    ensures
        match (r, rule_extent(s@)) {
            (Some((a, b)), Some((x, y))) => a == x && b == y && a <= b <= s@.len(),
            (None, None) => true,
            _ => false,
        },
{
    if s.len() < 1 {
        return None;
    }
    if s[0] >= 0xf0 {
        if s.len() < 2 {
            return None;
        }
        let n: usize = (s[0] % 16) as usize * 256 + s[1] as usize;
        if s.len() < 2 + n {
            return None;
        }
        Some((2, 2 + n))
    } else {
        let n: usize = s[0] as usize;
        if s.len() < 1 + n {
            return None;
        }
        Some((1, 1 + n))
    }
}

/// The family of a generic table, if it is one of FlowSpec rules.
pub open spec fn rule_table_family(afi: int, safi: u8) -> Option<AfiSafiType> {
    if afi == 1 && safi == 133 {
        Some(AfiSafiType::Ipv4FlowSpec)
    } else if afi == 2 && safi == 133 {
        Some(AfiSafiType::Ipv6FlowSpec)
    } else {
        None
    }
}

/// The generic table in a body: a number, the family, the rule with its
/// length, the number of entries, and the entries. One of another family is
/// skipped.
pub open spec fn generic_table(body: Seq<u8>, path_ids: bool) -> Option<Option<TableView>> {
    if body.len() < 7 {
        None
    } else {
        match rule_table_family(get16(body, 4), body[6]) {
            None => Some(None),
            Some(family) => match rule_extent(body.skip(7)) {
                Some((start, end)) => if body.len() < 7 + end + 2 {
                    None
                } else {
                    match entry_list(body.skip(7 + end + 2), path_ids) {
                        Some(entries) => Some(
                            Some(
                                TableView {
                                    family,
                                    nlri: TableNlriView::Rule(body.subrange(7 + start, 7 + end)),
                                    entries,
                                },
                            ),
                        ),
                        None => None,
                    }
                },
                None => None,
            },
        }
    }
}

/// What a record of a table dump holds: `None` if it is malformed, no table
/// if it is to be skipped.
pub open spec fn rib_table(rec: Seq<u8>) -> Option<Option<TableView>> {
    let body = rec.skip(12);
    let sub = subtype(rec);
    match table_family(sub) {
        Some((family, path_ids)) => match prefix_table(body, family, path_ids) {
            Some(t) => Some(Some(t)),
            None => None,
        },
        None => if sub == 6 {
            generic_table(body, false)
        } else if sub == 12 {
            generic_table(body, true)
        } else {
            Some(None)
        },
    }
}

fn read_prefix_table(body: &[u8], family: AfiSafiType, path_ids: bool) -> (r: Option<RibTable>)
    requires
        is_v4_family(family) || family.pair().0 == 2,
    ensures
        match r {
            Some(t) => t.nlri.wf() && prefix_table(body@, family, path_ids) == Some(t@),
            None => prefix_table(body@, family, path_ids) is None,
        },
{
    if body.len() < 4 {
        return None;
    }
    let is_v4 = family.to_pair().0 == 1;
    let n: usize = body.len();
    let rest = &body[4..n];
    assert(rest@ =~= body@.skip(4));
    match read_prefix(rest, is_v4) {
        Some((prefix, end)) => {
            if rest.len() - end < 2 {
                return None;
            }
            let list = &body[4 + end + 2..n];
            assert(list@ =~= body@.skip(4 + end as int + 2));
            match read_entries(list, path_ids) {
                Some(entries) => Some(RibTable { family, nlri: TableNlri::Prefix(prefix), entries }),
                None => None,
            }
        },
        None => None,
    }
}

fn read_generic_table(body: &[u8], path_ids: bool) -> (r: Option<RibRecord>)
    ensures
        match r {
            Some(RibRecord::Table(t)) => t.nlri.wf() && generic_table(body@, path_ids) == Some(Some(t@)),
            Some(RibRecord::Skipped) => generic_table(body@, path_ids) == Some(None::<TableView>),
            None => generic_table(body@, path_ids) is None,
        },
{
    if body.len() < 7 {
        return None;
    }
    let afi: u16 = read_be16(body, 4);
    let family = if afi == 1 && body[6] == 133 {
        AfiSafiType::Ipv4FlowSpec
    } else if afi == 2 && body[6] == 133 {
        AfiSafiType::Ipv6FlowSpec
    } else {
        return Some(RibRecord::Skipped);
    };
    let n: usize = body.len();
    let rest = &body[7..n];
    assert(rest@ =~= body@.skip(7));
    match find_rule(rest) {
        Some((start, end)) => {
            if rest.len() - end < 2 {
                return None;
            }
            let list = &body[7 + end + 2..n];
            assert(list@ =~= body@.skip(7 + end as int + 2));
            let rule = copy_range(body, 7 + start, 7 + end);
            match read_entries(list, path_ids) {
                Some(entries) => Some(RibRecord::Table(RibTable { family, nlri: TableNlri::Rule(rule), entries })),
                None => None,
            }
        },
        None => None,
    }
}

/// Reads what a record of a table dump holds.
pub fn read_rib_record(rec: &[u8]) -> (r: Option<RibRecord>)
    requires
        rec@.len() >= 12,
    ensures
        match r {
            Some(RibRecord::Table(t)) => t.nlri.wf() && rib_table(rec@) == Some(Some(t@)),
            Some(RibRecord::Skipped) => rib_table(rec@) == Some(None::<TableView>),
            None => rib_table(rec@) is None,
        },
{
    let sub: u16 = read_be16(rec, 6);
    let n: usize = rec.len();
    let body = &rec[12..n];
    assert(body@ =~= rec@.skip(12));
    match find_table_family(sub) {
        Some((family, path_ids)) => match read_prefix_table(body, family, path_ids) {
            Some(t) => Some(RibRecord::Table(t)),
            None => None,
        },
        None => if sub == 6 {
            read_generic_table(body, false)
        } else if sub == 12 {
            read_generic_table(body, true)
        } else {
            Some(RibRecord::Skipped)
        },
    }
}

/// A change of the state of a session.
#[derive(Clone, Copy, Debug)]
pub struct StateChange {
    pub peer_addr: IpAddress,
    pub peer_asn: u32,
    pub old_state: u16,
    pub new_state: u16,
}

/// A BGP message from a peer.
#[derive(Debug)]
pub struct BgpMessage {
    pub peer_addr: IpAddress,
    pub peer_asn: u32,
    /// Whether the NLRI have path ids.
    pub path_ids: bool,
    pub pdu: Vec<u8>,
}

/// What a record of messages holds.
#[derive(Debug)]
pub enum Bgp4Mp {
    StateChange(StateChange),
    Message(BgpMessage),
}

/// What a record of messages is: the peer, and a change of state or a
/// message.
pub enum Bgp4MpView {
    StateChange { peer: PeerView, old_state: u16, new_state: u16 },
    Message { peer: PeerView, path_ids: bool, pdu: Seq<u8> },
}

impl View for Bgp4Mp {
    type V = Bgp4MpView;

    open spec fn view(&self) -> Bgp4MpView {
        match self {
            Bgp4Mp::StateChange(c) => Bgp4MpView::StateChange {
                peer: (c.peer_addr is V4, c.peer_addr.octets(), c.peer_asn),
                old_state: c.old_state,
                new_state: c.new_state,
            },
            Bgp4Mp::Message(m) => Bgp4MpView::Message {
                peer: (m.peer_addr is V4, m.peer_addr.octets(), m.peer_asn),
                path_ids: m.path_ids,
                pdu: m.pdu@,
            },
        }
    }
}

/// What a subtype of messages holds.
#[derive(Clone, Copy, Debug)]
pub struct MessageShape {
    pub state_change: bool,
    /// AS numbers of four octets.
    pub wide: bool,
    pub path_ids: bool,
}

/// What a subtype of messages holds. Messages that the collector itself sent
/// are of other subtypes.
pub open spec fn message_shape(subtype: int) -> Option<MessageShape> {
    if subtype == 0 {
        Some(MessageShape { state_change: true, wide: false, path_ids: false })
    } else if subtype == 1 {
        Some(MessageShape { state_change: false, wide: false, path_ids: false })
    } else if subtype == 4 {
        Some(MessageShape { state_change: false, wide: true, path_ids: false })
    } else if subtype == 5 {
        Some(MessageShape { state_change: true, wide: true, path_ids: false })
    } else if subtype == 8 {
        Some(MessageShape { state_change: false, wide: false, path_ids: true })
    } else if subtype == 9 {
        Some(MessageShape { state_change: false, wide: true, path_ids: true })
    } else {
        None
    }
}

fn find_message_shape(subtype: u16) -> (r: Option<MessageShape>)
    ensures
        r == message_shape(subtype as int),
{
    if subtype == 0 {
        Some(MessageShape { state_change: true, wide: false, path_ids: false })
    } else if subtype == 1 {
        Some(MessageShape { state_change: false, wide: false, path_ids: false })
    } else if subtype == 4 {
        Some(MessageShape { state_change: false, wide: true, path_ids: false })
    } else if subtype == 5 {
        Some(MessageShape { state_change: true, wide: true, path_ids: false })
    } else if subtype == 8 {
        Some(MessageShape { state_change: false, wide: false, path_ids: true })
    } else if subtype == 9 {
        Some(MessageShape { state_change: false, wide: true, path_ids: true })
    } else {
        None
    }
}

/// What the body of a record of messages holds: the AS numbers of both ends,
/// an interface, the family of the addresses, the addresses of both ends, and
/// then two states or the message.
pub open spec fn message_body(body: Seq<u8>, shape: MessageShape) -> Option<Bgp4MpView> {
    let a = asn_size(shape.wide);
    let at = 2 * a + 4;
    if body.len() < at || (get16(body, 2 * a + 2) != 1 && get16(body, 2 * a + 2) != 2) {
        None
    } else {
        let is_v4 = get16(body, 2 * a + 2) == 1;
        let end = at + 2 * addr_size(is_v4);
        if body.len() < end || (shape.state_change && body.len() < end + 4) {
            None
        } else {
            let peer = (is_v4, body.subrange(at, at + addr_size(is_v4)), asn_at(body, 0, shape.wide));
            Some(
                if shape.state_change {
                    Bgp4MpView::StateChange {
                        peer,
                        old_state: get16(body, end) as u16,
                        new_state: get16(body, end + 2) as u16,
                    }
                } else {
                    Bgp4MpView::Message { peer, path_ids: shape.path_ids, pdu: body.skip(end) }
                },
            )
        }
    }
}

/// Where the body of a record of messages starts: after the microseconds, if
/// there are any.
pub open spec fn message_start(rec: Seq<u8>) -> Option<int> {
    if kind(rec) == BGP4MP {
        Some(12)
    } else if kind(rec) == BGP4MP_ET && rec.len() >= 16 {
        Some(16)
    } else {
        None
    }
}

/// What a record holds, if it is one of messages that can be read.
pub open spec fn message_of(rec: Seq<u8>) -> Option<Bgp4MpView> {
    match (message_start(rec), message_shape(subtype(rec))) {
        (Some(start), Some(shape)) => message_body(rec.skip(start), shape),
        _ => None,
    }
}

fn read_message_body(body: &[u8], shape: MessageShape) -> (r: Option<Bgp4Mp>)
    ensures
        match r {
            Some(m) => message_body(body@, shape) == Some(m@),
            None => message_body(body@, shape) is None,
        },
{
    let a: usize = if shape.wide {
        4
    } else {
        2
    };
    let at: usize = 2 * a + 4;
    let n: usize = body.len();
    if n < at {
        return None;
    }
    let afi: u16 = read_be16(body, 2 * a + 2);
    if afi != 1 && afi != 2 {
        return None;
    }
    let is_v4 = afi == 1;
    let size: usize = if is_v4 {
        4
    } else {
        16
    };
    let end: usize = at + 2 * size;
    if n < end {
        return None;
    }
    let peer_asn: u32 = read_asn(body, 0, shape.wide);
    let peer_addr = read_addr(body, at, is_v4);
    if shape.state_change {
        if n < end + 4 {
            return None;
        }
        let old_state: u16 = read_be16(body, end);
        let new_state: u16 = read_be16(body, end + 2);
        Some(Bgp4Mp::StateChange(StateChange { peer_addr, peer_asn, old_state, new_state }))
    } else {
        let pdu = copy_range(body, end, n);
        assert(pdu@ =~= body@.skip(end as int));
        Some(Bgp4Mp::Message(BgpMessage { peer_addr, peer_asn, path_ids: shape.path_ids, pdu }))
    }
}

/// Reads what a record of messages holds.
pub fn read_message(rec: &[u8]) -> (r: Option<Bgp4Mp>)
    requires
        rec@.len() >= 12,
    ensures
        match r {
            Some(m) => message_of(rec@) == Some(m@),
            None => message_of(rec@) is None,
        },
{
    let ty: u16 = read_be16(rec, 4);
    let n: usize = rec.len();
    let start: usize = if ty == BGP4MP {
        12
    } else if ty == BGP4MP_ET && n >= 16 {
        16
    } else {
        return None;
    };
    match find_message_shape(read_be16(rec, 6)) {
        Some(shape) => {
            let body = &rec[start..n];
            assert(body@ =~= rec@.skip(start as int));
            read_message_body(body, shape)
        },
        None => None,
    }
}

/// A complete record in front of others is found first.
proof fn lemma_record_first(rec: Seq<u8>, rest: Seq<u8>)
    requires
        record_size(rec) == Some(rec.len() as int),
    ensures
        records(rec + rest) == seq![rec] + records(rest),
        leftover(rec + rest) == leftover(rest),
{
    let s = rec + rest;
    assert(s[8] == rec[8] && s[9] == rec[9] && s[10] == rec[10] && s[11] == rec[11]);
    assert(record_size(s) == Some(rec.len() as int));
    assert(s.take(rec.len() as int) =~= rec);
    assert(s.skip(rec.len() as int) =~= rest);
}

proof fn lemma_joined_first(recs: Seq<Seq<u8>>)
    requires
        recs.len() > 0,
    ensures
        joined(recs) == recs[0] + joined(recs.skip(1)),
    decreases recs.len(),
{
    if recs.len() == 1 {
        assert(recs.drop_last() =~= Seq::empty());
        assert(recs.skip(1) =~= Seq::empty());
        assert(joined(recs) =~= recs[0] + joined(recs.skip(1)));
    } else {
        lemma_joined_first(recs.drop_last());
        assert(recs.drop_last().skip(1) =~= recs.skip(1).drop_last());
        assert(joined(recs) =~= recs[0] + joined(recs.skip(1)));
    }
}

/// Complete records, one after the other, are found again.
proof fn lemma_records_of_joined(recs: Seq<Seq<u8>>)
    requires
        forall|i: int| 0 <= i < recs.len() ==> record_size(#[trigger] recs[i]) == Some(recs[i].len() as int),
    ensures
        records(joined(recs)) == recs,
        leftover(joined(recs)).len() == 0,
    decreases recs.len(),
{
    if recs.len() > 0 {
        let rest = recs.skip(1);
        lemma_joined_first(recs);
        lemma_record_first(recs[0], joined(rest));
        assert forall|i: int| 0 <= i < rest.len() implies record_size(#[trigger] rest[i]) == Some(
            rest[i].len() as int,
        ) by {
            assert(rest[i] == recs[i + 1]);
        }
        lemma_records_of_joined(rest);
        assert(seq![recs[0]] + rest =~= recs);
    }
}

proof fn lemma_records_are_complete(s: Seq<u8>, i: int)
    requires
        0 <= i < records(s).len(),
    ensures
        record_size(records(s)[i]) == Some(records(s)[i].len() as int),
    decreases s.len(),
{
    match record_size(s) {
        None => {},
        Some(n) => {
            let rec = s.take(n);
            if i == 0 {
                assert(rec[8] == s[8] && rec[9] == s[9] && rec[10] == s[10] && rec[11] == s[11]);
                assert(records(s)[0] == rec);
            } else {
                lemma_records_are_complete(s.skip(n), i - 1);
                assert(records(s)[i] == records(s.skip(n))[i - 1]);
            }
        },
    }
}

/// The records of a table dump that are picked out of a file make up a file
/// of their own: it consists of these records, and picking again changes
/// nothing.
pub proof fn picked_records_make_up_a_file(raw: Seq<u8>)
    ensures
        records(joined(rib_records(records(raw)))) == rib_records(records(raw)),
        leftover(joined(rib_records(records(raw)))).len() == 0,
        rib_records(rib_records(records(raw))) == rib_records(records(raw)),
{
    let recs = records(raw);
    let keep = |r: Seq<u8>| is_rib_record(r);
    let some = rib_records(recs);
    assert forall|i: int| 0 <= i < some.len() implies record_size(#[trigger] some[i]) == Some(some[i].len() as int)
        && is_rib_record(some[i]) by {
        recs.lemma_filter_pred(keep, i);
        assert(keep(some[i]));
        assert forall|k: int| 0 <= k < recs.len() implies record_size(#[trigger] recs[k]) == Some(
            recs[k].len() as int,
        ) by {
            lemma_records_are_complete(raw, k);
        }
        lemma_filter_from(recs, i);
    }
    lemma_records_of_joined(some);
    lemma_filter_all(some);
}

/// A record that was picked is one of those it was picked from.
proof fn lemma_filter_from(recs: Seq<Seq<u8>>, i: int)
    requires
        0 <= i < rib_records(recs).len(),
        forall|k: int| 0 <= k < recs.len() ==> record_size(#[trigger] recs[k]) == Some(recs[k].len() as int),
    ensures
        record_size(rib_records(recs)[i]) == Some(rib_records(recs)[i].len() as int),
    decreases recs.len(),
{
    reveal(Seq::filter);
    if recs.len() > 0 {
        let rest = recs.drop_last();
        assert(recs =~= rest.push(recs.last()));
        lemma_rib_records_push(rest, recs.last());
        if i < rib_records(rest).len() {
            assert forall|k: int| 0 <= k < rest.len() implies record_size(#[trigger] rest[k]) == Some(
                rest[k].len() as int,
            ) by {
                assert(rest[k] == recs[k]);
            }
            lemma_filter_from(rest, i);
        } else {
            assert(recs[recs.len() - 1] == recs.last());
        }
    }
}

proof fn lemma_filter_all(recs: Seq<Seq<u8>>)
    requires
        forall|i: int| 0 <= i < recs.len() ==> is_rib_record(#[trigger] recs[i]),
    ensures
        rib_records(recs) == recs,
    decreases recs.len(),
{
    if recs.len() == 0 {
        lemma_no_rib_records();
        assert(recs =~= Seq::empty());
    } else {
        let rest = recs.drop_last();
        assert forall|i: int| 0 <= i < rest.len() implies is_rib_record(#[trigger] rest[i]) by {
            assert(rest[i] == recs[i]);
        }
        lemma_filter_all(rest);
        assert(is_rib_record(recs[recs.len() - 1]));
        lemma_rib_records_push(rest, recs.last());
        assert(rest.push(recs.last()) =~= recs);
    }
}

} // verus!
