//! What a file tells, by the octets that it is written in.
use vstd::prelude::*;

use crate::explode::{nlri_of, update_routes, ExplodedView};
use crate::evpn::evpn_valid;
use crate::mrt_attrs::{rewriting_keeps_the_next_hop, stored_next_hop};
use crate::mrt_file::{
    announced_by, entries_told, entry_attrs, entry_told, file_told, message_told, messages_told,
    peers_for, record_told, supported, table_told, tables_told, withdrawn_by, Shown, Told,
};
use crate::mrt_format::{
    entry_list, is_rib_record, is_v4_family, joined, leftover, message_body, message_of, peer_index, peer_list, prefix_at, prefix_table,
    record_size, records, rib_records, rib_table, rule_extent, Bgp4MpView, EntryView, MessageShape, PeerView,
    TableNlriView, TableView,
};
use crate::mrt_import::{existing, is_mrt_peer, ImportView};
use crate::mrt_laws::{
    a_table_tells_each_entry_once, carries_on, entry_route, entry_routes, lemma_announced, lemma_peer_found,
    lemma_peer_stays, path_known, paths_known, peer_ids,
    record_paths_known, settled, table_routes,
};
use crate::route::NlriKind;
use crate::pamap::{kept_attrs, reach_next_hop};
use crate::types::{masked_octet, padded, valid_key, AfiSafiType, IngressId, IngressType, Prefix, PrefixKey, RouteStatus};

verus! {

/// Each route that comes of some entries is one in use, of the family of the
/// table.
proof fn lemma_entries_family(
    v: ImportView,
    peers: Seq<IngressId>,
    family: AfiSafiType,
    nlri: TableNlriView,
    list: Seq<EntryView>,
)
    ensures
        forall|i: int|
            0 <= i < entries_told(v, peers, family, nlri, list).told.len() ==> ((#[trigger] entries_told(
                v,
                peers,
                family,
                nlri,
                list,
            ).told[i]) matches Told::Route(s) && s.family == family && s.status is Active),
    decreases list.len(),
{
    if list.len() > 0 {
        let o = entries_told(v, peers, family, nlri, list.drop_last());
        lemma_entries_family(v, peers, family, nlri, list.drop_last());
        if o.fault is None {
            let p = entry_told(o.state, peers, family, nlri, list.last());
            let all = entries_told(v, peers, family, nlri, list).told;
            assert(all == o.told + p.told);
            assert forall|i: int| 0 <= i < all.len() implies ((#[trigger] all[i]) matches Told::Route(s) && s.family
                == family && s.status is Active) by {
                if i < o.told.len() {
                    assert(all[i] == o.told[i]);
                } else {
                    assert(all[i] == p.told[i - o.told.len()]);
                }
            }
        }
    }
}

/// All that comes of a record of a table dump are routes in use, and their
/// family is the one that the subtype of the record stands for: IPv4 unicast
/// for 2 and 8, IPv4 multicast for 3, IPv6 unicast for 4 and 10, IPv6
/// multicast for 5, and for 6 and 12 the FlowSpec family that the record
/// names. Of records of other subtypes nothing comes.
pub proof fn a_table_record_tells_routes_of_its_family(v: ImportView, peers: Seq<IngressId>, rec: Seq<u8>, i: int)
    requires
        rec.len() >= 12,
        0 <= i < table_told(v, peers, rec).told.len(),
    ensures
        ({
            let sub = rec[6] * 256 + rec[7];
            table_told(v, peers, rec).told[i] matches Told::Route(s) && {
                &&& s.status is Active
                &&& sub == 2 || sub == 8 ==> s.family is Ipv4Unicast
                &&& sub == 3 ==> s.family is Ipv4Multicast
                &&& sub == 4 || sub == 10 ==> s.family is Ipv6Unicast
                &&& sub == 5 ==> s.family is Ipv6Multicast
                &&& sub == 6 || sub == 12 ==> rec.len() >= 19 && rec[16] == 0 && rec[18] == 133 && (rec[17] == 1
                    && s.family is Ipv4FlowSpec || rec[17] == 2 && s.family is Ipv6FlowSpec)
                &&& 2 <= sub <= 6 || sub == 8 || sub == 10 || sub == 12
            }
        }),
{
    match rib_table(rec) {
        Some(Some(t)) => {
            lemma_entries_family(v, peers, t.family, t.nlri, t.entries);
            let body = rec.skip(12);
            if body.len() >= 7 {
                assert(body[4] == rec[16] && body[5] == rec[17] && body[6] == rec[18]);
            }
        },
        _ => {},
    }
}

/// What comes of the messages among records are no single routes.
proof fn lemma_messages_tell_no_single_route(v: ImportView, parent: IngressId, recs: Seq<Seq<u8>>)
    ensures
        forall|i: int|
            0 <= i < messages_told(v, parent, recs).told.len() ==> !((#[trigger] messages_told(v, parent, recs).told[i]) is Route),
    decreases recs.len(),
{
    if recs.len() > 0 {
        let o = messages_told(v, parent, recs.drop_last());
        lemma_messages_tell_no_single_route(v, parent, recs.drop_last());
        if o.fault is None {
            let p = record_told(o.state, parent, recs.last());
            let all = messages_told(v, parent, recs).told;
            assert(all == o.told + p.told);
            assert forall|i: int| 0 <= i < all.len() implies !((#[trigger] all[i]) is Route) by {
                if i < o.told.len() {
                    assert(all[i] == o.told[i]);
                } else {
                    assert(all[i] == p.told[i - o.told.len()]);
                }
            }
        }
    }
}

/// Whether a record says that it is of a table dump of a family.
pub open spec fn says_family(rec: Seq<u8>, family: AfiSafiType) -> bool {
    let sub = rec[6] * 256 + rec[7];
    &&& rec.len() >= 12
    &&& rec[4] == 0 && rec[5] == 13
    &&& {
        ||| family is Ipv4Unicast && (sub == 2 || sub == 8)
        ||| family is Ipv4Multicast && sub == 3
        ||| family is Ipv6Unicast && (sub == 4 || sub == 10)
        ||| family is Ipv6Multicast && sub == 5
        ||| family is Ipv4FlowSpec && (sub == 6 || sub == 12) && rec.len() >= 19 && rec[16] == 0 && rec[17] == 1
            && rec[18] == 133
        ||| family is Ipv6FlowSpec && (sub == 6 || sub == 12) && rec.len() >= 19 && rec[16] == 0 && rec[17] == 2
            && rec[18] == 133
    }
}

/// Each route of the table dump of a file is one in use, of a family that a
/// record of the file says it is of.
proof fn lemma_tables_family(v: ImportView, peers: Seq<IngressId>, recs: Seq<Seq<u8>>)
    requires
        forall|j: int| 0 <= j < recs.len() ==> (#[trigger] recs[j]).len() >= 12 && is_rib_record(recs[j]),
    ensures
        forall|i: int|
            0 <= i < tables_told(v, peers, recs).told.len() ==> ((#[trigger] tables_told(v, peers, recs).told[i]) matches Told::Route(
                s,
            ) && s.status is Active && exists|j: int| 0 <= j < recs.len() && says_family(#[trigger] recs[j], s.family)),
    decreases recs.len(),
{
    if recs.len() > 0 {
        let front = recs.drop_last();
        let o = tables_told(v, peers, front);
        assert forall|j: int| 0 <= j < front.len() implies (#[trigger] front[j]).len() >= 12 && is_rib_record(front[j]) by {
            assert(front[j] == recs[j]);
        }
        lemma_tables_family(v, peers, front);
        let all = tables_told(v, peers, recs).told;
        if o.fault is None {
            let rec = recs.last();
            let p = table_told(o.state, peers, rec);
            assert(all == o.told + p.told);
            assert forall|i: int| 0 <= i < all.len() implies ((#[trigger] all[i]) matches Told::Route(s)
                && s.status is Active && exists|j: int| 0 <= j < recs.len() && says_family(
                #[trigger] recs[j],
                s.family,
            )) by {
                if i < o.told.len() {
                    assert(all[i] == o.told[i]);
                    let s = all[i]->Route_0;
                    let j = choose|j: int| 0 <= j < front.len() && says_family(#[trigger] front[j], s.family);
                    assert(says_family(recs[j], s.family));
                } else {
                    assert(all[i] == p.told[i - o.told.len()]);
                    a_table_record_tells_routes_of_its_family(o.state, peers, rec, i - o.told.len());
                    assert(recs[recs.len() - 1] == rec);
                    assert(says_family(recs[recs.len() - 1], all[i]->Route_0.family));
                }
            }
        } else {
            assert(all == o.told);
            assert forall|i: int| 0 <= i < all.len() implies ((#[trigger] all[i]) matches Told::Route(s)
                && s.status is Active && exists|j: int| 0 <= j < recs.len() && says_family(
                #[trigger] recs[j],
                s.family,
            )) by {
                let s = o.told[i]->Route_0;
                let j = choose|j: int| 0 <= j < front.len() && says_family(#[trigger] front[j], s.family);
                assert(says_family(recs[j], s.family));
            }
        }
    }
}

/// The records of a file all have a header.
proof fn lemma_records_have_headers(s: Seq<u8>)
    ensures
        forall|j: int| 0 <= j < records(s).len() ==> (#[trigger] records(s)[j]).len() >= 12,
    decreases s.len(),
{
    match record_size(s) {
        None => {},
        Some(n) => {
            lemma_records_have_headers(s.skip(n));
            let all = records(s);
            assert forall|j: int| 0 <= j < all.len() implies (#[trigger] all[j]).len() >= 12 by {
                if j > 0 {
                    assert(all[j] == records(s.skip(n))[j - 1]);
                }
            }
        },
    }
}

/// Each single route that a file tells comes of a record of a table dump in
/// it, is in use, and is of the family that the record says.
pub proof fn a_file_tells_routes_of_the_families_of_its_records(
    v: ImportView,
    parent: IngressId,
    raw: Seq<u8>,
    file: Seq<char>,
    i: int,
)
    requires
        0 <= i < file_told(v, parent, raw, file).told.len(),
        file_told(v, parent, raw, file).told[i] is Route,
    ensures
        ({
            let s = file_told(v, parent, raw, file).told[i]->Route_0;
            &&& s.status is Active
            &&& exists|j: int|
                {
                    let rec = #[trigger] records(raw)[j];
                    let sub = rec[6] * 256 + rec[7];
                    &&& 0 <= j < records(raw).len()
                    &&& rec[4] == 0 && rec[5] == 13
                    &&& {
                        ||| s.family is Ipv4Unicast && (sub == 2 || sub == 8)
                        ||| s.family is Ipv4Multicast && sub == 3
                        ||| s.family is Ipv6Unicast && (sub == 4 || sub == 10)
                        ||| s.family is Ipv6Multicast && sub == 5
                        ||| s.family is Ipv4FlowSpec && (sub == 6 || sub == 12) && rec[16] == 0 && rec[17] == 1
                            && rec[18] == 133
                        ||| s.family is Ipv6FlowSpec && (sub == 6 || sub == 12) && rec[16] == 0 && rec[17] == 2
                            && rec[18] == 133
                    }
                }
        }),
{
    let recs = records(raw);
    let ribs = rib_records(recs);
    let told = file_told(v, parent, raw, file).told;
    lemma_records_have_headers(raw);
    match peer_index(joined(ribs)) {
        None => {
            lemma_messages_tell_no_single_route(v, parent, recs);
        },
        Some(peers) => match peers_for(v, parent, peers, Some(file)) {
            (w, None) => {},
            (w, Some(ids)) => {
                let o = tables_told(w, ids, ribs);
                lemma_messages_tell_no_single_route(o.state, parent, recs);
                assert forall|j: int| 0 <= j < ribs.len() implies (#[trigger] ribs[j]).len() >= 12 && is_rib_record(
                    ribs[j],
                ) by {
                    broadcast use vstd::seq_lib::group_filter_ensures;

                    assert(ribs.contains(ribs[j]));
                    recs.lemma_filter_contains_rev(|r: Seq<u8>| is_rib_record(r), ribs[j]);
                    let k = choose|k: int| 0 <= k < recs.len() && recs[k] == ribs[j];
                    assert(recs[k].len() >= 12);
                }
                lemma_tables_family(w, ids, ribs);
                if i < o.told.len() {
                    assert(told[i] == o.told[i]);
                    let s = told[i]->Route_0;
                    let j = choose|j: int| 0 <= j < ribs.len() && says_family(#[trigger] ribs[j], s.family);
                    assert(ribs.contains(ribs[j]));
                    recs.lemma_filter_contains_rev(|r: Seq<u8>| is_rib_record(r), ribs[j]);
                    let k = choose|k: int| 0 <= k < recs.len() && recs[k] == ribs[j];
                    assert(says_family(recs[k], s.family));
                    assert(records(raw)[k] == recs[k]);
                } else {
                    let m = messages_told(o.state, parent, recs).told;
                    assert(told == o.told + m);
                    assert(told[i] == m[i - o.told.len()]);
                }
            },
        },
    }
}

/// Two octets that spell a number.
pub open spec fn two(n: int) -> Seq<u8> {
    seq![(n / 256) as u8, (n % 256) as u8]
}

/// Four octets that spell a number.
pub open spec fn four_of(n: int) -> Seq<u8> {
    seq![(n / 16777216) as u8, (n / 65536 % 256) as u8, (n / 256 % 256) as u8, (n % 256) as u8]
}

proof fn lemma_two(n: int)
    requires
        0 <= n < 65536,
    ensures
        two(n)[0] * 256 + two(n)[1] == n,
        two(n).len() == 2,
{
}

proof fn lemma_four(n: int)
    requires
        0 <= n <= u32::MAX,
    ensures
        four_of(n)[0] * 16777216 + four_of(n)[1] * 65536 + four_of(n)[2] * 256 + four_of(n)[3] == n,
        four_of(n).len() == 4,
{
    let a = n / 16777216;
    let r = n % 16777216;
    assert(n == 16777216 * a + r);
    assert(n / 65536 == 256 * a + r / 65536);
    assert(n / 65536 % 256 == r / 65536);
    let t = r % 65536;
    assert(r == 65536 * (r / 65536) + t);
    assert(n / 256 == 65536 * a + 256 * (r / 65536) + t / 256);
    assert(n / 256 % 256 == t / 256);
    assert(n % 256 == t % 256);
    assert(t == 256 * (t / 256) + t % 256);
}

/// An entry of a table as it is written: the place of its peer, a time, its
/// path id, if it has one, and its attributes with their length.
pub open spec fn written_entry(e: EntryView, time: Seq<u8>) -> Seq<u8> {
    two(e.0 as int) + time + (match e.1 {
        Some(p) => four_of(p as int),
        None => Seq::empty(),
    }) + two(e.2.len() as int) + e.2
}

/// Entries as they are written, one after the other.
pub open spec fn written_entries(list: Seq<EntryView>, times: Seq<Seq<u8>>) -> Seq<u8>
    decreases list.len(),
{
    if list.len() == 0 {
        Seq::empty()
    } else {
        written_entry(list[0], times[0]) + written_entries(list.skip(1), times.skip(1))
    }
}

/// Whether entries can be written: all with path ids or all without, with a
/// time of four octets each, and with no more attributes than two octets can
/// tell the length of.
pub open spec fn can_be_written(list: Seq<EntryView>, times: Seq<Seq<u8>>, path_ids: bool) -> bool {
    &&& times.len() == list.len()
    &&& forall|i: int|
        0 <= i < list.len() ==> (#[trigger] list[i]).1 is Some == path_ids && list[i].2.len() < 65536 && times[i].len()
            == 4
}

/// Entries are read as they were written.
proof fn lemma_entries_read(list: Seq<EntryView>, times: Seq<Seq<u8>>, path_ids: bool)
    requires
        can_be_written(list, times, path_ids),
    ensures
        entry_list(written_entries(list, times), path_ids) == Some(list),
    decreases list.len(),
{
    let s = written_entries(list, times);
    if list.len() == 0 {
        assert(list =~= Seq::empty());
    } else {
        let (rest, later) = (list.skip(1), times.skip(1));
        assert forall|i: int| 0 <= i < rest.len() implies (#[trigger] rest[i]).1 is Some == path_ids && rest[i].2.len()
            < 65536 && later[i].len() == 4 by {
            assert(rest[i] == list[i + 1]);
        }
        lemma_entries_read(rest, later, path_ids);
        let e = list[0];
        lemma_entry_at(e, times[0], written_entries(rest, later), path_ids);
        assert(list =~= seq![e] + rest);
    }
}

proof fn lemma_entry_at(e: EntryView, time: Seq<u8>, rest: Seq<u8>, path_ids: bool)
    requires
        e.1 is Some == path_ids,
        e.2.len() < 65536,
        time.len() == 4,
    ensures
        ({
            let s = written_entry(e, time) + rest;
            let head: int = if path_ids {
                12
            } else {
                8
            };
            &&& s[0] * 256 + s[1] == e.0
            &&& s[head - 2] * 256 + s[head - 1] == e.2.len()
            &&& e.1 matches Some(p) ==> s[6] * 16777216 + s[7] * 65536 + s[8] * 256 + s[9] == p
            &&& s.len() == head + e.2.len() + rest.len()
            &&& s.skip(head + e.2.len()) == rest
            &&& s.subrange(head, head + e.2.len()) == e.2
        }),
{
    let s = written_entry(e, time) + rest;
    let n = e.2.len() as int;
    lemma_two(e.0 as int);
    lemma_two(n);
    assert(s[0] == two(e.0 as int)[0] && s[1] == two(e.0 as int)[1]);
    match e.1 {
        Some(p) => {
            let f = four_of(p as int);
            lemma_four(p as int);
            assert(s[6] == f[0] && s[7] == f[1] && s[8] == f[2] && s[9] == f[3]);
            assert(s[10] == two(n)[0] && s[11] == two(n)[1]);
        },
        None => {
            assert(s[6] == two(n)[0] && s[7] == two(n)[1]);
        },
    }
    let head: int = if path_ids {
        12
    } else {
        8
    };
    assert(s.skip(head + n) =~= rest);
    assert(s.subrange(head, head + n) =~= e.2);
}

/// A prefix as it is written: its length, and as many octets as that needs.
pub open spec fn written_prefix(p: PrefixKey) -> Seq<u8> {
    seq![p.2] + p.1.take((p.2 + 7) / 8)
}

/// A prefix is read as it was written, whatever follows it.
pub proof fn a_prefix_is_read_as_it_was_written(p: PrefixKey, rest: Seq<u8>)
    requires
        valid_key(p),
    ensures
        prefix_at(written_prefix(p) + rest, p.0) == Some((p, 1 + (p.2 + 7) / 8)),
{
    let n = (p.2 + 7) / 8;
    let s = written_prefix(p) + rest;
    let size: int = if p.0 {
        4
    } else {
        16
    };
    assert(s[0] == p.2);
    assert(s.subrange(1, 1 + n) =~= p.1.take(n));
    assert(padded(s.subrange(1, 1 + n), size) =~= p.1) by {
        assert forall|i: int| 0 <= i < size implies padded(s.subrange(1, 1 + n), size)[i] == p.1[i] by {
            if i >= n {
                assert(p.1[i] == masked_octet(p.1, p.2 as int, i));
                assert(p.2 <= 8 * i);
            }
        }
    }
    assert((p.0, padded(s.subrange(1, 1 + n), size), s[0]) == p);
}

/// A record as it is written: a time, its kind, its subtype, and its body with
/// its length.
pub open spec fn written_record(stamp: Seq<u8>, kind: int, sub: int, body: Seq<u8>) -> Seq<u8> {
    stamp + two(kind) + two(sub) + four_of(body.len() as int) + body
}

/// The body of a table of prefixes as it is written: a number, the prefix, the
/// number of entries, and the entries.
pub open spec fn written_table(number: Seq<u8>, p: PrefixKey, list: Seq<EntryView>, times: Seq<Seq<u8>>) -> Seq<u8> {
    number + written_prefix(p) + two(list.len() as int) + written_entries(list, times)
}

proof fn lemma_record_read(stamp: Seq<u8>, kind: int, sub: int, body: Seq<u8>)
    requires
        stamp.len() == 4,
        0 <= kind < 65536,
        0 <= sub < 65536,
        body.len() <= u32::MAX,
    ensures
        ({
            let rec = written_record(stamp, kind, sub, body);
            &&& rec.len() == 12 + body.len()
            &&& rec[4] * 256 + rec[5] == kind
            &&& rec[6] * 256 + rec[7] == sub
            &&& rec[8] * 16777216 + rec[9] * 65536 + rec[10] * 256 + rec[11] == body.len()
            &&& rec.skip(12) == body
        }),
{
    let rec = written_record(stamp, kind, sub, body);
    lemma_two(kind);
    lemma_two(sub);
    lemma_four(body.len() as int);
    let f = four_of(body.len() as int);
    assert(rec[4] == two(kind)[0] && rec[5] == two(kind)[1] && rec[6] == two(sub)[0] && rec[7] == two(sub)[1]);
    assert(rec[8] == f[0] && rec[9] == f[1] && rec[10] == f[2] && rec[11] == f[3]);
    assert(rec.skip(12) =~= body);
}

/// Whether a subtype of table dumps is that of a family of prefixes, without
/// or with path ids.
pub open spec fn is_subtype_of(sub: int, family: AfiSafiType, path_ids: bool) -> bool {
    ||| sub == 2 && family is Ipv4Unicast && !path_ids
    ||| sub == 3 && family is Ipv4Multicast && !path_ids
    ||| sub == 4 && family is Ipv6Unicast && !path_ids
    ||| sub == 5 && family is Ipv6Multicast && !path_ids
    ||| sub == 8 && family is Ipv4Unicast && path_ids
    ||| sub == 10 && family is Ipv6Unicast && path_ids
}

/// A record of a table dump is read as it was written: the family that its
/// subtype stands for, the prefix, and for each entry the place of its peer,
/// its path id and its attributes, in order.
pub proof fn a_table_is_read_as_it_was_written(
    stamp: Seq<u8>,
    sub: int,
    family: AfiSafiType,
    path_ids: bool,
    number: Seq<u8>,
    p: PrefixKey,
    list: Seq<EntryView>,
    times: Seq<Seq<u8>>,
)
    requires
        stamp.len() == 4,
        number.len() == 4,
        is_subtype_of(sub, family, path_ids),
        valid_key(p),
        p.0 == (family is Ipv4Unicast || family is Ipv4Multicast),
        can_be_written(list, times, path_ids),
        list.len() < 65536,
        written_table(number, p, list, times).len() <= u32::MAX,
    ensures
        ({
            let rec = written_record(stamp, 13, sub, written_table(number, p, list, times));
            &&& rib_table(rec) == Some(Some(TableView { family, nlri: TableNlriView::Prefix(p), entries: list }))
            &&& is_rib_record(rec)
            &&& record_size(rec) == Some(rec.len() as int)
        }),
{
    let body = written_table(number, p, list, times);
    let rec = written_record(stamp, 13, sub, body);
    lemma_record_read(stamp, 13, sub, body);
    lemma_table_body(number, family, path_ids, p, list, times);
}

#[verifier::spinoff_prover]
#[verifier::rlimit(40)]
proof fn lemma_table_body(
    number: Seq<u8>,
    family: AfiSafiType,
    path_ids: bool,
    p: PrefixKey,
    list: Seq<EntryView>,
    times: Seq<Seq<u8>>,
)
    requires
        number.len() == 4,
        valid_key(p),
        p.0 == is_v4_family(family),
        can_be_written(list, times, path_ids),
    ensures
        prefix_table(written_table(number, p, list, times), family, path_ids) == Some(
            TableView { family, nlri: TableNlriView::Prefix(p), entries: list },
        ),
{
    let body = written_table(number, p, list, times);
    let entries = written_entries(list, times);
    let count = two(list.len() as int);
    let n = 1 + (p.2 + 7) / 8;
    a_prefix_is_read_as_it_was_written(p, count + entries);
    lemma_entries_read(list, times, path_ids);
    assert(written_prefix(p).len() == n);
    assert(body.skip(4) =~= written_prefix(p) + (count + entries));
    assert(body.skip(4 + n + 2) =~= entries);
}

/// What entries tell has each of them.
proof fn lemma_entry_routes_have(
    w: ImportView,
    peers: Seq<IngressId>,
    family: AfiSafiType,
    nlri: TableNlriView,
    list: Seq<EntryView>,
    k: int,
    t: Told,
)
    requires
        0 <= k < list.len(),
        entry_route(w, peers, family, nlri, list[k]).contains(t),
    ensures
        entry_routes(w, peers, family, nlri, list).contains(t),
    decreases list.len(),
{
    let front = list.drop_last();
    let a = entry_routes(w, peers, family, nlri, front);
    let b = entry_route(w, peers, family, nlri, list.last());
    let all = entry_routes(w, peers, family, nlri, list);
    assert(all == a + b);
    if k < front.len() {
        assert(front[k] == list[k]);
        lemma_entry_routes_have(w, peers, family, nlri, front, k, t);
        let i = choose|i: int| 0 <= i < a.len() && a[i] == t;
        assert(all[i] == t);
    } else {
        let i = choose|i: int| 0 <= i < b.len() && b[i] == t;
        assert(all[a.len() + i] == t);
    }
}

/// What records tell has what each of them tells.
proof fn lemma_table_routes_have(w: ImportView, peers: Seq<IngressId>, recs: Seq<Seq<u8>>, j: int, t: Told)
    requires
        0 <= j < recs.len(),
        rib_table(recs[j]) matches Some(Some(x)) && entry_routes(w, peers, x.family, x.nlri, x.entries).contains(t),
    ensures
        table_routes(w, peers, recs).contains(t),
    decreases recs.len(),
{
    let front = recs.drop_last();
    let a = table_routes(w, peers, front);
    let b = match rib_table(recs.last()) {
        Some(Some(x)) => entry_routes(w, peers, x.family, x.nlri, x.entries),
        _ => Seq::empty(),
    };
    let all = table_routes(w, peers, recs);
    assert(all == a + b);
    if j < front.len() {
        assert(front[j] == recs[j]);
        lemma_table_routes_have(w, peers, front, j, t);
        let i = choose|i: int| 0 <= i < a.len() && a[i] == t;
        assert(all[i] == t);
    } else {
        let i = choose|i: int| 0 <= i < b.len() && b[i] == t;
        assert(all[a.len() + i] == t);
    }
}

/// Each entry of a table dump in a file is told: as a route in use for its
/// prefix, of the family that the subtype of the record stands for, from the
/// ingress that is registered for its peer, or for the path of its peer. Its
/// attributes are as they were written; those of IPv6 have the same next hop
/// and, but for MP_REACH_NLRI and MP_UNREACH_NLRI, are the same.
pub proof fn an_entry_of_a_table_is_told(
    v: ImportView,
    parent: IngressId,
    raw: Seq<u8>,
    file: Seq<char>,
    peers: Seq<PeerView>,
    later: ImportView,
    j: int,
    stamp: Seq<u8>,
    sub: int,
    family: AfiSafiType,
    path_ids: bool,
    number: Seq<u8>,
    prefix: Prefix,
    list: Seq<EntryView>,
    times: Seq<Seq<u8>>,
    k: int,
)
    requires
        settled(v),
        file_told(v, parent, raw, file).fault is None,
        peer_index(joined(rib_records(records(raw)))) == Some(peers),
        carries_on(file_told(v, parent, raw, file).state, later),
        0 <= j < records(raw).len(),
        records(raw)[j] == written_record(stamp, 13, sub, written_table(number, prefix@, list, times)),
        stamp.len() == 4,
        number.len() == 4,
        is_subtype_of(sub, family, path_ids),
        prefix.wf(),
        prefix@.0 == (family is Ipv4Unicast || family is Ipv4Multicast),
        can_be_written(list, times, path_ids),
        list.len() < 65536,
        written_table(number, prefix@, list, times).len() <= u32::MAX,
        0 <= k < list.len(),
        list[k].0 < peers.len(),
    ensures
        exists|i: int|
            0 <= i < file_told(v, parent, raw, file).told.len() && tells_entry(
                #[trigger] file_told(v, parent, raw, file).told[i],
                later,
                parent,
                peers[list[k].0 as int],
                family,
                prefix@,
                list[k],
            ),
{
    let rec = records(raw)[j];
    let recs = records(raw);
    let ribs = rib_records(recs);
    let told = file_told(v, parent, raw, file).told;
    a_table_is_read_as_it_was_written(stamp, sub, family, path_ids, number, prefix@, list, times);
    recs.lemma_filter_contains(|r: Seq<u8>| is_rib_record(r), j);
    let n = choose|n: int| 0 <= n < ribs.len() && ribs[n] == rec;
    a_table_tells_each_entry_once(v, parent, raw, file, peers, later);
    let ids = choose|ids: Seq<IngressId>|
        {
            &&& #[trigger] peer_ids(later, parent, peers, ids)
            &&& table_routes(later, ids, ribs).is_prefix_of(told)
            &&& paths_known(later, ids, ribs)
        };
    let e = list[k];
    let nlri = TableNlriView::Prefix(prefix@);
    let t = entry_route(later, ids, family, nlri, e)[0];
    assert(entry_route(later, ids, family, nlri, e).contains(t));
    lemma_entry_routes_have(later, ids, family, nlri, list, k, t);
    lemma_table_routes_have(later, ids, ribs, n, t);
    let all = table_routes(later, ids, ribs);
    let i = choose|i: int| 0 <= i < all.len() && all[i] == t;
    assert(told[i] == all[i]);
    assert(existing(later.infos, parent, peers[e.0 as int]) == Some(ids[e.0 as int]));
    assert(record_paths_known(later, ids, ribs[n]));
    assert(path_known(later, ids, family, nlri, list[k]));
    lemma_tells_entry(later, parent, peers, ids, family, prefix, e);
    assert(tells_entry(told[i], later, parent, peers[e.0 as int], family, prefix@, e));
}

proof fn lemma_tells_entry(
    later: ImportView,
    parent: IngressId,
    peers: Seq<PeerView>,
    ids: Seq<IngressId>,
    family: AfiSafiType,
    prefix: Prefix,
    e: EntryView,
)
    requires
        peer_ids(later, parent, peers, ids),
        e.0 < peers.len(),
        prefix.wf(),
        prefix@.0 ==> family is Ipv4Unicast || family is Ipv4Multicast,
        !prefix@.0 ==> family is Ipv6Unicast || family is Ipv6Multicast,
        path_known(later, ids, family, TableNlriView::Prefix(prefix@), e),
    ensures
        tells_entry(
            entry_route(later, ids, family, TableNlriView::Prefix(prefix@), e)[0],
            later,
            parent,
            peers[e.0 as int],
            family,
            prefix@,
            e,
        ),
{
    reveal(tells_entry);
    let nlri = TableNlriView::Prefix(prefix@);
    let s = entry_route(later, ids, family, nlri, e)[0]->Route_0;
    let id = ids[e.0 as int];
    assert(existing(later.infos, parent, peers[e.0 as int]) == Some(ids[e.0 as int]));
    if !prefix@.0 {
        assert(s.attrs.skip(2) =~= entry_attrs(family, nlri, e.2));
        rewriting_keeps_the_next_hop(e.2, 2, 1, prefix);
        rewriting_keeps_the_next_hop(e.2, 2, 2, prefix);
    }
    match e.1 {
        Some(path) => {
            assert(later.children.contains_key((id, path)));
        },
        None => {},
    }
}

/// Whether something that was told is what an entry of a table says: a route in
/// use for the prefix, of the family, with the attributes of the entry, from
/// the ingress that is registered for the peer, or for a path of it.
#[verifier::opaque]
pub open spec fn tells_entry(
    t: Told,
    later: ImportView,
    parent: IngressId,
    peer: PeerView,
    family: AfiSafiType,
    p: PrefixKey,
    e: EntryView,
) -> bool {
    t matches Told::Route(s) && {
        &&& s.family == family
        &&& s.nlri == NlriKind::Prefix(p)
        &&& s.status is Active
        &&& p.0 ==> s.attrs == seq![0u8, 1u8] + e.2
        &&& !p.0 ==> {
            &&& s.attrs.len() >= 2
            &&& s.attrs[0] == 0 && s.attrs[1] == 1
            &&& reach_next_hop(s.attrs.skip(2)) == stored_next_hop(e.2)
            &&& kept_attrs(s.attrs.skip(2)) == kept_attrs(e.2)
        }
        &&& e.1 is None ==> later.infos.contains_key(s.ingress) && {
            let info = later.infos[s.ingress];
            &&& info.ingress_type == Some(IngressType::Mrt)
            &&& info.parent_ingress == Some(parent)
            &&& info.remote_addr == Some((peer.0, peer.1))
            &&& info.remote_asn == Some(peer.2)
        }
        &&& e.1 matches Some(path) ==> exists|id: IngressId|
            {
                &&& later.infos.contains_key(id)
                &&& later.infos[id].remote_addr == Some((peer.0, peer.1))
                &&& later.infos[id].remote_asn == Some(peer.2)
                &&& #[trigger] later.children.contains_key((id, path))
                &&& later.children[(id, path)] == s.ingress
            }
    }
}

/// A record in front of others is read first, and what follows it as if it
/// were alone: its length is that of its header and what its last four octets
/// tell.
pub proof fn a_record_is_read_by_its_length(rec: Seq<u8>, rest: Seq<u8>)
    requires
        rec.len() >= 12,
        rec[8] * 16777216 + rec[9] * 65536 + rec[10] * 256 + rec[11] == rec.len() - 12,
    ensures
        records(rec + rest) == seq![rec] + records(rest),
        leftover(rec + rest) == leftover(rest),
        rest.len() < 12 ==> records(rest) == Seq::<Seq<u8>>::empty() && leftover(rest) == rest,
{
    let s = rec + rest;
    assert(s[8] == rec[8] && s[9] == rec[9] && s[10] == rec[10] && s[11] == rec[11]);
    assert(s.take(rec.len() as int) =~= rec);
    assert(s.skip(rec.len() as int) =~= rest);
    assert(record_size(s) == Some(rec.len() as int));
}

/// A peer of a table dump as it is written: whether its address is of IPv6 and
/// its AS number has four octets, its id, its address and its AS number.
pub open spec fn written_peer(p: PeerView, wide: bool, bgp_id: Seq<u8>) -> Seq<u8> {
    seq![
        ((if p.0 {
            0int
        } else {
            1
        }) + (if wide {
            2int
        } else {
            0
        })) as u8,
    ] + bgp_id + p.1 + (if wide {
        four_of(p.2 as int)
    } else {
        two(p.2 as int)
    })
}

/// A peer in front of others is read first: its address and its AS number are
/// those that were written.
pub proof fn a_peer_is_read_as_it_was_written(p: PeerView, wide: bool, bgp_id: Seq<u8>, rest: Seq<u8>)
    requires
        p.0 ==> p.1.len() == 4,
        !p.0 ==> p.1.len() == 16,
        !wide ==> p.2 < 65536,
        bgp_id.len() == 4,
    ensures
        peer_list(written_peer(p, wide, bgp_id) + rest) == (match peer_list(rest) {
            Some(l) => Some(seq![p] + l),
            None => None,
        }),
        peer_list(Seq::empty()) == Some(Seq::<PeerView>::empty()),
{
    let one = written_peer(p, wide, bgp_id);
    let s = one + rest;
    lemma_peer_octets(p, wide, bgp_id, rest);
    lemma_peer_type(s[0]);
    assert((p.0, s.subrange(5, 5 + p.1.len() as int), p.2) == p);
}

proof fn lemma_peer_type(ty: u8)
    ensures
        (ty & 1u8 == 0) == (ty % 2 == 0),
        (ty & 2u8 == 2) == (ty / 2 % 2 == 1),
{
    assert((ty & 1u8 == 0) == (ty % 2 == 0)) by (bit_vector);
    assert((ty & 2u8 == 2) == (ty / 2 % 2 == 1)) by (bit_vector);
}

#[verifier::spinoff_prover]
proof fn lemma_peer_octets(p: PeerView, wide: bool, bgp_id: Seq<u8>, rest: Seq<u8>)
    requires
        !wide ==> p.2 < 65536,
        bgp_id.len() == 4,
    ensures
        ({
            let s = written_peer(p, wide, bgp_id) + rest;
            let n = p.1.len() as int;
            let size = n + (if wide {
                9int
            } else {
                7
            });
            &&& (s[0] % 2 == 0) == p.0
            &&& (s[0] / 2 % 2 == 1) == wide
            &&& s.len() == size + rest.len()
            &&& s.subrange(5, 5 + n) == p.1
            &&& s.skip(size) == rest
            &&& wide ==> s[5 + n] * 16777216 + s[6 + n] * 65536 + s[7 + n] * 256 + s[8 + n] == p.2
            &&& !wide ==> s[5 + n] * 256 + s[6 + n] == p.2
        }),
{
    let one = written_peer(p, wide, bgp_id);
    let s = one + rest;
    let n = p.1.len() as int;
    let tail = if wide {
        four_of(p.2 as int)
    } else {
        two(p.2 as int)
    };
    if wide {
        lemma_four(p.2 as int);
        assert(s[5 + n] == tail[0] && s[6 + n] == tail[1] && s[7 + n] == tail[2] && s[8 + n] == tail[3]);
    } else {
        lemma_two(p.2 as int);
        assert(s[5 + n] == tail[0] && s[6 + n] == tail[1]);
    }
    assert(s.subrange(5, 5 + n) =~= p.1);
    assert(s.skip(one.len() as int) =~= rest);
}

/// What goes before a message of a peer as it is written: the AS numbers of
/// both ends, an interface, the family of the addresses, and the addresses of
/// both ends.
pub open spec fn written_ends(
    peer: PeerView,
    wide: bool,
    local_asn: Seq<u8>,
    interface: Seq<u8>,
    local_addr: Seq<u8>,
) -> Seq<u8> {
    (if wide {
        four_of(peer.2 as int)
    } else {
        two(peer.2 as int)
    }) + local_asn + interface + two(
        if peer.0 {
            1
        } else {
            2
        },
    ) + peer.1 + local_addr
}

/// Whether a record of messages is written as its kind has it: with its time
/// in whole seconds, or with microseconds behind it.
pub open spec fn written_bgp4mp(stamp: Seq<u8>, micros: Option<Seq<u8>>, sub: int, body: Seq<u8>) -> Seq<u8> {
    match micros {
        Some(m) => written_record(stamp, 17, sub, m + body),
        None => written_record(stamp, 16, sub, body),
    }
}

/// A record of messages is read as it was written. Subtypes 1 and 4 hold a
/// message, without and with AS numbers of four octets, 8 and 9 one whose
/// routes have path ids, and 0 and 5 a change of state.
pub proof fn a_message_is_read_as_it_was_written(
    stamp: Seq<u8>,
    micros: Option<Seq<u8>>,
    sub: int,
    peer: PeerView,
    wide: bool,
    local_asn: Seq<u8>,
    interface: Seq<u8>,
    local_addr: Seq<u8>,
    rest: Seq<u8>,
)
    requires
        stamp.len() == 4,
        micros matches Some(m) ==> m.len() == 4,
        peer.0 ==> peer.1.len() == 4,
        !peer.0 ==> peer.1.len() == 16,
        local_addr.len() == peer.1.len(),
        interface.len() == 2,
        wide ==> local_asn.len() == 4,
        !wide ==> local_asn.len() == 2 && peer.2 < 65536,
        wide == (sub == 4 || sub == 5 || sub == 9),
        sub == 0 || sub == 1 || sub == 4 || sub == 5 || sub == 8 || sub == 9,
        rest.len() < 65536,
    ensures
        ({
            let m = message_of(
                written_bgp4mp(stamp, micros, sub, written_ends(peer, wide, local_asn, interface, local_addr) + rest),
            );
            &&& sub == 1 || sub == 4 ==> m == Some(Bgp4MpView::Message { peer, path_ids: false, pdu: rest })
            &&& sub == 8 || sub == 9 ==> m == Some(Bgp4MpView::Message { peer, path_ids: true, pdu: rest })
            &&& (sub == 0 || sub == 5) && rest.len() >= 4 ==> m == Some(
                Bgp4MpView::StateChange {
                    peer,
                    old_state: (rest[0] * 256 + rest[1]) as u16,
                    new_state: (rest[2] * 256 + rest[3]) as u16,
                },
            )
        }),
{
    let body = written_ends(peer, wide, local_asn, interface, local_addr) + rest;
    let rec = written_bgp4mp(stamp, micros, sub, body);
    match micros {
        Some(m) => {
            lemma_record_read(stamp, 17, sub, m + body);
            assert(rec.skip(16) =~= rec.skip(12).skip(4));
            assert((m + body).skip(4) =~= body);
        },
        None => {
            lemma_record_read(stamp, 16, sub, body);
        },
    }
    lemma_ends_read(peer, wide, local_asn, interface, local_addr, rest);
}

#[verifier::spinoff_prover]
proof fn lemma_ends_read(
    peer: PeerView,
    wide: bool,
    local_asn: Seq<u8>,
    interface: Seq<u8>,
    local_addr: Seq<u8>,
    rest: Seq<u8>,
)
    requires
        peer.0 ==> peer.1.len() == 4,
        !peer.0 ==> peer.1.len() == 16,
        local_addr.len() == peer.1.len(),
        interface.len() == 2,
        wide ==> local_asn.len() == 4,
        !wide ==> local_asn.len() == 2 && peer.2 < 65536,
    ensures
        ({
            let body = written_ends(peer, wide, local_asn, interface, local_addr) + rest;
            let message = MessageShape { state_change: false, wide, path_ids: false };
            let paths = MessageShape { state_change: false, wide, path_ids: true };
            let change = MessageShape { state_change: true, wide, path_ids: false };
            &&& message_body(body, message) == Some(Bgp4MpView::Message { peer, path_ids: false, pdu: rest })
            &&& message_body(body, paths) == Some(Bgp4MpView::Message { peer, path_ids: true, pdu: rest })
            &&& rest.len() >= 4 ==> message_body(body, change) == Some(
                Bgp4MpView::StateChange {
                    peer,
                    old_state: (rest[0] * 256 + rest[1]) as u16,
                    new_state: (rest[2] * 256 + rest[3]) as u16,
                },
            )
        }),
{
    let ends = written_ends(peer, wide, local_asn, interface, local_addr);
    let body = ends + rest;
    let a: int = if wide {
        4
    } else {
        2
    };
    let n = peer.1.len() as int;
    let asn = if wide {
        four_of(peer.2 as int)
    } else {
        two(peer.2 as int)
    };
    if wide {
        lemma_four(peer.2 as int);
        assert(body[0] == asn[0] && body[1] == asn[1] && body[2] == asn[2] && body[3] == asn[3]);
    } else {
        lemma_two(peer.2 as int);
        assert(body[0] == asn[0] && body[1] == asn[1]);
    }
    let afi: int = if peer.0 {
        1
    } else {
        2
    };
    lemma_two(afi);
    assert(body[2 * a + 2] == two(afi)[0] && body[2 * a + 3] == two(afi)[1]);
    assert(body.subrange(2 * a + 4, 2 * a + 4 + n) =~= peer.1);
    assert(ends.len() == 2 * a + 4 + 2 * n);
    assert(body.skip(ends.len() as int) =~= rest);
    assert((peer.0, body.subrange(2 * a + 4, 2 * a + 4 + n), peer.2) == peer);
    if rest.len() >= 4 {
        let e = ends.len() as int;
        assert(body[e] == rest[0] && body[e + 1] == rest[1] && body[e + 2] == rest[2] && body[e + 3] == rest[3]);
    }
}

/// A session that goes from established to idle takes its routes and those of
/// its paths with it: that is told of a peer that is registered, and nothing of
/// others or of other changes.
pub proof fn a_session_that_goes_down_is_gone(
    v: ImportView,
    parent: IngressId,
    peer: PeerView,
    old_state: u16,
    new_state: u16,
)
    ensures
        ({
            let o = message_told(v, parent, Bgp4MpView::StateChange { peer, old_state, new_state });
            &&& o.fault is None
            &&& o.state == v
            &&& old_state == 6 && new_state == 1 ==> match existing(v.infos, parent, peer) {
                Some(id) => o.told.len() == 1 && (o.told[0] matches Told::Gone(x, paths) && x == id && forall|c: IngressId|
                    #[trigger]
                    paths.contains(c) == exists|p: u32| #[trigger]
                        v.children.contains_key((id, p)) && v.children[(id, p)] == c),
                None => o.told.len() == 0,
            }
            &&& old_state != 6 || new_state != 1 ==> o.told.len() == 0
        }),
{
}

/// NLRI are read by their family: prefixes of the four families of these,
/// FlowSpec rules of two, and EVPN routes.
pub proof fn nlri_are_read_by_their_family(p: PrefixKey, rule: Seq<u8>, evpn: Seq<u8>)
    requires
        valid_key(p),
    ensures
        p.0 ==> nlri_of(1, 1, written_prefix(p)) == Some((AfiSafiType::Ipv4Unicast, NlriKind::Prefix(p))),
        !p.0 ==> nlri_of(2, 1, written_prefix(p)) == Some((AfiSafiType::Ipv6Unicast, NlriKind::Prefix(p))),
        p.0 ==> nlri_of(1, 2, written_prefix(p)) == Some((AfiSafiType::Ipv4Multicast, NlriKind::Prefix(p))),
        !p.0 ==> nlri_of(2, 2, written_prefix(p)) == Some((AfiSafiType::Ipv6Multicast, NlriKind::Prefix(p))),
        rule.len() < 240 ==> nlri_of(1, 133, seq![rule.len() as u8] + rule) == Some(
            (AfiSafiType::Ipv4FlowSpec, NlriKind::Rule(rule)),
        ) && nlri_of(2, 133, seq![rule.len() as u8] + rule) == Some((AfiSafiType::Ipv6FlowSpec, NlriKind::Rule(rule))),
        240 <= rule.len() < 4096 ==> nlri_of(1, 133, two(0xf000int + rule.len()) + rule) == Some(
            (AfiSafiType::Ipv4FlowSpec, NlriKind::Rule(rule)),
        ) && nlri_of(2, 133, two(0xf000int + rule.len()) + rule) == Some(
            (AfiSafiType::Ipv6FlowSpec, NlriKind::Rule(rule)),
        ),
        evpn_valid(evpn) ==> nlri_of(25, 70, evpn) == Some((AfiSafiType::L2VpnEvpn, NlriKind::Evpn(evpn))),
        !evpn_valid(evpn) ==> nlri_of(25, 70, evpn) is None,
{
    let none = Seq::<u8>::empty();
    a_prefix_is_read_as_it_was_written(p, none);
    assert(written_prefix(p) + none =~= written_prefix(p));
    assert(written_prefix(p).len() == 1 + (p.2 + 7) / 8);
    let n = rule.len() as int;
    if n < 240 {
        let s = seq![n as u8] + rule;
        assert(s.subrange(1, 1 + n) =~= rule);
        assert(rule_extent(s) == Some((1int, 1 + n)));
    } else if n < 4096 {
        let s = two(0xf000 + n) + rule;
        lemma_two(0xf000 + n);
        assert(s[0] == 240 + n / 256) by {
            assert((0xf000 + n) / 256 == 240 + n / 256);
        }
        assert(s[0] % 16 == n / 256);
        assert(s[1] == n % 256) by {
            assert((0xf000 + n) % 256 == n % 256);
        }
        assert(n == 256 * (n / 256) + n % 256);
        assert(s.subrange(2, 2 + n) =~= rule);
        assert(rule_extent(s) == Some((2int, 2 + n)));
    }
}

/// Whether routes have one of an UPDATE, with a status.
pub open spec fn shows_route(all: Seq<Shown>, e: ExplodedView, status: RouteStatus, ingress: IngressId) -> bool {
    exists|k: int|
        0 <= k < all.len() && {
            let s = #[trigger] all[k];
            s.family == e.family && s.nlri == e.nlri && s.attrs == e.attrs && s.status == status && s.ingress == ingress
        }
}

proof fn lemma_announced_shown(v: ImportView, peer: IngressId, list: Seq<ExplodedView>, i: int)
    requires
        0 <= i < list.len(),
        announced_by(v, peer, list).1 is Some,
        list[i].path_id is None,
    ensures
        shows_route(announced_by(v, peer, list).1->0, list[i], RouteStatus::Active, peer),
    decreases list.len(),
{
    let front = list.drop_last();
    let all = announced_by(v, peer, list).1->0;
    let before = announced_by(v, peer, front).1->0;
    if i < front.len() {
        assert(front[i] == list[i]);
        lemma_announced_shown(v, peer, front, i);
        let k = choose|k: int|
            0 <= k < before.len() && {
                let s = #[trigger] before[k];
                s.family == list[i].family && s.nlri == list[i].nlri && s.attrs == list[i].attrs && s.status
                    == RouteStatus::Active && s.ingress == peer
            };
        assert(all[k] == before[k]);
    } else {
        assert(all[all.len() - 1].ingress == peer);
    }
}

proof fn lemma_withdrawn_shown(v: ImportView, peer: IngressId, list: Seq<ExplodedView>, i: int)
    requires
        0 <= i < list.len(),
        list[i].path_id is None,
    ensures
        shows_route(withdrawn_by(v, peer, list), list[i], RouteStatus::Withdrawn, peer),
    decreases list.len(),
{
    let front = list.drop_last();
    let all = withdrawn_by(v, peer, list);
    let before = withdrawn_by(v, peer, front);
    if i < front.len() {
        assert(front[i] == list[i]);
        lemma_withdrawn_shown(v, peer, front, i);
        let k = choose|k: int|
            0 <= k < before.len() && {
                let s = #[trigger] before[k];
                s.family == list[i].family && s.nlri == list[i].nlri && s.attrs == list[i].attrs && s.status
                    == RouteStatus::Withdrawn && s.ingress == peer
            };
        assert(all[k] == before[k]);
    } else {
        assert(all[all.len() - 1].ingress == peer);
    }
}

/// Whether routes of a family are sent on.
pub open spec fn is_sent_on(f: AfiSafiType) -> bool {
    f is Ipv4Unicast || f is Ipv6Unicast || f is Ipv4FlowSpec || f is Ipv6FlowSpec || f is L2VpnEvpn
}

/// The routes of an UPDATE in a file are told: those that it announces as in
/// use, those that it withdraws as withdrawn, from the ingress that is
/// registered for the peer. That is said here of routes without path ids, of
/// the families that are sent on.
pub proof fn an_update_of_a_peer_is_told(
    v: ImportView,
    parent: IngressId,
    peer: PeerView,
    path_ids: bool,
    pdu: Seq<u8>,
    announced: Seq<ExplodedView>,
    withdrawn: Seq<ExplodedView>,
    i: int,
    is_announced: bool,
)
    requires
        settled(v),
        update_routes(pdu, path_ids) == Some(Some((announced, withdrawn))),
        message_told(v, parent, Bgp4MpView::Message { peer, path_ids, pdu }).fault is None,
        is_announced ==> 0 <= i < announced.len() && announced[i].path_id is None && is_sent_on(announced[i].family),
        !is_announced ==> 0 <= i < withdrawn.len() && withdrawn[i].path_id is None && is_sent_on(withdrawn[i].family),
    ensures
        ({
            let o = message_told(v, parent, Bgp4MpView::Message { peer, path_ids, pdu });
            o.told.len() == 1 && (o.told[0] matches Told::Routes(all) && (existing(o.state.infos, parent, peer) matches Some(
                id,
            ) && {
                &&& o.state.infos.contains_key(id)
                &&& is_mrt_peer(o.state.infos[id], parent, peer)
                &&& is_announced ==> shows_route(all, announced[i], RouteStatus::Active, id)
                &&& !is_announced ==> shows_route(all, withdrawn[i], RouteStatus::Withdrawn, id)
            }))
        }),
{
    let o = message_told(v, parent, Bgp4MpView::Message { peer, path_ids, pdu });
    let (a, w) = (supported(announced), supported(withdrawn));
    let sent_on = |e: ExplodedView| e.family.reemitted();
    if is_announced {
        announced.lemma_filter_contains(sent_on, i);
    } else {
        withdrawn.lemma_filter_contains(sent_on, i);
    }
    let e = if is_announced {
        announced[i]
    } else {
        withdrawn[i]
    };
    let from = if is_announced {
        a
    } else {
        w
    };
    let k = choose|k: int| 0 <= k < from.len() && from[k] == e;
    assert(from[k].path_id is None);
    if !is_announced {
        assert(!crate::mrt_file::all_paths(w));
    }
    lemma_peer_found(v, parent, peer, None);
    let (x, found) = v.peer_for(parent, peer, None);
    let id = found->0;
    lemma_announced(x, id, a);
    let (y, s) = announced_by(x, id, a);
    lemma_peer_stays(x, y, parent, peer);
    assert(crate::mrt_import::is_first_peer(y.infos, parent, peer, id));
    let all = s->0 + withdrawn_by(y, id, w);
    if is_announced {
        lemma_announced_shown(x, id, a, k);
        let n = choose|n: int|
            0 <= n < s->0.len() && {
                let t = #[trigger] s->0[n];
                t.family == e.family && t.nlri == e.nlri && t.attrs == e.attrs && t.status == RouteStatus::Active
                    && t.ingress == id
            };
        assert(all[n] == s->0[n]);
    } else {
        lemma_withdrawn_shown(y, id, w, k);
        let l = withdrawn_by(y, id, w);
        let n = choose|n: int|
            0 <= n < l.len() && {
                let t = #[trigger] l[n];
                t.family == e.family && t.nlri == e.nlri && t.attrs == e.attrs && t.status == RouteStatus::Withdrawn
                    && t.ingress == id
            };
        assert(all[s->0.len() + n] == l[n]);
    }
    assert(o.told == seq![Told::Routes(all)]);
}

} // verus!
