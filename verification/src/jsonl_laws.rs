//! What holds of tables that are written out line by line, chunk after chunk.
use vstd::prelude::*;

use crate::filter::{
    all_filtered, can_say, distinct_muis, filtered, lemma_filtered, lemma_filtered_all, lemma_kept_row, lemma_row_left,
    lemma_rows_add_up, lemma_rows_in_order, passes, rows_left, set_view, sifted,
};
use crate::ingress::IngressInfo;
use crate::jsonl::{
    fetched, not_withdrawn, opt_set_topics, record_topics, rows_of, set_topics, streamed, tell_all, tells_record, topics,
    JsonlLine, Section, Topic,
};
use crate::pamap::RotondaPaMap;
use crate::query::QueryFilter;
use crate::search::SearchResult;
use crate::store::{distinct_keys, has_key, listed, wanted, PrefixRecord, Record, StoreView};
use crate::types::{IngressId, Prefix, PrefixKey};

verus! {

/// Whether a record is one of a prefix that is in use, and that a query which
/// may be limited to one ingress wants.
pub open spec fn in_use(
    s: StoreView<Seq<u8>>,
    mui: Option<IngressId>,
    p: PrefixKey,
    rec: Record<RotondaPaMap>,
) -> bool {
    &&& wanted(mui, rec.multi_uniq_id)
    &&& s.shown(p, rec.multi_uniq_id, mui is Some, true) == Some(rec@)
    &&& !(rec.status is Withdrawn)
}

/// Whether a record of a prefix is among those written out.
pub open spec fn written(v: Seq<PrefixRecord<RotondaPaMap>>, p: PrefixKey, rec: Record<RotondaPaMap>) -> bool {
    exists|i: int, k: int|
        {
            &&& 0 <= i < v.len()
            &&& 0 <= k < v[i].meta@.len()
            &&& v[i].prefix@ == p
            &&& (#[trigger] v[i].meta@[k]).multi_uniq_id == rec.multi_uniq_id
            &&& v[i].meta@[k]@ == rec@
        }
}

/// Two chunks of a stream make up the stream of the prefixes of both: nothing
/// is lost between them and nothing comes twice.
pub proof fn streamed_chunks_add_up<F: Fn(&RotondaPaMap) -> bool>(
    s: StoreView<Seq<u8>>,
    f: QueryFilter,
    infos: Map<IngressId, IngressInfo>,
    function: Option<&F>,
    a: Seq<Prefix>,
    b: Seq<Prefix>,
    v: Seq<PrefixRecord<RotondaPaMap>>,
    w: Seq<PrefixRecord<RotondaPaMap>>,
)
    requires
        streamed(s, f, infos, function, a, v),
        streamed(s, f, infos, function, b, w),
    ensures
        streamed(s, f, infos, function, a + b, v + w),
{
    let (recs_a, kept_a) = lemma_streamed(s, f, infos, function, a, v);
    let (recs_b, kept_b) = lemma_streamed(s, f, infos, function, b, w);
    let (rows_a, rows_b) = (rows_of(a, recs_a), rows_of(b, recs_b));
    let recs = recs_a + recs_b;
    let kept = kept_a + kept_b;
    let rows = rows_of(a + b, recs);
    assert forall|i: int| 0 <= i < (a + b).len() implies listed(s, (a + b)[i]@, f.ingress_id, true, #[trigger] recs[i]) by {
        if i < a.len() {
            assert(recs[i] == recs_a[i]);
        } else {
            assert(recs[i] == recs_b[i - a.len()]);
        }
    }
    assert(rows =~= rows_a + rows_b);
    assert forall|i: int| 0 <= i < rows.len() implies filtered(f, infos, function, rows[i].1, #[trigger] kept[i]) by {
        if i < a.len() {
            assert(kept[i] == kept_a[i]);
        } else {
            assert(kept[i] == kept_b[i - a.len()]);
        }
    }
    lemma_rows_add_up(rows_a, rows_b, kept_a, kept_b);
    assert(set_view(v + w) =~= set_view(v) + set_view(w));
    assert(all_filtered(f, infos, function, rows, kept));
    assert(fetched(s, f.ingress_id, a + b, recs));
}

/// The records that a stream has fetched, and what is left of them.
proof fn lemma_streamed<F: Fn(&RotondaPaMap) -> bool>(
    s: StoreView<Seq<u8>>,
    f: QueryFilter,
    infos: Map<IngressId, IngressInfo>,
    function: Option<&F>,
    keys: Seq<Prefix>,
    v: Seq<PrefixRecord<RotondaPaMap>>,
) -> (r: (Seq<Seq<Record<RotondaPaMap>>>, Seq<Seq<Record<RotondaPaMap>>>))
    requires
        streamed(s, f, infos, function, keys, v),
    ensures
        fetched(s, f.ingress_id, keys, r.0),
        all_filtered(f, infos, function, rows_of(keys, r.0), r.1),
        set_view(v) == rows_left(rows_of(keys, r.0), r.1),
{
    let recs = choose|recs: Seq<Seq<Record<RotondaPaMap>>>| #[trigger]
        fetched(s, f.ingress_id, keys, recs) && sifted(f, infos, function, rows_of(keys, recs), set_view(v));
    let kept = choose|kept: Seq<Seq<Record<RotondaPaMap>>>| #[trigger]
        all_filtered(f, infos, function, rows_of(keys, recs), kept) && set_view(v) == rows_left(
            rows_of(keys, recs),
            kept,
        );
    (recs, kept)
}

/// Records that are not withdrawn stand as they did among all.
proof fn lemma_not_withdrawn(v: Seq<Record<RotondaPaMap>>)
    requires
        distinct_muis(v),
    ensures
        distinct_muis(not_withdrawn(v)),
        forall|i: int|
            0 <= i < not_withdrawn(v).len() ==> v.contains(#[trigger] not_withdrawn(v)[i]) && !(not_withdrawn(
                v,
            )[i].status is Withdrawn),
        forall|j: int| 0 <= j < v.len() && !((#[trigger] v[j]).status is Withdrawn) ==> not_withdrawn(v).contains(v[j]),
    decreases v.len(),
{
    reveal(Seq::filter);
    let all = not_withdrawn(v);
    if v.len() > 0 {
        let rest = v.drop_last();
        let front = not_withdrawn(rest);
        lemma_not_withdrawn(rest);
        assert forall|i: int| 0 <= i < all.len() implies v.contains(#[trigger] all[i]) && !(all[i].status is Withdrawn) by {
            if i < front.len() {
                assert(all[i] == front[i]);
                let k = choose|k: int| 0 <= k < rest.len() && rest[k] == front[i];
                assert(v[k] == all[i]);
            } else {
                assert(v[v.len() - 1] == all[i]);
            }
        }
        assert forall|i: int, j: int| 0 <= i < j < all.len() implies (#[trigger] all[i]).multi_uniq_id != (
        #[trigger] all[j]).multi_uniq_id by {
            if j == front.len() {
                assert(all[i] == front[i]);
                let k = choose|k: int| 0 <= k < rest.len() && rest[k] == front[i];
                assert(v[k].multi_uniq_id != v[v.len() - 1].multi_uniq_id);
            } else {
                assert(all[i] == front[i] && all[j] == front[j]);
            }
        }
        assert forall|j: int| 0 <= j < v.len() && !((#[trigger] v[j]).status is Withdrawn) implies all.contains(v[j]) by {
            if j < rest.len() {
                assert(rest[j] == v[j]);
                let k = choose|k: int| 0 <= k < front.len() && front[k] == v[j];
                assert(all[k] == v[j]);
            } else {
                assert(all[front.len() as int] == v[j]);
            }
        }
    }
}

/// A stream tells of each prefix once, and of each ingress once with it; it
/// tells of records only that are in use, that the query lets pass and that
/// its filter function accepts; and it tells of all of them, but those that
/// the filter function rejects.
pub proof fn a_stream_tells_each_route_once<F: Fn(&RotondaPaMap) -> bool>(
    s: StoreView<Seq<u8>>,
    f: QueryFilter,
    infos: Map<IngressId, IngressInfo>,
    function: Option<&F>,
    keys: Seq<Prefix>,
    v: Seq<PrefixRecord<RotondaPaMap>>,
)
    requires
        distinct_keys(keys),
        streamed(s, f, infos, function, keys, v),
    ensures
        forall|i: int, j: int| 0 <= i < j < v.len() ==> (#[trigger] v[i]).prefix@ != (#[trigger] v[j]).prefix@,
        forall|i: int|
            0 <= i < v.len() ==> has_key(keys, (#[trigger] v[i]).prefix@) && v[i].meta@.len() > 0 && distinct_muis(
                v[i].meta@,
            ),
        forall|i: int, k: int|
            0 <= i < v.len() && 0 <= k < v[i].meta@.len() ==> {
                &&& in_use(s, f.ingress_id, v[i].prefix@, #[trigger] v[i].meta@[k])
                &&& passes(f, infos, v[i].meta@[k])
                &&& function is Some ==> can_say(function, v[i].meta@[k].meta@, true)
            },
        forall|p: PrefixKey, rec: Record<RotondaPaMap>|
            has_key(keys, p) && #[trigger] in_use(s, f.ingress_id, p, rec) && passes(f, infos, rec) ==> written(v, p, rec)
                || can_say(function, rec.meta@, false),
{
    let mui = f.ingress_id;
    let (recs, kept) = lemma_streamed(s, f, infos, function, keys, v);
    let rows = rows_of(keys, recs);
    let left = rows_left(rows, kept);
    assert forall|i: int, j: int| 0 <= i < j < v.len() implies (#[trigger] v[i]).prefix@ != (#[trigger] v[j]).prefix@ by {
        let (x, y) = lemma_rows_in_order(rows, kept, i, j);
        assert(set_view(v)[i].0 == v[i].prefix && set_view(v)[j].0 == v[j].prefix);
        assert(keys[x]@ != keys[y]@);
    }
    assert forall|i: int| 0 <= i < v.len() implies has_key(keys, (#[trigger] v[i]).prefix@) && v[i].meta@.len() > 0
        && distinct_muis(v[i].meta@) && all_in_use(s, f, infos, function, v[i].prefix@, v[i].meta@) by {
        let x = lemma_row_left(rows, kept, i);
        assert(set_view(v)[i] == (v[i].prefix, v[i].meta@));
        assert(keys[x]@ == v[i].prefix@);
        assert(filtered(f, infos, function, rows[x].1, kept[x]));
        assert(listed(s, keys[x]@, mui, true, recs[x]));
        lemma_row_in_use(s, f, infos, function, keys[x]@, recs[x], kept[x]);
    }
    assert forall|i: int, k: int| 0 <= i < v.len() && 0 <= k < v[i].meta@.len() implies {
        &&& in_use(s, f.ingress_id, v[i].prefix@, #[trigger] v[i].meta@[k])
        &&& passes(f, infos, v[i].meta@[k])
        &&& function is Some ==> can_say(function, v[i].meta@[k].meta@, true)
    } by {
        assert(all_in_use(s, f, infos, function, v[i].prefix@, v[i].meta@));
    }
    assert forall|p: PrefixKey, rec: Record<RotondaPaMap>|
        has_key(keys, p) && #[trigger] in_use(s, f.ingress_id, p, rec) && passes(f, infos, rec) implies written(v, p, rec)
        || can_say(function, rec.meta@, false) by {
        let x = choose|x: int| 0 <= x < keys.len() && (#[trigger] keys[x])@ == p;
        assert(listed(s, keys[x]@, mui, true, recs[x]));
        assert(filtered(f, infos, function, rows[x].1, kept[x]));
        lemma_not_withdrawn(recs[x]);
        lemma_filtered_all(f, infos, function, rows[x].1, kept[x]);
        let y = choose|y: int| 0 <= y < recs[x].len() && (#[trigger] recs[x][y]).multi_uniq_id == rec.multi_uniq_id;
        let r = recs[x][y];
        assert(r@ == rec@);
        let z = choose|z: int| 0 <= z < rows[x].1.len() && rows[x].1[z] == r;
        assert(passes(f, infos, rows[x].1[z]));
        if kept[x].contains(r) {
            let k = choose|k: int| 0 <= k < kept[x].len() && kept[x][k] == r;
            let i = lemma_kept_row(rows, kept, x);
            assert(set_view(v)[i] == (v[i].prefix, v[i].meta@));
            assert(v[i].meta@[k] == r);
        } else {
            assert(r.meta@ == rec.meta@);
        }
    }
}

/// Whether all records of a prefix are in use, and the query and its filter
/// function let them pass.
spec fn all_in_use<F: Fn(&RotondaPaMap) -> bool>(
    s: StoreView<Seq<u8>>,
    f: QueryFilter,
    infos: Map<IngressId, IngressInfo>,
    function: Option<&F>,
    p: PrefixKey,
    v: Seq<Record<RotondaPaMap>>,
) -> bool {
    forall|k: int|
        0 <= k < v.len() ==> {
            &&& in_use(s, f.ingress_id, p, #[trigger] v[k])
            &&& passes(f, infos, v[k])
            &&& function is Some ==> can_say(function, v[k].meta@, true)
        }
}

/// What is left of the records of a prefix.
proof fn lemma_row_in_use<F: Fn(&RotondaPaMap) -> bool>(
    s: StoreView<Seq<u8>>,
    f: QueryFilter,
    infos: Map<IngressId, IngressInfo>,
    function: Option<&F>,
    p: PrefixKey,
    recs: Seq<Record<RotondaPaMap>>,
    kept: Seq<Record<RotondaPaMap>>,
)
    requires
        listed(s, p, f.ingress_id, true, recs),
        filtered(f, infos, function, not_withdrawn(recs), kept),
    ensures
        distinct_muis(kept),
        all_in_use(s, f, infos, function, p, kept),
{
    let some = not_withdrawn(recs);
    lemma_not_withdrawn(recs);
    lemma_filtered_all(f, infos, function, some, kept);
    assert forall|k: int| 0 <= k < kept.len() implies {
        &&& in_use(s, f.ingress_id, p, #[trigger] kept[k])
        &&& passes(f, infos, kept[k])
        &&& function is Some ==> can_say(function, kept[k].meta@, true)
    } by {
        lemma_filtered(f, infos, function, some, kept, k);
        let i = choose|i: int| 0 <= i < some.len() && some[i] == kept[k];
        let j = choose|j: int| 0 <= j < recs.len() && recs[j] == some[i];
        assert(recs[j] == kept[k]);
        assert(kept[k].meta@ == kept[k].meta@);
    }
}

/// Whether lines have one for a record of a prefix: with its prefix, its part
/// of the answer, its status, its ingress and its attributes.
pub open spec fn has_line(
    lines: Seq<JsonlLine<'_>>,
    prefix: Prefix,
    section: Section,
    rec: Record<RotondaPaMap>,
) -> bool {
    exists|i: int|
        0 <= i < lines.len() && is_line(#[trigger] lines[i], prefix, section, rec)
}

/// Whether a line is that of a record of a prefix.
pub open spec fn is_line(l: JsonlLine<'_>, prefix: Prefix, section: Section, rec: Record<RotondaPaMap>) -> bool {
    &&& l.prefix == prefix
    &&& l.section == section
    &&& l.status == rec.status
    &&& l.ingress_id == rec.multi_uniq_id
    &&& *l.pamap == rec.meta
}

/// An answer is written with a line for each of its records: of the prefix
/// that was asked for, of the more specific ones and of the less specific
/// ones. Each line tells what is known of its ingress.
pub proof fn an_answer_is_written_line_by_line(sr: SearchResult, lines: Seq<JsonlLine<'_>>)
    requires
        tell_all(lines, sr.ingress_info@, topics(sr)),
    ensures
        sr.query_result.prefix matches Some(p) ==> forall|k: int|
            0 <= k < sr.query_result.records@.len() ==> has_line(
                lines,
                p,
                Section::Data,
                #[trigger] sr.query_result.records@[k],
            ),
        sr.query_result.more_specifics matches Some(v) ==> forall|i: int, k: int|
            0 <= i < v@.len() && 0 <= k < v@[i].meta@.len() ==> has_line(
                lines,
                v@[i].prefix,
                Section::MoreSpecifics,
                #[trigger] v@[i].meta@[k],
            ),
        sr.query_result.less_specifics matches Some(v) ==> forall|i: int, k: int|
            0 <= i < v@.len() && 0 <= k < v@[i].meta@.len() ==> has_line(
                lines,
                v@[i].prefix,
                Section::LessSpecifics,
                #[trigger] v@[i].meta@[k],
            ),
        forall|i: int|
            0 <= i < lines.len() ==> match (#[trigger] lines[i]).ingress {
                Some(info) => sr.ingress_info@.contains_key(lines[i].ingress_id) && sr.ingress_info@[lines[i].ingress_id]
                    == *info,
                None => !sr.ingress_info@.contains_key(lines[i].ingress_id),
            },
{
    let all = topics(sr);
    let infos = sr.ingress_info@;
    let q = sr.query_result;
    let data = match q.prefix {
        Some(p) => record_topics(p, Section::Data, q.records@),
        None => Seq::empty(),
    };
    let more = opt_set_topics(Section::MoreSpecifics, q.more_specifics);
    let less = opt_set_topics(Section::LessSpecifics, q.less_specifics);
    assert(all == data + more + less);
    match q.prefix {
        Some(p) => {
            assert forall|k: int| 0 <= k < q.records@.len() implies has_line(
                lines,
                p,
                Section::Data,
                #[trigger] q.records@[k],
            ) by {
                assert(data[k] == (p, Section::Data, q.records@[k]));
                lemma_line(lines, infos, all, k);
            }
        },
        None => {},
    }
    match q.more_specifics {
        Some(v) => {
            assert forall|i: int, k: int| 0 <= i < v@.len() && 0 <= k < v@[i].meta@.len() implies has_line(
                lines,
                v@[i].prefix,
                Section::MoreSpecifics,
                #[trigger] v@[i].meta@[k],
            ) by {
                let t = lemma_topic(Section::MoreSpecifics, set_view(v@), i, k);
                assert(all[data.len() + t] == more[t]);
                lemma_line(lines, infos, all, data.len() + t);
            }
        },
        None => {},
    }
    match q.less_specifics {
        Some(v) => {
            assert forall|i: int, k: int| 0 <= i < v@.len() && 0 <= k < v@[i].meta@.len() implies has_line(
                lines,
                v@[i].prefix,
                Section::LessSpecifics,
                #[trigger] v@[i].meta@[k],
            ) by {
                let t = lemma_topic(Section::LessSpecifics, set_view(v@), i, k);
                assert(all[data.len() + more.len() + t] == less[t]);
                lemma_line(lines, infos, all, data.len() + more.len() + t);
            }
        },
        None => {},
    }
    assert forall|i: int| 0 <= i < lines.len() implies match (#[trigger] lines[i]).ingress {
        Some(info) => sr.ingress_info@.contains_key(lines[i].ingress_id) && sr.ingress_info@[lines[i].ingress_id]
            == *info,
        None => !sr.ingress_info@.contains_key(lines[i].ingress_id),
    } by {
        assert(tells_record(lines[i], infos, all[i].0, all[i].1, all[i].2));
    }
}

proof fn lemma_line(lines: Seq<JsonlLine<'_>>, infos: Map<IngressId, IngressInfo>, all: Seq<Topic>, t: int)
    requires
        tell_all(lines, infos, all),
        0 <= t < all.len(),
    ensures
        has_line(lines, all[t].0, all[t].1, all[t].2),
{
    assert(tells_record(lines[t], infos, all[t].0, all[t].1, all[t].2));
    assert(is_line(lines[t], all[t].0, all[t].1, all[t].2));
}

/// Where the topic of a record of a set of prefixes stands.
proof fn lemma_topic(section: Section, v: Seq<(Prefix, Seq<Record<RotondaPaMap>>)>, i: int, k: int) -> (t: int)
    requires
        0 <= i < v.len(),
        0 <= k < v[i].1.len(),
    ensures
        0 <= t < set_topics(section, v).len(),
        set_topics(section, v)[t] == (v[i].0, section, v[i].1[k]),
    decreases v.len(),
{
    let rest = v.drop_last();
    if i < rest.len() {
        lemma_topic(section, rest, i, k)
    } else {
        set_topics(section, rest).len() + k
    }
}

} // verus!
