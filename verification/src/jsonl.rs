//! Answers that are written out line by line, and whole tables that are.
use vstd::prelude::*;

use crate::dump::DumpCursor;
use crate::filter::{
    callable, filter_set, known_info, set_view, sifted, source_of, wanted, wanted_function, RouteSource,
};
use crate::ingress::IngressInfo;
use crate::pamap::RotondaPaMap;
use crate::query::QueryFilter;
use crate::register::{copies, with_parents};
use crate::rib::Rib;
use crate::search::{has_store, refusal, SearchResult};
use crate::store::{has_key, listed, PrefixRecord, Record, RouteStore, StoreView};
use crate::table::Table;
use crate::types::{AfiSafiType, IngressId, Prefix, PrefixKey, RouteStatus};

verus! {

/// The part of an answer that a line belongs to.
#[derive(Clone, Copy, Debug, PartialEq, Eq, Structural)]
pub enum Section {
    /// The prefix that was asked for.
    Data,
    MoreSpecifics,
    LessSpecifics,
}

impl Section {
    /// The name of the part.
    pub fn name(&self) -> (r: &'static str)
        ensures
            r@ == (match self {
                Section::Data => "data"@,
                Section::MoreSpecifics => "moreSpecifics"@,
                Section::LessSpecifics => "lessSpecifics"@,
            }),
    {
        match self {
            Section::Data => "data",
            Section::MoreSpecifics => "moreSpecifics",
            Section::LessSpecifics => "lessSpecifics",
        }
    }
}

impl RouteStatus {
    /// The name of a status.
    pub fn name(&self) -> (r: &'static str)
        ensures
            r@ == (match self {
                RouteStatus::Active => "active"@,
                RouteStatus::InActive => "inactive"@,
                RouteStatus::Withdrawn => "withdrawn"@,
            }),
    {
        match self {
            RouteStatus::Active => "active",
            RouteStatus::InActive => "inactive",
            RouteStatus::Withdrawn => "withdrawn",
        }
    }
}

/// One line: a route, told by its prefix and its ingress.
#[derive(Debug)]
pub struct JsonlLine<'a> {
    pub prefix: Prefix,
    pub section: Section,
    pub status: RouteStatus,
    pub ingress_id: IngressId,
    /// What is known of the ingress.
    pub ingress: Option<&'a IngressInfo>,
    pub source: RouteSource,
    pub pamap: &'a RotondaPaMap,
}

/// Whether a line tells of a record.
pub open spec fn tells_record(
    l: JsonlLine<'_>,
    infos: Map<IngressId, IngressInfo>,
    prefix: Prefix,
    section: Section,
    rec: Record<RotondaPaMap>,
) -> bool {
    let id = rec.multi_uniq_id;
    &&& l.prefix == prefix
    &&& l.section == section
    &&& l.status == rec.status
    &&& l.ingress_id == id
    &&& match l.ingress {
        Some(i) => known_info(infos, id) == Some(*i),
        None => known_info(infos, id) is None,
    }
    &&& l.source == source_of(id, known_info(infos, id))
    &&& *l.pamap == rec.meta
}

/// What a line is to tell of.
pub type Topic = (Prefix, Section, Record<RotondaPaMap>);

/// What lines are to tell of the records of a prefix.
pub open spec fn record_topics(prefix: Prefix, section: Section, recs: Seq<Record<RotondaPaMap>>) -> Seq<Topic> {
    Seq::new(recs.len(), |i: int| (prefix, section, recs[i]))
}

/// What lines are to tell of a set of prefixes, one after the other.
pub open spec fn set_topics(section: Section, v: Seq<(Prefix, Seq<Record<RotondaPaMap>>)>) -> Seq<Topic>
    decreases v.len(),
{
    if v.len() == 0 {
        Seq::empty()
    } else {
        set_topics(section, v.drop_last()) + record_topics(v.last().0, section, v.last().1)
    }
}

pub open spec fn opt_set_topics(section: Section, set: Option<Vec<PrefixRecord<RotondaPaMap>>>) -> Seq<Topic> {
    match set {
        Some(v) => set_topics(section, set_view(v@)),
        None => Seq::empty(),
    }
}

/// What the lines of an answer are to tell of: the prefix that was asked for,
/// the more specific ones, then the less specific ones.
pub open spec fn topics(sr: SearchResult) -> Seq<Topic> {
    (match sr.query_result.prefix {
        Some(p) => record_topics(p, Section::Data, sr.query_result.records@),
        None => Seq::empty(),
    }) + opt_set_topics(Section::MoreSpecifics, sr.query_result.more_specifics) + opt_set_topics(
        Section::LessSpecifics,
        sr.query_result.less_specifics,
    )
}

/// Whether lines tell of what they are to.
pub open spec fn tell_all(lines: Seq<JsonlLine<'_>>, infos: Map<IngressId, IngressInfo>, ts: Seq<Topic>) -> bool {
    &&& lines.len() == ts.len()
    &&& forall|i: int|
        0 <= i < lines.len() ==> tells_record(#[trigger] lines[i], infos, ts[i].0, ts[i].1, ts[i].2)
}

/// Adds the lines of the records of a prefix.
fn push_lines<'a>(
    out: &mut Vec<JsonlLine<'a>>,
    infos: &'a Table<IngressId, IngressInfo>,
    prefix: Prefix,
    section: Section,
    recs: &'a Vec<Record<RotondaPaMap>>,
    Ghost(ts): Ghost<Seq<Topic>>,
)
    requires
        infos.wf(),
        tell_all(old(out)@, infos@, ts),
    ensures
        tell_all(final(out)@, infos@, ts + record_topics(prefix, section, recs@)),
{
    let ghost new = record_topics(prefix, section, recs@);
    let mut i: usize = 0;
    assert(ts + new.take(0) =~= ts);
    while i < recs.len()
        invariant
            i <= recs@.len(),
            infos.wf(),
            new == record_topics(prefix, section, recs@),
            tell_all(out@, infos@, ts + new.take(i as int)),
        decreases recs@.len() - i,
    {
        let rec = &recs[i];
        let id: IngressId = rec.multi_uniq_id;
        let ghost before = out@;
        let ingress = infos.get(&id);
        let l = JsonlLine {
            prefix,
            section,
            status: rec.status,
            ingress_id: id,
            ingress,
            source: RouteSource::resolve(id, ingress),
            pamap: &rec.meta,
        };
        out.push(l);
        proof {
            let t = ts + new.take(i as int);
            let u = ts + new.take(i + 1);
            assert(u =~= t.push(new[i as int]));
            assert forall|j: int| 0 <= j < out@.len() implies tells_record(
                #[trigger] out@[j],
                infos@,
                u[j].0,
                u[j].1,
                u[j].2,
            ) by {
                if j < before.len() {
                    assert(out@[j] == before[j]);
                    assert(u[j] == t[j]);
                }
            }
        }
        i = i + 1;
    }
    assert(new.take(i as int) =~= new);
}

/// Adds the lines of a set of prefixes.
fn push_set_lines<'a>(
    out: &mut Vec<JsonlLine<'a>>,
    infos: &'a Table<IngressId, IngressInfo>,
    section: Section,
    set: &'a Option<Vec<PrefixRecord<RotondaPaMap>>>,
    Ghost(ts): Ghost<Seq<Topic>>,
)
    requires
        infos.wf(),
        tell_all(old(out)@, infos@, ts),
    ensures
        tell_all(final(out)@, infos@, ts + opt_set_topics(section, *set)),
{
    match set {
        Some(v) => {
            let ghost views = set_view(v@);
            let mut i: usize = 0;
            proof {
                assert(views.take(0) =~= Seq::empty());
                assert(ts + Seq::<Topic>::empty() =~= ts);
            }
            while i < v.len()
                invariant
                    i <= v@.len(),
                    infos.wf(),
                    views == set_view(v@),
                    tell_all(out@, infos@, ts + set_topics(section, views.take(i as int))),
                decreases v@.len() - i,
            {
                let ghost so_far = ts + set_topics(section, views.take(i as int));
                push_lines(out, infos, v[i].prefix, section, &v[i].meta, Ghost(so_far));
                proof {
                    let u = views.take(i + 1);
                    assert(u.drop_last() =~= views.take(i as int));
                    assert(u.last() == (v@[i as int].prefix, v@[i as int].meta@));
                    assert(so_far + record_topics(v@[i as int].prefix, section, v@[i as int].meta@) =~= ts
                        + set_topics(section, u));
                }
                i = i + 1;
            }
            assert(views.take(i as int) =~= views);
        },
        None => {
            assert(ts + Seq::<Topic>::empty() =~= ts);
        },
    }
}

impl SearchResult {
    /// The lines of an answer.
    pub fn write_jsonl(&self) -> (r: Vec<JsonlLine<'_>>)
        requires
            self.ingress_info.wf(),
        ensures
            tell_all(r@, self.ingress_info@, topics(*self)),
    {
        let mut out: Vec<JsonlLine<'_>> = Vec::new();
        let ghost mut ts: Seq<Topic> = Seq::empty();
        match self.query_result.prefix {
            Some(prefix) => {
                push_lines(&mut out, &self.ingress_info, prefix, Section::Data, &self.query_result.records, Ghost(ts));
                proof {
                    ts = ts + record_topics(prefix, Section::Data, self.query_result.records@);
                    assert(ts =~= record_topics(prefix, Section::Data, self.query_result.records@));
                }
            },
            None => {},
        }
        push_set_lines(
            &mut out,
            &self.ingress_info,
            Section::MoreSpecifics,
            &self.query_result.more_specifics,
            Ghost(ts),
        );
        proof {
            ts = ts + opt_set_topics(Section::MoreSpecifics, self.query_result.more_specifics);
        }
        push_set_lines(
            &mut out,
            &self.ingress_info,
            Section::LessSpecifics,
            &self.query_result.less_specifics,
            Ghost(ts),
        );
        out
    }
}

/// Records that are not withdrawn.
pub open spec fn not_withdrawn<M>(recs: Seq<Record<M>>) -> Seq<Record<M>> {
    recs.filter(|r: Record<M>| !(r.status is Withdrawn))
}

proof fn lemma_not_withdrawn_push<M>(recs: Seq<Record<M>>, r: Record<M>)
    ensures
        not_withdrawn(recs.push(r)) == (if r.status is Withdrawn {
            not_withdrawn(recs)
        } else {
            not_withdrawn(recs).push(r)
        }),
        not_withdrawn(Seq::<Record<M>>::empty()) == Seq::<Record<M>>::empty(),
{
    reveal(Seq::filter);
    assert(recs.push(r).drop_last() =~= recs);
}

/// Drops records that are withdrawn.
fn drop_withdrawn<M>(recs: Vec<Record<M>>) -> (r: Vec<Record<M>>)
    ensures
        r@ == not_withdrawn(recs@),
{
    let ghost all = recs@;
    let mut out: Vec<Record<M>> = Vec::new();
    proof {
        assert(all.take(0) =~= Seq::empty());
        lemma_not_withdrawn_push(Seq::<Record<M>>::empty(), arbitrary());
    }
    for rec in it: recs
        invariant
            it.seq() == all,
            out@ == not_withdrawn(all.take(it.index() as int)),
    {
        let ghost n = it.index() as int;
        proof {
            assert(rec == all[n]);
            assert(all.take(n + 1) =~= all.take(n).push(rec));
            lemma_not_withdrawn_push(all.take(n), rec);
        }
        match rec.status {
            RouteStatus::Withdrawn => {},
            _ => {
                out.push(rec);
            },
        }
    }
    assert(all.take(all.len() as int) =~= all);
    out
}

/// Prefixes with their records, as far as these are not withdrawn.
pub open spec fn rows_of<M>(keys: Seq<Prefix>, recs: Seq<Seq<Record<M>>>) -> Seq<(Prefix, Seq<Record<M>>)> {
    Seq::new(keys.len(), |i: int| (keys[i], not_withdrawn(recs[i])))
}

/// Whether these are the records of prefixes that a query wants.
pub open spec fn fetched(
    s: StoreView<Seq<u8>>,
    mui: Option<IngressId>,
    keys: Seq<Prefix>,
    recs: Seq<Seq<Record<RotondaPaMap>>>,
) -> bool {
    &&& recs.len() == keys.len()
    &&& forall|i: int| 0 <= i < keys.len() ==> listed(s, keys[i]@, mui, true, #[trigger] recs[i])
}

/// Whether these are the prefixes among some that have a record in use that a
/// query and its filter function let pass, with those records.
pub open spec fn streamed<F: Fn(&RotondaPaMap) -> bool>(
    s: StoreView<Seq<u8>>,
    f: QueryFilter,
    infos: Map<IngressId, IngressInfo>,
    function: Option<&F>,
    keys: Seq<Prefix>,
    v: Seq<PrefixRecord<RotondaPaMap>>,
) -> bool {
    exists|recs: Seq<Seq<Record<RotondaPaMap>>>| #[trigger]
        fetched(s, f.ingress_id, keys, recs) && sifted(f, infos, function, rows_of(keys, recs), set_view(v))
}

/// A table of one family that is being written out.
#[derive(Debug)]
pub struct JsonlStream {
    pub afisafi: AfiSafiType,
    pub query_prefix: Prefix,
    pub filter: QueryFilter,
    pub ingress_info: Table<IngressId, IngressInfo>,
    pub cursor: DumpCursor,
}

impl JsonlStream {
    pub open spec fn wf(self) -> bool {
        self.ingress_info.wf() && self.cursor.wf() && has_store(self.afisafi)
    }

    /// Whether the whole table has been written out.
    pub fn done(&self) -> (r: bool)
        ensures
            r == (self.cursor.next >= self.cursor.keys@.len()),
    {
        self.cursor.done()
    }

    /// The lines of a prefix.
    pub fn lines<'a>(&'a self, pr: &'a PrefixRecord<RotondaPaMap>) -> (r: Vec<JsonlLine<'a>>)
        requires
            self.wf(),
        ensures
            tell_all(
                r@,
                self.ingress_info@,
                record_topics(
                    pr.prefix,
                    if pr.prefix@ == self.query_prefix@ {
                        Section::Data
                    } else {
                        Section::MoreSpecifics
                    },
                    pr.meta@,
                ),
            ),
    {
        let section = if pr.prefix.equals(&self.query_prefix) {
            Section::Data
        } else {
            Section::MoreSpecifics
        };
        let mut out: Vec<JsonlLine<'a>> = Vec::new();
        push_lines(&mut out, &self.ingress_info, pr.prefix, section, &pr.meta, Ghost(Seq::empty()));
        assert(Seq::<Topic>::empty() + record_topics(pr.prefix, section, pr.meta@) =~= record_topics(
            pr.prefix,
            section,
            pr.meta@,
        ));
        out
    }
}

impl Rib {
    /// The ingresses that a query can show.
    pub open spec fn shown_ingresses(self, mui: Option<IngressId>) -> Set<IngressId> {
        match mui {
            Some(id) => with_parents(self.ingress_register@, set![id]),
            None => self.ingress_register@.dom(),
        }
    }

    /// Begins to write out the prefixes of the family of a prefix. It is given
    /// whether the filter function that the query names is defined.
    pub fn jsonl_stream(
        &self,
        afisafi: AfiSafiType,
        query_prefix: Prefix,
        filter: QueryFilter,
        defined: bool,
    ) -> (r: Result<JsonlStream, String>)
        requires
            self.wf(),
        ensures
            match r {
                Ok(st) => {
                    &&& refusal(afisafi, filter, defined) is None
                    &&& st.wf()
                    &&& st.afisafi == afisafi
                    &&& st.query_prefix == query_prefix
                    &&& st.filter == filter
                    &&& copies(st.ingress_info@, self.ingress_register@, self.shown_ingresses(filter.ingress_id))
                    &&& st.cursor.next == 0
                    &&& forall|p: PrefixKey| #[trigger]
                        has_key(st.cursor.keys@, p) == (self.family_store(afisafi)@.has_prefix(p) && p.0
                            == query_prefix@.0)
                },
                Err(e) => refusal(afisafi, filter, defined) == Some(e@),
            },
    {
        match self.check_filter_and_store(afisafi, &filter, defined) {
            Ok(_) => {},
            Err(e) => {
                return Err(e);
            },
        }
        let ingress_info = match filter.ingress_id {
            Some(id) => {
                let mut ids: Vec<IngressId> = Vec::new();
                ids.push(id);
                proof {
                    assert(ids@ =~= seq![id]);
                    assert(ids@.to_set() =~= set![id]) by {
                        assert(ids@[0] == id);
                    }
                }
                self.ingress_register.cloned_info_for(&ids)
            },
            None => self.ingress_register.cloned_info(),
        };
        let family = Some(query_prefix.is_v4());
        let cursor = match afisafi {
            AfiSafiType::Ipv4Unicast | AfiSafiType::Ipv6Unicast => DumpCursor::new(&self.unicast, family),
            _ => DumpCursor::new(&self.multicast, family),
        };
        Ok(JsonlStream { afisafi, query_prefix, filter, ingress_info, cursor })
    }

    /// The next prefixes that have a record in use that the query and the
    /// filter function that it names let pass, with those records.
    pub fn write_jsonl_stream<F: Fn(&RotondaPaMap) -> bool>(
        &self,
        stream: &mut JsonlStream,
        function: Option<&F>,
    ) -> (r: Vec<PrefixRecord<RotondaPaMap>>)
        requires
            self.wf(),
            old(stream).wf(),
            old(stream).filter.roto_function is Some ==> function is Some,
            callable(function),
        ensures
            final(stream).wf(),
            *final(stream) == (JsonlStream { cursor: final(stream).cursor, ..*old(stream) }),
            final(stream).cursor.keys@ == old(stream).cursor.keys@,
            final(stream).cursor.next == old(stream).cursor.chunk_end(),
            streamed(
                self.family_store(old(stream).afisafi)@,
                old(stream).filter,
                old(stream).ingress_info@,
                wanted(old(stream).filter, function),
                old(stream).cursor.keys@.subrange(
                    old(stream).cursor.next as int,
                    old(stream).cursor.chunk_end(),
                ),
                r@,
            ),
    {
        let store: &RouteStore<RotondaPaMap> = match stream.afisafi {
            AfiSafiType::Ipv4Unicast | AfiSafiType::Ipv6Unicast => &self.unicast,
            _ => &self.multicast,
        };
        let ghost s = store@;
        let start: usize = stream.cursor.next;
        let end: usize = stream.cursor.end();
        let ghost keys = stream.cursor.keys@.subrange(start as int, end as int);
        let mui: Option<IngressId> = stream.filter.ingress_id;
        let ghost mut recs: Seq<Seq<Record<RotondaPaMap>>> = Seq::empty();
        let mut batch: Vec<PrefixRecord<RotondaPaMap>> = Vec::new();
        let mut i: usize = start;
        while i < end
            invariant
                start <= i <= end <= stream.cursor.keys@.len(),
                *stream == *old(stream),
                stream.cursor.wf(),
                store.wf(),
                s == store@,
                keys == stream.cursor.keys@.subrange(start as int, end as int),
                recs.len() == i - start,
                batch@.len() == i - start,
                forall|j: int| 0 <= j < recs.len() ==> listed(s, keys[j]@, mui, true, #[trigger] recs[j]),
                forall|j: int|
                    0 <= j < batch@.len() ==> (#[trigger] batch@[j]).prefix == keys[j] && batch@[j].meta@
                        == not_withdrawn(recs[j]),
            decreases end - i,
        {
            let key = stream.cursor.keys[i];
            let found = store.get_records_for_prefix(&key, mui, true);
            proof {
                recs = recs.push(found@);
            }
            let meta = drop_withdrawn(found);
            batch.push(PrefixRecord { prefix: key, meta });
            i = i + 1;
        }
        assert(set_view(batch@) =~= rows_of(keys, recs));
        let function = wanted_function(&stream.filter, function);
        let out = filter_set(batch, &stream.filter, &stream.ingress_info, function);
        assert(fetched(s, mui, keys, recs));
        stream.cursor.next = end;
        out
    }
}

} // verus!
