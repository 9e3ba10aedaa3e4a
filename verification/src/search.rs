//! Queries for routes, and their answers line by line.
use vstd::prelude::*;

use crate::filter::{
    all_filtered, apply_filter, callable, can_say, filter_set, filtered, known_info, lemma_filtered, lemma_filtered_all,
    lemma_row_left, passes, rows_left, set_view, sifted, source_of, wanted, wanted_function, RouteSource,
};
use crate::ingress::IngressInfo;
use crate::pamap::RotondaPaMap;
use crate::query::{Include, QueryFilter};
use crate::register::{copies, with_parents};
use crate::rib::Rib;
use crate::store::{
    answers, listed, set_listed, MatchOptions, MatchType, PrefixRecord, QueryResult, Record, RouteStore, Scope,
    StoreView,
};
use crate::table::Table;
use crate::types::{AfiSafiType, IngressId, IpAddress, Prefix, PrefixKey};

verus! {

/// The answer to a query for routes, with what is known of the ingresses that
/// the routes come from.
#[derive(Debug)]
pub struct SearchResult {
    pub query_result: QueryResult<RotondaPaMap>,
    pub ingress_info: Table<IngressId, IngressInfo>,
    pub query_filter: QueryFilter,
}

/// Whether a record is from an ingress.
pub open spec fn from_mui<M>(recs: Seq<Record<M>>, m: IngressId) -> bool {
    exists|i: int| 0 <= i < recs.len() && (#[trigger] recs[i]).multi_uniq_id == m
}

/// Whether a record of a set is from an ingress.
pub open spec fn set_from_mui<M>(set: Option<Vec<PrefixRecord<M>>>, m: IngressId) -> bool {
    set matches Some(v) && exists|i: int| 0 <= i < v@.len() && from_mui((#[trigger] v@[i]).meta@, m)
}

/// The ingresses that the records of an answer are from.
pub open spec fn muis_of<M>(q: QueryResult<M>) -> Set<IngressId> {
    Set::new(
        |m: IngressId| from_mui(q.records@, m) || set_from_mui(q.more_specifics, m) || set_from_mui(q.less_specifics, m),
    )
}

/// Adds the ingresses that some records are from.
fn push_muis<M>(ids: &mut Vec<IngressId>, recs: &Vec<Record<M>>)
    ensures
        forall|m: IngressId| #[trigger] final(ids)@.contains(m) == (old(ids)@.contains(m) || from_mui(recs@, m)),
{
    let ghost before = ids@;
    let mut i: usize = 0;
    while i < recs.len()
        invariant
            i <= recs@.len(),
            forall|m: IngressId| #[trigger] ids@.contains(m) == (before.contains(m) || from_mui(recs@.take(i as int), m)),
        decreases recs@.len() - i,
    {
        let ghost was = ids@;
        ids.push(recs[i].multi_uniq_id);
        proof {
            let t = recs@.take(i as int);
            let u = recs@.take(i + 1);
            assert forall|m: IngressId| #[trigger] ids@.contains(m) == (before.contains(m) || from_mui(u, m)) by {
                assert(u[i as int] == recs@[i as int]);
                assert(ids@[was.len() as int] == recs@[i as int].multi_uniq_id);
                if was.contains(m) {
                    let j = choose|j: int| 0 <= j < was.len() && was[j] == m;
                    assert(ids@[j] == m);
                }
                if from_mui(t, m) {
                    let j = choose|j: int| 0 <= j < t.len() && (#[trigger] t[j]).multi_uniq_id == m;
                    assert(u[j].multi_uniq_id == m);
                }
                if from_mui(u, m) && m != recs@[i as int].multi_uniq_id {
                    let j = choose|j: int| 0 <= j < u.len() && (#[trigger] u[j]).multi_uniq_id == m;
                    assert(t[j].multi_uniq_id == m);
                }
                if ids@.contains(m) && m != recs@[i as int].multi_uniq_id {
                    let j = choose|j: int| 0 <= j < ids@.len() && ids@[j] == m;
                    assert(was[j] == m);
                }
            }
        }
        i = i + 1;
    }
    assert(recs@.take(i as int) =~= recs@);
}

/// Adds the ingresses that the records of a set are from.
fn push_set_muis<M>(ids: &mut Vec<IngressId>, set: &Option<Vec<PrefixRecord<M>>>)
    ensures
        forall|m: IngressId| #[trigger] final(ids)@.contains(m) == (old(ids)@.contains(m) || set_from_mui(*set, m)),
{
    match set {
        Some(v) => {
            let ghost before = ids@;
            let mut i: usize = 0;
            while i < v.len()
                invariant
                    i <= v@.len(),
                    forall|m: IngressId| #[trigger]
                        ids@.contains(m) == (before.contains(m) || exists|k: int|
                            0 <= k < i && from_mui((#[trigger] v@[k]).meta@, m)),
                decreases v@.len() - i,
            {
                let ghost was = ids@;
                push_muis(ids, &v[i].meta);
                proof {
                    assert forall|m: IngressId| #[trigger] ids@.contains(m) == (before.contains(m) || exists|k: int|
                        0 <= k < i + 1 && from_mui((#[trigger] v@[k]).meta@, m)) by {
                        assert(ids@.contains(m) == (was.contains(m) || from_mui(v@[i as int].meta@, m)));
                    }
                }
                i = i + 1;
            }
        },
        None => {},
    }
}

impl SearchResult {
    /// The ingresses that the records of an answer are from.
    fn muis(query_result: &QueryResult<RotondaPaMap>) -> (r: Vec<IngressId>)
        ensures
            r@.to_set() == muis_of(*query_result),
    {
        let mut ids: Vec<IngressId> = Vec::new();
        push_muis(&mut ids, &query_result.records);
        push_set_muis(&mut ids, &query_result.more_specifics);
        push_set_muis(&mut ids, &query_result.less_specifics);
        assert(ids@.to_set() =~= muis_of(*query_result));
        ids
    }

    /// What is known of an ingress.
    pub fn ingress_info(&self, ingress_id: IngressId) -> (r: Option<&IngressInfo>)
        requires
            self.ingress_info.wf(),
        ensures
            match r {
                Some(i) => known_info(self.ingress_info@, ingress_id) == Some(*i),
                None => known_info(self.ingress_info@, ingress_id) is None,
            },
    {
        self.ingress_info.get(&ingress_id)
    }

    /// The query.
    pub fn query_filter(&self) -> (r: &QueryFilter)
        ensures
            *r == self.query_filter,
    {
        &self.query_filter
    }

    /// The source of the routes of an ingress.
    pub fn route_source(&self, ingress_id: IngressId) -> (r: RouteSource)
        requires
            self.ingress_info.wf(),
        ensures
            r == source_of(ingress_id, known_info(self.ingress_info@, ingress_id)),
    {
        RouteSource::resolve(ingress_id, self.ingress_info.get(&ingress_id))
    }
}

/// What a query for a prefix asks of a store.
pub open spec fn options(match_type: MatchType, f: QueryFilter) -> MatchOptions {
    MatchOptions {
        match_type,
        include_withdrawn: false,
        include_less_specifics: f.included@.contains(Include::LessSpecifics),
        include_more_specifics: f.included@.contains(Include::MoreSpecifics),
        mui: f.ingress_id,
    }
}

/// What a query and its filter function let pass of a set.
pub open spec fn passed<F: Fn(&RotondaPaMap) -> bool>(
    f: QueryFilter,
    infos: Map<IngressId, IngressInfo>,
    function: Option<&F>,
    before: Option<Vec<PrefixRecord<RotondaPaMap>>>,
    after: Option<Vec<PrefixRecord<RotondaPaMap>>>,
) -> bool {
    match (before, after) {
        (Some(b), Some(a)) => sifted(f, infos, function, set_view(b@), set_view(a@)),
        (None, None) => true,
        _ => false,
    }
}

/// Whether an answer is what a query and its filter function let pass of
/// another.
pub open spec fn picks<F: Fn(&RotondaPaMap) -> bool>(
    f: QueryFilter,
    infos: Map<IngressId, IngressInfo>,
    function: Option<&F>,
    before: QueryResult<RotondaPaMap>,
    after: QueryResult<RotondaPaMap>,
) -> bool {
    &&& after.prefix == before.prefix
    &&& filtered(f, infos, function, before.records@, after.records@)
    &&& passed(f, infos, function, before.more_specifics, after.more_specifics)
    &&& passed(f, infos, function, before.less_specifics, after.less_specifics)
}

/// Whether a family has a store that can be queried by prefix.
pub open spec fn has_store(afisafi: AfiSafiType) -> bool {
    ||| afisafi is Ipv4Unicast
    ||| afisafi is Ipv6Unicast
    ||| afisafi is Ipv4Multicast
    ||| afisafi is Ipv6Multicast
}

/// What is told where a family has no such store.
pub open spec fn unsupported_text(afisafi: AfiSafiType) -> Seq<char> {
    "address family "@ + afisafi.text() + " unsupported"@
}

/// What is told where a filter function is asked for that is not defined.
pub open spec fn undefined_text(name: Seq<char>) -> Seq<char> {
    "no roto function '"@ + name + "' defined"@
}

/// Why a query cannot be answered, if it cannot. It is given whether the
/// filter function that the query names is defined.
pub open spec fn refusal(afisafi: AfiSafiType, f: QueryFilter, defined: bool) -> Option<Seq<char>> {
    if !has_store(afisafi) {
        Some(unsupported_text(afisafi))
    } else {
        match f.roto_function {
            Some(name) => if defined {
                None
            } else {
                Some(undefined_text(name@))
            },
            None => None,
        }
    }
}

impl Rib {
    /// The store of a family.
    pub open spec fn family_store(self, afisafi: AfiSafiType) -> RouteStore<RotondaPaMap> {
        if afisafi is Ipv4Unicast || afisafi is Ipv6Unicast {
            self.unicast
        } else {
            self.multicast
        }
    }

    /// The store of a family, if it has one.
    fn store_for(&self, afisafi: AfiSafiType) -> (r: Option<&RouteStore<RotondaPaMap>>)
        ensures
            match r {
                Some(s) => has_store(afisafi) && *s == self.family_store(afisafi),
                None => !has_store(afisafi),
            },
    {
        match afisafi {
            AfiSafiType::Ipv4Unicast | AfiSafiType::Ipv6Unicast => Some(&self.unicast),
            AfiSafiType::Ipv4Multicast | AfiSafiType::Ipv6Multicast => Some(&self.multicast),
            _ => None,
        }
    }

    /// Whether an answer is that to a query.
    pub open spec fn finds<F: Fn(&RotondaPaMap) -> bool>(
        self,
        match_type: MatchType,
        afisafi: AfiSafiType,
        nlri: Prefix,
        f: QueryFilter,
        function: Option<&F>,
        sr: SearchResult,
    ) -> bool {
        &&& sr.query_filter == f
        &&& sr.ingress_info.wf()
        &&& exists|found: QueryResult<RotondaPaMap>| #[trigger]
            answers(self.family_store(afisafi)@, nlri, options(match_type, f), found) && copies(
                sr.ingress_info@,
                self.ingress_register@,
                with_parents(self.ingress_register@, muis_of(found)),
            ) && picks(f, sr.ingress_info@, wanted(f, function), found, sr.query_result)
    }

    /// Checks whether a query can be answered. It is given whether the filter
    /// function that the query names is defined.
    pub fn check_filter_and_store(&self, afisafi: AfiSafiType, filter: &QueryFilter, defined: bool) -> (r: Result<
        (),
        String,
    >)
        ensures
            match r {
                Ok(_) => refusal(afisafi, *filter, defined) is None,
                Err(e) => refusal(afisafi, *filter, defined) == Some(e@),
            },
    {
        if self.store_for(afisafi).is_none() {
            let mut e = "address family ".to_string();
            e.append(afisafi.name().as_str());
            e.append(" unsupported");
            return Err(e);
        }
        match &filter.roto_function {
            Some(name) => {
                if defined {
                    return Ok(());
                }
                let mut e = "no roto function '".to_string();
                e.append(name.as_str());
                e.append("' defined");
                Err(e)
            },
            None => Ok(()),
        }
    }

    /// Answers a query for a prefix, by itself or by the longest that covers
    /// it. It is given the filter function that the query names, if it is
    /// defined.
    pub fn search_routes_with<F: Fn(&RotondaPaMap) -> bool>(
        &self,
        match_type: MatchType,
        afisafi: AfiSafiType,
        nlri: Prefix,
        filter: QueryFilter,
        function: Option<&F>,
    ) -> (r: Result<SearchResult, String>)
        requires
            self.wf(),
            nlri.wf(),
            callable(function),
        ensures
            match r {
                Ok(sr) => refusal(afisafi, filter, function is Some) is None && self.finds(
                    match_type,
                    afisafi,
                    nlri,
                    filter,
                    function,
                    sr,
                ),
                Err(e) => refusal(afisafi, filter, function is Some) == Some(e@),
            },
    {
        match self.check_filter_and_store(afisafi, &filter, function.is_some()) {
            Ok(_) => {},
            Err(e) => {
                return Err(e);
            },
        }
        let store = match self.store_for(afisafi) {
            Some(store) => store,
            None => {
                return Err("".to_string());
            },
        };
        let options = MatchOptions {
            match_type,
            include_withdrawn: false,
            include_less_specifics: filter.includes(Include::LessSpecifics),
            include_more_specifics: filter.includes(Include::MoreSpecifics),
            mui: filter.ingress_id,
        };
        let found = store.match_prefix(&nlri, &options);
        let ghost all = found;
        let ids = SearchResult::muis(&found);
        let ingress_info = self.ingress_register.cloned_info_for(&ids);
        let QueryResult { prefix, mut records, less_specifics, more_specifics } = found;
        let function = wanted_function(&filter, function);
        apply_filter(&mut records, &filter, function, &ingress_info);
        let more_specifics = match more_specifics {
            Some(set) => Some(filter_set(set, &filter, &ingress_info, function)),
            None => None,
        };
        let less_specifics = match less_specifics {
            Some(set) => Some(filter_set(set, &filter, &ingress_info, function)),
            None => None,
        };
        let query_result = QueryResult { prefix, records, less_specifics, more_specifics };
        assert(answers(self.family_store(afisafi)@, nlri, crate::search::options(match_type, filter), all));
        Ok(SearchResult { query_result, ingress_info, query_filter: filter })
    }

    /// Answers a query for a prefix.
    pub fn search_routes<F: Fn(&RotondaPaMap) -> bool>(
        &self,
        afisafi: AfiSafiType,
        nlri: Prefix,
        filter: QueryFilter,
        function: Option<&F>,
    ) -> (r: Result<SearchResult, String>)
        requires
            self.wf(),
            nlri.wf(),
            callable(function),
        ensures
            match r {
                Ok(sr) => refusal(afisafi, filter, function is Some) is None && self.finds(
                    MatchType::ExactMatch,
                    afisafi,
                    nlri,
                    filter,
                    function,
                    sr,
                ),
                Err(e) => refusal(afisafi, filter, function is Some) == Some(e@),
            },
    {
        self.search_routes_with(MatchType::ExactMatch, afisafi, nlri, filter, function)
    }

    /// Answers a query for a prefix, for an answer that is written out.
    pub fn search_and_output_routes<F: Fn(&RotondaPaMap) -> bool>(
        &self,
        afisafi: AfiSafiType,
        nlri: Prefix,
        filter: QueryFilter,
        function: Option<&F>,
    ) -> (r: Result<SearchResult, String>)
        requires
            self.wf(),
            nlri.wf(),
            callable(function),
        ensures
            match r {
                Ok(sr) => refusal(afisafi, filter, function is Some) is None && self.finds(
                    MatchType::ExactMatch,
                    afisafi,
                    nlri,
                    filter,
                    function,
                    sr,
                ),
                Err(e) => refusal(afisafi, filter, function is Some) matches Some(t) && e@ == "store error: "@ + t,
            },
    {
        match self.search_routes(afisafi, nlri, filter, function) {
            Ok(sr) => Ok(sr),
            Err(e) => {
                let mut text = "store error: ".to_string();
                text.append(e.as_str());
                Err(text)
            },
        }
    }
}

/// Whether all records are in use, and a query lets them pass.
pub open spec fn all_pass(f: QueryFilter, infos: Map<IngressId, IngressInfo>, v: Seq<Record<RotondaPaMap>>) -> bool {
    forall|i: int| 0 <= i < v.len() ==> (#[trigger] v[i]).status is Active && passes(f, infos, v[i])
}

/// Whether each prefix has a record, and all records are in use and a query
/// lets them pass.
pub open spec fn all_sets_pass(
    f: QueryFilter,
    infos: Map<IngressId, IngressInfo>,
    set: Option<Vec<PrefixRecord<RotondaPaMap>>>,
) -> bool {
    set matches Some(v) ==> forall|i: int|
        0 <= i < v@.len() ==> (#[trigger] v@[i]).meta@.len() > 0 && all_pass(f, infos, v@[i].meta@)
}

/// An answer shows no withdrawn record and none that the query does not let
/// pass, and no prefix without a record.
pub proof fn an_answer_holds_what_passes<F: Fn(&RotondaPaMap) -> bool>(
    rib: Rib,
    match_type: MatchType,
    afisafi: AfiSafiType,
    nlri: Prefix,
    f: QueryFilter,
    function: Option<&F>,
    sr: SearchResult,
)
    requires
        rib.finds(match_type, afisafi, nlri, f, function, sr),
    ensures
        all_pass(f, sr.ingress_info@, sr.query_result.records@),
        all_sets_pass(f, sr.ingress_info@, sr.query_result.more_specifics),
        all_sets_pass(f, sr.ingress_info@, sr.query_result.less_specifics),
{
    let s = rib.family_store(afisafi)@;
    let infos = sr.ingress_info@;
    let o = options(match_type, f);
    let g = wanted(f, function);
    let found = choose|found: QueryResult<RotondaPaMap>| #[trigger]
        answers(s, nlri, o, found) && copies(
            infos,
            rib.ingress_register@,
            with_parents(rib.ingress_register@, muis_of(found)),
        ) && picks(f, infos, g, found, sr.query_result);
    let kept = sr.query_result.records@;
    if found.records@.len() > 0 {
        lemma_listed_pass(s, found.prefix->0@, o.mui, f, infos, g, found.records@, kept);
    } else if kept.len() > 0 {
        lemma_filtered(f, infos, g, found.records@, kept, 0);
    }
    lemma_set_passes(s, Scope::MoreSpecific(nlri), o.mui, f, infos, g, found.more_specifics, sr.query_result.more_specifics);
    lemma_set_passes(s, Scope::LessSpecific(nlri), o.mui, f, infos, g, found.less_specifics, sr.query_result.less_specifics);
}

/// Whether records have one of an ingress that holds the same.
pub open spec fn holds_record(v: Seq<Record<RotondaPaMap>>, rec: Record<RotondaPaMap>) -> bool {
    exists|k: int| 0 <= k < v.len() && (#[trigger] v[k]).multi_uniq_id == rec.multi_uniq_id && v[k]@ == rec@
}

/// An answer shows all records of its prefix that are in use, that the query
/// wants and lets pass, and that its filter function does not reject.
pub proof fn an_answer_leaves_nothing_out<F: Fn(&RotondaPaMap) -> bool>(
    rib: Rib,
    match_type: MatchType,
    afisafi: AfiSafiType,
    nlri: Prefix,
    f: QueryFilter,
    function: Option<&F>,
    sr: SearchResult,
    rec: Record<RotondaPaMap>,
)
    requires
        rib.finds(match_type, afisafi, nlri, f, function, sr),
        sr.query_result.prefix is Some,
        crate::store::wanted(f.ingress_id, rec.multi_uniq_id),
        rib.family_store(afisafi)@.shown(
            sr.query_result.prefix->0@,
            rec.multi_uniq_id,
            f.ingress_id is Some,
            false,
        ) == Some(rec@),
        passes(f, sr.ingress_info@, rec),
    ensures
        holds_record(sr.query_result.records@, rec) || can_say(wanted(f, function), rec.meta@, false),
{
    let s = rib.family_store(afisafi)@;
    let infos = sr.ingress_info@;
    let o = options(match_type, f);
    let g = wanted(f, function);
    let found = choose|found: QueryResult<RotondaPaMap>| #[trigger]
        answers(s, nlri, o, found) && copies(
            infos,
            rib.ingress_register@,
            with_parents(rib.ingress_register@, muis_of(found)),
        ) && picks(f, infos, g, found, sr.query_result);
    let v = found.records@;
    let kept = sr.query_result.records@;
    lemma_filtered_all(f, infos, g, v, kept);
    let j = choose|j: int| 0 <= j < v.len() && (#[trigger] v[j]).multi_uniq_id == rec.multi_uniq_id;
    assert(v[j]@ == rec@);
    assert(v[j].meta@ == rec.meta@);
    if kept.contains(v[j]) {
        let k = choose|k: int| 0 <= k < kept.len() && kept[k] == v[j];
        assert(kept[k].multi_uniq_id == rec.multi_uniq_id);
    }
}

/// What passes of the records of a prefix.
proof fn lemma_listed_pass<F: Fn(&RotondaPaMap) -> bool>(
    s: StoreView<Seq<u8>>,
    p: PrefixKey,
    mui: Option<IngressId>,
    f: QueryFilter,
    infos: Map<IngressId, IngressInfo>,
    function: Option<&F>,
    v: Seq<Record<RotondaPaMap>>,
    kept: Seq<Record<RotondaPaMap>>,
)
    requires
        listed(s, p, mui, false, v),
        filtered(f, infos, function, v, kept),
    ensures
        all_pass(f, infos, kept),
{
    assert forall|i: int| 0 <= i < kept.len() implies (#[trigger] kept[i]).status is Active && passes(f, infos, kept[i]) by {
        lemma_filtered(f, infos, function, v, kept, i);
        let j = choose|j: int| 0 <= j < v.len() && v[j] == kept[i];
        assert(s.shown(p, v[j].multi_uniq_id, mui is Some, false) == Some(v[j]@));
    }
}

/// What passes of a set.
proof fn lemma_set_passes<F: Fn(&RotondaPaMap) -> bool>(
    s: StoreView<Seq<u8>>,
    scope: Scope,
    mui: Option<IngressId>,
    f: QueryFilter,
    infos: Map<IngressId, IngressInfo>,
    function: Option<&F>,
    before: Option<Vec<PrefixRecord<RotondaPaMap>>>,
    after: Option<Vec<PrefixRecord<RotondaPaMap>>>,
)
    requires
        before matches Some(v) ==> set_listed(s, scope, mui, false, v@),
        passed(f, infos, function, before, after),
    ensures
        all_sets_pass(f, infos, after),
{
    match (before, after) {
        (Some(b), Some(a)) => {
            let rows = set_view(b@);
            let kept = choose|kept: Seq<Seq<Record<RotondaPaMap>>>| #[trigger]
                all_filtered(f, infos, function, rows, kept) && set_view(a@) == rows_left(rows, kept);
            assert forall|i: int| 0 <= i < a@.len() implies (#[trigger] a@[i]).meta@.len() > 0 && all_pass(
                f,
                infos,
                a@[i].meta@,
            ) by {
                assert(set_view(a@)[i] == (a@[i].prefix, a@[i].meta@));
                let j = lemma_row_left(rows, kept, i);
                assert(rows[j] == (b@[j].prefix, b@[j].meta@));
                assert(filtered(f, infos, function, rows[j].1, kept[j]));
                lemma_listed_pass(s, b@[j].prefix@, mui, f, infos, function, b@[j].meta@, kept[j]);
            }
        },
        _ => {},
    }
}

/// The routes that a best path is chosen among.
#[derive(Debug)]
pub struct BestPathCandidates {
    pub query_addr: Option<IpAddress>,
    /// Whether the prefix that was asked for has routes itself.
    pub exact_match: bool,
    /// The number of routes.
    pub total: usize,
    pub search: SearchResult,
}

impl Rib {
    /// The routes that the best path of a prefix is chosen among, or, where
    /// an address was asked for, that of the longest prefix that covers it.
    pub fn best_path<F: Fn(&RotondaPaMap) -> bool>(
        &self,
        afisafi: AfiSafiType,
        nlri: Prefix,
        query_addr: Option<IpAddress>,
        filter: QueryFilter,
        function: Option<&F>,
    ) -> (r: Result<BestPathCandidates, String>)
        requires
            self.wf(),
            nlri.wf(),
            callable(function),
        ensures
            match r {
                Ok(b) => {
                    &&& refusal(afisafi, filter, function is Some) is None
                    &&& self.finds(
                        if query_addr is Some {
                            MatchType::LongestMatch
                        } else {
                            MatchType::ExactMatch
                        },
                        afisafi,
                        nlri,
                        filter,
                        function,
                        b.search,
                    )
                    &&& b.query_addr == query_addr
                    &&& b.exact_match == (b.search.query_result.prefix matches Some(p) && p@ == nlri@)
                    &&& b.total == b.search.query_result.records@.len()
                },
                Err(e) => refusal(afisafi, filter, function is Some) == Some(e@),
            },
    {
        let match_type = if query_addr.is_some() {
            MatchType::LongestMatch
        } else {
            MatchType::ExactMatch
        };
        match self.search_routes_with(match_type, afisafi, nlri, filter, function) {
            Ok(search) => {
                let total: usize = search.query_result.records.len();
                let exact_match = match &search.query_result.prefix {
                    Some(p) => p.equals(&nlri),
                    None => false,
                };
                Ok(BestPathCandidates { query_addr, exact_match, total, search })
            },
            Err(e) => Err(e),
        }
    }
}

} // verus!
