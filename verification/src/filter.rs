//! Which of the routes that were found a query lets pass.
use vstd::prelude::*;

use crate::attrs::{
    communities_of, holds_triple, holds_u32, large_communities_of, opt_list, origin_of, otc_of,
};
use crate::flowspec::wide_asns;
use crate::ingress::IngressInfo;
use crate::pamap::{attr_blob, RotondaPaMap};
use crate::query::QueryFilter;
use crate::store::{PrefixRecord, Record};
use crate::table::Table;
use crate::types::{IngressId, IngressType, Prefix};

verus! {

/// Where a route comes from: the session, and for an ADD-PATH child its path
/// id and its own id.
#[derive(Clone, Copy, Debug, PartialEq, Eq, Structural)]
pub struct RouteSource {
    pub ingress_id: IngressId,
    pub path_id: Option<u32>,
    pub internal_path_ingress_id: Option<IngressId>,
}

/// The source of the routes of an ingress.
pub open spec fn source_of(id: IngressId, info: Option<IngressInfo>) -> RouteSource {
    match info {
        Some(i) => if i.ingress_type == Some(IngressType::BgpPath) {
            RouteSource {
                ingress_id: match i.parent_ingress {
                    Some(p) => p,
                    None => id,
                },
                path_id: i.path_id,
                internal_path_ingress_id: Some(id),
            }
        } else {
            RouteSource { ingress_id: id, path_id: None, internal_path_ingress_id: None }
        },
        None => RouteSource { ingress_id: id, path_id: None, internal_path_ingress_id: None },
    }
}

/// What is known of an ingress, if anything.
pub open spec fn known_info(infos: Map<IngressId, IngressInfo>, id: IngressId) -> Option<IngressInfo> {
    if infos.contains_key(id) {
        Some(infos[id])
    } else {
        None
    }
}

impl RouteSource {
    /// The source of the routes of an ingress.
    pub fn resolve(record_ingress_id: IngressId, info: Option<&IngressInfo>) -> (r: Self)
        ensures
            r == source_of(
                record_ingress_id,
                match info {
                    Some(i) => Some(*i),
                    None => None,
                },
            ),
    {
        match info {
            Some(i) => {
                match i.ingress_type {
                    Some(IngressType::BgpPath) => RouteSource {
                        ingress_id: match i.parent_ingress {
                            Some(p) => p,
                            None => record_ingress_id,
                        },
                        path_id: i.path_id,
                        internal_path_ingress_id: Some(record_ingress_id),
                    },
                    _ => RouteSource {
                        ingress_id: record_ingress_id,
                        path_id: None,
                        internal_path_ingress_id: None,
                    },
                }
            },
            None => RouteSource { ingress_id: record_ingress_id, path_id: None, internal_path_ingress_id: None },
        }
    }
}

/// The type of the session that an ingress belongs to: that of its parent for
/// an ADD-PATH child, else its own.
pub open spec fn session_type(info: IngressInfo, all: Map<IngressId, IngressInfo>) -> Option<IngressType> {
    if info.ingress_type == Some(IngressType::BgpPath) {
        match info.parent_ingress {
            Some(p) => if all.contains_key(p) {
                all[p].ingress_type
            } else {
                None
            },
            None => None,
        }
    } else {
        info.ingress_type
    }
}

/// Whether an ingress is of a type, or belongs to a session of that type. All
/// that is learned through BMP is of type BMP.
pub open spec fn type_matches(want: IngressType, info: IngressInfo, all: Map<IngressId, IngressInfo>) -> bool {
    ||| info.ingress_type == Some(want)
    ||| session_type(info, all) == Some(want)
    ||| want is Bmp && session_type(info, all) == Some(IngressType::BgpViaBmp)
}

/// Whether an ingress is of a type, or belongs to a session of that type.
pub fn ingress_type_matches(want: IngressType, info: &IngressInfo, all: &Table<IngressId, IngressInfo>) -> (r: bool)
    requires
        all.wf(),
    ensures
        r == type_matches(want, *info, all@),
{
    if info.ingress_type == Some(want) {
        return true;
    }
    let session: Option<IngressType> = if info.ingress_type == Some(IngressType::BgpPath) {
        match info.parent_ingress {
            Some(p) => match all.get(&p) {
                Some(parent) => parent.ingress_type,
                None => None,
            },
            None => None,
        }
    } else {
        info.ingress_type
    };
    match session {
        Some(t) => t == want || (want == IngressType::Bmp && t == IngressType::BgpViaBmp),
        None => false,
    }
}

/// Whether a query lets the routes of an ingress pass. Of an ingress that is
/// not known only its type is taken to differ.
pub open spec fn ingress_passes(f: QueryFilter, infos: Map<IngressId, IngressInfo>, m: IngressId) -> bool {
    &&& f.ingress_id matches Some(id) ==> m == id
    &&& f.ingress_type matches Some(t) ==> infos.contains_key(m) && type_matches(t, infos[m], infos)
    &&& f.rib_type matches Some(t) ==> infos.contains_key(m) ==> infos[m].peer_rib_type == Some(t)
    &&& f.peer_asn matches Some(a) ==> infos.contains_key(m) ==> infos[m].remote_asn == Some(a)
    &&& f.peer_addr matches Some(a) ==> infos.contains_key(m) ==> (infos[m].remote_addr matches Some(b) && b.same(a))
}

/// Whether a query lets routes pass by what their attributes hold.
pub open spec fn values_pass(
    f: QueryFilter,
    rov: u8,
    otc: Option<u32>,
    origin: Option<u32>,
    communities: Option<Seq<u32>>,
    large: Option<Seq<(u32, u32, u32)>>,
) -> bool {
    &&& f.rov_status matches Some(s) ==> rov == s
    &&& f.otc matches Some(a) ==> otc == Some(a)
    &&& f.large_community matches Some(c) ==> (large matches Some(list) && list.contains(c))
    &&& f.community matches Some(c) ==> (communities matches Some(list) && list.contains(c))
    &&& f.origin_asn matches Some(a) ==> origin == Some(a)
}

/// Whether a query lets a route pass by its attributes.
pub open spec fn attrs_pass(f: QueryFilter, attrs: RotondaPaMap) -> bool {
    let wide = wide_asns(attrs@);
    let blob = attr_blob(attrs@);
    values_pass(
        f,
        attrs.rov(),
        otc_of(wide, blob),
        origin_of(wide, blob),
        communities_of(wide, blob),
        large_communities_of(wide, blob),
    )
}

/// Whether a query lets a record pass.
pub open spec fn passes(f: QueryFilter, infos: Map<IngressId, IngressInfo>, rec: Record<RotondaPaMap>) -> bool {
    ingress_passes(f, infos, rec.multi_uniq_id) && attrs_pass(f, rec.meta)
}

/// Whether a query lets the routes of an ingress pass.
pub fn check_ingress(f: &QueryFilter, infos: &Table<IngressId, IngressInfo>, m: IngressId) -> (r: bool)
    requires
        infos.wf(),
    ensures
        r == ingress_passes(*f, infos@, m),
{
    match f.ingress_id {
        Some(id) => {
            if m != id {
                return false;
            }
        },
        None => {},
    }
    let info = infos.get(&m);
    match f.ingress_type {
        Some(t) => {
            let fits = match info {
                Some(i) => ingress_type_matches(t, i, infos),
                None => false,
            };
            if !fits {
                return false;
            }
        },
        None => {},
    }
    match info {
        Some(i) => {
            match f.rib_type {
                Some(t) => {
                    if i.peer_rib_type != Some(t) {
                        return false;
                    }
                },
                None => {},
            }
            match f.peer_asn {
                Some(a) => {
                    if i.remote_asn != Some(a) {
                        return false;
                    }
                },
                None => {},
            }
            match f.peer_addr {
                Some(a) => {
                    match i.remote_addr {
                        Some(b) => b.equals(&a),
                        None => false,
                    }
                },
                None => true,
            }
        },
        None => true,
    }
}

/// Whether a query lets routes pass by what their attributes hold.
pub fn check_values(
    f: &QueryFilter,
    rov: u8,
    otc: Option<u32>,
    origin: Option<u32>,
    communities: &Option<Vec<u32>>,
    large: &Option<Vec<(u32, u32, u32)>>,
) -> (r: bool)
    ensures
        r == values_pass(*f, rov, otc, origin, opt_list(*communities), opt_list(*large)),
{
    match f.rov_status {
        Some(s) => {
            if rov != s {
                return false;
            }
        },
        None => {},
    }
    match f.otc {
        Some(a) => {
            if otc != Some(a) {
                return false;
            }
        },
        None => {},
    }
    match f.large_community {
        Some(c) => {
            let held = match large {
                Some(list) => holds_triple(list, c),
                None => false,
            };
            if !held {
                return false;
            }
        },
        None => {},
    }
    match f.community {
        Some(c) => {
            let held = match communities {
                Some(list) => holds_u32(list, c),
                None => false,
            };
            if !held {
                return false;
            }
        },
        None => {},
    }
    match f.origin_asn {
        Some(a) => origin == Some(a),
        None => true,
    }
}

/// Whether a query lets a record pass by its attributes. They are read only
/// where the query asks for them.
pub fn check_attrs(f: &QueryFilter, rec: &Record<RotondaPaMap>) -> (r: bool)
    ensures
        r == attrs_pass(*f, rec.meta),
{
    let otc: Option<u32> = if f.otc.is_some() {
        rec.meta.otc()
    } else {
        None
    };
    let origin: Option<u32> = if f.origin_asn.is_some() {
        rec.meta.origin_asn()
    } else {
        None
    };
    let communities: Option<Vec<u32>> = if f.community.is_some() {
        rec.meta.communities()
    } else {
        None
    };
    let large: Option<Vec<(u32, u32, u32)>> = if f.large_community.is_some() {
        rec.meta.large_communities()
    } else {
        None
    };
    check_values(f, rec.meta.rov_status(), otc, origin, &communities, &large)
}

/// Whether a filter function can be called on any attributes.
pub open spec fn callable<F: Fn(&RotondaPaMap) -> bool>(function: Option<&F>) -> bool {
    function matches Some(g) ==> forall|m: &RotondaPaMap| #[trigger] g.requires((m,))
}

/// The filter function of a query: a function that is not asked for is not
/// called.
pub open spec fn wanted<F>(f: QueryFilter, function: Option<&F>) -> Option<&F> {
    if f.roto_function is Some {
        function
    } else {
        None
    }
}

/// The filter function of a query.
pub fn wanted_function<'a, F>(f: &QueryFilter, function: Option<&'a F>) -> (r: Option<&'a F>)
    ensures
        r == wanted(*f, function),
{
    if f.roto_function.is_some() {
        function
    } else {
        None
    }
}

/// Whether these are verdicts of a filter function on records: one for each,
/// or none at all where there is no function. The function may keep a state
/// of its own, and say different things of the same attributes.
pub open spec fn spoken<F: Fn(&RotondaPaMap) -> bool>(
    function: Option<&F>,
    v: Seq<Record<RotondaPaMap>>,
    verdicts: Option<Seq<bool>>,
) -> bool {
    match (function, verdicts) {
        (Some(g), Some(w)) => w.len() == v.len() && forall|i: int|
            0 <= i < v.len() ==> g.ensures((&v[i].meta,), #[trigger] w[i]),
        (None, None) => true,
        _ => false,
    }
}

/// Whether there is no verdict against a record.
pub open spec fn accepted(verdicts: Option<Seq<bool>>, i: int) -> bool {
    verdicts matches Some(w) ==> w[i]
}

/// The records of the ingresses that a query lets pass.
pub open spec fn admitted(
    f: QueryFilter,
    infos: Map<IngressId, IngressInfo>,
    v: Seq<Record<RotondaPaMap>>,
) -> Seq<Record<RotondaPaMap>>
    decreases v.len(),
{
    if v.len() == 0 {
        Seq::empty()
    } else {
        let front = admitted(f, infos, v.drop_last());
        if ingress_passes(f, infos, v.last().multi_uniq_id) {
            front.push(v.last())
        } else {
            front
        }
    }
}

/// The records whose attributes a query lets pass, and that no verdict is
/// against.
pub open spec fn passing(
    f: QueryFilter,
    v: Seq<Record<RotondaPaMap>>,
    verdicts: Option<Seq<bool>>,
) -> Seq<Record<RotondaPaMap>>
    decreases v.len(),
{
    if v.len() == 0 {
        Seq::empty()
    } else {
        let front = passing(f, v.drop_last(), verdicts);
        if attrs_pass(f, v.last().meta) && accepted(verdicts, v.len() - 1) {
            front.push(v.last())
        } else {
            front
        }
    }
}

/// Whether records are what a query and its filter function let pass of
/// others. The function is asked about those only that the query lets pass by
/// their ingress.
pub open spec fn filtered<F: Fn(&RotondaPaMap) -> bool>(
    f: QueryFilter,
    infos: Map<IngressId, IngressInfo>,
    function: Option<&F>,
    before: Seq<Record<RotondaPaMap>>,
    after: Seq<Record<RotondaPaMap>>,
) -> bool {
    exists|w: Option<Seq<bool>>| #[trigger]
        spoken(function, admitted(f, infos, before), w) && after == passing(f, admitted(f, infos, before), w)
}

/// What verdicts say.
pub open spec fn verdicts_view(verdicts: Option<&Vec<bool>>) -> Option<Seq<bool>> {
    match verdicts {
        Some(v) => Some(v@),
        None => None,
    }
}

/// Asks a filter function about each record.
pub fn verdicts_on<F: Fn(&RotondaPaMap) -> bool>(function: Option<&F>, records: &Vec<Record<RotondaPaMap>>) -> (r:
    Option<Vec<bool>>)
    requires
        callable(function),
    ensures
        spoken(
            function,
            records@,
            match r {
                Some(v) => Some(v@),
                None => None,
            },
        ),
{
    match function {
        Some(g) => {
            let mut out: Vec<bool> = Vec::new();
            let mut i: usize = 0;
            while i < records.len()
                invariant
                    i <= records@.len(),
                    out@.len() == i,
                    forall|m: &RotondaPaMap| #[trigger] g.requires((m,)),
                    forall|j: int| 0 <= j < i ==> g.ensures((&records@[j].meta,), #[trigger] out@[j]),
                decreases records@.len() - i,
            {
                let verdict: bool = g(&records[i].meta);
                out.push(verdict);
                i = i + 1;
            }
            Some(out)
        },
        None => None,
    }
}

/// Keeps the records of the ingresses that a query lets pass, in their order.
pub fn keep_admitted(
    records: &mut Vec<Record<RotondaPaMap>>,
    f: &QueryFilter,
    infos: &Table<IngressId, IngressInfo>,
)
    requires
        infos.wf(),
    ensures
        final(records)@ == admitted(*f, infos@, old(records)@),
{
    let ghost all = records@;
    let mut done: usize = 0;
    let n: usize = records.len();
    let mut i: usize = 0;
    proof {
        assert(all.take(0) =~= Seq::empty());
        assert(records@ =~= admitted(*f, infos@, all.take(0)) + all.skip(0));
    }
    while done < n
        invariant
            infos.wf(),
            n == all.len(),
            i <= done <= n,
            i == admitted(*f, infos@, all.take(done as int)).len(),
            records@ == admitted(*f, infos@, all.take(done as int)) + all.skip(done as int),
        decreases n - done,
    {
        assert(records@[i as int] == all[done as int]);
        assert(all.take(done + 1).drop_last() =~= all.take(done as int));
        assert(all.take(done + 1).last() == all[done as int]);
        if check_ingress(f, infos, records[i].multi_uniq_id) {
            i = i + 1;
        } else {
            let _ = records.remove(i);
        }
        assert(records@ =~= admitted(*f, infos@, all.take(done + 1)) + all.skip(done + 1));
        done = done + 1;
    }
    proof {
        assert(all.skip(done as int).len() == 0);
        assert(all.take(done as int) =~= all);
        assert(records@ =~= admitted(*f, infos@, all));
    }
}

/// Keeps the records whose attributes a query lets pass, and that no verdict
/// is against, in their order.
pub fn keep_passing(records: &mut Vec<Record<RotondaPaMap>>, f: &QueryFilter, verdicts: Option<&Vec<bool>>)
    requires
        verdicts matches Some(v) ==> v@.len() == old(records)@.len(),
    ensures
        final(records)@ == passing(*f, old(records)@, verdicts_view(verdicts)),
{
    let ghost all = records@;
    let ghost w = verdicts_view(verdicts);
    let mut done: usize = 0;
    let n: usize = records.len();
    let mut i: usize = 0;
    proof {
        assert(all.take(0) =~= Seq::empty());
        assert(records@ =~= passing(*f, all.take(0), w) + all.skip(0));
    }
    while done < n
        invariant
            n == all.len(),
            w == verdicts_view(verdicts),
            verdicts matches Some(v) ==> v@.len() == all.len(),
            i <= done <= n,
            i == passing(*f, all.take(done as int), w).len(),
            records@ == passing(*f, all.take(done as int), w) + all.skip(done as int),
        decreases n - done,
    {
        assert(records@[i as int] == all[done as int]);
        assert(all.take(done + 1).drop_last() =~= all.take(done as int));
        assert(all.take(done + 1).last() == all[done as int]);
        let said: bool = match verdicts {
            Some(v) => v[done],
            None => true,
        };
        assert(said == accepted(w, done as int));
        if said && check_attrs(f, &records[i]) {
            i = i + 1;
        } else {
            let _ = records.remove(i);
        }
        assert(records@ =~= passing(*f, all.take(done + 1), w) + all.skip(done + 1));
        done = done + 1;
    }
    proof {
        assert(all.skip(done as int).len() == 0);
        assert(all.take(done as int) =~= all);
        assert(records@ =~= passing(*f, all, w));
    }
}

/// Keeps the records that a query and its filter function let pass, in their
/// order.
pub fn apply_filter<F: Fn(&RotondaPaMap) -> bool>(
    records: &mut Vec<Record<RotondaPaMap>>,
    f: &QueryFilter,
    function: Option<&F>,
    infos: &Table<IngressId, IngressInfo>,
)
    requires
        infos.wf(),
        callable(function),
    ensures
        filtered(*f, infos@, function, old(records)@, final(records)@),
{
    keep_admitted(records, f, infos);
    let verdicts = verdicts_on(function, records);
    keep_passing(records, f, verdicts.as_ref());
}

/// What a list of prefixes holds.
pub open spec fn set_view<M>(v: Seq<PrefixRecord<M>>) -> Seq<(Prefix, Seq<Record<M>>)> {
    v.map_values(|r: PrefixRecord<M>| (r.prefix, r.meta@))
}

/// The prefixes that a list has left, with the records that a query and its
/// filter function let pass, where there are any.
pub open spec fn sifted<F: Fn(&RotondaPaMap) -> bool>(
    f: QueryFilter,
    infos: Map<IngressId, IngressInfo>,
    function: Option<&F>,
    before: Seq<(Prefix, Seq<Record<RotondaPaMap>>)>,
    after: Seq<(Prefix, Seq<Record<RotondaPaMap>>)>,
) -> bool {
    exists|kept: Seq<Seq<Record<RotondaPaMap>>>| #[trigger]
        all_filtered(f, infos, function, before, kept) && after == rows_left(before, kept)
}

/// Whether these are, for each prefix of a list, the records that a query and
/// its filter function let pass.
pub open spec fn all_filtered<F: Fn(&RotondaPaMap) -> bool>(
    f: QueryFilter,
    infos: Map<IngressId, IngressInfo>,
    function: Option<&F>,
    before: Seq<(Prefix, Seq<Record<RotondaPaMap>>)>,
    kept: Seq<Seq<Record<RotondaPaMap>>>,
) -> bool {
    &&& kept.len() == before.len()
    &&& forall|i: int| 0 <= i < before.len() ==> filtered(f, infos, function, before[i].1, #[trigger] kept[i])
}

/// The prefixes of a list that have records left, with these.
pub open spec fn rows_left(
    v: Seq<(Prefix, Seq<Record<RotondaPaMap>>)>,
    kept: Seq<Seq<Record<RotondaPaMap>>>,
) -> Seq<(Prefix, Seq<Record<RotondaPaMap>>)>
    decreases v.len(),
{
    if v.len() == 0 {
        Seq::empty()
    } else {
        let front = rows_left(v.drop_last(), kept);
        if kept[v.len() - 1].len() > 0 {
            front.push((v.last().0, kept[v.len() - 1]))
        } else {
            front
        }
    }
}

/// Turns a list round.
pub fn reversed<T>(v: Vec<T>) -> (r: Vec<T>)
    ensures
        r@ == v@.reverse(),
{
    let ghost all = v@;
    let mut rest = v;
    let mut out: Vec<T> = Vec::new();
    while rest.len() > 0
        invariant
            rest@.len() + out@.len() == all.len(),
            rest@ == all.take(rest@.len() as int),
            forall|i: int| 0 <= i < out@.len() ==> #[trigger] out@[i] == all[all.len() - 1 - i],
        decreases rest@.len(),
    {
        match rest.pop() {
            Some(x) => {
                out.push(x);
            },
            None => {},
        }
        assert(rest@ =~= all.take(rest@.len() as int));
    }
    assert(out@ =~= all.reverse());
    out
}

/// What is left of a list depends only on what its own prefixes have left.
proof fn lemma_rows_left(
    v: Seq<(Prefix, Seq<Record<RotondaPaMap>>)>,
    kept: Seq<Seq<Record<RotondaPaMap>>>,
    next: Seq<Record<RotondaPaMap>>,
)
    requires
        kept.len() >= v.len(),
    ensures
        rows_left(v, kept.push(next)) == rows_left(v, kept),
    decreases v.len(),
{
    if v.len() > 0 {
        lemma_rows_left(v.drop_last(), kept, next);
    }
}

/// What is left of records are records, and the query lets each of them pass.
pub proof fn lemma_filtered<F: Fn(&RotondaPaMap) -> bool>(
    f: QueryFilter,
    infos: Map<IngressId, IngressInfo>,
    function: Option<&F>,
    v: Seq<Record<RotondaPaMap>>,
    kept: Seq<Record<RotondaPaMap>>,
    i: int,
)
    requires
        filtered(f, infos, function, v, kept),
        0 <= i < kept.len(),
    ensures
        passes(f, infos, kept[i]),
        v.contains(kept[i]),
        function matches Some(g) ==> g.ensures((&kept[i].meta,), true),
{
    let w = choose|w: Option<Seq<bool>>| #[trigger]
        spoken(function, admitted(f, infos, v), w) && kept == passing(f, admitted(f, infos, v), w);
    let j = lemma_passing(f, admitted(f, infos, v), w, i);
    lemma_admitted(f, infos, v, j);
}

/// Where a record that is left was, and why it is.
proof fn lemma_passing(f: QueryFilter, v: Seq<Record<RotondaPaMap>>, verdicts: Option<Seq<bool>>, i: int) -> (j: int)
    requires
        0 <= i < passing(f, v, verdicts).len(),
    ensures
        0 <= j < v.len(),
        v[j] == passing(f, v, verdicts)[i],
        attrs_pass(f, v[j].meta),
        accepted(verdicts, j),
    decreases v.len(),
{
    if i < passing(f, v.drop_last(), verdicts).len() {
        lemma_passing(f, v.drop_last(), verdicts, i)
    } else {
        v.len() - 1
    }
}

/// What is admitted of records are records, of ingresses that the query lets
/// pass.
proof fn lemma_admitted(f: QueryFilter, infos: Map<IngressId, IngressInfo>, v: Seq<Record<RotondaPaMap>>, i: int)
    requires
        0 <= i < admitted(f, infos, v).len(),
    ensures
        ingress_passes(f, infos, admitted(f, infos, v)[i].multi_uniq_id),
        v.contains(admitted(f, infos, v)[i]),
    decreases v.len(),
{
    let front = admitted(f, infos, v.drop_last());
    if i < front.len() {
        lemma_admitted(f, infos, v.drop_last(), i);
        let j = choose|j: int| 0 <= j < v.drop_last().len() && v.drop_last()[j] == front[i];
        assert(v[j] == front[i]);
    } else {
        assert(v[v.len() - 1] == admitted(f, infos, v)[i]);
    }
}

/// Whether a filter function can say this of attributes.
pub open spec fn can_say<F: Fn(&RotondaPaMap) -> bool>(function: Option<&F>, attrs: Seq<u8>, verdict: bool) -> bool {
    function matches Some(g) && exists|m: RotondaPaMap| #[trigger] m@ == attrs && g.ensures((&m,), verdict)
}

/// Whether no two records are of the same ingress.
pub open spec fn distinct_muis<M>(v: Seq<Record<M>>) -> bool {
    forall|i: int, j: int|
        0 <= i < j < v.len() ==> (#[trigger] v[i]).multi_uniq_id != (#[trigger] v[j]).multi_uniq_id
}

/// Of records of different ingresses records of different ingresses are left,
/// and each that the query lets pass is left unless the function refuses it.
pub proof fn lemma_filtered_all<F: Fn(&RotondaPaMap) -> bool>(
    f: QueryFilter,
    infos: Map<IngressId, IngressInfo>,
    function: Option<&F>,
    v: Seq<Record<RotondaPaMap>>,
    kept: Seq<Record<RotondaPaMap>>,
)
    requires
        filtered(f, infos, function, v, kept),
        distinct_muis(v),
    ensures
        distinct_muis(kept),
        forall|j: int|
            0 <= j < v.len() && passes(f, infos, #[trigger] v[j]) && !kept.contains(v[j]) ==> (function matches Some(g)
                && g.ensures((&v[j].meta,), false)),
{
    let some = admitted(f, infos, v);
    let w = choose|w: Option<Seq<bool>>| #[trigger] spoken(function, some, w) && kept == passing(f, some, w);
    lemma_admitted_all(f, infos, v);
    lemma_passing_all(f, some, w);
    assert forall|j: int| 0 <= j < v.len() && passes(f, infos, #[trigger] v[j]) && !kept.contains(v[j]) implies (
    function matches Some(g) && g.ensures((&v[j].meta,), false)) by {
        let i = choose|i: int| 0 <= i < some.len() && some[i] == v[j];
        assert(!accepted(w, i));
    }
}

/// What is admitted of records of different ingresses.
proof fn lemma_admitted_all(f: QueryFilter, infos: Map<IngressId, IngressInfo>, v: Seq<Record<RotondaPaMap>>)
    requires
        distinct_muis(v),
    ensures
        distinct_muis(admitted(f, infos, v)),
        forall|j: int|
            0 <= j < v.len() && ingress_passes(f, infos, (#[trigger] v[j]).multi_uniq_id) ==> admitted(
                f,
                infos,
                v,
            ).contains(v[j]),
    decreases v.len(),
{
    if v.len() > 0 {
        let rest = v.drop_last();
        let front = admitted(f, infos, rest);
        let all = admitted(f, infos, v);
        lemma_admitted_all(f, infos, rest);
        assert forall|i: int, j: int| 0 <= i < j < all.len() implies (#[trigger] all[i]).multi_uniq_id != (
        #[trigger] all[j]).multi_uniq_id by {
            if j == front.len() {
                lemma_admitted(f, infos, rest, i);
                let k = choose|k: int| 0 <= k < rest.len() && rest[k] == front[i];
                assert(v[k].multi_uniq_id != v[v.len() - 1].multi_uniq_id);
            }
        }
        assert forall|j: int| 0 <= j < v.len() && ingress_passes(f, infos, (#[trigger] v[j]).multi_uniq_id) implies all.contains(
        v[j]) by {
            if j < rest.len() {
                assert(rest[j] == v[j]);
                let k = choose|k: int| 0 <= k < front.len() && front[k] == v[j];
                assert(all[k] == v[j]);
            } else {
                assert(all[front.len() as int] == v[j]);
            }
        }
    }
}

/// What passes of records of different ingresses.
proof fn lemma_passing_all(f: QueryFilter, v: Seq<Record<RotondaPaMap>>, w: Option<Seq<bool>>)
    requires
        distinct_muis(v),
    ensures
        distinct_muis(passing(f, v, w)),
        forall|j: int|
            0 <= j < v.len() && attrs_pass(f, (#[trigger] v[j]).meta) && accepted(w, j) ==> passing(f, v, w).contains(
                v[j],
            ),
    decreases v.len(),
{
    if v.len() > 0 {
        let rest = v.drop_last();
        let front = passing(f, rest, w);
        let all = passing(f, v, w);
        lemma_passing_all(f, rest, w);
        assert forall|i: int, j: int| 0 <= i < j < all.len() implies (#[trigger] all[i]).multi_uniq_id != (
        #[trigger] all[j]).multi_uniq_id by {
            if j == front.len() {
                let k = lemma_passing(f, rest, w, i);
                assert(v[k].multi_uniq_id != v[v.len() - 1].multi_uniq_id);
            }
        }
        assert forall|j: int| 0 <= j < v.len() && attrs_pass(f, (#[trigger] v[j]).meta) && accepted(w, j) implies all.contains(
        v[j]) by {
            if j < rest.len() {
                assert(rest[j] == v[j]);
                let k = choose|k: int| 0 <= k < front.len() && front[k] == v[j];
                assert(all[k] == v[j]);
            } else {
                assert(all[front.len() as int] == v[j]);
            }
        }
    }
}

/// A prefix of a list that has records left is left with them.
pub proof fn lemma_kept_row(
    v: Seq<(Prefix, Seq<Record<RotondaPaMap>>)>,
    kept: Seq<Seq<Record<RotondaPaMap>>>,
    j: int,
) -> (i: int)
    requires
        0 <= j < v.len(),
        kept[j].len() > 0,
    ensures
        0 <= i < rows_left(v, kept).len(),
        rows_left(v, kept)[i] == (v[j].0, kept[j]),
    decreases v.len(),
{
    if j < v.len() - 1 {
        lemma_kept_row(v.drop_last(), kept, j)
    } else {
        rows_left(v.drop_last(), kept).len() as int
    }
}

/// Prefixes that are left stand as they did in the list.
pub proof fn lemma_rows_in_order(
    v: Seq<(Prefix, Seq<Record<RotondaPaMap>>)>,
    kept: Seq<Seq<Record<RotondaPaMap>>>,
    i: int,
    k: int,
) -> (r: (int, int))
    requires
        0 <= i < k < rows_left(v, kept).len(),
    ensures
        0 <= r.0 < r.1 < v.len(),
        rows_left(v, kept)[i].0 == v[r.0].0,
        rows_left(v, kept)[k].0 == v[r.1].0,
    decreases v.len(),
{
    let front = rows_left(v.drop_last(), kept);
    if k < front.len() {
        lemma_rows_in_order(v.drop_last(), kept, i, k)
    } else {
        (lemma_row_left(v.drop_last(), kept, i), v.len() - 1)
    }
}

/// What is left of two lists is left of both together.
pub proof fn lemma_rows_add_up(
    v: Seq<(Prefix, Seq<Record<RotondaPaMap>>)>,
    w: Seq<(Prefix, Seq<Record<RotondaPaMap>>)>,
    a: Seq<Seq<Record<RotondaPaMap>>>,
    b: Seq<Seq<Record<RotondaPaMap>>>,
)
    requires
        a.len() == v.len(),
        b.len() == w.len(),
    ensures
        rows_left(v + w, a + b) == rows_left(v, a) + rows_left(w, b),
    decreases w.len(),
{
    if w.len() == 0 {
        assert(v + w =~= v);
        assert(a + b =~= a);
        assert(rows_left(v, a) + rows_left(w, b) =~= rows_left(v, a));
    } else {
        let c = b.drop_last();
        lemma_rows_add_up(v, w.drop_last(), a, c);
        assert((v + w).drop_last() =~= v + w.drop_last());
        assert((a + c).push(b.last()) =~= a + b);
        assert(c.push(b.last()) =~= b);
        lemma_rows_left(v + w.drop_last(), a + c, b.last());
        lemma_rows_left(w.drop_last(), c, b.last());
        assert((a + b)[(v + w).len() - 1] == b[w.len() - 1]);
        assert(rows_left(v + w, a + b) =~= rows_left(v, a) + rows_left(w, b));
    }
}

/// What is left of a list are prefixes of the list, each with a record.
pub proof fn lemma_row_left(
    v: Seq<(Prefix, Seq<Record<RotondaPaMap>>)>,
    kept: Seq<Seq<Record<RotondaPaMap>>>,
    i: int,
) -> (j: int)
    requires
        0 <= i < rows_left(v, kept).len(),
    ensures
        0 <= j < v.len(),
        kept[j].len() > 0,
        rows_left(v, kept)[i] == (v[j].0, kept[j]),
    decreases v.len(),
{
    if i < rows_left(v.drop_last(), kept).len() {
        lemma_row_left(v.drop_last(), kept, i)
    } else {
        v.len() - 1
    }
}

/// Keeps the prefixes with a record that a query and its filter function let
/// pass, in their order.
pub fn filter_set<F: Fn(&RotondaPaMap) -> bool>(
    set: Vec<PrefixRecord<RotondaPaMap>>,
    f: &QueryFilter,
    infos: &Table<IngressId, IngressInfo>,
    function: Option<&F>,
) -> (r: Vec<PrefixRecord<RotondaPaMap>>)
    requires
        infos.wf(),
        callable(function),
    ensures
        sifted(*f, infos@, function, set_view(set@), set_view(r@)),
{
    let ghost all = set@;
    let ghost rows = set_view(all);
    let ghost mut kept: Seq<Seq<Record<RotondaPaMap>>> = Seq::empty();
    let mut rest = reversed(set);
    let mut out: Vec<PrefixRecord<RotondaPaMap>> = Vec::new();
    let ghost mut done: int = 0;
    assert(rows.take(0) =~= Seq::empty());
    assert(set_view(out@) =~= Seq::empty());
    while rest.len() > 0
        invariant
            infos.wf(),
            callable(function),
            0 <= done,
            rows == set_view(all),
            done + rest@.len() == all.len(),
            kept.len() == done,
            forall|i: int| 0 <= i < done ==> filtered(*f, infos@, function, rows[i].1, #[trigger] kept[i]),
            forall|i: int| 0 <= i < rest@.len() ==> #[trigger] rest@[i] == all[all.len() - 1 - i],
            set_view(out@) == rows_left(rows.take(done), kept),
        decreases rest@.len(),
    {
        let ghost before = out@;
        match rest.pop() {
            Some(pr) => {
                assert(pr == all[done]);
                let PrefixRecord { prefix, mut meta } = pr;
                apply_filter(&mut meta, f, function, infos);
                let ghost left = meta@;
                if meta.len() > 0 {
                    out.push(PrefixRecord { prefix, meta });
                    assert(set_view(out@) =~= set_view(before).push((prefix, left)));
                }
                proof {
                    let t = rows.take(done + 1);
                    assert(t.drop_last() =~= rows.take(done));
                    assert(t.last() == (all[done].prefix, all[done].meta@));
                    lemma_rows_left(rows.take(done), kept, left);
                    kept = kept.push(left);
                    done = done + 1;
                }
            },
            None => {},
        }
    }
    proof {
        assert(rows.take(done) =~= rows);
        assert(all_filtered(*f, infos@, function, rows, kept));
    }
    out
}

} // verus!
