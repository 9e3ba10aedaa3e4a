//! Queries for FlowSpec rules, with a verdict on each of them.
use vstd::prelude::*;

use crate::flowspec::{
    dst_key, dst_prefix, rules_distinct, FlowSpecOriginator, FlowSpecRule, FlowSpecRuleSet, FlowSpecValidity, RuleView,
};
use crate::ingress::IngressInfo;
use crate::rib::{sets_distinct, Rib};
use crate::store::{
    answers, distinct_keys, has_key, lands_on, listed, set_listed, wanted, MatchOptions, MatchType, PrefixRecord,
    QueryResult, Record, RecordView, RouteStore, Scope, StoreView,
};
use crate::text::{decimal, push_decimal};
use crate::types::{covers, IngressId, Prefix, PrefixKey};
use crate::validation::{flowspec_identity, identity, validate_flowspec, verdict};

verus! {

/// A query for FlowSpec rules: those of a family, or those under a prefix and
/// under the less and more specific ones that are asked for; of all ingresses
/// or of one.
#[derive(Clone, Copy, Debug)]
pub struct FlowSpecQuery {
    pub family_v4: bool,
    pub prefix: Option<Prefix>,
    pub include_less_specifics: bool,
    pub include_more_specifics: bool,
    pub ingress_id: Option<IngressId>,
}

/// One rule of an answer.
#[derive(Debug)]
pub struct FlowSpecQueryRow {
    pub key_prefix: Prefix,
    pub ingress_id: IngressId,
    pub rule: FlowSpecRule,
}

/// Whether a query asks for the rules under `p`.
pub open spec fn asks_for(q: FlowSpecQuery, p: PrefixKey) -> bool {
    match q.prefix {
        None => p.0 == q.family_v4,
        Some(key) => {
            ||| p == key@
            ||| q.include_less_specifics && covers(p, key@) && p != key@
            ||| q.include_more_specifics && covers(key@, p) && p != key@
        },
    }
}

/// The set of rules of an ingress under a prefix that a query is answered
/// with. Those of a withdrawn ingress are, to who asks for that ingress under
/// a prefix.
pub open spec fn selected(
    s: StoreView<Seq<RuleView>>,
    q: FlowSpecQuery,
    p: PrefixKey,
    m: IngressId,
) -> Option<RecordView<Seq<RuleView>>> {
    if asks_for(q, p) && wanted(q.ingress_id, m) {
        s.shown(p, m, q.prefix is Some && q.ingress_id is Some, false)
    } else {
        None
    }
}

impl FlowSpecQueryRow {
    /// Whether the row stands for a rule with these components, of `m` under
    /// `p`.
    pub open spec fn is_for(self, p: PrefixKey, m: IngressId, nlri: Seq<u8>) -> bool {
        self.key_prefix@ == p && self.ingress_id == m && self.rule.nlri@ == nlri
    }

    /// The octets that the row counts for.
    pub open spec fn bytes(self) -> int {
        self.rule.nlri@.len() as int + self.rule.pamap@.len()
    }
}

/// Whether a row stands for a rule that a query is answered with.
pub open spec fn row_selected(s: StoreView<Seq<RuleView>>, q: FlowSpecQuery, row: FlowSpecQueryRow) -> bool {
    &&& row.key_prefix.wf()
    &&& selected(s, q, row.key_prefix@, row.ingress_id) matches Some(rec) && exists|k: int|
        0 <= k < rec.meta.len() && (#[trigger] rec.meta[k]).nlri == row.rule.nlri@ && rec.meta[k].pamap
            == row.rule.pamap@
}

/// Whether all rows stand for rules that a query is answered with, each for
/// another one.
pub open spec fn rows_selected(s: StoreView<Seq<RuleView>>, q: FlowSpecQuery, rows: Seq<FlowSpecQueryRow>) -> bool {
    &&& forall|i: int| 0 <= i < rows.len() ==> row_selected(s, q, #[trigger] rows[i])
    &&& forall|i: int, j: int|
        0 <= i < j < rows.len() ==> !(#[trigger] rows[i]).is_for(
            (#[trigger] rows[j]).key_prefix@,
            rows[j].ingress_id,
            rows[j].rule.nlri@,
        )
}

/// Whether rows have a rule.
pub open spec fn has_row(rows: Seq<FlowSpecQueryRow>, p: PrefixKey, m: IngressId, nlri: Seq<u8>) -> bool {
    exists|i: int| 0 <= i < rows.len() && (#[trigger] rows[i]).is_for(p, m, nlri)
}

/// Whether rows have all rules under a prefix that a query is answered with.
pub open spec fn rows_have(
    s: StoreView<Seq<RuleView>>,
    q: FlowSpecQuery,
    rows: Seq<FlowSpecQueryRow>,
    p: PrefixKey,
) -> bool {
    forall|m: IngressId, k: int|
        #![trigger selected(s, q, p, m), s.records[(p, m)].meta[k]]
        selected(s, q, p, m) is Some && 0 <= k < s.records[(p, m)].meta.len() ==> has_row(
            rows,
            p,
            m,
            s.records[(p, m)].meta[k].nlri,
        )
}

/// The octets that rows count for.
pub open spec fn total_bytes(rows: Seq<FlowSpecQueryRow>) -> int
    decreases rows.len(),
{
    if rows.len() == 0 {
        0
    } else {
        total_bytes(rows.drop_last()) + rows.last().bytes()
    }
}

/// Whether rows are within limits on their number and on their octets.
pub open spec fn within(limits: Option<(usize, usize)>, rows: Seq<FlowSpecQueryRow>) -> bool {
    limits matches Some((max_rows, max_bytes)) ==> rows.len() <= max_rows && total_bytes(rows) <= max_bytes
}

proof fn lemma_bytes_grow(rows: Seq<FlowSpecQueryRow>, row: FlowSpecQueryRow)
    ensures
        total_bytes(rows.push(row)) == total_bytes(rows) + row.bytes(),
{
    assert(rows.push(row).drop_last() =~= rows);
}

/// Appends one row, if it is within the limits.
fn push_row(
    rows: &mut Vec<FlowSpecQueryRow>,
    raw_bytes: &mut usize,
    row: FlowSpecQueryRow,
    limits: Option<(usize, usize)>,
) -> (r: Result<(), Ghost<FlowSpecQueryRow>>)
    requires
        limits is Some ==> *old(raw_bytes) == total_bytes(old(rows)@),
        within(limits, old(rows)@),
    ensures
        match r {
            Ok(_) => {
                &&& final(rows)@ == old(rows)@.push(row)
                &&& within(limits, final(rows)@)
                &&& limits is Some ==> *final(raw_bytes) == total_bytes(final(rows)@)
            },
            Err(g) => !within(limits, old(rows)@.push(row)) && final(rows)@ == old(rows)@ && g@ == row,
        },
{
    proof {
        lemma_bytes_grow(rows@, row);
    }
    match limits {
        Some((max_rows, max_raw_bytes)) => {
            assert(row.rule.pamap.raw@ == row.rule.pamap@);
            let rule_bytes = row.rule.nlri.len().checked_add(row.rule.pamap.raw.len());
            let sum = match rule_bytes {
                Some(n) => raw_bytes.checked_add(n),
                None => None,
            };
            match sum {
                Some(n) => {
                    if rows.len() >= max_rows || n > max_raw_bytes {
                        return Err(Ghost(row));
                    }
                    *raw_bytes = n;
                },
                None => {
                    return Err(Ghost(row));
                },
            }
        },
        None => {},
    }
    rows.push(row);
    Ok(())
}

/// Rows under other prefixes are not for `p`.
spec fn none_under(rows: Seq<FlowSpecQueryRow>, p: PrefixKey) -> bool {
    forall|i: int| 0 <= i < rows.len() ==> (#[trigger] rows[i]).key_prefix@ != p
}

/// What rows are once some more were appended, all under one prefix.
spec fn grown(before: Seq<FlowSpecQueryRow>, after: Seq<FlowSpecQueryRow>, p: PrefixKey) -> bool {
    &&& before.is_prefix_of(after)
    &&& forall|i: int| before.len() <= i < after.len() ==> (#[trigger] after[i]).key_prefix@ == p
}

/// Whether more rows than the limits allow are selected.
pub open spec fn exceeded(s: StoreView<Seq<RuleView>>, q: FlowSpecQuery, limits: Option<(usize, usize)>) -> bool {
    exists|rows: Seq<FlowSpecQueryRow>| #[trigger] rows_selected(s, q, rows) && !within(limits, rows)
}

/// Appends the rules of one ingress under a prefix.
fn push_rules(
    rows: &mut Vec<FlowSpecQueryRow>,
    raw_bytes: &mut usize,
    key: &Prefix,
    rec: &Record<FlowSpecRuleSet>,
    limits: Option<(usize, usize)>,
    s: Ghost<StoreView<Seq<RuleView>>>,
    q: Ghost<FlowSpecQuery>,
) -> (r: bool)
    requires
        key.wf(),
        limits is Some ==> *old(raw_bytes) == total_bytes(old(rows)@),
        within(limits, old(rows)@),
        rows_selected(s@, q@, old(rows)@),
        selected(s@, q@, key@, rec.multi_uniq_id) == Some(rec@),
        rules_distinct(rec.meta@),
        forall|i: int|
            0 <= i < old(rows)@.len() ==> (#[trigger] old(rows)@[i]).key_prefix@ != key@ || old(rows)@[i].ingress_id
                != rec.multi_uniq_id,
    ensures
        !r ==> exceeded(s@, q@, limits),
        r ==> {
            &&& rows_selected(s@, q@, final(rows)@)
            &&& within(limits, final(rows)@)
            &&& limits is Some ==> *final(raw_bytes) == total_bytes(final(rows)@)
            &&& grown(old(rows)@, final(rows)@, key@)
            &&& forall|i: int|
                old(rows)@.len() <= i < final(rows)@.len() ==> (#[trigger] final(rows)@[i]).ingress_id
                    == rec.multi_uniq_id
            &&& forall|k: int|
                0 <= k < rec.meta@.len() ==> has_row(
                    final(rows)@,
                    key@,
                    rec.multi_uniq_id,
                    (#[trigger] rec.meta@[k]).nlri,
                )
        },
{
    let ghost before = rows@;
    let ghost m = rec.multi_uniq_id;
    let mut j: usize = 0;
    while j < rec.meta.rules.len()
        invariant
            j <= rec.meta.rules@.len(),
            key.wf(),
            m == rec.multi_uniq_id,
            before == old(rows)@,
            limits is Some ==> *raw_bytes == total_bytes(rows@),
            within(limits, rows@),
            rows_selected(s@, q@, rows@),
            selected(s@, q@, key@, m) == Some(rec@),
            rules_distinct(rec.meta@),
            rows@.len() == before.len() + j,
            grown(before, rows@, key@),
            forall|i: int|
                0 <= i < before.len() ==> (#[trigger] before[i]).key_prefix@ != key@ || before[i].ingress_id != m,
            forall|k: int|
                0 <= k < j ==> (#[trigger] rows@[before.len() + k]).is_for(key@, m, rec.meta@[k].nlri),
        decreases rec.meta.rules@.len() - j,
    {
        let rule = &rec.meta.rules[j];
        let ghost was = rows@;
        let row = FlowSpecQueryRow { key_prefix: *key, ingress_id: rec.multi_uniq_id, rule: rule.clone() };
        assert(rec.meta@[j as int] == rule@);
        assert(row_selected(s@, q@, row)) by {
            assert(rec@.meta[j as int].nlri == row.rule.nlri@);
        }
        proof {
            let now = was.push(row);
            assert forall|a: int, b: int| 0 <= a < b < now.len() implies !(#[trigger] now[a]).is_for(
                (#[trigger] now[b]).key_prefix@,
                now[b].ingress_id,
                now[b].rule.nlri@,
            ) by {
                if b == was.len() && a >= before.len() {
                    let k = a - before.len();
                    assert(rows@[before.len() + k].is_for(key@, m, rec.meta@[k].nlri));
                    assert(rec.meta@[k].nlri != rec.meta@[j as int].nlri);
                } else if b == was.len() {
                    assert(was[a] == before[a]);
                }
            }
            assert(rows_selected(s@, q@, now)) by {
                assert forall|i: int| 0 <= i < now.len() implies row_selected(s@, q@, #[trigger] now[i]) by {
                    if i < was.len() {
                        assert(now[i] == was[i]);
                    }
                }
            }
        }
        match push_row(rows, raw_bytes, row, limits) {
            Ok(_) => {},
            Err(_) => {
                return false;
            },
        }
        proof {
            assert forall|k: int| 0 <= k < j + 1 implies (#[trigger] rows@[before.len() + k]).is_for(
                key@,
                m,
                rec.meta@[k].nlri,
            ) by {
                if k < j {
                    assert(rows@[before.len() + k] == was[before.len() + k]);
                }
            }
            assert(grown(before, rows@, key@)) by {
                assert forall|i: int| before.len() <= i < rows@.len() implies (#[trigger] rows@[i]).key_prefix@ == key@ by {
                    if i < was.len() {
                        assert(rows@[i] == was[i]);
                    }
                }
                assert forall|i: int| 0 <= i < before.len() implies before[i] == rows@[i] by {
                    assert(rows@[i] == was[i]);
                }
            }
        }
        j = j + 1;
    }
    proof {
        assert forall|k: int| 0 <= k < rec.meta@.len() implies has_row(rows@, key@, m, (#[trigger] rec.meta@[k]).nlri) by {
            assert(rows@[before.len() + k].is_for(key@, m, rec.meta@[k].nlri));
        }
        assert forall|i: int| before.len() <= i < rows@.len() implies (#[trigger] rows@[i]).ingress_id == m by {
            let k = i - before.len();
            assert(rows@[before.len() + k].is_for(key@, m, rec.meta@[k].nlri));
        }
    }
    true
}

/// Appends the rules under a prefix that a query is answered with.
fn push_records(
    rows: &mut Vec<FlowSpecQueryRow>,
    raw_bytes: &mut usize,
    key: &Prefix,
    records: &Vec<Record<FlowSpecRuleSet>>,
    q: &FlowSpecQuery,
    limits: Option<(usize, usize)>,
    s: Ghost<StoreView<Seq<RuleView>>>,
    by_mui: Ghost<bool>,
) -> (r: bool)
    requires
        key.wf(),
        sets_distinct(s@),
        limits is Some ==> *old(raw_bytes) == total_bytes(old(rows)@),
        within(limits, old(rows)@),
        rows_selected(s@, *q, old(rows)@),
        none_under(old(rows)@, key@),
        asks_for(*q, key@),
        by_mui@ == (q.prefix is Some && q.ingress_id is Some),
        listed(
            s@,
            key@,
            if by_mui@ {
                q.ingress_id
            } else {
                None
            },
            false,
            records@,
        ),
    ensures
        !r ==> exceeded(s@, *q, limits),
        r ==> {
            &&& rows_selected(s@, *q, final(rows)@)
            &&& within(limits, final(rows)@)
            &&& limits is Some ==> *final(raw_bytes) == total_bytes(final(rows)@)
            &&& grown(old(rows)@, final(rows)@, key@)
            &&& rows_have(s@, *q, final(rows)@, key@)
        },
{
    let ghost before = rows@;
    let ghost p = key@;
    let mut i: usize = 0;
    while i < records.len()
        invariant
            i <= records@.len(),
            key.wf(),
            p == key@,
            before == old(rows)@,
            sets_distinct(s@),
            limits is Some ==> *raw_bytes == total_bytes(rows@),
            within(limits, rows@),
            rows_selected(s@, *q, rows@),
            none_under(before, p),
            asks_for(*q, p),
            by_mui@ == (q.prefix is Some && q.ingress_id is Some),
            listed(
                s@,
                p,
                if by_mui@ {
                    q.ingress_id
                } else {
                    None
                },
                false,
                records@,
            ),
            grown(before, rows@, p),
            forall|j: int|
                before.len() <= j < rows@.len() ==> exists|l: int|
                    0 <= l < i && (#[trigger] records@[l]).multi_uniq_id == (#[trigger] rows@[j]).ingress_id,
            forall|l: int, k: int|
                0 <= l < i && wanted(q.ingress_id, records@[l].multi_uniq_id) && 0 <= k < records@[l].meta@.len()
                    ==> has_row(rows@, p, (#[trigger] records@[l]).multi_uniq_id, (#[trigger] records@[l].meta@[k]).nlri),
        decreases records@.len() - i,
    {
        let rec = &records[i];
        let ghost was = rows@;
        let meant = match q.ingress_id {
            Some(id) => rec.multi_uniq_id == id,
            None => true,
        };
        assert(s@.shown(p, rec.multi_uniq_id, by_mui@, false) == Some(rec@));
        if meant {
            proof {
                assert(s@.records.contains_key((p, rec.multi_uniq_id)));
                assert forall|j: int| 0 <= j < rows@.len() implies (#[trigger] rows@[j]).key_prefix@ != p
                    || rows@[j].ingress_id != rec.multi_uniq_id by {
                    if j < before.len() {
                        assert(before[j] == rows@[j]);
                    } else {
                        let l = choose|l: int| 0 <= l < i && (#[trigger] records@[l]).multi_uniq_id == rows@[j].ingress_id;
                        assert(records@[l].multi_uniq_id != records@[i as int].multi_uniq_id);
                    }
                }
            }
            if !push_rules(rows, raw_bytes, key, rec, limits, s, Ghost(*q)) {
                return false;
            }
            proof {
                assert(grown(before, rows@, p)) by {
                    assert forall|j: int| before.len() <= j < rows@.len() implies (#[trigger] rows@[j]).key_prefix@ == p by {
                        if j < was.len() {
                            assert(was[j] == rows@[j]);
                        }
                    }
                }
                assert forall|j: int| before.len() <= j < rows@.len() implies exists|l: int|
                    0 <= l < i + 1 && (#[trigger] records@[l]).multi_uniq_id == (#[trigger] rows@[j]).ingress_id by {
                    if j < was.len() {
                        assert(was[j] == rows@[j]);
                        let l = choose|l: int| 0 <= l < i && (#[trigger] records@[l]).multi_uniq_id == was[j].ingress_id;
                        assert(records@[l].multi_uniq_id == rows@[j].ingress_id);
                    } else {
                        assert(records@[i as int].multi_uniq_id == rows@[j].ingress_id);
                    }
                }
                assert forall|l: int, k: int|
                    0 <= l < i + 1 && wanted(q.ingress_id, records@[l].multi_uniq_id) && 0 <= k
                        < records@[l].meta@.len() implies has_row(
                    rows@,
                    p,
                    (#[trigger] records@[l]).multi_uniq_id,
                    (#[trigger] records@[l].meta@[k]).nlri,
                ) by {
                    if l < i {
                        let m = records@[l].multi_uniq_id;
                        let n = records@[l].meta@[k].nlri;
                        assert(has_row(was, p, m, n));
                        let x = choose|x: int| 0 <= x < was.len() && (#[trigger] was[x]).is_for(p, m, n);
                        assert(rows@[x] == was[x]);
                        assert(rows@[x].is_for(p, m, n));
                    }
                }
            }
        }
        i = i + 1;
    }
    proof {
        assert forall|m: IngressId, k: int|
            #![trigger selected(s@, *q, p, m), s@.records[(p, m)].meta[k]]
            selected(s@, *q, p, m) is Some && 0 <= k < s@.records[(p, m)].meta.len() implies has_row(
            rows@,
            p,
            m,
            s@.records[(p, m)].meta[k].nlri,
        ) by {
            assert(s@.shown(p, m, by_mui@, false) is Some);
            let l = choose|l: int| 0 <= l < records@.len() && (#[trigger] records@[l]).multi_uniq_id == m;
            assert(s@.shown(p, m, by_mui@, false) == Some(records@[l]@));
            assert(records@[l].meta@[k].nlri == s@.records[(p, m)].meta[k].nlri);
        }
    }
    true
}

proof fn lemma_rows_have_more(
    s: StoreView<Seq<RuleView>>,
    q: FlowSpecQuery,
    before: Seq<FlowSpecQueryRow>,
    after: Seq<FlowSpecQueryRow>,
    p: PrefixKey,
)
    requires
        before.is_prefix_of(after),
        rows_have(s, q, before, p),
    ensures
        rows_have(s, q, after, p),
{
    assert forall|m: IngressId, k: int|
        #![trigger selected(s, q, p, m), s.records[(p, m)].meta[k]]
        selected(s, q, p, m) is Some && 0 <= k < s.records[(p, m)].meta.len() implies has_row(
        after,
        p,
        m,
        s.records[(p, m)].meta[k].nlri,
    ) by {
        let n = s.records[(p, m)].meta[k].nlri;
        assert(has_row(before, p, m, n));
        let x = choose|x: int| 0 <= x < before.len() && (#[trigger] before[x]).is_for(p, m, n);
        assert(after[x].is_for(p, m, n));
    }
}

/// Whether rows stand under prefixes of `set`.
spec fn under_set(rows: Seq<FlowSpecQueryRow>, from: int, set: Seq<PrefixRecord<FlowSpecRuleSet>>, n: int) -> bool {
    forall|i: int|
        from <= i < rows.len() ==> exists|k: int|
            0 <= k < n && (#[trigger] set[k]).prefix@ == (#[trigger] rows[i]).key_prefix@
}

/// Appends the rules under some prefixes that a query for a prefix is
/// answered with.
fn push_set(
    rows: &mut Vec<FlowSpecQueryRow>,
    raw_bytes: &mut usize,
    set: &Vec<PrefixRecord<FlowSpecRuleSet>>,
    scope: Ghost<Scope>,
    q: &FlowSpecQuery,
    limits: Option<(usize, usize)>,
    s: Ghost<StoreView<Seq<RuleView>>>,
) -> (r: bool)
    requires
        sets_distinct(s@),
        q.prefix is Some,
        limits is Some ==> *old(raw_bytes) == total_bytes(old(rows)@),
        within(limits, old(rows)@),
        rows_selected(s@, *q, old(rows)@),
        set_listed(s@, scope@, q.ingress_id, false, set@),
        forall|k: int|
            0 <= k < set@.len() ==> none_under(old(rows)@, (#[trigger] set@[k]).prefix@) && asks_for(
                *q,
                set@[k].prefix@,
            ),
    ensures
        !r ==> exceeded(s@, *q, limits),
        r ==> {
            &&& rows_selected(s@, *q, final(rows)@)
            &&& within(limits, final(rows)@)
            &&& limits is Some ==> *final(raw_bytes) == total_bytes(final(rows)@)
            &&& old(rows)@.is_prefix_of(final(rows)@)
            &&& under_set(final(rows)@, old(rows)@.len() as int, set@, set@.len() as int)
            &&& forall|k: int| 0 <= k < set@.len() ==> rows_have(s@, *q, final(rows)@, (#[trigger] set@[k]).prefix@)
        },
{
    let ghost before = rows@;
    let mut i: usize = 0;
    while i < set.len()
        invariant
            i <= set@.len(),
            before == old(rows)@,
            sets_distinct(s@),
            q.prefix is Some,
            limits is Some ==> *raw_bytes == total_bytes(rows@),
            within(limits, rows@),
            rows_selected(s@, *q, rows@),
            set_listed(s@, scope@, q.ingress_id, false, set@),
            forall|k: int|
                0 <= k < set@.len() ==> none_under(before, (#[trigger] set@[k]).prefix@) && asks_for(*q, set@[k].prefix@),
            before.is_prefix_of(rows@),
            under_set(rows@, before.len() as int, set@, i as int),
            forall|k: int| 0 <= k < i ==> rows_have(s@, *q, rows@, (#[trigger] set@[k]).prefix@),
        decreases set@.len() - i,
    {
        let pr = &set[i];
        let ghost was = rows@;
        proof {
            assert forall|j: int| 0 <= j < rows@.len() implies (#[trigger] rows@[j]).key_prefix@ != pr.prefix@ by {
                if j < before.len() {
                    assert(before[j] == rows@[j]);
                    assert(none_under(before, set@[i as int].prefix@));
                } else {
                    let k = choose|k: int| 0 <= k < i && (#[trigger] set@[k]).prefix@ == rows@[j].key_prefix@;
                    assert(set@[k].prefix@ != set@[i as int].prefix@);
                }
            }
        }
        if !push_records(rows, raw_bytes, &pr.prefix, &pr.meta, q, limits, s, Ghost(q.ingress_id is Some)) {
            return false;
        }
        proof {
            assert forall|k: int| 0 <= k < i + 1 implies rows_have(s@, *q, rows@, (#[trigger] set@[k]).prefix@) by {
                if k < i {
                    lemma_rows_have_more(s@, *q, was, rows@, set@[k].prefix@);
                }
            }
            assert forall|j: int| before.len() <= j < rows@.len() implies exists|k: int|
                0 <= k < i + 1 && (#[trigger] set@[k]).prefix@ == (#[trigger] rows@[j]).key_prefix@ by {
                if j < was.len() {
                    assert(was[j] == rows@[j]);
                    let k = choose|k: int| 0 <= k < i && (#[trigger] set@[k]).prefix@ == was[j].key_prefix@;
                    assert(set@[k].prefix@ == rows@[j].key_prefix@);
                } else {
                    assert(set@[i as int].prefix@ == rows@[j].key_prefix@);
                }
            }
        }
        i = i + 1;
    }
    true
}

/// What an answer holds: rows for selected rules, each once, and for all of
/// them, within the limits.
pub open spec fn answered(
    s: StoreView<Seq<RuleView>>,
    q: FlowSpecQuery,
    limits: Option<(usize, usize)>,
    rows: Seq<FlowSpecQueryRow>,
) -> bool {
    &&& rows_selected(s, q, rows)
    &&& within(limits, rows)
    &&& forall|p: PrefixKey| #[trigger] rows_have(s, q, rows, p)
}

/// Collects the rules of a family.
fn collect_family(store: &RouteStore<FlowSpecRuleSet>, q: &FlowSpecQuery, limits: Option<(usize, usize)>) -> (r: Option<
    Vec<FlowSpecQueryRow>,
>)
    requires
        store.wf(),
        sets_distinct(store@),
        q.prefix is None,
    ensures
        match r {
            Some(rows) => answered(store@, *q, limits, rows@),
            None => exceeded(store@, *q, limits),
        },
{
    let ghost s = store@;
    let keys = store.prefixes();
    let mut rows: Vec<FlowSpecQueryRow> = Vec::new();
    let mut raw_bytes: usize = 0;
    let mut i: usize = 0;
    while i < keys.len()
        invariant
            i <= keys@.len(),
            store.wf(),
            s == store@,
            sets_distinct(s),
            q.prefix is None,
            distinct_keys(keys@),
            limits is Some ==> raw_bytes == total_bytes(rows@),
            within(limits, rows@),
            rows_selected(s, *q, rows@),
            forall|j: int|
                0 <= j < rows@.len() ==> exists|k: int|
                    0 <= k < i && (#[trigger] keys@[k])@ == (#[trigger] rows@[j]).key_prefix@,
            forall|k: int|
                0 <= k < i && asks_for(*q, keys@[k]@) ==> rows_have(s, *q, rows@, (#[trigger] keys@[k])@),
        decreases keys@.len() - i,
    {
        let key = keys[i];
        let ghost was = rows@;
        if key.is_v4() == q.family_v4 {
            proof {
                assert forall|j: int| 0 <= j < rows@.len() implies (#[trigger] rows@[j]).key_prefix@ != key@ by {
                    let k = choose|k: int| 0 <= k < i && (#[trigger] keys@[k])@ == rows@[j].key_prefix@;
                    assert(keys@[k]@ != keys@[i as int]@);
                }
            }
            let records = store.get_records_for_prefix(&key, None, false);
            if !push_records(&mut rows, &mut raw_bytes, &key, &records, q, limits, Ghost(s), Ghost(false)) {
                return None;
            }
            proof {
                assert forall|k: int| 0 <= k < i + 1 && asks_for(*q, keys@[k]@) implies rows_have(
                    s,
                    *q,
                    rows@,
                    (#[trigger] keys@[k])@,
                ) by {
                    if k < i {
                        lemma_rows_have_more(s, *q, was, rows@, keys@[k]@);
                    }
                }
                assert forall|j: int| 0 <= j < rows@.len() implies exists|k: int|
                    0 <= k < i + 1 && (#[trigger] keys@[k])@ == (#[trigger] rows@[j]).key_prefix@ by {
                    if j < was.len() {
                        assert(was[j] == rows@[j]);
                        let k = choose|k: int| 0 <= k < i && (#[trigger] keys@[k])@ == was[j].key_prefix@;
                        assert(keys@[k]@ == rows@[j].key_prefix@);
                    } else {
                        assert(keys@[i as int]@ == rows@[j].key_prefix@);
                    }
                }
            }
        }
        i = i + 1;
    }
    proof {
        assert forall|p: PrefixKey| #[trigger] rows_have(s, *q, rows@, p) by {
            if s.has_prefix(p) && asks_for(*q, p) {
                assert(has_key(keys@, p));
                let k = choose|k: int| 0 <= k < keys@.len() && (#[trigger] keys@[k])@ == p;
                assert(rows_have(s, *q, rows@, keys@[k]@));
            } else {
                assert forall|m: IngressId| (#[trigger] selected(s, *q, p, m)) is None by {
                    if selected(s, *q, p, m) is Some {
                        assert(s.records.contains_key((p, m)));
                    }
                }
            }
        }
    }
    Some(rows)
}

/// Collects the rules under a prefix and under those that go with it.
fn collect_prefix(
    store: &RouteStore<FlowSpecRuleSet>,
    q: &FlowSpecQuery,
    prefix: &Prefix,
    limits: Option<(usize, usize)>,
) -> (r: Option<Vec<FlowSpecQueryRow>>)
    requires
        store.wf(),
        sets_distinct(store@),
        q.prefix == Some(*prefix),
        prefix.wf(),
    ensures
        match r {
            Some(rows) => answered(store@, *q, limits, rows@),
            None => exceeded(store@, *q, limits),
        },
{
    let ghost s = store@;
    let options = MatchOptions {
        match_type: MatchType::ExactMatch,
        include_withdrawn: false,
        include_less_specifics: q.include_less_specifics,
        include_more_specifics: q.include_more_specifics,
        mui: q.ingress_id,
    };
    let res = store.match_prefix(prefix, &options);
    let mut rows: Vec<FlowSpecQueryRow> = Vec::new();
    let mut raw_bytes: usize = 0;
    let by_mui: Ghost<bool> = Ghost(q.ingress_id is Some);
    assert(answers(s, *prefix, options, res));
    match &res.prefix {
        Some(key) => {
            if !push_records(&mut rows, &mut raw_bytes, key, &res.records, q, limits, Ghost(s), by_mui) {
                return None;
            }
        },
        None => {
            assert forall|m: IngressId| (#[trigger] selected(s, *q, prefix@, m)) is None by {
                lemma_exact_none(s, *q, *prefix, options, res, m);
            }
        },
    }
    let ghost first = rows@;
    assert(rows_have(s, *q, rows@, prefix@));
    match &res.less_specifics {
        Some(set) => {
            if !push_set(&mut rows, &mut raw_bytes, set, Ghost(Scope::LessSpecific(*prefix)), q, limits, Ghost(s)) {
                return None;
            }
        },
        None => {},
    }
    let ghost second = rows@;
    proof {
        lemma_rows_have_more(s, *q, first, second, prefix@);
    }
    match &res.more_specifics {
        Some(set) => {
            proof {
                assert forall|k: int| 0 <= k < set@.len() implies none_under(rows@, (#[trigger] set@[k]).prefix@) by {
                    let p = set@[k].prefix@;
                    assert(Scope::MoreSpecific(*prefix).has(p));
                    assert forall|j: int| 0 <= j < rows@.len() implies (#[trigger] rows@[j]).key_prefix@ != p by {
                        if j < first.len() {
                            assert(first[j] == rows@[j]);
                        } else if res.less_specifics is Some {
                            let less = res.less_specifics->Some_0@;
                            let l = choose|l: int| 0 <= l < less.len() && (#[trigger] less[l]).prefix@ == rows@[j].key_prefix@;
                            assert(Scope::LessSpecific(*prefix).has(less[l].prefix@));
                            if p == less[l].prefix@ {
                                lemma_covers_both(p, prefix@, less[l].prefix, *prefix);
                            }
                        }
                    }
                }
            }
            if !push_set(&mut rows, &mut raw_bytes, set, Ghost(Scope::MoreSpecific(*prefix)), q, limits, Ghost(s)) {
                return None;
            }
        },
        None => {},
    }
    proof {
        assert forall|p: PrefixKey| #[trigger] rows_have(s, *q, rows@, p) by {
            if exists|m: IngressId| (#[trigger] selected(s, *q, p, m)) is Some {
                let m = choose|m: IngressId| (#[trigger] selected(s, *q, p, m)) is Some;
                assert(s.shown(p, m, q.ingress_id is Some, false) is Some);
                assert(s.shows(p, q.ingress_id, false));
                if p == prefix@ {
                    lemma_rows_have_more(s, *q, second, rows@, prefix@);
                } else if covers(p, prefix@) && q.include_less_specifics {
                    let set = res.less_specifics->Some_0@;
                    assert(Scope::LessSpecific(*prefix).has(p));
                    let k = choose|k: int| 0 <= k < set.len() && (#[trigger] set[k]).prefix@ == p;
                    assert(rows_have(s, *q, second, set[k].prefix@));
                    lemma_rows_have_more(s, *q, second, rows@, p);
                } else {
                    let set = res.more_specifics->Some_0@;
                    assert(Scope::MoreSpecific(*prefix).has(p));
                    let k = choose|k: int| 0 <= k < set.len() && (#[trigger] set[k]).prefix@ == p;
                    assert(rows_have(s, *q, rows@, set[k].prefix@));
                }
            }
        }
    }
    Some(rows)
}

/// Two prefixes that cover each other are the same.
proof fn lemma_covers_both(a: PrefixKey, b: PrefixKey, p: Prefix, q: Prefix)
    requires
        p@ == a,
        q@ == b,
        p.wf(),
        q.wf(),
        covers(a, b),
        covers(b, a),
    ensures
        a == b,
{
    assert(a.2 == b.2);
    assert forall|i: int| 0 <= i < a.1.len() implies a.1[i] == b.1[i] by {
        assert(crate::types::host_is_zero(b.1, b.2 as int));
        assert(b.1[i] == crate::types::masked_octet(b.1, b.2 as int, i));
    }
    assert(a.1 =~= b.1);
}

proof fn lemma_exact_none(
    s: StoreView<Seq<RuleView>>,
    q: FlowSpecQuery,
    prefix: Prefix,
    o: MatchOptions,
    res: QueryResult<FlowSpecRuleSet>,
    m: IngressId,
)
    requires
        answers(s, prefix, o, res),
        res.prefix is None,
        o.match_type is ExactMatch,
        !o.include_withdrawn,
        o.mui == q.ingress_id,
        q.prefix == Some(prefix),
    ensures
        selected(s, q, prefix@, m) is None,
{
    let found = choose|found: Option<PrefixKey>| #[trigger]
        lands_on(s, prefix@, o.match_type, found) && res.records@.len() == 0 && (found matches Some(p) ==> !s.shows(
            p,
            o.mui,
            o.include_withdrawn,
        ));
    if selected(s, q, prefix@, m) is Some {
        assert(s.records.contains_key((prefix@, m)));
        assert(s.has_prefix(prefix@));
        assert(s.shown(prefix@, m, q.ingress_id is Some, false) is Some);
        assert(s.shows(prefix@, q.ingress_id, false));
    }
}

/// Whether rows stand for the same rules, in the same order.
spec fn same_rows(a: Seq<FlowSpecQueryRow>, b: Seq<FlowSpecQueryRow>) -> bool {
    &&& a.len() == b.len()
    &&& forall|i: int|
        0 <= i < a.len() ==> {
            &&& (#[trigger] a[i]).key_prefix == (#[trigger] b[i]).key_prefix
            &&& a[i].ingress_id == b[i].ingress_id
            &&& a[i].rule.nlri == b[i].rule.nlri
            &&& a[i].rule.pamap == b[i].rule.pamap
        }
}

proof fn lemma_same_bytes(a: Seq<FlowSpecQueryRow>, b: Seq<FlowSpecQueryRow>)
    requires
        same_rows(a, b),
    ensures
        total_bytes(a) == total_bytes(b),
    decreases a.len(),
{
    if a.len() > 0 {
        assert(a[a.len() - 1].rule.nlri == b[a.len() - 1].rule.nlri);
        assert(same_rows(a.drop_last(), b.drop_last()));
        lemma_same_bytes(a.drop_last(), b.drop_last());
    }
}

proof fn lemma_same_answer(
    s: StoreView<Seq<RuleView>>,
    q: FlowSpecQuery,
    limits: Option<(usize, usize)>,
    a: Seq<FlowSpecQueryRow>,
    b: Seq<FlowSpecQueryRow>,
)
    requires
        same_rows(a, b),
        answered(s, q, limits, a),
    ensures
        answered(s, q, limits, b),
{
    lemma_same_bytes(a, b);
    assert forall|i: int| 0 <= i < b.len() implies row_selected(s, q, #[trigger] b[i]) by {
        assert(row_selected(s, q, a[i]));
    }
    assert forall|i: int, j: int| 0 <= i < j < b.len() implies !(#[trigger] b[i]).is_for(
        (#[trigger] b[j]).key_prefix@,
        b[j].ingress_id,
        b[j].rule.nlri@,
    ) by {
        assert(!a[i].is_for(a[j].key_prefix@, a[j].ingress_id, a[j].rule.nlri@));
    }
    assert forall|p: PrefixKey| #[trigger] rows_have(s, q, b, p) by {
        assert(rows_have(s, q, a, p));
        assert forall|m: IngressId, k: int|
            #![trigger selected(s, q, p, m), s.records[(p, m)].meta[k]]
            selected(s, q, p, m) is Some && 0 <= k < s.records[(p, m)].meta.len() implies has_row(
            b,
            p,
            m,
            s.records[(p, m)].meta[k].nlri,
        ) by {
            let n = s.records[(p, m)].meta[k].nlri;
            assert(has_row(a, p, m, n));
            let x = choose|x: int| 0 <= x < a.len() && (#[trigger] a[x]).is_for(p, m, n);
            assert(b[x].is_for(p, m, n));
        }
    }
}

/// Whether each of the first `n` rows bears a verdict on its rule.
pub open spec fn judged(
    unicast: StoreView<Seq<u8>>,
    infos: Map<IngressId, IngressInfo>,
    is_v4: bool,
    rows: Seq<FlowSpecQueryRow>,
    n: int,
) -> bool {
    forall|i: int|
        0 <= i < n ==> verdict(
            unicast,
            infos,
            (#[trigger] rows[i]).rule.nlri@,
            is_v4,
            identity(infos, rows[i].rule.pamap@, rows[i].ingress_id).0,
            rows[i].rule.validity,
        )
}

/// The text of the error for an answer that is too large.
pub open spec fn limit_text(max_rows: nat, max_raw_bytes: nat) -> Seq<char> {
    "FlowSpec query exceeds the response limit ("@ + decimal(max_rows) + " rules or "@ + decimal(max_raw_bytes)
        + " raw bytes)"@
}

fn limit_error(limits: Option<(usize, usize)>) -> (r: String)
    ensures
        limits matches Some((max_rows, max_raw_bytes)) ==> r@ == limit_text(max_rows as nat, max_raw_bytes as nat),
{
    let (max_rows, max_raw_bytes): (usize, usize) = match limits {
        Some(l) => l,
        None => (0, 0),
    };
    let mut s = "FlowSpec query exceeds the response limit (".to_string();
    push_decimal(&mut s, max_rows as u64);
    s.append(" rules or ");
    push_decimal(&mut s, max_raw_bytes as u64);
    s.append(" raw bytes)");
    s
}

/// A verdict on the rules for one destination that came from one originator.
struct Judgment {
    dst: Option<Prefix>,
    originator: FlowSpecOriginator,
    validity: FlowSpecValidity,
}

impl Judgment {
    spec fn holds(self, unicast: StoreView<Seq<u8>>, infos: Map<IngressId, IngressInfo>, is_v4: bool) -> bool {
        forall|nlri: Seq<u8>|
            (dst_key(nlri, is_v4) == match self.dst {
                Some(p) => Some(p@),
                None => None,
            }) ==> #[trigger] verdict(unicast, infos, nlri, is_v4, self.originator@, self.validity)
    }
}

/// The place of a verdict among those that were reached before.
fn find_judgment(known: &Vec<Judgment>, dst: &Option<Prefix>, originator: &FlowSpecOriginator) -> (r: Option<usize>)
    ensures
        r matches Some(i) ==> {
            &&& i < known@.len()
            &&& known@[i as int].originator@ == originator@
            &&& match (known@[i as int].dst, *dst) {
                (Some(a), Some(b)) => a@ == b@,
                (None, None) => true,
                _ => false,
            }
        },
{
    let mut i: usize = 0;
    while i < known.len()
        invariant
            i <= known@.len(),
        decreases known@.len() - i,
    {
        let same = match (&known[i].dst, dst) {
            (Some(a), Some(b)) => a.equals(b),
            (None, None) => true,
            _ => false,
        };
        if same && known[i].originator.equals(originator) {
            return Some(i);
        }
        i = i + 1;
    }
    None
}

impl Rib {
    /// Judges the rules of some rows by the unicast routes that are there now.
    fn refresh_validity(&self, rows: &mut Vec<FlowSpecQueryRow>, family_v4: bool)
        requires
            self.wf(),
        ensures
            same_rows(old(rows)@, final(rows)@),
            judged(self.unicast@, self.ingress_register@, family_v4, final(rows)@, final(rows)@.len() as int),
    {
        let mut known: Vec<Judgment> = Vec::new();
        let mut i: usize = 0;
        while i < rows.len()
            invariant
                i <= rows@.len(),
                self.wf(),
                same_rows(old(rows)@, rows@),
                judged(self.unicast@, self.ingress_register@, family_v4, rows@, i as int),
                forall|k: int|
                    0 <= k < known@.len() ==> (#[trigger] known@[k]).holds(
                        self.unicast@,
                        self.ingress_register@,
                        family_v4,
                    ),
            decreases rows@.len() - i,
        {
            let (originator, _) = flowspec_identity(&self.ingress_register, &rows[i].rule.pamap, rows[i].ingress_id);
            let dst = dst_prefix(&rows[i].rule.nlri, family_v4);
            let validity = match find_judgment(&known, &dst, &originator) {
                Some(k) => {
                    assert(known@[k as int].holds(self.unicast@, self.ingress_register@, family_v4));
                    known[k].validity
                },
                None => {
                    let v = validate_flowspec(
                        &self.unicast,
                        &self.ingress_register,
                        &rows[i].rule.nlri,
                        &originator,
                        family_v4,
                    );
                    known.push(Judgment { dst, originator, validity: v });
                    v
                },
            };
            let ghost was = rows@;
            rows[i].rule.validity = validity;
            assert(rows@ == was.update(i as int, rows@[i as int]));
            i = i + 1;
        }
    }

    /// The rules that a query is answered with, each with a verdict by the
    /// unicast routes that are there now; an error where they are more, or
    /// take more octets, than the limits allow.
    pub fn query_flowspec(
        &self,
        family_v4: bool,
        prefix: Option<Prefix>,
        include_less_specifics: bool,
        include_more_specifics: bool,
        ingress_id: Option<IngressId>,
        limits: Option<(usize, usize)>,
    ) -> (r: Result<Vec<FlowSpecQueryRow>, String>)
        requires
            self.wf(),
            prefix matches Some(p) ==> p.wf(),
        ensures
            ({
                let q = FlowSpecQuery {
                    family_v4,
                    prefix,
                    include_less_specifics,
                    include_more_specifics,
                    ingress_id,
                };
                match r {
                    Ok(rows) => {
                        &&& answered(self.flowspec@, q, limits, rows@)
                        &&& judged(self.unicast@, self.ingress_register@, family_v4, rows@, rows@.len() as int)
                    },
                    Err(e) => {
                        &&& exceeded(self.flowspec@, q, limits)
                        &&& limits matches Some((max_rows, max_raw_bytes)) && e@ == limit_text(
                            max_rows as nat,
                            max_raw_bytes as nat,
                        )
                    },
                }
            }),
    {
        let q = FlowSpecQuery { family_v4, prefix, include_less_specifics, include_more_specifics, ingress_id };
        let found = match &prefix {
            None => collect_family(&self.flowspec, &q, limits),
            Some(p) => collect_prefix(&self.flowspec, &q, p, limits),
        };
        match found {
            Some(mut rows) => {
                let ghost before = rows@;
                self.refresh_validity(&mut rows, family_v4);
                proof {
                    lemma_same_answer(self.flowspec@, q, limits, before, rows@);
                }
                Ok(rows)
            },
            None => Err(limit_error(limits)),
        }
    }
}

/// The octets of rows but for one.
proof fn lemma_bytes_without(rows: Seq<FlowSpecQueryRow>, j: int)
    requires
        0 <= j < rows.len(),
    ensures
        total_bytes(rows) == total_bytes(rows.remove(j)) + rows[j].bytes(),
    decreases rows.len(),
{
    if j == rows.len() - 1 {
        assert(rows.remove(j) =~= rows.drop_last());
    } else {
        lemma_bytes_without(rows.drop_last(), j);
        assert(rows.remove(j).drop_last() =~= rows.drop_last().remove(j));
    }
}

/// Whether each of some rows has its like among others.
spec fn matched(some: Seq<FlowSpecQueryRow>, all: Seq<FlowSpecQueryRow>) -> bool {
    forall|i: int| 0 <= i < some.len() ==> has_like(#[trigger] some[i], all)
}

spec fn has_like(row: FlowSpecQueryRow, all: Seq<FlowSpecQueryRow>) -> bool {
    exists|j: int|
        0 <= j < all.len() && (#[trigger] all[j]).is_for(row.key_prefix@, row.ingress_id, row.rule.nlri@)
            && all[j].bytes() == row.bytes()
}

proof fn lemma_bytes_positive(rows: Seq<FlowSpecQueryRow>)
    ensures
        total_bytes(rows) >= 0,
    decreases rows.len(),
{
    if rows.len() > 0 {
        lemma_bytes_positive(rows.drop_last());
    }
}

proof fn lemma_fewer(some: Seq<FlowSpecQueryRow>, all: Seq<FlowSpecQueryRow>)
    requires
        matched(some, all),
        forall|i: int, j: int|
            0 <= i < j < some.len() ==> !(#[trigger] some[i]).is_for(
                (#[trigger] some[j]).key_prefix@,
                some[j].ingress_id,
                some[j].rule.nlri@,
            ),
    ensures
        some.len() <= all.len(),
        total_bytes(some) <= total_bytes(all),
    decreases some.len(),
{
    if some.len() == 0 {
        lemma_bytes_positive(all);
    } else {
        let row = some.last();
        assert(has_like(some[some.len() - 1], all));
        let j = choose|j: int|
            0 <= j < all.len() && (#[trigger] all[j]).is_for(row.key_prefix@, row.ingress_id, row.rule.nlri@)
                && all[j].bytes() == row.bytes();
        let rest = all.remove(j);
        assert forall|i: int| 0 <= i < some.drop_last().len() implies has_like(#[trigger] some.drop_last()[i], rest) by {
            let r = some[i];
            assert(has_like(r, all));
            let k = choose|k: int|
                0 <= k < all.len() && (#[trigger] all[k]).is_for(r.key_prefix@, r.ingress_id, r.rule.nlri@)
                    && all[k].bytes() == r.bytes();
            assert(!some[i].is_for(row.key_prefix@, row.ingress_id, row.rule.nlri@)) by {
                assert(some[some.len() - 1] == row);
            }
            assert(k != j);
            if k < j {
                assert(rest[k] == all[k]);
            } else {
                assert(rest[k - 1] == all[k]);
            }
        }
        lemma_fewer(some.drop_last(), rest);
        lemma_bytes_without(all, j);
    }
}

/// A query either has an answer within the limits or exceeds them.
pub proof fn an_answer_excludes_an_excess(rib: Rib, q: FlowSpecQuery, limits: Option<(usize, usize)>, rows: Seq<FlowSpecQueryRow>)
    requires
        rib.wf(),
        answered(rib.flowspec@, q, limits, rows),
    ensures
        !exceeded(rib.flowspec@, q, limits),
{
    let s = rib.flowspec@;
    if exceeded(s, q, limits) {
        let more = choose|more: Seq<FlowSpecQueryRow>| #[trigger] rows_selected(s, q, more) && !within(limits, more);
        assert forall|i: int| 0 <= i < more.len() implies has_like(#[trigger] more[i], rows) by {
            let row = more[i];
            let p = row.key_prefix@;
            let m = row.ingress_id;
            assert(row_selected(s, q, row));
            let rec = selected(s, q, p, m)->Some_0;
            let k = choose|k: int|
                0 <= k < rec.meta.len() && (#[trigger] rec.meta[k]).nlri == row.rule.nlri@ && rec.meta[k].pamap
                    == row.rule.pamap@;
            assert(rec.meta == s.records[(p, m)].meta);
            assert(rows_have(s, q, rows, p));
            assert(s.records[(p, m)].meta[k].nlri == row.rule.nlri@);
            assert(has_row(rows, p, m, row.rule.nlri@));
            let x = choose|x: int| 0 <= x < rows.len() && (#[trigger] rows[x]).is_for(p, m, row.rule.nlri@);
            assert(row_selected(s, q, rows[x]));
            let l = choose|l: int|
                0 <= l < rec.meta.len() && (#[trigger] rec.meta[l]).nlri == rows[x].rule.nlri@ && rec.meta[l].pamap
                    == rows[x].rule.pamap@;
            assert(rules_distinct(s.records[(p, m)].meta));
            assert(l == k);
        }
        lemma_fewer(more, rows);
    }
}

} // verus!
