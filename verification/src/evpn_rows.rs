//! Queries for EVPN routes.
use vstd::prelude::*;

use crate::attrs::holds_u32;
use crate::evpn::{
    evpn_body, evpn_key, evpn_labels, evpn_next_hop, evpn_prefix, evpn_valid, mac_of, opt_addr, rd_text, targets_of,
    texts_are, EvpnAttributes, EvpnRecord,
};
use crate::filter::{known_info, reversed, source_of, RouteSource};
use crate::pamap::{attr_blob, attr_list};
use crate::rib::Rib;
use crate::text::{opt_text, str_equal};
use crate::types::{IngressId, Prefix};

verus! {

/// What a query for EVPN routes asks for. What is `None` lets all pass.
#[derive(Debug)]
pub struct EvpnFilter {
    pub rd: Option<String>,
    pub route_target: Option<String>,
    pub route_type: Option<u8>,
    pub vni: Option<u32>,
    pub prefix: Option<Prefix>,
    pub ingress_id: Option<IngressId>,
    pub include_withdrawn: bool,
}

impl Default for EvpnFilter {
    fn default() -> (r: Self)
        ensures
            r.rd is None,
            r.route_target is None,
            r.route_type is None,
            r.vni is None,
            r.prefix is None,
            r.ingress_id is None,
            !r.include_withdrawn,
    {
        EvpnFilter {
            rd: None,
            route_target: None,
            route_type: None,
            vni: None,
            prefix: None,
            ingress_id: None,
            include_withdrawn: false,
        }
    }
}

/// The identity of an EVPN route.
pub type RouteKey = (Seq<u8>, IngressId);

/// Whether octets come before others, as words do in a dictionary.
pub open spec fn octets_before(a: Seq<u8>, b: Seq<u8>) -> bool
    decreases b.len(),
{
    if b.len() == 0 {
        false
    } else if a.len() == 0 {
        true
    } else {
        a[0] < b[0] || (a[0] == b[0] && octets_before(a.skip(1), b.skip(1)))
    }
}

/// Whether a route comes before another: by its key, then by its ingress.
pub open spec fn comes_before(a: RouteKey, b: RouteKey) -> bool {
    octets_before(a.0, b.0) || (a.0 == b.0 && a.1 < b.1)
}

proof fn lemma_octets_trans(a: Seq<u8>, b: Seq<u8>, c: Seq<u8>)
    requires
        octets_before(a, b),
        octets_before(b, c),
    ensures
        octets_before(a, c),
    decreases c.len(),
{
    if a.len() > 0 && a[0] == b[0] && b[0] == c[0] {
        lemma_octets_trans(a.skip(1), b.skip(1), c.skip(1));
    }
}

proof fn lemma_octets_total(a: Seq<u8>, b: Seq<u8>)
    ensures
        octets_before(a, b) || a == b || octets_before(b, a),
    decreases b.len(),
{
    if a.len() == 0 && b.len() == 0 {
        assert(a =~= b);
    } else if a.len() > 0 && b.len() > 0 && a[0] == b[0] {
        lemma_octets_total(a.skip(1), b.skip(1));
        if a.skip(1) == b.skip(1) {
            assert(a =~= seq![a[0]] + a.skip(1));
            assert(b =~= seq![b[0]] + b.skip(1));
        }
    }
}

proof fn lemma_before_trans(a: RouteKey, b: RouteKey, c: RouteKey)
    requires
        comes_before(a, b),
        comes_before(b, c),
    ensures
        comes_before(a, c),
{
    if octets_before(a.0, b.0) && octets_before(b.0, c.0) {
        lemma_octets_trans(a.0, b.0, c.0);
    }
}

pub open spec fn route_key(r: EvpnRecord) -> RouteKey {
    (r.nlri.key@, r.ingress_id)
}

/// Whether octets come before others.
fn check_before(a: &[u8], b: &[u8]) -> (r: bool)
    ensures
        r == octets_before(a@, b@),
{
    let mut i: usize = 0;
    assert(a@.skip(0) =~= a@);
    assert(b@.skip(0) =~= b@);
    while i < a.len() && i < b.len()
        invariant
            i <= a@.len(),
            i <= b@.len(),
            octets_before(a@, b@) == octets_before(a@.skip(i as int), b@.skip(i as int)),
        decreases a@.len() - i,
    {
        if a[i] != b[i] {
            return a[i] < b[i];
        }
        assert(a@.skip(i as int).skip(1) =~= a@.skip(i + 1));
        assert(b@.skip(i as int).skip(1) =~= b@.skip(i + 1));
        i = i + 1;
    }
    i < b.len()
}

/// Whether records are in order.
pub open spec fn in_route_order(v: Seq<EvpnRecord>) -> bool {
    forall|i: int, j: int|
        0 <= i < j < v.len() ==> comes_before(route_key(#[trigger] v[i]), route_key(#[trigger] v[j]))
}

/// Whether no route occurs twice.
pub open spec fn routes_distinct(v: Seq<EvpnRecord>) -> bool {
    forall|i: int, j: int| 0 <= i < j < v.len() ==> route_key(#[trigger] v[i]) != route_key(#[trigger] v[j])
}

/// Merges two lists of records that are in order.
fn merge_records(a: Vec<EvpnRecord>, b: Vec<EvpnRecord>) -> (r: Vec<EvpnRecord>)
    requires
        in_route_order(a@),
        in_route_order(b@),
        routes_distinct(a@ + b@),
    ensures
        in_route_order(r@),
        r@.to_multiset() == (a@ + b@).to_multiset(),
{
    let ghost x = a@;
    let ghost y = b@;
    let mut p = reversed(a);
    let mut q = reversed(b);
    let mut out: Vec<EvpnRecord> = Vec::new();
    let ghost mut i: int = 0;
    let ghost mut j: int = 0;
    proof {
        assert(out@ + x.skip(0) + y.skip(0) =~= x + y);
    }
    while p.len() > 0 || q.len() > 0
        invariant
            in_route_order(x),
            in_route_order(y),
            routes_distinct(x + y),
            0 <= i <= x.len(),
            0 <= j <= y.len(),
            p@ == x.skip(i).reverse(),
            q@ == y.skip(j).reverse(),
            (out@ + x.skip(i) + y.skip(j)).to_multiset() == (x + y).to_multiset(),
            in_route_order(out@),
            forall|k: int, l: int|
                0 <= k < out@.len() && i <= l < x.len() ==> comes_before(
                    route_key(#[trigger] out@[k]),
                    route_key(#[trigger] x[l]),
                ),
            forall|k: int, l: int|
                0 <= k < out@.len() && j <= l < y.len() ==> comes_before(
                    route_key(#[trigger] out@[k]),
                    route_key(#[trigger] y[l]),
                ),
        decreases p@.len() + q@.len(),
    {
        let from_p = if p.len() == 0 {
            false
        } else if q.len() == 0 {
            true
        } else {
            let c = &p[p.len() - 1];
            let d = &q[q.len() - 1];
            proof {
                assert(*c == x[i] && *d == y[j]);
                assert((x + y)[i] == x[i] && (x + y)[x.len() + j] == y[j]);
                lemma_octets_total(c.nlri.key@, d.nlri.key@);
            }
            if check_before(&c.nlri.key, &d.nlri.key) {
                true
            } else if check_before(&d.nlri.key, &c.nlri.key) {
                false
            } else {
                c.ingress_id < d.ingress_id
            }
        };
        let ghost before = out@;
        if from_p {
            match p.pop() {
                Some(rec) => {
                    proof {
                        assert(rec == x[i]);
                        lemma_pushed(before, rec, x, i, y, j);
                        assert(p@ =~= x.skip(i + 1).reverse());
                        assert(before.push(rec) + x.skip(i + 1) + y.skip(j) =~= before + x.skip(i) + y.skip(j));
                        i = i + 1;
                    }
                    out.push(rec);
                },
                None => {},
            }
        } else {
            match q.pop() {
                Some(rec) => {
                    proof {
                        assert(rec == y[j]);
                        if i < x.len() {
                            assert((x + y)[i] == x[i] && (x + y)[x.len() + j] == y[j]);
                            assert(comes_before(route_key(y[j]), route_key(x[i])));
                        }
                        lemma_pushed(before, rec, y, j, x, i);
                        assert(q@ =~= y.skip(j + 1).reverse());
                        lemma_moved(before, rec, x.skip(i), y.skip(j + 1));
                        assert(y.skip(j) =~= seq![rec] + y.skip(j + 1));
                        j = j + 1;
                    }
                    out.push(rec);
                },
                None => {},
            }
        }
    }
    proof {
        assert(out@ + x.skip(i) + y.skip(j) =~= out@);
    }
    out
}

/// A record that comes before all that are left can be added.
proof fn lemma_pushed(
    out: Seq<EvpnRecord>,
    rec: EvpnRecord,
    x: Seq<EvpnRecord>,
    i: int,
    y: Seq<EvpnRecord>,
    j: int,
)
    requires
        in_route_order(x),
        in_route_order(y),
        in_route_order(out),
        0 <= i < x.len(),
        0 <= j <= y.len(),
        rec == x[i],
        j < y.len() ==> comes_before(route_key(x[i]), route_key(y[j])),
        forall|k: int, l: int|
            0 <= k < out.len() && i <= l < x.len() ==> comes_before(
                route_key(#[trigger] out[k]),
                route_key(#[trigger] x[l]),
            ),
        forall|k: int, l: int|
            0 <= k < out.len() && j <= l < y.len() ==> comes_before(
                route_key(#[trigger] out[k]),
                route_key(#[trigger] y[l]),
            ),
    ensures
        in_route_order(out.push(rec)),
        forall|k: int, l: int|
            0 <= k < out.push(rec).len() && i + 1 <= l < x.len() ==> comes_before(
                route_key(#[trigger] out.push(rec)[k]),
                route_key(#[trigger] x[l]),
            ),
        forall|k: int, l: int|
            0 <= k < out.push(rec).len() && j <= l < y.len() ==> comes_before(
                route_key(#[trigger] out.push(rec)[k]),
                route_key(#[trigger] y[l]),
            ),
{
    assert forall|k: int, l: int| 0 <= k < out.push(rec).len() && j <= l < y.len() implies comes_before(
        route_key(#[trigger] out.push(rec)[k]),
        route_key(#[trigger] y[l]),
    ) by {
        if k == out.len() && l > j {
            assert(comes_before(route_key(y[j]), route_key(y[l])));
            lemma_before_trans(route_key(x[i]), route_key(y[j]), route_key(y[l]));
        }
    }
}

/// The order of parts does not change what they hold.
proof fn lemma_moved(out: Seq<EvpnRecord>, rec: EvpnRecord, a: Seq<EvpnRecord>, b: Seq<EvpnRecord>)
    ensures
        (out.push(rec) + a + b).to_multiset() == (out + a + (seq![rec] + b)).to_multiset(),
{
    broadcast use vstd::seq_lib::group_to_multiset_ensures;

    let one = seq![rec];
    assert(out.push(rec) + a + b =~= (out + (one + a)) + b);
    assert(out + a + (one + b) =~= (out + (a + one)) + b);
    vstd::seq_lib::lemma_multiset_commutative(one, a);
    vstd::seq_lib::lemma_multiset_commutative(a, one);
    vstd::seq_lib::lemma_multiset_commutative(out, one + a);
    vstd::seq_lib::lemma_multiset_commutative(out, a + one);
    vstd::seq_lib::lemma_multiset_commutative(out + (one + a), b);
    vstd::seq_lib::lemma_multiset_commutative(out + (a + one), b);
    assert((out.push(rec) + a + b).to_multiset() =~= (out + a + (one + b)).to_multiset());
}

/// What holds the same records has the same routes, each as often.
proof fn lemma_same_distinct(a: Seq<EvpnRecord>, b: Seq<EvpnRecord>)
    requires
        routes_distinct(a),
        a.to_multiset() == b.to_multiset(),
    ensures
        routes_distinct(b),
    decreases a.len(),
{
    broadcast use vstd::seq_lib::group_to_multiset_ensures;

    assert forall|i: int, j: int| 0 <= i < j < b.len() implies route_key(#[trigger] b[i]) != route_key(
        #[trigger] b[j],
    ) by {
        if route_key(b[i]) == route_key(b[j]) {
            assert(a.contains(b[i])) by {
                assert(b.to_multiset().count(b[i]) > 0);
            }
            assert(a.contains(b[j])) by {
                assert(b.to_multiset().count(b[j]) > 0);
            }
            let k = choose|k: int| 0 <= k < a.len() && a[k] == b[i];
            let l = choose|l: int| 0 <= l < a.len() && a[l] == b[j];
            if k < l {
                assert(route_key(a[k]) != route_key(a[l]));
            } else if l < k {
                assert(route_key(a[l]) != route_key(a[k]));
            } else {
                lemma_twice(b, i, j);
                lemma_once(a, k);
            }
        }
    }
}

/// A record that stands at two places is counted twice.
proof fn lemma_twice(v: Seq<EvpnRecord>, i: int, j: int)
    requires
        0 <= i < j < v.len(),
        v[i] == v[j],
    ensures
        v.to_multiset().count(v[i]) >= 2,
{
    broadcast use vstd::seq_lib::group_to_multiset_ensures;

    let a = v.take(j);
    let b = v.skip(j);
    assert(v =~= a + b);
    vstd::seq_lib::lemma_multiset_commutative(a, b);
    assert(a[i] == v[i]);
    assert(b[0] == v[j]);
    assert(a.contains(v[i]) && b.contains(v[i]));
    assert(a.to_multiset().count(v[i]) > 0);
    assert(b.to_multiset().count(v[i]) > 0);
}

/// Where no route occurs twice, no record is counted twice.
proof fn lemma_once(v: Seq<EvpnRecord>, i: int)
    requires
        routes_distinct(v),
        0 <= i < v.len(),
    ensures
        v.to_multiset().count(v[i]) <= 1,
{
    broadcast use vstd::seq_lib::group_to_multiset_ensures;

    let a = v.take(i);
    let b = v.skip(i + 1);
    assert(v =~= a + (seq![v[i]] + b));
    vstd::seq_lib::lemma_multiset_commutative(a, seq![v[i]] + b);
    vstd::seq_lib::lemma_multiset_commutative(seq![v[i]], b);
    assert(!a.contains(v[i])) by {
        if a.contains(v[i]) {
            let k = choose|k: int| 0 <= k < a.len() && a[k] == v[i];
            assert(route_key(v[k]) != route_key(v[i]));
        }
    }
    assert(!b.contains(v[i])) by {
        if b.contains(v[i]) {
            let k = choose|k: int| 0 <= k < b.len() && b[k] == v[i];
            assert(route_key(v[i]) != route_key(v[i + 1 + k]));
        }
    }
    assert(a.to_multiset().count(v[i]) == 0);
    assert(b.to_multiset().count(v[i]) == 0);
    assert(seq![v[i]].to_multiset().count(v[i]) == 1) by {
        assert(seq![v[i]] =~= Seq::<EvpnRecord>::empty().push(v[i]));
    }
}

/// Puts records in order.
fn sort_records(v: Vec<EvpnRecord>) -> (r: Vec<EvpnRecord>)
    requires
        routes_distinct(v@),
    ensures
        in_route_order(r@),
        r@.to_multiset() == v@.to_multiset(),
    decreases v@.len(),
{
    let n: usize = v.len();
    if n < 2 {
        return v;
    }
    let ghost all = v@;
    let mut first = v;
    let second = first.split_off(n / 2);
    let ghost a = first@;
    let ghost b = second@;
    proof {
        assert(a + b =~= all);
        assert forall|i: int, j: int| 0 <= i < j < a.len() implies route_key(#[trigger] a[i]) != route_key(
            #[trigger] a[j],
        ) by {
            assert(a[i] == all[i] && a[j] == all[j]);
        }
        assert forall|i: int, j: int| 0 <= i < j < b.len() implies route_key(#[trigger] b[i]) != route_key(
            #[trigger] b[j],
        ) by {
            assert(b[i] == all[a.len() + i] && b[j] == all[a.len() + j]);
        }
    }
    let x = sort_records(first);
    let y = sort_records(second);
    proof {
        vstd::seq_lib::lemma_multiset_commutative(a, b);
        vstd::seq_lib::lemma_multiset_commutative(x@, y@);
        lemma_same_distinct(all, x@ + y@);
    }
    merge_records(x, y)
}

/// Whether a query lets a route pass.
pub open spec fn evpn_passes(f: EvpnFilter, r: EvpnRecord) -> bool {
    &&& r.active || f.include_withdrawn
    &&& f.rd matches Some(t) ==> t@ == r.nlri.rd@
    &&& f.route_type matches Some(t) ==> t == r.nlri.route_type
    &&& f.vni matches Some(v) ==> r.nlri.labels@.contains(v)
    &&& f.prefix matches Some(p) ==> (r.nlri.prefix matches Some(q) && q@ == p@)
    &&& f.ingress_id matches Some(id) ==> id == r.ingress_id
    &&& f.route_target matches Some(t) ==> targets_of(attr_list(attr_blob(r.attributes@))).contains(t@)
}

/// Whether it is what an overlay makes of some attributes.
pub open spec fn is_overlay(o: EvpnAttributes, attributes: Seq<u8>) -> bool {
    &&& texts_are(o.route_targets@, targets_of(attr_list(attr_blob(attributes))))
    &&& opt_text(o.router_mac) == mac_of(attr_list(attr_blob(attributes)))
    &&& opt_addr(o.next_hop) == evpn_next_hop(attr_list(attr_blob(attributes)))
}

/// Whether a list of texts has one.
fn has_text(list: &Vec<String>, t: &String, Ghost(texts): Ghost<Seq<Seq<char>>>) -> (r: bool)
    requires
        texts_are(list@, texts),
    ensures
        r == texts.contains(t@),
{
    let mut i: usize = 0;
    while i < list.len()
        invariant
            i <= list@.len(),
            texts_are(list@, texts),
            forall|j: int| 0 <= j < i ==> texts[j] != t@,
        decreases list@.len() - i,
    {
        if str_equal(list[i].as_str(), t.as_str()) {
            assert(texts[i as int] == t@);
            return true;
        }
        assert(texts[i as int] != t@);
        i = i + 1;
    }
    false
}

/// Whether a query lets a route pass.
fn check_evpn(f: &EvpnFilter, r: &EvpnRecord, overlay: &EvpnAttributes) -> (b: bool)
    requires
        is_overlay(*overlay, r.attributes@),
    ensures
        b == evpn_passes(*f, *r),
{
    if !r.active && !f.include_withdrawn {
        return false;
    }
    let rd = match &f.rd {
        Some(t) => str_equal(t.as_str(), r.nlri.rd.as_str()),
        None => true,
    };
    let route_type = match f.route_type {
        Some(t) => t == r.nlri.route_type,
        None => true,
    };
    let vni = match f.vni {
        Some(v) => holds_u32(&r.nlri.labels, v),
        None => true,
    };
    let prefix = match &f.prefix {
        Some(p) => match &r.nlri.prefix {
            Some(q) => q.equals(p),
            None => false,
        },
        None => true,
    };
    let ingress = match f.ingress_id {
        Some(id) => id == r.ingress_id,
        None => true,
    };
    let target = match &f.route_target {
        Some(t) => has_text(
            &overlay.route_targets,
            t,
            Ghost(targets_of(attr_list(attr_blob(r.attributes@)))),
        ),
        None => true,
    };
    rd && route_type && vni && prefix && ingress && target
}

/// A route, with what an overlay makes of it, and where it came from.
#[derive(Debug)]
pub struct EvpnRow {
    pub route: EvpnRecord,
    pub overlay: EvpnAttributes,
    pub source_ingress_id: IngressId,
    pub path_id: Option<u32>,
}

impl Rib {
    /// Whether a row tells of a route that a query lets pass.
    pub open spec fn is_evpn_row(self, f: EvpnFilter, row: EvpnRow) -> bool {
        let key = route_key(row.route);
        let source = source_of(key.1, known_info(self.ingress_register@, key.1));
        &&& self.evpn@.contains_key(key)
        &&& row.route.same(self.evpn@[key])
        &&& row.route.nlri.wf()
        &&& evpn_passes(f, self.evpn@[key])
        &&& is_overlay(row.overlay, row.route.attributes@)
        &&& row.source_ingress_id == source.ingress_id
        &&& row.path_id == source.path_id
    }

    /// The EVPN routes that a query lets pass, by their keys and ingresses.
    pub fn evpn_rows(&self, filter: &EvpnFilter) -> (r: Vec<EvpnRow>)
        requires
            self.wf(),
        ensures
            forall|i: int| 0 <= i < r@.len() ==> self.is_evpn_row(*filter, #[trigger] r@[i]),
            forall|i: int, j: int|
                0 <= i < j < r@.len() ==> comes_before(
                    route_key((#[trigger] r@[i]).route),
                    route_key((#[trigger] r@[j]).route),
                ),
            forall|k: RouteKey|
                #![trigger self.evpn@.contains_key(k)]
                self.evpn@.contains_key(k) && evpn_passes(*filter, self.evpn@[k]) ==> has_evpn_row(r@, k),
            forall|i: int| 0 <= i < r@.len() ==> is_asked_for(*filter, #[trigger] r@[i]),
            filter.rd is None && filter.route_target is None && filter.route_type is None && filter.vni is None
                && filter.prefix is None && filter.ingress_id is None && filter.include_withdrawn ==> forall|k: RouteKey|
                #[trigger] self.evpn@.contains_key(k) ==> has_evpn_row(r@, k),
    {
        let found = self.evpn_records();
        let ghost listed = found@;
        let records = sort_records(found);
        let ghost all = records@;
        proof {
            broadcast use vstd::seq_lib::group_to_multiset_ensures;

            assert forall|i: int| 0 <= i < all.len() implies self.evpn@.contains_key(route_key(#[trigger] all[i]))
                && all[i].same(self.evpn@[route_key(all[i])]) by {
                assert(all.to_multiset().count(all[i]) > 0);
                assert(listed.contains(all[i]));
                let k = choose|k: int| 0 <= k < listed.len() && listed[k] == all[i];
                assert(self.evpn@.contains_key((listed[k].nlri.key@, listed[k].ingress_id)));
            }
            assert forall|k: RouteKey| #[trigger] self.evpn@.contains_key(k) implies exists|i: int|
                0 <= i < all.len() && route_key(#[trigger] all[i]) == k by {
                let j = choose|j: int|
                    0 <= j < listed.len() && ((#[trigger] listed[j]).nlri.key@, listed[j].ingress_id) == k;
                assert(listed.to_multiset().count(listed[j]) > 0);
                assert(all.contains(listed[j]));
                let i = choose|i: int| 0 <= i < all.len() && all[i] == listed[j];
                assert(route_key(all[i]) == k);
            }
        }
        let mut out: Vec<EvpnRow> = Vec::new();
        let ghost mut from: Seq<int> = Seq::empty();
        for route in it: records
            invariant
                it.seq() == all,
                self.wf(),
                in_route_order(all),
                forall|i: int|
                    0 <= i < all.len() ==> self.evpn@.contains_key(route_key(#[trigger] all[i])) && all[i].same(
                        self.evpn@[route_key(all[i])],
                    ),
                from.len() == out@.len(),
                forall|j: int|
                    0 <= j < out@.len() ==> 0 <= #[trigger] from[j] < it.index() && all[from[j]] == out@[j].route,
                forall|j: int, l: int| 0 <= j < l < out@.len() ==> #[trigger] from[j] < #[trigger] from[l],
                forall|j: int| 0 <= j < out@.len() ==> self.is_evpn_row(*filter, #[trigger] out@[j]),
                forall|i: int|
                    0 <= i < it.index() && evpn_passes(*filter, #[trigger] all[i]) ==> has_evpn_row(
                        out@,
                        route_key(all[i]),
                    ),
        {
            let ghost n = it.index() as int;
            let ghost before = out@;
            assert(route == all[n]);
            let ghost key = route_key(route);
            let overlay = EvpnAttributes::decode(&route.attributes);
            let passes = check_evpn(filter, &route, &overlay);
            assert(evpn_passes(*filter, route) == evpn_passes(*filter, self.evpn@[key]));
            if passes {
                let source = RouteSource::resolve(route.ingress_id, self.ingress_register.get(route.ingress_id));
                let row = EvpnRow { route, overlay, source_ingress_id: source.ingress_id, path_id: source.path_id };
                assert(self.is_evpn_row(*filter, row));
                out.push(row);
                proof {
                    from = from.push(n);
                    assert(out@[before.len() as int].route == all[n]);
                }
            }
            proof {
                assert forall|i: int| 0 <= i < n + 1 && evpn_passes(*filter, #[trigger] all[i]) implies has_evpn_row(
                    out@,
                    route_key(all[i]),
                ) by {
                    if i < n {
                        assert(has_evpn_row(before, route_key(all[i])));
                        let j = choose|j: int|
                            0 <= j < before.len() && route_key((#[trigger] before[j]).route) == route_key(all[i]);
                        assert(out@[j] == before[j]);
                    } else {
                        assert(route_key(out@[before.len() as int].route) == route_key(all[i]));
                    }
                }
            }
        }
        proof {
            assert forall|i: int| 0 <= i < out@.len() implies is_asked_for(*filter, #[trigger] out@[i]) by {
                a_row_follows_from_the_octets(*self, *filter, out@[i]);
            }
            assert forall|i: int, j: int| 0 <= i < j < out@.len() implies comes_before(
                route_key((#[trigger] out@[i]).route),
                route_key((#[trigger] out@[j]).route),
            ) by {
                assert(from[i] < from[j]);
                assert(comes_before(route_key(all[from[i]]), route_key(all[from[j]])));
            }
            assert forall|k: RouteKey|
                #![trigger self.evpn@.contains_key(k)]
                self.evpn@.contains_key(k) && evpn_passes(*filter, self.evpn@[k]) implies has_evpn_row(out@, k) by {
                let i = choose|i: int| 0 <= i < all.len() && route_key(#[trigger] all[i]) == k;
                assert(all[i].same(self.evpn@[k]));
                assert(evpn_passes(*filter, all[i]));
            }
        }
        out
    }
}

/// Whether a row has all that a query names: the text of the route
/// distinguisher, one of the route targets, the type, one of the labels, the
/// prefix and the ingress; and is in use, unless the query asks for withdrawn
/// routes too.
pub open spec fn is_asked_for(f: EvpnFilter, row: EvpnRow) -> bool {
    &&& row.route.active || f.include_withdrawn
    &&& f.rd matches Some(t) ==> row.route.nlri.rd@ == t@
    &&& f.route_target matches Some(t) ==> exists|i: int|
        0 <= i < row.overlay.route_targets@.len() && (#[trigger] row.overlay.route_targets@[i])@ == t@
    &&& f.route_type matches Some(t) ==> row.route.nlri.route_type == t
    &&& f.vni matches Some(v) ==> exists|i: int|
        0 <= i < row.route.nlri.labels@.len() && #[trigger] row.route.nlri.labels@[i] == v
    &&& f.prefix matches Some(p) ==> (row.route.nlri.prefix matches Some(q) && q@ == p@)
    &&& f.ingress_id matches Some(id) ==> row.route.ingress_id == id
}

/// A row tells what the octets of its route hold, and a query goes by them:
/// by their route distinguisher, type, labels and prefix.
pub proof fn a_row_follows_from_the_octets(rib: Rib, f: EvpnFilter, row: EvpnRow)
    requires
        rib.is_evpn_row(f, row),
    ensures
        ({
            let raw = row.route.nlri.raw@;
            &&& evpn_valid(raw)
            &&& row.route.nlri.describes(raw)
            &&& row.route.nlri.key@ == evpn_key(raw)
            &&& f.rd matches Some(t) ==> t@ == rd_text(evpn_body(raw).take(8))
            &&& f.route_type matches Some(t) ==> t == raw[0]
            &&& f.vni matches Some(v) ==> evpn_labels(raw).contains(v)
            &&& f.prefix matches Some(p) ==> evpn_prefix(raw) == Some(p@)
        }),
        f.route_target matches Some(t) ==> exists|i: int|
            0 <= i < row.overlay.route_targets@.len() && (#[trigger] row.overlay.route_targets@[i])@ == t@,
        f.ingress_id matches Some(id) ==> row.route.ingress_id == id,
        row.route.active || f.include_withdrawn,
        is_asked_for(f, row),
{
    let texts = targets_of(attr_list(attr_blob(row.route.attributes@)));
    match f.route_target {
        Some(t) => {
            let i = choose|i: int| 0 <= i < texts.len() && texts[i] == t@;
            assert(row.overlay.route_targets@[i]@ == t@);
        },
        None => {},
    }
    match f.vni {
        Some(v) => {
            let labels = row.route.nlri.labels@;
            let i = choose|i: int| 0 <= i < labels.len() && labels[i] == v;
            assert(labels[i] == v);
        },
        None => {},
    }
}

/// Whether rows have one for a route.
pub open spec fn has_evpn_row(rows: Seq<EvpnRow>, k: RouteKey) -> bool {
    exists|i: int| 0 <= i < rows.len() && route_key((#[trigger] rows[i]).route) == k
}

} // verus!
