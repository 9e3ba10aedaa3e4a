//! FlowSpec rules as they are stored: sets of rules under a destination
//! prefix, and what the validation of a rule needs of path attributes.
use vstd::prelude::*;

use crate::pamap::{attr_at, attr_blob, attr_extent, attr_list, RotondaPaMap};
use crate::store::Stored;
use crate::types::{host_is_zero, padded, padded_address, prefix_octets, IngressId, Prefix, PrefixKey};
use crate::wire::{bytes_equal, copy_range, get16, get32, read_be16, read_be32};

verus! {

/// The outcome of the validation of a rule against the unicast routes.
#[derive(Clone, Copy, Debug, PartialEq, Eq, Structural)]
pub enum FlowSpecValidity {
    Valid,
    Invalid,
    /// The rule has no usable destination prefix.
    Unvalidatable,
    NotValidated,
}

/// One rule: its components on the wire, its path attributes, and whether it
/// was valid when it came in.
#[derive(Debug)]
pub struct FlowSpecRule {
    pub nlri: Vec<u8>,
    pub pamap: RotondaPaMap,
    pub validity: FlowSpecValidity,
}

#[verifier::ext_equal]
pub struct RuleView {
    pub nlri: Seq<u8>,
    pub pamap: Seq<u8>,
    pub validity: FlowSpecValidity,
}

impl View for FlowSpecRule {
    type V = RuleView;

    open spec fn view(&self) -> RuleView {
        RuleView { nlri: self.nlri@, pamap: self.pamap@, validity: self.validity }
    }
}

impl Clone for FlowSpecRule {
    fn clone(&self) -> (r: Self)
        ensures
            r@ == self@,
    {
        let n: usize = self.nlri.len();
        let nlri = copy_range(&self.nlri, 0, n);
        assert(nlri@ =~= self.nlri@);
        FlowSpecRule { nlri, pamap: self.pamap.clone(), validity: self.validity }
    }
}

/// The rules of one ingress under one destination prefix.
#[derive(Debug)]
pub struct FlowSpecRuleSet {
    pub rules: Vec<FlowSpecRule>,
}

impl View for FlowSpecRuleSet {
    type V = Seq<RuleView>;

    open spec fn view(&self) -> Seq<RuleView> {
        self.rules@.map_values(|r: FlowSpecRule| r@)
    }
}

/// The octets of some rules and of their path attributes.
pub open spec fn rule_octets(s: Seq<RuleView>) -> nat
    decreases s.len(),
{
    if s.len() == 0 {
        0
    } else {
        rule_octets(s.drop_last()) + s.last().nlri.len() + s.last().pamap.len()
    }
}

/// Whether a set has a rule with these components.
pub open spec fn has_rule(s: Seq<RuleView>, nlri: Seq<u8>) -> bool {
    exists|i: int| 0 <= i < s.len() && (#[trigger] s[i]).nlri == nlri
}

/// Whether no two rules of a set have the same components.
pub open spec fn rules_distinct(s: Seq<RuleView>) -> bool {
    forall|i: int, j: int| 0 <= i < j < s.len() ==> (#[trigger] s[i]).nlri != (#[trigger] s[j]).nlri
}

/// A set with a rule put in the place of the one with the same components,
/// or at the end.
pub open spec fn put_rule(s: Seq<RuleView>, rule: RuleView) -> Seq<RuleView> {
    if has_rule(s, rule.nlri) {
        s.map_values(
            |r: RuleView|
                if r.nlri == rule.nlri {
                    rule
                } else {
                    r
                },
        )
    } else {
        s.push(rule)
    }
}

/// A set without the rules that have these components.
pub open spec fn take_rule(s: Seq<RuleView>, nlri: Seq<u8>) -> Seq<RuleView> {
    s.filter(|r: RuleView| r.nlri != nlri)
}

/// Putting a rule replaces the one with the same components and no other, and
/// keeps components distinct.
pub proof fn rule_identity_is_its_components(s: Seq<RuleView>, rule: RuleView)
    requires
        rules_distinct(s),
    ensures
        rules_distinct(put_rule(s, rule)),
        has_rule(put_rule(s, rule), rule.nlri),
        forall|n: Seq<u8>| n != rule.nlri ==> #[trigger] has_rule(put_rule(s, rule), n) == has_rule(s, n),
        put_rule(s, rule).len() == s.len() + (if has_rule(s, rule.nlri) {
            0int
        } else {
            1
        }),
        forall|i: int|
            0 <= i < s.len() && s[i].nlri != rule.nlri ==> #[trigger] put_rule(s, rule)[i] == s[i],
        put_rule(put_rule(s, rule), rule) == put_rule(s, rule),
{
    let t = put_rule(s, rule);
    if has_rule(s, rule.nlri) {
        let i = choose|i: int| 0 <= i < s.len() && (#[trigger] s[i]).nlri == rule.nlri;
        assert(t[i].nlri == rule.nlri);
    } else {
        assert(t[s.len() as int].nlri == rule.nlri);
    }
    assert forall|n: Seq<u8>| n != rule.nlri implies #[trigger] has_rule(t, n) == has_rule(s, n) by {
        if has_rule(s, n) {
            let i = choose|i: int| 0 <= i < s.len() && (#[trigger] s[i]).nlri == n;
            assert(t[i].nlri == n);
        }
        if has_rule(t, n) {
            let i = choose|i: int| 0 <= i < t.len() && (#[trigger] t[i]).nlri == n;
            assert(s[i].nlri == n);
        }
    }
    assert(put_rule(t, rule) =~= t);
}

/// Withdrawing the rule that was just announced leaves what there was
/// without it, and no rule with its components.
pub proof fn withdrawal_undoes_announcement(s: Seq<RuleView>, rule: RuleView)
    requires
        rules_distinct(s),
        !has_rule(s, rule.nlri),
    ensures
        take_rule(put_rule(s, rule), rule.nlri) == s,
{
    let p = |r: RuleView| r.nlri != rule.nlri;
    lemma_filter_all(s, p);
    assert(s.push(rule).drop_last() =~= s);
    reveal(Seq::filter);
}

proof fn lemma_filter_all(s: Seq<RuleView>, p: spec_fn(RuleView) -> bool)
    requires
        forall|i: int| 0 <= i < s.len() ==> p(#[trigger] s[i]),
    ensures
        s.filter(p) == s,
    decreases s.len(),
{
    reveal(Seq::filter);
    if s.len() > 0 {
        lemma_filter_all(s.drop_last(), p);
        assert(s.drop_last().push(s.last()) =~= s);
    }
}

/// Taking a rule out leaves the others.
pub proof fn lemma_take_rule(s: Seq<RuleView>, nlri: Seq<u8>)
    ensures
        !has_rule(take_rule(s, nlri), nlri),
        forall|n: Seq<u8>| n != nlri ==> #[trigger] has_rule(take_rule(s, nlri), n) == has_rule(s, n),
        rules_distinct(s) ==> rules_distinct(take_rule(s, nlri)),
        !has_rule(s, nlri) ==> take_rule(s, nlri) == s,
        rules_distinct(s) && has_rule(s, nlri) ==> take_rule(s, nlri).len() == s.len() - 1,
        take_rule(s, nlri).len() <= s.len(),
    decreases s.len(),
{
    reveal(Seq::filter);
    let t = take_rule(s, nlri);
    if s.len() > 0 {
        let front = s.drop_last();
        lemma_take_rule(front, nlri);
        let u = take_rule(front, nlri);
        assert(front.push(s.last()) =~= s);
        assert(t == (if s.last().nlri != nlri {
            u.push(s.last())
        } else {
            u
        }));
        assert forall|n: Seq<u8>| #[trigger] has_rule(s, n) == (has_rule(front, n) || s.last().nlri == n) by {
            if has_rule(front, n) {
                let i = choose|i: int| 0 <= i < front.len() && (#[trigger] front[i]).nlri == n;
                assert(s[i].nlri == n);
            }
            if s.last().nlri == n {
                assert(s[s.len() - 1].nlri == n);
            }
            if has_rule(s, n) && s.last().nlri != n {
                let i = choose|i: int| 0 <= i < s.len() && (#[trigger] s[i]).nlri == n;
                assert(front[i].nlri == n);
            }
        }
        assert forall|n: Seq<u8>| s.last().nlri != nlri implies #[trigger] has_rule(t, n) == (has_rule(u, n)
            || s.last().nlri == n) by {
            if has_rule(u, n) {
                let i = choose|i: int| 0 <= i < u.len() && (#[trigger] u[i]).nlri == n;
                assert(t[i].nlri == n);
            }
            if s.last().nlri == n {
                assert(t[u.len() as int].nlri == n);
            }
            if has_rule(t, n) && s.last().nlri != n {
                let i = choose|i: int| 0 <= i < t.len() && (#[trigger] t[i]).nlri == n;
                assert(u[i].nlri == n);
            }
        }
        if rules_distinct(s) {
            assert(rules_distinct(front));
            assert(!has_rule(front, s.last().nlri)) by {
                if has_rule(front, s.last().nlri) {
                    let i = choose|i: int| 0 <= i < front.len() && (#[trigger] front[i]).nlri == s.last().nlri;
                    assert(s[i].nlri == s[s.len() - 1].nlri);
                }
            }
            if s.last().nlri != nlri {
                assert(!has_rule(u, s.last().nlri));
                assert forall|i: int, j: int| 0 <= i < j < t.len() implies (#[trigger] t[i]).nlri != (
                #[trigger] t[j]).nlri by {
                    if j == u.len() {
                        assert(u[i].nlri == t[i].nlri);
                    }
                }
            }
        }
    }
}

impl FlowSpecRuleSet {
    /// A set without rules.
    pub fn new() -> (r: Self)
        ensures
            r@ == Seq::<RuleView>::empty(),
    {
        let r = FlowSpecRuleSet { rules: Vec::new() };
        assert(r@ =~= Seq::<RuleView>::empty());
        r
    }

    pub fn is_empty(&self) -> (r: bool)
        ensures
            r == (self@.len() == 0),
    {
        self.rules.len() == 0
    }

    /// The number of rules.
    pub fn rule_count(&self) -> (r: usize)
        ensures
            r == self@.len(),
    {
        self.rules.len()
    }

    /// The octets of all rules and of their path attributes, or the greatest
    /// number.
    pub fn byte_size(&self) -> (r: usize)
        ensures
            r == (if rule_octets(self@) <= usize::MAX {
                rule_octets(self@) as usize
            } else {
                usize::MAX
            }),
    {
        let mut n: usize = 0;
        let mut i: usize = 0;
        assert(self@.take(0) =~= Seq::empty());
        while i < self.rules.len()
            invariant
                i <= self.rules@.len(),
                n == (if rule_octets(self@.take(i as int)) <= usize::MAX {
                    rule_octets(self@.take(i as int)) as usize
                } else {
                    usize::MAX
                }),
            decreases self.rules@.len() - i,
        {
            assert(self@.take(i + 1).drop_last() =~= self@.take(i as int));
            assert(self@.take(i + 1).last() == self.rules@[i as int]@);
            n = n.saturating_add(self.rules[i].nlri.len());
            n = n.saturating_add(self.rules[i].pamap.raw.len());
            i = i + 1;
        }
        assert(self@.take(i as int) =~= self@);
        n
    }

    /// The place of the rule with these components.
    fn find(&self, nlri: &[u8]) -> (r: Option<usize>)
        ensures
            match r {
                Some(i) => i < self@.len() && self@[i as int].nlri == nlri@ && has_rule(self@, nlri@),
                None => !has_rule(self@, nlri@),
            },
    {
        let mut i: usize = 0;
        while i < self.rules.len()
            invariant
                i <= self.rules@.len(),
                forall|j: int| 0 <= j < i ==> (#[trigger] self@[j]).nlri != nlri@,
            decreases self.rules@.len() - i,
        {
            if bytes_equal(&self.rules[i].nlri, nlri) {
                assert(self@[i as int].nlri == nlri@);
                return Some(i);
            }
            assert(self@[i as int].nlri != nlri@);
            i = i + 1;
        }
        None
    }

    /// Announces a rule: replaces the one with the same components, if there
    /// is one, and tells so.
    pub fn upsert(&mut self, nlri: &[u8], pamap: &RotondaPaMap, validity: FlowSpecValidity) -> (r: bool)
        requires
            rules_distinct(old(self)@),
        ensures
            r == has_rule(old(self)@, nlri@),
            final(self)@ == put_rule(old(self)@, RuleView { nlri: nlri@, pamap: pamap@, validity }),
            rules_distinct(final(self)@),
    {
        let ghost before = self@;
        let n: usize = nlri.len();
        let copy = copy_range(nlri, 0, n);
        assert(copy@ =~= nlri@);
        let rule = FlowSpecRule { nlri: copy, pamap: pamap.clone(), validity };
        let ghost view = rule@;
        let found = self.find(nlri);
        proof {
            rule_identity_is_its_components(before, view);
        }
        match found {
            Some(i) => {
                self.rules.set(i, rule);
                assert(self@ =~= put_rule(before, view)) by {
                    assert forall|j: int| 0 <= j < before.len() implies #[trigger] self@[j] == put_rule(before, view)[j] by {
                        if j != i && before[j].nlri == nlri@ {
                            if j < i {
                                assert(before[j].nlri != before[i as int].nlri);
                            } else {
                                assert(before[i as int].nlri != before[j].nlri);
                            }
                        }
                    }
                }
                true
            },
            None => {
                self.rules.push(rule);
                assert(self@ =~= before.push(view));
                false
            },
        }
    }

    /// Withdraws the rule with these components, if there is one, and tells
    /// so.
    pub fn remove(&mut self, nlri: &[u8]) -> (r: bool)
        requires
            rules_distinct(old(self)@),
        ensures
            r == has_rule(old(self)@, nlri@),
            final(self)@ == take_rule(old(self)@, nlri@),
            rules_distinct(final(self)@),
    {
        let ghost before = self@;
        proof {
            lemma_take_rule(before, nlri@);
        }
        match self.find(nlri) {
            Some(i) => {
                let _ = self.rules.remove(i);
                proof {
                    assert(self@ =~= before.remove(i as int));
                    lemma_remove_is_take(before, i as int, nlri@);
                }
                true
            },
            None => false,
        }
    }
}

proof fn lemma_remove_is_take(s: Seq<RuleView>, i: int, nlri: Seq<u8>)
    requires
        rules_distinct(s),
        0 <= i < s.len(),
        s[i].nlri == nlri,
    ensures
        s.remove(i) == take_rule(s, nlri),
    decreases s.len(),
{
    reveal(Seq::filter);
    let p = |r: RuleView| r.nlri != nlri;
    let front = s.drop_last();
    if i == s.len() - 1 {
        assert forall|j: int| 0 <= j < front.len() implies p(#[trigger] front[j]) by {
            assert(s[j].nlri != s[i].nlri);
        }
        lemma_filter_all(front, p);
        assert(s.remove(i) =~= front);
    } else {
        assert(s[i].nlri != s[s.len() - 1].nlri);
        assert(rules_distinct(front));
        lemma_remove_is_take(front, i, nlri);
        assert(s.remove(i) =~= front.remove(i).push(s.last()));
    }
}

impl Stored for FlowSpecRuleSet {
    open spec fn tells(v: Seq<RuleView>) -> bool {
        v.len() > 0
    }

    fn tells_something(&self) -> (r: bool) {
        !self.is_empty()
    }

    fn duplicate(&self) -> (r: Self) {
        let mut rules: Vec<FlowSpecRule> = Vec::new();
        let mut i: usize = 0;
        while i < self.rules.len()
            invariant
                i <= self.rules@.len(),
                rules@.len() == i,
                forall|j: int| 0 <= j < i ==> (#[trigger] rules@[j])@ == self.rules@[j]@,
            decreases self.rules@.len() - i,
        {
            rules.push(self.rules[i].clone());
            i = i + 1;
        }
        let r = FlowSpecRuleSet { rules };
        assert(r@ =~= self@);
        r
    }
}

impl Stored for RotondaPaMap {
    open spec fn tells(v: Seq<u8>) -> bool {
        true
    }

    fn tells_something(&self) -> (r: bool) {
        true
    }

    fn duplicate(&self) -> (r: Self) {
        self.clone()
    }
}

/// The usable destination prefix of a rule. It is the first component, of
/// type 1. IPv6 has an offset before the octets, which must be zero.
pub open spec fn dst_key(raw: Seq<u8>, is_v4: bool) -> Option<PrefixKey> {
    let size: int = if is_v4 {
        4
    } else {
        16
    };
    let at: int = if is_v4 {
        2
    } else {
        3
    };
    if raw.len() < at || raw[0] != 1 || raw[1] > 8 * size || (!is_v4 && raw[2] != 0) || raw.len() < at + prefix_octets(
        raw[1] as int,
    ) {
        None
    } else {
        let octets = padded(raw.subrange(at, at + prefix_octets(raw[1] as int)), size);
        if host_is_zero(octets, raw[1] as int) {
            Some((is_v4, octets, raw[1]))
        } else {
            None
        }
    }
}

/// The usable destination prefix of a rule, if it has one.
pub fn dst_prefix(raw: &[u8], is_v4: bool) -> (r: Option<Prefix>)
    ensures
        match r {
            Some(p) => p.wf() && dst_key(raw@, is_v4) == Some(p@),
            None => dst_key(raw@, is_v4) is None,
        },
{
    let size: usize = if is_v4 { 4 } else { 16 };
    let at: usize = if is_v4 { 2 } else { 3 };
    if raw.len() < at || raw[0] != 1 || raw[1] as usize > 8 * size || (!is_v4 && raw[2] != 0) {
        return None;
    }
    let len: u8 = raw[1];
    let n: usize = (len as usize + 7) / 8;
    if raw.len() < at + n {
        return None;
    }
    let octets = &raw[at..at + n];
    assert(octets@ =~= raw@.subrange(at as int, at + n));
    let addr = padded_address(octets, is_v4);
    Prefix::new(addr, len)
}

/// The prefix under which a rule is stored: its destination prefix, or the
/// default route of its family.
pub open spec fn rule_key(raw: Seq<u8>, is_v4: bool) -> PrefixKey {
    match dst_key(raw, is_v4) {
        Some(k) => k,
        None => (is_v4, padded(Seq::empty(), if is_v4 {
            4
        } else {
            16
        }), 0),
    }
}

/// The prefix under which a rule is stored.
pub fn rule_prefix(raw: &[u8], is_v4: bool) -> (r: Prefix)
    ensures
        r.wf(),
        r@ == rule_key(raw@, is_v4),
{
    match dst_prefix(raw, is_v4) {
        Some(p) => p,
        None => {
            let p = Prefix::default_route(is_v4);
            assert(p@.1 =~= padded(Seq::empty(), if is_v4 {
                4
            } else {
                16
            })) by {
                assert forall|i: int| 0 <= i < p@.1.len() implies p@.1[i] == 0 by {
                    assert(host_is_zero(p@.1, 0));
                }
            }
            p
        },
    }
}

/// Who originated a route or a rule: a BGP speaker, or, where none is known,
/// the session that it came from.
#[derive(Clone, Copy, Debug)]
pub enum FlowSpecOriginator {
    BgpId([u8; 4]),
    Ingress(IngressId),
}

/// What an originator stands for.
pub enum Originator {
    BgpId(Seq<u8>),
    Ingress(IngressId),
}

impl View for FlowSpecOriginator {
    type V = Originator;

    open spec fn view(&self) -> Originator {
        match self {
            FlowSpecOriginator::BgpId(b) => Originator::BgpId(b@),
            FlowSpecOriginator::Ingress(i) => Originator::Ingress(*i),
        }
    }
}

impl FlowSpecOriginator {
    pub fn equals(&self, o: &FlowSpecOriginator) -> (r: bool)
        ensures
            r == (self@ == o@),
    {
        match (self, o) {
            (FlowSpecOriginator::BgpId(a), FlowSpecOriginator::BgpId(b)) => {
                crate::types::octets4_equal(a, b)
            },
            (FlowSpecOriginator::Ingress(a), FlowSpecOriginator::Ingress(b)) => *a == *b,
            _ => false,
        }
    }
}

/// The last ORIGINATOR_ID of four octets.
pub open spec fn originator_id(attrs: Seq<(u8, Seq<u8>)>) -> Option<Seq<u8>>
    decreases attrs.len(),
{
    if attrs.len() == 0 {
        None
    } else if attrs.last().0 == 9 && attrs.last().1.len() == 4 {
        Some(attrs.last().1)
    } else {
        originator_id(attrs.drop_last())
    }
}

/// The first AS of an AS_PATH value that begins with a sequence.
pub open spec fn path_start(value: Seq<u8>, wide: bool) -> Option<u32> {
    if value.len() >= (if wide {
        6int
    } else {
        4
    }) && value[0] == 2 && value[1] != 0 {
        Some(
            if wide {
                get32(value, 2) as u32
            } else {
                get16(value, 2) as u32
            },
        )
    } else {
        None
    }
}

/// The neighboring AS: the first one that an AS_PATH begins with.
pub open spec fn neighbor_as(attrs: Seq<(u8, Seq<u8>)>, wide: bool) -> Option<u32>
    decreases attrs.len(),
{
    if attrs.len() == 0 {
        None
    } else {
        let earlier = neighbor_as(attrs.drop_last(), wide);
        if earlier is Some {
            earlier
        } else if attrs.last().0 == 2 {
            path_start(attrs.last().1, wide)
        } else {
            None
        }
    }
}

/// Whether AS numbers in stored attributes have four octets.
pub open spec fn wide_asns(raw: Seq<u8>) -> bool {
    raw.len() >= 2 && raw[1] == 1
}

/// The view of an optional BGP identifier.
pub open spec fn opt_id(o: Option<[u8; 4]>) -> Option<Seq<u8>> {
    match o {
        Some(b) => Some(b@),
        None => None,
    }
}

/// The originator and the neighboring AS that path attributes tell of.
pub fn flowspec_validation_attrs(pamap: &RotondaPaMap) -> (r: (Option<[u8; 4]>, Option<u32>))
    ensures
        opt_id(r.0) == originator_id(attr_list(attr_blob(pamap@))),
        r.1 == neighbor_as(attr_list(attr_blob(pamap@)), wide_asns(pamap@)),
{
    let wide = pamap.raw.len() >= 2 && pamap.raw[1] == 1;
    let blob = pamap.blob();
    let mut originator: Option<[u8; 4]> = None;
    let mut neighbor: Option<u32> = None;
    let mut pos: usize = 0;
    let ghost mut done: Seq<(u8, Seq<u8>)> = Seq::empty();
    proof {
        assert(blob@.skip(0) =~= blob@);
        assert(done + attr_list(blob@) =~= attr_list(blob@));
    }
    while pos < blob.len()
        invariant_except_break
            pos <= blob@.len(),
            wide == wide_asns(pamap@),
            attr_list(blob@) == done + attr_list(blob@.skip(pos as int)),
            opt_id(originator) == originator_id(done),
            neighbor == neighbor_as(done, wide),
        ensures
            opt_id(originator) == originator_id(attr_list(blob@)),
            neighbor == neighbor_as(attr_list(blob@), wide),
        decreases blob@.len() - pos,
    {
        let ghost s = blob@.skip(pos as int);
        match attr_at(blob, pos) {
            None => {
                assert(done + Seq::<(u8, Seq<u8>)>::empty() =~= done);
                break;
            },
            Some((start, end)) => {
                let value = &blob[start..end];
                let type_code: u8 = blob[pos + 1];
                let ghost (header, total) = attr_extent(s)->0;
                let ghost one = (type_code, value@);
                proof {
                    assert(type_code == s[1]);
                    assert(value@ =~= s.subrange(header, total));
                    assert(s.skip(total) =~= blob@.skip(end as int));
                    assert(attr_list(s) == seq![one] + attr_list(s.skip(total)));
                    assert(done + attr_list(s) =~= done.push(one) + attr_list(s.skip(total)));
                    assert(done.push(one).drop_last() =~= done);
                    done = done.push(one);
                }
                if type_code == 9 && value.len() == 4 {
                    let id: [u8; 4] = [value[0], value[1], value[2], value[3]];
                    assert(id@ =~= value@);
                    originator = Some(id);
                } else if type_code == 2 && neighbor.is_none() {
                    let least: usize = if wide { 6 } else { 4 };
                    if value.len() >= least && value[0] == 2 && value[1] != 0 {
                        neighbor = Some(
                            if wide {
                                read_be32(value, 2)
                            } else {
                                read_be16(value, 2) as u32
                            },
                        );
                    }
                }
                pos = end;
            },
        }
    }
    (originator, neighbor)
}

} // verus!
