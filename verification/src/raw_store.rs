//! The prefix store of the `rotonda-store` crate, as far as the routing
//! information base uses it: records under a prefix and the id of their
//! ingress, and the ingresses that are withdrawn as a whole.
//!
//! A record holds nothing but its status and its logical time: a number, by
//! which the owner of the store finds what the record stands for.
use rotonda_store::prefix_record::Record;
use rotonda_store::rib::config::MemoryOnlyConfig;
use rotonda_store::rib::StarCastRib;
use rotonda_store::test_types::NoMeta;
use vstd::prelude::*;

use crate::types::{IngressId, IpAddress, Prefix, PrefixKey, RouteStatus};

verus! {

/// A `rotonda_store::rib::StarCastRib` in memory whose records have no
/// metadata. It has one owner: whatever changes it takes it by `&mut`.
#[verifier::external_body]
pub struct RawStore {
    inner: StarCastRib<NoMeta, MemoryOnlyConfig>,
}

/// A record as the store hands it out.
#[derive(Clone, Copy, Debug)]
pub struct RawRecord {
    pub mui: IngressId,
    pub ltime: u64,
    pub status: RouteStatus,
}

/// What the store holds of a record: its time and its own status.
pub type RawValue = (u64, RouteStatus);

/// The records of a store, by prefix and ingress.
pub uninterp spec fn raw_records(s: RawStore) -> Map<(PrefixKey, IngressId), RawValue>;

/// The ingresses whose IPv4 records are withdrawn as a whole.
pub uninterp spec fn raw_withdrawn_v4(s: RawStore) -> Set<IngressId>;

/// The ingresses whose IPv6 records are withdrawn as a whole.
pub uninterp spec fn raw_withdrawn_v6(s: RawStore) -> Set<IngressId>;

/// The prefixes for which the store has a place, with or without records.
pub uninterp spec fn raw_slots(s: RawStore) -> Set<PrefixKey>;

/// The ingresses of one family that are withdrawn as a whole.
pub open spec fn raw_withdrawn(s: RawStore, is_v4: bool) -> Set<IngressId> {
    if is_v4 {
        raw_withdrawn_v4(s)
    } else {
        raw_withdrawn_v6(s)
    }
}

/// Whether a family has no ingress that is withdrawn, no record and no place
/// for any.
pub open spec fn raw_empty(s: RawStore) -> bool {
    &&& raw_records(s) == Map::<(PrefixKey, IngressId), RawValue>::empty()
    &&& raw_withdrawn_v4(s) == Set::<IngressId>::empty()
    &&& raw_withdrawn_v6(s) == Set::<IngressId>::empty()
    &&& raw_slots(s) == Set::<PrefixKey>::empty()
}

/// Whether two stores have the same ingresses withdrawn.
pub open spec fn same_withdrawn(a: RawStore, b: RawStore) -> bool {
    raw_withdrawn_v4(a) == raw_withdrawn_v4(b) && raw_withdrawn_v6(a) == raw_withdrawn_v6(b)
}

/// Creates an empty store, by `StarCastRib::try_default`. Its documentation
/// calls it infallible.
#[verifier::external_body]
pub(crate) fn raw_new() -> (r: Result<RawStore, String>)
    ensures
        r is Ok,
        raw_empty(r->Ok_0),
{
    StarCastRib::try_default().map(|inner| RawStore { inner }).map_err(|e| e.to_string())
}

/// Puts one record under its prefix and ingress, by `StarCastRib::insert`
/// without path selection. A record that was there is replaced. With one
/// owner and a store in memory this always succeeds: an insertion fails only
/// where another one interferes, a lock is poisoned or the disk fails. Of the
/// result only the number of retries is kept, and nothing is claimed of it.
#[verifier::external_body]
pub(crate) fn raw_insert(s: &mut RawStore, p: &Prefix, rec: RawRecord) -> (r: Result<usize, String>)
    requires
        p.wf(),
    ensures
        r is Ok,
        same_withdrawn(*final(s), *old(s)),
        raw_records(*final(s)) == raw_records(*old(s)).insert(
            (p@, rec.mui),
            (rec.ltime, rec.status),
        ),
        raw_slots(*final(s)) == raw_slots(*old(s)).insert(p@),
{
    let prefix = match p.addr {
        IpAddress::V4(o) => inetnum::addr::Prefix::new_v4(o.into(), p.len).unwrap(),
        IpAddress::V6(o) => inetnum::addr::Prefix::new_v6(o.into(), p.len).unwrap(),
    };
    let status = match rec.status {
        RouteStatus::Active => rotonda_store::prefix_record::RouteStatus::Active,
        RouteStatus::InActive => rotonda_store::prefix_record::RouteStatus::InActive,
        RouteStatus::Withdrawn => rotonda_store::prefix_record::RouteStatus::Withdrawn,
    };
    let record = Record::new(rec.mui, rec.ltime, status, NoMeta::Empty);
    s.inner.insert(&prefix, record, None).map(|u| u.cas_count).map_err(|e| e.to_string())
}

/// A record as it is handed out: without withdrawn records only active ones,
/// and those of a withdrawn ingress only when asked for by ingress; with
/// them all, those of a withdrawn ingress as withdrawn.
pub open spec fn raw_visible(
    s: RawStore,
    p: PrefixKey,
    mui: IngressId,
    by_mui: bool,
    include_withdrawn: bool,
) -> Option<RawRecord> {
    if !raw_records(s).contains_key((p, mui)) {
        None
    } else {
        let (ltime, status) = raw_records(s)[(p, mui)];
        let gone = raw_withdrawn(s, p.0).contains(mui);
        if include_withdrawn {
            Some(
                RawRecord {
                    mui,
                    ltime,
                    status: if gone {
                        RouteStatus::Withdrawn
                    } else {
                        status
                    },
                },
            )
        } else if status is Active && (by_mui || !gone) {
            Some(RawRecord { mui, ltime, status })
        } else {
            None
        }
    }
}

/// Whether `v` holds each record of `p` that is handed out, once.
pub open spec fn lists_visible(s: RawStore, p: PrefixKey, include_withdrawn: bool, v: Seq<RawRecord>) -> bool {
    &&& forall|i: int|
        0 <= i < v.len() ==> raw_visible(s, p, (#[trigger] v[i]).mui, false, include_withdrawn) == Some(
            v[i],
        )
    &&& forall|i: int, j: int| 0 <= i < j < v.len() ==> (#[trigger] v[i]).mui != (#[trigger] v[j]).mui
    &&& forall|m: IngressId|
        (#[trigger] raw_visible(s, p, m, false, include_withdrawn)) is Some ==> exists|i: int|
            0 <= i < v.len() && (#[trigger] v[i]).mui == m
}

/// The records of a prefix, all or those of one ingress, by
/// `StarCastRib::get_records_for_prefix`. A store in memory always answers.
/// The order of several records is left open.
#[verifier::external_body]
pub(crate) fn raw_get(s: &RawStore, p: &Prefix, mui: Option<IngressId>, include_withdrawn: bool) -> (r:
    Result<Option<Vec<RawRecord>>, ()>)
    requires
        p.wf(),
    ensures
        r is Ok,
        match mui {
            Some(m) => match r->Ok_0 {
                Some(v) => v@.len() == 1 && raw_visible(*s, p@, m, true, include_withdrawn) == Some(
                    v@[0],
                ),
                None => raw_visible(*s, p@, m, true, include_withdrawn) is None,
            },
            None => match r->Ok_0 {
                Some(v) => v@.len() > 0 && lists_visible(*s, p@, include_withdrawn, v@),
                None => lists_visible(*s, p@, include_withdrawn, Seq::empty()),
            },
        },
{
    let prefix = match p.addr {
        IpAddress::V4(o) => inetnum::addr::Prefix::new_v4(o.into(), p.len).unwrap(),
        IpAddress::V6(o) => inetnum::addr::Prefix::new_v6(o.into(), p.len).unwrap(),
    };
    let found = s.inner.get_records_for_prefix(&prefix, mui, include_withdrawn).map_err(|_| ())?;
    Ok(found.map(|v| v.into_iter().map(|r| RawRecord {
        mui: r.multi_uniq_id,
        ltime: r.ltime,
        status: own_status(r.status.into()),
    }).collect()))
}

/// The status that a number of the store stands for.
fn own_status(code: u8) -> (r: RouteStatus)
    ensures
        r == (if code == 1 {
            RouteStatus::Active
        } else if code == 2 {
            RouteStatus::InActive
        } else {
            RouteStatus::Withdrawn
        }),
{
    if code == 1 {
        RouteStatus::Active
    } else if code == 2 {
        RouteStatus::InActive
    } else {
        RouteStatus::Withdrawn
    }
}

/// Gives the record of a prefix and ingress the status withdrawn and the
/// time `ltime`, by `StarCastRib::mark_mui_as_withdrawn_for_prefix`. It fails
/// where the store has no place for the prefix, and makes one then.
#[verifier::external_body]
pub(crate) fn raw_mark_withdrawn_for_prefix(s: &mut RawStore, p: &Prefix, mui: IngressId, ltime: u64) -> (r:
    Result<(), String>)
    requires
        p.wf(),
    ensures
        same_withdrawn(*final(s), *old(s)),
        raw_slots(*final(s)) == raw_slots(*old(s)).insert(p@),
        r is Ok == raw_slots(*old(s)).contains(p@),
        raw_records(*final(s)) == (if raw_slots(*old(s)).contains(p@) && raw_records(
            *old(s),
        ).contains_key((p@, mui)) {
            raw_records(*old(s)).insert(
                (p@, mui),
                (ltime, RouteStatus::Withdrawn),
            )
        } else {
            raw_records(*old(s))
        }),
{
    let prefix = match p.addr {
        IpAddress::V4(o) => inetnum::addr::Prefix::new_v4(o.into(), p.len).unwrap(),
        IpAddress::V6(o) => inetnum::addr::Prefix::new_v6(o.into(), p.len).unwrap(),
    };
    s.inner.mark_mui_as_withdrawn_for_prefix(&prefix, mui, ltime).map_err(|e| e.to_string())
}

/// What stays when only the withdrawn ingresses change.
pub open spec fn same_raw_records(a: RawStore, b: RawStore) -> bool {
    raw_records(a) == raw_records(b) && raw_slots(a) == raw_slots(b)
}

/// Withdraws all records of an ingress, by
/// `StarCastRib::mark_mui_as_withdrawn`. With one owner this always succeeds.
#[verifier::external_body]
pub(crate) fn raw_mark_withdrawn(s: &mut RawStore, mui: IngressId) -> (r: Result<(), String>)
    ensures
        r is Ok,
        same_raw_records(*final(s), *old(s)),
        raw_withdrawn_v4(*final(s)) == raw_withdrawn_v4(*old(s)).insert(mui),
        raw_withdrawn_v6(*final(s)) == raw_withdrawn_v6(*old(s)).insert(mui),
{
    s.inner.mark_mui_as_withdrawn(mui).map_err(|e| e.to_string())
}

/// Withdraws all IPv4 records of an ingress, by
/// `StarCastRib::mark_mui_as_withdrawn_v4`. With one owner this always succeeds.
#[verifier::external_body]
pub(crate) fn raw_mark_withdrawn_v4(s: &mut RawStore, mui: IngressId) -> (r: Result<(), String>)
    ensures
        r is Ok,
        same_raw_records(*final(s), *old(s)),
        raw_withdrawn_v6(*final(s)) == raw_withdrawn_v6(*old(s)),
        raw_withdrawn_v4(*final(s)) == raw_withdrawn_v4(*old(s)).insert(mui),
{
    s.inner.mark_mui_as_withdrawn_v4(mui).map_err(|e| e.to_string())
}

/// Withdraws all IPv6 records of an ingress, by
/// `StarCastRib::mark_mui_as_withdrawn_v6`. With one owner this always succeeds.
#[verifier::external_body]
pub(crate) fn raw_mark_withdrawn_v6(s: &mut RawStore, mui: IngressId) -> (r: Result<(), String>)
    ensures
        r is Ok,
        same_raw_records(*final(s), *old(s)),
        raw_withdrawn_v4(*final(s)) == raw_withdrawn_v4(*old(s)),
        raw_withdrawn_v6(*final(s)) == raw_withdrawn_v6(*old(s)).insert(mui),
{
    s.inner.mark_mui_as_withdrawn_v6(mui).map_err(|e| e.to_string())
}

/// Ends the withdrawal of the IPv4 records of an ingress, by
/// `StarCastRib::mark_mui_as_active_v4`. With one owner this always succeeds.
#[verifier::external_body]
pub(crate) fn raw_mark_active_v4(s: &mut RawStore, mui: IngressId) -> (r: Result<(), String>)
    ensures
        r is Ok,
        same_raw_records(*final(s), *old(s)),
        raw_withdrawn_v6(*final(s)) == raw_withdrawn_v6(*old(s)),
        raw_withdrawn_v4(*final(s)) == raw_withdrawn_v4(*old(s)).remove(mui),
{
    s.inner.mark_mui_as_active_v4(mui).map_err(|e| e.to_string())
}

/// Ends the withdrawal of the IPv6 records of an ingress, by
/// `StarCastRib::mark_mui_as_active_v6`. With one owner this always succeeds.
#[verifier::external_body]
pub(crate) fn raw_mark_active_v6(s: &mut RawStore, mui: IngressId) -> (r: Result<(), String>)
    ensures
        r is Ok,
        same_raw_records(*final(s), *old(s)),
        raw_withdrawn_v4(*final(s)) == raw_withdrawn_v4(*old(s)),
        raw_withdrawn_v6(*final(s)) == raw_withdrawn_v6(*old(s)).remove(mui),
{
    s.inner.mark_mui_as_active_v6(mui).map_err(|e| e.to_string())
}

/// Whether the IPv4 records of an ingress are withdrawn as a whole, by
/// `StarCastRib::mui_is_withdrawn_v4`.
#[verifier::external_body]
pub(crate) fn raw_is_withdrawn_v4(s: &RawStore, mui: IngressId) -> (r: bool)
    ensures
        r == raw_withdrawn_v4(*s).contains(mui),
{
    s.inner.mui_is_withdrawn_v4(mui)
}

/// Whether the IPv6 records of an ingress are withdrawn as a whole, by
/// `StarCastRib::mui_is_withdrawn_v6`.
#[verifier::external_body]
pub(crate) fn raw_is_withdrawn_v6(s: &RawStore, mui: IngressId) -> (r: bool)
    ensures
        r == raw_withdrawn_v6(*s).contains(mui),
{
    s.inner.mui_is_withdrawn_v6(mui)
}

} // verus!
