//! Labelled NLRI (RFC 8277, RFC 4364): how long they are, and whether the
//! prefix behind the labels is one of its family.
use vstd::prelude::*;

use crate::pamap::{attr_list, find_values, first_value, last_value};
use crate::wire::{copy_range, get16, read_be16};

verus! {

/// Whether a label is the last one of its stack: its bottom bit is set, or it
/// is one of the two values that a withdrawal has in its place.
pub open spec fn is_last_label(s: Seq<u8>) -> bool {
    s[2] & 1u8 == 1u8 || (s[1] == 0 && s[2] == 0 && (s[0] == 0 || s[0] == 0x80))
}

/// The length of the label stack at the start of `s`, if all of it is there.
pub open spec fn labels_len(s: Seq<u8>) -> Option<int>
    decreases s.len(),
{
    if s.len() < 3 {
        None
    } else if is_last_label(s) {
        Some(3)
    } else {
        match labels_len(s.skip(3)) {
            Some(n) => Some(n + 3),
            None => None,
        }
    }
}

/// Measures the label stack at `at`.
fn measure_labels(s: &[u8], at: usize) -> (r: Option<usize>)
    requires
        at <= s@.len(),
    ensures
        match (r, labels_len(s@.skip(at as int))) {
            (Some(n), Some(k)) => n == k && at + n <= s@.len(),
            (None, None) => true,
            _ => false,
        },
{
    let mut n: usize = 0;
    while s.len() - at - n >= 3
        invariant
            at + n <= s@.len(),
            labels_len(s@.skip(at as int)) == (match labels_len(s@.skip(at + n)) {
                Some(k) => Some(k + n),
                None => None::<int>,
            }),
        decreases s@.len() - at - n,
    {
        let ghost t = s@.skip(at + n);
        let (a, b, c): (u8, u8, u8) = (s[at + n], s[at + n + 1], s[at + n + 2]);
        assert(t[0] == a && t[1] == b && t[2] == c);
        assert(t.skip(3) =~= s@.skip(at + n + 3));
        if c & 1 == 1 || (b == 0 && c == 0 && (a == 0 || a == 0x80)) {
            return Some(n + 3);
        }
        n = n + 3;
    }
    None
}

/// Whether no labelled NLRI of `s` has a prefix longer than an address of its
/// family, as far as `s` can be read. With `rd`, a route distinguisher stands
/// between the labels and the prefix; with `path_ids`, a path id stands in
/// front.
pub open spec fn labelled_fit(s: Seq<u8>, is_v4: bool, rd: bool, path_ids: bool) -> bool
    decreases s.len(),
{
    let head: int = if path_ids {
        5
    } else {
        1
    };
    if s.len() < head {
        true
    } else {
        match labels_len(s.skip(head)) {
            None => true,
            Some(labels) => {
                let before = labels + (if rd {
                    8int
                } else {
                    0
                });
                let bits = s[head - 1] - 8 * before;
                if bits < 0 || s.len() < head + before {
                    true
                } else if bits > (if is_v4 {
                    32int
                } else {
                    128
                }) {
                    false
                } else if s.len() < head + before + (bits + 7) / 8 {
                    true
                } else {
                    labelled_fit(s.skip(head + before + (bits + 7) / 8), is_v4, rd, path_ids)
                }
            },
        }
    }
}

/// Checks the prefixes of labelled NLRI.
pub fn check_labelled(s: &[u8], is_v4: bool, rd: bool, path_ids: bool) -> (r: bool)
    ensures
        r == labelled_fit(s@, is_v4, rd, path_ids),
{
    let head: usize = if path_ids {
        5
    } else {
        1
    };
    let mut at: usize = 0;
    assert(s@.skip(0) =~= s@);
    while at < s.len()
        invariant
            at <= s@.len(),
            head == (if path_ids {
                5int
            } else {
                1
            }),
            labelled_fit(s@, is_v4, rd, path_ids) == labelled_fit(s@.skip(at as int), is_v4, rd, path_ids),
        decreases s@.len() - at,
    {
        let ghost t = s@.skip(at as int);
        if s.len() - at < head {
            return true;
        }
        assert(t.skip(head as int) =~= s@.skip(at + head));
        assert(t[head - 1] == s@[at + head - 1]);
        let labels: usize = match measure_labels(s, at + head) {
            Some(n) => n,
            None => {
                return true;
            },
        };
        let all: usize = s[at + head - 1] as usize;
        if labels > 31 {
            return true;
        }
        let before: usize = if rd {
            labels + 8
        } else {
            labels
        };
        if 8 * before > all || s.len() - at - head < before {
            return true;
        }
        let bits: usize = all - 8 * before;
        if bits > (if is_v4 {
            32
        } else {
            128
        }) {
            return false;
        }
        let octets: usize = (bits + 7) / 8;
        if s.len() - at - head - before < octets {
            return true;
        }
        assert(t.skip(head + before + octets) =~= s@.skip(at + head + before + octets));
        at = at + head + before + octets;
    }
    true
}

/// The family that the value of MP_REACH_NLRI or MP_UNREACH_NLRI names.
pub open spec fn named_family(v: Seq<u8>) -> (int, u8) {
    (get16(v, 0), v[2])
}

/// The NLRI in the value of MP_REACH_NLRI, or else of MP_UNREACH_NLRI.
pub open spec fn named_nlri(v: Seq<u8>, reach: bool) -> Seq<u8> {
    if !reach {
        v.skip(3)
    } else if v.len() < 4 || v.len() < 5 + v[3] {
        Seq::empty()
    } else {
        v.skip(5 + v[3])
    }
}

/// Whether a value names one of the families.
pub open spec fn names_one(v: Option<Seq<u8>>, families: Seq<(u16, u8)>) -> bool {
    v matches Some(v) && v.len() >= 3 && families.contains((named_family(v).0 as u16, named_family(v).1))
}

/// Whether the labelled NLRI that attributes announce, or else withdraw, have
/// prefixes of their family. They have path ids where the last attribute of
/// that kind names one of the families with path ids.
pub open spec fn prefixes_fit(attrs: Seq<u8>, reach: bool, path_families: Seq<(u16, u8)>) -> bool {
    let list = attr_list(attrs);
    let code = if reach {
        14u8
    } else {
        15u8
    };
    match first_value(list, code) {
        Some(v) => v.len() >= 3 && (named_family(v).0 == 1 || named_family(v).0 == 2) && (named_family(v).1 == 4
            || named_family(v).1 == 128) ==> labelled_fit(
            named_nlri(v, reach),
            named_family(v).0 == 1,
            named_family(v).1 == 128,
            names_one(last_value(list, code), path_families),
        ),
        None => true,
    }
}

fn is_named(v: &Vec<u8>, families: &[(u16, u8)]) -> (r: bool)
    ensures
        r == names_one(Some(v@), families@),
{
    if v.len() < 3 {
        return false;
    }
    let afi: u16 = read_be16(v, 0);
    let mut i: usize = 0;
    while i < families.len()
        invariant
            i <= families@.len(),
            v@.len() >= 3,
            afi == get16(v@, 0),
            forall|j: int| 0 <= j < i ==> #[trigger] families@[j] != (afi, v@[2]),
        decreases families@.len() - i,
    {
        if families[i].0 == afi && families[i].1 == v[2] {
            assert(families@[i as int] == (afi, v@[2]));
            return true;
        }
        i = i + 1;
    }
    false
}

/// Checks the labelled NLRI of attributes.
pub fn check_prefixes(attrs: &[u8], reach: bool, path_families: &[(u16, u8)]) -> (r: bool)
    ensures
        r == prefixes_fit(attrs@, reach, path_families@),
{
    let code: u8 = if reach {
        14
    } else {
        15
    };
    let (first, last) = find_values(attrs, code);
    let v = match first {
        Some(v) => v,
        None => {
            return true;
        },
    };
    if v.len() < 3 {
        return true;
    }
    let afi: u16 = read_be16(&v, 0);
    if (afi != 1 && afi != 2) || (v[2] != 4 && v[2] != 128) {
        return true;
    }
    let path_ids = match &last {
        Some(l) => is_named(l, path_families),
        None => false,
    };
    let n: usize = v.len();
    let start: usize = if !reach {
        3
    } else if n < 4 || n < 5 + v[3] as usize {
        n
    } else {
        5 + v[3] as usize
    };
    let nlri = copy_range(&v, start, n);
    assert(nlri@ =~= named_nlri(v@, reach));
    check_labelled(&nlri, afi == 1, v[2] == 128, path_ids)
}

} // verus!
