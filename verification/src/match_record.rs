//! A candidate token: how many bytes a rule matched at the current position.

use vstd::prelude::*;
use vstd::std_specs::cmp::PartialOrdSpecImpl;
use core::cmp::Ordering;

verus! {

/// A match of rule `rule` covering `len` bytes of text.
#[derive(Debug, Clone, Copy, PartialEq, Eq, Structural)]
pub struct MatchRecord {
    pub len: usize,
    pub rule: usize,
}

impl MatchRecord {
    /// A record of a match of `r` over `p` bytes.
    pub fn new(p: usize, r: usize) -> (m: MatchRecord)
        ensures
            m == (MatchRecord { len: p, rule: r }),
    {
        MatchRecord { len: p, rule: r }
    }
}

/// `a` is a better match than `b`: it is longer, or as long and made by an
/// earlier (lower-numbered) rule.
pub open spec fn better(a: MatchRecord, b: MatchRecord) -> bool {
    a.len > b.len || (a.len == b.len && a.rule < b.rule)
}

/// The three-way comparison that orders matches by quality.
pub open spec fn quality_order(a: MatchRecord, b: MatchRecord) -> Option<Ordering> {
    if better(a, b) {
        Some(Ordering::Greater)
    } else if a == b {
        Some(Ordering::Equal)
    } else {
        Some(Ordering::Less)
    }
}

impl PartialOrd for MatchRecord {
    /// A MatchRecord is bigger if it is longer, or same length but its rule
    /// is lower numbered.
    fn partial_cmp(&self, other: &Self) -> (r: Option<Ordering>) {
        if self.len > other.len {
            return Some(Ordering::Greater);
        } else if self.len == other.len {
            if self.rule < other.rule {
                return Some(Ordering::Greater);
            } else if self.rule == other.rule {
                return Some(Ordering::Equal);
            }
        }
        Some(Ordering::Less)
    }
}

impl PartialOrdSpecImpl for MatchRecord {
    open spec fn obeys_partial_cmp_spec() -> bool {
        true
    }

    open spec fn partial_cmp_spec(&self, other: &Self) -> Option<Ordering> {
        quality_order(*self, *other)
    }
}

/// `better` is a strict total order on match records: of two distinct records
/// exactly one is better than the other, and no record is better than itself.
pub proof fn lemma_better_total(a: MatchRecord, b: MatchRecord)
    ensures
        !better(a, a),
        a != b ==> (better(a, b) <==> !better(b, a)),
        a == b ==> !better(a, b),
{
}

/// `better` is transitive.
pub proof fn lemma_better_transitive(a: MatchRecord, b: MatchRecord, c: MatchRecord)
    requires
        better(a, b),
        better(b, c),
    ensures
        better(a, c),
{
}

} // verus!
