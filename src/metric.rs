use vstd::prelude::*;

use core::cmp::Ordering;

use crate::error::Error;
use crate::utils::{groups_view, without_key, GroupsStruct};

verus! {

/// The size of the largest group in `g`, or 0 when there is none.
pub open spec fn max_group(g: Seq<(i32, Seq<usize>)>) -> nat
    decreases g.len(),
{
    if g.len() == 0 {
        0
    } else {
        let m = max_group(g.drop_last());
        if g.last().1.len() > m {
            g.last().1.len()
        } else {
            m
        }
    }
}

/// The size of the smallest group in `g`, or 0 when there is none.
pub open spec fn min_group(g: Seq<(i32, Seq<usize>)>) -> nat
    decreases g.len(),
{
    if g.len() == 0 {
        0
    } else if g.len() == 1 {
        g[0].1.len()
    } else {
        let m = min_group(g.drop_last());
        if g.last().1.len() < m {
            g.last().1.len()
        } else {
            m
        }
    }
}

/// How well guessing a word splits the other candidates: more groups is
/// better, and among equal numbers of groups, a smaller spread between the
/// largest and the smallest group.
#[derive(Debug)]
pub struct Metric {
    word: String,
    // Number of groups
    g_number: usize,
    // Max(group_elements) - Min(group_elements)
    delta: usize,
    // groups
    groups: GroupsStruct<i32>,
}

impl Metric {
    /// The word rated.
    pub closed spec fn spec_word(&self) -> Seq<char> {
        self.word@
    }

    /// Number of groups.
    pub closed spec fn group_count(&self) -> nat {
        self.g_number as nat
    }

    /// Size of the largest group minus size of the smallest.
    pub closed spec fn spread(&self) -> nat {
        self.delta as nat
    }

    /// The groups the rating was made from: match count with positions.
    pub closed spec fn spec_groups(&self) -> Seq<(i32, Seq<usize>)> {
        self.groups.spec_groups()
    }

    /// Rate `word` from the partition of its match-count row; the sentinel
    /// group (-1, the word itself) is set aside first. Fails with
    /// `MetricUndefined` when no other group is left.
    pub fn from_group(word: &str, groups: GroupsStruct<i32>) -> (r: Result<Metric, Error>)
        ensures
            r is Err <==> without_key(groups.spec_groups(), -1i32).len() == 0,
            r is Err ==> r->Err_0 == Error::MetricUndefined,
            r matches Ok(m) ==> {
                let g = without_key(groups.spec_groups(), -1i32);
                &&& m.spec_word() == word@
                &&& m.spec_groups() == g
                &&& m.group_count() == g.len()
                &&& m.spread() == max_group(g) - min_group(g)
            },
    {
        broadcast use vstd::laws_eq::group_laws_eq;

        let mut groups = groups;
        groups.remove(&-1i32);
        let gs = groups.groups();
        let ghost g = groups.spec_groups();
        let g_number = gs.len();
        if g_number == 0 {
            return Err(Error::MetricUndefined);
        }
        let mut max: usize = gs[0].1.len();
        let mut min: usize = gs[0].1.len();
        assert(g.take(1).drop_last() =~= g.take(0));
        assert(g.take(1).last() == g[0]);
        assert(max_group(g.take(0)) == 0);
        assert(max == max_group(g.take(1)));
        for j in 1..g_number
            invariant
                g_number == g.len(),
                groups_view(gs@) == g,
                max == max_group(g.take(j as int)),
                min == min_group(g.take(j as int)),
                min <= max,
        {
            assert(g.take(j as int + 1).drop_last() =~= g.take(j as int));
            let size = gs[j].1.len();
            if size > max {
                max = size;
            }
            if size < min {
                min = size;
            }
        }
        assert(g.take(g_number as int) =~= g);
        let word = word.to_owned();
        Ok(Metric { word, g_number, delta: max - min, groups })
    }

    pub fn groups(&self) -> (r: &Vec<(i32, Vec<usize>)>)
        ensures
            groups_view(r@) == self.spec_groups(),
    {
        self.groups.groups()
    }
}

/// The order of metrics: more groups first, then a smaller spread.
pub open spec fn metric_order(groups: nat, spread: nat, other_groups: nat, other_spread: nat) -> Ordering {
    if groups == other_groups {
        if spread < other_spread {
            Ordering::Greater
        } else if spread > other_spread {
            Ordering::Less
        } else {
            Ordering::Equal
        }
    } else if groups < other_groups {
        Ordering::Less
    } else {
        Ordering::Greater
    }
}

impl PartialEq for Metric {
    fn eq(&self, other: &Self) -> (r: bool) {
        self.g_number == other.g_number && self.delta == other.delta
    }
}

impl vstd::std_specs::cmp::PartialEqSpecImpl for Metric {
    open spec fn obeys_eq_spec() -> bool {
        true
    }

    open spec fn eq_spec(&self, other: &Metric) -> bool {
        self.group_count() == other.group_count() && self.spread() == other.spread()
    }
}

// (ng, delta)
// (4, 2) > (3, 1)
// (3,1) > (3, 2)
impl PartialOrd for Metric {
    fn partial_cmp(&self, other: &Self) -> (r: Option<Ordering>) {
        if self.g_number == other.g_number {
            if self.delta < other.delta {
                Some(Ordering::Greater)
            } else if self.delta > other.delta {
                Some(Ordering::Less)
            } else {
                Some(Ordering::Equal)
            }
        } else if self.g_number < other.g_number {
            Some(Ordering::Less)
        } else {
            Some(Ordering::Greater)
        }
    }
}

impl vstd::std_specs::cmp::PartialOrdSpecImpl for Metric {
    open spec fn obeys_partial_cmp_spec() -> bool {
        true
    }

    open spec fn partial_cmp_spec(&self, other: &Metric) -> Option<Ordering> {
        Some(metric_order(self.group_count(), self.spread(), other.group_count(), other.spread()))
    }
}

} // verus!
