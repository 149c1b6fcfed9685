//! Which budget each spending entry is checked against.

use vstd::prelude::*;
use crate::names::{first_index_of, lemma_first_index_of, position_of, views};

verus! {

/// For each spending period, in order, whose window has a budget: the
/// pair of the period's position and the position of the first budget
/// with that window. Periods without a budget are left out.
pub open spec fn budget_matches(windows: Seq<Seq<char>>, periods: Seq<Seq<char>>) -> Seq<(int, int)>
    decreases periods.len(),
{
    if periods.len() == 0 {
        seq![]
    } else {
        let earlier = budget_matches(windows, periods.drop_last());
        match first_index_of(windows, periods.last()) {
            Some(b) => earlier.push(((periods.len() - 1) as int, b)),
            None => earlier,
        }
    }
}

/// What the pairing holds: each pair is a period and the first budget of
/// its window; the periods come in order, each at most once; and every
/// period whose name is among the windows is paired, wherever its budget
/// stands.
pub proof fn lemma_budget_matches(windows: Seq<Seq<char>>, periods: Seq<Seq<char>>)
    ensures
        forall|k: int|
            #![trigger budget_matches(windows, periods)[k]]
            0 <= k < budget_matches(windows, periods).len() ==> {
                let (p, b) = budget_matches(windows, periods)[k];
                &&& 0 <= p < periods.len()
                &&& 0 <= b < windows.len()
                &&& windows[b] == periods[p]
                &&& forall|j: int| 0 <= j < b ==> windows[j] != periods[p]
            },
        forall|k: int, l: int|
            0 <= k < l < budget_matches(windows, periods).len() ==> (#[trigger] budget_matches(windows, periods)[k]).0
                < (#[trigger] budget_matches(windows, periods)[l]).0,
        forall|p: int, j: int|
            0 <= p < periods.len() && 0 <= j < windows.len() && #[trigger] windows[j] == #[trigger] periods[p]
                ==> exists|k: int|
                0 <= k < budget_matches(windows, periods).len() && (#[trigger] budget_matches(windows, periods)[k]).0
                    == p,
    decreases periods.len(),
{
    if periods.len() > 0 {
        let front = periods.drop_last();
        lemma_budget_matches(windows, front);
        lemma_first_index_of(windows, periods.last());
        let earlier = budget_matches(windows, front);
        let all = budget_matches(windows, periods);
        let last = periods.len() - 1;
        assert forall|k: int| 0 <= k < earlier.len() implies (#[trigger] earlier[k]).0 < last by {}
        assert forall|k: int| #![trigger all[k]] 0 <= k < all.len() implies {
            let (p, b) = all[k];
            &&& 0 <= p < periods.len()
            &&& 0 <= b < windows.len()
            &&& windows[b] == periods[p]
            &&& forall|j: int| 0 <= j < b ==> windows[j] != periods[p]
        } by {
            if k < earlier.len() {
                assert(all[k] == earlier[k]);
                assert(front[all[k].0] == periods[all[k].0]);
            }
        }
        assert forall|k: int, l: int| 0 <= k < l < all.len() implies (#[trigger] all[k]).0 < (#[trigger] all[l]).0 by {
            assert(all[k] == earlier[k]);
            if l < earlier.len() {
                assert(all[l] == earlier[l]);
            }
        }
        assert forall|p: int, j: int|
            0 <= p < periods.len() && 0 <= j < windows.len() && #[trigger] windows[j] == #[trigger] periods[p] implies exists|k: int|
            0 <= k < all.len() && (#[trigger] all[k]).0 == p by {
            if p < last {
                assert(windows[j] == front[p]);
                let k = choose|k: int| 0 <= k < earlier.len() && (#[trigger] earlier[k]).0 == p;
                assert(all[k] == earlier[k]);
            } else {
                assert(all[all.len() - 1].0 == p);
            }
        }
    }
}

/// Pairs each spending period that has a budget with that budget:
/// `(period position, budget position)`, in the order of `periods`, the
/// budget being the first whose window is the period's name.
pub fn match_budgets(windows: &Vec<String>, periods: &Vec<String>) -> (matches: Vec<(usize, usize)>)
    ensures
        matches.len() == budget_matches(views(windows@), views(periods@)).len(),
        forall|k: int|
            0 <= k < matches.len() ==> (#[trigger] matches@[k]).0 == budget_matches(views(windows@), views(periods@))[k].0
                && matches@[k].1 == budget_matches(views(windows@), views(periods@))[k].1,
        forall|k: int|
            #![trigger matches@[k]]
            0 <= k < matches.len() ==> {
                let (p, b) = matches@[k];
                &&& p < periods.len()
                &&& b < windows.len()
                &&& windows@[b as int]@ == periods@[p as int]@
                &&& forall|j: int| 0 <= j < b ==> windows@[j]@ != periods@[p as int]@
            },
        forall|k: int, l: int| 0 <= k < l < matches.len() ==> (#[trigger] matches@[k]).0 < (#[trigger] matches@[l]).0,
        forall|p: int, j: int|
            0 <= p < periods.len() && 0 <= j < windows.len() && #[trigger] windows@[j]@ == #[trigger] periods@[p]@
                ==> exists|k: int| 0 <= k < matches.len() && (#[trigger] matches@[k]).0 == p,
{
    let mut matches: Vec<(usize, usize)> = Vec::new();
    let mut p: usize = 0;
    while p < periods.len()
        invariant
            p <= periods.len(),
            matches.len() == budget_matches(views(windows@), views(periods@.subrange(0, p as int))).len(),
            forall|k: int|
                0 <= k < matches.len() ==> (#[trigger] matches@[k]).0 == budget_matches(
                    views(windows@),
                    views(periods@.subrange(0, p as int)),
                )[k].0 && matches@[k].1 == budget_matches(
                    views(windows@),
                    views(periods@.subrange(0, p as int)),
                )[k].1,
        decreases periods.len() - p,
    {
        let ghost prefix = views(periods@.subrange(0, p + 1));
        proof {
            assert(prefix.drop_last() =~= views(periods@.subrange(0, p as int)));
            assert(prefix.last() == periods@[p as int]@);
            assert(prefix.len() - 1 == p);
        }
        match position_of(windows, &periods[p]) {
            Some(b) => {
                matches.push((p, b));
            },
            None => {},
        }
        p = p + 1;
    }
    proof {
        assert(periods@.subrange(0, periods.len() as int) =~= periods@);
        let ws = views(windows@);
        let ps = views(periods@);
        let bm = budget_matches(ws, ps);
        lemma_budget_matches(ws, ps);
        assert forall|k: int| #![trigger matches@[k]] 0 <= k < matches.len() implies {
            let (p, b) = matches@[k];
            &&& p < periods.len()
            &&& b < windows.len()
            &&& windows@[b as int]@ == periods@[p as int]@
            &&& forall|j: int| 0 <= j < b ==> windows@[j]@ != periods@[p as int]@
        } by {
            let (p, b) = bm[k];
            assert(ws[b] == ps[p]);
            assert forall|j: int| 0 <= j < matches@[k].1 implies windows@[j]@ != periods@[matches@[k].0 as int]@ by {
                assert(ws[j] != ps[p]);
            }
        }
        assert forall|k: int, l: int| 0 <= k < l < matches.len() implies (#[trigger] matches@[k]).0 < (#[trigger] matches@[l]).0 by {
            assert(bm[k].0 < bm[l].0);
        }
        assert forall|p: int, j: int|
            0 <= p < periods.len() && 0 <= j < windows.len() && #[trigger] windows@[j]@ == #[trigger] periods@[p]@ implies exists|k: int|
            0 <= k < matches.len() && (#[trigger] matches@[k]).0 == p by {
            assert(ws[j] == ps[p]);
            let k = choose|k: int| 0 <= k < bm.len() && (#[trigger] bm[k]).0 == p;
            assert(matches@[k].0 == p);
        }
    }
    matches
}

} // verus!
