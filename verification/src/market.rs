//! Binding citizens to markets: the nearest market is where a citizen
//! shops, the nearest other market is where it works. Distances come in as
//! order keys (integers that order as the distances do), so the choice is
//! made on plain values.

use vstd::prelude::*;

use crate::records::MarketBinding;

verus! {

/// Whether candidate `a` ranks before `b`: it is nearer, or as near with a
/// lower market id.
pub open spec fn ranks_before(a: (u32, i32), b: (u32, i32)) -> bool {
    a.1 < b.1 || (a.1 == b.1 && a.0 < b.0)
}

/// Whether candidate `i` ranks first among the candidates whose market is
/// not `excluded` (all of them when `excluded` is `None`).
pub open spec fn ranks_first(c: Seq<(u32, i32)>, i: int, excluded: Option<u32>) -> bool {
    &&& 0 <= i < c.len()
    &&& excluded != Some(c[i].0)
    &&& forall|j: int| 0 <= j < c.len() && excluded != Some(#[trigger] c[j].0) ==> !ranks_before(c[j], c[i])
}

/// Whether some candidate's market is not `m`.
pub open spec fn has_other(c: Seq<(u32, i32)>, m: u32) -> bool {
    exists|j: int| 0 <= j < c.len() && #[trigger] c[j].0 != m
}

/// The index of the first-ranked candidate not excluded, scanning all.
fn first_ranked(c: &[(u32, i32)], excluded: Option<u32>) -> (r: Option<usize>)
    ensures
        match r {
            Some(i) => ranks_first(c@, i as int, excluded),
            None => forall|j: int| 0 <= j < c@.len() ==> excluded == Some(#[trigger] c@[j].0),
        },
{
    let n = c.len();
    let mut best: Option<usize> = None;
    let mut k: usize = 0;
    while k < n
        invariant
            n == c@.len(),
            k <= n,
            match best {
                Some(i) => i < k && excluded != Some(c@[i as int].0)
                    && forall|j: int| 0 <= j < k && excluded != Some(#[trigger] c@[j].0) ==> !ranks_before(c@[j], c@[i as int]),
                None => forall|j: int| 0 <= j < k ==> excluded == Some(#[trigger] c@[j].0),
            },
        decreases n - k,
    {
        let cand = c[k];
        let skip = match excluded {
            Some(m) => cand.0 == m,
            None => false,
        };
        if !skip {
            match best {
                Some(i) => {
                    let b = c[i];
                    if cand.1 < b.1 || (cand.1 == b.1 && cand.0 < b.0) {
                        best = Some(k);
                    }
                },
                None => {
                    best = Some(k);
                },
            }
        }
        k = k + 1;
    }
    best
}

/// The markets of a citizen ranked against candidates `(market id,
/// distance key)`: home is the first-ranked market (see `ranks_before`),
/// work the first-ranked market other than home, or home again when there is
/// no other. `None` exactly when there is no candidate.
pub fn assign_binding(candidates: &[(u32, i32)]) -> (r: Option<MarketBinding>)
    ensures
        r is None <==> candidates@.len() == 0,
        r matches Some(b) ==> {
            &&& exists|i: int| ranks_first(candidates@, i, None) && #[trigger] candidates@[i].0 == b.home_market
            &&& has_other(candidates@, b.home_market) ==>
                exists|i: int| ranks_first(candidates@, i, Some(b.home_market)) && #[trigger] candidates@[i].0 == b.work_market
            &&& !has_other(candidates@, b.home_market) ==> b.work_market == b.home_market
        },
{
    let h = match first_ranked(candidates, None) {
        Some(h) => h,
        None => {
            assert(candidates@.len() == 0) by {
                if candidates@.len() > 0 {
                    assert(None::<u32> == Some(candidates@[0].0));
                }
            }
            return None;
        },
    };
    let home = candidates[h].0;
    let work = match first_ranked(candidates, Some(home)) {
        Some(w) => candidates[w].0,
        None => {
            assert(!has_other(candidates@, home));
            home
        },
    };
    Some(MarketBinding { home_market: home, work_market: work })
}

/// Whether `(home, work)` is a binding ranked from candidates `c` as
/// `assign_binding` ranks them.
pub open spec fn ranked_binding(c: Seq<(u32, i32)>, home: u32, work: u32) -> bool {
    &&& exists|i: int| ranks_first(c, i, None) && #[trigger] c[i].0 == home
    &&& has_other(c, home) ==> exists|i: int| ranks_first(c, i, Some(home)) && #[trigger] c[i].0 == work
    &&& !has_other(c, home) ==> work == home
}

/// The markets an agent spawns with: those its record carries when its
/// home market is set (not 0, as on a restore or a birth); else the binding
/// ranked from `candidates` (see `assign_binding`), or the record's own
/// when there is no candidate.
pub fn spawn_binding(home_market: u32, work_market: u32, candidates: &[(u32, i32)]) -> (r: (u32, u32))
    ensures
        (home_market != 0 || candidates@.len() == 0) ==> r == (home_market, work_market),
        (home_market == 0 && candidates@.len() > 0) ==> ranked_binding(candidates@, r.0, r.1),
{
    if home_market != 0 {
        return (home_market, work_market);
    }
    match assign_binding(candidates) {
        Some(b) => (b.home_market, b.work_market),
        None => (home_market, work_market),
    }
}

/// The first-ranked market is unique: any two candidates that both rank
/// first (among the same candidates) name the same market.
pub proof fn lemma_first_rank_unique(c: Seq<(u32, i32)>, i: int, k: int, excluded: Option<u32>)
    requires
        ranks_first(c, i, excluded),
        ranks_first(c, k, excluded),
    ensures
        c[i].0 == c[k].0,
{
    assert(!ranks_before(c[k], c[i]));
    assert(!ranks_before(c[i], c[k]));
}

} // verus!
