//! Laws of the search through the versions of a package.

use crate::claims::ClaimModel;
use crate::coverage::{covers, follows, starts, step_edges};
use crate::reach::{
    has_edge, is_path, lemma_reaches_self, lemma_reaches_step, path_between, reachable_from,
    reaches,
};
use crate::version::VersionModel;
use vstd::prelude::*;

verus! {

/// The steps of the version graph are the pairs of claims of which the
/// second continues the first.
pub proof fn lemma_step_edge(claims: Seq<ClaimModel>, usable: Seq<bool>, j: int, k: int)
    requires
        0 <= j < claims.len(),
    ensures
        has_edge(step_edges(claims, usable), j, k) == (0 <= k < claims.len() && k <= usize::MAX
            && follows(claims, usable, j, k)),
{
    let every = Seq::new(claims.len(), |x: int| x as usize);
    let pred = |x: usize| follows(claims, usable, j, x as int);
    let row = step_edges(claims, usable)[j];
    assert(row == every.filter(pred));
    every.filter_lemma(pred);
    if has_edge(step_edges(claims, usable), j, k) {
        let t = choose|t: int| 0 <= t < row.len() && #[trigger] row[t] == k;
        assert(pred(row[t]));
        assert(row.contains(row[t]));
        every.lemma_filter_contains_rev(pred, row[t]);
        let w = choose|w: int| 0 <= w < every.len() && every[w] == row[t];
        assert(every[w] == w as usize);
    }
    if 0 <= k < claims.len() && k <= usize::MAX && follows(claims, usable, j, k) {
        assert(every[k] == k as usize);
        assert(pred(every[k]));
        assert(row.contains(every[k]));
        let t = choose|t: int| 0 <= t < row.len() && row[t] == every[k];
        assert(row[t] == k);
    }
}

/// A usable claim that starts from nothing covers the version it leads to.
pub proof fn lemma_start_covers(claims: Seq<ClaimModel>, usable: Seq<bool>, k: int)
    requires
        0 <= k < claims.len(),
        usable.len() == claims.len(),
        usable[k],
        claims[k].from is None,
    ensures
        covers(claims, usable, claims[k].to),
{
    let edges = step_edges(claims, usable);
    lemma_reaches_self(edges, k);
    assert(starts(claims, usable)[k]);
    assert(reachable_from(edges, starts(claims, usable), k));
}

/// `more` holds the claims of `claims` at their places, and perhaps
/// further claims behind them; what may be used of `claims` may be used of
/// `more`.
pub open spec fn extends(
    claims: Seq<ClaimModel>,
    usable: Seq<bool>,
    more: Seq<ClaimModel>,
    more_usable: Seq<bool>,
) -> bool {
    &&& claims.len() <= more.len()
    &&& usable.len() == claims.len()
    &&& more_usable.len() == more.len()
    &&& forall|k: int|
        #![trigger more[k]]
        0 <= k < claims.len() ==> more[k].from == claims[k].from && more[k].to == claims[k].to
    &&& forall|k: int| 0 <= k < claims.len() && usable[k] ==> #[trigger] more_usable[k]
}

/// The first `len` claims of a walk through the version graph are reached
/// in the larger graph too.
proof fn lemma_walk_extends(
    claims: Seq<ClaimModel>,
    usable: Seq<bool>,
    more: Seq<ClaimModel>,
    more_usable: Seq<bool>,
    path: Seq<int>,
    len: int,
)
    requires
        extends(claims, usable, more, more_usable),
        is_path(step_edges(claims, usable), path),
        starts(claims, usable)[path[0]],
        1 <= len <= path.len(),
    ensures
        reachable_from(
            step_edges(more, more_usable),
            starts(more, more_usable),
            path[len - 1],
        ),
    decreases len,
{
    let edges = step_edges(claims, usable);
    let wide = step_edges(more, more_usable);
    let first = path[0];
    assert(0 <= first < claims.len());
    assert(more[first].from == claims[first].from);
    assert(more_usable[first]);
    assert(starts(more, more_usable)[first]);
    if len == 1 {
        lemma_reaches_self(wide, first);
    } else {
        lemma_walk_extends(claims, usable, more, more_usable, path, len - 1);
        let u = path[len - 2];
        let v = path[len - 1];
        assert(0 <= u < claims.len());
        assert(0 <= v < claims.len());
        assert(has_edge(edges, u, path[len - 2 + 1]));
        lemma_step_edge(claims, usable, u, v);
        assert(more[u].to == claims[u].to);
        assert(more[v].from == claims[v].from);
        assert(more_usable[u] && more_usable[v]);
        lemma_step_edge(more, more_usable, u, v);
        let s = choose|s: int|
            0 <= s < starts(more, more_usable).len() && starts(more, more_usable)[s]
                && #[trigger] reaches(wide, s, u);
        lemma_reaches_step(wide, s, u, v);
    }
}

/// A version that is covered stays covered where more claims may be used.
pub proof fn lemma_covers_extends(
    claims: Seq<ClaimModel>,
    usable: Seq<bool>,
    more: Seq<ClaimModel>,
    more_usable: Seq<bool>,
    target: VersionModel,
)
    requires
        extends(claims, usable, more, more_usable),
        covers(claims, usable, target),
    ensures
        covers(more, more_usable, target),
{
    let edges = step_edges(claims, usable);
    let first = starts(claims, usable);
    let k = choose|k: int|
        0 <= k < claims.len() && (#[trigger] claims[k]).to == target && reachable_from(
            edges,
            first,
            k,
        );
    let s = choose|s: int| 0 <= s < first.len() && first[s] && #[trigger] reaches(edges, s, k);
    let path = choose|path: Seq<int>| path_between(edges, path, s, k);
    lemma_walk_extends(claims, usable, more, more_usable, path, path.len() as int);
    assert(more[k].to == target);
}

} // verus!
