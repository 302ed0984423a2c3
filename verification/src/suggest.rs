//! Suggestions: for each package whose audits are missing, the review that
//! would close the gap at the least cost.

use crate::claims::{claim_views, Claim, ClaimModel};
use crate::coverage::{covered, covers, eligible, eligible_marks, first_sets, set_views};
use crate::criteria::CriteriaMapper;
use crate::criteria_set::CriteriaSet;
use crate::format::DiffStat;
use crate::graph::{graph_wf, DepGraph, NodeIdx, NodeModel};
use crate::resolver::{
    all_failures, effective_all, failure_views, node_claims, required_at, FailureModel,
    FailureReason, Report,
};
use crate::storage::Store;
use crate::version::{lemma_version_order, version_before, Version, VersionModel};
use vstd::prelude::*;

verus! {

/// A review that could be done: of the whole of version `to`, or of the
/// changes from `from`.
#[derive(Debug)]
pub struct SuggestCandidate {
    pub from: Option<Version>,
    pub to: Version,
}

/// A candidate as a mathematical value.
pub struct CandidateModel {
    pub from: Option<VersionModel>,
    pub to: VersionModel,
}

impl View for SuggestCandidate {
    type V = CandidateModel;

    open spec fn view(&self) -> CandidateModel {
        CandidateModel {
            from: match self.from {
                Some(version) => Some(version@),
                None => None,
            },
            to: self.to@,
        }
    }
}

/// The candidates of a list as mathematical values.
pub open spec fn candidate_views(candidates: Seq<SuggestCandidate>) -> Seq<CandidateModel> {
    Seq::new(candidates.len(), |i: int| candidates[i]@)
}

/// Every missing criterion is covered at `version`: an audit of the changes
/// from `version` would close the gap.
pub open spec fn is_base(
    graph: Seq<NodeModel>,
    effective: Seq<Set<int>>,
    node: NodeModel,
    claims: Seq<ClaimModel>,
    edges: Seq<Seq<usize>>,
    missing: Set<int>,
    version: VersionModel,
) -> bool {
    forall|c: int|
        0 <= c < edges.len() && missing.contains(c) ==> covers(
            claims,
            #[trigger] eligible(graph, effective, node, claims, edges, c),
            version,
        )
}

/// The versions that the first `upto` claims lead to and that are bases,
/// each once, in the order of the claims.
pub open spec fn bases_upto(
    graph: Seq<NodeModel>,
    effective: Seq<Set<int>>,
    node: NodeModel,
    claims: Seq<ClaimModel>,
    edges: Seq<Seq<usize>>,
    missing: Set<int>,
    upto: int,
) -> Seq<VersionModel>
    decreases upto,
{
    if upto <= 0 {
        Seq::empty()
    } else {
        let before = bases_upto(graph, effective, node, claims, edges, missing, upto - 1);
        let version = claims[upto - 1].to;
        if !before.contains(version) && is_base(
            graph,
            effective,
            node,
            claims,
            edges,
            missing,
            version,
        ) {
            before.push(version)
        } else {
            before
        }
    }
}

/// The reviews that would close the gap of a node: one of the whole of its
/// version, then one of the changes from each base.
pub open spec fn candidates_from(bases: Seq<VersionModel>, version: VersionModel) -> Seq<
    CandidateModel,
> {
    seq![CandidateModel { from: None, to: version }] + Seq::new(
        bases.len(),
        |k: int| CandidateModel { from: Some(bases[k]), to: version },
    )
}

/// The criteria that node `i` is required to meet and does not.
pub open spec fn missing_at(
    graph: Seq<NodeModel>,
    mapper: &CriteriaMapper,
    store: &Store,
    guess_deeper: bool,
    i: int,
) -> Set<int> {
    required_at(graph, mapper, store, guess_deeper, i).difference(
        effective_all(graph, mapper, store)[i],
    )
}

/// The reviews that would close the gap of node `i`.
pub open spec fn candidates_of(
    graph: Seq<NodeModel>,
    mapper: &CriteriaMapper,
    store: &Store,
    guess_deeper: bool,
    i: int,
) -> Seq<CandidateModel> {
    let claims = node_claims(mapper, store, graph[i]);
    candidates_from(
        bases_upto(
            graph,
            effective_all(graph, mapper, store).subrange(0, i),
            graph[i],
            claims,
            mapper.edges(),
            missing_at(graph, mapper, store, guess_deeper, i),
            claims.len() as int,
        ),
        graph[i].version,
    )
}

/// The size by which candidates are ranked: an unknown size counts as
/// larger than any known one.
pub open spec fn size_key(size: Option<u64>) -> int {
    match size {
        Some(n) => n as int,
        None => u64::MAX + 1,
    }
}

/// Candidate `a` ranks before candidate `b`: it is smaller; or as large and
/// a review of changes where `b` is a review of a whole version; or as
/// large and a review of the changes from a version that stands before the
/// one that `b` starts from.
pub open spec fn ranks_before(
    sizes: Seq<Option<u64>>,
    candidates: Seq<CandidateModel>,
    a: int,
    b: int,
) -> bool {
    size_key(sizes[a]) < size_key(sizes[b]) || (size_key(sizes[a]) == size_key(sizes[b]) && (
    match (candidates[a].from, candidates[b].from) {
        (Some(_), None) => true,
        (Some(x), Some(y)) => version_before(x, y),
        _ => false,
    }))
}

/// Candidate `best` is the pick: none ranks before it, and it ranks before
/// every candidate that stands before it in the list.
pub open spec fn is_pick(
    sizes: Seq<Option<u64>>,
    candidates: Seq<CandidateModel>,
    best: int,
) -> bool {
    &&& 0 <= best < candidates.len()
    &&& forall|j: int| 0 <= j < candidates.len() ==> !ranks_before(sizes, candidates, j, best)
    &&& forall|j: int| 0 <= j < best ==> ranks_before(sizes, candidates, best, j)
}

/// There is one pick at most.
pub proof fn lemma_pick_unique(
    sizes: Seq<Option<u64>>,
    candidates: Seq<CandidateModel>,
    a: int,
    b: int,
)
    requires
        is_pick(sizes, candidates, a),
        is_pick(sizes, candidates, b),
    ensures
        a == b,
{
    if a < b {
        assert(ranks_before(sizes, candidates, b, a));
    }
    if b < a {
        assert(ranks_before(sizes, candidates, a, b));
    }
}

/// Ranking before is an order: no candidate ranks before itself, none of
/// two before each other, and a candidate that ranks before a second ranks
/// before any third or the third before the second.
pub proof fn lemma_ranking(
    sizes: Seq<Option<u64>>,
    candidates: Seq<CandidateModel>,
    a: int,
    b: int,
    c: int,
)
    ensures
        !ranks_before(sizes, candidates, a, a),
        !(ranks_before(sizes, candidates, a, b) && ranks_before(sizes, candidates, b, a)),
        ranks_before(sizes, candidates, a, c) ==> ranks_before(sizes, candidates, a, b)
            || ranks_before(sizes, candidates, b, c),
{
    match (candidates[a].from, candidates[b].from, candidates[c].from) {
        (Some(x), Some(y), Some(z)) => {
            lemma_version_order(x, y, z);
            lemma_version_order(y, x, z);
            lemma_version_order(x, z, y);
        },
        (Some(x), Some(y), None) => {
            lemma_version_order(x, y, x);
        },
        (Some(x), None, Some(z)) => {
            lemma_version_order(x, z, x);
        },
        (Some(x), None, None) => {
            lemma_version_order(x, x, x);
        },
        _ => {},
    }
}

/// Of two different reviews of the same size, one ranks before the other:
/// by size, kind and version the pick is told from every other candidate.
pub proof fn lemma_ranking_decides(
    sizes: Seq<Option<u64>>,
    candidates: Seq<CandidateModel>,
    a: int,
    b: int,
)
    requires
        candidates[a].from != candidates[b].from,
    ensures
        ranks_before(sizes, candidates, a, b) || ranks_before(sizes, candidates, b, a),
{
    match (candidates[a].from, candidates[b].from) {
        (Some(x), Some(y)) => {
            lemma_version_order(x, y, x);
        },
        _ => {},
    }
}

fn before(
    sizes: &Vec<Option<u64>>,
    candidates: &Vec<SuggestCandidate>,
    a: usize,
    b: usize,
) -> (first: bool)
    requires
        sizes@.len() == candidates@.len(),
        a < candidates@.len(),
        b < candidates@.len(),
    ensures
        first == ranks_before(sizes@, candidate_views(candidates@), a as int, b as int),
{
    assert(candidate_views(candidates@)[a as int] == candidates@[a as int]@);
    assert(candidate_views(candidates@)[b as int] == candidates@[b as int]@);
    let level = match (sizes[a], sizes[b]) {
        (Some(x), Some(y)) => {
            if x < y {
                return true;
            }
            x == y
        },
        (Some(_), None) => {
            return true;
        },
        (None, Some(_)) => false,
        (None, None) => true,
    };
    level && match (&candidates[a].from, &candidates[b].from) {
        (Some(_), None) => true,
        (Some(x), Some(y)) => x.before(y),
        _ => false,
    }
}

/// The candidate to suggest: the smallest; of the same size a review of
/// changes before a review of a whole version, and changes from an earlier
/// version before changes from a later one; among equals the first. There
/// is none where there is no candidate.
pub fn pick_candidate(sizes: &Vec<Option<u64>>, candidates: &Vec<SuggestCandidate>) -> (picked:
    Option<usize>)
    requires
        sizes@.len() == candidates@.len(),
    ensures
        match picked {
            Some(best) => is_pick(sizes@, candidate_views(candidates@), best as int),
            None => candidates@.len() == 0,
        },
{
    if candidates.len() == 0 {
        return None;
    }
    let ghost models = candidate_views(candidates@);
    let mut best: usize = 0;
    let mut k: usize = 1;
    proof {
        lemma_ranking(sizes@, models, 0, 0, 0);
    }
    while k < candidates.len()
        invariant
            1 <= k <= candidates@.len(),
            best < k,
            sizes@.len() == candidates@.len(),
            models == candidate_views(candidates@),
            forall|j: int| 0 <= j < k ==> !ranks_before(sizes@, models, j, best as int),
            forall|j: int| 0 <= j < best ==> ranks_before(sizes@, models, best as int, j),
        decreases candidates@.len() - k,
    {
        let ghost old_best = best as int;
        if before(sizes, candidates, k, best) {
            best = k;
        }
        proof {
            lemma_ranking(sizes@, models, k as int, old_best, k as int);
            assert forall|j: int| 0 <= j < k + 1 implies !ranks_before(
                sizes@,
                models,
                j,
                best as int,
            ) by {
                lemma_ranking(sizes@, models, j, old_best, k as int);
            }
            assert forall|j: int| 0 <= j < best implies ranks_before(
                sizes@,
                models,
                best as int,
                j,
            ) by {
                lemma_ranking(sizes@, models, k as int, j, old_best);
            }
        }
        k += 1;
    }
    Some(best)
}

/// Whether `version` is in `list`.
fn has_version(list: &Vec<Version>, version: &Version) -> (found: bool)
    ensures
        found == Seq::new(list@.len(), |i: int| list@[i]@).contains(version@),
{
    let ghost models = Seq::new(list@.len(), |i: int| list@[i]@);
    let mut k: usize = 0;
    while k < list.len()
        invariant
            k <= list@.len(),
            models == Seq::new(list@.len(), |i: int| list@[i]@),
            forall|j: int| 0 <= j < k ==> models[j] != version@,
        decreases list@.len() - k,
    {
        if list[k].same(version) {
            assert(models[k as int] == version@);
            return true;
        }
        k += 1;
    }
    false
}

/// Whether every missing criterion is covered at `version`.
fn base_at(
    graph: &DepGraph,
    effective: &Vec<CriteriaSet>,
    node: usize,
    claims: &Vec<Claim>,
    mapper: &CriteriaMapper,
    missing: &CriteriaSet,
    version: &Version,
) -> (ok: bool)
    requires
        mapper.wf(),
        node < graph@.len(),
        effective@.len() == node,
        graph_wf(graph@),
    ensures
        ok == is_base(
            graph@,
            set_views(effective@),
            graph@[node as int],
            claim_views(claims@),
            mapper.edges(),
            missing@,
            version@,
        ),
{
    let count = mapper.len();
    assert(mapper.edges().len() == count);
    let mut c: usize = 0;
    while c < count
        invariant
            c <= count,
            count == mapper.count(),
            mapper.wf(),
            node < graph@.len(),
            effective@.len() == node,
            graph_wf(graph@),
            forall|x: int|
                0 <= x < c && missing@.contains(x) ==> covers(
                    claim_views(claims@),
                    #[trigger] eligible(
                        graph@,
                        set_views(effective@),
                        graph@[node as int],
                        claim_views(claims@),
                        mapper.edges(),
                        x,
                    ),
                    version@,
                ),
        decreases count - c,
    {
        if missing.has_criteria(c) {
            let usable = eligible_marks(graph, effective, node, claims, mapper, c);
            if !covered(claims, &usable, version) {
                return false;
            }
        }
        c += 1;
    }
    true
}

/// The bases among the versions that the claims lead to.
fn find_bases(
    graph: &DepGraph,
    effective: &Vec<CriteriaSet>,
    node: usize,
    claims: &Vec<Claim>,
    mapper: &CriteriaMapper,
    missing: &CriteriaSet,
) -> (bases: Vec<Version>)
    requires
        mapper.wf(),
        node < graph@.len(),
        effective@.len() == node,
        graph_wf(graph@),
    ensures
        Seq::new(bases@.len(), |i: int| bases@[i]@) == bases_upto(
            graph@,
            set_views(effective@),
            graph@[node as int],
            claim_views(claims@),
            mapper.edges(),
            missing@,
            claims@.len() as int,
        ),
{
    let mut bases: Vec<Version> = Vec::new();
    let mut k: usize = 0;
    let ghost models = claim_views(claims@);
    assert(Seq::new(bases@.len(), |i: int| bases@[i]@) =~= Seq::<VersionModel>::empty());
    while k < claims.len()
        invariant
            k <= claims@.len(),
            mapper.wf(),
            node < graph@.len(),
            effective@.len() == node,
            graph_wf(graph@),
            models == claim_views(claims@),
            Seq::new(bases@.len(), |i: int| bases@[i]@) == bases_upto(
                graph@,
                set_views(effective@),
                graph@[node as int],
                models,
                mapper.edges(),
                missing@,
                k as int,
            ),
        decreases claims@.len() - k,
    {
        let version = &claims[k].to;
        assert(models[k as int] == claims@[k as int]@);
        let ghost before = Seq::new(bases@.len(), |i: int| bases@[i]@);
        if !has_version(&bases, version) && base_at(
            graph,
            effective,
            node,
            claims,
            mapper,
            missing,
            version,
        ) {
            bases.push(version.clone());
            assert(Seq::new(bases@.len(), |i: int| bases@[i]@) =~= before.push(version@));
        }
        k += 1;
    }
    bases
}

/// The reviews that would close the gap of node `i`: one of the whole of
/// its version, then one of the changes from each version at which every
/// missing criterion is covered.
pub fn candidates_for(
    graph: &DepGraph,
    mapper: &CriteriaMapper,
    store: &Store,
    report: &Report,
    guess_deeper: bool,
    i: usize,
) -> (candidates: Vec<SuggestCandidate>)
    requires
        mapper.wf(),
        graph_wf(graph@),
        i < graph@.len(),
        report.describes(graph@, mapper, store, guess_deeper),
    ensures
        candidate_views(candidates@) == candidates_of(graph@, mapper, store, guess_deeper, i as int),
{
    let node = &graph.nodes[i];
    assert(graph@[i as int] == node@);
    let found = &report.findings;
    let claims = &found.claims[i];
    assert(claim_views(claims@) == node_claims(mapper, store, graph@[i as int]));
    let before = first_sets(&found.effective, i);
    assert(set_views(before@) =~= effective_all(graph@, mapper, store).subrange(0, i as int));
    assert(set_views(found.effective@)[i as int] == found.effective@[i as int]@);
    let mut missing = report.required[i];
    missing.clear_criteria(&found.effective[i]);
    assert(missing@ == missing_at(graph@, mapper, store, guess_deeper, i as int));
    let bases = find_bases(graph, &before, i, claims, mapper, &missing);
    let ghost base_models = Seq::new(bases@.len(), |k: int| bases@[k]@);
    let mut candidates: Vec<SuggestCandidate> = Vec::new();
    candidates.push(SuggestCandidate { from: None, to: node.version.clone() });
    let mut k: usize = 0;
    while k < bases.len()
        invariant
            k <= bases@.len(),
            base_models == Seq::new(bases@.len(), |k: int| bases@[k]@),
            candidates@.len() == k + 1,
            candidate_views(candidates@)[0] == (CandidateModel { from: None, to: node.version@ }),
            forall|j: int|
                0 <= j < k ==> candidate_views(candidates@)[j + 1] == (CandidateModel {
                    from: Some(base_models[j]),
                    to: node.version@,
                }),
        decreases bases@.len() - k,
    {
        let ghost old_views = candidate_views(candidates@);
        let candidate = SuggestCandidate {
            from: Some(bases[k].clone()),
            to: node.version.clone(),
        };
        candidates.push(candidate);
        assert(candidate_views(candidates@) =~= old_views.push(candidate@));
        k += 1;
    }
    assert(candidate_views(candidates@) =~= candidates_from(base_models, node.version@));
    candidates
}

/// The review that is suggested, and its size where that is known.
#[derive(Debug)]
pub struct DiffRecommendation {
    pub from: Option<Version>,
    pub to: Version,
    pub diffstat: Option<DiffStat>,
}

/// One suggestion: the review that would let a package meet the criteria
/// it misses.
#[derive(Debug)]
pub struct SuggestItem {
    pub package: NodeIdx,
    pub suggested_criteria: CriteriaSet,
    pub suggested_diff: DiffRecommendation,
}

/// The sizes of a list of diff statistics; an unknown size where there are
/// no statistics.
pub open spec fn stat_sizes(stats: Seq<Option<DiffStat>>) -> Seq<Option<u64>> {
    Seq::new(
        stats.len(),
        |i: int|
            match stats[i] {
                Some(stat) => Some(stat.count),
                None => None,
            },
    )
}

/// The suggestion proposes candidate `k` with its statistics.
pub open spec fn proposes(
    item: SuggestItem,
    candidates: Seq<CandidateModel>,
    stats: Seq<Option<DiffStat>>,
    k: int,
) -> bool {
    &&& 0 <= k < candidates.len()
    &&& candidates[k] == (CandidateModel {
        from: match item.suggested_diff.from {
            Some(version) => Some(version@),
            None => None,
        },
        to: item.suggested_diff.to@,
    })
    &&& match (item.suggested_diff.diffstat, stats[k]) {
        (Some(a), Some(b)) => a.count == b.count && a.raw@ == b.raw@,
        (None, None) => true,
        _ => false,
    }
}

/// The suggestion for a package that misses `missing`, given the reviews
/// that would close the gap and the statistics of each, where they could be
/// had: the smallest review, one of changes before one of a whole version,
/// changes from an earlier version before changes from a later one.
/// Nothing is suggested where there is no candidate.
pub fn make_suggestion(
    package: NodeIdx,
    missing: CriteriaSet,
    candidates: &Vec<SuggestCandidate>,
    stats: &Vec<Option<DiffStat>>,
) -> (made: Option<SuggestItem>)
    requires
        stats@.len() == candidates@.len(),
    ensures
        made is Some == (candidates@.len() > 0),
        made is Some ==> made->0.package == package && made->0.suggested_criteria == missing
            && exists|best: int|
            is_pick(stat_sizes(stats@), candidate_views(candidates@), best) && proposes(
                made->0,
                candidate_views(candidates@),
                stats@,
                best,
            ),
{
    let mut sizes: Vec<Option<u64>> = Vec::new();
    let mut k: usize = 0;
    while k < stats.len()
        invariant
            k <= stats@.len(),
            sizes@.len() == k,
            forall|j: int| 0 <= j < k ==> (#[trigger] sizes@[j]) == stat_sizes(stats@)[j],
        decreases stats@.len() - k,
    {
        sizes.push(
            match &stats[k] {
                Some(stat) => Some(stat.count),
                None => None,
            },
        );
        k += 1;
    }
    assert(sizes@ =~= stat_sizes(stats@));
    match pick_candidate(&sizes, candidates) {
        Some(best) => {
            let candidate = &candidates[best];
            assert(candidate_views(candidates@)[best as int] == candidate@);
            let item = SuggestItem {
                package,
                suggested_criteria: missing,
                suggested_diff: DiffRecommendation {
                    from: match &candidate.from {
                        Some(version) => Some(version.clone()),
                        None => None,
                    },
                    to: candidate.to.clone(),
                    diffstat: match &stats[best] {
                        Some(stat) => Some(DiffStat { raw: stat.raw.clone(), count: stat.count }),
                        None => None,
                    },
                },
            };
            assert(proposes(item, candidate_views(candidates@), stats@, best as int));
            Some(item)
        },
        None => None,
    }
}

/// Where the source of a version of a package can be had.
pub trait FetchProvider {
    /// The place of the unpacked source of `package` at `version`; nothing
    /// where it cannot be had.
    fn fetch(&self, package: &str, version: &Version) -> Option<String>;
}

/// How much two source trees differ.
pub trait DiffProvider {
    /// The statistics of the changes from the tree at `from`, or from
    /// nothing, to the tree at `to`; nothing where they cannot be had.
    fn diffstat(&self, from: Option<&str>, to: &str) -> Option<DiffStat>;
}

/// The fetcher may answer `path` when asked for `package` at `version`.
pub open spec fn may_fetch<F: FetchProvider>(
    fetcher: &F,
    package: &str,
    version: &Version,
    path: Option<String>,
) -> bool {
    call_ensures(F::fetch, (fetcher, package, version), path)
}

/// The differ may answer `stat` when asked for the changes from the tree at
/// `from`, or from nothing, to the tree at `to`.
pub open spec fn may_diff<D: DiffProvider>(
    differ: &D,
    from: Option<&str>,
    to: &str,
    stat: Option<DiffStat>,
) -> bool {
    call_ensures(D::diffstat, (differ, from, to), stat)
}

/// The differ may answer `stat` when asked for the changes to the tree
/// that was fetched to `to`, from the tree that was fetched to `from` or,
/// for a review of a whole version, from nothing.
pub open spec fn may_compare<D: DiffProvider>(
    differ: &D,
    from: Option<String>,
    to: String,
    stat: Option<DiffStat>,
) -> bool {
    match from {
        Some(base) => exists|old: &str, tree: &str|
            old@ == base@ && tree@ == to@ && #[trigger] may_diff(differ, Some(old), tree, stat),
        None => exists|tree: &str| tree@ == to@ && #[trigger] may_diff(differ, None, tree, stat),
    }
}

/// `stat` is what the providers may give for a candidate: the fetcher is
/// asked for the tree of the version that the review leads to, and, for a
/// review of changes, for the tree of the version that it starts from; the
/// differ is asked to compare the trees. Where a tree cannot be had there
/// are no statistics, and the differ is not asked.
pub open spec fn may_measure<F: FetchProvider, D: DiffProvider>(
    fetcher: &F,
    differ: &D,
    package: &str,
    candidate: &SuggestCandidate,
    stat: Option<DiffStat>,
) -> bool {
    exists|to: Option<String>|
        #[trigger] may_fetch(fetcher, package, &candidate.to, to) && match to {
            None => stat is None,
            Some(target) => match candidate.from {
                None => may_compare(differ, None, target, stat),
                Some(version) => exists|from: Option<String>|
                    #[trigger] may_fetch(fetcher, package, &version, from) && match from {
                        None => stat is None,
                        Some(base) => may_compare(differ, Some(base), target, stat),
                    },
            },
        }
}

/// The statistics of a candidate, as the providers give them.
fn candidate_stat<F: FetchProvider, D: DiffProvider>(
    fetcher: &F,
    differ: &D,
    package: &str,
    candidate: &SuggestCandidate,
) -> (stat: Option<DiffStat>)
    ensures
        may_measure(fetcher, differ, package, candidate, stat),
{
    let target = fetcher.fetch(package, &candidate.to);
    assert(may_fetch(fetcher, package, &candidate.to, target));
    let to = match &target {
        Some(path) => path,
        None => {
            return None;
        },
    };
    match &candidate.from {
        Some(version) => {
            let base = fetcher.fetch(package, version);
            assert(may_fetch(fetcher, package, version, base));
            match &base {
                Some(from) => {
                    let old = from.as_str();
                    let tree = to.as_str();
                    let stat = differ.diffstat(Some(old), tree);
                    assert(may_diff(differ, Some(old), tree, stat));
                    assert(may_compare(differ, base, *to, stat));
                    stat
                },
                None => None,
            }
        },
        None => {
            let tree = to.as_str();
            let stat = differ.diffstat(None, tree);
            assert(may_diff(differ, None, tree, stat));
            assert(may_compare(differ, None, *to, stat));
            stat
        },
    }
}

/// The failures that a review could mend: those for want of audits.
pub open spec fn mendable(failures: Seq<FailureModel>) -> Seq<FailureModel> {
    failures.filter(|f: FailureModel| f.reason is Unreachable)
}

/// The suggestion is one for the failure: for its package and the criteria
/// it misses, and of one of the reviews that would close its gap.
pub open spec fn answers(
    graph: Seq<NodeModel>,
    mapper: &CriteriaMapper,
    store: &Store,
    guess_deeper: bool,
    item: SuggestItem,
    failure: FailureModel,
) -> bool {
    &&& item.package == failure.node
    &&& item.package < graph.len()
    &&& item.suggested_criteria@ == failure.required.difference(failure.reached)
    &&& item.suggested_diff.to@ == graph[failure.node as int].version
    &&& exists|k: int|
        0 <= k < candidates_of(graph, mapper, store, guess_deeper, failure.node as int).len()
            && (#[trigger] candidates_of(
            graph,
            mapper,
            store,
            guess_deeper,
            failure.node as int,
        )[k]) == (CandidateModel {
            from: match item.suggested_diff.from {
                Some(version) => Some(version@),
                None => None,
            },
            to: item.suggested_diff.to@,
        })
}

/// The statistics of every candidate, as the providers give them.
fn measure_all<F: FetchProvider, D: DiffProvider>(
    fetcher: &F,
    differ: &D,
    package: &str,
    candidates: &Vec<SuggestCandidate>,
) -> (stats: Vec<Option<DiffStat>>)
    ensures
        stats@.len() == candidates@.len(),
        forall|k: int|
            0 <= k < candidates@.len() ==> may_measure(
                fetcher,
                differ,
                package,
                &candidates@[k],
                #[trigger] stats@[k],
            ),
{
    let mut stats: Vec<Option<DiffStat>> = Vec::new();
    let mut c: usize = 0;
    while c < candidates.len()
        invariant
            c <= candidates@.len(),
            stats@.len() == c,
            forall|k: int|
                0 <= k < c ==> may_measure(
                    fetcher,
                    differ,
                    package,
                    &candidates@[k],
                    #[trigger] stats@[k],
                ),
        decreases candidates@.len() - c,
    {
        let stat = candidate_stat(fetcher, differ, package, &candidates[c]);
        stats.push(stat);
        c += 1;
    }
    stats
}

/// `stats` holds, for each candidate, statistics that the providers may
/// give for it.
pub open spec fn may_measured<F: FetchProvider, D: DiffProvider>(
    fetcher: &F,
    differ: &D,
    package: &str,
    candidates: Seq<SuggestCandidate>,
    stats: Seq<Option<DiffStat>>,
) -> bool {
    &&& stats.len() == candidates.len()
    &&& forall|k: int|
        0 <= k < candidates.len() ==> may_measure(
            fetcher,
            differ,
            package,
            &candidates[k],
            #[trigger] stats[k],
        )
}

/// The suggestion is the pick among the reviews that would close the gap
/// of its node, by the statistics that the providers may give for each of
/// them: the smallest, a review of changes before a review of a whole
/// version of the same size, changes from an earlier version before
/// changes from a later one.
pub open spec fn picked<F: FetchProvider, D: DiffProvider>(
    graph: Seq<NodeModel>,
    mapper: &CriteriaMapper,
    store: &Store,
    guess_deeper: bool,
    fetcher: &F,
    differ: &D,
    item: SuggestItem,
) -> bool {
    exists|
        package: &str,
        candidates: Seq<SuggestCandidate>,
        stats: Seq<Option<DiffStat>>,
        best: int,
    |
        #![trigger
            proposes(item, candidate_views(candidates), stats, best),
            may_measured(fetcher, differ, package, candidates, stats),
        ]
        package@ == graph[item.package as int].name && candidate_views(candidates)
            == candidates_of(graph, mapper, store, guess_deeper, item.package as int)
            && may_measured(fetcher, differ, package, candidates, stats) && is_pick(
            stat_sizes(stats),
            candidate_views(candidates),
            best,
        ) && proposes(item, candidate_views(candidates), stats, best)
}

/// One suggestion for every failure for want of audits, in the order of the
/// failures. The sizes come from the providers; a candidate whose size
/// cannot be had ranks last.
pub fn compute_suggest<F: FetchProvider, D: DiffProvider>(
    graph: &DepGraph,
    mapper: &CriteriaMapper,
    store: &Store,
    report: &Report,
    guess_deeper: bool,
    fetcher: &F,
    differ: &D,
) -> (items: Vec<SuggestItem>)
    requires
        mapper.wf(),
        graph_wf(graph@),
        report.describes(graph@, mapper, store, guess_deeper),
    ensures
        items@.len() == mendable(all_failures(graph@, mapper, store, guess_deeper)).len(),
        forall|t: int|
            0 <= t < items@.len() ==> answers(
                graph@,
                mapper,
                store,
                guess_deeper,
                #[trigger] items@[t],
                mendable(all_failures(graph@, mapper, store, guess_deeper))[t],
            ),
        forall|t: int|
            0 <= t < items@.len() ==> picked(
                graph@,
                mapper,
                store,
                guess_deeper,
                fetcher,
                differ,
                #[trigger] items@[t],
            ),
{
    let ghost failures = all_failures(graph@, mapper, store, guess_deeper);
    let ghost pred = |f: FailureModel| f.reason is Unreachable;
    let mut items: Vec<SuggestItem> = Vec::new();
    let mut k: usize = 0;
    let n = graph.nodes.len();
    assert(failures.subrange(0, 0).filter(pred) =~= Seq::<FailureModel>::empty()) by {
        reveal(Seq::filter);
    }
    while k < report.failures.len()
        invariant
            k <= report.failures@.len(),
            n == graph@.len(),
            mapper.wf(),
            graph_wf(graph@),
            report.describes(graph@, mapper, store, guess_deeper),
            failures == all_failures(graph@, mapper, store, guess_deeper),
            failures == failure_views(report.failures@),
            pred == |f: FailureModel| f.reason is Unreachable,
            items@.len() == failures.subrange(0, k as int).filter(pred).len(),
            forall|t: int|
                0 <= t < items@.len() ==> answers(
                    graph@,
                    mapper,
                    store,
                    guess_deeper,
                    #[trigger] items@[t],
                    failures.subrange(0, k as int).filter(pred)[t],
                ),
            forall|t: int|
                0 <= t < items@.len() ==> picked(
                    graph@,
                    mapper,
                    store,
                    guess_deeper,
                    fetcher,
                    differ,
                    #[trigger] items@[t],
                ),
        decreases report.failures@.len() - k,
    {
        let failure = &report.failures[k];
        proof {
            let prefix = failures.subrange(0, k as int);
            let next = failures.subrange(0, k + 1);
            assert(next =~= prefix.push(failures[k as int]));
            assert(next.drop_last() =~= prefix);
            reveal(Seq::filter);
            assert(next.filter(pred) == if pred(failures[k as int]) {
                prefix.filter(pred).push(failures[k as int])
            } else {
                prefix.filter(pred)
            });
            assert(failures[k as int] == failure@);
            lemma_failure_node(graph@, mapper, store, guess_deeper, graph@.len() as int, k as int);
        }
        match failure.reason {
            FailureReason::Unreachable => {
                let i = failure.node;
                let candidates = candidates_for(graph, mapper, store, report, guess_deeper, i);
                let name = graph.nodes[i].name.as_str();
                assert(graph@[i as int] == graph.nodes@[i as int]@);
                let stats = measure_all(fetcher, differ, name, &candidates);
                assert(may_measured(fetcher, differ, name, candidates@, stats@));
                let mut missing = failure.required;
                missing.clear_criteria(&failure.reached);
                match make_suggestion(i, missing, &candidates, &stats) {
                    Some(item) => {
                        proof {
                            let best = choose|best: int|
                                is_pick(stat_sizes(stats@), candidate_views(candidates@), best)
                                    && proposes(
                                    item,
                                    candidate_views(candidates@),
                                    stats@,
                                    best,
                                );
                            assert(candidates_of(graph@, mapper, store, guess_deeper, i as int)[best]
                                == candidate_views(candidates@)[best]);
                            assert(candidate_views(candidates@)[best].to
                                == graph@[i as int].version);
                            assert(answers(graph@, mapper, store, guess_deeper, item, failure@));
                            assert(picked(
                                graph@,
                                mapper,
                                store,
                                guess_deeper,
                                fetcher,
                                differ,
                                item,
                            ));
                        }
                        let ghost before = items@;
                        items.push(item);
                        assert forall|t: int| 0 <= t < items@.len() implies picked(
                            graph@,
                            mapper,
                            store,
                            guess_deeper,
                            fetcher,
                            differ,
                            #[trigger] items@[t],
                        ) by {
                            if t < before.len() {
                                assert(items@[t] == before[t]);
                            }
                        }
                    },
                    None => {
                        assert(candidate_views(candidates@).len() > 0);
                    },
                }
            },
            _ => {},
        }
        k += 1;
    }
    assert(failures.subrange(0, k as int) =~= failures);
    items
}

/// Every failure is that of a node of the graph.
pub proof fn lemma_failure_node(
    graph: Seq<NodeModel>,
    mapper: &CriteriaMapper,
    store: &Store,
    guess_deeper: bool,
    upto: int,
    k: int,
)
    requires
        0 <= upto <= graph.len(),
        graph.len() <= usize::MAX,
        0 <= k < crate::resolver::failures_upto(graph, mapper, store, guess_deeper, upto).len(),
    ensures
        crate::resolver::failures_upto(graph, mapper, store, guess_deeper, upto)[k].node < upto,
        crate::resolver::failures_upto(graph, mapper, store, guess_deeper, upto)[k]
            == crate::resolver::failure_of(
            graph,
            mapper,
            store,
            guess_deeper,
            crate::resolver::failures_upto(graph, mapper, store, guess_deeper, upto)[k].node as int,
        ),
    decreases upto,
{
    if upto > 0 {
        let before = crate::resolver::failures_upto(graph, mapper, store, guess_deeper, upto - 1);
        if k < before.len() {
            lemma_failure_node(graph, mapper, store, guess_deeper, upto - 1, k);
        }
    }
}

} // verus!
