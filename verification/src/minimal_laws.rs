//! No exemption too many: what a regenerated exemption alone provides
//! cannot be taken away.

use crate::claims::{exemption_claims, own_exemptions, set_of, ClaimModel};
use crate::commands::{minimized, without_exemptions};
use crate::coverage::{covers, follows, meets, starts, step_edges};
use crate::apart_laws::{apart, lemma_regenerated_apart};
use crate::criteria::{named, CriteriaMapper, Criterion};
use crate::filter::GraphFilter;
use crate::format::ExemptionModel;
use crate::graph::{graph_wf, Metadata, NodeModel};
use crate::minimize::{
    lemma_record_found, lemma_record_missing, lemma_table_single, pending_of, record_of,
    table_view, ExemptionTable,
};
use crate::minimize_laws::{
    lemma_claims_with_exemptions, lemma_effective_is_own, lemma_failure_listed,
    lemma_own_exemptions, lemma_regenerated_plain, lemma_store_plain, plain_table,
};
use crate::needed_laws::{fails_for, lemma_minimized_needed};
use crate::reach::{
    has_edge, is_path, lemma_reaches_self, lemma_reaches_step, path_between, reachable_from,
    reaches,
};
use crate::requirement_laws::{lemma_guess_requires_more, lemma_required_same, plain_store};
use crate::resolver::{
    all_failures, effective_all, failure_of, failures_upto, fails, incoming,
    lemma_effective_stable, node_claims, node_own, required_at, FailureModel,
};
use crate::resolver_laws::lemma_step_edge;
use crate::storage::Store;
use crate::suggest::{answers, mendable, SuggestItem};
use crate::table::single_records;
use crate::version::VersionModel;
use vstd::prelude::*;

verus! {

/// The first `len` claims of a walk through the version graph lie among
/// the first claims, where none of the others may be used.
proof fn lemma_walk_restricts(
    claims: Seq<ClaimModel>,
    more: Seq<ClaimModel>,
    usable: Seq<bool>,
    path: Seq<int>,
    len: int,
)
    requires
        claims.len() <= more.len(),
        usable.len() == more.len(),
        forall|k: int| 0 <= k < claims.len() ==> #[trigger] more[k] == claims[k],
        forall|k: int| claims.len() <= k < more.len() ==> !#[trigger] usable[k],
        is_path(step_edges(more, usable), path),
        starts(more, usable)[path[0]],
        1 <= len <= path.len(),
    ensures
        0 <= path[len - 1] < claims.len(),
        reachable_from(
            step_edges(claims, usable.subrange(0, claims.len() as int)),
            starts(claims, usable.subrange(0, claims.len() as int)),
            path[len - 1],
        ),
    decreases len,
{
    let few = usable.subrange(0, claims.len() as int);
    let edges = step_edges(claims, few);
    let wide = step_edges(more, usable);
    let first = path[0];
    assert(0 <= first < more.len());
    assert(usable[first]);
    assert(more[first] == claims[first]);
    assert(few[first] == usable[first]);
    assert(starts(claims, few)[first]);
    if len == 1 {
        lemma_reaches_self(edges, first);
    } else {
        lemma_walk_restricts(claims, more, usable, path, len - 1);
        let u = path[len - 2];
        let v = path[len - 1];
        assert(0 <= v < more.len());
        assert(has_edge(wide, u, path[len - 2 + 1]));
        lemma_step_edge(more, usable, u, v);
        assert(follows(more, usable, u, v));
        assert(usable[v]);
        assert(more[u] == claims[u]);
        assert(more[v] == claims[v]);
        assert(few[u] == usable[u] && few[v] == usable[v]);
        assert(follows(claims, few, u, v));
        lemma_step_edge(claims, few, u, v);
        let s = choose|s: int|
            0 <= s < starts(claims, few).len() && starts(claims, few)[s] && #[trigger] reaches(
                edges,
                s,
                u,
            );
        lemma_reaches_step(edges, s, u, v);
    }
}

/// Claims that are not made for a criterion add nothing to what the other
/// claims cover for it.
pub proof fn lemma_covers_restricts(
    claims: Seq<ClaimModel>,
    extra: Seq<ClaimModel>,
    c: int,
    target: VersionModel,
)
    requires
        forall|k: int| 0 <= k < extra.len() ==> !(#[trigger] extra[k]).criteria.contains(c),
        covers(claims + extra, meets(claims + extra, c), target),
    ensures
        covers(claims, meets(claims, c), target),
{
    let more = claims + extra;
    let usable = meets(more, c);
    let wide = step_edges(more, usable);
    let first = starts(more, usable);
    let k = choose|k: int|
        0 <= k < more.len() && (#[trigger] more[k]).to == target && reachable_from(wide, first, k);
    let s = choose|s: int| 0 <= s < first.len() && first[s] && #[trigger] reaches(wide, s, k);
    let path = choose|path: Seq<int>| path_between(wide, path, s, k);
    assert forall|j: int| claims.len() <= j < more.len() implies !#[trigger] usable[j] by {
        assert(more[j] == extra[j - claims.len()]);
    }
    lemma_walk_restricts(claims, more, usable, path, path.len() as int);
    assert(usable.subrange(0, claims.len() as int) =~= meets(claims, c));
    assert(more[k] == claims[k]);
}

/// Every failure listed is that of a node that fails.
pub proof fn lemma_listed_fails(
    graph: Seq<NodeModel>,
    mapper: &CriteriaMapper,
    store: &Store,
    guess_deeper: bool,
    upto: int,
    k: int,
)
    requires
        0 <= upto <= graph.len(),
        graph.len() <= usize::MAX,
        0 <= k < failures_upto(graph, mapper, store, guess_deeper, upto).len(),
    ensures
        failures_upto(graph, mapper, store, guess_deeper, upto)[k].node < upto,
        fails(
            graph,
            mapper,
            store,
            guess_deeper,
            failures_upto(graph, mapper, store, guess_deeper, upto)[k].node as int,
        ),
        failures_upto(graph, mapper, store, guess_deeper, upto)[k] == failure_of(
            graph,
            mapper,
            store,
            guess_deeper,
            failures_upto(graph, mapper, store, guess_deeper, upto)[k].node as int,
        ),
    decreases upto,
{
    if upto > 0 {
        let before = failures_upto(graph, mapper, store, guess_deeper, upto - 1);
        if k < before.len() {
            lemma_listed_fails(graph, mapper, store, guess_deeper, upto - 1, k);
        }
    }
}

/// A package from the registry of which a criterion is required that its
/// claims do not cover, whatever its dependencies meet, fails.
pub proof fn lemma_lacking_fails(
    graph: Seq<NodeModel>,
    mapper: &CriteriaMapper,
    store: &Store,
    guess_deeper: bool,
    i: int,
    c: int,
)
    requires
        0 <= i < graph.len(),
        graph[i].is_third_party,
        required_at(graph, mapper, store, guess_deeper, i).contains(c),
        !covers(
            node_claims(mapper, store, graph[i]),
            meets(node_claims(mapper, store, graph[i]), c),
            graph[i].version,
        ),
    ensures
        all_failures(graph, mapper, store, guess_deeper).len() > 0,
{
    if effective_all(graph, mapper, store)[i].contains(c) {
        lemma_effective_is_own(graph, mapper, store, i, c);
        lemma_effective_stable(graph, mapper, store, graph.len() as int, i);
    }
    assert(fails(graph, mapper, store, guess_deeper, i));
    lemma_failure_listed(graph, mapper, store, guess_deeper, graph.len() as int, i);
}

/// What eligible claims cover is among what the node's own claims would
/// cover.
proof fn lemma_effective_within_own(
    graph: Seq<NodeModel>,
    mapper: &CriteriaMapper,
    store: &Store,
    i: int,
)
    requires
        mapper.wf(),
        0 <= i < graph.len(),
    ensures
        effective_all(graph, mapper, store)[i].subset_of(node_own(graph, mapper, store, i)),
{
    let reached = effective_all(graph, mapper, store)[i];
    let claims = node_claims(mapper, store, graph[i]);
    lemma_effective_stable(graph, mapper, store, graph.len() as int, i);
    assert forall|c: int| reached.contains(c) implies node_own(graph, mapper, store, i).contains(
        c,
    ) by {
        lemma_effective_is_own(graph, mapper, store, i, c);
        assert(0 <= c < mapper.edges().len());
        assert(mapper.edges().len() == mapper.count());
        assert(covers(claims, meets(claims, c), graph[i].version));
    }
}

/// Where no node fails without guesses, guesses require nothing more.
proof fn lemma_unguessed_same(
    graph: Seq<NodeModel>,
    mapper: &CriteriaMapper,
    store: &Store,
    j: int,
)
    requires
        mapper.wf(),
        forall|i: int| 0 <= i < graph.len() ==> !fails(graph, mapper, store, false, i),
    ensures
        required_at(graph, mapper, store, false, j) == required_at(graph, mapper, store, true, j),
    decreases graph.len() - j, graph.len() + 1,
{
    if 0 <= j < graph.len() {
        lemma_unguessed_incoming(graph, mapper, store, j, graph.len() as int);
    }
}

proof fn lemma_unguessed_incoming(
    graph: Seq<NodeModel>,
    mapper: &CriteriaMapper,
    store: &Store,
    j: int,
    upto: int,
)
    requires
        mapper.wf(),
        forall|i: int| 0 <= i < graph.len() ==> !fails(graph, mapper, store, false, i),
    ensures
        incoming(graph, mapper, store, false, j, upto) == incoming(
            graph,
            mapper,
            store,
            true,
            j,
            upto,
        ),
    decreases graph.len() - j, upto,
{
    if !(j < 0 || upto <= j + 1 || upto > graph.len()) {
        let i = upto - 1;
        lemma_unguessed_incoming(graph, mapper, store, j, upto - 1);
        lemma_unguessed_same(graph, mapper, store, i);
        if graph[i].is_third_party {
            assert(!fails(graph, mapper, store, false, i));
            lemma_effective_within_own(graph, mapper, store, i);
        }
    }
}

/// Whether anything fails does not depend on guesses: guesses add
/// requirements only below a package that fails already.
pub proof fn lemma_guess_fails_alike(graph: Seq<NodeModel>, mapper: &CriteriaMapper, store: &Store)
    requires
        mapper.wf(),
        graph.len() <= usize::MAX,
    ensures
        (all_failures(graph, mapper, store, false).len() == 0) == (all_failures(
            graph,
            mapper,
            store,
            true,
        ).len() == 0),
{
    let n = graph.len() as int;
    if all_failures(graph, mapper, store, false).len() == 0 {
        assert forall|i: int| 0 <= i < graph.len() implies !fails(
            graph,
            mapper,
            store,
            false,
            i,
        ) by {
            if fails(graph, mapper, store, false, i) {
                lemma_failure_listed(graph, mapper, store, false, n, i);
            }
        }
        if all_failures(graph, mapper, store, true).len() > 0 {
            lemma_listed_fails(graph, mapper, store, true, n, 0);
            let i = all_failures(graph, mapper, store, true)[0].node as int;
            lemma_unguessed_same(graph, mapper, store, i);
            assert(fails(graph, mapper, store, false, i));
        }
    }
    if all_failures(graph, mapper, store, true).len() == 0 {
        if all_failures(graph, mapper, store, false).len() > 0 {
            lemma_listed_fails(graph, mapper, store, false, n, 0);
            let i = all_failures(graph, mapper, store, false)[0].node as int;
            lemma_guess_requires_more(graph, mapper, store, i);
            assert(fails(graph, mapper, store, true, i));
            lemma_failure_listed(graph, mapper, store, true, n, i);
        }
    }
}

/// The table without entry `k` of record `r`.
pub open spec fn without_entry(table: ExemptionTable, r: int, k: int) -> ExemptionTable {
    table.update(r, (table[r].0, table[r].1.remove(k)))
}

/// `fewer` is `store` with exemption `k` of record `r` taken away; `bare`
/// is both without their exemptions.
pub open spec fn one_fewer(store: &Store, fewer: &Store, bare: &Store, r: int, k: int) -> bool {
    &&& without_exemptions(store, bare)
    &&& without_exemptions(fewer, bare)
    &&& 0 <= r < table_view(store.config.unaudited@).len()
    &&& 0 <= k < table_view(store.config.unaudited@)[r].1.len()
    &&& table_view(fewer.config.unaudited@) == without_entry(
        table_view(store.config.unaudited@),
        r,
        k,
    )
}

/// The audits of the package called `name` do not cover criterion `c` at
/// the version of any node of the package, whatever its dependencies meet.
pub open spec fn audits_lack(
    graph: Seq<NodeModel>,
    mapper: &CriteriaMapper,
    bare: &Store,
    name: Seq<char>,
    c: int,
) -> bool {
    forall|i: int|
        0 <= i < graph.len() && (#[trigger] graph[i]).name == name ==> !covers(
            node_claims(mapper, bare, graph[i]),
            meets(node_claims(mapper, bare, graph[i]), c),
            graph[i].version,
        )
}

/// No exemption of the list but exemption `k` is for a criterion that
/// implies criterion `c`.
pub open spec fn others_lack(
    all: Seq<Criterion>,
    edges: Seq<Seq<usize>>,
    entries: Seq<ExemptionModel>,
    k: int,
    c: int,
) -> bool {
    forall|j: int|
        0 <= j < entries.len() && j != k ==> !set_of(
            all,
            edges,
            seq![(#[trigger] entries[j]).criteria],
        ).contains(c)
}

/// Neither the audits of the package nor its other exemptions stand in for
/// exemption `k` of record `r`.
pub open spec fn stands_alone(
    graph: Seq<NodeModel>,
    mapper: &CriteriaMapper,
    bare: &Store,
    table: ExemptionTable,
    r: int,
    k: int,
) -> bool {
    forall|c: int|
        0 <= c < mapper.model().len() && (#[trigger] mapper.model()[c]).name
            == table[r].1[k].criteria ==> audits_lack(graph, mapper, bare, table[r].0, c)
            && others_lack(mapper.model(), mapper.edges(), table[r].1, k, c)
}

/// The record of a name in a table without two records for any name.
proof fn lemma_single_record(table: ExemptionTable, r: int)
    requires
        single_records(table),
        0 <= r < table.len(),
    ensures
        record_of(table, table[r].0, 0) == r,
{
    let at = record_of(table, table[r].0, 0);
    if at >= table.len() {
        lemma_record_missing(table, table[r].0, 0);
        assert(table[r].0 != table[r].0);
    } else {
        lemma_record_found(table, table[r].0, 0);
        if at < r {
            assert(table[at].0 != table[r].0);
        }
        if r < at {
            assert(table[r].0 != table[at].0);
        }
    }
}

/// No exemption too many: an exemption of a store whose exemptions were
/// regenerated cannot be taken away where neither the audits of its
/// package nor the package's other exemptions stand in for it. The store
/// with that exemption fewer fails to resolve, whether guesses are made
/// or not. This holds of stores whose audits and old exemptions ask
/// nothing of single dependencies.
pub proof fn lemma_minimized_minimal(
    before: &Store,
    after: &Store,
    fewer: &Store,
    metadata: &Metadata,
    filter_graph: Option<&Vec<GraphFilter>>,
    bare: &Store,
    graph: Seq<NodeModel>,
    mapper: &CriteriaMapper,
    items: Seq<SuggestItem>,
    r: int,
    k: int,
    guess_deeper: bool,
)
    requires
        minimized(before, after, metadata, filter_graph, bare, graph, mapper, items),
        graph_wf(graph),
        graph.len() <= usize::MAX,
        plain_store(graph, mapper, bare),
        plain_table(table_view(before.config.unaudited@)),
        one_fewer(after, fewer, bare, r, k),
        stands_alone(graph, mapper, bare, table_view(after.config.unaudited@), r, k),
    ensures
        all_failures(graph, mapper, fewer, guess_deeper).len() > 0,
{
    let all = mapper.model();
    let edges = mapper.edges();
    let table = table_view(after.config.unaudited@);
    let less = table_view(fewer.config.unaudited@);
    let name = table[r].0;
    let entry = table[r].1[k];
    lemma_minimized_needed(before, after, metadata, filter_graph, bare, graph, mapper, items, r, k);
    let listed = all_failures(graph, mapper, bare, true);
    let failures = mendable(listed);
    let (t, c) = choose|t: int, c: int| #[trigger] fails_for(failures, all, graph, name, entry, t, c);
    let pred = |f: FailureModel| f.reason is Unreachable;
    listed.filter_lemma(pred);
    assert(failures.contains(failures[t]));
    listed.lemma_filter_contains_rev(pred, failures[t]);
    let w = choose|w: int| 0 <= w < listed.len() && listed[w] == failures[t];
    lemma_listed_fails(graph, mapper, bare, true, graph.len() as int, w);
    let n = failures[t].node as int;
    assert(graph[n].is_third_party);
    assert(required_at(graph, mapper, bare, true, n).contains(c));
    // The store with the exemption fewer requires the same.
    lemma_regenerated_plain(
        all,
        edges,
        table_view(before.config.unaudited@),
        pending_of(graph, items),
    );
    assert forall|a: int, b: int| 0 <= a < less.len() && 0 <= b < less[a].1.len() implies (
    #[trigger] less[a].1[b]).dependency_criteria.len() == 0 by {
        if a == r {
            let from = if b < k {
                b
            } else {
                b + 1
            };
            assert(less[a].1[b] == table[r].1[from]);
        } else {
            assert(less[a].1[b] == table[a].1[b]);
        }
    }
    lemma_store_plain(fewer, bare, graph, mapper);
    lemma_required_same(graph, mapper, fewer, bare, n);
    // Its claims do not cover the criterion.
    lemma_table_single(after.config.unaudited@);
    assert forall|a: int, b: int| 0 <= a < b < less.len() implies (#[trigger] less[a]).0 != (
    #[trigger] less[b]).0 by {
        assert(less[a].0 == table[a].0 && less[b].0 == table[b].0);
    }
    lemma_single_record(less, r);
    lemma_own_exemptions(fewer, name);
    let left = own_exemptions(fewer, name);
    assert(left == table[r].1.remove(k));
    let extra = exemption_claims(all, edges, left);
    assert forall|j: int| 0 <= j < extra.len() implies !(#[trigger] extra[j]).criteria.contains(
        c,
    ) by {
        let from = if j < k {
            j
        } else {
            j + 1
        };
        assert(left[j] == table[r].1[from]);
        assert(!set_of(all, edges, seq![table[r].1[from].criteria]).contains(c));
    }
    lemma_claims_with_exemptions(all, edges, fewer, bare, name);
    let thin = node_claims(mapper, bare, graph[n]);
    if covers(
        node_claims(mapper, fewer, graph[n]),
        meets(node_claims(mapper, fewer, graph[n]), c),
        graph[n].version,
    ) {
        lemma_covers_restricts(thin, extra, c, graph[n].version);
    }
    lemma_lacking_fails(graph, mapper, fewer, true, n, c);
    lemma_guess_fails_alike(graph, mapper, fewer);
}

/// The failures for want of audits among the first `upto` nodes are
/// those of different nodes, in rising order.
proof fn lemma_mendable_rising(
    graph: Seq<NodeModel>,
    mapper: &CriteriaMapper,
    store: &Store,
    upto: int,
)
    requires
        0 <= upto <= graph.len(),
        graph.len() <= usize::MAX,
    ensures
        forall|a: int|
            0 <= a < mendable(failures_upto(graph, mapper, store, true, upto)).len() ==> (
            #[trigger] mendable(failures_upto(graph, mapper, store, true, upto))[a]).node < upto,
        forall|a: int, b: int|
            0 <= a < b < mendable(failures_upto(graph, mapper, store, true, upto)).len() ==> (
            #[trigger] mendable(failures_upto(graph, mapper, store, true, upto))[a]).node < (
            #[trigger] mendable(failures_upto(graph, mapper, store, true, upto))[b]).node,
    decreases upto,
{
    let pred = |f: FailureModel| f.reason is Unreachable;
    if upto == 0 {
        assert(Seq::<FailureModel>::empty().filter(pred) =~= Seq::<FailureModel>::empty()) by {
            reveal(Seq::filter);
        }
    } else {
        lemma_mendable_rising(graph, mapper, store, upto - 1);
        let before = failures_upto(graph, mapper, store, true, upto - 1);
        if fails(graph, mapper, store, true, upto - 1) {
            let last = failure_of(graph, mapper, store, true, upto - 1);
            let next = before.push(last);
            assert(next.drop_last() =~= before);
            reveal(Seq::filter);
            assert(next.filter(pred) == if pred(last) {
                before.filter(pred).push(last)
            } else {
                before.filter(pred)
            });
            assert(last.node == (upto - 1) as usize);
        }
    }
}

/// No two nodes of the graph are of packages of one name.
pub open spec fn one_version_each(graph: Seq<NodeModel>) -> bool {
    forall|i: int, j: int|
        0 <= i < j < graph.len() ==> (#[trigger] graph[i]).name != (#[trigger] graph[j]).name
}

/// No exemption too many, where every package has one version in the
/// graph: an exemption of a store whose exemptions were regenerated cannot
/// be taken away where the audits of its package, whatever its
/// dependencies meet, do not cover the criterion that it is for. The store
/// with that exemption fewer fails to resolve, whether guesses are made or
/// not. This holds of stores whose audits and old exemptions ask nothing
/// of single dependencies.
pub proof fn lemma_minimized_locally_minimal(
    before: &Store,
    after: &Store,
    fewer: &Store,
    metadata: &Metadata,
    filter_graph: Option<&Vec<GraphFilter>>,
    bare: &Store,
    graph: Seq<NodeModel>,
    mapper: &CriteriaMapper,
    items: Seq<SuggestItem>,
    r: int,
    k: int,
    guess_deeper: bool,
)
    requires
        minimized(before, after, metadata, filter_graph, bare, graph, mapper, items),
        graph_wf(graph),
        graph.len() <= usize::MAX,
        one_version_each(graph),
        plain_store(graph, mapper, bare),
        plain_table(table_view(before.config.unaudited@)),
        one_fewer(after, fewer, bare, r, k),
        forall|c: int|
            0 <= c < mapper.model().len() && (#[trigger] mapper.model()[c]).name == table_view(
                after.config.unaudited@,
            )[r].1[k].criteria ==> audits_lack(
                graph,
                mapper,
                bare,
                table_view(after.config.unaudited@)[r].0,
                c,
            ),
    ensures
        all_failures(graph, mapper, fewer, guess_deeper).len() > 0,
{
    let all = mapper.model();
    let edges = mapper.edges();
    let table = table_view(after.config.unaudited@);
    let pending = pending_of(graph, items);
    let failures = mendable(all_failures(graph, mapper, bare, true));
    lemma_mendable_rising(graph, mapper, bare, graph.len() as int);
    assert forall|s: int, t: int| 0 <= s < t < pending.len() implies (#[trigger] pending[s]).name != (
    #[trigger] pending[t]).name by {
        assert(answers(graph, mapper, bare, true, items[s], failures[s]));
        assert(answers(graph, mapper, bare, true, items[t], failures[t]));
        assert(failures[s].node < failures[t].node);
        assert(graph[failures[s].node as int].name != graph[failures[t].node as int].name);
    }
    lemma_regenerated_apart(all, edges, table_view(before.config.unaudited@), pending);
    assert forall|c: int|
        0 <= c < all.len() && (#[trigger] all[c]).name == table[r].1[k].criteria implies others_lack(
        all,
        edges,
        table[r].1,
        k,
        c,
    ) by {
        assert forall|j: int| 0 <= j < table[r].1.len() && j != k implies !set_of(
            all,
            edges,
            seq![(#[trigger] table[r].1[j]).criteria],
        ).contains(c) by {
            let one = seq![table[r].1[j].criteria];
            if set_of(all, edges, one).contains(c) {
                let i = choose|i: int| named(all, one).contains(i) && #[trigger] reaches(edges, i, c);
                let w = choose|w: int| 0 <= w < one.len() && one[w] == all[i].name;
                assert(all[i].name == table[r].1[j].criteria);
                assert(apart(all, edges, table[r].1[j], table[r].1[k]));
            }
        }
    }
    lemma_minimized_minimal(
        before,
        after,
        fewer,
        metadata,
        filter_graph,
        bare,
        graph,
        mapper,
        items,
        r,
        k,
        guess_deeper,
    );
}

} // verus!
