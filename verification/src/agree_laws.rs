//! What resolution finds depends on the criteria and on what the store
//! holds, not on the values that hold them.

use crate::claims::{exemption_claims, own_exemptions, ClaimModel};
use crate::commands::{
    audits_suffice, graph_of, lemma_graph_of_same, minimize_outcome, minimized, suffices_with,
    without_exemptions, MinimizeError,
};
use crate::criteria::{universe, CriteriaMapper};
use crate::filter::GraphFilter;
use crate::graph::{graph_wf, Metadata, NodeModel};
use crate::minimize::table_view;
use crate::minimize_laws::{
    lemma_claims_with_exemptions, lemma_minimized_resolves, lemma_nothing_to_exempt,
    lemma_own_exemptions, plain_table,
};
use crate::requirement_laws::{plain_claims, plain_store};
use crate::resolver::{
    all_failures, effective_upto, failures_upto, incoming, node_claims, node_violations,
    required_at,
};
use crate::storage::Store;
use crate::suggest::{DiffProvider, FetchProvider, SuggestItem};
use vstd::prelude::*;

verus! {

/// Two mappers index the same criteria; and the two stores are one store,
/// or two stores without exemptions that hold the same audits, imports and
/// policy.
pub open spec fn agree(
    first: &CriteriaMapper,
    store: &Store,
    second: &CriteriaMapper,
    other: &Store,
) -> bool {
    &&& first.wf()
    &&& second.wf()
    &&& first.model() == second.model()
    &&& *store == *other || (without_exemptions(store, other) && store.config.unaudited@.len()
        == 0)
}

/// The claims and violations about a node are the same.
proof fn lemma_claims_agree(
    first: &CriteriaMapper,
    store: &Store,
    second: &CriteriaMapper,
    other: &Store,
    node: NodeModel,
)
    requires
        agree(first, store, second, other),
    ensures
        node_claims(first, store, node) == node_claims(second, other, node),
        node_violations(first, store, node) == node_violations(second, other, node),
        first.edges() == second.edges(),
        first.count() == second.count(),
{
    let all = first.model();
    let edges = first.edges();
    if node.is_third_party && *store != *other {
        lemma_claims_with_exemptions(all, edges, store, other, node.name);
        lemma_own_exemptions(store, node.name);
        assert(own_exemptions(store, node.name) =~= Seq::empty());
        assert(exemption_claims(all, edges, own_exemptions(store, node.name)) =~= Seq::<
            ClaimModel,
        >::empty());
    }
}

proof fn lemma_effective_agree(
    graph: Seq<NodeModel>,
    first: &CriteriaMapper,
    store: &Store,
    second: &CriteriaMapper,
    other: &Store,
    upto: int,
)
    requires
        agree(first, store, second, other),
    ensures
        effective_upto(graph, first, store, upto) == effective_upto(graph, second, other, upto),
    decreases upto,
{
    if upto > 0 {
        lemma_effective_agree(graph, first, store, second, other, upto - 1);
        lemma_claims_agree(first, store, second, other, graph[upto - 1]);
    }
}

proof fn lemma_required_agree(
    graph: Seq<NodeModel>,
    first: &CriteriaMapper,
    store: &Store,
    second: &CriteriaMapper,
    other: &Store,
    guess_deeper: bool,
    j: int,
)
    requires
        agree(first, store, second, other),
    ensures
        required_at(graph, first, store, guess_deeper, j) == required_at(
            graph,
            second,
            other,
            guess_deeper,
            j,
        ),
    decreases graph.len() - j, graph.len() + 1,
{
    if 0 <= j < graph.len() {
        lemma_claims_agree(first, store, second, other, graph[j]);
        lemma_incoming_agree(graph, first, store, second, other, guess_deeper, j, graph.len() as int);
    }
}

proof fn lemma_incoming_agree(
    graph: Seq<NodeModel>,
    first: &CriteriaMapper,
    store: &Store,
    second: &CriteriaMapper,
    other: &Store,
    guess_deeper: bool,
    j: int,
    upto: int,
)
    requires
        agree(first, store, second, other),
    ensures
        incoming(graph, first, store, guess_deeper, j, upto) == incoming(
            graph,
            second,
            other,
            guess_deeper,
            j,
            upto,
        ),
    decreases graph.len() - j, upto,
{
    if !(j < 0 || upto <= j + 1 || upto > graph.len()) {
        lemma_incoming_agree(graph, first, store, second, other, guess_deeper, j, upto - 1);
        lemma_required_agree(graph, first, store, second, other, guess_deeper, upto - 1);
        lemma_claims_agree(first, store, second, other, graph[upto - 1]);
    }
}

proof fn lemma_failures_agree(
    graph: Seq<NodeModel>,
    first: &CriteriaMapper,
    store: &Store,
    second: &CriteriaMapper,
    other: &Store,
    guess_deeper: bool,
    upto: int,
)
    requires
        agree(first, store, second, other),
    ensures
        failures_upto(graph, first, store, guess_deeper, upto) == failures_upto(
            graph,
            second,
            other,
            guess_deeper,
            upto,
        ),
    decreases upto,
{
    if upto > 0 {
        lemma_failures_agree(graph, first, store, second, other, guess_deeper, upto - 1);
        lemma_effective_agree(graph, first, store, second, other, graph.len() as int);
        lemma_required_agree(graph, first, store, second, other, guess_deeper, upto - 1);
        lemma_claims_agree(first, store, second, other, graph[upto - 1]);
    }
}

/// What fails does not depend on which mapper of the criteria is taken,
/// nor on which of two stores without exemptions that hold the same.
pub proof fn lemma_resolution_agrees(
    graph: Seq<NodeModel>,
    first: &CriteriaMapper,
    store: &Store,
    second: &CriteriaMapper,
    other: &Store,
    guess_deeper: bool,
)
    requires
        agree(first, store, second, other),
    ensures
        all_failures(graph, first, store, guess_deeper) == all_failures(
            graph,
            second,
            other,
            guess_deeper,
        ),
{
    lemma_failures_agree(graph, first, store, second, other, guess_deeper, graph.len() as int);
}

/// Where one resolution of the store without its exemptions finds no
/// failure, audits alone cover every package.
pub proof fn lemma_suffice_once(
    metadata: &Metadata,
    filter_graph: Option<&Vec<GraphFilter>>,
    store: &Store,
    bare: &Store,
    graph: Seq<NodeModel>,
    mapper: &CriteriaMapper,
)
    requires
        without_exemptions(store, bare),
        graph_of(metadata, filter_graph, graph),
        mapper.wf(),
        mapper.model() == universe(store.audits.criteria@),
        all_failures(graph, mapper, bare, true).len() == 0,
    ensures
        audits_suffice(metadata, filter_graph, store),
{
    assert forall|other: Store, found: Seq<NodeModel>, second: CriteriaMapper|
        without_exemptions(store, &other) && graph_of(metadata, filter_graph, found)
            && second.wf() && second.model() == universe(
            store.audits.criteria@,
        ) implies (#[trigger] all_failures(found, &second, &other, true)).len() == 0 by {
        lemma_graph_of_same(metadata, filter_graph, graph, found);
        lemma_resolution_agrees(graph, &second, &other, mapper, bare, true);
    }
}

/// Where audits alone cover every package, regenerating the exemptions
/// succeeds and leaves no exemption.
pub proof fn lemma_outcome_suffices<F: FetchProvider, D: DiffProvider>(
    metadata: &Metadata,
    filter_graph: Option<&Vec<GraphFilter>>,
    before: &Store,
    after: &Store,
    fetcher: &F,
    differ: &D,
    done: Result<(), MinimizeError>,
)
    requires
        minimize_outcome(metadata, filter_graph, before, after, fetcher, differ, done),
    ensures
        forall|bare: Store, graph: Seq<NodeModel>, mapper: CriteriaMapper| #[trigger]
            suffices_with(metadata, filter_graph, before, &bare, graph, &mapper) ==> done is Ok
                && after.config.unaudited@.len() == 0,
{
    assert forall|bare: Store, graph: Seq<NodeModel>, mapper: CriteriaMapper| #[trigger]
        suffices_with(metadata, filter_graph, before, &bare, graph, &mapper) implies done is Ok
        && after.config.unaudited@.len() == 0 by {
        lemma_suffice_once(metadata, filter_graph, before, &bare, graph, &mapper);
        lemma_nothing_to_exempt(metadata, filter_graph, before, after, fetcher, differ, done);
    }
}

/// Regenerating the exemptions makes resolution succeed, whether guesses
/// are made or not: for a store whose audits and old exemptions ask
/// nothing of single dependencies, where the regeneration succeeds, every
/// resolution of the graph against the regenerated store is without a
/// failure.
pub proof fn lemma_minimize_succeeds<F: FetchProvider, D: DiffProvider>(
    metadata: &Metadata,
    filter_graph: Option<&Vec<GraphFilter>>,
    before: &Store,
    after: &Store,
    fetcher: &F,
    differ: &D,
    bare: &Store,
    graph: Seq<NodeModel>,
    mapper: &CriteriaMapper,
    guess_deeper: bool,
)
    requires
        minimize_outcome(metadata, filter_graph, before, after, fetcher, differ, Ok(())),
        without_exemptions(before, bare),
        graph_of(metadata, filter_graph, graph),
        graph_wf(graph),
        graph.len() <= usize::MAX,
        mapper.wf(),
        mapper.model() == universe(before.audits.criteria@),
        plain_store(graph, mapper, bare),
        plain_table(table_view(before.config.unaudited@)),
    ensures
        all_failures(graph, mapper, after, guess_deeper).len() == 0,
{
    let (found_bare, found_graph, found_mapper, items) = choose|
        found_bare: Store,
        found_graph: Seq<NodeModel>,
        found_mapper: CriteriaMapper,
        items: Seq<SuggestItem>,
    |
        minimized(
            before,
            after,
            metadata,
            filter_graph,
            &found_bare,
            found_graph,
            &found_mapper,
            items,
        );
    lemma_graph_of_same(metadata, filter_graph, graph, found_graph);
    assert forall|i: int| 0 <= i < graph.len() && (#[trigger] graph[i]).is_third_party implies plain_claims(
        node_claims(&found_mapper, &found_bare, graph[i]),
    ) by {
        lemma_claims_agree(&found_mapper, &found_bare, mapper, bare, graph[i]);
        assert(plain_claims(node_claims(mapper, bare, graph[i])));
    }
    lemma_minimized_resolves(
        before,
        after,
        metadata,
        filter_graph,
        &found_bare,
        graph,
        &found_mapper,
        items,
        guess_deeper,
    );
    lemma_resolution_agrees(graph, mapper, after, &found_mapper, after, guess_deeper);
}

} // verus!
