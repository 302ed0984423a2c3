//! No exemption without need: every regenerated exemption is called for by
//! a suggestion.

use crate::commands::minimized;
use crate::criteria::{
    cleared, lemma_named_minimal, minimal_in, minimal_names, CriteriaMapper, Criterion,
};
use crate::filter::GraphFilter;
use crate::format::ExemptionModel;
use crate::graph::{Metadata, NodeModel};
use crate::minimize::{
    after_entries, after_entry, after_records, fresh_exemption, lemma_record_found, pending_of,
    record_of, regenerated, served, serves, table_view, with_copies, with_entry, with_fresh,
    with_pending, with_record, ExemptionTable, Pending,
};
use crate::resolver::{all_failures, FailureModel};
use crate::storage::Store;
use crate::suggest::{answers, mendable, SuggestItem};
use vstd::prelude::*;

verus! {

/// A suggestion calls for the exemption `entry` of the package `record`:
/// it is for that package and the exemption's version, and it misses the
/// criterion that the exemption is for.
pub open spec fn called_for(
    all: Seq<Criterion>,
    pending: Seq<Pending>,
    record: Seq<char>,
    entry: ExemptionModel,
) -> bool {
    exists|s: int, c: int|
        0 <= s < pending.len() && 0 <= c < all.len() && (#[trigger] pending[s]).name == record
            && pending[s].version == entry.version && pending[s].criteria.contains(c) && (
        #[trigger] all[c]).name == entry.criteria
}

/// Every exemption of the table is called for by a suggestion.
pub open spec fn all_called_for(
    all: Seq<Criterion>,
    pending: Seq<Pending>,
    table: ExemptionTable,
) -> bool {
    forall|r: int, k: int|
        0 <= r < table.len() && 0 <= k < table[r].1.len() ==> called_for(
            all,
            pending,
            table[r].0,
            #[trigger] table[r].1[k],
        )
}

/// What is pending now is part of what was pending at first.
pub open spec fn shrunk(initial: Seq<Pending>, now: Seq<Pending>) -> bool {
    &&& now.len() == initial.len()
    &&& forall|s: int|
        0 <= s < initial.len() ==> (#[trigger] now[s]).name == initial[s].name && now[s].version
            == initial[s].version && now[s].criteria.subset_of(initial[s].criteria)
}

proof fn lemma_entry_called(
    all: Seq<Criterion>,
    pending: Seq<Pending>,
    table: ExemptionTable,
    record: Seq<char>,
    entry: ExemptionModel,
)
    requires
        all_called_for(all, pending, table),
        called_for(all, pending, record, entry),
    ensures
        all_called_for(all, pending, with_entry(table, record, entry)),
{
    let after = with_entry(table, record, entry);
    let at = record_of(table, record, 0);
    if at < table.len() {
        lemma_record_found(table, record, 0);
    }
    assert forall|r: int, k: int| 0 <= r < after.len() && 0 <= k < after[r].1.len() implies called_for(
        all,
        pending,
        after[r].0,
        #[trigger] after[r].1[k],
    ) by {
        if at < table.len() {
            if r == at {
                if k < table[at].1.len() {
                    assert(after[r].1[k] == table[r].1[k]);
                }
            } else {
                assert(after[r] == table[r]);
                assert(after[r].1[k] == table[r].1[k]);
            }
        } else if r < table.len() {
            assert(after[r] == table[r]);
            assert(after[r].1[k] == table[r].1[k]);
        }
    }
}

proof fn lemma_record_called(
    all: Seq<Criterion>,
    pending: Seq<Pending>,
    table: ExemptionTable,
    record: Seq<char>,
)
    requires
        all_called_for(all, pending, table),
    ensures
        all_called_for(all, pending, with_record(table, record)),
{
    let after = with_record(table, record);
    assert forall|r: int, k: int| 0 <= r < after.len() && 0 <= k < after[r].1.len() implies called_for(
        all,
        pending,
        after[r].0,
        #[trigger] after[r].1[k],
    ) by {
        if r < table.len() {
            assert(after[r] == table[r]);
            assert(after[r].1[k] == table[r].1[k]);
        }
    }
}

proof fn lemma_copies_called(
    all: Seq<Criterion>,
    pending: Seq<Pending>,
    table: ExemptionTable,
    record: Seq<char>,
    entry: ExemptionModel,
    count: nat,
)
    requires
        all_called_for(all, pending, table),
        count > 0 ==> called_for(all, pending, record, entry),
    ensures
        all_called_for(all, pending, with_copies(table, record, entry, count)),
    decreases count,
{
    if count > 0 {
        if count > 1 {
            lemma_copies_called(all, pending, table, record, entry, (count - 1) as nat);
        }
        lemma_entry_called(
            all,
            pending,
            with_copies(table, record, entry, (count - 1) as nat),
            record,
            entry,
        );
    }
}

/// An exemption that is counted serves one of the suggestions.
pub proof fn lemma_counted_serves(
    all: Seq<Criterion>,
    edges: Seq<Seq<usize>>,
    pending: Seq<Pending>,
    record: Seq<char>,
    entry: ExemptionModel,
    upto: int,
) -> (s: int)
    requires
        served(all, edges, pending, record, entry, upto) > 0,
    ensures
        0 <= s < upto,
        serves(all, edges, pending[s], record, entry),
    decreases upto,
{
    if serves(all, edges, pending[upto - 1], record, entry) {
        upto - 1
    } else {
        lemma_counted_serves(all, edges, pending, record, entry, upto - 1)
    }
}

/// A name that stands for what a suggestion still misses is the name of a
/// criterion that the suggestion missed at first.
proof fn lemma_name_called(
    all: Seq<Criterion>,
    edges: Seq<Seq<usize>>,
    initial: Seq<Pending>,
    now: Seq<Pending>,
    s: int,
    entry: ExemptionModel,
)
    requires
        shrunk(initial, now),
        0 <= s < now.len(),
        now[s].version == entry.version,
        minimal_names(all, edges, now[s].criteria).contains(entry.criteria),
    ensures
        called_for(all, initial, now[s].name, entry),
{
    let names = minimal_names(all, edges, now[s].criteria);
    let t = choose|t: int| 0 <= t < names.len() && names[t] == entry.criteria;
    lemma_named_minimal(all, edges, now[s].criteria, t);
    let m = choose|m: int|
        0 <= m < all.len() && minimal_in(edges, now[s].criteria, m) && names[t] == (
        #[trigger] all[m]).name;
    assert(now[s].criteria.contains(m));
    assert(initial[s].criteria.contains(m));
    assert(initial[s].name == now[s].name);
}

/// Looking at an old exemption leaves pending only what was pending.
pub proof fn lemma_entry_shrinks(
    all: Seq<Criterion>,
    edges: Seq<Seq<usize>>,
    initial: Seq<Pending>,
    now: Seq<Pending>,
    record: Seq<char>,
    entry: ExemptionModel,
)
    requires
        shrunk(initial, now),
    ensures
        shrunk(initial, after_entry(all, edges, now, record, entry)),
{
    let next = after_entry(all, edges, now, record, entry);
    assert forall|s: int| 0 <= s < initial.len() implies (#[trigger] next[s]).name
        == initial[s].name && next[s].version == initial[s].version && next[s].criteria.subset_of(
        initial[s].criteria,
    ) by {
        assert(now[s].criteria.subset_of(initial[s].criteria));
        assert(cleared(all, edges, now[s].criteria, entry.criteria).subset_of(now[s].criteria));
    }
}

proof fn lemma_entries_called(
    all: Seq<Criterion>,
    edges: Seq<Seq<usize>>,
    initial: Seq<Pending>,
    table: ExemptionTable,
    pending: Seq<Pending>,
    record: Seq<char>,
    entries: Seq<ExemptionModel>,
    upto: int,
)
    requires
        all_called_for(all, initial, table),
        shrunk(initial, pending),
    ensures
        all_called_for(
            all,
            initial,
            after_entries(all, edges, table, pending, record, entries, upto).0,
        ),
        shrunk(initial, after_entries(all, edges, table, pending, record, entries, upto).1),
    decreases upto,
{
    if upto > 0 {
        lemma_entries_called(all, edges, initial, table, pending, record, entries, upto - 1);
        let (t, p) = after_entries(all, edges, table, pending, record, entries, upto - 1);
        let entry = entries[upto - 1];
        let count = served(all, edges, p, record, entry, p.len() as int);
        if count > 0 {
            let s = lemma_counted_serves(all, edges, p, record, entry, p.len() as int);
            lemma_name_called(all, edges, initial, p, s, entry);
        }
        lemma_copies_called(all, initial, t, record, entry, count);
        lemma_record_called(all, initial, with_copies(t, record, entry, count), record);
        lemma_entry_shrinks(all, edges, initial, p, record, entry);
    }
}

proof fn lemma_records_called(
    all: Seq<Criterion>,
    edges: Seq<Seq<usize>>,
    old_table: ExemptionTable,
    pending: Seq<Pending>,
    upto: int,
)
    ensures
        all_called_for(all, pending, after_records(all, edges, old_table, pending, upto).0),
        shrunk(pending, after_records(all, edges, old_table, pending, upto).1),
    decreases upto,
{
    if upto > 0 {
        lemma_records_called(all, edges, old_table, pending, upto - 1);
        let (t, p) = after_records(all, edges, old_table, pending, upto - 1);
        lemma_entries_called(
            all,
            edges,
            pending,
            t,
            p,
            old_table[upto - 1].0,
            old_table[upto - 1].1,
            old_table[upto - 1].1.len() as int,
        );
    }
}

proof fn lemma_fresh_called(
    all: Seq<Criterion>,
    edges: Seq<Seq<usize>>,
    initial: Seq<Pending>,
    left: Seq<Pending>,
    table: ExemptionTable,
    s: int,
    upto: int,
)
    requires
        all_called_for(all, initial, table),
        shrunk(initial, left),
        0 <= s < left.len(),
        upto <= minimal_names(all, edges, left[s].criteria).len(),
    ensures
        all_called_for(
            all,
            initial,
            with_fresh(
                table,
                left[s].name,
                left[s].version,
                minimal_names(all, edges, left[s].criteria),
                upto,
            ),
        ),
    decreases upto,
{
    if upto > 0 {
        let names = minimal_names(all, edges, left[s].criteria);
        lemma_fresh_called(all, edges, initial, left, table, s, upto - 1);
        let entry = fresh_exemption(left[s].version, names[upto - 1]);
        assert(names.contains(entry.criteria));
        lemma_name_called(all, edges, initial, left, s, entry);
        lemma_entry_called(
            all,
            initial,
            with_fresh(table, left[s].name, left[s].version, names, upto - 1),
            left[s].name,
            entry,
        );
    }
}

proof fn lemma_pending_called(
    all: Seq<Criterion>,
    edges: Seq<Seq<usize>>,
    initial: Seq<Pending>,
    left: Seq<Pending>,
    table: ExemptionTable,
    upto: int,
)
    requires
        all_called_for(all, initial, table),
        shrunk(initial, left),
        upto <= left.len(),
    ensures
        all_called_for(all, initial, with_pending(all, edges, table, left, upto)),
    decreases upto,
{
    if upto > 0 {
        lemma_pending_called(all, edges, initial, left, table, upto - 1);
        let names = minimal_names(all, edges, left[upto - 1].criteria);
        lemma_fresh_called(
            all,
            edges,
            initial,
            left,
            with_pending(all, edges, table, left, upto - 1),
            upto - 1,
            names.len() as int,
        );
    }
}

/// Every regenerated exemption is called for by a suggestion: it is for the
/// package and version of one, and for a criterion that it misses. Nothing
/// of the old table stays that no suggestion calls for.
pub proof fn lemma_regenerated_called_for(
    all: Seq<Criterion>,
    edges: Seq<Seq<usize>>,
    old_table: ExemptionTable,
    pending: Seq<Pending>,
)
    ensures
        all_called_for(all, pending, regenerated(all, edges, old_table, pending)),
{
    lemma_records_called(all, edges, old_table, pending, old_table.len() as int);
    let (table, left) = after_records(all, edges, old_table, pending, old_table.len() as int);
    lemma_pending_called(all, edges, pending, left, table, left.len() as int);
}

/// Failure `t` is of the package `record` at the version of `entry`, and
/// criterion `c`, which `entry` is for, is required there and not reached.
pub open spec fn fails_for(
    failures: Seq<FailureModel>,
    all: Seq<Criterion>,
    graph: Seq<NodeModel>,
    record: Seq<char>,
    entry: ExemptionModel,
    t: int,
    c: int,
) -> bool {
    &&& 0 <= t < failures.len()
    &&& 0 <= c < all.len()
    &&& failures[t].node < graph.len()
    &&& graph[failures[t].node as int].name == record
    &&& graph[failures[t].node as int].version == entry.version
    &&& all[c].name == entry.criteria
    &&& failures[t].required.contains(c)
    &&& !failures[t].reached.contains(c)
}

/// The exemption `entry` of the package `record` is needed: resolved
/// against `bare`, guessing deeper, the package fails at the exemption's
/// version for want of audits, and the exemption is for a criterion that
/// is required of it and not reached.
pub open spec fn needed(
    graph: Seq<NodeModel>,
    mapper: &CriteriaMapper,
    bare: &Store,
    record: Seq<char>,
    entry: ExemptionModel,
) -> bool {
    exists|t: int, c: int| #[trigger]
        fails_for(
            mendable(all_failures(graph, mapper, bare, true)),
            mapper.model(),
            graph,
            record,
            entry,
            t,
            c,
        )
}

/// No exemption without need: every exemption of a store whose exemptions
/// were regenerated is for a package of the graph that, resolved against
/// the store without exemptions, fails for want of audits; it is for that
/// package's version, and for a criterion that is required of the package
/// and that its audits do not reach.
pub proof fn lemma_minimized_needed(
    before: &Store,
    after: &Store,
    metadata: &Metadata,
    filter_graph: Option<&Vec<GraphFilter>>,
    bare: &Store,
    graph: Seq<NodeModel>,
    mapper: &CriteriaMapper,
    items: Seq<SuggestItem>,
    r: int,
    k: int,
)
    requires
        minimized(before, after, metadata, filter_graph, bare, graph, mapper, items),
        0 <= r < table_view(after.config.unaudited@).len(),
        0 <= k < table_view(after.config.unaudited@)[r].1.len(),
    ensures
        needed(
            graph,
            mapper,
            bare,
            table_view(after.config.unaudited@)[r].0,
            table_view(after.config.unaudited@)[r].1[k],
        ),
{
    let all = mapper.model();
    let pending = pending_of(graph, items);
    let table = table_view(after.config.unaudited@);
    let failures = mendable(all_failures(graph, mapper, bare, true));
    lemma_regenerated_called_for(all, mapper.edges(), table_view(before.config.unaudited@), pending);
    let entry = table[r].1[k];
    assert(called_for(all, pending, table[r].0, entry));
    let (s, c) = choose|s: int, c: int|
        0 <= s < pending.len() && 0 <= c < all.len() && (#[trigger] pending[s]).name == table[r].0
            && pending[s].version == entry.version && pending[s].criteria.contains(c) && (
        #[trigger] all[c]).name == entry.criteria;
    assert(answers(graph, mapper, bare, true, items[s], failures[s]));
    assert(items[s].suggested_criteria@.contains(c));
    assert(failures[s].required.contains(c) && !failures[s].reached.contains(c));
    assert(fails_for(failures, all, graph, table[r].0, entry, s, c));
}

} // verus!
