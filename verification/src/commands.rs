//! What the commands decide and change: everything between reading the
//! command line and writing the store.

use crate::claims::exemption_views;
use crate::agree_laws::lemma_outcome_suffices;
use crate::cli::{AddUnauditedArgs, DependencyCriteriaArg, RecordViolationArgs};
use crate::criteria::{known_name, refused, universe, valid_universe, CriteriaMapper};
use crate::filter::GraphFilter;
use crate::format::{
    clone_dependency_criteria, dependency_criteria_view, get_default_criteria, AuditEntry, AuditKind, AuditKindModel,
    AuditModel, AuditsFile, ConfigFile, CriteriaName, DependencyCriteria, ExemptionModel,
    ImportsFile, PackageName, UnauditedDependency, DEFAULT_POLICY_CRITERIA,
    DEFAULT_POLICY_DEV_CRITERIA, SAFE_TO_DEPLOY,
};
use crate::graph::{
    no_graph, unique_packages, DepGraph, GraphError, Metadata, NodeModel, Package, PackageExt,
};
use crate::graph_filter::{filtered, given_filters};
use crate::minimize::{
    fresh_exemption, lemma_table_single, pending_of, push_entry, record_of, regenerate,
    regenerated, table_view, with_entry, ExemptionTable,
};
use crate::resolver::{
    all_failures, failure_views, resolve, FailureModel, FailureReason, Report, ResolveError,
};
use crate::storage::{
    delta_list_differs, deltas_differ, empty_delta, keys_distinct, names_known,
    table_deltas_differ, valid_store, Store,
};
use crate::suggest::{
    answers, compute_suggest, mendable, picked, DiffProvider, FetchProvider, SuggestItem,
};
use crate::table::{
    add_entry, added_entry, distinct_keys, has_key, key_index, lemma_added_model, model_add,
    table_model,
};
use crate::text::{clone_opt, clone_strings, opt_view, str_eq, views};
use crate::validity_laws::{
    lemma_audits_stay_known, lemma_audits_view, lemma_exemptions_stay_known,
    lemma_exemptions_view, lemma_fixed_known, lemma_grouped_known, lemma_names_view,
    lemma_regenerated_known,
};
use crate::version::VersionModel;
use vstd::prelude::*;

verus! {

/// The exemptions of a new store for the first `upto` nodes: one for every
/// package from the registry, for `safe-to-run` where only tests need the
/// package and for `safe-to-deploy` otherwise.
pub open spec fn initial_exemptions(graph: Seq<NodeModel>, upto: int) -> ExemptionTable
    decreases upto,
{
    if upto <= 0 {
        Seq::empty()
    } else {
        let before = initial_exemptions(graph, upto - 1);
        let node = graph[upto - 1];
        if node.is_third_party {
            with_entry(
                before,
                node.name,
                fresh_exemption(
                    node.version,
                    if node.is_dev_only {
                        DEFAULT_POLICY_DEV_CRITERIA@
                    } else {
                        DEFAULT_POLICY_CRITERIA@
                    },
                ),
            )
        } else {
            before
        }
    }
}

/// The exemptions of a new store for the graph.
fn exempt_all(graph: &DepGraph) -> (table: Vec<(PackageName, Vec<UnauditedDependency>)>)
    ensures
        table_view(table@) == initial_exemptions(graph@, graph@.len() as int),
        distinct_keys(table@),
{
    let mut table: Vec<(PackageName, Vec<UnauditedDependency>)> = Vec::new();
    assert(table_view(table@) =~= Seq::empty());
    let mut i: usize = 0;
    while i < graph.nodes.len()
        invariant
            i <= graph.nodes@.len(),
            table_view(table@) == initial_exemptions(graph@, i as int),
            distinct_keys(table@),
        decreases graph.nodes@.len() - i,
    {
        let node = &graph.nodes[i];
        assert(graph@[i as int] == node@);
        if node.is_third_party {
            let criteria = if node.is_dev_only {
                DEFAULT_POLICY_DEV_CRITERIA.to_owned()
            } else {
                DEFAULT_POLICY_CRITERIA.to_owned()
            };
            let dependency_criteria: DependencyCriteria = Vec::new();
            let item = UnauditedDependency {
                version: node.version.clone(),
                criteria,
                dependency_criteria,
                notes: None,
                suggest: true,
            };
            assert(item@.dependency_criteria =~= Seq::empty());
            crate::minimize::push_entry(&mut table, node.name.as_str(), item);
        }
        i += 1;
    }
    table
}

/// The files of a new store for the packages of `metadata`: no audits, no
/// imports, no policy, and an exemption for every package from the
/// registry that the filtered graph holds, with one record for each
/// package name.
pub fn init_files(metadata: &Metadata, filter_graph: Option<&Vec<GraphFilter>>) -> (files: Result<
    (ConfigFile, AuditsFile, ImportsFile),
    GraphError,
>)
    ensures
        match files {
            Ok((config, audits, imports)) => {
                &&& config.default_criteria@ == SAFE_TO_DEPLOY@
                &&& config.imports@.len() == 0
                &&& config.policy@.len() == 0
                &&& audits.criteria@.len() == 0
                &&& audits.audits@.len() == 0
                &&& imports.audits@.len() == 0
                &&& distinct_keys(config.unaudited@)
                &&& exists|graph: Seq<NodeModel>|
                    graph_of(metadata, filter_graph, graph) && table_view(config.unaudited@)
                        == initial_exemptions(graph, graph.len() as int)
            },
            Err(error) => no_graph(metadata.packages@, error),
        },
{
    let graph = match DepGraph::new(metadata, filter_graph) {
        Ok(graph) => graph,
        Err(e) => {
            return Err(e);
        },
    };
    assert(graph_of(metadata, filter_graph, graph@));
    let unaudited = exempt_all(&graph);
    let config = ConfigFile {
        default_criteria: get_default_criteria(),
        imports: Vec::new(),
        unaudited,
        policy: Vec::new(),
    };
    let audits = AuditsFile { criteria: Vec::new(), audits: Vec::new() };
    let imports = ImportsFile { audits: Vec::new() };
    Ok((config, audits, imports))
}

/// `graph` is a graph of the metadata, cut down by the filters where there
/// are any.
pub open spec fn graph_of(
    metadata: &Metadata,
    filter_graph: Option<&Vec<GraphFilter>>,
    graph: Seq<NodeModel>,
) -> bool {
    crate::graph::deps_known(metadata.packages@) && exists|
        order: Seq<usize>,
        position: Seq<usize>,
        whole: Seq<NodeModel>,
    |
        crate::graph::arranged(metadata.packages@, order, position, whole) && graph == filtered(
            whole,
            given_filters(filter_graph),
        )
}

/// The metadata and the filters have one graph.
pub proof fn lemma_graph_of_same(
    metadata: &Metadata,
    filter_graph: Option<&Vec<GraphFilter>>,
    graph: Seq<NodeModel>,
    other: Seq<NodeModel>,
)
    requires
        graph_of(metadata, filter_graph, graph),
        graph_of(metadata, filter_graph, other),
    ensures
        graph == other,
{
    let (order, position, whole) = choose|
        order: Seq<usize>,
        position: Seq<usize>,
        whole: Seq<NodeModel>,
    |
        crate::graph::arranged(metadata.packages@, order, position, whole) && graph == filtered(
            whole,
            given_filters(filter_graph),
        );
    let (other_order, other_position, other_whole) = choose|
        order: Seq<usize>,
        position: Seq<usize>,
        whole: Seq<NodeModel>,
    |
        crate::graph::arranged(metadata.packages@, order, position, whole) && other == filtered(
            whole,
            given_filters(filter_graph),
        );
    crate::graph::lemma_arranged_same(
        metadata.packages@,
        order,
        position,
        whole,
        other_order,
        other_position,
        other_whole,
    );
}

/// Some package from the registry is called `name`.
pub open spec fn is_foreign(packages: Seq<Package>, name: Seq<char>) -> bool {
    exists|i: int|
        0 <= i < packages.len() && (#[trigger] packages[i]).third_party() && packages[i].name@
            == name
}

/// The places of the packages that come from the registry, in their order.
pub fn foreign_packages(metadata: &Metadata) -> (places: Vec<usize>)
    ensures
        places@ == Seq::new(metadata.packages@.len(), |i: int| i as usize).filter(
            |i: usize| metadata.packages@[i as int].third_party(),
        ),
{
    let ghost every = Seq::new(metadata.packages@.len(), |i: int| i as usize);
    let ghost pred = |i: usize| metadata.packages@[i as int].third_party();
    let mut places: Vec<usize> = Vec::new();
    let mut i: usize = 0;
    assert(every.subrange(0, 0).filter(pred) =~= Seq::<usize>::empty()) by {
        reveal(Seq::filter);
    }
    while i < metadata.packages.len()
        invariant
            i <= metadata.packages@.len(),
            every == Seq::new(metadata.packages@.len(), |i: int| i as usize),
            pred == |i: usize| metadata.packages@[i as int].third_party(),
            places@ == every.subrange(0, i as int).filter(pred),
        decreases metadata.packages@.len() - i,
    {
        proof {
            let prefix = every.subrange(0, i as int);
            let next = every.subrange(0, i + 1);
            assert(next =~= prefix.push(i));
            assert(next.drop_last() =~= prefix);
            reveal(Seq::filter);
            assert(next.filter(pred) == if pred(i) {
                prefix.filter(pred).push(i)
            } else {
                prefix.filter(pred)
            });
        }
        if metadata.packages[i].is_third_party() {
            places.push(i);
        }
        i += 1;
    }
    assert(every.subrange(0, i as int) =~= every);
    places
}

/// Whether some package from the registry is called `name`.
pub fn is_foreign_package(metadata: &Metadata, name: &str) -> (found: bool)
    ensures
        found == is_foreign(metadata.packages@, name@),
{
    let mut i: usize = 0;
    while i < metadata.packages.len()
        invariant
            i <= metadata.packages@.len(),
            forall|j: int|
                0 <= j < i ==> !((#[trigger] metadata.packages@[j]).third_party()
                    && metadata.packages@[j].name@ == name@),
        decreases metadata.packages@.len() - i,
    {
        let package = &metadata.packages[i];
        if package.is_third_party() && str_eq(package.name.as_str(), name) {
            return true;
        }
        i += 1;
    }
    false
}

/// Why a command leaves the store as it was.
#[derive(Clone, Copy, Debug, PartialEq, Eq, Structural)]
pub enum CommandError {
    /// The package named is not one of the packages from the registry.
    NotForeign,
}

/// The criteria that a command acts on: those given, or else the store's
/// default alone.
pub open spec fn chosen_criteria(given: Seq<CriteriaName>, default_criteria: Seq<char>) -> Seq<
    Seq<char>,
> {
    if given.len() == 0 {
        seq![default_criteria]
    } else {
        views(given)
    }
}

fn choose_criteria(given: &Vec<CriteriaName>, default_criteria: &String) -> (names: Vec<
    CriteriaName,
>)
    ensures
        views(names@) == chosen_criteria(given@, default_criteria@),
{
    if given.len() == 0 {
        let mut names: Vec<CriteriaName> = Vec::new();
        names.push(default_criteria.clone());
        assert(views(names@) =~= seq![default_criteria@]);
        names
    } else {
        clone_strings(given)
    }
}

/// The dependency criteria that the first `upto` arguments give: for each
/// dependency the criteria named for it, in the order of the arguments.
pub open spec fn grouped(args: Seq<DependencyCriteriaArg>, upto: int) -> Seq<
    (Seq<char>, Seq<Seq<char>>),
>
    decreases upto,
{
    if upto <= 0 {
        Seq::empty()
    } else {
        with_entry(grouped(args, upto - 1), args[upto - 1].dependency@, args[upto - 1].criteria@)
    }
}

/// Adding an entry to a table of names adds it to the table's value.
proof fn lemma_added_names(
    before: Seq<(String, Vec<String>)>,
    after: Seq<(String, Vec<String>)>,
    key: Seq<char>,
    item: String,
)
    requires
        added_entry(before, after, key, item),
    ensures
        dependency_criteria_view(after) == with_entry(dependency_criteria_view(before), key, item@),
{
    let old_view = dependency_criteria_view(before);
    let new_view = dependency_criteria_view(after);
    lemma_record_matches(before, key, 0);
    if has_key(before, key) {
        let at = key_index(before, key);
        assert(0 <= at < before.len() && before[at].0@ == key);
        assert(views(after[at].1@) =~= views(before[at].1@).push(item@));
        let target = old_view.update(at, (key, views(before[at].1@).push(item@)));
        assert(new_view.len() == target.len());
        assert forall|i: int| 0 <= i < new_view.len() implies new_view[i] == target[i] by {
            if i != at {
                assert(after[i] == before[i]);
            }
        }
        assert(new_view =~= target);
    } else {
        assert(views(after[before.len() as int].1@) =~= seq![item@]);
        assert(new_view =~= old_view.push((key, seq![item@])));
    }
}

/// The search for a record in a table's value ends where the first record
/// for the key stands, or at the end where there is none.
proof fn lemma_record_matches(table: Seq<(String, Vec<String>)>, key: Seq<char>, from: int)
    requires
        0 <= from <= table.len(),
        forall|j: int| 0 <= j < from ==> (#[trigger] table[j]).0@ != key,
    ensures
        has_key(table, key) ==> record_of(dependency_criteria_view(table), key, from) == key_index(
            table,
            key,
        ) && 0 <= key_index(table, key) < table.len() && table[key_index(table, key)].0@ == key,
        !has_key(table, key) ==> record_of(dependency_criteria_view(table), key, from)
            == table.len(),
    decreases table.len() - from,
{
    let view = dependency_criteria_view(table);
    if from < table.len() {
        assert(view[from].0 == table[from].0@);
        if table[from].0@ == key {
            crate::table::lemma_key_index(table, key, from);
        } else {
            lemma_record_matches(table, key, from + 1);
        }
    } else {
        if has_key(table, key) {
            let i = choose|i: int| 0 <= i < table.len() && (#[trigger] table[i]).0@ == key;
            assert(table[i].0@ != key);
        }
    }
}

/// The dependency criteria that the arguments of a command give.
pub fn group_dependency_criteria(args: &Vec<DependencyCriteriaArg>) -> (list: DependencyCriteria)
    ensures
        dependency_criteria_view(list@) == grouped(args@, args@.len() as int),
{
    let mut list: DependencyCriteria = Vec::new();
    assert(dependency_criteria_view(list@) =~= Seq::empty());
    let mut i: usize = 0;
    while i < args.len()
        invariant
            i <= args@.len(),
            dependency_criteria_view(list@) == grouped(args@, i as int),
        decreases args@.len() - i,
    {
        let ghost before = list@;
        let item = args[i].criteria.clone();
        add_entry(&mut list, args[i].dependency.as_str(), item);
        proof {
            lemma_added_names(before, list@, args@[i as int].dependency@, item);
        }
        i += 1;
    }
    list
}

/// The value of an audit.
pub open spec fn audit_value() -> spec_fn(AuditEntry) -> AuditModel {
    |audit: AuditEntry| audit@
}

/// The audits of a store as a mathematical value.
pub open spec fn audits_view(table: Seq<(PackageName, Vec<AuditEntry>)>) -> Seq<
    (Seq<char>, Seq<AuditModel>),
> {
    table_model(table, audit_value())
}

/// The table with an audit of `kind` added to the package for each of the
/// first `upto` criteria.
pub open spec fn with_audits(
    table: Seq<(Seq<char>, Seq<AuditModel>)>,
    package: Seq<char>,
    kind: AuditKindModel,
    who: Option<Seq<char>>,
    notes: Option<Seq<char>>,
    criteria: Seq<Seq<char>>,
    upto: int,
) -> Seq<(Seq<char>, Seq<AuditModel>)>
    decreases upto,
{
    if upto <= 0 {
        table
    } else {
        model_add(
            with_audits(table, package, kind, who, notes, criteria, upto - 1),
            package,
            AuditModel { who, notes, criteria: criteria[upto - 1], kind },
        )
    }
}

/// Adds an audit of `kind` to the package for each of `criteria`, in their
/// order. No package gets a second record, and an audit that leads from
/// one version to another leaves the table without an audit from a version
/// to itself.
pub fn add_audits(
    table: &mut Vec<(PackageName, Vec<AuditEntry>)>,
    package: &str,
    kind: &AuditKind,
    criteria: &Vec<CriteriaName>,
    who: &Option<String>,
    notes: &Option<String>,
)
    ensures
        audits_view(final(table)@) == with_audits(
            audits_view(old(table)@),
            package@,
            kind@,
            opt_view(*who),
            opt_view(*notes),
            views(criteria@),
            criteria@.len() as int,
        ),
        distinct_keys(old(table)@) ==> distinct_keys(final(table)@),
        table_deltas_differ(old(table)@) && !empty_delta(kind@) ==> table_deltas_differ(
            final(table)@,
        ),
{
    let ghost start = audits_view(table@);
    let mut k: usize = 0;
    while k < criteria.len()
        invariant
            k <= criteria@.len(),
            audits_view(table@) == with_audits(
                start,
                package@,
                kind@,
                opt_view(*who),
                opt_view(*notes),
                views(criteria@),
                k as int,
            ),
            distinct_keys(old(table)@) ==> distinct_keys(table@),
            table_deltas_differ(old(table)@) && !empty_delta(kind@) ==> table_deltas_differ(table@),
        decreases criteria@.len() - k,
    {
        let entry = AuditEntry {
            kind: kind.clone(),
            criteria: criteria[k].clone(),
            who: clone_opt(who),
            notes: clone_opt(notes),
        };
        let ghost witness = entry;
        let ghost before = table@;
        assert(views(criteria@)[k as int] == criteria@[k as int]@);
        add_entry(table, package, entry);
        proof {
            lemma_added_model(before, table@, audit_value(), package@, witness);
            if table_deltas_differ(before) && !empty_delta(kind@) {
                lemma_added_differs(before, table@, package@, witness);
            }
        }
        k += 1;
    }
}

/// An audit that leads from one version to another, added to a table
/// without an audit from a version to itself, leaves it without one.
proof fn lemma_added_differs(
    before: Seq<(PackageName, Vec<AuditEntry>)>,
    after: Seq<(PackageName, Vec<AuditEntry>)>,
    key: Seq<char>,
    entry: AuditEntry,
)
    requires
        added_entry(before, after, key, entry),
        table_deltas_differ(before),
        !empty_delta(entry.kind@),
    ensures
        table_deltas_differ(after),
{
    assert(delta_list_differs(seq![entry]));
    assert forall|i: int| 0 <= i < after.len() implies delta_list_differs(
        (#[trigger] after[i]).1@,
    ) by {
        if has_key(before, key) {
            let at = key_index(before, key);
            if i == at {
                assert(delta_list_differs(before[i].1@));
                assert forall|j: int| 0 <= j < after[i].1@.len() implies match (
                #[trigger] after[i].1@[j]).kind {
                    AuditKind::Delta { delta, .. } => delta.from@ != delta.to@,
                    _ => true,
                } by {
                    if j < before[i].1@.len() {
                        assert(after[i].1@[j] == before[i].1@[j]);
                    }
                }
            } else {
                assert(after[i] == before[i]);
                assert(delta_list_differs(before[i].1@));
            }
        } else {
            if i < before.len() {
                assert(after[i] == before[i]);
                assert(delta_list_differs(before[i].1@));
            }
        }
    }
}

/// Records that the versions `args.versions` of a package fail each of the
/// criteria given, or else the store's default: one record for each
/// criterion, in the order of the arguments. Only a package from the
/// registry can be named. No table gets a second record for a package, and
/// a valid store stays valid where the criteria given are known.
pub fn record_violation(
    store: &mut Store,
    metadata: &Metadata,
    args: &RecordViolationArgs,
    who: Option<String>,
) -> (done: Result<(), CommandError>)
    ensures
        match done {
            Ok(()) => is_foreign(metadata.packages@, args.package@)
                && final(store).config == old(store).config
                && final(store).imports == old(store).imports
                && final(store).audits.criteria == old(store).audits.criteria
                && audits_view(final(store).audits.audits@) == with_audits(
                audits_view(old(store).audits.audits@),
                args.package@,
                AuditKindModel::Violation { violation: args.versions@ },
                opt_view(who),
                opt_view(args.notes),
                chosen_criteria(args.criteria@, old(store).config.default_criteria@),
                chosen_criteria(args.criteria@, old(store).config.default_criteria@).len() as int,
            ),
            Err(CommandError::NotForeign) => !is_foreign(metadata.packages@, args.package@)
                && *final(store) == *old(store),
        },
        keys_distinct(old(store)) ==> keys_distinct(final(store)),
        deltas_differ(old(store)) ==> deltas_differ(final(store)),
        valid_store(old(store)) && names_known(
            universe(old(store).audits.criteria@),
            args.criteria@,
        ) ==> valid_store(final(store)),
{
    if !is_foreign_package(metadata, args.package.as_str()) {
        return Err(CommandError::NotForeign);
    }
    let kind = AuditKind::Violation { violation: args.versions.clone() };
    let criteria = choose_criteria(&args.criteria, &store.config.default_criteria);
    add_audits(&mut store.audits.audits, args.package.as_str(), &kind, &criteria, &who, &args.notes);
    proof {
        let all = universe(old(store).audits.criteria@);
        if valid_store(old(store)) && names_known(all, args.criteria@) {
            lemma_names_view(all, args.criteria@);
            lemma_audits_view(all, old(store).audits.audits@);
            lemma_audits_stay_known(
                all,
                audits_view(old(store).audits.audits@),
                args.package@,
                kind@,
                opt_view(who),
                opt_view(args.notes),
                views(criteria@),
                criteria@.len() as int,
            );
            lemma_audits_view(all, store.audits.audits@);
        }
    }
    Ok(())
}

/// The table with an exemption of `version` added to the package for each
/// of the first `upto` criteria.
pub open spec fn with_exemptions(
    table: ExemptionTable,
    package: Seq<char>,
    version: VersionModel,
    dependency_criteria: Seq<(Seq<char>, Seq<Seq<char>>)>,
    notes: Option<Seq<char>>,
    suggest: bool,
    criteria: Seq<Seq<char>>,
    upto: int,
) -> ExemptionTable
    decreases upto,
{
    if upto <= 0 {
        table
    } else {
        with_entry(
            with_exemptions(
                table,
                package,
                version,
                dependency_criteria,
                notes,
                suggest,
                criteria,
                upto - 1,
            ),
            package,
            ExemptionModel {
                version,
                criteria: criteria[upto - 1],
                dependency_criteria,
                notes,
                suggest,
            },
        )
    }
}

/// Adds an exemption for a version of a package for each of the criteria
/// given, or else the store's default: one exemption for each criterion, in
/// the order of the arguments. Only a package from the registry can be
/// named. No table gets a second record for a package, and a valid store
/// stays valid where the criteria given are known.
pub fn add_unaudited(store: &mut Store, metadata: &Metadata, args: &AddUnauditedArgs) -> (done:
    Result<(), CommandError>)
    ensures
        match done {
            Ok(()) => is_foreign(metadata.packages@, args.package@)
                && final(store).audits == old(store).audits
                && final(store).imports == old(store).imports
                && final(store).config.default_criteria == old(store).config.default_criteria
                && final(store).config.imports == old(store).config.imports
                && final(store).config.policy == old(store).config.policy
                && table_view(final(store).config.unaudited@) == with_exemptions(
                table_view(old(store).config.unaudited@),
                args.package@,
                args.version@,
                grouped(args.dependency_criteria@, args.dependency_criteria@.len() as int),
                opt_view(args.notes),
                !args.no_suggest,
                chosen_criteria(args.criteria@, old(store).config.default_criteria@),
                chosen_criteria(args.criteria@, old(store).config.default_criteria@).len() as int,
            ),
            Err(CommandError::NotForeign) => !is_foreign(metadata.packages@, args.package@)
                && *final(store) == *old(store),
        },
        keys_distinct(old(store)) ==> keys_distinct(final(store)),
        deltas_differ(old(store)) ==> deltas_differ(final(store)),
        valid_store(old(store)) && names_known(
            universe(old(store).audits.criteria@),
            args.criteria@,
        ) && (forall|i: int|
            0 <= i < args.dependency_criteria@.len() ==> known_name(
                universe(old(store).audits.criteria@),
                (#[trigger] args.dependency_criteria@[i]).criteria@,
            )) ==> valid_store(final(store)),
{
    if !is_foreign_package(metadata, args.package.as_str()) {
        return Err(CommandError::NotForeign);
    }
    let criteria = choose_criteria(&args.criteria, &store.config.default_criteria);
    let dependency_criteria = group_dependency_criteria(&args.dependency_criteria);
    proof {
        let all = universe(old(store).audits.criteria@);
        if valid_store(old(store)) && names_known(all, args.criteria@) && (forall|i: int|
            0 <= i < args.dependency_criteria@.len() ==> known_name(
                all,
                (#[trigger] args.dependency_criteria@[i]).criteria@,
            )) {
            lemma_names_view(all, args.criteria@);
            lemma_grouped_known(
                all,
                args.dependency_criteria@,
                args.dependency_criteria@.len() as int,
            );
            lemma_exemptions_view(all, old(store).config.unaudited@);
            lemma_exemptions_stay_known(
                all,
                table_view(old(store).config.unaudited@),
                args.package@,
                args.version@,
                dependency_criteria_view(dependency_criteria@),
                opt_view(args.notes),
                !args.no_suggest,
                views(criteria@),
                criteria@.len() as int,
            );
        }
    }
    let ghost start = table_view(store.config.unaudited@);
    let mut k: usize = 0;
    while k < criteria.len()
        invariant
            k <= criteria@.len(),
            store.audits == old(store).audits,
            store.imports == old(store).imports,
            store.config.default_criteria == old(store).config.default_criteria,
            store.config.imports == old(store).config.imports,
            store.config.policy == old(store).config.policy,
            distinct_keys(old(store).config.unaudited@) ==> distinct_keys(store.config.unaudited@),
            dependency_criteria_view(dependency_criteria@) == grouped(
                args.dependency_criteria@,
                args.dependency_criteria@.len() as int,
            ),
            table_view(store.config.unaudited@) == with_exemptions(
                start,
                args.package@,
                args.version@,
                dependency_criteria_view(dependency_criteria@),
                opt_view(args.notes),
                !args.no_suggest,
                views(criteria@),
                k as int,
            ),
        decreases criteria@.len() - k,
    {
        let entry = UnauditedDependency {
            criteria: criteria[k].clone(),
            notes: clone_opt(&args.notes),
            version: args.version.clone(),
            dependency_criteria: clone_dependency_criteria(&dependency_criteria),
            suggest: !args.no_suggest,
        };
        assert(views(criteria@)[k as int] == criteria@[k as int]@);
        push_entry(&mut store.config.unaudited, args.package.as_str(), entry);
        k += 1;
    }
    proof {
        lemma_exemptions_view(universe(old(store).audits.criteria@), store.config.unaudited@);
    }
    Ok(())
}

/// The exemptions that are not open to suggestions.
pub open spec fn fixed_only(entries: Seq<ExemptionModel>) -> Seq<ExemptionModel> {
    entries.filter(|e: ExemptionModel| !e.suggest)
}

/// The table with only the exemptions that are not open to suggestions;
/// every package keeps its record.
pub open spec fn without_suggestible(table: ExemptionTable) -> ExemptionTable {
    Seq::new(table.len(), |i: int| (table[i].0, fixed_only(table[i].1)))
}

fn keep_fixed(entries: &Vec<UnauditedDependency>) -> (kept: Vec<UnauditedDependency>)
    ensures
        exemption_views(kept@) == fixed_only(exemption_views(entries@)),
{
    let ghost models = exemption_views(entries@);
    let ghost pred = |e: ExemptionModel| !e.suggest;
    let mut kept: Vec<UnauditedDependency> = Vec::new();
    let mut i: usize = 0;
    assert(models.subrange(0, 0).filter(pred) =~= Seq::<ExemptionModel>::empty()) by {
        reveal(Seq::filter);
    }
    assert(exemption_views(kept@) =~= Seq::<ExemptionModel>::empty());
    while i < entries.len()
        invariant
            i <= entries@.len(),
            models == exemption_views(entries@),
            pred == |e: ExemptionModel| !e.suggest,
            exemption_views(kept@) == models.subrange(0, i as int).filter(pred),
        decreases entries@.len() - i,
    {
        proof {
            let prefix = models.subrange(0, i as int);
            let next = models.subrange(0, i + 1);
            assert(next =~= prefix.push(models[i as int]));
            assert(next.drop_last() =~= prefix);
            reveal(Seq::filter);
            assert(next.filter(pred) == if pred(models[i as int]) {
                prefix.filter(pred).push(models[i as int])
            } else {
                prefix.filter(pred)
            });
            assert(models[i as int] == entries@[i as int]@);
        }
        if !entries[i].suggest {
            let ghost before = exemption_views(kept@);
            let copy = entries[i].clone();
            kept.push(copy);
            assert(exemption_views(kept@) =~= before.push(copy@));
        }
        i += 1;
    }
    assert(models.subrange(0, i as int) =~= models);
    kept
}

/// Drops every exemption that is open to suggestions, so that a check of
/// the store shows what would have to be audited without them. Every
/// package keeps its one record, and a valid store stays valid.
pub fn strip_suggestible(store: &mut Store)
    ensures
        keys_distinct(old(store)) ==> keys_distinct(final(store)),
        deltas_differ(old(store)) ==> deltas_differ(final(store)),
        valid_store(old(store)) ==> valid_store(final(store)),
        table_view(final(store).config.unaudited@) == without_suggestible(
            table_view(old(store).config.unaudited@),
        ),
        final(store).audits == old(store).audits,
        final(store).imports == old(store).imports,
        final(store).config.default_criteria == old(store).config.default_criteria,
        final(store).config.imports == old(store).config.imports,
        final(store).config.policy == old(store).config.policy,
{
    let mut table: Vec<(PackageName, Vec<UnauditedDependency>)> = Vec::new();
    let ghost old_view = table_view(store.config.unaudited@);
    let mut i: usize = 0;
    while i < store.config.unaudited.len()
        invariant
            i <= store.config.unaudited@.len(),
            *store == *old(store),
            old_view == table_view(store.config.unaudited@),
            table@.len() == i,
            forall|j: int|
                0 <= j < i ==> (#[trigger] table_view(table@)[j]) == (
                    old_view[j].0,
                    fixed_only(old_view[j].1),
                ),
        decreases store.config.unaudited@.len() - i,
    {
        let record = &store.config.unaudited[i];
        let ghost before = table_view(table@);
        assert(old_view[i as int] == (record.0@, exemption_views(record.1@)));
        let kept = keep_fixed(&record.1);
        let name = record.0.clone();
        table.push((name, kept));
        assert(table_view(table@) =~= before.push((old_view[i as int].0, fixed_only(old_view[i as int].1))));
        i += 1;
    }
    assert(table_view(table@) =~= without_suggestible(old_view));
    proof {
        let all = universe(store.audits.criteria@);
        lemma_exemptions_view(all, store.config.unaudited@);
        lemma_exemptions_view(all, table@);
        if valid_store(old(store)) {
            lemma_fixed_known(all, old_view);
        }
        lemma_table_single(table@);
        lemma_table_single(store.config.unaudited@);
        if distinct_keys(store.config.unaudited@) {
            assert forall|a: int, b: int| 0 <= a < b < table@.len() implies (#[trigger] table_view(
                table@,
            )[a]).0 != (#[trigger] table_view(table@)[b]).0 by {
                assert(old_view[a].0 != old_view[b].0);
            }
        }
    }
    store.config.unaudited = table;
}

/// Why the exemptions were not regenerated.
#[derive(Clone, Copy, Debug, PartialEq, Eq, Structural)]
pub enum MinimizeError {
    /// There was nothing to resolve.
    Resolve(ResolveError),
    /// A violation stands against a package of the graph: no exemption can
    /// mend that.
    Violation,
}

/// `bare` is `store` without its exemptions.
pub open spec fn without_exemptions(store: &Store, bare: &Store) -> bool {
    &&& bare.audits == store.audits
    &&& bare.imports == store.imports
    &&& bare.config.default_criteria == store.config.default_criteria
    &&& bare.config.imports == store.config.imports
    &&& bare.config.policy == store.config.policy
    &&& bare.config.unaudited@.len() == 0
}

/// Some failure is for a violation.
pub open spec fn has_violation(failures: Seq<FailureModel>) -> bool {
    exists|k: int| 0 <= k < failures.len() && (#[trigger] failures[k]).reason is Violation
}

/// `after` holds the exemptions that the suggestions `items` call for, made
/// for the store `before` without its exemptions, with the old exemptions
/// kept where they still serve; nothing else of the store has changed.
pub open spec fn minimized(
    before: &Store,
    after: &Store,
    metadata: &Metadata,
    filter_graph: Option<&Vec<GraphFilter>>,
    bare: &Store,
    graph: Seq<NodeModel>,
    mapper: &CriteriaMapper,
    items: Seq<SuggestItem>,
) -> bool {
    &&& without_exemptions(before, bare)
    &&& without_exemptions(after, bare)
    &&& mapper.wf()
    &&& mapper.model() == universe(before.audits.criteria@)
    &&& graph_of(metadata, filter_graph, graph)
    &&& !has_violation(all_failures(graph, mapper, bare, true))
    &&& items.len() == mendable(all_failures(graph, mapper, bare, true)).len()
    &&& forall|t: int|
        0 <= t < items.len() ==> answers(
            graph,
            mapper,
            bare,
            true,
            #[trigger] items[t],
            mendable(all_failures(graph, mapper, bare, true))[t],
        )
    &&& table_view(after.config.unaudited@) == regenerated(
        mapper.model(),
        mapper.edges(),
        table_view(before.config.unaudited@),
        pending_of(graph, items),
    )
    &&& distinct_keys(after.config.unaudited@)
}

fn any_violation(report: &Report) -> (found: bool)
    ensures
        found == has_violation(failure_views(report.failures@)),
{
    let ghost failures = failure_views(report.failures@);
    let mut k: usize = 0;
    while k < report.failures.len()
        invariant
            k <= report.failures@.len(),
            failures == failure_views(report.failures@),
            forall|j: int| 0 <= j < k ==> !((#[trigger] failures[j]).reason is Violation),
        decreases report.failures@.len() - k,
    {
        assert(failures[k as int] == report.failures@[k as int]@);
        match report.failures[k].reason {
            FailureReason::Violation { .. } => {
                return true;
            },
            _ => {},
        }
        k += 1;
    }
    false
}

/// What regenerating the exemptions of `before` gives: `after` with the
/// regenerated exemptions; or `before` left as it was, where there is
/// nothing to resolve or a violation stands against a package.
pub open spec fn minimize_outcome<F: FetchProvider, D: DiffProvider>(
    metadata: &Metadata,
    filter_graph: Option<&Vec<GraphFilter>>,
    before: &Store,
    after: &Store,
    fetcher: &F,
    differ: &D,
    done: Result<(), MinimizeError>,
) -> bool {
    match done {
        Ok(()) => exists|
            bare: Store,
            graph: Seq<NodeModel>,
            mapper: CriteriaMapper,
            items: Seq<SuggestItem>,
        |
            minimized(
                before,
                after,
                metadata,
                filter_graph,
                &bare,
                graph,
                &mapper,
                items,
            ) && forall|t: int|
                0 <= t < items.len() ==> picked(
                    graph,
                    &mapper,
                    &bare,
                    true,
                    fetcher,
                    differ,
                    #[trigger] items[t],
                ),
        Err(MinimizeError::Resolve(ResolveError::Criteria(error))) => *after == *before
            && refused(universe(before.audits.criteria@), error) && !valid_universe(
            universe(before.audits.criteria@),
        ),
        Err(MinimizeError::Resolve(ResolveError::Graph(error))) => *after == *before
            && valid_universe(universe(before.audits.criteria@)) && no_graph(
            metadata.packages@,
            error,
        ) && forall|graph: Seq<NodeModel>| !graph_is(metadata, filter_graph, graph),
        Err(MinimizeError::Violation) => *after == *before && exists|
            bare: Store,
            graph: Seq<NodeModel>,
            mapper: CriteriaMapper,
        |
            without_exemptions(before, &bare) && mapper.wf() && mapper.model() == universe(
                before.audits.criteria@,
            ) && graph_of(metadata, filter_graph, graph) && has_violation(
                all_failures(graph, &mapper, &bare, true),
            ),
    }
}

/// Audits alone cover every package: resolved against the store without
/// its exemptions, guessing deeper, no graph of the metadata has a failure.
pub open spec fn audits_suffice(
    metadata: &Metadata,
    filter_graph: Option<&Vec<GraphFilter>>,
    store: &Store,
) -> bool {
    forall|bare: Store, graph: Seq<NodeModel>, mapper: CriteriaMapper|
        without_exemptions(store, &bare) && graph_of(metadata, filter_graph, graph) && mapper.wf()
            && mapper.model() == universe(store.audits.criteria@) ==> (#[trigger] all_failures(
            graph,
            &mapper,
            &bare,
            true,
        )).len() == 0
}

/// Resolved against `bare`, which is `store` without its exemptions, and
/// guessing deeper, the graph of the metadata has no failure: audits alone
/// cover every package.
pub open spec fn suffices_with(
    metadata: &Metadata,
    filter_graph: Option<&Vec<GraphFilter>>,
    store: &Store,
    bare: &Store,
    graph: Seq<NodeModel>,
    mapper: &CriteriaMapper,
) -> bool {
    &&& without_exemptions(store, bare)
    &&& graph_is(metadata, filter_graph, graph)
    &&& mapper.wf()
    &&& mapper.model() == universe(store.audits.criteria@)
    &&& all_failures(graph, mapper, bare, true).len() == 0
}

/// Regenerates the exemptions of the store: resolves the graph against the
/// store without its exemptions, guessing deeper, and puts an exemption in
/// place of every suggestion, keeping the old exemptions that still serve.
/// Where there is nothing to resolve, or a violation stands against a
/// package, the store is left as it was. No package has two records in the
/// new exemptions; the other tables are not touched, and a valid store
/// stays valid. Where audits alone cover every package, the regeneration
/// succeeds and leaves no exemption.
pub fn minimize_unaudited<F: FetchProvider, D: DiffProvider>(
    metadata: &Metadata,
    filter_graph: Option<&Vec<GraphFilter>>,
    store: &mut Store,
    fetcher: &F,
    differ: &D,
) -> (done: Result<(), MinimizeError>)
    ensures
        minimize_outcome(metadata, filter_graph, old(store), final(store), fetcher, differ, done),
        final(store).audits == old(store).audits,
        final(store).imports == old(store).imports,
        final(store).config.default_criteria == old(store).config.default_criteria,
        final(store).config.imports == old(store).config.imports,
        final(store).config.policy == old(store).config.policy,
        valid_store(old(store)) ==> valid_store(final(store)),
        forall|bare: Store, graph: Seq<NodeModel>, mapper: CriteriaMapper| #[trigger]
            suffices_with(metadata, filter_graph, old(store), &bare, graph, &mapper) ==> done is Ok
                && final(store).config.unaudited@.len() == 0,
{
    let ghost all = universe(store.audits.criteria@);
    let ghost old_view = table_view(store.config.unaudited@);
    proof {
        lemma_exemptions_view(all, store.config.unaudited@);
    }
    let mut old_table: Vec<(PackageName, Vec<UnauditedDependency>)> = Vec::new();
    core::mem::swap(&mut store.config.unaudited, &mut old_table);
    let ghost bare = *store;
    assert(without_exemptions(old(store), &bare));
    let found = match resolve(metadata, filter_graph, store, true) {
        Ok(found) => found,
        Err(e) => {
            core::mem::swap(&mut store.config.unaudited, &mut old_table);
            proof {
                match e {
                    ResolveError::Graph(_) => {
                        assert forall|graph: Seq<NodeModel>| !graph_is(
                            metadata,
                            filter_graph,
                            graph,
                        ) by {}
                    },
                    _ => {},
                }
                lemma_outcome_suffices(
                    metadata,
                    filter_graph,
                    old(store),
                    store,
                    fetcher,
                    differ,
                    Err(MinimizeError::Resolve(e)),
                );
            }
            return Err(MinimizeError::Resolve(e));
        },
    };
    if any_violation(&found.report) {
        core::mem::swap(&mut store.config.unaudited, &mut old_table);
        proof {
            assert(graph_of(metadata, filter_graph, found.graph@));
            lemma_outcome_suffices(
                metadata,
                filter_graph,
                old(store),
                store,
                fetcher,
                differ,
                Err(MinimizeError::Violation),
            );
        }
        return Err(MinimizeError::Violation);
    }
    let items = compute_suggest(
        &found.graph,
        &found.criteria_mapper,
        store,
        &found.report,
        true,
        fetcher,
        differ,
    );
    let table = regenerate(&found.graph, &found.criteria_mapper, &old_table, &items);
    store.config.unaudited = table;
    proof {
        if valid_store(old(store)) {
            lemma_regenerated_known(
                all,
                found.criteria_mapper.edges(),
                old_view,
                pending_of(found.graph@, items@),
            );
            lemma_exemptions_view(all, store.config.unaudited@);
        }
        assert(graph_of(metadata, filter_graph, found.graph@));
        assert(minimized(
            old(store),
            store,
            metadata,
            filter_graph,
            &bare,
            found.graph@,
            &found.criteria_mapper,
            items@,
        ));
        lemma_outcome_suffices(metadata, filter_graph, old(store), store, fetcher, differ, Ok(()));
    }
    Ok(())
}

/// `graph` is a graph of the metadata, whose packages can be ordered and
/// told apart by name and version.
pub open spec fn graph_is(
    metadata: &Metadata,
    filter_graph: Option<&Vec<GraphFilter>>,
    graph: Seq<NodeModel>,
) -> bool {
    graph_of(metadata, filter_graph, graph) && crate::topo::sortable(
        crate::graph::all_edges(metadata.packages@),
    ) && unique_packages(metadata.packages@)
}

} // verus!
