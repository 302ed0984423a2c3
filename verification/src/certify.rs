//! Certifying an audit: what is audited, for which criteria, and what the
//! store holds afterwards.

use crate::claims::{exemption_views, set_of};
use crate::cli::CertifyArgs;
use crate::commands::{
    add_audits, audits_view, group_dependency_criteria, grouped, is_foreign, is_foreign_package,
    with_audits,
};
use crate::criteria::{minimal_names, named, universe, CriteriaMapper, Criterion};
use crate::format::{
    AuditKind, AuditKindModel, AuditsFile, CriteriaName, Delta, DependencyCriteria,
    ExemptionModel, FetchCommand, PackageName, UnauditedDependency, SAFE_TO_DEPLOY, SAFE_TO_RUN,
};
use crate::graph::Metadata;
use crate::minimize::{
    find_record, lemma_record_found, lemma_table_single, record_of, table_view, ExemptionTable,
};
use crate::storage::{
    deltas_differ, empty_delta, is_empty_delta, keys_distinct, valid_store, Store,
};
use crate::table::{distinct_keys, entries_of, find_key, has_key, key_index, single_records};
use crate::text::{
    chars_of, clone_strings, number, opt_view, parse_u64, push_str, str_eq, string_of,
    trim_range, trimmed, views,
};
use crate::validity_laws::{
    known_kind, known_names, lemma_audits_stay_known, lemma_audits_view,
    lemma_certified_stays_known, lemma_exemptions_view,
};
use crate::version::{Version, VersionModel};
use vstd::prelude::*;

verus! {

/// A suggestion that an earlier run made, as the command history keeps it.
#[derive(Debug)]
pub struct SuggestRecord {
    pub command: FetchCommand,
    pub criteria: Vec<CriteriaName>,
}

/// What earlier runs left behind to guess from.
#[derive(Debug)]
pub struct CommandHistory {
    /// The source that was fetched last.
    pub last_fetch: Option<FetchCommand>,
    /// The suggestions that were made last.
    pub last_suggest: Vec<SuggestRecord>,
}

/// Why nothing can be certified.
#[derive(Clone, Copy, Debug, PartialEq, Eq, Structural)]
pub enum CertifyError {
    /// No package was named and none was fetched.
    NoPackage,
    /// The package is not one of the packages from the registry.
    NotForeign,
    /// No version was named and the package has several exemptions.
    MultipleUnaudited,
    /// No version was named and there is nothing to guess one from.
    NoVersion,
    /// No version was named and several suggestions are about the package.
    MultipleSuggestions,
    /// The audit would be of the changes from a version to the same
    /// version.
    EmptyDelta,
}

/// What is to be certified.
#[derive(Debug)]
pub struct CertifyPlan {
    pub package: PackageName,
    pub kind: AuditKind,
    /// The criteria to offer where none were named.
    pub criteria_guess: Option<Vec<CriteriaName>>,
}

/// A plan as a mathematical value.
pub struct PlanModel {
    pub package: Seq<char>,
    pub kind: AuditKindModel,
    pub criteria_guess: Option<Seq<Seq<char>>>,
}

impl View for CertifyPlan {
    type V = PlanModel;

    open spec fn view(&self) -> PlanModel {
        PlanModel {
            package: self.package@,
            kind: self.kind@,
            criteria_guess: match self.criteria_guess {
                Some(names) => Some(views(names@)),
                None => None,
            },
        }
    }
}

/// The package that a fetch command is about.
pub open spec fn fetch_package(command: FetchCommand) -> Seq<char> {
    match command {
        FetchCommand::Inspect { package, .. } => package@,
        FetchCommand::Diff { package, .. } => package@,
    }
}

/// The audit of what a fetch command fetched: a full audit of what was
/// inspected, a delta audit of what was compared.
pub open spec fn fetch_kind(
    command: FetchCommand,
    dependency_criteria: Seq<(Seq<char>, Seq<Seq<char>>)>,
) -> AuditKindModel {
    match command {
        FetchCommand::Inspect { version, .. } => AuditKindModel::Full {
            version: version@,
            dependency_criteria,
        },
        FetchCommand::Diff { version1, version2, .. } => AuditKindModel::Delta {
            from: version1@,
            to: version2@,
            dependency_criteria,
        },
    }
}

/// The package to certify: the one named, or else the one fetched last.
pub open spec fn certify_package(
    args: &CertifyArgs,
    history: &CommandHistory,
) -> Option<Seq<char>> {
    match args.package {
        Some(package) => Some(package@),
        None => match history.last_fetch {
            Some(command) => Some(fetch_package(command)),
            None => None,
        },
    }
}

/// The suggestions about a package.
pub open spec fn relevant(records: Seq<SuggestRecord>, package: Seq<char>) -> Seq<SuggestRecord> {
    records.filter(|r: SuggestRecord| fetch_package(r.command) == package)
}

/// The audit is of what the command fetched.
pub open spec fn kind_matches(kind: AuditKindModel, command: FetchCommand) -> bool {
    match (kind, command) {
        (AuditKindModel::Full { version, .. }, FetchCommand::Inspect { version: fetched, .. }) => version
            == fetched@,
        (
            AuditKindModel::Delta { from, to, .. },
            FetchCommand::Diff { version1, version2, .. },
        ) => from == version1@ && to == version2@,
        _ => false,
    }
}

/// The criteria of the first suggestion, at or after place `from`, that is
/// about the package and the audit.
pub open spec fn suggested_criteria(
    records: Seq<SuggestRecord>,
    package: Seq<char>,
    kind: AuditKindModel,
    from: int,
) -> Option<Seq<Seq<char>>>
    decreases records.len() - from,
{
    if from < 0 || from >= records.len() {
        None
    } else if fetch_package(records[from].command) == package && kind_matches(
        kind,
        records[from].command,
    ) {
        Some(views(records[from].criteria@))
    } else {
        suggested_criteria(records, package, kind, from + 1)
    }
}

/// What is audited, and the criteria that the choice brings with it; a
/// choice of the changes from a version to the same version is refused.
pub open spec fn planned_kind(
    args: &CertifyArgs,
    history: &CommandHistory,
    store: &Store,
    package: Seq<char>,
) -> Result<(AuditKindModel, Option<Seq<Seq<char>>>), CertifyError> {
    match chosen_kind(args, history, store, package) {
        Ok((kind, guess)) => if empty_delta(kind) {
            Err(CertifyError::EmptyDelta)
        } else {
            Ok((kind, guess))
        },
        Err(e) => Err(e),
    }
}

/// What is chosen to be audited, and the criteria that the choice brings
/// with it: the versions named; or else what was fetched last, where that
/// was the package; or else the version of the package's one exemption,
/// with its criterion; or else what the one suggestion about the package
/// names, with its criteria.
pub open spec fn chosen_kind(
    args: &CertifyArgs,
    history: &CommandHistory,
    store: &Store,
    package: Seq<char>,
) -> Result<(AuditKindModel, Option<Seq<Seq<char>>>), CertifyError> {
    let dependency_criteria = grouped(
        args.dependency_criteria@,
        args.dependency_criteria@.len() as int,
    );
    let exemptions = entries_of(store.config.unaudited@, package);
    let suggestions = relevant(history.last_suggest@, package);
    if args.version1 is Some {
        Ok(
            (
                match args.version2 {
                    Some(to) => AuditKindModel::Delta {
                        from: args.version1->0@,
                        to: to@,
                        dependency_criteria,
                    },
                    None => AuditKindModel::Full { version: args.version1->0@, dependency_criteria },
                },
                None,
            ),
        )
    } else if history.last_fetch is Some && fetch_package(history.last_fetch->0) == package {
        Ok((fetch_kind(history.last_fetch->0, dependency_criteria), None))
    } else if has_key(store.config.unaudited@, package) {
        if exemptions.len() > 1 {
            Err(CertifyError::MultipleUnaudited)
        } else if exemptions.len() == 0 {
            Err(CertifyError::NoVersion)
        } else {
            Ok(
                (
                    AuditKindModel::Full { version: exemptions[0].version@, dependency_criteria },
                    Some(seq![exemptions[0].criteria@]),
                ),
            )
        }
    } else if suggestions.len() == 1 {
        Ok(
            (
                fetch_kind(suggestions[0].command, dependency_criteria),
                Some(views(suggestions[0].criteria@)),
            ),
        )
    } else if suggestions.len() > 1 {
        Err(CertifyError::MultipleSuggestions)
    } else {
        Err(CertifyError::NoVersion)
    }
}

/// The plan of a certification: the package, which must come from the
/// registry, what is audited, and the criteria to offer: those that the
/// choice of the audit brought, or else those of a suggestion of just this
/// audit.
pub open spec fn planned(
    args: &CertifyArgs,
    history: &CommandHistory,
    store: &Store,
    metadata: &Metadata,
) -> Result<PlanModel, CertifyError> {
    match certify_package(args, history) {
        None => Err(CertifyError::NoPackage),
        Some(package) => if !is_foreign(metadata.packages@, package) {
            Err(CertifyError::NotForeign)
        } else {
            match planned_kind(args, history, store, package) {
                Err(e) => Err(e),
                Ok((kind, guess)) => Ok(
                    PlanModel {
                        package,
                        kind,
                        criteria_guess: match guess {
                            Some(names) => Some(names),
                            None => suggested_criteria(history.last_suggest@, package, kind, 0),
                        },
                    },
                ),
            }
        },
    }
}

fn kind_of_fetch(command: &FetchCommand, dependency_criteria: DependencyCriteria) -> (kind:
    AuditKind)
    ensures
        kind@ == fetch_kind(*command, crate::format::dependency_criteria_view(dependency_criteria@)),
{
    match command {
        FetchCommand::Inspect { version, .. } => AuditKind::Full {
            version: version.clone(),
            dependency_criteria,
        },
        FetchCommand::Diff { version1, version2, .. } => AuditKind::Delta {
            delta: Delta { from: version1.clone(), to: version2.clone() },
            dependency_criteria,
        },
    }
}

/// The number of suggestions about the package, and the place of the first.
fn find_relevant(records: &Vec<SuggestRecord>, package: &str) -> (found: (usize, usize))
    ensures
        found.0 == relevant(records@, package@).len(),
        found.0 > 0 ==> found.1 < records@.len() && relevant(records@, package@)[0]
            == records@[found.1 as int],
{
    let ghost pred = |r: SuggestRecord| fetch_package(r.command) == package@;
    let mut count: usize = 0;
    let mut first: usize = 0;
    let mut i: usize = 0;
    assert(records@.subrange(0, 0).filter(pred) =~= Seq::<SuggestRecord>::empty()) by {
        reveal(Seq::filter);
    }
    while i < records.len()
        invariant
            i <= records@.len(),
            pred == |r: SuggestRecord| fetch_package(r.command) == package@,
            count == records@.subrange(0, i as int).filter(pred).len(),
            count <= i,
            count > 0 ==> first < i && records@.subrange(0, i as int).filter(pred)[0]
                == records@[first as int],
        decreases records@.len() - i,
    {
        proof {
            let prefix = records@.subrange(0, i as int);
            let next = records@.subrange(0, i + 1);
            assert(next =~= prefix.push(records@[i as int]));
            assert(next.drop_last() =~= prefix);
            reveal(Seq::filter);
            assert(next.filter(pred) == if pred(records@[i as int]) {
                prefix.filter(pred).push(records@[i as int])
            } else {
                prefix.filter(pred)
            });
        }
        if str_eq(records[i].command.package(), package) {
            if count == 0 {
                first = i;
            }
            count += 1;
        }
        i += 1;
    }
    assert(records@.subrange(0, i as int) =~= records@);
    (count, first)
}

fn matches_kind(kind: &AuditKind, command: &FetchCommand) -> (same: bool)
    ensures
        same == kind_matches(kind@, *command),
{
    match (kind, command) {
        (AuditKind::Full { version, .. }, FetchCommand::Inspect { version: fetched, .. }) => version.same(
            fetched,
        ),
        (AuditKind::Delta { delta, .. }, FetchCommand::Diff { version1, version2, .. }) => delta.from.same(
            version1,
        ) && delta.to.same(version2),
        _ => false,
    }
}

fn guess_from_suggestions(records: &Vec<SuggestRecord>, package: &str, kind: &AuditKind) -> (guess:
    Option<Vec<CriteriaName>>)
    ensures
        match guess {
            Some(names) => suggested_criteria(records@, package@, kind@, 0) == Some(views(names@)),
            None => suggested_criteria(records@, package@, kind@, 0) is None,
        },
{
    let mut i: usize = 0;
    while i < records.len()
        invariant
            i <= records@.len(),
            suggested_criteria(records@, package@, kind@, 0) == suggested_criteria(
                records@,
                package@,
                kind@,
                i as int,
            ),
        decreases records@.len() - i,
    {
        if str_eq(records[i].command.package(), package) && matches_kind(kind, &records[i].command) {
            return Some(clone_strings(&records[i].criteria));
        }
        i += 1;
    }
    None
}

fn plan_kind(args: &CertifyArgs, history: &CommandHistory, store: &Store, package: &str) -> (made:
    Result<(AuditKind, Option<Vec<CriteriaName>>), CertifyError>)
    ensures
        match (made, planned_kind(args, history, store, package@)) {
            (Ok((kind, guess)), Ok((kind_model, guess_model))) => kind@ == kind_model && (match (
                guess,
                guess_model,
            ) {
                (Some(a), Some(b)) => views(a@) == b,
                (None, None) => true,
                _ => false,
            }),
            (Err(a), Err(b)) => a == b,
            _ => false,
        },
{
    match choose_kind(args, history, store, package) {
        Ok((kind, guess)) => {
            if is_empty_delta(&kind) {
                Err(CertifyError::EmptyDelta)
            } else {
                Ok((kind, guess))
            }
        },
        Err(e) => Err(e),
    }
}

fn choose_kind(args: &CertifyArgs, history: &CommandHistory, store: &Store, package: &str) -> (made:
    Result<(AuditKind, Option<Vec<CriteriaName>>), CertifyError>)
    ensures
        match (made, chosen_kind(args, history, store, package@)) {
            (Ok((kind, guess)), Ok((kind_model, guess_model))) => kind@ == kind_model && (match (
                guess,
                guess_model,
            ) {
                (Some(a), Some(b)) => views(a@) == b,
                (None, None) => true,
                _ => false,
            }),
            (Err(a), Err(b)) => a == b,
            _ => false,
        },
{
    let dependency_criteria = group_dependency_criteria(&args.dependency_criteria);
    if let Some(from) = &args.version1 {
        return Ok(
            (
                match &args.version2 {
                    Some(to) => AuditKind::Delta {
                        delta: Delta { from: from.clone(), to: to.clone() },
                        dependency_criteria,
                    },
                    None => AuditKind::Full { version: from.clone(), dependency_criteria },
                },
                None,
            ),
        );
    }
    if let Some(command) = &history.last_fetch {
        if str_eq(command.package(), package) {
            return Ok((kind_of_fetch(command, dependency_criteria), None));
        }
    }
    if let Some(at) = find_key(&store.config.unaudited, package) {
        let exemptions = &store.config.unaudited[at].1;
        assert(exemptions@ == entries_of(store.config.unaudited@, package@));
        if exemptions.len() > 1 {
            return Err(CertifyError::MultipleUnaudited);
        }
        if exemptions.len() == 0 {
            return Err(CertifyError::NoVersion);
        }
        let mut guess: Vec<CriteriaName> = Vec::new();
        guess.push(exemptions[0].criteria.clone());
        assert(views(guess@) =~= seq![exemptions@[0].criteria@]);
        return Ok(
            (
                AuditKind::Full { version: exemptions[0].version.clone(), dependency_criteria },
                Some(guess),
            ),
        );
    }
    let (count, first) = find_relevant(&history.last_suggest, package);
    if count == 1 {
        let record = &history.last_suggest[first];
        Ok((kind_of_fetch(&record.command, dependency_criteria), Some(clone_strings(&record.criteria))))
    } else if count > 1 {
        Err(CertifyError::MultipleSuggestions)
    } else {
        Err(CertifyError::NoVersion)
    }
}

/// The package to certify: the one named, or else the one fetched last.
pub fn package_to_certify(args: &CertifyArgs, history: &CommandHistory) -> (package: Option<String>)
    ensures
        opt_view(package) == certify_package(args, history),
{
    match &args.package {
        Some(package) => Some(package.clone()),
        None => match &history.last_fetch {
            Some(command) => Some(command.package().to_owned()),
            None => None,
        },
    }
}

/// The versions of the exemptions of a package, in their order: what there
/// is to choose from where several exemptions leave the version open.
pub fn exempted_versions(store: &Store, package: &str) -> (versions: Vec<Version>)
    ensures
        versions@.len() == entries_of(store.config.unaudited@, package@).len(),
        forall|i: int|
            0 <= i < versions@.len() ==> (#[trigger] versions@[i])@ == entries_of(
                store.config.unaudited@,
                package@,
            )[i].version@,
{
    let mut versions: Vec<Version> = Vec::new();
    match find_key(&store.config.unaudited, package) {
        Some(at) => {
            let entries = &store.config.unaudited[at].1;
            let mut i: usize = 0;
            while i < entries.len()
                invariant
                    i <= entries@.len(),
                    versions@.len() == i,
                    forall|j: int|
                        0 <= j < i ==> (#[trigger] versions@[j])@ == entries@[j].version@,
                decreases entries@.len() - i,
            {
                versions.push(entries[i].version.clone());
                i += 1;
            }
        },
        None => {},
    }
    versions
}

/// The places of the suggestions about a package, in their order: what
/// there is to choose from where several suggestions leave the version
/// open.
pub fn suggestions_about(history: &CommandHistory, package: &str) -> (places: Vec<usize>)
    ensures
        places@ == Seq::new(history.last_suggest@.len(), |i: int| i as usize).filter(
            |i: usize| fetch_package(history.last_suggest@[i as int].command) == package@,
        ),
{
    let ghost every = Seq::new(history.last_suggest@.len(), |i: int| i as usize);
    let ghost pred = |i: usize| fetch_package(history.last_suggest@[i as int].command) == package@;
    let mut places: Vec<usize> = Vec::new();
    let mut i: usize = 0;
    assert(every.subrange(0, 0).filter(pred) =~= Seq::<usize>::empty()) by {
        reveal(Seq::filter);
    }
    while i < history.last_suggest.len()
        invariant
            i <= history.last_suggest@.len(),
            every == Seq::new(history.last_suggest@.len(), |i: int| i as usize),
            pred == |i: usize| fetch_package(history.last_suggest@[i as int].command) == package@,
            places@ == every.subrange(0, i as int).filter(pred),
        decreases history.last_suggest@.len() - i,
    {
        proof {
            let prefix = every.subrange(0, i as int);
            let next = every.subrange(0, i + 1);
            assert(next =~= prefix.push(i));
            assert(next.drop_last() =~= prefix);
            reveal(Seq::filter);
            assert(next.filter(pred) == if pred(i) {
                prefix.filter(pred).push(i)
            } else {
                prefix.filter(pred)
            });
        }
        if str_eq(history.last_suggest[i].command.package(), package) {
            places.push(i);
        }
        i += 1;
    }
    assert(every.subrange(0, i as int) =~= every);
    places
}

/// Plans a certification from the arguments, the command history, the
/// store and the packages of the build.
pub fn plan_certify(
    args: &CertifyArgs,
    history: &CommandHistory,
    store: &Store,
    metadata: &Metadata,
) -> (plan: Result<CertifyPlan, CertifyError>)
    ensures
        match (plan, planned(args, history, store, metadata)) {
            (Ok(made), Ok(model)) => made@ == model,
            (Err(a), Err(b)) => a == b,
            _ => false,
        },
{
    let package = match package_to_certify(args, history) {
        Some(package) => package,
        None => {
            return Err(CertifyError::NoPackage);
        },
    };
    if !is_foreign_package(metadata, package.as_str()) {
        return Err(CertifyError::NotForeign);
    }
    match plan_kind(args, history, store, package.as_str()) {
        Err(e) => Err(e),
        Ok((kind, guess)) => {
            let criteria_guess = match guess {
                Some(names) => Some(names),
                None => guess_from_suggestions(&history.last_suggest, package.as_str(), &kind),
            };
            Ok(CertifyPlan { package, kind, criteria_guess })
        },
    }
}

/// What one line of input does to the choice of criteria.
#[derive(Clone, Copy, Debug, PartialEq, Eq, Structural)]
pub enum PromptStep {
    /// An empty line accepts the choice.
    Accept,
    /// An empty line with nothing chosen ends the command.
    Abort,
    /// `0` clears the choice.
    Cleared,
    /// The number of a criterion adds it to the choice.
    Added,
    /// The line is no number.
    NotInteger,
    /// The number is that of no criterion.
    NotCriteria,
}

/// What a line of input asks for: the step, and the criterion to add where
/// the step adds one.
pub open spec fn prompt_step(chosen: int, count: int, input: Seq<char>) -> (PromptStep, int) {
    let line = trimmed(input);
    if line.len() == 0 {
        if chosen == 0 {
            (PromptStep::Abort, 0)
        } else {
            (PromptStep::Accept, 0)
        }
    } else {
        match number(line, usize::MAX as nat) {
            None => (PromptStep::NotInteger, 0),
            Some(n) => if n == 0 {
                (PromptStep::Cleared, 0)
            } else if n > count {
                (PromptStep::NotCriteria, 0)
            } else {
                (PromptStep::Added, n - 1)
            },
        }
    }
}

/// Takes one line of input while criteria are chosen from the numbered list
/// of all criteria: an empty line ends the choice, `0` clears it, the
/// number of a criterion adds that criterion, anything else changes
/// nothing.
pub fn criteria_prompt_step(
    chosen: &mut Vec<CriteriaName>,
    mapper: &CriteriaMapper,
    input: &str,
) -> (step:
    PromptStep)
    requires
        mapper.wf(),
    ensures
        step == prompt_step(old(chosen)@.len() as int, mapper.count(), input@).0,
        views(final(chosen)@) == match step {
            PromptStep::Cleared => Seq::<Seq<char>>::empty(),
            PromptStep::Added => views(old(chosen)@).push(
                mapper.model()[prompt_step(old(chosen)@.len() as int, mapper.count(), input@).1].name,
            ),
            _ => views(old(chosen)@),
        },
{
    let s = chars_of(input);
    let (from, to) = trim_range(&s, 0, s.len());
    if from == to {
        return if chosen.len() == 0 {
            PromptStep::Abort
        } else {
            PromptStep::Accept
        };
    }
    let ghost line = s@.subrange(from as int, to as int);
    assert(line == trimmed(input@));
    let answer = match parse_u64(&s, from, to) {
        Some(n) => n,
        None => {
            assert(number(line, usize::MAX as nat) is None);
            return PromptStep::NotInteger;
        },
    };
    if answer > usize::MAX as u64 {
        return PromptStep::NotInteger;
    }
    if answer == 0 {
        chosen.clear();
        assert(views(chosen@) =~= Seq::<Seq<char>>::empty());
        return PromptStep::Cleared;
    }
    if answer > mapper.len() as u64 {
        return PromptStep::NotCriteria;
    }
    let ghost before = views(chosen@);
    let index = (answer - 1) as usize;
    let name = mapper.list[index].0.clone();
    chosen.push(name);
    assert(views(chosen@) =~= before.push(mapper.model()[index as int].name));
    PromptStep::Added
}

/// The names that stand for the criteria named and everything they imply:
/// a criterion that another one of them implies is left out.
pub fn normalize_criteria(mapper: &CriteriaMapper, names: &Vec<CriteriaName>) -> (clean: Vec<
    CriteriaName,
>)
    requires
        mapper.wf(),
    ensures
        views(clean@) == minimal_names(
            mapper.model(),
            mapper.edges(),
            set_of(mapper.model(), mapper.edges(), views(names@)),
        ),
{
    let set = mapper.criteria_from_list(names);
    mapper.criteria_names(&set)
}

/// Where the text that an auditor agrees to comes from.
#[derive(Debug)]
pub enum EulaSource {
    /// The built-in text of `safe-to-deploy`.
    SafeToDeploy,
    /// The built-in text of `safe-to-run`.
    SafeToRun,
    /// The description in the store.
    Description(String),
    /// The page that the store points to.
    Url(String),
    /// Nowhere: the criterion has no description.
    Unknown,
}

/// Where the text of a criterion comes from: built in for the built-in
/// criteria; else the description that the store gives, or else the page it
/// points to.
pub fn eula_for_criteria(audits: &AuditsFile, criteria: &str) -> (source: EulaSource)
    ensures
        match source {
            EulaSource::SafeToDeploy => criteria@ == SAFE_TO_DEPLOY@,
            EulaSource::SafeToRun => criteria@ != SAFE_TO_DEPLOY@ && criteria@ == SAFE_TO_RUN@,
            EulaSource::Description(text) => criteria@ != SAFE_TO_DEPLOY@ && criteria@
                != SAFE_TO_RUN@ && has_key(audits.criteria@, criteria@) && audits.criteria@[key_index(
                audits.criteria@,
                criteria@,
            )].1.description is Some && text@ == audits.criteria@[key_index(
                audits.criteria@,
                criteria@,
            )].1.description->0@,
            EulaSource::Url(url) => criteria@ != SAFE_TO_DEPLOY@ && criteria@ != SAFE_TO_RUN@
                && has_key(audits.criteria@, criteria@) && audits.criteria@[key_index(
                audits.criteria@,
                criteria@,
            )].1.description is None && audits.criteria@[key_index(
                audits.criteria@,
                criteria@,
            )].1.description_url is Some && url@ == audits.criteria@[key_index(
                audits.criteria@,
                criteria@,
            )].1.description_url->0@,
            EulaSource::Unknown => criteria@ != SAFE_TO_DEPLOY@ && criteria@ != SAFE_TO_RUN@ && (
            !has_key(audits.criteria@, criteria@) || (audits.criteria@[key_index(
                audits.criteria@,
                criteria@,
            )].1.description is None && audits.criteria@[key_index(
                audits.criteria@,
                criteria@,
            )].1.description_url is None)),
        },
{
    if str_eq(criteria, SAFE_TO_DEPLOY) {
        return EulaSource::SafeToDeploy;
    }
    if str_eq(criteria, SAFE_TO_RUN) {
        return EulaSource::SafeToRun;
    }
    match find_criteria(&audits.criteria, criteria) {
        Some(at) => {
            let entry = &audits.criteria[at].1;
            match &entry.description {
                Some(text) => EulaSource::Description(text.clone()),
                None => match &entry.description_url {
                    Some(url) => EulaSource::Url(url.clone()),
                    None => EulaSource::Unknown,
                },
            }
        },
        None => EulaSource::Unknown,
    }
}

fn find_criteria(table: &Vec<(CriteriaName, crate::format::CriteriaEntry)>, name: &str) -> (found:
    Option<usize>)
    ensures
        found is Some == has_key(table@, name@),
        found is Some ==> found->0 == key_index(table@, name@) && found->0 < table@.len(),
{
    let mut i: usize = 0;
    while i < table.len()
        invariant
            i <= table@.len(),
            forall|j: int| 0 <= j < i ==> (#[trigger] table@[j]).0@ != name@,
        decreases table@.len() - i,
    {
        if str_eq(table[i].0.as_str(), name) {
            proof {
                crate::table::lemma_key_index(table@, name@, i as int);
            }
            return Some(i);
        }
        i += 1;
    }
    None
}

/// The auditor as audits name them: `name <email>`, each without the
/// blanks at its ends.
pub fn who_line(username: &str, email: &str) -> (who: String)
    ensures
        who@ == trimmed(username@) + " <"@ + trimmed(email@) + ">"@,
{
    let name = chars_of(username);
    let (a, b) = trim_range(&name, 0, name.len());
    let mail = chars_of(email);
    let (c, d) = trim_range(&mail, 0, mail.len());
    let mut who = string_of(&name, a, b);
    push_str(&mut who, " <");
    let address = string_of(&mail, c, d);
    push_str(&mut who, address.as_str());
    push_str(&mut who, ">");
    who
}

/// An exemption is superseded by a full audit of `version` for `criteria`:
/// it is for that version, and its criterion is implied by one of the
/// audit's.
pub open spec fn superseded(
    all: Seq<Criterion>,
    edges: Seq<Seq<usize>>,
    criteria: Seq<Seq<char>>,
    version: VersionModel,
    exemption: ExemptionModel,
) -> bool {
    exemption.version == version && exists|k: int|
        0 <= k < criteria.len() && set_of(all, edges, seq![exemption.criteria]).subset_of(
            set_of(all, edges, seq![#[trigger] criteria[k]]),
        )
}

/// The exemptions that a certification leaves: a full audit for some
/// criteria takes away the exemptions of the package that it supersedes,
/// and the package's record when none is left; any other audit takes away
/// nothing.
pub open spec fn after_certified(
    all: Seq<Criterion>,
    edges: Seq<Seq<usize>>,
    table: ExemptionTable,
    package: Seq<char>,
    kind: AuditKindModel,
    criteria: Seq<Seq<char>>,
) -> ExemptionTable {
    match kind {
        AuditKindModel::Full { version, .. } => {
            let at = record_of(table, package, 0);
            if criteria.len() == 0 || at >= table.len() {
                table
            } else {
                let kept = table[at].1.filter(
                    |e: ExemptionModel| !superseded(all, edges, criteria, version, e),
                );
                if kept.len() == 0 {
                    table.remove(at)
                } else {
                    table.update(at, (table[at].0, kept))
                }
            }
        },
        _ => table,
    }
}

/// Taking away what an audit supersedes gives no package a second record.
pub proof fn lemma_certified_single(
    all: Seq<Criterion>,
    edges: Seq<Seq<usize>>,
    table: ExemptionTable,
    package: Seq<char>,
    kind: AuditKindModel,
    criteria: Seq<Seq<char>>,
)
    requires
        single_records(table),
    ensures
        single_records(after_certified(all, edges, table, package, kind, criteria)),
{
    let after = after_certified(all, edges, table, package, kind, criteria);
    match kind {
        AuditKindModel::Full { version, .. } => {
            let at = record_of(table, package, 0);
            if criteria.len() != 0 && at < table.len() {
                lemma_record_found(table, package, 0);
                let kept = table[at].1.filter(
                    |e: ExemptionModel| !superseded(all, edges, criteria, version, e),
                );
                if kept.len() == 0 {
                    assert forall|i: int, j: int| 0 <= i < j < after.len() implies (
                    #[trigger] after[i]).0 != (#[trigger] after[j]).0 by {
                        let a = if i < at {
                            i
                        } else {
                            i + 1
                        };
                        let b = if j < at {
                            j
                        } else {
                            j + 1
                        };
                        assert(after[i] == table[a]);
                        assert(after[j] == table[b]);
                        assert(table[a].0 != table[b].0);
                    }
                } else {
                    assert forall|i: int, j: int| 0 <= i < j < after.len() implies (
                    #[trigger] after[i]).0 != (#[trigger] after[j]).0 by {
                        assert(after[i].0 == table[i].0);
                        assert(after[j].0 == table[j].0);
                    }
                }
            }
        },
        _ => {},
    }
}

fn is_superseded(
    mapper: &CriteriaMapper,
    criteria: &Vec<CriteriaName>,
    version: &Version,
    exemption: &UnauditedDependency,
) -> (gone: bool)
    requires
        mapper.wf(),
    ensures
        gone == superseded(mapper.model(), mapper.edges(), views(criteria@), version@, exemption@),
{
    if !exemption.version.same(version) {
        return false;
    }
    let asked = mapper.criteria_from_name(exemption.criteria.as_str());
    let ghost all = mapper.model();
    let ghost edges = mapper.edges();
    let mut k: usize = 0;
    while k < criteria.len()
        invariant
            k <= criteria@.len(),
            mapper.wf(),
            all == mapper.model(),
            edges == mapper.edges(),
            asked@ == set_of(all, edges, seq![exemption@.criteria]),
            exemption@.version == version@,
            forall|j: int|
                0 <= j < k ==> !set_of(all, edges, seq![exemption@.criteria]).subset_of(
                    set_of(all, edges, seq![#[trigger] views(criteria@)[j]]),
                ),
        decreases criteria@.len() - k,
    {
        let given = mapper.criteria_from_name(criteria[k].as_str());
        assert(views(criteria@)[k as int] == criteria@[k as int]@);
        if given.contains(&asked) {
            assert(set_of(all, edges, seq![exemption@.criteria]).subset_of(
                set_of(all, edges, seq![views(criteria@)[k as int]]),
            ));
            return true;
        }
        k += 1;
    }
    false
}

fn keep_standing(
    mapper: &CriteriaMapper,
    criteria: &Vec<CriteriaName>,
    version: &Version,
    entries: &Vec<UnauditedDependency>,
) -> (kept: Vec<UnauditedDependency>)
    requires
        mapper.wf(),
    ensures
        exemption_views(kept@) == exemption_views(entries@).filter(
            |e: ExemptionModel|
                !superseded(mapper.model(), mapper.edges(), views(criteria@), version@, e),
        ),
{
    let ghost models = exemption_views(entries@);
    let ghost pred = |e: ExemptionModel|
        !superseded(mapper.model(), mapper.edges(), views(criteria@), version@, e);
    let mut kept: Vec<UnauditedDependency> = Vec::new();
    let mut i: usize = 0;
    assert(models.subrange(0, 0).filter(pred) =~= Seq::<ExemptionModel>::empty()) by {
        reveal(Seq::filter);
    }
    assert(exemption_views(kept@) =~= Seq::<ExemptionModel>::empty());
    while i < entries.len()
        invariant
            i <= entries@.len(),
            mapper.wf(),
            models == exemption_views(entries@),
            pred == |e: ExemptionModel|
                !superseded(mapper.model(), mapper.edges(), views(criteria@), version@, e),
            exemption_views(kept@) == models.subrange(0, i as int).filter(pred),
        decreases entries@.len() - i,
    {
        proof {
            let prefix = models.subrange(0, i as int);
            let next = models.subrange(0, i + 1);
            assert(next =~= prefix.push(models[i as int]));
            assert(next.drop_last() =~= prefix);
            reveal(Seq::filter);
            assert(next.filter(pred) == if pred(models[i as int]) {
                prefix.filter(pred).push(models[i as int])
            } else {
                prefix.filter(pred)
            });
            assert(models[i as int] == entries@[i as int]@);
        }
        if !is_superseded(mapper, criteria, version, &entries[i]) {
            let ghost before = exemption_views(kept@);
            let copy = entries[i].clone();
            kept.push(copy);
            assert(exemption_views(kept@) =~= before.push(copy@));
        }
        i += 1;
    }
    assert(models.subrange(0, i as int) =~= models);
    kept
}

/// Takes away the exemptions that the audit supersedes.
fn drop_superseded(
    table: &mut Vec<(PackageName, Vec<UnauditedDependency>)>,
    mapper: &CriteriaMapper,
    package: &str,
    kind: &AuditKind,
    criteria: &Vec<CriteriaName>,
)
    requires
        mapper.wf(),
    ensures
        table_view(final(table)@) == after_certified(
            mapper.model(),
            mapper.edges(),
            table_view(old(table)@),
            package@,
            kind@,
            views(criteria@),
        ),
        distinct_keys(old(table)@) ==> distinct_keys(final(table)@),
{
    let ghost before = table_view(table@);
    proof {
        lemma_table_single(table@);
        if distinct_keys(table@) {
            lemma_certified_single(
                mapper.model(),
                mapper.edges(),
                before,
                package@,
                kind@,
                views(criteria@),
            );
        }
    }
    match kind {
        AuditKind::Full { version, .. } => {
            if criteria.len() == 0 {
                return ;
            }
            let at = find_record(table, package);
            if at >= table.len() {
                return ;
            }
            proof {
                lemma_record_found(before, package@, 0);
            }
            let ghost old_table = table@;
            let record = table.remove(at);
            assert(before[at as int] == (record.0@, exemption_views(record.1@)));
            let kept = keep_standing(mapper, criteria, version, &record.1);
            if kept.len() == 0 {
                assert(table_view(table@) =~= before.remove(at as int));
            } else {
                let ghost kept_view = exemption_views(kept@);
                table.insert(at, (record.0, kept));
                assert(table_view(table@) =~= before.update(at as int, (before[at as int].0, kept_view)));
            }
        },
        _ => {},
    }
    proof {
        lemma_table_single(table@);
    }
}

/// Records an audit of `kind` for each of `criteria`, and takes away the
/// exemptions that the audits supersede. An audit of the changes from a
/// version to the same version is refused, and the store stays as it was.
/// No table gets a second record for a package, and a store without an
/// audit from a version to itself stays without one: a valid store stays
/// valid where the criteria given are known.
pub fn certify(
    store: &mut Store,
    mapper: &CriteriaMapper,
    package: &str,
    kind: &AuditKind,
    criteria: &Vec<CriteriaName>,
    who: &Option<String>,
    notes: &Option<String>,
) -> (done: Result<(), CertifyError>)
    requires
        mapper.wf(),
    ensures
        done is Err <==> empty_delta(kind@),
        done is Err ==> done == Err::<(), CertifyError>(CertifyError::EmptyDelta) && *final(store)
            == *old(store),
        done is Ok ==> audits_view(final(store).audits.audits@) == with_audits(
            audits_view(old(store).audits.audits@),
            package@,
            kind@,
            opt_view(*who),
            opt_view(*notes),
            views(criteria@),
            criteria@.len() as int,
        ),
        done is Ok ==> table_view(final(store).config.unaudited@) == after_certified(
            mapper.model(),
            mapper.edges(),
            table_view(old(store).config.unaudited@),
            package@,
            kind@,
            views(criteria@),
        ),
        final(store).audits.criteria == old(store).audits.criteria,
        final(store).imports == old(store).imports,
        final(store).config.default_criteria == old(store).config.default_criteria,
        final(store).config.imports == old(store).config.imports,
        final(store).config.policy == old(store).config.policy,
        keys_distinct(old(store)) ==> keys_distinct(final(store)),
        deltas_differ(old(store)) ==> deltas_differ(final(store)),
        valid_store(old(store)) && mapper.model() == universe(old(store).audits.criteria@)
            && known_names(mapper.model(), views(criteria@)) && known_kind(mapper.model(), kind@)
            ==> valid_store(final(store)),
{
    if is_empty_delta(kind) {
        return Err(CertifyError::EmptyDelta);
    }
    add_audits(&mut store.audits.audits, package, kind, criteria, who, notes);
    drop_superseded(&mut store.config.unaudited, mapper, package, kind, criteria);
    proof {
        let all = mapper.model();
        if valid_store(old(store)) && all == universe(old(store).audits.criteria@) && known_names(
            all,
            views(criteria@),
        ) && known_kind(all, kind@) {
            lemma_audits_view(all, old(store).audits.audits@);
            lemma_audits_stay_known(
                all,
                audits_view(old(store).audits.audits@),
                package@,
                kind@,
                opt_view(*who),
                opt_view(*notes),
                views(criteria@),
                criteria@.len() as int,
            );
            lemma_audits_view(all, store.audits.audits@);
            lemma_exemptions_view(all, old(store).config.unaudited@);
            lemma_certified_stays_known(
                all,
                all,
                mapper.edges(),
                table_view(old(store).config.unaudited@),
                package@,
                kind@,
                views(criteria@),
            );
            lemma_exemptions_view(all, store.config.unaudited@);
        }
    }
    Ok(())
}

} // verus!
