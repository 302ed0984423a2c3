//! The data model of the audit store.

use crate::text::{clone_opt, clone_strings, opt_view, views};
use crate::version::{Version, VersionModel, VersionReq};
use vstd::prelude::*;

verus! {

/// The name of a criterion, such as `safe-to-deploy`.
pub type CriteriaName = String;

/// The name of a package.
pub type PackageName = String;

/// The built-in criterion that every store knows: code that may run on a
/// developer's machine.
pub const SAFE_TO_RUN: &'static str = "safe-to-run";

/// The built-in criterion for code that may ship; it implies
/// [`SAFE_TO_RUN`].
pub const SAFE_TO_DEPLOY: &'static str = "safe-to-deploy";

/// The criteria that a workspace member asks of its dependencies when its
/// policy names none.
pub const DEFAULT_POLICY_CRITERIA: &'static str = "safe-to-deploy";

/// The criteria asked of dependencies that only tests and benchmarks use.
pub const DEFAULT_POLICY_DEV_CRITERIA: &'static str = "safe-to-run";

/// The criteria that commands assume when none is given.
pub fn get_default_criteria() -> (name: CriteriaName)
    ensures
        name@ == SAFE_TO_DEPLOY@,
{
    SAFE_TO_DEPLOY.to_owned()
}

/// One criterion of the store's criteria table.
#[derive(Clone, Debug)]
pub struct CriteriaEntry {
    /// What an auditor certifies with this criterion.
    pub description: Option<String>,
    /// Where that description can be read instead.
    pub description_url: Option<String>,
    /// The criteria that hold of everything this criterion holds of.
    pub implies: Vec<CriteriaName>,
}

/// The criteria asked of single dependencies of an audited package: for
/// each dependency named, the criteria that it must meet in place of the
/// audit's own.
pub type DependencyCriteria = Vec<(PackageName, Vec<CriteriaName>)>;

/// Dependency criteria as a mathematical value.
pub open spec fn dependency_criteria_view(list: Seq<(PackageName, Vec<CriteriaName>)>) -> Seq<
    (Seq<char>, Seq<Seq<char>>),
> {
    Seq::new(list.len(), |i: int| (list[i].0@, views(list[i].1@)))
}

/// A copy of dependency criteria.
pub fn clone_dependency_criteria(list: &DependencyCriteria) -> (copy: DependencyCriteria)
    ensures
        dependency_criteria_view(copy@) == dependency_criteria_view(list@),
{
    let mut copy: DependencyCriteria = Vec::new();
    let mut i: usize = 0;
    while i < list.len()
        invariant
            i <= list@.len(),
            copy@.len() == i,
            forall|j: int|
                0 <= j < i ==> (#[trigger] copy@[j]).0@ == list@[j].0@ && views(copy@[j].1@)
                    == views(list@[j].1@),
        decreases list@.len() - i,
    {
        copy.push((list[i].0.clone(), clone_strings(&list[i].1)));
        i += 1;
    }
    assert(dependency_criteria_view(copy@) =~= dependency_criteria_view(list@));
    copy
}

/// The two ends of a delta audit.
#[derive(Debug)]
pub struct Delta {
    pub from: Version,
    pub to: Version,
}

/// What an audit entry is about.
#[derive(Debug)]
pub enum AuditKind {
    /// The whole of one version was reviewed.
    Full { version: Version, dependency_criteria: DependencyCriteria },
    /// The changes from one version to another were reviewed.
    Delta { delta: Delta, dependency_criteria: DependencyCriteria },
    /// The matching versions fail the criteria.
    Violation { violation: VersionReq },
}

/// What an audit entry is about, as a mathematical value.
pub enum AuditKindModel {
    Full { version: VersionModel, dependency_criteria: Seq<(Seq<char>, Seq<Seq<char>>)> },
    Delta {
        from: VersionModel,
        to: VersionModel,
        dependency_criteria: Seq<(Seq<char>, Seq<Seq<char>>)>,
    },
    Violation { violation: Seq<char> },
}

impl View for AuditKind {
    type V = AuditKindModel;

    open spec fn view(&self) -> AuditKindModel {
        match self {
            AuditKind::Full { version, dependency_criteria } => AuditKindModel::Full {
                version: version@,
                dependency_criteria: dependency_criteria_view(dependency_criteria@),
            },
            AuditKind::Delta { delta, dependency_criteria } => AuditKindModel::Delta {
                from: delta.from@,
                to: delta.to@,
                dependency_criteria: dependency_criteria_view(dependency_criteria@),
            },
            AuditKind::Violation { violation } => AuditKindModel::Violation {
                violation: violation@,
            },
        }
    }
}

impl Clone for AuditKind {
    fn clone(&self) -> (copy: AuditKind)
        ensures
            copy@ == self@,
    {
        match self {
            AuditKind::Full { version, dependency_criteria } => AuditKind::Full {
                version: version.clone(),
                dependency_criteria: clone_dependency_criteria(dependency_criteria),
            },
            AuditKind::Delta { delta, dependency_criteria } => AuditKind::Delta {
                delta: Delta { from: delta.from.clone(), to: delta.to.clone() },
                dependency_criteria: clone_dependency_criteria(dependency_criteria),
            },
            AuditKind::Violation { violation } => AuditKind::Violation {
                violation: violation.clone(),
            },
        }
    }
}

/// One audit: a person's statement that a version, or the changes between
/// two versions, meets a criterion, or that versions fail it.
#[derive(Debug)]
pub struct AuditEntry {
    pub who: Option<String>,
    pub notes: Option<String>,
    pub criteria: CriteriaName,
    pub kind: AuditKind,
}

/// An audit as a mathematical value.
pub struct AuditModel {
    pub who: Option<Seq<char>>,
    pub notes: Option<Seq<char>>,
    pub criteria: Seq<char>,
    pub kind: AuditKindModel,
}

impl View for AuditEntry {
    type V = AuditModel;

    open spec fn view(&self) -> AuditModel {
        AuditModel {
            who: opt_view(self.who),
            notes: opt_view(self.notes),
            criteria: self.criteria@,
            kind: self.kind@,
        }
    }
}

/// An exemption: a version trusted for a criterion without an audit.
#[derive(Debug)]
pub struct UnauditedDependency {
    pub version: Version,
    pub criteria: CriteriaName,
    pub dependency_criteria: DependencyCriteria,
    pub notes: Option<String>,
    /// Whether the entry may be replaced by a suggestion to audit.
    pub suggest: bool,
}

/// An exemption as a mathematical value.
pub struct ExemptionModel {
    pub version: VersionModel,
    pub criteria: Seq<char>,
    pub dependency_criteria: Seq<(Seq<char>, Seq<Seq<char>>)>,
    pub notes: Option<Seq<char>>,
    pub suggest: bool,
}

impl View for UnauditedDependency {
    type V = ExemptionModel;

    open spec fn view(&self) -> ExemptionModel {
        ExemptionModel {
            version: self.version@,
            criteria: self.criteria@,
            dependency_criteria: dependency_criteria_view(self.dependency_criteria@),
            notes: opt_view(self.notes),
            suggest: self.suggest,
        }
    }
}

impl Clone for UnauditedDependency {
    fn clone(&self) -> (copy: UnauditedDependency)
        ensures
            copy@ == self@,
    {
        UnauditedDependency {
            version: self.version.clone(),
            criteria: self.criteria.clone(),
            dependency_criteria: clone_dependency_criteria(&self.dependency_criteria),
            notes: clone_opt(&self.notes),
            suggest: self.suggest,
        }
    }
}

/// What a workspace member asks of its dependencies.
#[derive(Debug)]
pub struct PolicyEntry {
    /// The criteria asked of the dependencies of its build.
    pub criteria: Option<Vec<CriteriaName>>,
    /// The criteria asked of the dependencies of its tests.
    pub dev_criteria: Option<Vec<CriteriaName>>,
    /// The criteria asked of single dependencies instead.
    pub dependency_criteria: DependencyCriteria,
}

/// A peer whose audits are imported.
#[derive(Debug)]
pub struct RemoteImport {
    pub url: String,
}

/// The store's configuration: imports, exemptions and policy.
#[derive(Debug)]
pub struct ConfigFile {
    pub default_criteria: CriteriaName,
    pub imports: Vec<(String, RemoteImport)>,
    pub unaudited: Vec<(PackageName, Vec<UnauditedDependency>)>,
    pub policy: Vec<(PackageName, PolicyEntry)>,
}

/// The criteria a store defines and the audits it records.
#[derive(Debug)]
pub struct AuditsFile {
    pub criteria: Vec<(CriteriaName, CriteriaEntry)>,
    pub audits: Vec<(PackageName, Vec<AuditEntry>)>,
}

/// The audits of each peer as they were last fetched.
#[derive(Debug)]
pub struct ImportsFile {
    pub audits: Vec<(String, AuditsFile)>,
}

/// The size of the difference between two versions of a package.
#[derive(Debug)]
pub struct DiffStat {
    /// The summary as the diff tool printed it.
    pub raw: String,
    /// The number of lines added or removed.
    pub count: u64,
}

/// A command that fetches source for review.
#[derive(Debug)]
pub enum FetchCommand {
    Inspect { package: PackageName, version: Version },
    Diff { package: PackageName, version1: Version, version2: Version },
}

impl FetchCommand {
    /// The package that the command fetches.
    pub fn package(&self) -> (name: &str)
        ensures
            name@ == match self {
                FetchCommand::Inspect { package, .. } => package@,
                FetchCommand::Diff { package, .. } => package@,
            },
    {
        match self {
            FetchCommand::Inspect { package, .. } => package.as_str(),
            FetchCommand::Diff { package, .. } => package.as_str(),
        }
    }
}

/// Where one layer of the tool's own configuration puts the store.
#[derive(Debug)]
pub struct StoreInfo {
    pub path: Option<String>,
}

/// One layer of the tool's own configuration.
#[derive(Debug)]
pub struct MetaConfigInstance {
    pub version: Option<u64>,
    pub store: Option<StoreInfo>,
}

/// The layers of the tool's own configuration, the default first; a later
/// layer overrides an earlier one.
#[derive(Debug)]
pub struct MetaConfig(pub Vec<MetaConfigInstance>);

/// The place of the last layer before `upto` that gives a version.
pub open spec fn last_version(layers: Seq<MetaConfigInstance>, upto: int) -> Option<u64>
    decreases upto,
{
    if upto <= 0 {
        None
    } else if layers[upto - 1].version is Some {
        layers[upto - 1].version
    } else {
        last_version(layers, upto - 1)
    }
}

/// The store path of the last layer before `upto` that gives one.
pub open spec fn last_store_path(layers: Seq<MetaConfigInstance>, upto: int) -> Option<Seq<char>>
    decreases upto,
{
    if upto <= 0 {
        None
    } else if layers[upto - 1].store is Some && layers[upto - 1].store->0.path is Some {
        Some(layers[upto - 1].store->0.path->0@)
    } else {
        last_store_path(layers, upto - 1)
    }
}

impl MetaConfig {
    /// The configuration version: that of the last layer that gives one.
    pub fn version(&self) -> (version: Option<u64>)
        ensures
            version == last_version(self.0@, self.0@.len() as int),
    {
        let mut i = self.0.len();
        while i > 0
            invariant
                i <= self.0@.len(),
                last_version(self.0@, self.0@.len() as int) == last_version(self.0@, i as int),
            decreases i,
        {
            if let Some(version) = self.0[i - 1].version {
                return Some(version);
            }
            i -= 1;
        }
        None
    }

    /// The store's path: that of the last layer that gives one.
    pub fn store_path(&self) -> (path: Option<&str>)
        ensures
            match path {
                Some(p) => last_store_path(self.0@, self.0@.len() as int) == Some(p@),
                None => last_store_path(self.0@, self.0@.len() as int) is None,
            },
    {
        let mut i = self.0.len();
        while i > 0
            invariant
                i <= self.0@.len(),
                last_store_path(self.0@, self.0@.len() as int) == last_store_path(
                    self.0@,
                    i as int,
                ),
            decreases i,
        {
            if let Some(store) = &self.0[i - 1].store {
                if let Some(path) = &store.path {
                    return Some(path.as_str());
                }
            }
            i -= 1;
        }
        None
    }
}

/// Why the tool's own configuration is refused.
#[derive(Clone, Copy, Debug, PartialEq, Eq, Structural)]
pub enum MetaConfigError {
    /// The workspace and the root package both configure the tool.
    WorkspaceAndPackage,
}

/// The layers of configuration: the default, then that of the workspace or
/// that of the root package. Both at once are refused.
pub fn layer_config(
    default_config: MetaConfigInstance,
    workspace: Option<MetaConfigInstance>,
    package: Option<MetaConfigInstance>,
) -> (layered: Result<MetaConfig, MetaConfigError>)
    ensures
        match layered {
            Ok(config) => !(workspace is Some && package is Some) && config.0@ == (seq![
                default_config,
            ] + (match workspace {
                Some(layer) => seq![layer],
                None => Seq::empty(),
            }) + (match package {
                Some(layer) => seq![layer],
                None => Seq::empty(),
            })),
            Err(MetaConfigError::WorkspaceAndPackage) => workspace is Some && package is Some,
        },
{
    if workspace.is_some() && package.is_some() {
        return Err(MetaConfigError::WorkspaceAndPackage);
    }
    let mut layers: Vec<MetaConfigInstance> = Vec::new();
    layers.push(default_config);
    if let Some(layer) = workspace {
        layers.push(layer);
    }
    if let Some(layer) = package {
        layers.push(layer);
    }
    let config = MetaConfig(layers);
    assert(config.0@ =~= (seq![default_config] + (match workspace {
        Some(layer) => seq![layer],
        None => Seq::empty(),
    }) + (match package {
        Some(layer) => seq![layer],
        None => Seq::empty(),
    })));
    Ok(config)
}

} // verus!
