//! The command line as plain values: the arguments of each command and the
//! decisions that depend on them alone.

use crate::filter::GraphFilter;
use crate::format::{CriteriaName, PackageName};
use crate::text::{chars_of, string_of, views};
use crate::version::{Version, VersionReq};
use vstd::prelude::*;

verus! {

/// The program as cargo starts it: `cargo vet ..`.
pub enum FakeCli {
    Vet(Cli),
}

/// Which packages of the workspace a command is about.
pub struct WorkspaceArgs {
    /// `--package`: the packages named.
    pub package: Vec<String>,
    /// `--workspace`: all packages of the workspace.
    pub workspace: bool,
    /// `--all`: the older spelling of `--workspace`.
    pub all: bool,
    /// `--exclude`: the packages left out.
    pub exclude: Vec<String>,
}

/// The arguments that every command shares.
pub struct Cli {
    /// The command; the plain check where there is none.
    pub command: Option<Commands>,
    /// `--manifest-path`.
    pub manifest_path: Option<String>,
    pub workspace: WorkspaceArgs,
    pub features: Features,
    /// Do not fetch new imported audits.
    pub locked: bool,
    /// Avoid the network entirely.
    pub frozen: bool,
    /// How much to log.
    pub verbose: Verbose,
    /// Where to write output instead of standard output.
    pub output_file: Option<String>,
    /// Where to write logs instead of standard error.
    pub log_file: Option<String>,
    pub output_format: OutputFormat,
    /// Where the cache of diff sizes is kept.
    pub diff_cache: Option<String>,
    /// Filters applied to the dependency graph before anything else.
    pub filter_graph: Option<Vec<GraphFilter>>,
}

/// The commands; each carries its own arguments.
pub enum Commands {
    Init(InitArgs),
    AcceptCriteriaChange(AcceptCriteriaChangeArgs),
    Inspect(InspectArgs),
    Diff(DiffArgs),
    Certify(CertifyArgs),
    AddUnaudited(AddUnauditedArgs),
    RecordViolation(RecordViolationArgs),
    Suggest(SuggestArgs),
    Fmt(FmtArgs),
    FetchImports(FetchImportsArgs),
    RegenerateUnaudited(RegenerateUnauditedArgs),
    DumpGraph(DumpGraphArgs),
    HelpMarkdown(HelpMarkdownArgs),
}

/// Set up a store for the workspace.
pub struct InitArgs {}

/// Fetch a package's source for review.
pub struct InspectArgs {
    pub package: PackageName,
    pub version: Version,
}

/// Show the difference between two versions of a package.
pub struct DiffArgs {
    pub package: PackageName,
    pub version1: Version,
    pub version2: Version,
}

/// Record an audit.
pub struct CertifyArgs {
    pub package: Option<PackageName>,
    pub version1: Option<Version>,
    /// Where present, the audit is of the changes from `version1`.
    pub version2: Option<Version>,
    pub criteria: Vec<CriteriaName>,
    pub dependency_criteria: Vec<DependencyCriteriaArg>,
    pub who: Option<String>,
    pub notes: Option<String>,
    pub accept_all: bool,
}

/// Record that versions of a package fail criteria.
pub struct RecordViolationArgs {
    pub package: PackageName,
    pub versions: VersionReq,
    pub criteria: Vec<CriteriaName>,
    pub who: Option<String>,
    pub notes: Option<String>,
}

/// Trust a version of a package without an audit.
pub struct AddUnauditedArgs {
    pub package: PackageName,
    pub version: Version,
    pub criteria: Vec<CriteriaName>,
    pub dependency_criteria: Vec<DependencyCriteriaArg>,
    pub notes: Option<String>,
    pub no_suggest: bool,
}

/// Suggest what to audit next.
pub struct SuggestArgs {
    /// Suggest audits below a package whose own audits are missing, as if
    /// its dependencies needed what it needs.
    pub guess_deeper: bool,
}

/// Rewrite the files of the store in their canonical form.
pub struct FmtArgs {}

/// Fetch the audits of the peers.
pub struct FetchImportsArgs {}

/// Regenerate the exemptions so that the check passes with as few as it takes.
pub struct RegenerateUnauditedArgs {}

/// Accept the changes that a peer made to its criteria.
pub struct AcceptCriteriaChangeArgs {}

/// Print the help of every command as one manual.
pub struct HelpMarkdownArgs {}

/// The features with which the package metadata is computed.
#[derive(Clone, Debug, PartialEq, Eq)]
#[non_exhaustive]
pub struct Features {
    /// Do not ask for all features.
    pub no_all_features: bool,
    /// Leave the `default` feature off.
    pub no_default_features: bool,
    /// The features to switch on.
    pub features: Vec<String>,
}

impl Default for Features {
    fn default() -> (features: Features)
        ensures
            !features.no_all_features,
            !features.no_default_features,
            features.features@.len() == 0,
    {
        Features { no_all_features: false, no_default_features: false, features: Vec::new() }
    }
}

/// Print the dependency graph.
pub struct DumpGraphArgs {
    pub depth: DumpGraphDepth,
}

/// How much of the graph a dump shows.
#[derive(Copy, Clone, Debug, PartialEq, Eq, Structural, PartialOrd, Ord)]
pub enum DumpGraphDepth {
    Roots,
    Workspace,
    FirstParty,
    FirstPartyAndDirects,
    Full,
}

/// Logging verbosity levels.
#[derive(Copy, Clone, Debug, PartialEq, Eq, Structural, PartialOrd, Ord)]
pub enum Verbose {
    Off,
    Error,
    Warn,
    Info,
    Debug,
    Trace,
}

/// Whether output is written for people or for programs.
#[derive(Copy, Clone, Debug, PartialEq, Eq, Structural, PartialOrd, Ord)]
pub enum OutputFormat {
    Human,
    Json,
}

/// One `dependency:criteria` argument: the criteria asked of one dependency
/// of the audited package.
#[derive(Debug)]
pub struct DependencyCriteriaArg {
    pub dependency: PackageName,
    pub criteria: CriteriaName,
}

impl Clone for DependencyCriteriaArg {
    fn clone(&self) -> (copy: DependencyCriteriaArg)
        ensures
            copy.dependency@ == self.dependency@,
            copy.criteria@ == self.criteria@,
    {
        DependencyCriteriaArg {
            dependency: self.dependency.clone(),
            criteria: self.criteria.clone(),
        }
    }
}

/// Where the text of an argument stopped being one, counted in characters.
#[derive(Clone, Copy, Debug, PartialEq, Eq, Structural)]
pub struct ArgParseError {
    pub offset: usize,
}

/// The first position at or after `pos` that holds a colon.
pub open spec fn colon_at(s: Seq<char>, pos: int) -> int
    decreases s.len() - pos,
{
    if 0 <= pos < s.len() && s[pos] != ':' {
        colon_at(s, pos + 1)
    } else {
        pos
    }
}

/// The two parts of `dependency:criteria`: each part is non-empty and holds
/// no colon. The error is the first position that breaks this.
pub open spec fn parse_dependency_criteria(s: Seq<char>) -> Result<
    (Seq<char>, Seq<char>),
    ArgParseError,
> {
    let first = colon_at(s, 0);
    let second = colon_at(s, first + 1);
    if first == 0 || first >= s.len() {
        Err(ArgParseError { offset: first as usize })
    } else if second == first + 1 {
        Err(ArgParseError { offset: second as usize })
    } else if second < s.len() {
        Err(ArgParseError { offset: second as usize })
    } else {
        Ok((s.subrange(0, first), s.subrange(first + 1, s.len() as int)))
    }
}

fn find_colon(s: &Vec<char>, pos: usize) -> (end: usize)
    requires
        pos <= s@.len(),
    ensures
        end == colon_at(s@, pos as int),
        pos <= end <= s@.len(),
{
    let mut end = pos;
    while end < s.len() && s[end] != ':'
        invariant
            pos <= end <= s@.len(),
            colon_at(s@, pos as int) == colon_at(s@, end as int),
        decreases s@.len() - end,
    {
        end += 1;
    }
    end
}

impl DependencyCriteriaArg {
    /// Parses `dependency:criteria`.
    pub fn from_str(text: &str) -> (parsed: Result<DependencyCriteriaArg, ArgParseError>)
        ensures
            match parse_dependency_criteria(text@) {
                Ok((dependency, criteria)) => parsed is Ok && parsed->Ok_0.dependency@
                    == dependency && parsed->Ok_0.criteria@ == criteria,
                Err(e) => parsed is Err && parsed->Err_0 == e,
            },
    {
        let s = chars_of(text);
        let first = find_colon(&s, 0);
        if first == 0 || first >= s.len() {
            return Err(ArgParseError { offset: first });
        }
        let second = find_colon(&s, first + 1);
        if second == first + 1 || second < s.len() {
            return Err(ArgParseError { offset: second });
        }
        Ok(
            DependencyCriteriaArg {
                dependency: string_of(&s, 0, first),
                criteria: string_of(&s, first + 1, s.len()),
            },
        )
    }
}

impl Cli {
    /// The arguments of a run without any: no command, nothing logged,
    /// output for people.
    pub fn mock() -> (cli: Cli)
        ensures
            cli.command is None,
            cli.manifest_path is None,
            !cli.workspace.workspace && !cli.workspace.all,
            cli.workspace.package@.len() == 0 && cli.workspace.exclude@.len() == 0,
            !cli.features.no_all_features && !cli.features.no_default_features,
            cli.features.features@.len() == 0,
            !cli.locked && !cli.frozen,
            cli.verbose == Verbose::Off,
            cli.output_file is None && cli.log_file is None && cli.diff_cache is None,
            cli.output_format == OutputFormat::Human,
            cli.filter_graph is None,
    {
        Cli {
            command: None,
            manifest_path: None,
            workspace: WorkspaceArgs {
                package: Vec::new(),
                workspace: false,
                all: false,
                exclude: Vec::new(),
            },
            features: Features {
                no_all_features: false,
                no_default_features: false,
                features: Vec::new(),
            },
            locked: false,
            frozen: false,
            verbose: Verbose::Off,
            output_file: None,
            output_format: OutputFormat::Human,
            log_file: None,
            diff_cache: None,
            filter_graph: None,
        }
    }
}

/// `flag` before each of `values`, in order.
pub open spec fn flagged(flag: Seq<char>, values: Seq<Seq<char>>) -> Seq<Seq<char>>
    decreases values.len(),
{
    if values.len() == 0 {
        Seq::empty()
    } else {
        flagged(flag, values.drop_last()).push(flag).push(values.last())
    }
}

/// The options handed to `cargo metadata` besides the manifest and the
/// features: the choice of packages, and `--frozen` or else `--locked`, so
/// that the lock file is never rewritten.
pub open spec fn metadata_options(cli: &Cli) -> Seq<Seq<char>> {
    (if cli.workspace.all || cli.workspace.workspace {
        seq!["--workspace"@]
    } else {
        Seq::<Seq<char>>::empty()
    }) + flagged("--package"@, views(cli.workspace.package@)) + flagged(
        "--exclude"@,
        views(cli.workspace.exclude@),
    ) + seq![
        if cli.frozen {
            "--frozen"@
        } else {
            "--locked"@
        },
    ]
}

fn push_flagged(options: &mut Vec<String>, flag: &str, values: &Vec<String>)
    ensures
        views(final(options)@) == views(old(options)@) + flagged(flag@, views(values@)),
{
    let ghost start = views(options@);
    let mut i: usize = 0;
    assert(views(values@.subrange(0, 0)) =~= Seq::<Seq<char>>::empty());
    assert(views(options@) =~= start + flagged(flag@, views(values@.subrange(0, 0))));
    while i < values.len()
        invariant
            i <= values@.len(),
            views(options@) == start + flagged(flag@, views(values@.subrange(0, i as int))),
        decreases values@.len() - i,
    {
        let ghost before = views(options@);
        let ghost upto = views(values@.subrange(0, i as int));
        let ghost next = views(values@.subrange(0, i + 1));
        options.push(flag.to_owned());
        options.push(values[i].clone());
        proof {
            assert(next.drop_last() =~= upto);
            assert(next.last() == values@[i as int]@);
            assert(views(options@) =~= before.push(flag@).push(values@[i as int]@));
            assert(views(options@) =~= start + flagged(flag@, next));
        }
        i += 1;
    }
    assert(values@.subrange(0, i as int) =~= values@);
}

/// The options handed to `cargo metadata`; see [`metadata_options`].
pub fn cargo_metadata_options(cli: &Cli) -> (options: Vec<String>)
    ensures
        views(options@) == metadata_options(cli),
{
    let mut options: Vec<String> = Vec::new();
    if cli.workspace.all || cli.workspace.workspace {
        options.push("--workspace".to_owned());
    }
    let ghost head = views(options@);
    assert(head =~= if cli.workspace.all || cli.workspace.workspace {
        seq!["--workspace"@]
    } else {
        Seq::<Seq<char>>::empty()
    });
    push_flagged(&mut options, "--package", &cli.workspace.package);
    push_flagged(&mut options, "--exclude", &cli.workspace.exclude);
    let ghost body = views(options@);
    if cli.frozen {
        options.push("--frozen".to_owned());
    } else {
        options.push("--locked".to_owned());
    }
    assert(views(options@) =~= body + seq![
        if cli.frozen {
            "--frozen"@
        } else {
            "--locked"@
        },
    ]);
    options
}

impl Commands {
    /// Whether the command runs without a store and without package
    /// metadata.
    pub fn is_freestanding(&self) -> (free: bool)
        ensures
            free == (self is Inspect || self is Diff || self is HelpMarkdown),
    {
        match self {
            Commands::Inspect(_) => true,
            Commands::Diff(_) => true,
            Commands::HelpMarkdown(_) => true,
            _ => false,
        }
    }
}

/// Why a command cannot run on the store as it is.
#[derive(Clone, Copy, Debug, PartialEq, Eq, Structural)]
pub enum StoreStateError {
    /// `init` was asked for and the store is there already.
    AlreadyInitialized,
    /// Another command was asked for and there is no store yet.
    NotInitialized,
}

/// Whether `command` may run, given whether the store exists: `init` needs
/// that it does not, every other command that it does.
pub fn check_store_state(command: &Option<Commands>, initialized: bool) -> (ok: Result<
    (),
    StoreStateError,
>)
    ensures
        ok == (if command is Some && command->0 is Init {
            if initialized {
                Err::<(), StoreStateError>(StoreStateError::AlreadyInitialized)
            } else {
                Ok::<(), StoreStateError>(())
            }
        } else {
            if initialized {
                Ok::<(), StoreStateError>(())
            } else {
                Err::<(), StoreStateError>(StoreStateError::NotInitialized)
            }
        }),
{
    let is_init = match command {
        Some(Commands::Init(_)) => true,
        _ => false,
    };
    if is_init {
        if initialized {
            Err(StoreStateError::AlreadyInitialized)
        } else {
            Ok(())
        }
    } else if !initialized {
        Err(StoreStateError::NotInitialized)
    } else {
        Ok(())
    }
}

} // verus!
