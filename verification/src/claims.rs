//! What the store claims of the versions of one package: the audits and
//! exemptions as steps between versions, and the violations.

use crate::criteria::{close, named, CriteriaMapper, Criterion};
use crate::criteria_set::CriteriaSet;
use crate::format::{
    AuditEntry, AuditKind, AuditKindModel, AuditModel, CriteriaName, ExemptionModel, PackageName,
    UnauditedDependency,
};
use crate::storage::Store;
use crate::table::{entries_of, find_key};
use crate::version::{Version, VersionModel, VersionReq};
use vstd::prelude::*;

verus! {

/// The entry of the store that a claim comes from.
#[derive(Clone, Copy, Debug, PartialEq, Eq, Structural)]
pub enum ClaimOrigin {
    /// The store's own audit at this place in the package's list.
    Audit { index: usize },
    /// The audit at place `index` of the package's list in the audits of
    /// peer `peer`.
    Import { peer: usize, index: usize },
    /// The exemption at this place in the package's list.
    Exemption { index: usize },
    /// No entry: the package is not from the registry and needs no audit.
    FirstParty,
}

/// One step in the versions of a package: from nothing, for a full audit or
/// an exemption, or from an earlier version, for a delta audit.
#[derive(Debug)]
pub struct Claim {
    pub from: Option<Version>,
    pub to: Version,
    /// The criterion of the entry and everything it implies.
    pub criteria: CriteriaSet,
    /// What the entry asks of single dependencies.
    pub dependency_criteria: Vec<(PackageName, CriteriaSet)>,
    pub origin: ClaimOrigin,
}

/// A claim as a mathematical value.
pub struct ClaimModel {
    pub from: Option<VersionModel>,
    pub to: VersionModel,
    pub criteria: Set<int>,
    pub dependency_criteria: Seq<(Seq<char>, Set<int>)>,
    pub origin: ClaimOrigin,
}

/// The sets asked of single dependencies, as mathematical values.
pub open spec fn dependency_sets_view(list: Seq<(PackageName, CriteriaSet)>) -> Seq<
    (Seq<char>, Set<int>),
> {
    Seq::new(list.len(), |i: int| (list[i].0@, list[i].1@))
}

impl View for Claim {
    type V = ClaimModel;

    open spec fn view(&self) -> ClaimModel {
        ClaimModel {
            from: match self.from {
                Some(version) => Some(version@),
                None => None,
            },
            to: self.to@,
            criteria: self.criteria@,
            dependency_criteria: dependency_sets_view(self.dependency_criteria@),
            origin: self.origin,
        }
    }
}

/// The statement that the matching versions fail criteria.
#[derive(Debug)]
pub struct ViolationClaim {
    pub versions: VersionReq,
    pub criteria: CriteriaSet,
    pub origin: ClaimOrigin,
}

/// A violation as a mathematical value.
pub struct ViolationModel {
    pub versions: Seq<char>,
    pub criteria: Set<int>,
    pub origin: ClaimOrigin,
}

impl View for ViolationClaim {
    type V = ViolationModel;

    open spec fn view(&self) -> ViolationModel {
        ViolationModel { versions: self.versions@, criteria: self.criteria@, origin: self.origin }
    }
}

/// The claims of a list as mathematical values.
pub open spec fn claim_views(claims: Seq<Claim>) -> Seq<ClaimModel> {
    Seq::new(claims.len(), |i: int| claims[i]@)
}

/// The violations of a list as mathematical values.
pub open spec fn violation_views(violations: Seq<ViolationClaim>) -> Seq<ViolationModel> {
    Seq::new(violations.len(), |i: int| violations[i]@)
}

/// The audits of a list as mathematical values.
pub open spec fn audit_views(audits: Seq<AuditEntry>) -> Seq<AuditModel> {
    Seq::new(audits.len(), |i: int| audits[i]@)
}

/// The exemptions of a list as mathematical values.
pub open spec fn exemption_views(exemptions: Seq<UnauditedDependency>) -> Seq<ExemptionModel> {
    Seq::new(exemptions.len(), |i: int| exemptions[i]@)
}

/// The set that names stand for: the criteria named and everything they
/// imply. A name that no criterion has stands for nothing.
pub open spec fn set_of(
    all: Seq<Criterion>,
    edges: Seq<Seq<usize>>,
    names: Seq<Seq<char>>,
) -> Set<int> {
    close(edges, named(all, names))
}

/// The sets that dependency criteria stand for.
pub open spec fn dependency_sets(
    all: Seq<Criterion>,
    edges: Seq<Seq<usize>>,
    list: Seq<(Seq<char>, Seq<Seq<char>>)>,
) -> Seq<(Seq<char>, Set<int>)> {
    Seq::new(list.len(), |i: int| (list[i].0, set_of(all, edges, list[i].1)))
}

/// Where the audit at place `index` comes from: the store itself, or a
/// peer.
pub open spec fn audit_origin(peer: Option<usize>, index: int) -> ClaimOrigin {
    match peer {
        Some(p) => ClaimOrigin::Import { peer: p, index: index as usize },
        None => ClaimOrigin::Audit { index: index as usize },
    }
}

/// The step that an audit stands for; a violation stands for none.
pub open spec fn audit_claim(
    all: Seq<Criterion>,
    edges: Seq<Seq<usize>>,
    audit: AuditModel,
    origin: ClaimOrigin,
) -> Option<ClaimModel> {
    match audit.kind {
        AuditKindModel::Full { version, dependency_criteria } => Some(
            ClaimModel {
                from: None,
                to: version,
                criteria: set_of(all, edges, seq![audit.criteria]),
                dependency_criteria: dependency_sets(all, edges, dependency_criteria),
                origin,
            },
        ),
        AuditKindModel::Delta { from, to, dependency_criteria } => Some(
            ClaimModel {
                from: Some(from),
                to,
                criteria: set_of(all, edges, seq![audit.criteria]),
                dependency_criteria: dependency_sets(all, edges, dependency_criteria),
                origin,
            },
        ),
        AuditKindModel::Violation { .. } => None,
    }
}

/// The violation that an audit records, where it records one.
pub open spec fn audit_violation(
    all: Seq<Criterion>,
    edges: Seq<Seq<usize>>,
    audit: AuditModel,
    origin: ClaimOrigin,
) -> Option<ViolationModel> {
    match audit.kind {
        AuditKindModel::Violation { violation } => Some(
            ViolationModel {
                versions: violation,
                criteria: set_of(all, edges, seq![audit.criteria]),
                origin,
            },
        ),
        _ => None,
    }
}

/// The step that an exemption stands for: that of a full audit.
pub open spec fn exemption_claim(
    all: Seq<Criterion>,
    edges: Seq<Seq<usize>>,
    exemption: ExemptionModel,
    index: int,
) -> ClaimModel {
    ClaimModel {
        from: None,
        to: exemption.version,
        criteria: set_of(all, edges, seq![exemption.criteria]),
        dependency_criteria: dependency_sets(all, edges, exemption.dependency_criteria),
        origin: ClaimOrigin::Exemption { index: index as usize },
    }
}

/// The steps of the first `upto` audits of a list, in the list's order.
pub open spec fn audit_claims(
    all: Seq<Criterion>,
    edges: Seq<Seq<usize>>,
    audits: Seq<AuditModel>,
    peer: Option<usize>,
    upto: int,
) -> Seq<ClaimModel>
    decreases upto,
{
    if upto <= 0 {
        Seq::empty()
    } else {
        let before = audit_claims(all, edges, audits, peer, upto - 1);
        match audit_claim(all, edges, audits[upto - 1], audit_origin(peer, upto - 1)) {
            Some(claim) => before.push(claim),
            None => before,
        }
    }
}

/// The violations among the first `upto` audits of a list.
pub open spec fn audit_violations(
    all: Seq<Criterion>,
    edges: Seq<Seq<usize>>,
    audits: Seq<AuditModel>,
    peer: Option<usize>,
    upto: int,
) -> Seq<ViolationModel>
    decreases upto,
{
    if upto <= 0 {
        Seq::empty()
    } else {
        let before = audit_violations(all, edges, audits, peer, upto - 1);
        match audit_violation(all, edges, audits[upto - 1], audit_origin(peer, upto - 1)) {
            Some(violation) => before.push(violation),
            None => before,
        }
    }
}

/// The steps of a list of exemptions.
pub open spec fn exemption_claims(
    all: Seq<Criterion>,
    edges: Seq<Seq<usize>>,
    exemptions: Seq<ExemptionModel>,
) -> Seq<ClaimModel> {
    Seq::new(exemptions.len(), |i: int| exemption_claim(all, edges, exemptions[i], i))
}

/// The audits that peer `peer` has of the package called `name`.
pub open spec fn peer_audits(store: &Store, peer: int, name: Seq<char>) -> Seq<AuditModel> {
    audit_views(entries_of(store.imports.audits@[peer].1.audits@, name))
}

/// The steps that the first `upto` peers give for the package.
pub open spec fn import_claims(
    all: Seq<Criterion>,
    edges: Seq<Seq<usize>>,
    store: &Store,
    name: Seq<char>,
    upto: int,
) -> Seq<ClaimModel>
    decreases upto,
{
    if upto <= 0 {
        Seq::empty()
    } else {
        let audits = peer_audits(store, upto - 1, name);
        import_claims(all, edges, store, name, upto - 1) + audit_claims(
            all,
            edges,
            audits,
            Some((upto - 1) as usize),
            audits.len() as int,
        )
    }
}

/// The violations that the first `upto` peers record for the package.
pub open spec fn import_violations(
    all: Seq<Criterion>,
    edges: Seq<Seq<usize>>,
    store: &Store,
    name: Seq<char>,
    upto: int,
) -> Seq<ViolationModel>
    decreases upto,
{
    if upto <= 0 {
        Seq::empty()
    } else {
        let audits = peer_audits(store, upto - 1, name);
        import_violations(all, edges, store, name, upto - 1) + audit_violations(
            all,
            edges,
            audits,
            Some((upto - 1) as usize),
            audits.len() as int,
        )
    }
}

/// The store's own audits of the package called `name`.
pub open spec fn own_audits(store: &Store, name: Seq<char>) -> Seq<AuditModel> {
    audit_views(entries_of(store.audits.audits@, name))
}

/// The exemptions of the package called `name`.
pub open spec fn own_exemptions(store: &Store, name: Seq<char>) -> Seq<ExemptionModel> {
    exemption_views(entries_of(store.config.unaudited@, name))
}

/// Every step that the store gives for the package called `name`: its own
/// audits, then those of the peers, then the exemptions.
pub open spec fn package_claims(
    all: Seq<Criterion>,
    edges: Seq<Seq<usize>>,
    store: &Store,
    name: Seq<char>,
) -> Seq<ClaimModel> {
    audit_claims(all, edges, own_audits(store, name), None, own_audits(store, name).len() as int)
        + import_claims(all, edges, store, name, store.imports.audits@.len() as int)
        + exemption_claims(all, edges, own_exemptions(store, name))
}

/// Every violation that the store records for the package called `name`:
/// its own, then those of the peers.
pub open spec fn package_violations(
    all: Seq<Criterion>,
    edges: Seq<Seq<usize>>,
    store: &Store,
    name: Seq<char>,
) -> Seq<ViolationModel> {
    audit_violations(
        all,
        edges,
        own_audits(store, name),
        None,
        own_audits(store, name).len() as int,
    ) + import_violations(all, edges, store, name, store.imports.audits@.len() as int)
}

/// The sets that dependency criteria stand for.
pub fn resolve_dependency_criteria(
    mapper: &CriteriaMapper,
    list: &Vec<(PackageName, Vec<CriteriaName>)>,
) -> (sets: Vec<(PackageName, CriteriaSet)>)
    requires
        mapper.wf(),
    ensures
        dependency_sets_view(sets@) == dependency_sets(
            mapper.model(),
            mapper.edges(),
            crate::format::dependency_criteria_view(list@),
        ),
{
    let mut sets: Vec<(PackageName, CriteriaSet)> = Vec::new();
    let mut i: usize = 0;
    while i < list.len()
        invariant
            i <= list@.len(),
            mapper.wf(),
            sets@.len() == i,
            forall|j: int|
                0 <= j < i ==> (#[trigger] sets@[j]).0@ == list@[j].0@ && sets@[j].1@ == set_of(
                    mapper.model(),
                    mapper.edges(),
                    crate::text::views(list@[j].1@),
                ),
        decreases list@.len() - i,
    {
        let set = mapper.criteria_from_list(&list[i].1);
        sets.push((list[i].0.clone(), set));
        i += 1;
    }
    assert(dependency_sets_view(sets@) =~= dependency_sets(
        mapper.model(),
        mapper.edges(),
        crate::format::dependency_criteria_view(list@),
    ));
    sets
}

/// Appends the steps and the violations of a list of audits.
fn push_audits(
    claims: &mut Vec<Claim>,
    violations: &mut Vec<ViolationClaim>,
    mapper: &CriteriaMapper,
    audits: &Vec<AuditEntry>,
    peer: Option<usize>,
)
    requires
        mapper.wf(),
    ensures
        claim_views(final(claims)@) == claim_views(old(claims)@) + audit_claims(
            mapper.model(),
            mapper.edges(),
            audit_views(audits@),
            peer,
            audits@.len() as int,
        ),
        violation_views(final(violations)@) == violation_views(old(violations)@)
            + audit_violations(
            mapper.model(),
            mapper.edges(),
            audit_views(audits@),
            peer,
            audits@.len() as int,
        ),
{
    let ghost all = mapper.model();
    let ghost edges = mapper.edges();
    let ghost models = audit_views(audits@);
    let ghost claims_start = claim_views(claims@);
    let ghost violations_start = violation_views(violations@);
    let mut i: usize = 0;
    assert(claim_views(claims@) =~= claims_start + audit_claims(all, edges, models, peer, 0));
    assert(violation_views(violations@) =~= violations_start + audit_violations(
        all,
        edges,
        models,
        peer,
        0,
    ));
    while i < audits.len()
        invariant
            i <= audits@.len(),
            mapper.wf(),
            all == mapper.model(),
            edges == mapper.edges(),
            models == audit_views(audits@),
            claim_views(claims@) == claims_start + audit_claims(all, edges, models, peer, i as int),
            violation_views(violations@) == violations_start + audit_violations(
                all,
                edges,
                models,
                peer,
                i as int,
            ),
        decreases audits@.len() - i,
    {
        let audit = &audits[i];
        let ghost claims_before = claim_views(claims@);
        let ghost violations_before = violation_views(violations@);
        let origin = match peer {
            Some(p) => ClaimOrigin::Import { peer: p, index: i },
            None => ClaimOrigin::Audit { index: i },
        };
        let criteria = mapper.criteria_from_name(audit.criteria.as_str());
        assert(models[i as int] == audit@);
        match &audit.kind {
            AuditKind::Full { version, dependency_criteria } => {
                let claim = Claim {
                    from: None,
                    to: version.clone(),
                    criteria,
                    dependency_criteria: resolve_dependency_criteria(mapper, dependency_criteria),
                    origin,
                };
                assert(Some(claim@) == audit_claim(all, edges, audit@, origin));
                claims.push(claim);
                assert(claim_views(claims@) =~= claims_before.push(claim@));
            },
            AuditKind::Delta { delta, dependency_criteria } => {
                let claim = Claim {
                    from: Some(delta.from.clone()),
                    to: delta.to.clone(),
                    criteria,
                    dependency_criteria: resolve_dependency_criteria(mapper, dependency_criteria),
                    origin,
                };
                assert(Some(claim@) == audit_claim(all, edges, audit@, origin));
                claims.push(claim);
                assert(claim_views(claims@) =~= claims_before.push(claim@));
            },
            AuditKind::Violation { violation } => {
                let found = ViolationClaim { versions: violation.clone(), criteria, origin };
                assert(Some(found@) == audit_violation(all, edges, audit@, origin));
                violations.push(found);
                assert(violation_views(violations@) =~= violations_before.push(found@));
            },
        }
        assert(claim_views(claims@) =~= claims_start + audit_claims(
            all,
            edges,
            models,
            peer,
            i + 1,
        ));
        assert(violation_views(violations@) =~= violations_start + audit_violations(
            all,
            edges,
            models,
            peer,
            i + 1,
        ));
        i += 1;
    }
}

/// Appends the steps and the violations that peer `p` gives for the package
/// called `name`.
fn push_peer(
    claims: &mut Vec<Claim>,
    violations: &mut Vec<ViolationClaim>,
    mapper: &CriteriaMapper,
    store: &Store,
    name: &str,
    p: usize,
)
    requires
        mapper.wf(),
        p < store.imports.audits@.len(),
    ensures
        claim_views(final(claims)@) == claim_views(old(claims)@) + audit_claims(
            mapper.model(),
            mapper.edges(),
            peer_audits(store, p as int, name@),
            Some(p),
            peer_audits(store, p as int, name@).len() as int,
        ),
        violation_views(final(violations)@) == violation_views(old(violations)@)
            + audit_violations(
            mapper.model(),
            mapper.edges(),
            peer_audits(store, p as int, name@),
            Some(p),
            peer_audits(store, p as int, name@).len() as int,
        ),
{
    let peer = &store.imports.audits[p].1;
    let ghost claims_before = claim_views(claims@);
    let ghost violations_before = violation_views(violations@);
    match find_key(&peer.audits, name) {
        Some(at) => {
            push_audits(claims, violations, mapper, &peer.audits[at].1, Some(p));
        },
        None => {
            assert(peer_audits(store, p as int, name@) =~= Seq::<AuditModel>::empty());
            assert(claim_views(claims@) =~= claims_before + Seq::<ClaimModel>::empty());
            assert(violation_views(violations@) =~= violations_before + Seq::<
                ViolationModel,
            >::empty());
        },
    }
}

/// Appends the steps and the violations that the peers give for the package
/// called `name`.
fn push_imports(
    claims: &mut Vec<Claim>,
    violations: &mut Vec<ViolationClaim>,
    mapper: &CriteriaMapper,
    store: &Store,
    name: &str,
)
    requires
        mapper.wf(),
    ensures
        claim_views(final(claims)@) == claim_views(old(claims)@) + import_claims(
            mapper.model(),
            mapper.edges(),
            store,
            name@,
            store.imports.audits@.len() as int,
        ),
        violation_views(final(violations)@) == violation_views(old(violations)@)
            + import_violations(
            mapper.model(),
            mapper.edges(),
            store,
            name@,
            store.imports.audits@.len() as int,
        ),
{
    let ghost all = mapper.model();
    let ghost edges = mapper.edges();
    let ghost own_claims = claim_views(claims@);
    let ghost own_violations = violation_views(violations@);
    let mut p: usize = 0;
    assert(claim_views(claims@) =~= own_claims + import_claims(all, edges, store, name@, 0));
    assert(violation_views(violations@) =~= own_violations + import_violations(
        all,
        edges,
        store,
        name@,
        0,
    ));
    while p < store.imports.audits.len()
        invariant
            p <= store.imports.audits@.len(),
            mapper.wf(),
            all == mapper.model(),
            edges == mapper.edges(),
            claim_views(claims@) == own_claims + import_claims(all, edges, store, name@, p as int),
            violation_views(violations@) == own_violations + import_violations(
                all,
                edges,
                store,
                name@,
                p as int,
            ),
        decreases store.imports.audits@.len() - p,
    {
        let ghost claims_before = import_claims(all, edges, store, name@, p as int);
        let ghost violations_before = import_violations(all, edges, store, name@, p as int);
        push_peer(claims, violations, mapper, store, name, p);
        proof {
            let audits = peer_audits(store, p as int, name@);
            let more = audit_claims(all, edges, audits, Some(p), audits.len() as int);
            let bans = audit_violations(all, edges, audits, Some(p), audits.len() as int);
            assert(import_claims(all, edges, store, name@, p + 1) == claims_before + more);
            assert(import_violations(all, edges, store, name@, p + 1) == violations_before + bans);
            assert(claim_views(claims@) =~= own_claims + (claims_before + more));
            assert(violation_views(violations@) =~= own_violations + (violations_before + bans));
        }
        p += 1;
    }
}

/// Appends the steps that a list of exemptions stands for.
fn push_exemptions(
    claims: &mut Vec<Claim>,
    mapper: &CriteriaMapper,
    exemptions: &Vec<UnauditedDependency>,
)
    requires
        mapper.wf(),
    ensures
        claim_views(final(claims)@) == claim_views(old(claims)@) + exemption_claims(
            mapper.model(),
            mapper.edges(),
            exemption_views(exemptions@),
        ),
{
    let ghost all = mapper.model();
    let ghost edges = mapper.edges();
    let ghost start = claim_views(claims@);
    let ghost models = exemption_views(exemptions@);
    let mut i: usize = 0;
    while i < exemptions.len()
        invariant
            i <= exemptions@.len(),
            mapper.wf(),
            all == mapper.model(),
            edges == mapper.edges(),
            models == exemption_views(exemptions@),
            claim_views(claims@).len() == start.len() + i,
            forall|j: int| 0 <= j < start.len() ==> claim_views(claims@)[j] == start[j],
            forall|j: int|
                0 <= j < i ==> claim_views(claims@)[start.len() + j] == exemption_claim(
                    all,
                    edges,
                    models[j],
                    j,
                ),
        decreases exemptions@.len() - i,
    {
        let exemption = &exemptions[i];
        let ghost before = claim_views(claims@);
        let claim = Claim {
            from: None,
            to: exemption.version.clone(),
            criteria: mapper.criteria_from_name(exemption.criteria.as_str()),
            dependency_criteria: resolve_dependency_criteria(
                mapper,
                &exemption.dependency_criteria,
            ),
            origin: ClaimOrigin::Exemption { index: i },
        };
        assert(models[i as int] == exemption@);
        assert(claim@ == exemption_claim(all, edges, exemption@, i as int));
        claims.push(claim);
        assert(claim_views(claims@) =~= before.push(claim@));
        i += 1;
    }
    assert(claim_views(claims@) =~= start + exemption_claims(all, edges, models));
}

/// Every step and every violation that the store gives for the package
/// called `name`.
pub fn gather_claims(store: &Store, mapper: &CriteriaMapper, name: &str) -> (found: (
    Vec<Claim>,
    Vec<ViolationClaim>,
))
    requires
        mapper.wf(),
    ensures
        claim_views(found.0@) == package_claims(mapper.model(), mapper.edges(), store, name@),
        violation_views(found.1@) == package_violations(
            mapper.model(),
            mapper.edges(),
            store,
            name@,
        ),
{
    let ghost all = mapper.model();
    let ghost edges = mapper.edges();
    let mut claims: Vec<Claim> = Vec::new();
    let mut violations: Vec<ViolationClaim> = Vec::new();
    assert(claim_views(claims@) =~= Seq::<ClaimModel>::empty());
    assert(violation_views(violations@) =~= Seq::<ViolationModel>::empty());
    match find_key(&store.audits.audits, name) {
        Some(at) => {
            push_audits(&mut claims, &mut violations, mapper, &store.audits.audits[at].1, None);
        },
        None => {
            assert(own_audits(store, name@) =~= Seq::<AuditModel>::empty());
        },
    }
    assert(claim_views(claims@) =~= audit_claims(
        all,
        edges,
        own_audits(store, name@),
        None,
        own_audits(store, name@).len() as int,
    ));
    assert(violation_views(violations@) =~= audit_violations(
        all,
        edges,
        own_audits(store, name@),
        None,
        own_audits(store, name@).len() as int,
    ));
    push_imports(&mut claims, &mut violations, mapper, store, name);
    let ghost with_imports = claim_views(claims@);
    match find_key(&store.config.unaudited, name) {
        Some(at) => {
            push_exemptions(&mut claims, mapper, &store.config.unaudited[at].1);
        },
        None => {
            assert(own_exemptions(store, name@) =~= Seq::<ExemptionModel>::empty());
            assert(claim_views(claims@) =~= with_imports + exemption_claims(
                all,
                edges,
                own_exemptions(store, name@),
            ));
        },
    }
    (claims, violations)
}

} // verus!
