//! The criteria of a store, indexed, with the closure of `implies`.

use crate::criteria_set::{CriteriaSet, MAX_CRITERIA};
use crate::format::{CriteriaEntry, CriteriaName, SAFE_TO_DEPLOY, SAFE_TO_RUN};
use crate::reach::{
    edges_of, edges_wf, has_edge, lemma_reaches_self, lemma_reaches_step, lemma_reaches_trans,
    path_between, reach_from, reachable_from, reaches, unmarked,
};
use crate::text::{str_eq, views};
use vstd::prelude::*;

verus! {

/// One criterion as the mapper sees it: its name and the names it implies.
pub struct Criterion {
    pub name: Seq<char>,
    pub implies: Seq<Seq<char>>,
}

/// The two criteria that every store has, in the order of their indices.
pub open spec fn builtin_criteria() -> Seq<Criterion> {
    seq![
        Criterion { name: SAFE_TO_RUN@, implies: Seq::empty() },
        Criterion { name: SAFE_TO_DEPLOY@, implies: seq![SAFE_TO_RUN@] },
    ]
}

/// The criteria of a table, in the table's order.
pub open spec fn table_criteria(table: Seq<(CriteriaName, CriteriaEntry)>) -> Seq<Criterion> {
    Seq::new(
        table.len(),
        |i: int|
            Criterion {
                name: table[i].0@,
                implies: Seq::new(table[i].1.implies@.len(), |k: int| table[i].1.implies@[k]@),
            },
    )
}

/// All criteria of a store: the built-ins, then the store's own table.
pub open spec fn universe(table: Seq<(CriteriaName, CriteriaEntry)>) -> Seq<Criterion> {
    builtin_criteria() + table_criteria(table)
}

/// Whether some criterion of `all` is called `name`.
pub open spec fn known_name(all: Seq<Criterion>, name: Seq<char>) -> bool {
    exists|i: int| 0 <= i < all.len() && #[trigger] all[i].name == name
}

/// The index of the criterion called `name`, where there is one.
pub open spec fn name_index(all: Seq<Criterion>, name: Seq<char>) -> int {
    choose|i: int| 0 <= i < all.len() && #[trigger] all[i].name == name
}

/// No two criteria share a name.
pub open spec fn distinct_names(all: Seq<Criterion>) -> bool {
    forall|i: int, j: int| 0 <= i < j < all.len() ==> all[i].name != all[j].name
}

/// Every implied name is the name of a criterion.
pub open spec fn implies_known(all: Seq<Criterion>) -> bool {
    forall|i: int, k: int|
        0 <= i < all.len() && 0 <= k < all[i].implies.len() ==> known_name(
            all,
            #[trigger] all[i].implies[k],
        )
}

/// The `implies` relation as a graph on indices.
pub open spec fn implies_edges(all: Seq<Criterion>) -> Seq<Seq<usize>> {
    Seq::new(
        all.len(),
        |i: int|
            Seq::new(all[i].implies.len(), |k: int| name_index(all, all[i].implies[k]) as usize),
    )
}

/// Criterion `i` implies, in one or more steps, itself.
pub open spec fn on_cycle(edges: Seq<Seq<usize>>, i: int) -> bool {
    exists|k: int| 0 <= k < edges[i].len() && reaches(edges, (#[trigger] edges[i][k]) as int, i)
}

/// No criterion implies itself.
pub open spec fn acyclic(edges: Seq<Seq<usize>>) -> bool {
    forall|i: int| 0 <= i < edges.len() ==> !on_cycle(edges, i)
}

/// What a store's criteria must satisfy.
pub open spec fn valid_universe(all: Seq<Criterion>) -> bool {
    &&& all.len() <= MAX_CRITERIA
    &&& distinct_names(all)
    &&& implies_known(all)
    &&& acyclic(implies_edges(all))
}

/// The closure of a set of criteria under `implies`: every criterion that a
/// member of `set` implies in zero or more steps.
pub open spec fn close(edges: Seq<Seq<usize>>, set: Set<int>) -> Set<int> {
    Set::new(|j: int| exists|i: int| set.contains(i) && #[trigger] reaches(edges, i, j))
}

/// The criteria that `names` names.
pub open spec fn named(all: Seq<Criterion>, names: Seq<Seq<char>>) -> Set<int> {
    Set::new(|i: int| 0 <= i < all.len() && names.contains(all[i].name))
}

/// Member `i` of `set` is implied by no other member.
pub open spec fn minimal_in(edges: Seq<Seq<usize>>, set: Set<int>, i: int) -> bool {
    set.contains(i) && forall|j: int| set.contains(j) && j != i ==> !reaches(edges, j, i)
}

/// Why a criteria table was refused.
#[derive(Clone, Copy, Debug, PartialEq, Eq, Structural)]
pub enum CriteriaError {
    /// More criteria than a set can hold.
    TooMany,
    /// The criterion at `index` has the name of an earlier one.
    Duplicate { index: usize },
    /// The criterion at `index` implies, at place `implied`, a name that no
    /// criterion has.
    Unknown { index: usize, implied: usize },
    /// The criterion at `index` implies itself through one or more steps.
    Cyclic { index: usize },
}

/// The criteria of a store by index, each with everything it implies.
pub struct CriteriaMapper {
    /// The criteria by index: the two built-ins, then the store's table.
    pub list: Vec<(CriteriaName, CriteriaEntry)>,
    /// For each criterion, the indices of the criteria it implies directly.
    pub implies: Vec<Vec<usize>>,
    /// For each criterion, itself and everything it implies.
    pub implied_criteria: Vec<CriteriaSet>,
}

impl CriteriaMapper {
    /// The criteria as mathematical values.
    pub open spec fn model(&self) -> Seq<Criterion> {
        table_criteria(self.list@)
    }

    /// The `implies` graph.
    pub open spec fn edges(&self) -> Seq<Seq<usize>> {
        edges_of(&self.implies)
    }

    /// The number of criteria.
    pub open spec fn count(&self) -> int {
        self.list@.len() as int
    }

    /// The mapper's invariant.
    pub open spec fn wf(&self) -> bool {
        &&& self.implies@.len() == self.list@.len()
        &&& self.implied_criteria@.len() == self.list@.len()
        &&& self.list@.len() >= 2
        &&& self.model().subrange(0, 2) == builtin_criteria()
        &&& valid_universe(self.model())
        &&& self.edges() == implies_edges(self.model())
        &&& edges_wf(self.edges())
        &&& forall|i: int|
            0 <= i < self.list@.len() ==> (#[trigger] self.implied_criteria@[i])@ == close(
                self.edges(),
                set![i],
            )
    }
}

/// Only a criterion of the graph reaches or is reached.
pub proof fn lemma_reaches_in_range(edges: Seq<Seq<usize>>, i: int, j: int)
    requires
        reaches(edges, i, j),
    ensures
        0 <= i < edges.len(),
        0 <= j < edges.len(),
{
    let p = choose|p: Seq<int>| path_between(edges, p, i, j);
    assert(0 <= p[0] < edges.len());
    assert(0 <= p[p.len() - 1] < edges.len());
}

/// Closing a closed set adds nothing.
pub proof fn lemma_close_idempotent(edges: Seq<Seq<usize>>, set: Set<int>)
    ensures
        close(edges, close(edges, set)) == close(edges, set),
{
    let once = close(edges, set);
    let twice = close(edges, once);
    assert forall|j: int| twice.contains(j) == once.contains(j) by {
        if twice.contains(j) {
            let k = choose|k: int| once.contains(k) && #[trigger] reaches(edges, k, j);
            let i = choose|i: int| set.contains(i) && #[trigger] reaches(edges, i, k);
            lemma_reaches_trans(edges, i, k, j);
        }
        if once.contains(j) {
            let i = choose|i: int| set.contains(i) && #[trigger] reaches(edges, i, j);
            lemma_reaches_in_range(edges, i, j);
            lemma_reaches_self(edges, j);
        }
    }
    assert(twice =~= once);
}

/// A larger set has a larger closure.
pub proof fn lemma_close_monotone(edges: Seq<Seq<usize>>, a: Set<int>, b: Set<int>)
    requires
        a.subset_of(b),
    ensures
        close(edges, a).subset_of(close(edges, b)),
{
    assert forall|j: int| close(edges, a).contains(j) implies close(edges, b).contains(j) by {
        let i = choose|i: int| a.contains(i) && #[trigger] reaches(edges, i, j);
        assert(b.contains(i));
    }
}

/// The closure of a union is the union of the closures.
pub proof fn lemma_close_union(edges: Seq<Seq<usize>>, a: Set<int>, b: Set<int>)
    ensures
        close(edges, a.union(b)) == close(edges, a).union(close(edges, b)),
{
    let whole = close(edges, a.union(b));
    let parts = close(edges, a).union(close(edges, b));
    assert forall|j: int| whole.contains(j) == parts.contains(j) by {
        if whole.contains(j) {
            let i = choose|i: int| a.union(b).contains(i) && #[trigger] reaches(edges, i, j);
            if a.contains(i) {
                assert(close(edges, a).contains(j));
            } else {
                assert(close(edges, b).contains(j));
            }
        }
        if close(edges, a).contains(j) {
            let i = choose|i: int| a.contains(i) && #[trigger] reaches(edges, i, j);
            assert(a.union(b).contains(i));
        }
        if close(edges, b).contains(j) {
            let i = choose|i: int| b.contains(i) && #[trigger] reaches(edges, i, j);
            assert(a.union(b).contains(i));
        }
    }
    assert(whole =~= parts);
}

/// With distinct names, a name has one index.
pub proof fn lemma_name_index_unique(all: Seq<Criterion>, i: int)
    requires
        distinct_names(all),
        0 <= i < all.len(),
    ensures
        name_index(all, all[i].name) == i,
{
    let j = name_index(all, all[i].name);
    assert(0 <= j < all.len() && all[j].name == all[i].name);
    if j < i {
        assert(all[j].name != all[i].name);
    }
    if i < j {
        assert(all[i].name != all[j].name);
    }
}

/// In every valid universe whose first criteria are the built-ins, whatever
/// is `safe-to-deploy` is `safe-to-run`: the closure of the set that holds
/// only `safe-to-deploy` holds `safe-to-run`.
pub proof fn lemma_deploy_implies_run(all: Seq<Criterion>)
    requires
        valid_universe(all),
        all.len() >= 2,
        all.subrange(0, 2) == builtin_criteria(),
    ensures
        all[0].name == SAFE_TO_RUN@,
        all[1].name == SAFE_TO_DEPLOY@,
        close(implies_edges(all), set![1int]).contains(0),
{
    let edges = implies_edges(all);
    assert(all[0] == all.subrange(0, 2)[0]);
    assert(all[1] == all.subrange(0, 2)[1]);
    assert(all[1].implies[0] == all[0].name);
    lemma_name_index_unique(all, 0);
    assert(edges[1][0] == 0);
    assert(has_edge(edges, 1, 0));
    lemma_reaches_self(edges, 1);
    lemma_reaches_step(edges, 1, 1, 0);
    assert(set![1int].contains(1));
}

/// The criterion at `index` repeats the name of an earlier one, and no
/// criterion before it does.
pub open spec fn first_duplicate(all: Seq<Criterion>, index: int) -> bool {
    &&& 0 <= index < all.len()
    &&& exists|i: int| 0 <= i < index && #[trigger] all[i].name == all[index].name
    &&& distinct_names(all.subrange(0, index))
}

/// The name implied at place `implied` of criterion `index` is unknown, and
/// every implied name before it is known.
pub open spec fn first_unknown(all: Seq<Criterion>, index: int, implied: int) -> bool {
    &&& 0 <= index < all.len()
    &&& 0 <= implied < all[index].implies.len()
    &&& !known_name(all, all[index].implies[implied])
    &&& forall|i: int, k: int|
        0 <= i < all.len() && 0 <= k < all[i].implies.len() && (i < index || (i == index && k
            < implied)) ==> known_name(all, #[trigger] all[i].implies[k])
}

/// Criterion `index` lies on a cycle, and no criterion before it does.
pub open spec fn first_on_cycle(edges: Seq<Seq<usize>>, index: int) -> bool {
    &&& 0 <= index < edges.len()
    &&& on_cycle(edges, index)
    &&& forall|i: int| 0 <= i < index ==> !on_cycle(edges, i)
}

/// The index of the first entry of `list` called `name`.
fn lookup(list: &Vec<(CriteriaName, CriteriaEntry)>, name: &str) -> (found: Option<usize>)
    ensures
        match found {
            Some(i) => i < list@.len() && list@[i as int].0@ == name@ && forall|j: int|
                0 <= j < i ==> (#[trigger] list@[j]).0@ != name@,
            None => forall|j: int| 0 <= j < list@.len() ==> (#[trigger] list@[j]).0@ != name@,
        },
{
    let mut i: usize = 0;
    while i < list.len()
        invariant
            i <= list@.len(),
            forall|j: int| 0 <= j < i ==> (#[trigger] list@[j]).0@ != name@,
        decreases list@.len() - i,
    {
        if str_eq(list[i].0.as_str(), name) {
            return Some(i);
        }
        i += 1;
    }
    None
}

/// The first entry of `list` that has the name of an earlier entry.
fn find_duplicate(list: &Vec<(CriteriaName, CriteriaEntry)>) -> (found: Option<usize>)
    ensures
        match found {
            Some(j) => first_duplicate(table_criteria(list@), j as int),
            None => distinct_names(table_criteria(list@)),
        },
{
    let ghost all = table_criteria(list@);
    let mut j: usize = 0;
    while j < list.len()
        invariant
            j <= list@.len(),
            all == table_criteria(list@),
            distinct_names(all.subrange(0, j as int)),
        decreases list@.len() - j,
    {
        let earlier = lookup(list, list[j].0.as_str());
        match earlier {
            Some(i) => {
                if i < j {
                    assert(all[i as int].name == all[j as int].name);
                    return Some(j);
                }
            },
            None => {
                assert(list@[j as int].0@ != list@[j as int].0@);
            },
        }
        proof {
            let next = all.subrange(0, j + 1);
            assert forall|a: int, b: int| 0 <= a < b < next.len() implies next[a].name
                != next[b].name by {
                if b < j {
                    assert(all.subrange(0, j as int)[a].name != all.subrange(0, j as int)[b].name);
                } else {
                    assert(list@[a].0@ != list@[j as int].0@);
                }
            }
        }
        j += 1;
    }
    assert(all.subrange(0, j as int) =~= all);
    None
}

/// The indices of the criteria that each entry of `list` implies, or the
/// place of the first implied name that no entry has.
fn resolve_implies(list: &Vec<(CriteriaName, CriteriaEntry)>) -> (resolved: Result<
    Vec<Vec<usize>>,
    (usize, usize),
>)
    requires
        distinct_names(table_criteria(list@)),
    ensures
        match resolved {
            Ok(implies) => implies_known(table_criteria(list@)) && edges_of(&implies)
                == implies_edges(table_criteria(list@)) && implies@.len() == list@.len()
                && edges_wf(edges_of(&implies)),
            Err((i, k)) => first_unknown(table_criteria(list@), i as int, k as int),
        },
{
    let ghost all = table_criteria(list@);
    let mut implies: Vec<Vec<usize>> = Vec::new();
    let mut i: usize = 0;
    while i < list.len()
        invariant
            i <= list@.len(),
            all == table_criteria(list@),
            distinct_names(all),
            implies@.len() == i,
            forall|a: int, k: int|
                0 <= a < i && 0 <= k < all[a].implies.len() ==> known_name(
                    all,
                    #[trigger] all[a].implies[k],
                ),
            forall|a: int| 0 <= a < i ==> (#[trigger] implies@[a])@ == implies_edges(all)[a],
            forall|a: int, k: int|
                0 <= a < i && 0 <= k < implies@[a]@.len() ==> (#[trigger] implies@[a]@[k])
                    < list@.len(),
        decreases list@.len() - i,
    {
        let names = &list[i].1.implies;
        let mut row: Vec<usize> = Vec::new();
        let mut k: usize = 0;
        while k < names.len()
            invariant
                k <= names@.len(),
                i < list@.len(),
                names@ == list@[i as int].1.implies@,
                all == table_criteria(list@),
                distinct_names(all),
                row@.len() == k,
                forall|a: int, b: int|
                    0 <= a < all.len() && 0 <= b < all[a].implies.len() && (a < i || (a == i && b
                        < k)) ==> known_name(all, #[trigger] all[a].implies[b]),
                forall|b: int| 0 <= b < k ==> (#[trigger] row@[b]) == implies_edges(all)[i as int][b],
                forall|b: int| 0 <= b < k ==> (#[trigger] row@[b]) < list@.len(),
            decreases names@.len() - k,
        {
            assert(all[i as int].implies[k as int] == names@[k as int]@);
            match lookup(list, names[k].as_str()) {
                Some(t) => {
                    proof {
                        assert(all[t as int].name == names@[k as int]@);
                        lemma_name_index_unique(all, t as int);
                    }
                    row.push(t);
                },
                None => {
                    proof {
                        assert forall|j: int| 0 <= j < all.len() implies #[trigger] all[j].name
                            != names@[k as int]@ by {
                            assert(list@[j].0@ != names@[k as int]@);
                        }
                    }
                    return Err((i, k));
                },
            }
            k += 1;
        }
        assert(row@ =~= implies_edges(all)[i as int]);
        implies.push(row);
        i += 1;
    }
    assert(edges_of(&implies) =~= implies_edges(all));
    Ok(implies)
}

/// The set of the marked positions.
fn marked_set(marks: &Vec<bool>) -> (set: CriteriaSet)
    requires
        marks@.len() <= MAX_CRITERIA,
    ensures
        set@ == Set::new(|j: int| 0 <= j < marks@.len() && marks@[j]),
{
    let mut set = CriteriaSet::none();
    let mut j: usize = 0;
    while j < marks.len()
        invariant
            j <= marks@.len(),
            marks@.len() <= MAX_CRITERIA,
            set@ == Set::new(|x: int| 0 <= x < j && marks@[x]),
        decreases marks@.len() - j,
    {
        let ghost before = set@;
        if marks[j] {
            set.set_criteria(j);
        }
        assert(set@ =~= Set::new(|x: int| 0 <= x < j + 1 && marks@[x]));
        j += 1;
    }
    set
}

/// For each node of the graph, the set of the nodes that it reaches.
fn close_each(implies: &Vec<Vec<usize>>) -> (implied: Vec<CriteriaSet>)
    requires
        edges_wf(edges_of(implies)),
        implies@.len() <= MAX_CRITERIA,
    ensures
        implied@.len() == implies@.len(),
        forall|i: int|
            0 <= i < implies@.len() ==> (#[trigger] implied@[i])@ == close(
                edges_of(implies),
                set![i],
            ),
{
    let n = implies.len();
    let ghost edges = edges_of(implies);
    let mut implied: Vec<CriteriaSet> = Vec::new();
    let mut i: usize = 0;
    while i < n
        invariant
            i <= n,
            n == implies@.len(),
            n <= MAX_CRITERIA,
            edges == edges_of(implies),
            edges_wf(edges),
            implied@.len() == i,
            forall|a: int| 0 <= a < i ==> (#[trigger] implied@[a])@ == close(edges, set![a]),
        decreases n - i,
    {
        let mut sources = unmarked(n);
        sources.set(i, true);
        let marks = reach_from(implies, &sources);
        let set = marked_set(&marks);
        proof {
            assert forall|j: int| set@.contains(j) == close(edges, set![i as int]).contains(j) by {
                if set@.contains(j) {
                    assert(reachable_from(edges, sources@, j));
                    let u = choose|u: int|
                        0 <= u < sources@.len() && sources@[u] && #[trigger] reaches(edges, u, j);
                    assert(u == i);
                    assert(set![i as int].contains(i as int));
                }
                if close(edges, set![i as int]).contains(j) {
                    let u = choose|u: int|
                        set![i as int].contains(u) && #[trigger] reaches(edges, u, j);
                    assert(u == i);
                    assert(sources@[i as int]);
                    assert(reachable_from(edges, sources@, j));
                }
            }
            assert(set@ =~= close(edges, set![i as int]));
        }
        implied.push(set);
        i += 1;
    }
    implied
}

/// The first node that one of its own successors reaches.
fn find_cycle(implies: &Vec<Vec<usize>>, implied: &Vec<CriteriaSet>) -> (found: Option<usize>)
    requires
        edges_wf(edges_of(implies)),
        implied@.len() == implies@.len(),
        forall|i: int|
            0 <= i < implies@.len() ==> (#[trigger] implied@[i])@ == close(
                edges_of(implies),
                set![i],
            ),
    ensures
        match found {
            Some(i) => first_on_cycle(edges_of(implies), i as int),
            None => acyclic(edges_of(implies)),
        },
{
    let ghost edges = edges_of(implies);
    let mut i: usize = 0;
    while i < implies.len()
        invariant
            i <= implies@.len(),
            edges == edges_of(implies),
            edges_wf(edges),
            implied@.len() == implies@.len(),
            forall|a: int|
                0 <= a < implies@.len() ==> (#[trigger] implied@[a])@ == close(edges, set![a]),
            forall|a: int| 0 <= a < i ==> !on_cycle(edges, a),
        decreases implies@.len() - i,
    {
        let row = &implies[i];
        let mut k: usize = 0;
        while k < row.len()
            invariant
                k <= row@.len(),
                i < implies@.len(),
                row@ == edges[i as int],
                edges == edges_of(implies),
                edges_wf(edges),
                implied@.len() == implies@.len(),
                forall|a: int|
                    0 <= a < implies@.len() ==> (#[trigger] implied@[a])@ == close(edges, set![a]),
                forall|a: int| 0 <= a < i ==> !on_cycle(edges, a),
                forall|b: int| 0 <= b < k ==> !reaches(edges, (#[trigger] row@[b]) as int, i as int),
            decreases row@.len() - k,
        {
            let t = row[k];
            assert(edges[i as int][k as int] == t);
            assert(implied@[t as int]@ == close(edges, set![t as int]));
            if implied[t].has_criteria(i) {
                proof {
                    let u = choose|u: int|
                        set![t as int].contains(u) && #[trigger] reaches(edges, u, i as int);
                    assert(u == t);
                }
                return Some(i);
            }
            proof {
                if reaches(edges, t as int, i as int) {
                    assert(set![t as int].contains(t as int));
                    assert(close(edges, set![t as int]).contains(i as int));
                }
            }
            k += 1;
        }
        i += 1;
    }
    None
}

impl CriteriaMapper {
    /// Indexes the built-in criteria and those of `table`, and computes what
    /// each implies. A table that is too long, repeats a name, implies an
    /// unknown name or implies in a circle is refused.
    pub fn new(table: Vec<(CriteriaName, CriteriaEntry)>) -> (made: Result<
        CriteriaMapper,
        CriteriaError,
    >)
        ensures
            match made {
                Ok(mapper) => mapper.wf() && mapper.model() == universe(table@)
                    && mapper.list@.subrange(2, mapper.list@.len() as int) == table@,
                Err(error) => refused(universe(table@), error),
            },
    {
        let ghost all = universe(table@);
        if table.len() > MAX_CRITERIA - 2 {
            return Err(CriteriaError::TooMany);
        }
        let mut list: Vec<(CriteriaName, CriteriaEntry)> = Vec::new();
        list.push(
            (
                SAFE_TO_RUN.to_owned(),
                CriteriaEntry { description: None, description_url: None, implies: Vec::new() },
            ),
        );
        let mut deploy_implies: Vec<CriteriaName> = Vec::new();
        deploy_implies.push(SAFE_TO_RUN.to_owned());
        list.push(
            (
                SAFE_TO_DEPLOY.to_owned(),
                CriteriaEntry { description: None, description_url: None, implies: deploy_implies },
            ),
        );
        let mut rest = table;
        list.append(&mut rest);
        proof {
            let got = table_criteria(list@);
            assert(got.len() == all.len());
            assert forall|i: int| 0 <= i < got.len() implies got[i] == all[i] by {
                if i == 0 {
                    assert(got[0].implies =~= builtin_criteria()[0].implies);
                } else if i == 1 {
                    assert(got[1].implies =~= builtin_criteria()[1].implies);
                } else {
                    assert(list@[i] == table@[i - 2]);
                    assert(all[i] == table_criteria(table@)[i - 2]);
                }
            }
            assert(got =~= all);
            assert(list@.subrange(2, list@.len() as int) =~= table@);
            assert(got.subrange(0, 2) =~= builtin_criteria());
        }
        match find_duplicate(&list) {
            Some(index) => {
                return Err(CriteriaError::Duplicate { index });
            },
            None => {},
        }
        let implies = match resolve_implies(&list) {
            Ok(implies) => implies,
            Err((index, implied)) => {
                return Err(CriteriaError::Unknown { index, implied });
            },
        };
        let implied_criteria = close_each(&implies);
        match find_cycle(&implies, &implied_criteria) {
            Some(index) => {
                return Err(CriteriaError::Cyclic { index });
            },
            None => {},
        }
        Ok(CriteriaMapper { list, implies, implied_criteria })
    }
}

/// The members of `set` below `bound`.
pub open spec fn below(set: Set<int>, bound: int) -> Set<int> {
    Set::new(|x: int| 0 <= x < bound && set.contains(x))
}

/// The names of the members of `set` that no other member implies, in the
/// order of their indices.
pub open spec fn minimal_names(all: Seq<Criterion>, edges: Seq<Seq<usize>>, set: Set<int>) -> Seq<
    Seq<char>,
> {
    Seq::new(all.len(), |i: int| i).filter(|i: int| minimal_in(edges, set, i)).map_values(
        |i: int| all[i].name,
    )
}

/// What is left of `set` when the criterion called `name`, and everything it
/// implies, is taken out. An unknown name takes nothing out.
pub open spec fn cleared(
    all: Seq<Criterion>,
    edges: Seq<Seq<usize>>,
    set: Set<int>,
    name: Seq<char>,
) -> Set<int> {
    if known_name(all, name) {
        set.difference(close(edges, set![name_index(all, name)]))
    } else {
        set
    }
}

/// Members outside the graph add nothing to a closure.
proof fn lemma_close_below(edges: Seq<Seq<usize>>, set: Set<int>)
    ensures
        close(edges, below(set, edges.len() as int)) == close(edges, set),
{
    let cut = below(set, edges.len() as int);
    assert forall|j: int| close(edges, cut).contains(j) == close(edges, set).contains(j) by {
        if close(edges, set).contains(j) {
            let i = choose|i: int| set.contains(i) && #[trigger] reaches(edges, i, j);
            lemma_reaches_in_range(edges, i, j);
            assert(cut.contains(i));
        }
        if close(edges, cut).contains(j) {
            let i = choose|i: int| cut.contains(i) && #[trigger] reaches(edges, i, j);
            assert(set.contains(i));
        }
    }
    assert(close(edges, cut) =~= close(edges, set));
}

/// The closure of the empty set is empty.
pub proof fn lemma_close_empty(edges: Seq<Seq<usize>>)
    ensures
        close(edges, Set::<int>::empty()) == Set::<int>::empty(),
{
    assert(close(edges, Set::<int>::empty()) =~= Set::<int>::empty());
}

impl CriteriaMapper {
    /// The number of criteria, built-ins included.
    pub fn len(&self) -> (n: usize)
        ensures
            n == self.count(),
    {
        self.list.len()
    }

    /// The index of the criterion called `name`.
    pub fn index(&self, name: &str) -> (found: Option<usize>)
        requires
            self.wf(),
        ensures
            match found {
                Some(i) => i < self.count() && self.model()[i as int].name == name@ && i
                    == name_index(self.model(), name@),
                None => !known_name(self.model(), name@),
            },
    {
        let found = lookup(&self.list, name);
        proof {
            match found {
                Some(i) => {
                    assert(self.model()[i as int].name == name@);
                    lemma_name_index_unique(self.model(), i as int);
                },
                None => {
                    assert forall|j: int| 0 <= j < self.model().len() implies #[trigger] self.model()[j].name
                        != name@ by {
                        assert(self.list@[j].0@ != name@);
                    }
                },
            }
        }
        found
    }

    /// The closure of `set`: its members and everything they imply.
    pub fn closure(&self, set: &CriteriaSet) -> (closed: CriteriaSet)
        requires
            self.wf(),
        ensures
            closed@ == close(self.edges(), set@),
    {
        let ghost edges = self.edges();
        let n = self.list.len();
        let mut closed = CriteriaSet::none();
        let mut i: usize = 0;
        proof {
            assert(below(set@, 0) =~= Set::<int>::empty());
            lemma_close_empty(edges);
        }
        while i < n
            invariant
                i <= n,
                n == self.list@.len(),
                self.wf(),
                edges == self.edges(),
                closed@ == close(edges, below(set@, i as int)),
            decreases n - i,
        {
            proof {
                if set@.contains(i as int) {
                    assert(below(set@, i + 1) =~= below(set@, i as int).union(set![i as int]));
                    lemma_close_union(edges, below(set@, i as int), set![i as int]);
                } else {
                    assert(below(set@, i + 1) =~= below(set@, i as int));
                }
            }
            if set.has_criteria(i) {
                closed.unioned_with(&self.implied_criteria[i]);
            }
            i += 1;
        }
        proof {
            lemma_close_below(edges, set@);
        }
        closed
    }

    /// The set of the criterion called `name` and everything it implies;
    /// empty where no criterion has that name.
    pub fn criteria_from_name(&self, name: &str) -> (set: CriteriaSet)
        requires
            self.wf(),
        ensures
            set@ == close(self.edges(), named(self.model(), seq![name@])),
    {
        let ghost all = self.model();
        let ghost one = named(all, seq![name@]);
        match self.index(name) {
            Some(i) => {
                proof {
                    assert(seq![name@][0] == name@);
                    assert forall|x: int| one.contains(x) == set![i as int].contains(x) by {
                        if one.contains(x) {
                            assert(all[x].name == name@);
                            lemma_name_index_unique(all, x);
                        }
                    }
                    assert(one =~= set![i as int]);
                }
                self.implied_criteria[i]
            },
            None => {
                proof {
                    assert(one =~= Set::<int>::empty());
                    lemma_close_empty(self.edges());
                }
                CriteriaSet::none()
            },
        }
    }

    /// The set of the criteria that `names` names and everything they imply.
    /// A name that no criterion has adds nothing.
    pub fn criteria_from_list(&self, names: &Vec<CriteriaName>) -> (set: CriteriaSet)
        requires
            self.wf(),
        ensures
            set@ == close(self.edges(), named(self.model(), views(names@))),
    {
        let ghost all = self.model();
        let ghost edges = self.edges();
        let mut set = CriteriaSet::none();
        let mut k: usize = 0;
        proof {
            assert(named(all, views(names@.subrange(0, 0))) =~= Set::<int>::empty());
            lemma_close_empty(edges);
        }
        while k < names.len()
            invariant
                k <= names@.len(),
                self.wf(),
                all == self.model(),
                edges == self.edges(),
                set@ == close(edges, named(all, views(names@.subrange(0, k as int)))),
            decreases names@.len() - k,
        {
            let one = self.criteria_from_name(names[k].as_str());
            proof {
                let before = views(names@.subrange(0, k as int));
                let after = views(names@.subrange(0, k + 1));
                let single = seq![names@[k as int]@];
                assert(after =~= before.push(names@[k as int]@));
                assert forall|x: int|
                    named(all, after).contains(x) == named(all, before).union(
                        named(all, single),
                    ).contains(x) by {
                    if 0 <= x < all.len() {
                        if after.contains(all[x].name) {
                            let w = choose|w: int| 0 <= w < after.len() && after[w] == all[x].name;
                            if w < k {
                                assert(before[w] == all[x].name);
                            } else {
                                assert(single[0] == all[x].name);
                            }
                        }
                        if before.contains(all[x].name) {
                            let w = choose|w: int|
                                0 <= w < before.len() && before[w] == all[x].name;
                            assert(after[w] == all[x].name);
                        }
                        if single.contains(all[x].name) {
                            assert(after[k as int] == all[x].name);
                        }
                    }
                }
                assert(named(all, after) =~= named(all, before).union(named(all, single)));
                lemma_close_union(edges, named(all, before), named(all, single));
            }
            set.unioned_with(&one);
            k += 1;
        }
        assert(names@.subrange(0, k as int) =~= names@);
        set
    }

    /// Whether criterion `i` is a member of `set` that no other member
    /// implies.
    pub fn is_minimal(&self, set: &CriteriaSet, i: usize) -> (minimal: bool)
        requires
            self.wf(),
            i < self.count(),
        ensures
            minimal == minimal_in(self.edges(), set@, i as int),
    {
        if !set.has_criteria(i) {
            return false;
        }
        let ghost edges = self.edges();
        let n = self.list.len();
        let mut j: usize = 0;
        while j < n
            invariant
                j <= n,
                n == self.list@.len(),
                i < n,
                self.wf(),
                edges == self.edges(),
                set@.contains(i as int),
                forall|x: int| 0 <= x < j && set@.contains(x) && x != i ==> !reaches(edges, x, i as int),
            decreases n - j,
        {
            proof {
                assert(self.implied_criteria@[j as int]@ == close(edges, set![j as int]));
                if reaches(edges, j as int, i as int) {
                    assert(set![j as int].contains(j as int));
                    assert(close(edges, set![j as int]).contains(i as int));
                }
                if close(edges, set![j as int]).contains(i as int) {
                    let u = choose|u: int|
                        set![j as int].contains(u) && #[trigger] reaches(edges, u, i as int);
                    assert(u == j);
                }
            }
            if j != i && set.has_criteria(j) && self.implied_criteria[j].has_criteria(i) {
                return false;
            }
            j += 1;
        }
        proof {
            assert forall|x: int| set@.contains(x) && x != i implies !reaches(edges, x, i as int) by {
                if reaches(edges, x, i as int) {
                    lemma_reaches_in_range(edges, x, i as int);
                }
            }
        }
        true
    }

    /// The names that stand for `set`: those of its members that no other
    /// member implies, so that `safe-to-deploy` is given without
    /// `safe-to-run`.
    pub fn criteria_names(&self, set: &CriteriaSet) -> (names: Vec<CriteriaName>)
        requires
            self.wf(),
        ensures
            views(names@) == minimal_names(self.model(), self.edges(), set@),
    {
        let ghost all = self.model();
        let ghost edges = self.edges();
        let ghost every = Seq::new(all.len(), |i: int| i);
        let ghost keep = |i: int| minimal_in(edges, set@, i);
        let ghost name_at = |i: int| all[i].name;
        let n = self.list.len();
        let mut names: Vec<CriteriaName> = Vec::new();
        let mut i: usize = 0;
        assert(every.subrange(0, 0).filter(keep) =~= Seq::<int>::empty()) by {
            reveal(Seq::filter);
        }
        assert(views(names@) =~= every.subrange(0, 0).filter(keep).map_values(name_at));
        while i < n
            invariant
                i <= n,
                n == self.list@.len(),
                self.wf(),
                all == self.model(),
                edges == self.edges(),
                every == Seq::new(all.len(), |i: int| i),
                keep == |i: int| minimal_in(edges, set@, i),
                name_at == |i: int| all[i].name,
                views(names@) == every.subrange(0, i as int).filter(keep).map_values(name_at),
            decreases n - i,
        {
            proof {
                let prefix = every.subrange(0, i as int);
                let next = every.subrange(0, i + 1);
                assert(next =~= prefix.push(i as int));
                assert(next.drop_last() =~= prefix);
                reveal(Seq::filter);
                assert(next.filter(keep) == if keep(i as int) {
                    prefix.filter(keep).push(i as int)
                } else {
                    prefix.filter(keep)
                });
            }
            if self.is_minimal(set, i) {
                let ghost before = views(names@);
                let name = self.list[i].0.clone();
                names.push(name);
                assert(views(names@) =~= before.push(all[i as int].name));
                assert(every.subrange(0, i as int).filter(keep).push(i as int).map_values(name_at)
                    =~= every.subrange(0, i as int).filter(keep).map_values(name_at).push(
                    all[i as int].name,
                ));
            }
            i += 1;
        }
        assert(every.subrange(0, n as int) =~= every);
        names
    }

    /// Takes the criterion called `name`, and everything it implies, out of
    /// `set`.
    pub fn clear_criteria(&self, set: &mut CriteriaSet, name: &str)
        requires
            self.wf(),
        ensures
            final(set)@ == cleared(self.model(), self.edges(), old(set)@, name@),
    {
        match self.index(name) {
            Some(i) => {
                set.clear_criteria(&self.implied_criteria[i]);
            },
            None => {},
        }
    }
}

/// A copy of a criteria table.
pub fn clone_table(table: &Vec<(CriteriaName, CriteriaEntry)>) -> (copy: Vec<
    (CriteriaName, CriteriaEntry),
>)
    ensures
        table_criteria(copy@) == table_criteria(table@),
        copy@.len() == table@.len(),
        forall|i: int|
            0 <= i < table@.len() ==> crate::text::opt_view((#[trigger] copy@[i]).1.description)
                == crate::text::opt_view(table@[i].1.description) && crate::text::opt_view(
                copy@[i].1.description_url,
            ) == crate::text::opt_view(table@[i].1.description_url),
{
    let mut copy: Vec<(CriteriaName, CriteriaEntry)> = Vec::new();
    let mut i: usize = 0;
    while i < table.len()
        invariant
            i <= table@.len(),
            copy@.len() == i,
            forall|j: int|
                0 <= j < i ==> (#[trigger] copy@[j]).0@ == table@[j].0@ && views(
                    copy@[j].1.implies@,
                ) == views(table@[j].1.implies@) && crate::text::opt_view(copy@[j].1.description)
                    == crate::text::opt_view(table@[j].1.description) && crate::text::opt_view(
                    copy@[j].1.description_url,
                ) == crate::text::opt_view(table@[j].1.description_url),
        decreases table@.len() - i,
    {
        let entry = &table[i].1;
        copy.push(
            (
                table[i].0.clone(),
                CriteriaEntry {
                    description: crate::text::clone_opt(&entry.description),
                    description_url: crate::text::clone_opt(&entry.description_url),
                    implies: crate::text::clone_strings(&entry.implies),
                },
            ),
        );
        i += 1;
    }
    proof {
        assert forall|j: int| 0 <= j < table@.len() implies table_criteria(copy@)[j]
            == table_criteria(table@)[j] by {
            let a = copy@[j].1.implies@;
            let b = table@[j].1.implies@;
            assert(views(a) == views(b));
            assert(views(a).len() == a.len());
            assert(views(b).len() == b.len());
            assert forall|k: int| 0 <= k < a.len() implies a[k]@ == b[k]@ by {
                assert(views(a)[k] == views(b)[k]);
            }
            assert(table_criteria(copy@)[j].implies =~= table_criteria(table@)[j].implies);
        }
        assert(table_criteria(copy@) =~= table_criteria(table@));
    }
    copy
}

/// A universe with a repeated name is not valid.
proof fn lemma_duplicate_invalid(all: Seq<Criterion>, index: int)
    requires
        first_duplicate(all, index),
    ensures
        !valid_universe(all),
{
    let i = choose|i: int| 0 <= i < index && #[trigger] all[i].name == all[index].name;
    if distinct_names(all) {
        assert(all[i].name != all[index].name);
    }
}

/// A universe with an unknown implied name is not valid.
proof fn lemma_unknown_invalid(all: Seq<Criterion>, index: int, implied: int)
    requires
        first_unknown(all, index, implied),
    ensures
        !valid_universe(all),
{
    if implies_known(all) {
        assert(known_name(all, all[index].implies[implied]));
    }
}

/// A universe with a cycle is not valid.
proof fn lemma_cyclic_invalid(all: Seq<Criterion>, index: int)
    requires
        first_on_cycle(implies_edges(all), index),
    ensures
        !valid_universe(all),
{
}

/// Why a universe is refused: it is too large; or else the criterion at
/// `index` is the first with the name of an earlier one; or else it is the
/// first to imply an unknown name, at place `implied`; or else it is the
/// first that implies itself.
pub open spec fn refused(all: Seq<Criterion>, error: CriteriaError) -> bool {
    match error {
        CriteriaError::TooMany => all.len() > MAX_CRITERIA,
        CriteriaError::Duplicate { index } => all.len() <= MAX_CRITERIA && first_duplicate(
            all,
            index as int,
        ),
        CriteriaError::Unknown { index, implied } => all.len() <= MAX_CRITERIA && distinct_names(
            all,
        ) && first_unknown(all, index as int, implied as int),
        CriteriaError::Cyclic { index } => all.len() <= MAX_CRITERIA && distinct_names(all)
            && implies_known(all) && first_on_cycle(implies_edges(all), index as int),
    }
}

/// A universe that is refused is not valid.
pub proof fn lemma_refused_invalid(all: Seq<Criterion>, error: CriteriaError)
    requires
        refused(all, error),
    ensures
        !valid_universe(all),
{
    match error {
        CriteriaError::TooMany => {},
        CriteriaError::Duplicate { index } => {
            lemma_duplicate_invalid(all, index as int);
        },
        CriteriaError::Unknown { index, implied } => {
            lemma_unknown_invalid(all, index as int, implied as int);
        },
        CriteriaError::Cyclic { index } => {
            lemma_cyclic_invalid(all, index as int);
        },
    }
}

/// The number of criteria below `upto`, other than `c`, that are members of
/// `set` and imply `c`.
pub open spec fn above(edges: Seq<Seq<usize>>, set: Set<int>, c: int, upto: int) -> nat
    decreases upto,
{
    if upto <= 0 {
        0
    } else {
        above(edges, set, c, upto - 1) + if upto - 1 != c && set.contains(upto - 1) && reaches(
            edges,
            upto - 1,
            c,
        ) {
            1nat
        } else {
            0nat
        }
    }
}

/// Two criteria that imply each other lie on a cycle.
proof fn lemma_mutual_is_cycle(edges: Seq<Seq<usize>>, c: int, j: int)
    requires
        reaches(edges, c, j),
        reaches(edges, j, c),
        c != j,
    ensures
        0 <= c < edges.len(),
        on_cycle(edges, c),
{
    let path = choose|path: Seq<int>| path_between(edges, path, c, j);
    assert(path.len() >= 2);
    assert(0 <= path[0] < edges.len());
    assert(has_edge(edges, path[0], path[1]));
    let k = choose|k: int| 0 <= k < edges[c].len() && #[trigger] edges[c][k] == path[1];
    let rest = path.subrange(1, path.len() as int);
    assert forall|i: int| 0 <= i < rest.len() implies 0 <= #[trigger] rest[i] < edges.len() by {
        assert(rest[i] == path[i + 1]);
    }
    assert forall|i: int| 0 <= i < rest.len() - 1 implies has_edge(
        edges,
        #[trigger] rest[i],
        rest[i + 1],
    ) by {
        assert(rest[i] == path[i + 1]);
        assert(rest[i + 1] == path[i + 1 + 1]);
        assert(has_edge(edges, path[i + 1], path[i + 1 + 1]));
    }
    assert(path_between(edges, rest, path[1], j));
    lemma_reaches_trans(edges, path[1], j, c);
}

/// A criterion that is implied by another member has more members above it
/// than that member has.
proof fn lemma_above_grows(edges: Seq<Seq<usize>>, set: Set<int>, c: int, j: int, upto: int)
    requires
        acyclic(edges),
        set.contains(j),
        j != c,
        reaches(edges, j, c),
        0 <= upto <= edges.len(),
    ensures
        above(edges, set, j, upto) <= above(edges, set, c, upto),
        j < upto ==> above(edges, set, j, upto) < above(edges, set, c, upto),
    decreases upto,
{
    if upto > 0 {
        lemma_above_grows(edges, set, c, j, upto - 1);
        let q = upto - 1;
        if q != j && set.contains(q) && reaches(edges, q, j) {
            lemma_reaches_trans(edges, q, j, c);
            if q == c {
                lemma_mutual_is_cycle(edges, c, j);
            }
        }
    }
}

/// In a set of criteria of a universe without cycles, every member is
/// implied by a member that no other member implies.
pub proof fn lemma_minimal_above(edges: Seq<Seq<usize>>, set: Set<int>, c: int)
    requires
        acyclic(edges),
        set.contains(c),
        0 <= c < edges.len(),
    ensures
        exists|m: int| minimal_in(edges, set, m) && #[trigger] reaches(edges, m, c),
    decreases above(edges, set, c, edges.len() as int),
{
    if minimal_in(edges, set, c) {
        lemma_reaches_self(edges, c);
    } else {
        let j = choose|j: int| set.contains(j) && j != c && reaches(edges, j, c);
        lemma_reaches_in_range(edges, j, c);
        lemma_above_grows(edges, set, c, j, edges.len() as int);
        lemma_minimal_above(edges, set, j);
        let m = choose|m: int| minimal_in(edges, set, m) && #[trigger] reaches(edges, m, j);
        lemma_reaches_trans(edges, m, j, c);
    }
}

/// The name of every member that no other member implies is among the
/// names that stand for a set.
pub proof fn lemma_minimal_named(all: Seq<Criterion>, edges: Seq<Seq<usize>>, set: Set<int>, m: int)
    requires
        minimal_in(edges, set, m),
        0 <= m < all.len(),
    ensures
        minimal_names(all, edges, set).contains(all[m].name),
{
    let every = Seq::new(all.len(), |i: int| i);
    let keep = |i: int| minimal_in(edges, set, i);
    let kept = every.filter(keep);
    every.filter_lemma(keep);
    assert(every[m] == m);
    assert(keep(every[m]));
    assert(kept.contains(m));
    let t = choose|t: int| 0 <= t < kept.len() && kept[t] == m;
    assert(minimal_names(all, edges, set)[t] == all[m].name);
}

/// Every name that stands for a set is the name of a member that no other
/// member implies.
pub proof fn lemma_named_minimal(all: Seq<Criterion>, edges: Seq<Seq<usize>>, set: Set<int>, t: int)
    requires
        0 <= t < minimal_names(all, edges, set).len(),
    ensures
        exists|m: int|
            0 <= m < all.len() && minimal_in(edges, set, m) && minimal_names(all, edges, set)[t]
                == (#[trigger] all[m]).name,
{
    let every = Seq::new(all.len(), |i: int| i);
    let keep = |i: int| minimal_in(edges, set, i);
    let kept = every.filter(keep);
    every.filter_lemma(keep);
    let m = kept[t];
    assert(keep(m));
    assert(kept.contains(m));
    every.lemma_filter_contains_rev(keep, m);
    let w = choose|w: int| 0 <= w < every.len() && every[w] == m;
    assert(every[w] == w);
    assert(minimal_names(all, edges, set)[t] == all[m].name);
}

/// With distinct names, a name stands for the criterion that has it.
pub proof fn lemma_named_single(all: Seq<Criterion>, i: int)
    requires
        distinct_names(all),
        0 <= i < all.len(),
    ensures
        named(all, seq![all[i].name]) == set![i],
{
    let one = named(all, seq![all[i].name]);
    assert(seq![all[i].name][0] == all[i].name);
    assert forall|x: int| one.contains(x) == set![i].contains(x) by {
        if one.contains(x) {
            assert(all[x].name == all[i].name);
            if x < i {
                assert(all[x].name != all[i].name);
            }
            if i < x {
                assert(all[i].name != all[x].name);
            }
        }
    }
    assert(one =~= set![i]);
}

} // verus!
