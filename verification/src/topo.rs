//! Ordering the nodes of a directed graph so that every node comes after the
//! nodes its edges lead to.

use crate::reach::{count_marked, edges_of, edges_wf, unmarked};
use vstd::prelude::*;

verus! {

/// `position` numbers the nodes so that every edge leads to a smaller
/// number.
pub open spec fn numbering(edges: Seq<Seq<usize>>, position: Seq<int>) -> bool {
    &&& position.len() == edges.len()
    &&& forall|v: int| 0 <= v < position.len() ==> 0 <= #[trigger] position[v]
    &&& forall|v: int, k: int|
        0 <= v < edges.len() && 0 <= k < edges[v].len() ==> position[(
        #[trigger] edges[v][k]) as int] < position[v]
}

/// The graph can be ordered: it has no cycle.
pub open spec fn sortable(edges: Seq<Seq<usize>>) -> bool {
    exists|position: Seq<int>| numbering(edges, position)
}

/// Every unplaced node has an edge to an unplaced node.
pub open spec fn blocked(edges: Seq<Seq<usize>>, placed: Seq<bool>) -> bool {
    &&& placed.len() == edges.len()
    &&& forall|v: int|
        0 <= v < placed.len() && !#[trigger] placed[v] ==> exists|k: int|
            0 <= k < edges[v].len() && !placed[(#[trigger] edges[v][k]) as int]
}

/// Some node is unplaced, and every unplaced node has an edge to an
/// unplaced node.
pub open spec fn stuck(edges: Seq<Seq<usize>>, placed: Seq<bool>) -> bool {
    &&& blocked(edges, placed)
    &&& exists|v: int| 0 <= v < placed.len() && !#[trigger] placed[v]
}

/// `order` lists every node once, each after the nodes its edges lead to,
/// and `position` gives each node's place in `order`.
pub open spec fn is_order(edges: Seq<Seq<usize>>, order: Seq<usize>, position: Seq<usize>) -> bool {
    &&& order.len() == edges.len()
    &&& position.len() == edges.len()
    &&& forall|k: int| 0 <= k < order.len() ==> (#[trigger] order[k]) < edges.len()
    &&& forall|v: int| 0 <= v < position.len() ==> (#[trigger] position[v]) < order.len()
    &&& forall|v: int| 0 <= v < position.len() ==> order[(#[trigger] position[v]) as int] == v
    &&& forall|k: int| 0 <= k < order.len() ==> position[(#[trigger] order[k]) as int] == k
    &&& forall|v: int, k: int|
        0 <= v < edges.len() && 0 <= k < edges[v].len() ==> position[(
        #[trigger] edges[v][k]) as int] < position[v]
}

/// Node `u` waits at place `k`: it stands before that place, or one of its
/// edges leads to a node that does not.
pub open spec fn waits(edges: Seq<Seq<usize>>, position: Seq<usize>, k: int, u: int) -> bool {
    position[u] < k || exists|e: int|
        0 <= e < edges[u].len() && position[(#[trigger] edges[u][e]) as int] >= k
}

/// Every place holds the first node that was free to take it: every node
/// with a smaller number waits there.
pub open spec fn least_first(edges: Seq<Seq<usize>>, order: Seq<usize>, position: Seq<usize>) -> bool {
    forall|k: int, u: int|
        0 <= k < order.len() && 0 <= u < order[k] ==> #[trigger] waits(edges, position, k, u)
}

/// Node `u` waits at place `k` while the order is made: it has been placed
/// before that place, or one of its edges leads to a node that has not.
pub open spec fn waits_now(
    edges: Seq<Seq<usize>>,
    placed: Seq<bool>,
    position: Seq<usize>,
    k: int,
    u: int,
) -> bool {
    (placed[u] && position[u] < k) || exists|e: int|
        0 <= e < edges[u].len() && !(placed[(#[trigger] edges[u][e]) as int]
            && position[edges[u][e] as int] < k)
}

/// Two orders that both take, at each place, the first node that is free
/// agree on the first `upto` places.
proof fn lemma_orders_agree(
    edges: Seq<Seq<usize>>,
    first: Seq<usize>,
    first_position: Seq<usize>,
    second: Seq<usize>,
    second_position: Seq<usize>,
    upto: int,
)
    requires
        edges_wf(edges),
        is_order(edges, first, first_position),
        least_first(edges, first, first_position),
        is_order(edges, second, second_position),
        least_first(edges, second, second_position),
        0 <= upto <= edges.len(),
    ensures
        forall|k: int| 0 <= k < upto ==> first[k] == second[k],
    decreases upto,
{
    if upto > 0 {
        lemma_orders_agree(edges, first, first_position, second, second_position, upto - 1);
        let k = upto - 1;
        let a = first[k] as int;
        let b = second[k] as int;
        assert(first_position[first[k] as int] == k);
        assert(second_position[second[k] as int] == k);
        if a < b {
            lemma_taken(edges, first, first_position, second, second_position, k, a);
        }
        if b < a {
            lemma_taken(edges, second, second_position, first, first_position, k, b);
        }
    }
}

/// A node that stands at place `k` of one order does not wait at place `k`
/// of another that agrees with it before that place.
proof fn lemma_taken(
    edges: Seq<Seq<usize>>,
    first: Seq<usize>,
    first_position: Seq<usize>,
    second: Seq<usize>,
    second_position: Seq<usize>,
    k: int,
    a: int,
)
    requires
        edges_wf(edges),
        is_order(edges, first, first_position),
        is_order(edges, second, second_position),
        0 <= k < edges.len(),
        forall|j: int| 0 <= j < k ==> first[j] == second[j],
        first[k] == a,
    ensures
        !waits(edges, second_position, k, a),
{
    assert(first_position[first[k] as int] == k);
    if second_position[a] < k {
        let j = second_position[a] as int;
        assert(second[j] == a);
        assert(first[j] == a);
        assert(first_position[first[j] as int] == j);
    }
    assert forall|e: int| 0 <= e < edges[a].len() implies second_position[(
    #[trigger] edges[a][e]) as int] < k by {
        let w = edges[a][e] as int;
        assert(0 <= w < edges.len());
        assert(first_position[w] < first_position[a]);
        let j = first_position[w] as int;
        assert(first[j] == w);
        assert(second[j] == w);
        assert(second_position[second[j] as int] == j);
    }
}

/// There is one order that takes, at each place, the first node that is
/// free.
pub proof fn lemma_order_unique(
    edges: Seq<Seq<usize>>,
    first: Seq<usize>,
    first_position: Seq<usize>,
    second: Seq<usize>,
    second_position: Seq<usize>,
)
    requires
        edges_wf(edges),
        is_order(edges, first, first_position),
        least_first(edges, first, first_position),
        is_order(edges, second, second_position),
        least_first(edges, second, second_position),
    ensures
        first == second,
        first_position == second_position,
{
    lemma_orders_agree(
        edges,
        first,
        first_position,
        second,
        second_position,
        edges.len() as int,
    );
    assert(first =~= second);
    assert forall|v: int| 0 <= v < first_position.len() implies first_position[v]
        == second_position[v] by {
        let j = first_position[v] as int;
        assert(first[j] == v);
        assert(second_position[second[j] as int] == j);
    }
    assert(first_position =~= second_position);
}

/// In a numbered graph whose unplaced nodes all lead to unplaced nodes,
/// every node is placed: from an unplaced one the numbers would fall for
/// ever.
proof fn lemma_descent(edges: Seq<Seq<usize>>, placed: Seq<bool>, position: Seq<int>, v: int)
    requires
        edges_wf(edges),
        blocked(edges, placed),
        numbering(edges, position),
        0 <= v < placed.len(),
    ensures
        placed[v],
    decreases position[v],
{
    if !placed[v] {
        let k = choose|k: int| 0 <= k < edges[v].len() && !placed[(#[trigger] edges[v][k]) as int];
        let w = edges[v][k] as int;
        assert(position[w] < position[v]);
        lemma_descent(edges, placed, position, w);
    }
}

/// A stuck graph cannot be ordered.
pub proof fn lemma_stuck_unsortable(edges: Seq<Seq<usize>>, placed: Seq<bool>)
    requires
        edges_wf(edges),
        stuck(edges, placed),
    ensures
        !sortable(edges),
{
    if sortable(edges) {
        let position = choose|position: Seq<int>| numbering(edges, position);
        let v = choose|v: int| 0 <= v < placed.len() && !#[trigger] placed[v];
        lemma_descent(edges, placed, position, v);
    }
}

/// An order gives a numbering.
pub proof fn lemma_order_sortable(edges: Seq<Seq<usize>>, order: Seq<usize>, position: Seq<usize>)
    requires
        edges_wf(edges),
        is_order(edges, order, position),
    ensures
        sortable(edges),
{
    let numbers = Seq::new(position.len(), |v: int| position[v] as int);
    assert forall|v: int, k: int|
        0 <= v < edges.len() && 0 <= k < edges[v].len() implies numbers[(
    #[trigger] edges[v][k]) as int] < numbers[v] by {
        let w = edges[v][k] as int;
        assert(0 <= w < edges.len());
        assert(position[w] < position[v]);
    }
    assert(numbering(edges, numbers));
}

/// Where fewer entries are marked than there are, one is unmarked.
proof fn lemma_some_unmarked(marks: Seq<bool>)
    requires
        count_marked(marks) < marks.len(),
    ensures
        exists|v: int| 0 <= v < marks.len() && !#[trigger] marks[v],
    decreases marks.len(),
{
    if marks.len() > 0 {
        if marks.last() {
            lemma_some_unmarked(marks.drop_last());
            let v = choose|v: int|
                0 <= v < marks.drop_last().len() && !#[trigger] marks.drop_last()[v];
            assert(!marks[v]);
        } else {
            assert(!marks[marks.len() - 1]);
        }
    }
}

proof fn lemma_count_after_mark(marks: Seq<bool>, i: int)
    requires
        0 <= i < marks.len(),
        !marks[i],
    ensures
        count_marked(marks.update(i, true)) == count_marked(marks) + 1,
    decreases marks.len(),
{
    let after = marks.update(i, true);
    if i == marks.len() - 1 {
        assert(after.drop_last() =~= marks.drop_last());
    } else {
        lemma_count_after_mark(marks.drop_last(), i);
        assert(after.drop_last() =~= marks.drop_last().update(i, true));
    }
}

proof fn lemma_count_unmarked(marks: Seq<bool>)
    requires
        forall|i: int| 0 <= i < marks.len() ==> !marks[i],
    ensures
        count_marked(marks) == 0,
    decreases marks.len(),
{
    if marks.len() > 0 {
        lemma_count_unmarked(marks.drop_last());
    }
}

/// Whether every edge of node `v` leads to a placed node.
fn ready(adj: &Vec<Vec<usize>>, placed: &Vec<bool>, v: usize) -> (ok: bool)
    requires
        edges_wf(edges_of(adj)),
        placed@.len() == adj@.len(),
        v < adj@.len(),
    ensures
        ok == forall|k: int|
            0 <= k < edges_of(adj)[v as int].len() ==> placed@[(
            #[trigger] edges_of(adj)[v as int][k]) as int],
{
    let ghost edges = edges_of(adj);
    let row = &adj[v];
    let mut k: usize = 0;
    while k < row.len()
        invariant
            k <= row@.len(),
            row@ == edges[v as int],
            edges == edges_of(adj),
            edges_wf(edges),
            v < adj@.len(),
            placed@.len() == adj@.len(),
            forall|j: int| 0 <= j < k ==> placed@[(#[trigger] edges[v as int][j]) as int],
        decreases row@.len() - k,
    {
        assert(edges[v as int][k as int] < edges.len());
        if !placed[row[k]] {
            return false;
        }
        k += 1;
    }
    true
}

/// The order of the nodes in which every node comes after the nodes its
/// edges lead to and every place holds the first node that is free to
/// take it, with each node's place in it; nothing where the graph has a
/// cycle.
pub fn topo_order(adj: &Vec<Vec<usize>>) -> (sorted: Option<(Vec<usize>, Vec<usize>)>)
    requires
        edges_wf(edges_of(adj)),
    ensures
        match sorted {
            Some((order, position)) => sortable(edges_of(adj)) && is_order(
                edges_of(adj),
                order@,
                position@,
            ) && least_first(edges_of(adj), order@, position@),
            None => !sortable(edges_of(adj)),
        },
{
    let n = adj.len();
    let ghost edges = edges_of(adj);
    let mut placed = unmarked(n);
    let mut order: Vec<usize> = Vec::new();
    let mut position: Vec<usize> = Vec::new();
    let mut i: usize = 0;
    while i < n
        invariant
            i <= n,
            position@.len() == i,
        decreases n - i,
    {
        position.push(0);
        i += 1;
    }
    proof {
        lemma_count_unmarked(placed@);
    }
    while order.len() < n
        invariant
            n == adj@.len(),
            edges == edges_of(adj),
            edges_wf(edges),
            placed@.len() == n,
            position@.len() == n,
            order@.len() <= n,
            count_marked(placed@) == order@.len(),
            forall|k: int|
                0 <= k < order@.len() ==> (#[trigger] order@[k]) < n && placed@[order@[k] as int]
                    && position@[order@[k] as int] == k,
            forall|v: int|
                0 <= v < n && #[trigger] placed@[v] ==> position@[v] < order@.len()
                    && order@[position@[v] as int] == v,
            forall|v: int, k: int|
                0 <= v < n && placed@[v] && 0 <= k < edges[v].len() ==> placed@[(
                #[trigger] edges[v][k]) as int] && position@[edges[v][k] as int] < position@[v],
            forall|k: int, u: int|
                0 <= k < order@.len() && 0 <= u < order@[k] ==> #[trigger] waits_now(
                    edges,
                    placed@,
                    position@,
                    k,
                    u,
                ),
        decreases n - order@.len(),
    {
        let mut v: usize = 0;
        let mut found = false;
        while v < n && !found
            invariant
                v <= n,
                n == adj@.len(),
                edges == edges_of(adj),
                edges_wf(edges),
                placed@.len() == n,
                found ==> v < n && !placed@[v as int] && forall|k: int|
                    0 <= k < edges[v as int].len() ==> placed@[(
                    #[trigger] edges[v as int][k]) as int],
                forall|u: int|
                    0 <= u < v && !#[trigger] placed@[u] ==> exists|k: int|
                        0 <= k < edges[u].len() && !placed@[(#[trigger] edges[u][k]) as int],
            decreases (n - v) + (if found {
                0int
            } else {
                1int
            }),
        {
            if !placed[v] && ready(adj, &placed, v) {
                found = true;
            } else {
                v += 1;
            }
        }
        if !found {
            proof {
                lemma_some_unmarked(placed@);
                assert(stuck(edges, placed@));
                lemma_stuck_unsortable(edges, placed@);
            }
            return None;
        }
        proof {
            lemma_count_after_mark(placed@, v as int);
        }
        let ghost old_order = order@;
        let ghost old_position = position@;
        let ghost old_placed = placed@;
        let place = order.len();
        placed.set(v, true);
        position.set(v, place);
        order.push(v);
        proof {
            assert forall|u: int, k: int|
                0 <= u < n && placed@[u] && 0 <= k < edges[u].len() implies placed@[(
            #[trigger] edges[u][k]) as int] && position@[edges[u][k] as int] < position@[u] by {
                let w = edges[u][k] as int;
                if u == v {
                    assert(old_placed[w]);
                    assert(w != v);
                    assert(old_position[w] < old_order.len());
                } else {
                    assert(old_placed[u]);
                    assert(old_placed[w]);
                    assert(w != v);
                }
            }
            assert forall|k: int, u: int|
                0 <= k < order@.len() && 0 <= u < order@[k] implies #[trigger] waits_now(
                edges,
                placed@,
                position@,
                k,
                u,
            ) by {
                lemma_still_waits(
                    edges,
                    old_placed,
                    old_position,
                    placed@,
                    position@,
                    v as int,
                    place as int,
                    k,
                    u,
                );
            }
        }
    }
    proof {
        assert forall|v: int| 0 <= v < n implies #[trigger] placed@[v] by {
            if !placed@[v] {
                lemma_all_marked(placed@, v);
            }
        }
        assert forall|v: int| 0 <= v < position@.len() implies (#[trigger] position@[v])
            < order@.len() && order@[position@[v] as int] == v by {
            assert(placed@[v]);
        }
        assert forall|k: int| 0 <= k < order@.len() implies position@[(
        #[trigger] order@[k]) as int] == k by {}
        assert forall|v: int, k: int|
            0 <= v < edges.len() && 0 <= k < edges[v].len() implies position@[(
        #[trigger] edges[v][k]) as int] < position@[v] by {
            assert(placed@[v]);
        }
        assert(is_order(edges, order@, position@));
        lemma_order_sortable(edges, order@, position@);
        assert forall|k: int, u: int|
            0 <= k < order@.len() && 0 <= u < order@[k] implies #[trigger] waits(
            edges,
            position@,
            k,
            u,
        ) by {
            assert(waits_now(edges, placed@, position@, k, u));
            if !(position@[u] < k) {
                let e = choose|e: int|
                    0 <= e < edges[u].len() && !(placed@[(#[trigger] edges[u][e]) as int]
                        && position@[edges[u][e] as int] < k);
                assert(placed@[edges[u][e] as int]);
            }
        }
    }
    Some((order, position))
}

/// A node that waited at a place before node `v` was put at place `place`
/// waits there afterwards; and at `place` itself every node waits that was
/// placed before or has an edge to a node that was not.
proof fn lemma_still_waits(
    edges: Seq<Seq<usize>>,
    old_placed: Seq<bool>,
    old_position: Seq<usize>,
    placed: Seq<bool>,
    position: Seq<usize>,
    v: int,
    place: int,
    k: int,
    u: int,
)
    requires
        edges_wf(edges),
        old_placed.len() == edges.len(),
        old_position.len() == edges.len(),
        0 <= v < edges.len(),
        0 <= u < edges.len(),
        0 <= k <= place,
        !old_placed[v],
        placed == old_placed.update(v, true),
        position == old_position.update(v, place as usize),
        place <= usize::MAX,
        forall|x: int| 0 <= x < edges.len() && #[trigger] old_placed[x] ==> old_position[x] < place,
        k < place ==> waits_now(edges, old_placed, old_position, k, u),
        k == place ==> old_placed[u] || exists|e: int|
            0 <= e < edges[u].len() && !old_placed[(#[trigger] edges[u][e]) as int],
    ensures
        waits_now(edges, placed, position, k, u),
{
    if k < place {
        if old_placed[u] && old_position[u] < k {
            assert(u != v);
        } else {
            let e = choose|e: int|
                0 <= e < edges[u].len() && !(old_placed[(#[trigger] edges[u][e]) as int]
                    && old_position[edges[u][e] as int] < k);
            let w = edges[u][e] as int;
            assert(!(placed[w] && position[w] < k));
        }
    } else {
        if old_placed[u] {
            assert(u != v);
        } else {
            let e = choose|e: int|
                0 <= e < edges[u].len() && !old_placed[(#[trigger] edges[u][e]) as int];
            let w = edges[u][e] as int;
            assert(!(placed[w] && position[w] < k));
        }
    }
}

/// Where as many entries are marked as there are, each is marked.
proof fn lemma_all_marked(marks: Seq<bool>, v: int)
    requires
        count_marked(marks) == marks.len(),
        0 <= v < marks.len(),
    ensures
        marks[v],
    decreases marks.len(),
{
    lemma_count_le(marks.drop_last());
    if v < marks.len() - 1 {
        lemma_all_marked(marks.drop_last(), v);
    }
}

proof fn lemma_count_le(marks: Seq<bool>)
    ensures
        count_marked(marks) <= marks.len(),
    decreases marks.len(),
{
    if marks.len() > 0 {
        lemma_count_le(marks.drop_last());
    }
}

} // verus!
