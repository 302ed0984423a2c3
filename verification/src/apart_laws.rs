//! The regenerated exemptions of a package stand apart: none is for a
//! criterion that another implies.

use crate::criteria::{
    cleared, close, distinct_names, known_name, lemma_name_index_unique, lemma_named_minimal,
    minimal_in, minimal_names, Criterion,
};
use crate::format::ExemptionModel;
use crate::minimize::{
    after_entries, after_entry, after_records, fresh_exemption, lemma_record_found,
    lemma_with_entry_single, lemma_with_record_single, record_of, regenerated, served, serves,
    still_pending, table_after_entry, with_copies, with_entry, with_fresh, with_pending,
    with_record, ExemptionTable, Pending,
};
use crate::needed_laws::{lemma_counted_serves, lemma_entry_shrinks, shrunk};
use crate::reach::{lemma_reaches_self, reaches};
use crate::table::single_records;
use vstd::prelude::*;

verus! {

/// No two suggestions are about packages of one name.
pub open spec fn lone_names(pending: Seq<Pending>) -> bool {
    forall|s: int, t: int|
        0 <= s < t < pending.len() ==> (#[trigger] pending[s]).name != (#[trigger] pending[t]).name
}

/// Neither criterion implies the other.
pub open spec fn unrelated(edges: Seq<Seq<usize>>, m: int, y: int) -> bool {
    !reaches(edges, m, y) && !reaches(edges, y, m)
}

/// Nothing that is still pending for the package `record` implies the
/// criterion of `entry` or is implied by it.
pub open spec fn settled(
    all: Seq<Criterion>,
    edges: Seq<Seq<usize>>,
    now: Seq<Pending>,
    record: Seq<char>,
    entry: ExemptionModel,
) -> bool {
    forall|s: int, m: int, y: int|
        0 <= s < now.len() && 0 <= m < all.len() && now[s].name == record && (#[trigger] all[m]).name
            == entry.criteria && #[trigger] now[s].criteria.contains(y) ==> unrelated(edges, m, y)
}

/// The criterion of `a` does not imply that of `b`.
pub open spec fn apart(
    all: Seq<Criterion>,
    edges: Seq<Seq<usize>>,
    a: ExemptionModel,
    b: ExemptionModel,
) -> bool {
    forall|m: int, n: int|
        0 <= m < all.len() && 0 <= n < all.len() && (#[trigger] all[m]).name == a.criteria && (
        #[trigger] all[n]).name == b.criteria ==> !reaches(edges, m, n)
}

/// No package has two records, of no two exemptions of a package does the
/// criterion of one imply that of the other, and nothing that is still
/// pending for a package is implied by, or implies, a criterion that an
/// exemption of the package is for.
pub open spec fn tidy(
    all: Seq<Criterion>,
    edges: Seq<Seq<usize>>,
    now: Seq<Pending>,
    table: ExemptionTable,
) -> bool {
    &&& single_records(table)
    &&& forall|r: int, j: int|
        0 <= r < table.len() && 0 <= j < table[r].1.len() ==> settled(
            all,
            edges,
            now,
            table[r].0,
            #[trigger] table[r].1[j],
        )
    &&& forall|r: int, j: int, k: int|
        0 <= r < table.len() && 0 <= j < table[r].1.len() && 0 <= k < table[r].1.len() && j != k
            ==> apart(all, edges, #[trigger] table[r].1[j], #[trigger] table[r].1[k])
}

proof fn lemma_settled_stays(
    all: Seq<Criterion>,
    edges: Seq<Seq<usize>>,
    now: Seq<Pending>,
    next: Seq<Pending>,
    record: Seq<char>,
    entry: ExemptionModel,
)
    requires
        settled(all, edges, now, record, entry),
        shrunk(now, next),
    ensures
        settled(all, edges, next, record, entry),
{
    assert forall|s: int, m: int, y: int|
        0 <= s < next.len() && 0 <= m < all.len() && next[s].name == record && (
        #[trigger] all[m]).name == entry.criteria && #[trigger] next[s].criteria.contains(
            y,
        ) implies unrelated(edges, m, y) by {
        assert(next[s].criteria.subset_of(now[s].criteria));
        assert(now[s].criteria.contains(y));
    }
}

proof fn lemma_tidy_stays(
    all: Seq<Criterion>,
    edges: Seq<Seq<usize>>,
    now: Seq<Pending>,
    next: Seq<Pending>,
    table: ExemptionTable,
)
    requires
        tidy(all, edges, now, table),
        shrunk(now, next),
    ensures
        tidy(all, edges, next, table),
{
    assert forall|r: int, j: int| 0 <= r < table.len() && 0 <= j < table[r].1.len() implies settled(
        all,
        edges,
        next,
        table[r].0,
        #[trigger] table[r].1[j],
    ) by {
        lemma_settled_stays(all, edges, now, next, table[r].0, table[r].1[j]);
    }
}

proof fn lemma_tidy_with_record(
    all: Seq<Criterion>,
    edges: Seq<Seq<usize>>,
    now: Seq<Pending>,
    table: ExemptionTable,
    record: Seq<char>,
)
    requires
        tidy(all, edges, now, table),
    ensures
        tidy(all, edges, now, with_record(table, record)),
{
    let after = with_record(table, record);
    lemma_with_record_single(table, record);
    assert forall|r: int, j: int| 0 <= r < after.len() && 0 <= j < after[r].1.len() implies settled(
        all,
        edges,
        now,
        after[r].0,
        #[trigger] after[r].1[j],
    ) by {
        if r < table.len() {
            assert(after[r] == table[r]);
            assert(settled(all, edges, now, table[r].0, table[r].1[j]));
        }
    }
    assert forall|r: int, j: int, k: int|
        0 <= r < after.len() && 0 <= j < after[r].1.len() && 0 <= k < after[r].1.len() && j
            != k implies apart(all, edges, #[trigger] after[r].1[j], #[trigger] after[r].1[k]) by {
        if r < table.len() {
            assert(after[r] == table[r]);
            assert(apart(all, edges, table[r].1[j], table[r].1[k]));
        }
    }
}

/// An exemption that is settled, and apart from the exemptions that its
/// package has, keeps the table tidy.
proof fn lemma_tidy_with_entry(
    all: Seq<Criterion>,
    edges: Seq<Seq<usize>>,
    now: Seq<Pending>,
    next: Seq<Pending>,
    table: ExemptionTable,
    record: Seq<char>,
    entry: ExemptionModel,
)
    requires
        tidy(all, edges, now, table),
        shrunk(now, next),
        settled(all, edges, next, record, entry),
        record_of(table, record, 0) < table.len() ==> forall|j: int|
            0 <= j < table[record_of(table, record, 0)].1.len() ==> apart(
                all,
                edges,
                #[trigger] table[record_of(table, record, 0)].1[j],
                entry,
            ) && apart(all, edges, entry, table[record_of(table, record, 0)].1[j]),
    ensures
        tidy(all, edges, next, with_entry(table, record, entry)),
{
    let after = with_entry(table, record, entry);
    let at = record_of(table, record, 0);
    lemma_with_entry_single(table, record, entry);
    lemma_tidy_stays(all, edges, now, next, table);
    if at < table.len() {
        lemma_record_found(table, record, 0);
    }
    assert forall|r: int, j: int| 0 <= r < after.len() && 0 <= j < after[r].1.len() implies settled(
        all,
        edges,
        next,
        after[r].0,
        #[trigger] after[r].1[j],
    ) by {
        if at < table.len() {
            if r == at {
                if j < table[at].1.len() {
                    assert(after[r].1[j] == table[r].1[j]);
                    assert(settled(all, edges, next, table[r].0, table[r].1[j]));
                }
            } else {
                assert(after[r] == table[r]);
                assert(settled(all, edges, next, table[r].0, table[r].1[j]));
            }
        } else if r < table.len() {
            assert(after[r] == table[r]);
            assert(settled(all, edges, next, table[r].0, table[r].1[j]));
        }
    }
    assert forall|r: int, j: int, k: int|
        0 <= r < after.len() && 0 <= j < after[r].1.len() && 0 <= k < after[r].1.len() && j
            != k implies apart(all, edges, #[trigger] after[r].1[j], #[trigger] after[r].1[k]) by {
        if at < table.len() {
            if r == at {
                let n = table[at].1.len() as int;
                if j < n && k < n {
                    assert(after[r].1[j] == table[r].1[j]);
                    assert(after[r].1[k] == table[r].1[k]);
                    assert(apart(all, edges, table[r].1[j], table[r].1[k]));
                } else if j < n {
                    assert(after[r].1[j] == table[at].1[j]);
                    assert(after[r].1[k] == entry);
                } else {
                    assert(after[r].1[k] == table[at].1[k]);
                    assert(after[r].1[j] == entry);
                }
            } else {
                assert(after[r] == table[r]);
                assert(apart(all, edges, table[r].1[j], table[r].1[k]));
            }
        } else if r < table.len() {
            assert(after[r] == table[r]);
            assert(apart(all, edges, table[r].1[j], table[r].1[k]));
        }
    }
}

/// Where no two suggestions are about one package, an exemption serves
/// one suggestion at most.
proof fn lemma_served_once(
    all: Seq<Criterion>,
    edges: Seq<Seq<usize>>,
    pending: Seq<Pending>,
    record: Seq<char>,
    entry: ExemptionModel,
    upto: int,
    s: int,
)
    requires
        lone_names(pending),
        0 <= s < pending.len(),
        upto <= pending.len(),
        serves(all, edges, pending[s], record, entry),
    ensures
        served(all, edges, pending, record, entry, upto) == if s < upto {
            1nat
        } else {
            0nat
        },
    decreases upto,
{
    if upto > 0 {
        lemma_served_once(all, edges, pending, record, entry, upto - 1, s);
        if upto - 1 != s {
            if upto - 1 < s {
                assert(pending[upto - 1].name != pending[s].name);
            } else {
                assert(pending[s].name != pending[upto - 1].name);
            }
        }
    }
}

/// Shrinking keeps the names apart.
proof fn lemma_lone_stays(now: Seq<Pending>, next: Seq<Pending>)
    requires
        lone_names(now),
        shrunk(now, next),
    ensures
        lone_names(next),
{
    assert forall|s: int, t: int| 0 <= s < t < next.len() implies (#[trigger] next[s]).name != (
    #[trigger] next[t]).name by {
        assert(now[s].name != now[t].name);
    }
}

/// Every set of pending suggestions is part of itself.
proof fn lemma_shrunk_self(now: Seq<Pending>)
    ensures
        shrunk(now, now),
{
}

/// Shrinking twice is shrinking.
proof fn lemma_shrunk_twice(first: Seq<Pending>, now: Seq<Pending>, next: Seq<Pending>)
    requires
        shrunk(first, now),
        shrunk(now, next),
    ensures
        shrunk(first, next),
{
    assert forall|s: int| 0 <= s < first.len() implies (#[trigger] next[s]).name == first[s].name
        && next[s].version == first[s].version && next[s].criteria.subset_of(
        first[s].criteria,
    ) by {
        assert(next[s].criteria.subset_of(now[s].criteria));
        assert(now[s].criteria.subset_of(first[s].criteria));
    }
}

/// The exemption that serves a suggestion is settled once its criterion
/// has been taken out of what is pending, and it was apart from whatever
/// was settled before.
proof fn lemma_server_settles(
    all: Seq<Criterion>,
    edges: Seq<Seq<usize>>,
    pending: Seq<Pending>,
    record: Seq<char>,
    entry: ExemptionModel,
    s: int,
)
    requires
        distinct_names(all),
        all.len() == edges.len(),
        lone_names(pending),
        0 <= s < pending.len(),
        serves(all, edges, pending[s], record, entry),
    ensures
        settled(all, edges, after_entry(all, edges, pending, record, entry), record, entry),
        forall|other: ExemptionModel|
            settled(all, edges, pending, record, other) ==> apart(all, edges, other, entry)
                && apart(all, edges, entry, other),
{
    let next = after_entry(all, edges, pending, record, entry);
    let set = pending[s].criteria;
    let names = minimal_names(all, edges, set);
    let t = choose|t: int| 0 <= t < names.len() && names[t] == entry.criteria;
    lemma_named_minimal(all, edges, set, t);
    let m = choose|m: int|
        0 <= m < all.len() && minimal_in(edges, set, m) && names[t] == (#[trigger] all[m]).name;
    lemma_name_index_unique(all, m);
    assert(known_name(all, entry.criteria));
    lemma_reaches_self(edges, m);
    assert forall|q: int| 0 <= q < all.len() && (#[trigger] all[q]).name
        == entry.criteria implies q == m by {
        if q < m {
            assert(all[q].name != all[m].name);
        }
        if m < q {
            assert(all[m].name != all[q].name);
        }
    }
    assert forall|u: int, q: int, y: int|
        0 <= u < next.len() && 0 <= q < all.len() && next[u].name == record && (
        #[trigger] all[q]).name == entry.criteria && #[trigger] next[u].criteria.contains(
            y,
        ) implies unrelated(edges, q, y) by {
        assert(q == m);
        if u < s {
            assert(pending[u].name != pending[s].name);
        }
        if s < u {
            assert(pending[s].name != pending[u].name);
        }
        assert(u == s);
        assert(next[s].criteria == cleared(all, edges, set, entry.criteria));
        assert(set.contains(y));
        assert(!close(edges, set![m]).contains(y));
        if reaches(edges, m, y) {
            assert(set![m].contains(m));
            assert(close(edges, set![m]).contains(y));
        }
        if y == m {
            assert(close(edges, set![m]).contains(m));
        }
    }
    assert forall|other: ExemptionModel|
        settled(all, edges, pending, record, other) implies apart(all, edges, other, entry)
            && apart(all, edges, entry, other) by {
        assert forall|a: int, b: int|
            0 <= a < all.len() && 0 <= b < all.len() && (#[trigger] all[a]).name == other.criteria
                && (#[trigger] all[b]).name == entry.criteria implies !reaches(edges, a, b) by {
            assert(b == m);
            assert(pending[s].criteria.contains(m));
            assert(unrelated(edges, a, m));
        }
        assert forall|a: int, b: int|
            0 <= a < all.len() && 0 <= b < all.len() && (#[trigger] all[a]).name == entry.criteria
                && (#[trigger] all[b]).name == other.criteria implies !reaches(edges, a, b) by {
            assert(a == m);
            assert(pending[s].criteria.contains(m));
            assert(unrelated(edges, b, m));
        }
    }
}

/// Looking at an old exemption keeps the table tidy.
proof fn lemma_entry_tidy(
    all: Seq<Criterion>,
    edges: Seq<Seq<usize>>,
    table: ExemptionTable,
    pending: Seq<Pending>,
    record: Seq<char>,
    entry: ExemptionModel,
)
    requires
        distinct_names(all),
        all.len() == edges.len(),
        lone_names(pending),
        tidy(all, edges, pending, table),
    ensures
        tidy(
            all,
            edges,
            after_entry(all, edges, pending, record, entry),
            table_after_entry(all, edges, table, pending, record, entry),
        ),
        shrunk(pending, after_entry(all, edges, pending, record, entry)),
        lone_names(after_entry(all, edges, pending, record, entry)),
{
    let next = after_entry(all, edges, pending, record, entry);
    let count = served(all, edges, pending, record, entry, pending.len() as int);
    lemma_shrunk_self(pending);
    lemma_entry_shrinks(all, edges, pending, pending, record, entry);
    lemma_lone_stays(pending, next);
    let kept = with_copies(table, record, entry, count);
    if count == 0 {
        assert(kept == table);
        lemma_tidy_stays(all, edges, pending, next, table);
    } else {
        let s = lemma_counted_serves(all, edges, pending, record, entry, pending.len() as int);
        lemma_served_once(all, edges, pending, record, entry, pending.len() as int, s);
        assert(count == 1);
        assert(with_copies(table, record, entry, 0) == table);
        assert(kept == with_entry(table, record, entry));
        lemma_server_settles(all, edges, pending, record, entry, s);
        let at = record_of(table, record, 0);
        if at < table.len() {
            lemma_record_found(table, record, 0);
            assert forall|j: int| 0 <= j < table[at].1.len() implies apart(
                all,
                edges,
                #[trigger] table[at].1[j],
                entry,
            ) && apart(all, edges, entry, table[at].1[j]) by {
                assert(settled(all, edges, pending, table[at].0, table[at].1[j]));
            }
        }
        lemma_tidy_with_entry(all, edges, pending, next, table, record, entry);
    }
    if still_pending(next, record) {
        lemma_tidy_with_record(all, edges, next, kept, record);
    }
}

proof fn lemma_entries_tidy(
    all: Seq<Criterion>,
    edges: Seq<Seq<usize>>,
    table: ExemptionTable,
    pending: Seq<Pending>,
    record: Seq<char>,
    entries: Seq<ExemptionModel>,
    upto: int,
)
    requires
        distinct_names(all),
        all.len() == edges.len(),
        lone_names(pending),
        tidy(all, edges, pending, table),
    ensures
        tidy(
            all,
            edges,
            after_entries(all, edges, table, pending, record, entries, upto).1,
            after_entries(all, edges, table, pending, record, entries, upto).0,
        ),
        shrunk(pending, after_entries(all, edges, table, pending, record, entries, upto).1),
        lone_names(after_entries(all, edges, table, pending, record, entries, upto).1),
    decreases upto,
{
    if upto > 0 {
        lemma_entries_tidy(all, edges, table, pending, record, entries, upto - 1);
        let (t, p) = after_entries(all, edges, table, pending, record, entries, upto - 1);
        lemma_entry_tidy(all, edges, t, p, record, entries[upto - 1]);
        lemma_shrunk_twice(pending, p, after_entry(all, edges, p, record, entries[upto - 1]));
    } else {
        lemma_shrunk_self(pending);
    }
}

proof fn lemma_records_tidy(
    all: Seq<Criterion>,
    edges: Seq<Seq<usize>>,
    old_table: ExemptionTable,
    pending: Seq<Pending>,
    upto: int,
)
    requires
        distinct_names(all),
        all.len() == edges.len(),
        lone_names(pending),
    ensures
        tidy(
            all,
            edges,
            after_records(all, edges, old_table, pending, upto).1,
            after_records(all, edges, old_table, pending, upto).0,
        ),
        shrunk(pending, after_records(all, edges, old_table, pending, upto).1),
        lone_names(after_records(all, edges, old_table, pending, upto).1),
    decreases upto,
{
    if upto > 0 {
        lemma_records_tidy(all, edges, old_table, pending, upto - 1);
        let (t, p) = after_records(all, edges, old_table, pending, upto - 1);
        lemma_entries_tidy(
            all,
            edges,
            t,
            p,
            old_table[upto - 1].0,
            old_table[upto - 1].1,
            old_table[upto - 1].1.len() as int,
        );
        lemma_shrunk_twice(
            pending,
            p,
            after_entries(
                all,
                edges,
                t,
                p,
                old_table[upto - 1].0,
                old_table[upto - 1].1,
                old_table[upto - 1].1.len() as int,
            ).1,
        );
    } else {
        lemma_shrunk_self(pending);
    }
}

/// The numbers below `upto` that are kept, in their order.
pub open spec fn kept_below(count: nat, keep: spec_fn(int) -> bool, upto: int) -> Seq<int> {
    Seq::new(count, |i: int| i).subrange(0, upto).filter(keep)
}

/// The numbers below `upto` that are kept stand in rising order.
proof fn lemma_kept_rising(count: nat, keep: spec_fn(int) -> bool, upto: int)
    requires
        0 <= upto <= count,
    ensures
        forall|a: int|
            0 <= a < kept_below(count, keep, upto).len() ==> (#[trigger] kept_below(
                count,
                keep,
                upto,
            )[a]) < upto,
        forall|a: int, b: int|
            0 <= a < b < kept_below(count, keep, upto).len() ==> (#[trigger] kept_below(
                count,
                keep,
                upto,
            )[a]) < (#[trigger] kept_below(count, keep, upto)[b]),
    decreases upto,
{
    let every = Seq::new(count, |i: int| i);
    if upto == 0 {
        assert(every.subrange(0, 0).filter(keep) =~= Seq::<int>::empty()) by {
            reveal(Seq::filter);
        }
    } else {
        lemma_kept_rising(count, keep, upto - 1);
        let prefix = every.subrange(0, upto - 1);
        let next = every.subrange(0, upto);
        assert(next =~= prefix.push(upto - 1));
        assert(next.drop_last() =~= prefix);
        reveal(Seq::filter);
        assert(next.filter(keep) == if keep(upto - 1) {
            prefix.filter(keep).push(upto - 1)
        } else {
            prefix.filter(keep)
        });
        assert(kept_below(count, keep, upto) == next.filter(keep));
        assert(kept_below(count, keep, upto - 1) == prefix.filter(keep));
    }
}

/// The names that stand for a set are the names of different members that
/// no other member implies.
proof fn lemma_names_differ(
    all: Seq<Criterion>,
    edges: Seq<Seq<usize>>,
    set: Set<int>,
    a: int,
    b: int,
) -> (found: (int, int))
    requires
        0 <= a < b < minimal_names(all, edges, set).len(),
    ensures
        0 <= found.0 < found.1 < all.len(),
        minimal_in(edges, set, found.0),
        minimal_in(edges, set, found.1),
        all[found.0].name == minimal_names(all, edges, set)[a],
        all[found.1].name == minimal_names(all, edges, set)[b],
{
    let every = Seq::new(all.len(), |i: int| i);
    let keep = |i: int| minimal_in(edges, set, i);
    let kept = every.filter(keep);
    lemma_kept_rising(all.len(), keep, all.len() as int);
    assert(every.subrange(0, all.len() as int) =~= every);
    assert(kept_below(all.len(), keep, all.len() as int) == kept);
    every.filter_lemma(keep);
    assert(keep(kept[a]));
    assert(keep(kept[b]));
    assert(kept[a] < kept[b]);
    assert(kept.contains(kept[a]));
    every.lemma_filter_contains_rev(keep, kept[a]);
    let w = choose|w: int| 0 <= w < every.len() && every[w] == kept[a];
    assert(every[w] == w);
    (kept[a], kept[b])
}

/// The exemption is a new one for one of the first `upto` names.
pub open spec fn from_names(
    version: crate::version::VersionModel,
    names: Seq<Seq<char>>,
    upto: int,
    entry: ExemptionModel,
) -> bool {
    exists|i: int| 0 <= i < upto && entry == fresh_exemption(version, #[trigger] names[i])
}

/// Every exemption that `made` holds for the package of the first
/// suggestion is settled or a new one for one of the first `upto` names
/// that stand for what the suggestion misses.
pub open spec fn fresh_or_settled(
    all: Seq<Criterion>,
    edges: Seq<Seq<usize>>,
    now: Seq<Pending>,
    made: ExemptionTable,
    upto: int,
) -> bool {
    forall|r: int, j: int|
        0 <= r < made.len() && 0 <= j < made[r].1.len() && made[r].0 == now[0].name ==> settled(
            all,
            edges,
            now,
            now[0].name,
            #[trigger] made[r].1[j],
        ) || from_names(
            now[0].version,
            minimal_names(all, edges, now[0].criteria),
            upto,
            made[r].1[j],
        )
}

/// What is settled for all suggestions is settled for all but the first.
proof fn lemma_settled_tail(
    all: Seq<Criterion>,
    edges: Seq<Seq<usize>>,
    now: Seq<Pending>,
    record: Seq<char>,
    entry: ExemptionModel,
)
    requires
        now.len() > 0,
        settled(all, edges, now, record, entry),
    ensures
        settled(all, edges, now.subrange(1, now.len() as int), record, entry),
{
    let rest = now.subrange(1, now.len() as int);
    assert forall|s: int, m: int, y: int|
        0 <= s < rest.len() && 0 <= m < all.len() && rest[s].name == record && (
        #[trigger] all[m]).name == entry.criteria && #[trigger] rest[s].criteria.contains(
            y,
        ) implies unrelated(edges, m, y) by {
        assert(rest[s] == now[s + 1]);
        assert(now[s + 1].criteria.contains(y));
    }
}

proof fn lemma_tidy_tail(
    all: Seq<Criterion>,
    edges: Seq<Seq<usize>>,
    now: Seq<Pending>,
    table: ExemptionTable,
)
    requires
        now.len() > 0,
        tidy(all, edges, now, table),
    ensures
        tidy(all, edges, now.subrange(1, now.len() as int), table),
{
    let rest = now.subrange(1, now.len() as int);
    assert forall|r: int, j: int| 0 <= r < table.len() && 0 <= j < table[r].1.len() implies settled(
        all,
        edges,
        rest,
        table[r].0,
        #[trigger] table[r].1[j],
    ) by {
        lemma_settled_tail(all, edges, now, table[r].0, table[r].1[j]);
    }
}

/// New exemptions for the names that stand for what the first suggestion
/// misses keep the table tidy.
proof fn lemma_fresh_tidy(
    all: Seq<Criterion>,
    edges: Seq<Seq<usize>>,
    now: Seq<Pending>,
    table: ExemptionTable,
    upto: int,
)
    requires
        distinct_names(all),
        all.len() == edges.len(),
        now.len() > 0,
        lone_names(now),
        tidy(all, edges, now, table),
        0 <= upto <= minimal_names(all, edges, now[0].criteria).len(),
    ensures
        tidy(
            all,
            edges,
            now.subrange(1, now.len() as int),
            with_fresh(
                table,
                now[0].name,
                now[0].version,
                minimal_names(all, edges, now[0].criteria),
                upto,
            ),
        ),
        fresh_or_settled(
            all,
            edges,
            now,
            with_fresh(
                table,
                now[0].name,
                now[0].version,
                minimal_names(all, edges, now[0].criteria),
                upto,
            ),
            upto,
        ),
    decreases upto,
{
    let record = now[0].name;
    let version = now[0].version;
    let set = now[0].criteria;
    let names = minimal_names(all, edges, set);
    let rest = now.subrange(1, now.len() as int);
    if upto == 0 {
        lemma_tidy_tail(all, edges, now, table);
        assert forall|r: int, j: int|
            0 <= r < table.len() && 0 <= j < table[r].1.len() && table[r].0 == record implies settled(
            all,
            edges,
            now,
            record,
            #[trigger] table[r].1[j],
        ) by {
            assert(settled(all, edges, now, table[r].0, table[r].1[j]));
        }
    } else {
        lemma_fresh_tidy(all, edges, now, table, upto - 1);
        let before = with_fresh(table, record, version, names, upto - 1);
        let entry = fresh_exemption(version, names[upto - 1]);
        let made = with_entry(before, record, entry);
        lemma_named_minimal(all, edges, set, upto - 1);
        let fresh = choose|m: int|
            0 <= m < all.len() && minimal_in(edges, set, m) && names[upto - 1] == (
            #[trigger] all[m]).name;
        assert forall|q: int| 0 <= q < all.len() && (#[trigger] all[q]).name
            == entry.criteria implies q == fresh by {
            if q < fresh {
                assert(all[q].name != all[fresh].name);
            }
            if fresh < q {
                assert(all[fresh].name != all[q].name);
            }
        }
        // Nothing else is pending for the package.
        assert forall|s: int, m: int, y: int|
            0 <= s < rest.len() && 0 <= m < all.len() && rest[s].name == record && (
            #[trigger] all[m]).name == entry.criteria && #[trigger] rest[s].criteria.contains(
                y,
            ) implies unrelated(edges, m, y) by {
            assert(rest[s] == now[s + 1]);
            assert(now[0].name != now[s + 1].name);
        }
        let at = record_of(before, record, 0);
        if at < before.len() {
            lemma_record_found(before, record, 0);
            assert forall|j: int| 0 <= j < before[at].1.len() implies apart(
                all,
                edges,
                #[trigger] before[at].1[j],
                entry,
            ) && apart(all, edges, entry, before[at].1[j]) by {
                let other = before[at].1[j];
                assert(settled(all, edges, now, record, other) || from_names(
                    version,
                    names,
                    upto - 1,
                    other,
                ));
                if settled(all, edges, now, record, other) {
                    assert forall|a: int, b: int|
                        0 <= a < all.len() && 0 <= b < all.len() && (#[trigger] all[a]).name
                            == other.criteria && (#[trigger] all[b]).name
                            == entry.criteria implies !reaches(edges, a, b) by {
                        assert(now[0].criteria.contains(fresh));
                        assert(unrelated(edges, a, fresh));
                    }
                    assert forall|a: int, b: int|
                        0 <= a < all.len() && 0 <= b < all.len() && (#[trigger] all[a]).name
                            == entry.criteria && (#[trigger] all[b]).name
                            == other.criteria implies !reaches(edges, a, b) by {
                        assert(now[0].criteria.contains(fresh));
                        assert(unrelated(edges, b, fresh));
                    }
                } else {
                    assert(from_names(version, names, upto - 1, other));
                    let i = choose|i: int|
                        0 <= i < upto - 1 && other == fresh_exemption(version, #[trigger] names[i]);
                    let (first, second) = lemma_names_differ(all, edges, set, i, upto - 1);
                    assert(second == fresh);
                    assert forall|a: int, b: int|
                        0 <= a < all.len() && 0 <= b < all.len() && (#[trigger] all[a]).name
                            == other.criteria && (#[trigger] all[b]).name
                            == entry.criteria implies !reaches(edges, a, b) by {
                        if a < first {
                            assert(all[a].name != all[first].name);
                        }
                        if first < a {
                            assert(all[first].name != all[a].name);
                        }
                    }
                    assert forall|a: int, b: int|
                        0 <= a < all.len() && 0 <= b < all.len() && (#[trigger] all[a]).name
                            == entry.criteria && (#[trigger] all[b]).name
                            == other.criteria implies !reaches(edges, a, b) by {
                        if b < first {
                            assert(all[b].name != all[first].name);
                        }
                        if first < b {
                            assert(all[first].name != all[b].name);
                        }
                    }
                }
            }
        }
        lemma_shrunk_self(rest);
        lemma_tidy_with_entry(all, edges, rest, rest, before, record, entry);
        assert forall|r: int, j: int|
            0 <= r < made.len() && 0 <= j < made[r].1.len() && made[r].0 == record implies settled(
            all,
            edges,
            now,
            record,
            #[trigger] made[r].1[j],
        ) || from_names(version, names, upto, made[r].1[j]) by {
            let known = if at < before.len() {
                r != at || j < before[at].1.len()
            } else {
                r < before.len()
            };
            if known {
                assert(made[r].1[j] == before[r].1[j]);
                assert(made[r].0 == before[r].0);
                if from_names(version, names, upto - 1, before[r].1[j]) {
                    let i = choose|i: int|
                        0 <= i < upto - 1 && before[r].1[j] == fresh_exemption(
                            version,
                            #[trigger] names[i],
                        );
                    assert(0 <= i < upto && made[r].1[j] == fresh_exemption(version, names[i]));
                }
            } else {
                assert(made[r].1[j] == fresh_exemption(version, names[upto - 1]));
            }
        }
    }
}

proof fn lemma_pending_tidy(
    all: Seq<Criterion>,
    edges: Seq<Seq<usize>>,
    table: ExemptionTable,
    left: Seq<Pending>,
    upto: int,
)
    requires
        distinct_names(all),
        all.len() == edges.len(),
        lone_names(left),
        tidy(all, edges, left, table),
        0 <= upto <= left.len(),
    ensures
        tidy(
            all,
            edges,
            left.subrange(upto, left.len() as int),
            with_pending(all, edges, table, left, upto),
        ),
    decreases upto,
{
    if upto == 0 {
        assert(left.subrange(0, left.len() as int) =~= left);
    } else {
        lemma_pending_tidy(all, edges, table, left, upto - 1);
        let now = left.subrange(upto - 1, left.len() as int);
        let before = with_pending(all, edges, table, left, upto - 1);
        assert(now[0] == left[upto - 1]);
        assert forall|s: int, t: int| 0 <= s < t < now.len() implies (#[trigger] now[s]).name != (
        #[trigger] now[t]).name by {
            assert(left[upto - 1 + s].name != left[upto - 1 + t].name);
        }
        let names = minimal_names(all, edges, now[0].criteria);
        lemma_fresh_tidy(all, edges, now, before, names.len() as int);
        assert(now.subrange(1, now.len() as int) =~= left.subrange(upto, left.len() as int));
    }
}

/// Of no two exemptions of a package does the criterion of one imply that
/// of the other.
pub open spec fn stand_apart(
    all: Seq<Criterion>,
    edges: Seq<Seq<usize>>,
    table: ExemptionTable,
) -> bool {
    forall|r: int, j: int, k: int|
        0 <= r < table.len() && 0 <= j < table[r].1.len() && 0 <= k < table[r].1.len() && j != k
            ==> apart(all, edges, #[trigger] table[r].1[j], #[trigger] table[r].1[k])
}

/// Where no two suggestions are about packages of one name, the
/// regenerated exemptions of a package stand apart: none is for a
/// criterion that another of them implies, whatever the old table held.
pub proof fn lemma_regenerated_apart(
    all: Seq<Criterion>,
    edges: Seq<Seq<usize>>,
    old_table: ExemptionTable,
    pending: Seq<Pending>,
)
    requires
        distinct_names(all),
        all.len() == edges.len(),
        lone_names(pending),
    ensures
        stand_apart(all, edges, regenerated(all, edges, old_table, pending)),
{
    lemma_records_tidy(all, edges, old_table, pending, old_table.len() as int);
    let (table, left) = after_records(all, edges, old_table, pending, old_table.len() as int);
    lemma_pending_tidy(all, edges, table, left, left.len() as int);
}

} // verus!
