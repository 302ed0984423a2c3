//! Tables keyed by name: lists of pairs in which the first pair with a key
//! is the key's record.

use crate::text::str_eq;
use vstd::prelude::*;

verus! {

/// Whether `table` has a record for `key`.
pub open spec fn has_key<V>(table: Seq<(String, V)>, key: Seq<char>) -> bool {
    exists|i: int| 0 <= i < table.len() && (#[trigger] table[i]).0@ == key
}

/// The place of the first record for `key`.
pub open spec fn key_index<V>(table: Seq<(String, V)>, key: Seq<char>) -> int {
    choose|i: int|
        0 <= i < table.len() && (#[trigger] table[i]).0@ == key && forall|j: int|
            0 <= j < i ==> (#[trigger] table[j]).0@ != key
}

/// No key has two records.
pub open spec fn distinct_keys<V>(table: Seq<(String, V)>) -> bool {
    forall|i: int, j: int|
        0 <= i < j < table.len() ==> (#[trigger] table[i]).0@ != (#[trigger] table[j]).0@
}

/// The entries recorded for `key`; none where the table has no such record.
pub open spec fn entries_of<T>(table: Seq<(String, Vec<T>)>, key: Seq<char>) -> Seq<T> {
    if has_key(table, key) {
        table[key_index(table, key)].1@
    } else {
        Seq::empty()
    }
}

/// The first record for a key is where a search from the front finds it.
pub proof fn lemma_key_index<V>(table: Seq<(String, V)>, key: Seq<char>, i: int)
    requires
        0 <= i < table.len(),
        table[i].0@ == key,
        forall|j: int| 0 <= j < i ==> (#[trigger] table[j]).0@ != key,
    ensures
        has_key(table, key),
        key_index(table, key) == i,
{
    let k = key_index(table, key);
    assert(0 <= k < table.len() && table[k].0@ == key && forall|j: int|
        0 <= j < k ==> (#[trigger] table[j]).0@ != key);
    if k < i {
        assert(table[k].0@ != key);
    }
    if i < k {
        assert(table[i].0@ != key);
    }
}

/// The place of the first record for `key`.
pub fn find_key<V>(table: &Vec<(String, V)>, key: &str) -> (found: Option<usize>)
    ensures
        found is Some == has_key(table@, key@),
        found is Some ==> found->0 == key_index(table@, key@) && found->0 < table@.len()
            && table@[found->0 as int].0@ == key@,
{
    let mut i: usize = 0;
    while i < table.len()
        invariant
            i <= table@.len(),
            forall|j: int| 0 <= j < i ==> (#[trigger] table@[j]).0@ != key@,
        decreases table@.len() - i,
    {
        if str_eq(table[i].0.as_str(), key) {
            proof {
                lemma_key_index(table@, key@, i as int);
            }
            return Some(i);
        }
        i += 1;
    }
    None
}

/// `after` is `before` with `item` added to the entries of `key`: at the
/// end of the first record for `key`, or in a new record at the end of the
/// table where there is none.
pub open spec fn added_entry<T>(
    before: Seq<(String, Vec<T>)>,
    after: Seq<(String, Vec<T>)>,
    key: Seq<char>,
    item: T,
) -> bool {
    if has_key(before, key) {
        let at = key_index(before, key);
        &&& after.len() == before.len()
        &&& forall|i: int| 0 <= i < before.len() && i != at ==> #[trigger] after[i] == before[i]
        &&& after[at].0 == before[at].0
        &&& after[at].1@ == before[at].1@.push(item)
    } else {
        &&& after.len() == before.len() + 1
        &&& forall|i: int| 0 <= i < before.len() ==> #[trigger] after[i] == before[i]
        &&& after[before.len() as int].0@ == key
        &&& after[before.len() as int].1@ == seq![item]
    }
}

/// Adding an entry leaves a table without a key that has two records
/// without one.
pub proof fn lemma_added_distinct<T>(
    before: Seq<(String, Vec<T>)>,
    after: Seq<(String, Vec<T>)>,
    key: Seq<char>,
    item: T,
)
    requires
        added_entry(before, after, key, item),
        distinct_keys(before),
    ensures
        distinct_keys(after),
{
    if has_key(before, key) {
        let at = key_index(before, key);
        assert(0 <= at < before.len() && before[at].0@ == key && forall|j: int|
            0 <= j < at ==> (#[trigger] before[j]).0@ != key);
        assert forall|i: int| 0 <= i < after.len() implies (#[trigger] after[i]).0@
            == before[i].0@ by {
            if i != at {
                assert(after[i] == before[i]);
            }
        }
        assert forall|i: int, j: int| 0 <= i < j < after.len() implies (#[trigger] after[i]).0@
            != (#[trigger] after[j]).0@ by {
            assert(before[i].0@ != before[j].0@);
        }
    } else {
        assert forall|i: int, j: int| 0 <= i < j < after.len() implies (#[trigger] after[i]).0@
            != (#[trigger] after[j]).0@ by {
            assert(after[i] == before[i]);
            if j < before.len() {
                assert(after[j] == before[j]);
                assert(before[i].0@ != before[j].0@);
            } else {
                assert(before[i].0@ != key);
            }
        }
    }
}

/// Adds `item` to the entries of `key`. No key gets a second record.
pub fn add_entry<T>(table: &mut Vec<(String, Vec<T>)>, key: &str, item: T)
    ensures
        added_entry(old(table)@, final(table)@, key@, item),
        distinct_keys(old(table)@) ==> distinct_keys(final(table)@),
{
    let ghost before = table@;
    match find_key(table, key) {
        Some(at) => {
            let mut record = table.remove(at);
            let ghost entries = record.1@;
            record.1.push(item);
            table.insert(at, record);
            assert(table@[at as int] == record);
        },
        None => {
            let mut entries: Vec<T> = Vec::new();
            entries.push(item);
            table.push((key.to_owned(), entries));
        },
    }
    proof {
        if distinct_keys(before) {
            lemma_added_distinct(before, table@, key@, item);
        }
    }
}

/// A table as a mathematical value: the keys by their characters, the
/// entries by the value that `value_of` gives each.
pub open spec fn table_model<T, M>(table: Seq<(String, Vec<T>)>, value_of: spec_fn(T) -> M) -> Seq<
    (Seq<char>, Seq<M>),
> {
    Seq::new(table.len(), |i: int| (table[i].0@, table[i].1@.map_values(value_of)))
}

/// The place of the first record of `key` at or after `from`, or the length
/// of the table.
pub open spec fn model_index<M>(table: Seq<(Seq<char>, Seq<M>)>, key: Seq<char>, from: int) -> int
    decreases table.len() - from,
{
    if from < 0 || from >= table.len() {
        table.len() as int
    } else if table[from].0 == key {
        from
    } else {
        model_index(table, key, from + 1)
    }
}

/// The table with `item` added to the record of `key`, a new record at the
/// end where there is none.
pub open spec fn model_add<M>(table: Seq<(Seq<char>, Seq<M>)>, key: Seq<char>, item: M) -> Seq<
    (Seq<char>, Seq<M>),
> {
    let at = model_index(table, key, 0);
    if at < table.len() {
        table.update(at, (key, table[at].1.push(item)))
    } else {
        table.push((key, seq![item]))
    }
}

/// No name has two records in a table's value.
pub open spec fn single_records<M>(table: Seq<(Seq<char>, M)>) -> bool {
    forall|i: int, j: int|
        0 <= i < j < table.len() ==> (#[trigger] table[i]).0 != (#[trigger] table[j]).0
}

/// A table has two records for a key where its value has two for a name.
pub proof fn lemma_model_single<T, M>(table: Seq<(String, Vec<T>)>, value_of: spec_fn(T) -> M)
    ensures
        distinct_keys(table) == single_records(table_model(table, value_of)),
{
    let view = table_model(table, value_of);
    if distinct_keys(table) {
        assert forall|i: int, j: int| 0 <= i < j < view.len() implies (#[trigger] view[i]).0 != (
        #[trigger] view[j]).0 by {
            assert(table[i].0@ != table[j].0@);
        }
    }
    if single_records(view) {
        assert forall|i: int, j: int| 0 <= i < j < table.len() implies (#[trigger] table[i]).0@
            != (#[trigger] table[j]).0@ by {
            assert(view[i].0 != view[j].0);
        }
    }
}

/// Where the search for a name ends inside the table, it ends at a record
/// of the name; where it ends at the end, no record from `from` on is of
/// the name.
pub proof fn lemma_model_search<M>(table: Seq<(Seq<char>, Seq<M>)>, key: Seq<char>, from: int)
    requires
        0 <= from,
    ensures
        from <= model_index(table, key, from) || model_index(table, key, from) == table.len(),
        model_index(table, key, from) < table.len() ==> table[model_index(table, key, from)].0
            == key,
        model_index(table, key, from) >= table.len() ==> forall|j: int|
            from <= j < table.len() ==> (#[trigger] table[j]).0 != key,
    decreases table.len() - from,
{
    if from < table.len() && table[from].0 != key {
        lemma_model_search(table, key, from + 1);
    }
}

/// Adding an entry gives no name a second record.
pub proof fn lemma_model_add_single<M>(table: Seq<(Seq<char>, Seq<M>)>, key: Seq<char>, item: M)
    requires
        single_records(table),
    ensures
        single_records(model_add(table, key, item)),
{
    lemma_model_search(table, key, 0);
    let after = model_add(table, key, item);
    let at = model_index(table, key, 0);
    assert forall|i: int, j: int| 0 <= i < j < after.len() implies (#[trigger] after[i]).0 != (
    #[trigger] after[j]).0 by {
        if at < table.len() {
            assert(after[i].0 == table[i].0);
            assert(after[j].0 == table[j].0);
        } else if j < table.len() {
            assert(table[i].0 != table[j].0);
        } else {
            assert(table[i].0 != key);
        }
    }
}

/// The search for a record in a table's value ends where the first record
/// for the key stands, or at the end where there is none.
pub proof fn lemma_model_index<T, M>(
    table: Seq<(String, Vec<T>)>,
    value_of: spec_fn(T) -> M,
    key: Seq<char>,
    from: int,
)
    requires
        0 <= from <= table.len(),
        forall|j: int| 0 <= j < from ==> (#[trigger] table[j]).0@ != key,
    ensures
        has_key(table, key) ==> model_index(table_model(table, value_of), key, from) == key_index(
            table,
            key,
        ) && 0 <= key_index(table, key) < table.len() && table[key_index(table, key)].0@ == key,
        !has_key(table, key) ==> model_index(table_model(table, value_of), key, from)
            == table.len(),
    decreases table.len() - from,
{
    let view = table_model(table, value_of);
    if from < table.len() {
        assert(view[from].0 == table[from].0@);
        if table[from].0@ == key {
            lemma_key_index(table, key, from);
        } else {
            lemma_model_index(table, value_of, key, from + 1);
        }
    } else {
        if has_key(table, key) {
            let i = choose|i: int| 0 <= i < table.len() && (#[trigger] table[i]).0@ == key;
            assert(table[i].0@ != key);
        }
    }
}

/// The values of a list with one more entry are the values of the list
/// with one more value.
pub proof fn lemma_map_push<T, M>(list: Seq<T>, value_of: spec_fn(T) -> M, item: T)
    ensures
        list.push(item).map_values(value_of) == list.map_values(value_of).push(value_of(item)),
{
    assert(list.push(item).map_values(value_of) =~= list.map_values(value_of).push(
        value_of(item),
    ));
}

/// Adding an entry to the record of a key adds its value to the record in
/// the table's value.
proof fn lemma_added_to_record<T, M>(
    before: Seq<(String, Vec<T>)>,
    after: Seq<(String, Vec<T>)>,
    value_of: spec_fn(T) -> M,
    key: Seq<char>,
    item: T,
    at: int,
)
    requires
        0 <= at < before.len(),
        before[at].0@ == key,
        after.len() == before.len(),
        forall|i: int| 0 <= i < before.len() && i != at ==> #[trigger] after[i] == before[i],
        after[at].0 == before[at].0,
        after[at].1@ == before[at].1@.push(item),
    ensures
        table_model(after, value_of) == table_model(before, value_of).update(
            at,
            (key, table_model(before, value_of)[at].1.push(value_of(item))),
        ),
{
    let old_view = table_model(before, value_of);
    let new_view = table_model(after, value_of);
    lemma_map_push(before[at].1@, value_of, item);
    let target = old_view.update(at, (key, old_view[at].1.push(value_of(item))));
    assert(new_view.len() == target.len());
    assert forall|i: int| 0 <= i < new_view.len() implies new_view[i] == target[i] by {
        if i != at {
            assert(after[i] == before[i]);
        }
    }
    assert(new_view =~= target);
}

/// Adding an entry in a new record adds a record to the table's value.
proof fn lemma_added_record<T, M>(
    before: Seq<(String, Vec<T>)>,
    after: Seq<(String, Vec<T>)>,
    value_of: spec_fn(T) -> M,
    key: Seq<char>,
    item: T,
)
    requires
        after.len() == before.len() + 1,
        forall|i: int| 0 <= i < before.len() ==> #[trigger] after[i] == before[i],
        after[before.len() as int].0@ == key,
        after[before.len() as int].1@ == seq![item],
    ensures
        table_model(after, value_of) == table_model(before, value_of).push(
            (key, seq![value_of(item)]),
        ),
{
    let old_view = table_model(before, value_of);
    let new_view = table_model(after, value_of);
    assert(seq![item].map_values(value_of) =~= seq![value_of(item)]);
    let target = old_view.push((key, seq![value_of(item)]));
    assert(new_view.len() == target.len());
    assert forall|i: int| 0 <= i < new_view.len() implies new_view[i] == target[i] by {
        if i < before.len() {
            assert(after[i] == before[i]);
        }
    }
    assert(new_view =~= target);
}

/// Adding an entry to a table adds its value to the table's value.
pub proof fn lemma_added_model<T, M>(
    before: Seq<(String, Vec<T>)>,
    after: Seq<(String, Vec<T>)>,
    value_of: spec_fn(T) -> M,
    key: Seq<char>,
    item: T,
)
    requires
        added_entry(before, after, key, item),
    ensures
        table_model(after, value_of) == model_add(table_model(before, value_of), key, value_of(item)),
{
    lemma_model_index(before, value_of, key, 0);
    if has_key(before, key) {
        lemma_added_to_record(before, after, value_of, key, item, key_index(before, key));
    } else {
        lemma_added_record(before, after, value_of, key, item);
    }
}

} // verus!
