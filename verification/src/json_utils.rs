//! Decoding of JSON text and shallow merging of JSON objects.
//!
//! JSON values are those of `serde_json`. An object keeps its members in
//! the order in which their keys were first put.

use serde_json::Value;
use vstd::prelude::*;

verus! {

/// `serde_json::Value`, a JSON value. Nothing inside it is visible here but
/// through `object_entries`.
#[verifier::external_type_specification]
#[verifier::external_body]
pub struct ExValue(serde_json::Value);

/// `serde_json::Map`, the members of a JSON object. Nothing inside it is
/// visible here but through `map_entries`.
#[verifier::external_type_specification]
#[verifier::external_body]
#[verifier::reject_recursive_types(K)]
#[verifier::reject_recursive_types(V)]
pub struct ExObjectMap<K, V>(serde_json::Map<K, V>);

/// `serde_json::Error`, the decoder's account of a fault. It is carried
/// through unread.
#[verifier::external_type_specification]
#[verifier::external_body]
pub struct ExDecodeError(serde_json::Error);

/// The members of a `serde_json::Map`, each a key with its value, in the
/// order in which the map hands them out.
pub uninterp spec fn map_entries(m: serde_json::Map<String, Value>) -> Seq<(Seq<char>, Value)>;

/// The members of a JSON value that is an object; `None` for every other
/// value (null, booleans, numbers, strings, arrays).
pub uninterp spec fn object_entries(v: Value) -> Option<Seq<(Seq<char>, Value)>>;

/// What `serde_json::from_str` decodes a text to: the value, or `None`
/// where the decoder refuses the text, because it is not one well-formed
/// JSON document, nests deeper than the decoder goes, or holds a number
/// beyond its range.
pub uninterp spec fn decoded_json(text: Seq<char>) -> Option<Value>;

/// Whether some member has the key.
pub open spec fn has_key(entries: Seq<(Seq<char>, Value)>, key: Seq<char>) -> bool {
    exists|i: int| 0 <= i < entries.len() && (#[trigger] entries[i]).0 == key
}

/// Whether no key occurs twice.
pub open spec fn distinct_keys(entries: Seq<(Seq<char>, Value)>) -> bool {
    forall|i: int, j: int|
        0 <= i < j < entries.len() ==> (#[trigger] entries[i]).0 != (#[trigger] entries[j]).0
}

/// A position at which the key stands; the only one where keys are distinct.
pub open spec fn key_position(entries: Seq<(Seq<char>, Value)>, key: Seq<char>) -> int {
    choose|i: int| 0 <= i < entries.len() && (#[trigger] entries[i]).0 == key
}

/// The value that the members give to a key: that of the last member with
/// this key, `None` where there is none.
pub open spec fn value_of(entries: Seq<(Seq<char>, Value)>, key: Seq<char>) -> Option<Value>
    decreases entries.len(),
{
    if entries.len() == 0 {
        None
    } else if entries.last().0 == key {
        Some(entries.last().1)
    } else {
        value_of(entries.drop_last(), key)
    }
}

/// The members after one key is put: a key that is already there keeps its
/// place and takes the new value, a new key comes last.
pub open spec fn put(entries: Seq<(Seq<char>, Value)>, key: Seq<char>, value: Value) -> Seq<
    (Seq<char>, Value),
> {
    if has_key(entries, key) {
        entries.update(key_position(entries, key), (key, value))
    } else {
        entries.push((key, value))
    }
}

/// The members of `acc` after each member of `more` is put, in order.
pub open spec fn extended(acc: Seq<(Seq<char>, Value)>, more: Seq<(Seq<char>, Value)>) -> Seq<
    (Seq<char>, Value),
>
    decreases more.len(),
{
    if more.len() == 0 {
        acc
    } else {
        put(extended(acc, more.drop_last()), more.last().0, more.last().1)
    }
}

/// The members of the merge of a sequence of values: starting from none,
/// each object in turn extends what is there, and every other value is
/// passed over.
pub open spec fn merged_entries(objects: Seq<Value>) -> Seq<(Seq<char>, Value)>
    decreases objects.len(),
{
    if objects.len() == 0 {
        Seq::empty()
    } else {
        let before = merged_entries(objects.drop_last());
        match object_entries(objects.last()) {
            Some(members) => extended(before, members),
            None => before,
        }
    }
}

/// The value that the last object defining `key` gives it; `None` where no
/// object among `objects` defines it.
pub open spec fn last_definition(objects: Seq<Value>, key: Seq<char>) -> Option<Value>
    decreases objects.len(),
{
    if objects.len() == 0 {
        None
    } else {
        match object_entries(objects.last()) {
            Some(members) if value_of(members, key) is Some => value_of(members, key),
            _ => last_definition(objects.drop_last(), key),
        }
    }
}

/// Where keys are distinct, the value of a key is the one at its position.
pub proof fn lemma_value_at_position(entries: Seq<(Seq<char>, Value)>, key: Seq<char>, i: int)
    requires
        distinct_keys(entries),
        0 <= i < entries.len(),
        entries[i].0 == key,
    ensures
        value_of(entries, key) == Some(entries[i].1),
    decreases entries.len(),
{
    if i < entries.len() - 1 {
        let front = entries.drop_last();
        assert(entries[entries.len() - 1].0 != entries[i].0);
        assert(distinct_keys(front)) by {
            assert forall|a: int, b: int| 0 <= a < b < front.len() implies (#[trigger] front[a]).0
                != (#[trigger] front[b]).0 by {
                assert(front[a] == entries[a] && front[b] == entries[b]);
            }
        }
        lemma_value_at_position(front, key, i);
    }
}

/// A key has a value exactly where some member has the key.
pub proof fn lemma_value_iff_key(entries: Seq<(Seq<char>, Value)>, key: Seq<char>)
    ensures
        value_of(entries, key) is Some <==> has_key(entries, key),
    decreases entries.len(),
{
    if entries.len() > 0 {
        let front = entries.drop_last();
        lemma_value_iff_key(front, key);
        if entries.last().0 == key {
            assert(entries[entries.len() - 1].0 == key);
        } else if has_key(front, key) {
            let i = key_position(front, key);
            assert(entries[i] == front[i]);
        } else if has_key(entries, key) {
            let i = key_position(entries, key);
            assert(front[i] == entries[i]);
        }
    }
}

/// Putting a key keeps the keys distinct, gives that key the new value and
/// leaves the value of every other key as it was.
pub proof fn lemma_put(
    entries: Seq<(Seq<char>, Value)>,
    key: Seq<char>,
    value: Value,
    other: Seq<char>,
)
    requires
        distinct_keys(entries),
    ensures
        distinct_keys(put(entries, key, value)),
        value_of(put(entries, key, value), other) == if other == key {
            Some(value)
        } else {
            value_of(entries, other)
        },
{
    let after = put(entries, key, value);
    if has_key(entries, key) {
        let p = key_position(entries, key);
        assert(after.len() == entries.len());
        assert forall|i: int| 0 <= i < after.len() implies (#[trigger] after[i]).0
            == entries[i].0 by {}
        assert(distinct_keys(after)) by {
            assert forall|a: int, b: int| 0 <= a < b < after.len() implies (#[trigger] after[a]).0
                != (#[trigger] after[b]).0 by {
                assert(entries[a].0 != entries[b].0);
            }
        }
        if other == key {
            lemma_value_at_position(after, key, p);
        } else {
            lemma_value_iff_key(entries, other);
            lemma_value_iff_key(after, other);
            if has_key(entries, other) {
                let q = key_position(entries, other);
                assert(after[q] == entries[q]);
                lemma_value_at_position(entries, other, q);
                lemma_value_at_position(after, other, q);
            } else if has_key(after, other) {
                let q = key_position(after, other);
                assert(entries[q].0 == after[q].0);
            }
        }
    } else {
        assert(after.drop_last() =~= entries);
        assert(distinct_keys(after)) by {
            assert forall|a: int, b: int| 0 <= a < b < after.len() implies (#[trigger] after[a]).0
                != (#[trigger] after[b]).0 by {
                if b < entries.len() {
                    assert(entries[a].0 != entries[b].0);
                } else {
                    assert(entries[a].0 != key);
                }
            }
        }
    }
}

/// Extending keeps the keys distinct; afterwards a key has the value that
/// `more` gives it, or else the one it had.
pub proof fn lemma_extended(
    acc: Seq<(Seq<char>, Value)>,
    more: Seq<(Seq<char>, Value)>,
    key: Seq<char>,
)
    requires
        distinct_keys(acc),
    ensures
        distinct_keys(extended(acc, more)),
        value_of(extended(acc, more), key) == if value_of(more, key) is Some {
            value_of(more, key)
        } else {
            value_of(acc, key)
        },
    decreases more.len(),
{
    if more.len() > 0 {
        lemma_extended(acc, more.drop_last(), key);
        lemma_put(extended(acc, more.drop_last()), more.last().0, more.last().1, key);
    }
}

/// The result of a merge never holds a key twice.
pub proof fn lemma_merged_distinct(objects: Seq<Value>)
    ensures
        distinct_keys(merged_entries(objects)),
    decreases objects.len(),
{
    if objects.len() > 0 {
        lemma_merged_distinct(objects.drop_last());
        if let Some(members) = object_entries(objects.last()) {
            lemma_extended(merged_entries(objects.drop_last()), members, Seq::empty());
        }
    }
}

/// Last write wins: in the result of a merge, every key has the value that
/// the last object defining it gives, and a key that no object defines is
/// absent. Values that are not objects add nothing.
pub proof fn lemma_merge_last_wins(objects: Seq<Value>, key: Seq<char>)
    ensures
        value_of(merged_entries(objects), key) == last_definition(objects, key),
        has_key(merged_entries(objects), key) <==> last_definition(objects, key) is Some,
    decreases objects.len(),
{
    lemma_value_iff_key(merged_entries(objects), key);
    if objects.len() > 0 {
        lemma_merge_last_wins(objects.drop_last(), key);
        lemma_merged_distinct(objects.drop_last());
        if let Some(members) = object_entries(objects.last()) {
            lemma_extended(merged_entries(objects.drop_last()), members, key);
        }
    }
}

/// A key is in the result of a merge exactly where some object among the
/// inputs has it.
pub proof fn lemma_merge_keys(objects: Seq<Value>, key: Seq<char>)
    ensures
        has_key(merged_entries(objects), key) <==> exists|i: int|
            0 <= i < objects.len() && (#[trigger] object_entries(objects[i])) is Some && has_key(
                object_entries(objects[i])->0,
                key,
            ),
    decreases objects.len(),
{
    lemma_merge_last_wins(objects, key);
    if objects.len() > 0 {
        let front = objects.drop_last();
        let n = objects.len() - 1;
        lemma_merge_keys(front, key);
        lemma_merge_last_wins(front, key);
        if let Some(members) = object_entries(objects.last()) {
            lemma_value_iff_key(members, key);
        }
        if has_key(merged_entries(objects), key) {
            if object_entries(objects[n]) is Some && has_key(object_entries(objects[n])->0, key) {
            } else {
                let i = choose|i: int|
                    0 <= i < front.len() && (#[trigger] object_entries(front[i])) is Some
                        && has_key(object_entries(front[i])->0, key);
                assert(front[i] == objects[i]);
            }
        }
        if exists|i: int|
            0 <= i < objects.len() && (#[trigger] object_entries(objects[i])) is Some && has_key(
                object_entries(objects[i])->0,
                key,
            ) {
            let i = choose|i: int|
                0 <= i < objects.len() && (#[trigger] object_entries(objects[i])) is Some
                    && has_key(object_entries(objects[i])->0, key);
            if i < n {
                assert(front[i] == objects[i]);
            }
        }
    }
}

/// Whether a value, if it is an object, holds no key twice. Every object
/// that the decoder or a merge gives is so.
pub open spec fn well_keyed(v: Value) -> bool {
    object_entries(v) matches Some(members) ==> distinct_keys(members)
}

proof fn lemma_extended_prefix_onto_nothing(members: Seq<(Seq<char>, Value)>, n: int)
    requires
        distinct_keys(members),
        0 <= n <= members.len(),
    ensures
        extended(Seq::empty(), members.take(n)) == members.take(n),
    decreases n,
{
    let part = members.take(n);
    if n > 0 {
        assert(part.drop_last() =~= members.take(n - 1));
        lemma_extended_prefix_onto_nothing(members, n - 1);
        let front = members.take(n - 1);
        let key = part.last().0;
        assert(part.last() == members[n - 1]);
        if has_key(front, key) {
            let i = key_position(front, key);
            assert(front[i] == members[i]);
            assert(members[i].0 != members[n - 1].0);
        }
        assert(front.push((key, part.last().1)) =~= part);
    } else {
        assert(part =~= Seq::<(Seq<char>, Value)>::empty());
    }
}

proof fn lemma_extended_by_own_prefix(members: Seq<(Seq<char>, Value)>, n: int)
    requires
        distinct_keys(members),
        0 <= n <= members.len(),
    ensures
        extended(members, members.take(n)) == members,
    decreases n,
{
    let part = members.take(n);
    if n > 0 {
        assert(part.drop_last() =~= members.take(n - 1));
        lemma_extended_by_own_prefix(members, n - 1);
        let key = part.last().0;
        assert(part.last() == members[n - 1]);
        assert(members[n - 1].0 == key);
        let p = key_position(members, key);
        if p < n - 1 {
            assert(members[p].0 != members[n - 1].0);
        } else if p > n - 1 {
            assert(members[n - 1].0 != members[p].0);
        }
        assert(members.update(p, (key, part.last().1)) =~= members);
    }
}

/// Extending nothing by members with distinct keys gives those members, in
/// their order.
pub proof fn lemma_extended_onto_nothing(members: Seq<(Seq<char>, Value)>)
    requires
        distinct_keys(members),
    ensures
        extended(Seq::empty(), members) == members,
{
    lemma_extended_prefix_onto_nothing(members, members.len() as int);
    assert(members.take(members.len() as int) =~= members);
}

/// Extending members with distinct keys by themselves changes nothing.
pub proof fn lemma_extended_by_itself(members: Seq<(Seq<char>, Value)>)
    requires
        distinct_keys(members),
    ensures
        extended(members, members) == members,
{
    lemma_extended_by_own_prefix(members, members.len() as int);
    assert(members.take(members.len() as int) =~= members);
}

/// Merging one object, or the same object twice, gives that object back:
/// no member is added, dropped, moved or changed.
pub proof fn lemma_merge_of_one(object: Value)
    requires
        object_entries(object) is Some,
        well_keyed(object),
    ensures
        merged_entries(seq![object]) == object_entries(object)->0,
        merged_entries(seq![object, object]) == object_entries(object)->0,
{
    let members = object_entries(object)->0;
    let one = seq![object];
    let two = seq![object, object];
    assert(one.drop_last() =~= Seq::<Value>::empty());
    assert(two.drop_last() =~= one);
    assert(merged_entries(Seq::<Value>::empty()) == Seq::<(Seq<char>, Value)>::empty());
    lemma_extended_onto_nothing(members);
    assert(merged_entries(one) == members);
    lemma_extended_by_itself(members);
}

/// Values that are not objects change nothing in a merge that they end.
pub proof fn lemma_merge_skips(objects: Seq<Value>, other: Value)
    requires
        object_entries(other) is None,
    ensures
        merged_entries(objects.push(other)) == merged_entries(objects),
{
    assert(objects.push(other).drop_last() =~= objects);
}

/// With distinct keys, a key stands at one position only.
proof fn lemma_position_unique(entries: Seq<(Seq<char>, Value)>, key: Seq<char>, i: int)
    requires
        distinct_keys(entries),
        0 <= i < entries.len(),
        entries[i].0 == key,
    ensures
        has_key(entries, key),
        key_position(entries, key) == i,
{
    let p = key_position(entries, key);
    if p < i {
        assert(entries[p].0 != entries[i].0);
    } else if i < p {
        assert(entries[i].0 != entries[p].0);
    }
}

/// Putting a key twice is putting it once, with the later value.
proof fn lemma_put_twice(
    entries: Seq<(Seq<char>, Value)>,
    key: Seq<char>,
    first: Value,
    second: Value,
)
    requires
        distinct_keys(entries),
    ensures
        put(put(entries, key, first), key, second) == put(entries, key, second),
{
    let once = put(entries, key, first);
    lemma_put(entries, key, first, key);
    if has_key(entries, key) {
        let p = key_position(entries, key);
        assert(once[p].0 == key);
        lemma_position_unique(once, key, p);
        assert(once.update(p, (key, second)) =~= entries.update(p, (key, second)));
    } else {
        let p = entries.len() as int;
        assert(once[p].0 == key);
        lemma_position_unique(once, key, p);
        assert(once.update(p, (key, second)) =~= entries.push((key, second)));
    }
}

/// Putting a key that is there and then another key gives the same as
/// putting them the other way round.
proof fn lemma_put_commutes(
    entries: Seq<(Seq<char>, Value)>,
    held: Seq<char>,
    value: Value,
    other: Seq<char>,
    other_value: Value,
)
    requires
        distinct_keys(entries),
        has_key(entries, held),
        held != other,
    ensures
        put(put(entries, held, value), other, other_value) == put(
            put(entries, other, other_value),
            held,
            value,
        ),
{
    let p = key_position(entries, held);
    let a = put(entries, held, value);
    let b = put(entries, other, other_value);
    lemma_put(entries, held, value, other);
    lemma_put(entries, other, other_value, held);
    assert(a =~= entries.update(p, (held, value)));
    if has_key(entries, other) {
        let q = key_position(entries, other);
        assert(a[q].0 == other);
        lemma_position_unique(a, other, q);
        assert(b[p].0 == held);
        lemma_position_unique(b, held, p);
        assert(a.update(q, (other, other_value)) =~= b.update(p, (held, value)));
    } else {
        if has_key(a, other) {
            let q = key_position(a, other);
            assert(entries[q].0 == other);
        }
        assert(b[p].0 == held);
        lemma_position_unique(b, held, p);
        assert(a.push((other, other_value)) =~= b.update(p, (held, value)));
    }
}

/// Extending by members of which one has a new value is extending by the
/// members as they were and then putting that key with the new value.
proof fn lemma_extended_update(
    acc: Seq<(Seq<char>, Value)>,
    more: Seq<(Seq<char>, Value)>,
    p: int,
    value: Value,
)
    requires
        distinct_keys(acc),
        distinct_keys(more),
        0 <= p < more.len(),
    ensures
        extended(acc, more.update(p, (more[p].0, value))) == put(
            extended(acc, more),
            more[p].0,
            value,
        ),
    decreases more.len(),
{
    let key = more[p].0;
    let changed = more.update(p, (key, value));
    let front = more.drop_last();
    let last = more.last();
    lemma_extended(acc, front, key);
    if p == more.len() - 1 {
        assert(changed.drop_last() =~= front);
        lemma_put_twice(extended(acc, front), key, last.1, value);
    } else {
        assert(distinct_keys(front)) by {
            assert forall|a: int, b: int| 0 <= a < b < front.len() implies (#[trigger] front[a]).0
                != (#[trigger] front[b]).0 by {
                assert(front[a] == more[a] && front[b] == more[b]);
            }
        }
        assert(front[p] == more[p]);
        lemma_extended_update(acc, front, p, value);
        assert(changed.drop_last() =~= front.update(p, (key, value)));
        assert(changed.last() == last);
        assert(more[p].0 != more[more.len() - 1].0);
        lemma_value_iff_key(front, key);
        lemma_value_iff_key(extended(acc, front), key);
        assert(has_key(front, key));
        lemma_put_commutes(extended(acc, front), key, value, last.0, last.1);
    }
}

/// Extending in two steps is extending by what the second step makes of
/// the first step's members.
pub proof fn lemma_extended_associative(
    acc: Seq<(Seq<char>, Value)>,
    middle: Seq<(Seq<char>, Value)>,
    more: Seq<(Seq<char>, Value)>,
)
    requires
        distinct_keys(acc),
        distinct_keys(middle),
    ensures
        extended(extended(acc, middle), more) == extended(acc, extended(middle, more)),
    decreases more.len(),
{
    if more.len() > 0 {
        let front = more.drop_last();
        let key = more.last().0;
        let value = more.last().1;
        lemma_extended_associative(acc, middle, front);
        let joined = extended(middle, front);
        lemma_extended(middle, front, key);
        if has_key(joined, key) {
            let p = key_position(joined, key);
            lemma_extended_update(acc, joined, p, value);
        } else {
            assert(joined.push((key, value)).drop_last() =~= joined);
        }
    }
}

/// Merging one sequence after another is extending the merge of the first
/// by the merge of the second.
pub proof fn lemma_merge_concat(first: Seq<Value>, second: Seq<Value>)
    ensures
        merged_entries(first + second) == extended(
            merged_entries(first),
            merged_entries(second),
        ),
    decreases second.len(),
{
    if second.len() == 0 {
        assert(first + second =~= first);
    } else {
        let front = second.drop_last();
        assert((first + second).drop_last() =~= first + front);
        assert((first + second).last() == second.last());
        lemma_merge_concat(first, front);
        lemma_merged_distinct(first);
        lemma_merged_distinct(front);
        if let Some(members) = object_entries(second.last()) {
            lemma_extended_associative(merged_entries(first), merged_entries(front), members);
        }
    }
}

/// Merging a sequence in two parts and then merging the two results gives
/// the merge of the whole sequence.
pub proof fn lemma_merge_of_merges(
    first: Seq<Value>,
    second: Seq<Value>,
    first_merged: Value,
    second_merged: Value,
)
    requires
        object_entries(first_merged) == Some(merged_entries(first)),
        object_entries(second_merged) == Some(merged_entries(second)),
    ensures
        merged_entries(seq![first_merged, second_merged]) == merged_entries(first + second),
{
    let pair = seq![first_merged, second_merged];
    let one = seq![first_merged];
    assert(pair.drop_last() =~= one);
    assert(one.drop_last() =~= Seq::<Value>::empty());
    assert(merged_entries(Seq::<Value>::empty()) == Seq::<(Seq<char>, Value)>::empty());
    lemma_merged_distinct(first);
    lemma_extended_onto_nothing(merged_entries(first));
    assert(merged_entries(one) == merged_entries(first));
    lemma_merge_concat(first, second);
}

/// Text that could not be decoded as JSON.
#[derive(Debug)]
pub struct ParseError {
    /// The decoder's account of the fault, with its line and column.
    pub cause: serde_json::Error,
}

/// `serde_json::from_str` at `Value`: the text is decoded as one JSON
/// document. The outcome depends on the text alone and is named
/// `decoded_json`; an error comes exactly where that is `None`. A decoded
/// object, being a map, holds no key twice.
#[verifier::external_body]
fn decode(input: &str) -> (r: Result<Value, serde_json::Error>)
    ensures
        match r {
            Ok(v) => decoded_json(input@) == Some(v) && well_keyed(v),
            Err(_) => decoded_json(input@) is None,
        },
{
    serde_json::from_str::<Value>(input)
}

/// `serde_json::Map::new`: a map without members.
#[verifier::external_body]
fn empty_map() -> (m: serde_json::Map<String, Value>)
    ensures
        map_entries(m) == Seq::<(Seq<char>, Value)>::empty(),
{
    serde_json::Map::new()
}

/// Tells the `Object` variant of `serde_json::Value` from the others and
/// hands out its map, which as a map holds no key twice.
#[verifier::external_body]
fn into_map(v: Value) -> (r: Option<serde_json::Map<String, Value>>)
    ensures
        match r {
            Some(m) => object_entries(v) == Some(map_entries(m)) && distinct_keys(map_entries(m)),
            None => object_entries(v) is None,
        },
{
    match v {
        Value::Object(m) => Some(m),
        _ => None,
    }
}

/// `Extend::extend` of `serde_json::Map`, which puts the members of `more`
/// one after another: a key that is there keeps its place and gets the new
/// value, a new key is added last.
#[verifier::external_body]
fn extend_map(acc: &mut serde_json::Map<String, Value>, more: serde_json::Map<String, Value>)
    ensures
        map_entries(*final(acc)) == extended(map_entries(*old(acc)), map_entries(more)),
{
    acc.extend(more);
}

/// `serde_json::Value::Object`: the object whose members are those of the
/// map.
#[verifier::external_body]
fn object_from(m: serde_json::Map<String, Value>) -> (v: Value)
    ensures
        object_entries(v) == Some(map_entries(m)),
{
    Value::Object(m)
}

/// Turns the decoder's outcome into the library's: the value as it is, an
/// error wrapped.
pub fn validated(decoded: Result<Value, serde_json::Error>) -> (r: Result<Value, ParseError>)
    ensures
        match decoded {
            Ok(v) => r == Ok::<Value, ParseError>(v),
            Err(e) => r == Err::<Value, ParseError>(ParseError { cause: e }),
        },
{
    match decoded {
        Ok(v) => Ok(v),
        Err(e) => Err(ParseError { cause: e }),
    }
}

/// Decodes a text as JSON. Succeeds exactly on the texts that the decoder
/// accepts, with the decoded value, and fails on every other text.
pub fn parse_and_validate(input: &str) -> (r: Result<Value, ParseError>)
    ensures
        match r {
            Ok(v) => decoded_json(input@) == Some(v) && well_keyed(v),
            Err(_) => decoded_json(input@) is None,
        },
{
    validated(decode(input))
}

/// Merges the objects among `objects` into one object, key by key: a later
/// object's value replaces an earlier one's, a key keeps the place at which
/// it was first seen, and values that are not objects are passed over.
pub fn merge_objects(objects: Vec<Value>) -> (merged: Value)
    ensures
        object_entries(merged) == Some(merged_entries(objects@)),
        well_keyed(merged),
{
    let ghost all = objects@;
    let mut result = empty_map();
    for obj in it: objects
        invariant
            it.seq() == all,
            map_entries(result) == merged_entries(all.take(it.index())),
    {
        proof {
            assert(all.take(it.index() + 1).drop_last() =~= all.take(it.index()));
        }
        match into_map(obj) {
            Some(map) => {
                extend_map(&mut result, map);
            },
            None => {},
        }
    }
    proof {
        assert(all.take(all.len() as int) =~= all);
        lemma_merged_distinct(all);
    }
    object_from(result)
}

} // verus!
