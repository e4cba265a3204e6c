//! Sorting of a table of socket records by one field.
//!
//! Every record has a key for the field it is sorted by. Keys are compared
//! like words in a dictionary, number by number. The sort is stable: records
//! with equal keys keep their order. The descending order is the ascending
//! order read backwards.

use vstd::prelude::*;
use vstd::string::StringExecFns;
use crate::address::{ipv6_value, parse_ipv4, parse_ipv6, Ipv4Address, Ipv6Address};
use crate::args::Args;
use crate::rpderror::{RpdError, RpdErrorView};
use crate::socket::{Socket, SocketView};
use crate::text::{chars_of, lowercase, str_equal, to_lowercase};

verus! {

/// The fields that a table can be sorted by.
#[derive(Clone, Copy, Debug, PartialEq, Eq, Structural)]
pub enum SortField {
    Pid,
    Port,
    RemotePort,
    ProcessName,
    Uptime,
    LocalAddress,
    RemoteAddress,
}

/// Whether the key `a` comes before the key `b` or is equal to it: the
/// first number in which they differ decides, and a key that is the start of
/// another comes first.
pub open spec fn key_le(a: Seq<int>, b: Seq<int>) -> bool
    decreases a.len(),
{
    if a.len() == 0 {
        true
    } else if b.len() == 0 {
        false
    } else if a[0] != b[0] {
        a[0] < b[0]
    } else {
        key_le(a.drop_first(), b.drop_first())
    }
}

/// The key of a text: the code of each of its characters.
pub open spec fn text_key(text: Seq<char>) -> Seq<int> {
    text.map_values(|c: char| c as u32 as int)
}

/// The key of an address text: the value of the address of the IP version
/// in use; zero, the least address, for a text that is absent or is not such
/// an address.
pub open spec fn address_key(text: Option<Seq<char>>, ipv6: bool) -> Seq<int> {
    if text is None {
        seq![0int]
    } else if ipv6 {
        match parse_ipv6(text->0) {
            Some(groups) => seq![ipv6_value(groups) as int],
            None => seq![0int],
        }
    } else {
        match parse_ipv4(text->0) {
            Some(value) => seq![value as int],
            None => seq![0int],
        }
    }
}

/// The key of a record for the field it is sorted by. A record without a
/// remote port is sorted as if its remote port were zero.
pub open spec fn sort_key(field: SortField, ipv6: bool, socket: SocketView) -> Seq<int> {
    match field {
        SortField::Pid => seq![socket.pid as int],
        SortField::Port => seq![socket.local_port as int],
        SortField::RemotePort => match socket.remote_port {
            Some(port) => seq![port as int],
            None => seq![0int],
        },
        SortField::ProcessName => text_key(socket.process_name),
        SortField::Uptime => seq![socket.uptime_seconds as int],
        SortField::LocalAddress => address_key(Some(socket.local_address), ipv6),
        SortField::RemoteAddress => address_key(socket.remote_address, ipv6),
    }
}

/// The keys of the records of a table.
pub open spec fn keys_of(table: Seq<Socket>, field: SortField, ipv6: bool) -> Seq<Seq<int>> {
    table.map_values(|s: Socket| sort_key(field, ipv6, s@))
}

/// Where a record with the key `key` is put among records with the keys
/// `keys`: before the first key that is greater than `key`, or at the end.
pub open spec fn insertion_point(keys: Seq<Seq<int>>, key: Seq<int>) -> int
    decreases keys.len(),
{
    if keys.len() == 0 {
        0
    } else if !key_le(keys[0], key) {
        0
    } else {
        1 + insertion_point(keys.drop_first(), key)
    }
}

/// The records of `table` in ascending order of their keys, records with
/// equal keys in the order they have in `table`: each record in turn is put
/// behind the records placed so far that do not come after it.
pub open spec fn sorted_by(table: Seq<Socket>, field: SortField, ipv6: bool) -> Seq<Socket>
    decreases table.len(),
{
    if table.len() == 0 {
        table
    } else {
        let placed = sorted_by(table.drop_last(), field, ipv6);
        let at = insertion_point(
            keys_of(placed, field, ipv6),
            sort_key(field, ipv6, table.last()@),
        );
        placed.insert(at, table.last())
    }
}

/// The insertion point lies within the keys.
pub proof fn lemma_insertion_point_in_bounds(keys: Seq<Seq<int>>, key: Seq<int>)
    ensures
        0 <= insertion_point(keys, key) <= keys.len(),
    decreases keys.len(),
{
    if keys.len() > 0 && key_le(keys[0], key) {
        lemma_insertion_point_in_bounds(keys.drop_first(), key);
    }
}

/// Of two keys, one comes before the other or is equal to it.
pub proof fn lemma_key_le_total(a: Seq<int>, b: Seq<int>)
    ensures
        key_le(a, b) || key_le(b, a),
    decreases a.len(),
{
    if a.len() > 0 && b.len() > 0 && a[0] == b[0] {
        lemma_key_le_total(a.drop_first(), b.drop_first());
    }
}

/// The order of keys is transitive.
pub proof fn lemma_key_le_transitive(a: Seq<int>, b: Seq<int>, c: Seq<int>)
    requires
        key_le(a, b),
        key_le(b, c),
    ensures
        key_le(a, c),
    decreases a.len(),
{
    if a.len() > 0 && b.len() > 0 && c.len() > 0 && a[0] == b[0] && b[0] == c[0] {
        lemma_key_le_transitive(a.drop_first(), b.drop_first(), c.drop_first());
    }
}

/// Two keys that each come before the other are equal.
pub proof fn lemma_key_le_antisymmetric(a: Seq<int>, b: Seq<int>)
    requires
        key_le(a, b),
        key_le(b, a),
    ensures
        a == b,
    decreases a.len(),
{
    if a.len() == 0 || b.len() == 0 {
        assert(a =~= b);
    } else {
        lemma_key_le_antisymmetric(a.drop_first(), b.drop_first());
        assert(a =~= seq![a[0]] + a.drop_first());
        assert(b =~= seq![b[0]] + b.drop_first());
    }
}

/// Whether the keys of `keys` are in ascending order.
pub open spec fn is_ascending(keys: Seq<Seq<int>>) -> bool {
    forall|i: int, j: int| 0 <= i < j < keys.len() ==> key_le(#[trigger] keys[i], #[trigger] keys[j])
}

/// Every key before the insertion point comes before the new key or is
/// equal to it, and the key at the insertion point comes after it.
pub proof fn lemma_insertion_point_splits(keys: Seq<Seq<int>>, key: Seq<int>)
    ensures
        forall|j: int| 0 <= j < insertion_point(keys, key) ==> key_le(#[trigger] keys[j], key),
        insertion_point(keys, key) < keys.len() ==> !key_le(
            keys[insertion_point(keys, key)],
            key,
        ),
    decreases keys.len(),
{
    if keys.len() > 0 && key_le(keys[0], key) {
        let rest = keys.drop_first();
        lemma_insertion_point_splits(rest, key);
        lemma_insertion_point_in_bounds(rest, key);
        assert forall|j: int| 0 <= j < insertion_point(keys, key) implies key_le(
            #[trigger] keys[j],
            key,
        ) by {
            if j > 0 {
                assert(keys[j] == rest[j - 1]);
            }
        }
        if insertion_point(keys, key) < keys.len() {
            assert(keys[insertion_point(keys, key)] == rest[insertion_point(rest, key)]);
        }
    }
}

/// Where the keys are in ascending order, every key from the insertion
/// point on comes after the new key.
pub proof fn lemma_after_insertion_point(keys: Seq<Seq<int>>, key: Seq<int>, j: int)
    requires
        is_ascending(keys),
        insertion_point(keys, key) <= j < keys.len(),
    ensures
        !key_le(keys[j], key),
        key_le(key, keys[j]),
{
    let at = insertion_point(keys, key);
    lemma_insertion_point_in_bounds(keys, key);
    lemma_insertion_point_splits(keys, key);
    lemma_key_le_total(keys[at], key);
    if at < j {
        assert(key_le(keys[at], keys[j]));
        if key_le(keys[j], key) {
            lemma_key_le_transitive(keys[at], keys[j], key);
        }
    }
    lemma_key_le_total(keys[j], key);
}

/// The sorted table is in ascending order of its keys.
pub proof fn lemma_sorted_is_ascending(table: Seq<Socket>, field: SortField, ipv6: bool)
    ensures
        is_ascending(keys_of(sorted_by(table, field, ipv6), field, ipv6)),
    decreases table.len(),
{
    if table.len() > 0 {
        let placed = sorted_by(table.drop_last(), field, ipv6);
        let keys = keys_of(placed, field, ipv6);
        let key = sort_key(field, ipv6, table.last()@);
        let at = insertion_point(keys, key);
        lemma_sorted_is_ascending(table.drop_last(), field, ipv6);
        lemma_insertion_point_in_bounds(keys, key);
        lemma_insertion_point_splits(keys, key);
        let out = keys_of(sorted_by(table, field, ipv6), field, ipv6);
        assert(out =~= keys.insert(at, key));
        assert forall|i: int, j: int| 0 <= i < j < out.len() implies key_le(
            #[trigger] out[i],
            #[trigger] out[j],
        ) by {
            if j < at {
                assert(key_le(keys[i], keys[j]));
            } else if j == at {
                assert(key_le(keys[i], key));
            } else if i < at {
                lemma_after_insertion_point(keys, key, j - 1);
                lemma_key_le_transitive(keys[i], key, keys[j - 1]);
            } else if i == at {
                lemma_after_insertion_point(keys, key, j - 1);
            } else {
                assert(key_le(keys[i - 1], keys[j - 1]));
            }
        }
    }
}

/// The sorted table holds the records of the table, each as often as the
/// table holds it.
pub proof fn lemma_sorted_is_permutation(table: Seq<Socket>, field: SortField, ipv6: bool)
    ensures
        sorted_by(table, field, ipv6).to_multiset() == table.to_multiset(),
    decreases table.len(),
{
    if table.len() > 0 {
        let placed = sorted_by(table.drop_last(), field, ipv6);
        let at = insertion_point(
            keys_of(placed, field, ipv6),
            sort_key(field, ipv6, table.last()@),
        );
        lemma_sorted_is_permutation(table.drop_last(), field, ipv6);
        lemma_insertion_point_in_bounds(
            keys_of(placed, field, ipv6),
            sort_key(field, ipv6, table.last()@),
        );
        vstd::seq_lib::to_multiset_insert(placed, at, table.last());
        vstd::seq_lib::to_multiset_build(table.drop_last(), table.last());
        assert(table.drop_last().push(table.last()) =~= table);
    }
}

/// The records of `table` whose key is `key`, in their order.
pub open spec fn with_key(table: Seq<Socket>, field: SortField, ipv6: bool, key: Seq<int>) -> Seq<
    Socket,
> {
    table.filter(|s: Socket| sort_key(field, ipv6, s@) == key)
}

/// Sorting is stable: the records with one and the same key stand in the
/// sorted table in the order they have in the table.
pub proof fn lemma_sorted_is_stable(table: Seq<Socket>, field: SortField, ipv6: bool, key: Seq<int>)
    ensures
        with_key(sorted_by(table, field, ipv6), field, ipv6, key) == with_key(
            table,
            field,
            ipv6,
            key,
        ),
    decreases table.len(),
{
    reveal(Seq::filter);
    if table.len() > 0 {
        let same = |s: Socket| sort_key(field, ipv6, s@) == key;
        let placed = sorted_by(table.drop_last(), field, ipv6);
        let keys = keys_of(placed, field, ipv6);
        let last = table.last();
        let new_key = sort_key(field, ipv6, last@);
        let at = insertion_point(keys, new_key);
        lemma_sorted_is_stable(table.drop_last(), field, ipv6, key);
        lemma_sorted_is_ascending(table.drop_last(), field, ipv6);
        lemma_insertion_point_in_bounds(keys, new_key);
        let before = placed.subrange(0, at);
        let after = placed.subrange(at, placed.len() as int);
        assert(placed =~= before + after);
        assert(placed.insert(at, last) =~= (before + seq![last]) + after);
        Seq::filter_distributes_over_add(before, after, same);
        Seq::filter_distributes_over_add(before + seq![last], after, same);
        Seq::filter_distributes_over_add(before, seq![last], same);
        assert(seq![last].filter(same) =~= if same(last) {
            seq![last]
        } else {
            Seq::<Socket>::empty()
        }) by {
            reveal_with_fuel(Seq::filter, 2);
            assert(seq![last].drop_last() =~= Seq::<Socket>::empty());
        }
        if same(last) {
            assert forall|j: int| 0 <= j < after.len() implies !same(#[trigger] after[j]) by {
                lemma_after_insertion_point(keys, new_key, at + j);
                assert(keys[at + j] == sort_key(field, ipv6, after[j]@));
                if same(after[j]) {
                    lemma_key_le_total(key, key);
                }
            }
            after.lemma_all_neg_filter_empty(same);
            assert(after.filter(same) =~= Seq::<Socket>::empty());
        }
    }
}

/// The records `placed` with the record `added` put among them: behind the
/// records that do not come after it.
pub open spec fn inserted(placed: Seq<Socket>, added: Socket, field: SortField, ipv6: bool) -> Seq<
    Socket,
> {
    placed.insert(
        insertion_point(keys_of(placed, field, ipv6), sort_key(field, ipv6, added@)),
        added,
    )
}

/// Two runs of records merged into one: at each step the first record of
/// the left run is taken unless the first record of the right run comes
/// before it.
pub open spec fn merged(left: Seq<Socket>, right: Seq<Socket>, field: SortField, ipv6: bool) -> Seq<
    Socket,
>
    decreases left.len() + right.len(),
{
    if left.len() == 0 {
        right
    } else if right.len() == 0 {
        left
    } else if key_le(sort_key(field, ipv6, left[0]@), sort_key(field, ipv6, right[0]@)) {
        seq![left[0]] + merged(left.drop_first(), right, field, ipv6)
    } else {
        seq![right[0]] + merged(left, right.drop_first(), field, ipv6)
    }
}

/// Putting a record among records that start with `head`: it goes behind
/// `head` if `head` does not come after it, and else in front of all.
pub proof fn lemma_inserted_behind_head(
    head: Socket,
    tail: Seq<Socket>,
    added: Socket,
    field: SortField,
    ipv6: bool,
)
    ensures
        inserted(seq![head] + tail, added, field, ipv6) == if key_le(
            sort_key(field, ipv6, head@),
            sort_key(field, ipv6, added@),
        ) {
            seq![head] + inserted(tail, added, field, ipv6)
        } else {
            seq![added] + (seq![head] + tail)
        },
{
    let all = seq![head] + tail;
    let key = sort_key(field, ipv6, added@);
    assert(keys_of(all, field, ipv6)[0] == sort_key(field, ipv6, head@));
    assert(keys_of(all, field, ipv6).drop_first() =~= keys_of(tail, field, ipv6));
    lemma_insertion_point_in_bounds(keys_of(tail, field, ipv6), key);
    if key_le(sort_key(field, ipv6, head@), key) {
        let at = insertion_point(keys_of(tail, field, ipv6), key);
        assert(all.insert(1 + at, added) =~= seq![head] + tail.insert(at, added));
    } else {
        assert(all.insert(0, added) =~= seq![added] + all);
    }
}

/// Putting a record among merged runs is the same as putting it among the
/// right run and merging then.
pub proof fn lemma_inserted_into_merged(
    left: Seq<Socket>,
    right: Seq<Socket>,
    added: Socket,
    field: SortField,
    ipv6: bool,
)
    ensures
        inserted(merged(left, right, field, ipv6), added, field, ipv6) == merged(
            left,
            inserted(right, added, field, ipv6),
            field,
            ipv6,
        ),
    decreases left.len() + right.len(),
{
    let key = sort_key(field, ipv6, added@);
    let into_right = inserted(right, added, field, ipv6);
    lemma_insertion_point_in_bounds(keys_of(right, field, ipv6), key);
    if left.len() == 0 {
    } else {
        let a = left[0];
        let ka = sort_key(field, ipv6, a@);
        let rest = left.drop_first();
        assert(left =~= seq![a] + rest);
        if right.len() == 0 {
            assert(right =~= Seq::<Socket>::empty());
            assert(keys_of(right, field, ipv6) =~= Seq::<Seq<int>>::empty());
            assert(into_right =~= seq![added]);
            assert(into_right.drop_first() =~= right);
            lemma_inserted_behind_head(a, rest, added, field, ipv6);
            if key_le(ka, key) {
                lemma_inserted_into_merged(rest, right, added, field, ipv6);
                assert(merged(rest, right, field, ipv6) == rest);
            } else {
                assert(merged(left, right, field, ipv6) == left);
            }
        } else {
            let b = right[0];
            let kb = sort_key(field, ipv6, b@);
            let later = right.drop_first();
            assert(right =~= seq![b] + later);
            lemma_inserted_behind_head(b, later, added, field, ipv6);
            if key_le(ka, kb) {
                let below = merged(rest, right, field, ipv6);
                lemma_inserted_behind_head(a, below, added, field, ipv6);
                if key_le(ka, key) {
                    lemma_inserted_into_merged(rest, right, added, field, ipv6);
                    if key_le(kb, key) {
                        assert(into_right[0] == b);
                    } else {
                        assert(into_right[0] == added);
                    }
                } else {
                    if key_le(kb, key) {
                        lemma_key_le_transitive(ka, kb, key);
                    }
                    assert(into_right[0] == added);
                    assert(into_right.drop_first() =~= right);
                }
            } else {
                let below = merged(left, later, field, ipv6);
                lemma_inserted_behind_head(b, below, added, field, ipv6);
                if key_le(kb, key) {
                    lemma_inserted_into_merged(left, later, added, field, ipv6);
                    assert(into_right[0] == b);
                    assert(into_right.drop_first() =~= inserted(later, added, field, ipv6));
                } else {
                    lemma_key_le_total(ka, kb);
                    if key_le(ka, key) {
                        lemma_key_le_transitive(kb, ka, key);
                    }
                    assert(into_right[0] == added);
                    assert(into_right.drop_first() =~= right);
                }
            }
        }
    }
}

/// Sorting two tables, one written behind the other, is merging the two
/// sorted tables.
pub proof fn lemma_sorted_of_concat(left: Seq<Socket>, right: Seq<Socket>, field: SortField, ipv6: bool)
    ensures
        sorted_by(left + right, field, ipv6) == merged(
            sorted_by(left, field, ipv6),
            sorted_by(right, field, ipv6),
            field,
            ipv6,
        ),
    decreases right.len(),
{
    if right.len() == 0 {
        assert(left + right =~= left);
    } else {
        let front = right.drop_last();
        assert((left + right).drop_last() =~= left + front);
        lemma_sorted_of_concat(left, front, field, ipv6);
        lemma_inserted_into_merged(
            sorted_by(left, field, ipv6),
            sorted_by(front, field, ipv6),
            right.last(),
            field,
            ipv6,
        );
    }
}

/// A sort key as it is held while sorting.
enum Key {
    Number(u128),
    Text(Vec<char>),
}

impl Key {
    /// The key that this value stands for.
    spec fn model(&self) -> Seq<int> {
        match self {
            Key::Number(n) => seq![*n as int],
            Key::Text(t) => text_key(t@),
        }
    }

    /// The number of numbers in the key.
    fn len(&self) -> (n: usize)
        ensures
            n == self.model().len(),
    {
        match self {
            Key::Number(_) => 1,
            Key::Text(t) => t.len(),
        }
    }

    /// The number at `index` of the key.
    fn number(&self, index: usize) -> (n: u128)
        requires
            index < self.model().len(),
        ensures
            n == self.model()[index as int],
    {
        match self {
            Key::Number(n) => *n,
            Key::Text(t) => t[index] as u32 as u128,
        }
    }

    /// Whether `self` comes before `other` or is equal to it.
    fn at_most(&self, other: &Key) -> (before: bool)
        ensures
            before == key_le(self.model(), other.model()),
    {
        let ghost a = self.model();
        let ghost b = other.model();
        let mut i: usize = 0;
        assert(a.skip(0) =~= a);
        assert(b.skip(0) =~= b);
        while i < self.len() && i < other.len() && self.number(i) == other.number(i)
            invariant
                a == self.model(),
                b == other.model(),
                i <= a.len(),
                i <= b.len(),
                key_le(a, b) == key_le(a.skip(i as int), b.skip(i as int)),
            decreases a.len() - i,
        {
            assert(a.skip(i as int).drop_first() =~= a.skip(i + 1));
            assert(b.skip(i as int).drop_first() =~= b.skip(i + 1));
            i = i + 1;
        }
        if i == self.len() {
            true
        } else if i == other.len() {
            false
        } else {
            self.number(i) < other.number(i)
        }
    }
}

/// The key of an address text for sorting.
fn address_sort_key(text: Option<&String>, ipv6: bool) -> (key: Key)
    ensures
        key.model() == address_key(
            match text {
                Some(t) => Some(t@),
                None => None,
            },
            ipv6,
        ),
{
    match text {
        None => Key::Number(0),
        Some(text) => {
            if ipv6 {
                match Ipv6Address::parse(text.as_str()) {
                    Some(address) => Key::Number(address.to_bits()),
                    None => Key::Number(0),
                }
            } else {
                match Ipv4Address::parse(text.as_str()) {
                    Some(address) => Key::Number(address.bits as u128),
                    None => Key::Number(0),
                }
            }
        },
    }
}

/// The key of a record for the field it is sorted by.
fn key_of(field: SortField, ipv6: bool, socket: &Socket) -> (key: Key)
    ensures
        key.model() == sort_key(field, ipv6, socket@),
{
    match field {
        SortField::Pid => Key::Number(socket.pid as u128),
        SortField::Port => Key::Number(socket.local_port as u128),
        SortField::RemotePort => match socket.remote_port {
            Some(port) => Key::Number(port as u128),
            None => Key::Number(0),
        },
        SortField::ProcessName => Key::Text(chars_of(socket.process_name.as_str())),
        SortField::Uptime => Key::Number(socket.uptime_seconds as u128),
        SortField::LocalAddress => address_sort_key(Some(&socket.local_address), ipv6),
        SortField::RemoteAddress => address_sort_key(socket.remote_address.as_ref(), ipv6),
    }
}

/// A record with its sort key.
struct Keyed {
    key: Key,
    socket: Socket,
}

/// The records of a list of keyed records.
spec fn records(items: Seq<Keyed>) -> Seq<Socket> {
    items.map_values(|k: Keyed| k.socket)
}

/// Whether each record of the list is held with its own key.
spec fn keyed_by(items: Seq<Keyed>, field: SortField, ipv6: bool) -> bool {
    forall|i: int|
        0 <= i < items.len() ==> (#[trigger] items[i]).key.model() == sort_key(
            field,
            ipv6,
            items[i].socket@,
        )
}

/// The list in the reverse order.
fn reversed(items: Vec<Keyed>) -> (backwards: Vec<Keyed>)
    ensures
        backwards@ == items@.reverse(),
{
    let mut source = items;
    let ghost all = source@;
    let mut backwards: Vec<Keyed> = Vec::new();
    while source.len() > 0
        invariant
            source@ == all.take(source.len() as int),
            backwards@.len() + source@.len() == all.len(),
            forall|j: int| 0 <= j < backwards@.len() ==> backwards@[j] == all[all.len() - 1 - j],
        decreases source.len(),
    {
        let item = source.pop().unwrap();
        backwards.push(item);
    }
    assert(backwards@ =~= all.reverse());
    backwards
}

/// Merges two runs of keyed records.
fn merge(left: Vec<Keyed>, right: Vec<Keyed>, Ghost(field): Ghost<SortField>, Ghost(ipv6): Ghost<
    bool,
>) -> (out: Vec<Keyed>)
    requires
        keyed_by(left@, field, ipv6),
        keyed_by(right@, field, ipv6),
    ensures
        keyed_by(out@, field, ipv6),
        records(out@) == merged(records(left@), records(right@), field, ipv6),
{
    let ghost all_left = left@;
    let ghost all_right = right@;
    let mut left = reversed(left);
    let mut right = reversed(right);
    let mut out: Vec<Keyed> = Vec::new();
    proof {
        assert(left@.reverse() =~= all_left);
        assert(right@.reverse() =~= all_right);
        assert(records(out@) =~= Seq::<Socket>::empty());
    }
    while left.len() > 0 || right.len() > 0
        invariant
            keyed_by(left@.reverse(), field, ipv6),
            keyed_by(right@.reverse(), field, ipv6),
            keyed_by(out@, field, ipv6),
            records(out@) + merged(
                records(left@.reverse()),
                records(right@.reverse()),
                field,
                ipv6,
            ) == merged(records(all_left), records(all_right), field, ipv6),
        decreases left.len() + right.len(),
    {
        let ghost l = left@.reverse();
        let ghost r = right@.reverse();
        let ghost done = out@;
        let from_left: bool = if left.len() == 0 {
            false
        } else if right.len() == 0 {
            true
        } else {
            proof {
                assert(l[0] == left@[left@.len() - 1]);
                assert(r[0] == right@[right@.len() - 1]);
                assert(records(l)[0] == l[0].socket);
                assert(records(r)[0] == r[0].socket);
            }
            left[left.len() - 1].key.at_most(&right[right.len() - 1].key)
        };
        if from_left {
            let item = left.pop().unwrap();
            proof {
                assert(item == l[0]);
                assert(left@.reverse() =~= l.drop_first());
                assert(records(l.drop_first()) =~= records(l).drop_first());
                assert(records(l)[0] == item.socket);
                if r.len() == 0 {
                    assert(records(r) =~= Seq::<Socket>::empty());
                    assert(merged(records(l), records(r), field, ipv6) == records(l));
                    assert(merged(records(l.drop_first()), records(r), field, ipv6) == records(
                        l.drop_first(),
                    )) by {
                        if l.drop_first().len() == 0 {
                            assert(records(l.drop_first()) =~= records(r));
                        }
                    }
                    assert(records(l) =~= seq![item.socket] + records(l.drop_first()));
                }
            }
            out.push(item);
            proof {
                assert(records(out@) =~= records(done) + seq![item.socket]);
                assert(records(out@) + merged(
                    records(left@.reverse()),
                    records(right@.reverse()),
                    field,
                    ipv6,
                ) =~= records(done) + merged(records(l), records(r), field, ipv6));
            }
        } else {
            let item = right.pop().unwrap();
            proof {
                assert(item == r[0]);
                assert(right@.reverse() =~= r.drop_first());
                assert(records(r.drop_first()) =~= records(r).drop_first());
                assert(records(r)[0] == item.socket);
                if l.len() == 0 {
                    assert(records(l) =~= Seq::<Socket>::empty());
                    assert(merged(records(l), records(r), field, ipv6) == records(r));
                    assert(merged(records(l), records(r.drop_first()), field, ipv6) == records(
                        r.drop_first(),
                    ));
                    assert(records(r) =~= seq![item.socket] + records(r.drop_first()));
                }
            }
            out.push(item);
            proof {
                assert(records(out@) =~= records(done) + seq![item.socket]);
                assert(records(out@) + merged(
                    records(left@.reverse()),
                    records(right@.reverse()),
                    field,
                    ipv6,
                ) =~= records(done) + merged(records(l), records(r), field, ipv6));
            }
        }
    }
    proof {
        assert(records(left@.reverse()) =~= Seq::<Socket>::empty());
        assert(records(out@) =~= merged(records(all_left), records(all_right), field, ipv6));
    }
    out
}

/// Sorts keyed records by merging: each half is sorted, then the halves are
/// merged.
fn merge_sort(items: Vec<Keyed>, Ghost(field): Ghost<SortField>, Ghost(ipv6): Ghost<bool>) -> (out:
    Vec<Keyed>)
    requires
        keyed_by(items@, field, ipv6),
    ensures
        keyed_by(out@, field, ipv6),
        records(out@) == sorted_by(records(items@), field, ipv6),
    decreases items.len(),
{
    let ghost all = items@;
    if items.len() <= 1 {
        proof {
            let table = records(all);
            if table.len() == 1 {
                let none = table.drop_last();
                assert(sorted_by(none, field, ipv6) == none);
                assert(keys_of(none, field, ipv6) =~= Seq::<Seq<int>>::empty());
                assert(insertion_point(
                    keys_of(none, field, ipv6),
                    sort_key(field, ipv6, table.last()@),
                ) == 0);
                assert(none.insert(0, table.last()) =~= table);
            }
        }
        return items;
    }
    let mut left = items;
    let middle: usize = left.len() / 2;
    let right = left.split_off(middle);
    proof {
        assert(all =~= left@ + right@);
        assert(records(all) =~= records(left@) + records(right@));
        assert(keyed_by(left@, field, ipv6)) by {
            assert forall|i: int| 0 <= i < left@.len() implies (#[trigger] left@[i]).key.model()
                == sort_key(field, ipv6, left@[i].socket@) by {
                assert(left@[i] == all[i]);
            }
        }
        assert(keyed_by(right@, field, ipv6)) by {
            assert forall|i: int| 0 <= i < right@.len() implies (#[trigger] right@[i]).key.model()
                == sort_key(field, ipv6, right@[i].socket@) by {
                assert(right@[i] == all[middle + i]);
            }
        }
        lemma_sorted_of_concat(records(left@), records(right@), field, ipv6);
    }
    let left = merge_sort(left, Ghost(field), Ghost(ipv6));
    let right = merge_sort(right, Ghost(field), Ghost(ipv6));
    merge(left, right, Ghost(field), Ghost(ipv6))
}

/// Sorts `table` in ascending order of the keys of `field`, records with
/// equal keys in the order they had.
pub fn sort_ascending(table: &mut Vec<Socket>, field: SortField, ipv6: bool)
    ensures
        final(table)@ == sorted_by(old(table)@, field, ipv6),
{
    let mut source: Vec<Socket> = Vec::new();
    std::mem::swap(table, &mut source);
    let ghost all = source@;
    let mut items: Vec<Keyed> = Vec::new();
    let ghost mut i: int = 0;
    proof {
        assert(records(items@) =~= all.take(0));
    }
    for socket in it: source
        invariant
            i == it.index(),
            it.seq() == all,
            keyed_by(items@, field, ipv6),
            records(items@) == all.take(i),
    {
        let ghost before = items@;
        let key = key_of(field, ipv6, &socket);
        items.push(Keyed { key, socket });
        proof {
            assert(records(items@) =~= records(before).push(socket));
            assert(all.take(i + 1) =~= all.take(i).push(socket));
            i = i + 1;
        }
    }
    proof {
        assert(all.take(i) =~= all);
    }
    let mut sorted = merge_sort(items, Ghost(field), Ghost(ipv6));
    let ghost in_order = sorted@;
    let ghost mut done: int = 0;
    proof {
        assert(table@ =~= records(in_order).take(0));
    }
    for item in it: sorted
        invariant
            done == it.index(),
            it.seq() == in_order,
            table@ == records(in_order).take(done),
    {
        table.push(item.socket);
        proof {
            assert(records(in_order).take(done + 1) =~= records(in_order).take(done).push(
                item.socket,
            ));
            done = done + 1;
        }
    }
    proof {
        assert(records(in_order).take(done) =~= records(in_order));
    }
}

/// The records of `table` in the order asked for: ascending, or, for the
/// descending order, the ascending order read backwards.
pub open spec fn ordered(table: Seq<Socket>, field: SortField, ipv6: bool, descending: bool) -> Seq<
    Socket,
> {
    if descending {
        sorted_by(table, field, ipv6).reverse()
    } else {
        sorted_by(table, field, ipv6)
    }
}

/// The descending order is the exact reverse of the ascending order of the
/// same table, for every field.
pub proof fn lemma_descending_is_reverse(table: Seq<Socket>, field: SortField, ipv6: bool)
    ensures
        ordered(table, field, ipv6, true) == ordered(table, field, ipv6, false).reverse(),
        ordered(table, field, ipv6, false) == ordered(table, field, ipv6, true).reverse(),
{
    let ascending = sorted_by(table, field, ipv6);
    assert(ascending.reverse().reverse() =~= ascending);
}

/// Puts the records of `table` in the reverse order.
pub fn reverse_table(table: &mut Vec<Socket>)
    ensures
        final(table)@ == old(table)@.reverse(),
{
    let mut source: Vec<Socket> = Vec::new();
    std::mem::swap(table, &mut source);
    let ghost all = source@;
    while source.len() > 0
        invariant
            source@ == all.take(source.len() as int),
            table@.len() + source@.len() == all.len(),
            forall|j: int| 0 <= j < table@.len() ==> table@[j] == all[all.len() - 1 - j],
        decreases source.len(),
    {
        let socket = source.pop().unwrap();
        table.push(socket);
    }
    assert(table@ =~= all.reverse());
}

/// The sort order that `order`, given in lower case, names, as whether it
/// is descending.
pub open spec fn order_named(order: Seq<char>) -> Option<bool> {
    if order == "asc"@ {
        Some(false)
    } else if order == "desc"@ {
        Some(true)
    } else {
        None
    }
}

/// The sort field that `field`, given in lower case, names.
pub open spec fn field_named(field: Seq<char>) -> Option<SortField> {
    if field == "pid"@ {
        Some(SortField::Pid)
    } else if field == "port"@ {
        Some(SortField::Port)
    } else if field == "remote-port"@ {
        Some(SortField::RemotePort)
    } else if field == "process-name"@ {
        Some(SortField::ProcessName)
    } else if field == "uptime"@ {
        Some(SortField::Uptime)
    } else if field == "local-address"@ {
        Some(SortField::LocalAddress)
    } else if field == "remote-address"@ {
        Some(SortField::RemoteAddress)
    } else {
        None
    }
}

/// Reads the name of a sort field, given in lower case.
pub fn parse_sort_field(field: &str) -> (named: Option<SortField>)
    ensures
        named == field_named(field@),
{
    if str_equal(field, "pid") {
        Some(SortField::Pid)
    } else if str_equal(field, "port") {
        Some(SortField::Port)
    } else if str_equal(field, "remote-port") {
        Some(SortField::RemotePort)
    } else if str_equal(field, "process-name") {
        Some(SortField::ProcessName)
    } else if str_equal(field, "uptime") {
        Some(SortField::Uptime)
    } else if str_equal(field, "local-address") {
        Some(SortField::LocalAddress)
    } else if str_equal(field, "remote-address") {
        Some(SortField::RemoteAddress)
    } else {
        None
    }
}

/// Sorts `table` by `field` in the order that `order` names, `asc` or
/// `desc` in lower case. Any other order is rejected, and the table stays as
/// it is.
pub fn sort_by(order: &str, table: &mut Vec<Socket>, field: SortField, ipv6: bool) -> (done: Result<
    (),
    RpdError,
>)
    ensures
        match done {
            Ok(_) => order_named(order@) is Some && final(table)@ == ordered(
                old(table)@,
                field,
                ipv6,
                order_named(order@)->0,
            ),
            Err(e) => order_named(order@) is None && e@ == RpdErrorView::InvalidSortOrderErr(
                order@,
            ) && *final(table) == *old(table),
        },
{
    if str_equal(order, "asc") {
        sort_ascending(table, field, ipv6);
        Ok(())
    } else if str_equal(order, "desc") {
        sort_ascending(table, field, ipv6);
        reverse_table(table);
        Ok(())
    } else {
        Err(RpdError::InvalidSortOrderErr(String::from_str(order)))
    }
}

/// The text at `index` of a sort option, in lower case, or the empty text
/// where the option is too short.
pub open spec fn sort_word(sort: Seq<Seq<char>>, index: int) -> Seq<char> {
    if 0 <= index < sort.len() {
        lowercase(sort[index])
    } else {
        Seq::empty()
    }
}

/// Why a sort option, the order and then the field, is rejected, if it is:
/// the field is checked first, then the order. The failure holds the
/// offending word in lower case.
pub open spec fn sort_error(sort: Seq<Seq<char>>) -> Option<RpdErrorView> {
    if field_named(sort_word(sort, 1)) is None {
        Some(RpdErrorView::InvalidSortFieldErr(sort_word(sort, 1)))
    } else if order_named(sort_word(sort, 0)) is None {
        Some(RpdErrorView::InvalidSortOrderErr(sort_word(sort, 0)))
    } else {
        None
    }
}

/// Whether the addresses of a run are read as IPv6: only where version 6 is
/// chosen.
pub open spec fn sorts_as_ipv6(args: Args) -> bool {
    args.ip_version == Some(6u8)
}

/// The word at `index` of a sort option, in lower case.
fn lower_word(sort: &Vec<String>, index: usize) -> (word: String)
    ensures
        word@ == sort_word(sort.deep_view(), index as int),
{
    if index < sort.len() {
        to_lowercase(sort[index].as_str())
    } else {
        String::new()
    }
}

impl Socket {
    /// Sorts `socket_table` as the sort option of `args` asks: by one field,
    /// ascending or descending. Without a sort option the table stays as it
    /// is, and so it does where the option is rejected.
    pub fn sort_socket_table(socket_table: &mut Vec<Socket>, args: &Args) -> (done: Result<
        (),
        RpdError,
    >)
        ensures
            match done {
                Ok(_) => match args.sort_by {
                    None => *final(socket_table) == *old(socket_table),
                    Some(sort) => sort_error(sort.deep_view()) is None && final(socket_table)@
                        == ordered(
                        old(socket_table)@,
                        field_named(sort_word(sort.deep_view(), 1))->0,
                        sorts_as_ipv6(*args),
                        order_named(sort_word(sort.deep_view(), 0))->0,
                    ),
                },
                Err(e) => args.sort_by is Some && sort_error(args.sort_by->0.deep_view()) == Some(
                    e@,
                ) && *final(socket_table) == *old(socket_table),
            },
    {
        match &args.sort_by {
            None => Ok(()),
            Some(sort) => {
                let order = lower_word(sort, 0);
                let field = lower_word(sort, 1);
                let ipv6 = match args.ip_version {
                    Some(v) => v == 6,
                    None => false,
                };
                match parse_sort_field(field.as_str()) {
                    Some(named) => sort_by(order.as_str(), socket_table, named, ipv6),
                    None => Err(RpdError::InvalidSortFieldErr(field)),
                }
            },
        }
    }
}

} // verus!
