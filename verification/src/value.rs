//! Decoded values.
use crate::numbers::{le_int, le_nat};
use vstd::prelude::*;

verus! {

/// A decoded value.
#[derive(Debug, PartialEq)]
pub enum Value {
    /// An absent optional value.
    Null,
    Bool(bool),
    /// An unsigned integer of up to 128 bits.
    Uint(u128),
    /// A signed integer of up to 128 bits.
    Int(i128),
    /// An unsigned integer of 256 bits, lowest byte first.
    WideUint([u8; 32]),
    /// A two's complement integer of 256 bits, lowest byte first.
    WideInt([u8; 32]),
    /// The bits of a single-precision float.
    F32(u32),
    /// The bits of a double-precision float.
    F64(u64),
    Bytes(Vec<u8>),
    Str(String),
    List(Vec<Value>),
    /// Entries in the order in which their keys were first set; no key occurs
    /// twice.
    Dict(Vec<(String, Value)>),
}

/// Mathematical counterpart of [`Value`]. Integers of every width are one kind
/// of value.
pub enum ValueModel {
    Null,
    Bool(bool),
    Int(int),
    F32(u32),
    F64(u64),
    Bytes(Seq<u8>),
    Str(Seq<char>),
    List(Seq<ValueModel>),
    Dict(Seq<(Seq<char>, ValueModel)>),
}

impl Value {
    /// The value as a mathematical one.
    pub open spec fn model(self) -> ValueModel
        decreases self,
    {
        match self {
            Value::Null => ValueModel::Null,
            Value::Bool(b) => ValueModel::Bool(b),
            Value::Uint(n) => ValueModel::Int(n as int),
            Value::Int(n) => ValueModel::Int(n as int),
            Value::WideUint(bytes) => ValueModel::Int(le_nat(bytes@) as int),
            Value::WideInt(bytes) => ValueModel::Int(le_int(bytes@)),
            Value::F32(bits) => ValueModel::F32(bits),
            Value::F64(bits) => ValueModel::F64(bits),
            Value::Bytes(bytes) => ValueModel::Bytes(bytes@),
            Value::Str(text) => ValueModel::Str(text@),
            Value::List(items) => ValueModel::List(
                Seq::new(
                    items@.len(),
                    |i: int|
                        if 0 <= i < items@.len() {
                            items@[i].model()
                        } else {
                            ValueModel::Null
                        },
                ),
            ),
            Value::Dict(entries) => ValueModel::Dict(
                Seq::new(
                    entries@.len(),
                    |i: int|
                        if 0 <= i < entries@.len() {
                            (entries@[i].0@, entries@[i].1.model())
                        } else {
                            (Seq::empty(), ValueModel::Null)
                        },
                ),
            ),
        }
    }
}

impl View for Value {
    type V = ValueModel;

    open spec fn view(&self) -> ValueModel {
        self.model()
    }
}

/// A list of values as a mathematical one.
pub open spec fn list_model(items: Seq<Value>) -> Seq<ValueModel> {
    items.map_values(|v: Value| v@)
}

/// Dictionary entries as mathematical ones.
pub open spec fn dict_model(entries: Seq<(String, Value)>) -> Seq<(Seq<char>, ValueModel)> {
    entries.map_values(|e: (String, Value)| (e.0@, e.1@))
}

/// The view of a list is the list of its items' views.
pub broadcast proof fn lemma_list_view(items: Vec<Value>)
    ensures
        #[trigger] Value::List(items)@ == ValueModel::List(list_model(items@)),
{
    assert(Value::List(items).model()->List_0 =~= list_model(items@));
}

/// The view of a dictionary is the dictionary of its entries' views.
pub broadcast proof fn lemma_dict_view(entries: Vec<(String, Value)>)
    ensures
        #[trigger] Value::Dict(entries)@ == ValueModel::Dict(dict_model(entries@)),
{
    assert(Value::Dict(entries).model()->Dict_0 =~= dict_model(entries@));
}

/// The position of the first entry with `key`, or the number of entries.
pub open spec fn key_index(entries: Seq<(Seq<char>, ValueModel)>, key: Seq<char>) -> int
    decreases entries.len(),
{
    if entries.len() == 0 || entries[0].0 == key {
        0
    } else {
        1 + key_index(entries.drop_first(), key)
    }
}

/// The dictionary after `key` is set to `value`: an entry of that key keeps its
/// place and gets the new value, and a new key goes to the end.
pub open spec fn dict_set(
    entries: Seq<(Seq<char>, ValueModel)>,
    key: Seq<char>,
    value: ValueModel,
) -> Seq<(Seq<char>, ValueModel)> {
    let i = key_index(entries, key);
    if i < entries.len() {
        entries.update(i, (key, value))
    } else {
        entries.push((key, value))
    }
}

/// No two entries have the same key.
pub open spec fn distinct_keys(entries: Seq<(Seq<char>, ValueModel)>) -> bool {
    forall|i: int, j: int| 0 <= i < j < entries.len() ==> entries[i].0 != entries[j].0
}

/// No dictionary in `v`, at any depth, has a key twice.
pub open spec fn proper(v: ValueModel) -> bool
    decreases v,
{
    match v {
        ValueModel::List(items) => forall|i: int|
            0 <= i < items.len() ==> proper(#[trigger] items[i]),
        ValueModel::Dict(entries) => {
            &&& distinct_keys(entries)
            &&& forall|i: int| 0 <= i < entries.len() ==> proper((#[trigger] entries[i]).1)
        },
        _ => true,
    }
}

/// The first entry with a key is the one that `key_index` finds.
pub proof fn lemma_key_index(entries: Seq<(Seq<char>, ValueModel)>, key: Seq<char>)
    ensures
        0 <= key_index(entries, key) <= entries.len(),
        key_index(entries, key) < entries.len() ==> entries[key_index(entries, key)].0 == key,
        forall|i: int| 0 <= i < key_index(entries, key) ==> (#[trigger] entries[i]).0 != key,
    decreases entries.len(),
{
    if entries.len() > 0 && entries[0].0 != key {
        let rest = entries.drop_first();
        lemma_key_index(rest, key);
        assert forall|i: int| 0 <= i < key_index(entries, key) implies (#[trigger] entries[i]).0
            != key by {
            if i > 0 {
                assert(rest[i - 1] == entries[i]);
            }
        }
    }
}

proof fn lemma_key_index_is(entries: Seq<(Seq<char>, ValueModel)>, key: Seq<char>, n: int)
    requires
        0 <= n <= entries.len(),
        n < entries.len() ==> entries[n].0 == key,
        forall|i: int| 0 <= i < n ==> (#[trigger] entries[i]).0 != key,
    ensures
        key_index(entries, key) == n,
{
    lemma_key_index(entries, key);
    let m = key_index(entries, key);
    if m < n {
        assert(entries[m].0 != key);
    }
}

/// Setting a key keeps the keys of a dictionary distinct, and the key then has
/// the value it was set to.
pub proof fn lemma_dict_set(
    entries: Seq<(Seq<char>, ValueModel)>,
    key: Seq<char>,
    value: ValueModel,
)
    requires
        distinct_keys(entries),
    ensures
        distinct_keys(dict_set(entries, key, value)),
        dict_set(entries, key, value).contains((key, value)),
        forall|e: (Seq<char>, ValueModel)|
            e.0 != key ==> (dict_set(entries, key, value).contains(e) <==> entries.contains(e)),
{
    lemma_key_index(entries, key);
    let i = key_index(entries, key);
    let after = dict_set(entries, key, value);
    assert(after[i] == (key, value));
    assert forall|e: (Seq<char>, ValueModel)| e.0 != key implies (after.contains(e)
        <==> entries.contains(e)) by {
        if entries.contains(e) {
            let k = choose|k: int| 0 <= k < entries.len() && entries[k] == e;
            assert(after[k] == e);
        }
        if after.contains(e) {
            let k = choose|k: int| 0 <= k < after.len() && after[k] == e;
            assert(entries[k] == e);
        }
    }
}

/// Sets `key` to `value`.
pub fn set_entry(entries: &mut Vec<(String, Value)>, key: &String, value: Value)
    ensures
        dict_model(final(entries)@) == dict_set(dict_model(old(entries)@), key@, value@),
{
    let ghost before = dict_model(entries@);
    let mut i: usize = 0;
    while i < entries.len()
        invariant
            i <= entries@.len(),
            entries@ == old(entries)@,
            before == dict_model(entries@),
            forall|k: int| 0 <= k < i ==> (#[trigger] before[k]).0 != key@,
        decreases entries@.len() - i,
    {
        if entries[i].0 == *key {
            proof {
                lemma_key_index_is(before, key@, i as int);
            }
            let name = key.clone();
            entries[i] = (name, value);
            assert(dict_model(entries@) =~= before.update(i as int, (key@, value@)));
            return;
        }
        i = i + 1;
    }
    proof {
        lemma_key_index_is(before, key@, i as int);
    }
    entries.push((key.clone(), value));
    assert(dict_model(entries@) =~= before.push((key@, value@)));
}

/// The model of a value is of its kind and holds what the value holds: numbers as
/// they are, and items and entries in their order.
pub proof fn lemma_value_view(v: Value)
    ensures
        match v {
            Value::Null => v@ is Null,
            Value::Bool(b) => v@ == ValueModel::Bool(b),
            Value::Uint(n) => v@ == ValueModel::Int(n as int),
            Value::Int(n) => v@ == ValueModel::Int(n as int),
            Value::WideUint(bytes) => v@ == ValueModel::Int(le_nat(bytes@) as int),
            Value::WideInt(bytes) => v@ == ValueModel::Int(le_int(bytes@)),
            Value::F32(bits) => v@ == ValueModel::F32(bits),
            Value::F64(bits) => v@ == ValueModel::F64(bits),
            Value::Bytes(bytes) => v@ == ValueModel::Bytes(bytes@),
            Value::Str(text) => v@ == ValueModel::Str(text@),
            Value::List(items) => {
                &&& v@ matches ValueModel::List(out)
                &&& out.len() == items@.len()
                &&& forall|i: int| 0 <= i < items@.len() ==> (#[trigger] out[i]) == items@[i]@
            },
            Value::Dict(entries) => {
                &&& v@ matches ValueModel::Dict(out)
                &&& out.len() == entries@.len()
                &&& forall|i: int|
                    0 <= i < entries@.len() ==> (#[trigger] out[i]).0 == entries@[i].0@
                        && out[i].1 == entries@[i].1@
            },
        },
{
    match v {
        Value::List(items) => lemma_list_view(items),
        Value::Dict(entries) => lemma_dict_view(entries),
        _ => {},
    }
}

/// A new key goes to the end and leaves the rest as it was; a key that is there
/// keeps its place, and no other entry changes.
pub proof fn lemma_dict_set_place(
    entries: Seq<(Seq<char>, ValueModel)>,
    key: Seq<char>,
    value: ValueModel,
)
    ensures
        (forall|i: int| 0 <= i < entries.len() ==> (#[trigger] entries[i]).0 != key) ==> dict_set(
            entries,
            key,
            value,
        ) == entries.push((key, value)),
        forall|i: int|
            0 <= i < entries.len() && (#[trigger] entries[i]).0 == key && (forall|j: int|
                0 <= j < i ==> (#[trigger] entries[j]).0 != key) ==> dict_set(entries, key, value)
                == entries.update(i, (key, value)),
{
    lemma_key_index(entries, key);
    assert forall|i: int|
        0 <= i < entries.len() && (#[trigger] entries[i]).0 == key && (forall|j: int|
            0 <= j < i ==> (#[trigger] entries[j]).0 != key) implies dict_set(entries, key, value)
        == entries.update(i, (key, value)) by {
        lemma_key_index_is(entries, key, i);
    }
}

/// The models of lists and of dictionary entries have as many items, in the same
/// order.
pub proof fn lemma_models(items: Seq<Value>, entries: Seq<(String, Value)>)
    ensures
        list_model(items).len() == items.len(),
        forall|i: int| 0 <= i < items.len() ==> (#[trigger] list_model(items)[i]) == items[i]@,
        dict_model(entries).len() == entries.len(),
        forall|i: int|
            0 <= i < entries.len() ==> (#[trigger] dict_model(entries)[i]).0 == entries[i].0@
                && dict_model(entries)[i].1 == entries[i].1@,
{
}

} // verus!
