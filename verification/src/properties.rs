//! What is known of a value before the data is seen.
use crate::double::Double;
use crate::error::{Argument, Error};
use indexmap::IndexMap;
use vstd::prelude::*;

verus! {

/// The type of the single elements of a value.
#[derive(Clone, Copy, Debug, PartialEq, Eq, Structural)]
pub enum DataType {
    Unknown,
    Bool,
    Int,
    Float,
    Str,
}

/// What kind of values an array holds.
#[derive(Clone, Copy, Debug, PartialEq, Eq, Structural)]
pub enum Nature {
    Continuous,
    Categorical,
}

/// The component by which a value was aggregated.
#[derive(Clone, Copy, Debug, PartialEq, Eq, Structural)]
pub struct Aggregator {
    pub node_id: u32,
}

/// A part of a partition of the data.
#[derive(Clone, Copy, Debug, PartialEq, Eq, Structural)]
pub struct GroupId {
    pub partition_id: u32,
    pub index: Option<i64>,
}

/// By how much a transformation may amplify the use of privacy: a number, or a product that
/// is still to be worked out.
#[derive(Debug)]
pub enum Stability {
    Value(Double),
    Product(Box<Stability>, Box<Stability>),
}

impl Stability {
    /// How many numbers are multiplied.
    pub open spec fn factors(self) -> nat
        decreases self,
    {
        match self {
            Stability::Value(_) => 1,
            Stability::Product(left, right) => left.factors() + right.factors(),
        }
    }

    /// The product of the numbers, without rounding, in units of 2^-1074 to the power of their
    /// count.
    pub open spec fn exact(self) -> int
        decreases self,
    {
        match self {
            Stability::Value(value) => value.value(),
            Stability::Product(left, right) => left.exact() * right.exact(),
        }
    }

    /// Copies the number, or the product with its factors.
    pub fn duplicate(&self) -> (copy: Stability)
        ensures
            copy == *self,
        decreases self,
    {
        match self {
            Stability::Value(value) => Stability::Value(*value),
            Stability::Product(left, right) => Stability::Product(
                Box::new(left.duplicate()),
                Box::new(right.duplicate()),
            ),
        }
    }
}

/// The products of the elements of two sequences, as far as the shorter of them goes.
pub open spec fn products(left: Seq<Stability>, right: Seq<Stability>) -> Seq<Stability> {
    let length = if left.len() < right.len() {
        left.len()
    } else {
        right.len()
    };
    Seq::new(length, |i: int| Stability::Product(Box::new(left[i]), Box::new(right[i])))
}

/// Multiplies element by element, as far as the shorter of the two goes.
pub fn multiply_stabilities(left: &Vec<Stability>, right: &Vec<Stability>) -> (product: Vec<
    Stability,
>)
    ensures
        product@ == products(left@, right@),
{
    let mut product: Vec<Stability> = Vec::new();
    let length: usize = if left.len() < right.len() {
        left.len()
    } else {
        right.len()
    };
    for i in 0..length
        invariant
            length == products(left@, right@).len(),
            length <= left@.len(),
            length <= right@.len(),
            product@ == products(left@, right@).take(i as int),
    {
        product.push(
            Stability::Product(Box::new(left[i].duplicate()), Box::new(right[i].duplicate())),
        );
        assert(product@ =~= products(left@, right@).take(i + 1));
    }
    assert(product@ =~= products(left@, right@));
    product
}

/// The properties of an array.
#[derive(Debug)]
pub struct ArrayProperties {
    /// The number of records, where it is known.
    pub num_records: Option<i64>,
    /// The number of columns, where it is known.
    pub num_columns: Option<i64>,
    /// Whether elements may be missing.
    pub nullity: bool,
    /// Whether the array may be released.
    pub releasable: bool,
    /// The stability of each column.
    pub c_stability: Vec<Stability>,
    /// How the array was aggregated, if it was.
    pub aggregator: Option<Aggregator>,
    pub nature: Option<Nature>,
    pub data_type: DataType,
    /// The node at which the number of records was last set.
    pub dataset_id: Option<i64>,
    /// Whether there is known to be a record.
    pub is_not_empty: bool,
    pub dimensionality: Option<i64>,
    /// The parts of partitions that the array belongs to.
    pub group_id: Vec<GroupId>,
}

impl ArrayProperties {
    /// Refuses an array that was aggregated.
    pub fn assert_is_not_aggregated(&self) -> (outcome: Result<(), Error>)
        ensures
            outcome == if self.aggregator is Some {
                Err::<(), Error>(Error::Aggregated)
            } else {
                Ok(())
            },
    {
        if self.aggregator.is_some() {
            Err(Error::Aggregated)
        } else {
            Ok(())
        }
    }

    /// Refuses an array that may be empty.
    pub fn assert_is_not_empty(&self) -> (outcome: Result<(), Error>)
        ensures
            outcome == if self.is_not_empty {
                Ok::<(), Error>(())
            } else {
                Err(Error::PossiblyEmpty)
            },
    {
        if self.is_not_empty {
            Ok(())
        } else {
            Err(Error::PossiblyEmpty)
        }
    }

    /// The number of records, which must be known.
    pub fn num_records(&self) -> (number: Result<i64, Error>)
        ensures
            number == match self.num_records {
                Some(number) => Ok::<i64, Error>(number),
                None => Err(Error::UnknownLength),
            },
    {
        match self.num_records {
            Some(number) => Ok(number),
            None => Err(Error::UnknownLength),
        }
    }
}

/// The properties of a value.
#[derive(Debug)]
pub enum ValueProperties {
    Array(ArrayProperties),
    /// The value is no array.
    Other,
}

impl ValueProperties {
    /// The properties of an array. `argument` says what the value is given for.
    pub fn array(&self, argument: Argument) -> (array: Result<&ArrayProperties, Error>)
        ensures
            match *self {
                ValueProperties::Array(properties) => array == Ok::<&ArrayProperties, Error>(
                    &properties,
                ),
                ValueProperties::Other => array == Err::<&ArrayProperties, Error>(
                    Error::NotAnArray(argument),
                ),
            },
    {
        match self {
            ValueProperties::Array(properties) => Ok(properties),
            ValueProperties::Other => Err(Error::NotAnArray(argument)),
        }
    }
}

/// The properties of a data frame: those of its columns, by name.
#[derive(Debug)]
pub struct DataframeProperties {
    pub children: IndexMap<String, ValueProperties>,
}

/// A value with the warnings that came up on the way to it.
#[derive(Debug)]
pub struct Warnable<T> {
    pub value: T,
    pub warnings: Vec<Error>,
}

/// The map of the `indexmap` crate: keys and values, in the order of insertion.
#[verifier::external_type_specification]
#[verifier::external_body]
#[verifier::reject_recursive_types(K)]
#[verifier::reject_recursive_types(V)]
#[verifier::reject_recursive_types(S)]
pub struct ExIndexMap<K, V, S>(IndexMap<K, V, S>);

/// What a map holds: each key, which occurs once, with its value, in the order of the map.
pub uninterp spec fn entries(map: IndexMap<String, ValueProperties>) -> Seq<
    (Seq<char>, ValueProperties),
>;

/// The value of `key` in a row of keys and values.
pub open spec fn lookup(
    entries: Seq<(Seq<char>, ValueProperties)>,
    key: Seq<char>,
) -> Option<ValueProperties>
    decreases entries.len(),
{
    if entries.len() == 0 {
        None
    } else if entries[0].0 == key {
        Some(entries[0].1)
    } else {
        lookup(entries.skip(1), key)
    }
}

/// The row of keys and values once `key` has been given `value`: in its place where it was
/// there, else at the end.
pub open spec fn with_entry(
    entries: Seq<(Seq<char>, ValueProperties)>,
    key: Seq<char>,
    value: ValueProperties,
) -> Seq<(Seq<char>, ValueProperties)> {
    if lookup(entries, key) is Some {
        entries.map_values(
            |entry: (Seq<char>, ValueProperties)|
                if entry.0 == key {
                    (key, value)
                } else {
                    entry
                },
        )
    } else {
        entries.push((key, value))
    }
}

/// `IndexMap::new` gives a map that holds nothing.
#[verifier::external_body]
pub(crate) fn new_map() -> (map: IndexMap<String, ValueProperties>)
    ensures
        entries(map) == Seq::<(Seq<char>, ValueProperties)>::empty(),
{
    IndexMap::new()
}

/// `IndexMap::insert` gives a key its value: a key that is there keeps its place, and a new
/// one comes last.
#[verifier::external_body]
pub(crate) fn insert(
    map: &mut IndexMap<String, ValueProperties>,
    key: String,
    value: ValueProperties,
)
    ensures
        entries(*final(map)) == with_entry(entries(*old(map)), key@, value),
{
    map.insert(key, value);
}

/// `IndexMap::get` gives the value of a key, where the key is there.
#[verifier::external_body]
pub(crate) fn get<'a>(map: &'a IndexMap<String, ValueProperties>, key: &str) -> (value: Option<
    &'a ValueProperties,
>)
    ensures
        match value {
            Some(value) => lookup(entries(*map), key@) == Some(*value),
            None => lookup(entries(*map), key@) is None,
        },
{
    map.get(key)
}

/// Two rows of stabilities are multiplied element by element: there are as many products as the
/// shorter row has elements, and each multiplies the two elements at its place, all factors of
/// both.
pub proof fn law_stabilities_are_multiplied_in_place(
    left: &Vec<Stability>,
    right: &Vec<Stability>,
    product: Vec<Stability>,
)
    requires
        call_ensures(multiply_stabilities, (left, right), product),
    ensures
        product@.len() <= left@.len() && product@.len() <= right@.len(),
        product@.len() == left@.len() || product@.len() == right@.len(),
        forall|i: int|
            0 <= i < product@.len() ==> {
                &&& #[trigger] product@[i] == Stability::Product(
                    Box::new(left@[i]),
                    Box::new(right@[i]),
                )
                &&& product@[i].exact() == left@[i].exact() * right@[i].exact()
                &&& product@[i].factors() == left@[i].factors() + right@[i].factors()
            },
{
}

/// A single number counts as one factor, worth itself. A copy is worth the same.
pub proof fn law_stabilities_are_worth_their_factors(
    number: Double,
    stability: Stability,
    copy: Stability,
)
    requires
        call_ensures(Stability::duplicate, (&stability,), copy),
    ensures
        Stability::Value(number).exact() == number.value(),
        Stability::Value(number).factors() == 1,
        copy == stability,
        stability.factors() >= 1,
{
    lemma_factors(stability);
}

proof fn lemma_factors(stability: Stability)
    ensures
        stability.factors() >= 1,
    decreases stability,
{
    if let Stability::Product(left, right) = stability {
        lemma_factors(*left);
        lemma_factors(*right);
    }
}

/// An array is objected to exactly where it was aggregated, where it may be empty, or where its
/// number of records is not known; else that number is given as it is.
pub proof fn law_arrays_are_objected_to(
    array: ArrayProperties,
    aggregation: Result<(), Error>,
    emptiness: Result<(), Error>,
    records: Result<i64, Error>,
)
    requires
        call_ensures(ArrayProperties::assert_is_not_aggregated, (&array,), aggregation),
        call_ensures(ArrayProperties::assert_is_not_empty, (&array,), emptiness),
        call_ensures(ArrayProperties::num_records, (&array,), records),
    ensures
        aggregation is Ok <==> array.aggregator is None,
        aggregation matches Err(error) ==> error == Error::Aggregated,
        emptiness is Ok <==> array.is_not_empty,
        emptiness matches Err(error) ==> error == Error::PossiblyEmpty,
        records is Ok <==> array.num_records is Some,
        records matches Ok(number) ==> array.num_records == Some(number),
        records matches Err(error) ==> error == Error::UnknownLength,
{
}

/// A value gives the properties of the array that it is, and where it is none says for which
/// argument it was given.
pub proof fn law_only_arrays_have_array_properties(
    value: ValueProperties,
    argument: Argument,
    array: Result<&ArrayProperties, Error>,
)
    requires
        call_ensures(ValueProperties::array, (&value, argument), array),
    ensures
        array is Ok <==> value is Array,
        array matches Ok(properties) ==> value == ValueProperties::Array(*properties),
        array matches Err(error) ==> error == Error::NotAnArray(argument),
{
}

/// What is found under a key is the value of the first entry of that key, and nothing is found
/// only where no entry has it.
pub proof fn law_lookup_finds_the_first_entry(
    entries: Seq<(Seq<char>, ValueProperties)>,
    key: Seq<char>,
) -> (place: int)
    ensures
        0 <= place <= entries.len(),
        forall|i: int| 0 <= i < place ==> (#[trigger] entries[i]).0 != key,
        match lookup(entries, key) {
            Some(value) => place < entries.len() && entries[place] == (key, value),
            None => place == entries.len(),
        },
    decreases entries.len(),
{
    if entries.len() == 0 || entries[0].0 == key {
        0
    } else {
        let rest = entries.skip(1);
        let place = law_lookup_finds_the_first_entry(rest, key);
        assert forall|i: int| 0 <= i < place + 1 implies (#[trigger] entries[i]).0 != key by {
            if i > 0 {
                assert(rest[i - 1] == entries[i]);
            }
        }
        place + 1
    }
}

/// Once a key has been given a value, the value is found under it, and what is found under any
/// other key is as before.
pub proof fn law_entries_are_found_again(
    entries: Seq<(Seq<char>, ValueProperties)>,
    key: Seq<char>,
    value: ValueProperties,
    other: Seq<char>,
)
    ensures
        lookup(with_entry(entries, key, value), key) == Some(value),
        other != key ==> lookup(with_entry(entries, key, value), other) == lookup(entries, other),
        with_entry(entries, key, value).len() == entries.len() + if lookup(entries, key) is Some {
            0int
        } else {
            1
        },
        forall|i: int|
            0 <= i < entries.len() ==> (#[trigger] with_entry(entries, key, value)[i]).0
                == entries[i].0,
{
    let later = with_entry(entries, key, value);
    let place = law_lookup_finds_the_first_entry(entries, key);
    let found = law_lookup_finds_the_first_entry(later, key);
    assert(later[place] == (key, value));
    assert forall|i: int| 0 <= i < place implies (#[trigger] later[i]).0 != key by {
        assert(entries[i].0 != key);
    }
    assert(found == place) by {
        if found < place {
            assert(later[found].0 != key);
        }
        if place < found {
            assert(later[place].0 != key);
        }
    }
    if other != key {
        let at = law_lookup_finds_the_first_entry(entries, other);
        let again = law_lookup_finds_the_first_entry(later, other);
        assert forall|i: int| 0 <= i < entries.len() implies ((#[trigger] later[i]).0 == other
            <==> entries[i].0 == other) && (later[i].0 == other ==> later[i] == entries[i]) by {}
        if at < entries.len() {
            assert(later[at].0 == other);
            if again < at {
                assert(entries[again].0 != other);
            }
            if at < again {
                assert(later[at].0 != other);
            }
        } else if again < later.len() {
            if again < entries.len() {
                assert(entries[again].0 != other);
            }
        }
    }
}

} // verus!
