//! The properties of a robust linear regression (the Theil-Sen estimator).
use crate::error::{Argument, Error};
use crate::properties::{
    self, ArrayProperties, DataType, DataframeProperties, GroupId, Stability, ValueProperties,
    Warnable,
};
use indexmap::IndexMap;
use vstd::prelude::*;

verus! {

/// What `str::to_lowercase` makes of a string.
pub uninterp spec fn lowercase(text: Seq<char>) -> Seq<char>;

/// `str::to_lowercase` gives the lowercase equivalent of a string, by the rules of Unicode.
/// The claim is that it depends on the string alone.
#[verifier::external_body]
fn to_lowercase(text: &str) -> (lowered: String)
    ensures
        lowered@ == lowercase(text@),
{
    text.to_lowercase()
}

/// A regression of one column on another, by the medians of slopes and intercepts.
#[derive(Debug)]
pub struct TheilSen {
    /// Which estimator to use, in any case of letters: all pairs of records, or `k` random
    /// matchings of them.
    pub implementation: String,
    pub k: i32,
}

/// Whether there is an estimator of that name, which is given in lower case.
pub open spec fn is_estimator(lowered: Seq<char>) -> bool {
    lowered == "theil-sen"@ || lowered == "theil-sen-k-match"@
}

/// The first objection to the arrays `x` and `y`, to the name of the estimator, or to mixing
/// the partitions of the arrays.
pub open spec fn objection_to_arrays(
    x: ArrayProperties,
    y: ArrayProperties,
    lowered: Seq<char>,
    group_id: Result<Vec<GroupId>, Error>,
) -> Option<Error> {
    if !x.releasable && x.aggregator is Some || !y.releasable && y.aggregator is Some {
        Some(Error::Aggregated)
    } else if !x.is_not_empty || !y.is_not_empty {
        Some(Error::PossiblyEmpty)
    } else if x.data_type != DataType::Float {
        Some(Error::NotFloat(Argument::X))
    } else if y.data_type != DataType::Float {
        Some(Error::NotFloat(Argument::Y))
    } else if x.num_records != y.num_records {
        Some(Error::LengthMismatch)
    } else if !is_estimator(lowered) {
        Some(Error::InvalidImplementation)
    } else if x.num_records is None {
        Some(Error::UnknownLength)
    } else {
        match group_id {
            Ok(_) => None,
            Err(error) => Some(error),
        }
    }
}

/// The first objection to the arguments of the regression.
pub open spec fn objection(
    arguments: Seq<(Seq<char>, ValueProperties)>,
    lowered: Seq<char>,
    group_id: Result<Vec<GroupId>, Error>,
) -> Option<Error> {
    match properties::lookup(arguments, "data_x"@) {
        None => Some(Error::Missing(Argument::X)),
        Some(ValueProperties::Other) => Some(Error::NotAnArray(Argument::X)),
        Some(ValueProperties::Array(x)) => match properties::lookup(arguments, "data_y"@) {
            None => Some(Error::Missing(Argument::Y)),
            Some(ValueProperties::Other) => Some(Error::NotAnArray(Argument::Y)),
            Some(ValueProperties::Array(y)) => objection_to_arrays(x, y, lowered, group_id),
        },
    }
}

/// The array that is given for an argument.
pub open spec fn argument(arguments: Seq<(Seq<char>, ValueProperties)>, name: Seq<char>) ->
    ArrayProperties {
    properties::lookup(arguments, name)->0->Array_0
}

/// `estimate` describes a coefficient of the regression of `y` on `x`.
pub open spec fn describes_coefficient(
    estimate: ArrayProperties,
    x: ArrayProperties,
    y: ArrayProperties,
    node_id: u32,
    group_id: Seq<GroupId>,
) -> bool {
    &&& estimate.num_records == Some(1i64)
    &&& estimate.num_columns == Some(2i64)
    &&& !estimate.nullity
    &&& estimate.releasable == (x.releasable && y.releasable)
    &&& estimate.c_stability@ == properties::products(x.c_stability@, y.c_stability@)
    &&& estimate.aggregator is None
    &&& estimate.nature is None
    &&& estimate.data_type == DataType::Float
    &&& estimate.dataset_id == Some(node_id as i64)
    &&& estimate.is_not_empty
    &&& estimate.dimensionality == Some(1i64)
    &&& estimate.group_id@ == group_id
}

/// `outcome` is what the regression, by the estimator of the name `lowered`, makes of its
/// arguments: the first objection to them, or the properties of the two columns `slope` and
/// `intercept`, and no warnings.
pub open spec fn is_outcome(
    outcome: Result<Warnable<DataframeProperties>, Error>,
    arguments: Seq<(Seq<char>, ValueProperties)>,
    lowered: Seq<char>,
    node_id: u32,
    group_id: Result<Vec<GroupId>, Error>,
) -> bool {
    match outcome {
        Err(error) => objection(arguments, lowered, group_id) == Some(error),
        Ok(frame) => {
            let columns = properties::entries(frame.value.children);
            let x = argument(arguments, "data_x"@);
            let y = argument(arguments, "data_y"@);
            &&& objection(arguments, lowered, group_id) is None
            &&& frame.warnings@.len() == 0
            &&& columns.len() == 2
            &&& columns[0].0 == "slope"@
            &&& columns[1].0 == "intercept"@
            &&& columns[0].1 matches ValueProperties::Array(slope) && describes_coefficient(
                slope,
                x,
                y,
                node_id,
                (group_id->Ok_0)@,
            )
            &&& columns[1].1 matches ValueProperties::Array(intercept) && describes_coefficient(
                intercept,
                x,
                y,
                node_id,
                (group_id->Ok_0)@,
            )
        },
    }
}

/// Copies the parts of partitions that an array belongs to.
fn copy_groups(groups: &Vec<GroupId>) -> (copy: Vec<GroupId>)
    ensures
        copy@ == groups@,
{
    let mut copy: Vec<GroupId> = Vec::new();
    let length: usize = groups.len();
    for i in 0..length
        invariant
            length == groups@.len(),
            copy@ == groups@.take(i as int),
    {
        copy.push(groups[i]);
        assert(copy@ =~= groups@.take(i + 1));
    }
    assert(copy@ =~= groups@);
    copy
}

/// Describes one coefficient of the regression.
fn coefficient(
    x: &ArrayProperties,
    y: &ArrayProperties,
    node_id: u32,
    group_id: &Vec<GroupId>,
) -> (estimate: ArrayProperties)
    ensures
        describes_coefficient(estimate, *x, *y, node_id, group_id@),
{
    ArrayProperties {
        num_records: Some(1),
        num_columns: Some(2),
        nullity: false,
        releasable: x.releasable && y.releasable,
        c_stability: properties::multiply_stabilities(&x.c_stability, &y.c_stability),
        aggregator: None,
        nature: None,
        data_type: DataType::Float,
        dataset_id: Some(node_id as i64),
        is_not_empty: true,
        dimensionality: Some(1),
        group_id: copy_groups(group_id),
    }
}

/// Looks up an argument that must be an array.
fn array_argument<'a>(
    arguments: &'a IndexMap<String, ValueProperties>,
    name: &str,
    argument: Argument,
) -> (array: Result<&'a ArrayProperties, Error>)
    ensures
        match properties::lookup(properties::entries(*arguments), name@) {
            None => array == Err::<&ArrayProperties, Error>(Error::Missing(argument)),
            Some(ValueProperties::Other) => array == Err::<&ArrayProperties, Error>(
                Error::NotAnArray(argument),
            ),
            Some(ValueProperties::Array(properties)) => array == Ok::<&ArrayProperties, Error>(
                &properties,
            ),
        },
{
    match properties::get(arguments, name) {
        Some(value) => value.array(argument),
        None => Err(Error::Missing(argument)),
    }
}

/// Checks the two arrays and the name of the estimator, which is given in lower case.
fn check_arrays(x: &ArrayProperties, y: &ArrayProperties, lowered: &str) -> (outcome: Result<
    (),
    Error,
>)
    ensures
        forall|group_id: Result<Vec<GroupId>, Error>| #[trigger]
            objection_to_arrays(*x, *y, lowered@, group_id) == match outcome {
                Err(error) => Some(error),
                Ok(_) => match group_id {
                    Ok(_) => None,
                    Err(error) => Some(error),
                },
            },
{
    if !x.releasable {
        x.assert_is_not_aggregated()?;
    }
    if !y.releasable {
        y.assert_is_not_aggregated()?;
    }
    x.assert_is_not_empty()?;
    y.assert_is_not_empty()?;
    if x.data_type != DataType::Float {
        return Err(Error::NotFloat(Argument::X));
    }
    if y.data_type != DataType::Float {
        return Err(Error::NotFloat(Argument::Y));
    }
    if x.num_records != y.num_records {
        return Err(Error::LengthMismatch);
    }
    let name: String = lowered.to_owned();
    if name != "theil-sen".to_owned() && name != "theil-sen-k-match".to_owned() {
        return Err(Error::InvalidImplementation);
    }
    x.num_records()?;
    Ok(())
}

/// Derives the properties of the regression by the estimator of the name `lowered`, which is
/// given in lower case.
pub fn propagate(
    lowered: &str,
    arguments: &IndexMap<String, ValueProperties>,
    node_id: u32,
    group_id: Result<Vec<GroupId>, Error>,
) -> (outcome: Result<Warnable<DataframeProperties>, Error>)
    ensures
        is_outcome(outcome, properties::entries(*arguments), lowered@, node_id, group_id),
{
    let x: &ArrayProperties = match array_argument(arguments, "data_x", Argument::X) {
        Ok(x) => x,
        Err(error) => return Err(error),
    };
    let y: &ArrayProperties = match array_argument(arguments, "data_y", Argument::Y) {
        Ok(y) => y,
        Err(error) => return Err(error),
    };
    match check_arrays(x, y, lowered) {
        Ok(_) => {},
        Err(error) => {
            assert(objection_to_arrays(*x, *y, lowered@, group_id) == Some(error));
            return Err(error);
        },
    }
    assert(objection_to_arrays(*x, *y, lowered@, group_id) == match group_id {
        Ok(_) => None::<Error>,
        Err(error) => Some(error),
    });
    let groups: Vec<GroupId> = match group_id {
        Ok(groups) => groups,
        Err(error) => return Err(error),
    };
    let mut children: IndexMap<String, ValueProperties> = properties::new_map();
    properties::insert(
        &mut children,
        "slope".to_owned(),
        ValueProperties::Array(coefficient(x, y, node_id, &groups)),
    );
    properties::insert(
        &mut children,
        "intercept".to_owned(),
        ValueProperties::Array(coefficient(x, y, node_id, &groups)),
    );
    proof {
        reveal_strlit("slope");
        reveal_strlit("intercept");
        assert("slope"@.len() != "intercept"@.len());
        reveal_with_fuel(properties::lookup, 2);
    }
    Ok(Warnable { value: DataframeProperties { children }, warnings: Vec::new() })
}

impl TheilSen {
    /// Derives the properties of the regression from those of its arguments `data_x` and
    /// `data_y`.
    ///
    /// `group_id` is what comes of mixing the partitions of the two arrays.
    pub fn propagate_property(
        &self,
        properties: &IndexMap<String, ValueProperties>,
        node_id: u32,
        group_id: Result<Vec<GroupId>, Error>,
    ) -> (outcome: Result<Warnable<DataframeProperties>, Error>)
        ensures
            is_outcome(
                outcome,
                properties::entries(*properties),
                lowercase(self.implementation@),
                node_id,
                group_id,
            ),
    {
        let lowered: String = to_lowercase(self.implementation.as_str());
        propagate(lowered.as_str(), properties, node_id, group_id)
    }
}

/// What is let through is sound: both arguments are known to hold floating point numbers, as
/// many of them and at least one, none is aggregated that may not be released, and there is
/// an estimator of the name that was asked for.
pub proof fn law_arguments_are_sound(
    outcome: Result<Warnable<DataframeProperties>, Error>,
    arguments: Seq<(Seq<char>, ValueProperties)>,
    lowered: Seq<char>,
    node_id: u32,
    group_id: Result<Vec<GroupId>, Error>,
)
    requires
        is_outcome(outcome, arguments, lowered, node_id, group_id),
        outcome is Ok,
    ensures
        ({
            let x = argument(arguments, "data_x"@);
            let y = argument(arguments, "data_y"@);
            &&& properties::lookup(arguments, "data_x"@) == Some(ValueProperties::Array(x))
            &&& properties::lookup(arguments, "data_y"@) == Some(ValueProperties::Array(y))
            &&& x.data_type == DataType::Float && y.data_type == DataType::Float
            &&& x.num_records is Some && x.num_records == y.num_records
            &&& x.is_not_empty && y.is_not_empty
            &&& x.releasable || x.aggregator is None
            &&& y.releasable || y.aggregator is None
            &&& is_estimator(lowered)
            &&& group_id is Ok
        }),
{
}

/// Nothing becomes releasable by a regression on or of what is not, and what is known of the
/// slope is known of the intercept.
pub proof fn law_release_needs_both(
    outcome: Result<Warnable<DataframeProperties>, Error>,
    arguments: Seq<(Seq<char>, ValueProperties)>,
    lowered: Seq<char>,
    node_id: u32,
    group_id: Result<Vec<GroupId>, Error>,
)
    requires
        is_outcome(outcome, arguments, lowered, node_id, group_id),
        outcome is Ok,
    ensures
        ({
            let columns = properties::entries((outcome->Ok_0).value.children);
            let slope = columns[0].1->Array_0;
            let intercept = columns[1].1->Array_0;
            let x = argument(arguments, "data_x"@);
            let y = argument(arguments, "data_y"@);
            &&& slope.releasable ==> x.releasable && y.releasable
            &&& intercept.releasable == slope.releasable
            &&& intercept.num_records == slope.num_records
            &&& intercept.num_columns == slope.num_columns
            &&& intercept.nullity == slope.nullity
            &&& intercept.c_stability@ == slope.c_stability@
            &&& intercept.data_type == slope.data_type
            &&& intercept.dataset_id == slope.dataset_id
            &&& intercept.is_not_empty == slope.is_not_empty
            &&& intercept.dimensionality == slope.dimensionality
            &&& intercept.group_id@ == slope.group_id@
        }),
{
}

/// Two coefficients agree in all but the partitions that they belong to and the order in
/// which the factors of their stabilities are multiplied. The exact products are the same.
pub open spec fn agree_up_to_order(left: ArrayProperties, right: ArrayProperties) -> bool {
    &&& left.num_records == right.num_records
    &&& left.num_columns == right.num_columns
    &&& left.nullity == right.nullity
    &&& left.releasable == right.releasable
    &&& left.aggregator == right.aggregator
    &&& left.nature == right.nature
    &&& left.data_type == right.data_type
    &&& left.dataset_id == right.dataset_id
    &&& left.is_not_empty == right.is_not_empty
    &&& left.dimensionality == right.dimensionality
    &&& left.c_stability@.len() == right.c_stability@.len()
    &&& forall|i: int|
        0 <= i < left.c_stability@.len() ==> {
            let (product, other) = (#[trigger] left.c_stability@[i], right.c_stability@[i]);
            &&& product matches Stability::Product(a, b) && other == Stability::Product(b, a)
            &&& product.factors() == other.factors()
            &&& product.exact() == other.exact()
        }
}

/// It makes no difference which of the two arguments is regressed on the other: where both
/// ways round are let through, the coefficients agree, up to the order of multiplication.
pub proof fn law_arguments_may_be_exchanged(
    outcome: Result<Warnable<DataframeProperties>, Error>,
    arguments: Seq<(Seq<char>, ValueProperties)>,
    group_id: Result<Vec<GroupId>, Error>,
    exchanged_outcome: Result<Warnable<DataframeProperties>, Error>,
    exchanged_arguments: Seq<(Seq<char>, ValueProperties)>,
    exchanged_group_id: Result<Vec<GroupId>, Error>,
    lowered: Seq<char>,
    node_id: u32,
)
    requires
        is_outcome(outcome, arguments, lowered, node_id, group_id),
        is_outcome(exchanged_outcome, exchanged_arguments, lowered, node_id, exchanged_group_id),
        outcome is Ok,
        exchanged_outcome is Ok,
        properties::lookup(arguments, "data_x"@) == properties::lookup(
            exchanged_arguments,
            "data_y"@,
        ),
        properties::lookup(arguments, "data_y"@) == properties::lookup(
            exchanged_arguments,
            "data_x"@,
        ),
    ensures
        ({
            let columns = properties::entries((outcome->Ok_0).value.children);
            let exchanged = properties::entries((exchanged_outcome->Ok_0).value.children);
            &&& agree_up_to_order(columns[0].1->Array_0, exchanged[0].1->Array_0)
            &&& agree_up_to_order(columns[1].1->Array_0, exchanged[1].1->Array_0)
        }),
{
    let columns = properties::entries((outcome->Ok_0).value.children);
    let exchanged = properties::entries((exchanged_outcome->Ok_0).value.children);
    let x = argument(arguments, "data_x"@);
    let y = argument(arguments, "data_y"@);
    lemma_products_commute(x.c_stability@, y.c_stability@);
    assert(agree_up_to_order(columns[0].1->Array_0, exchanged[0].1->Array_0));
    assert(agree_up_to_order(columns[1].1->Array_0, exchanged[1].1->Array_0));
}

proof fn lemma_products_commute(left: Seq<Stability>, right: Seq<Stability>)
    ensures
        properties::products(left, right).len() == properties::products(right, left).len(),
        forall|i: int|
            0 <= i < properties::products(left, right).len() ==> {
                let (product, other) = (
                    #[trigger] properties::products(left, right)[i],
                    properties::products(right, left)[i],
                );
                &&& product == Stability::Product(Box::new(left[i]), Box::new(right[i]))
                &&& other == Stability::Product(Box::new(right[i]), Box::new(left[i]))
                &&& product.factors() == other.factors()
                &&& product.exact() == other.exact()
            },
{
    assert forall|i: int| 0 <= i < properties::products(left, right).len() implies {
        let (product, other) = (
            #[trigger] properties::products(left, right)[i],
            properties::products(right, left)[i],
        );
        &&& product == Stability::Product(Box::new(left[i]), Box::new(right[i]))
        &&& other == Stability::Product(Box::new(right[i]), Box::new(left[i]))
        &&& product.factors() == other.factors()
        &&& product.exact() == other.exact()
    } by {
        vstd::arithmetic::mul::lemma_mul_is_commutative(left[i].exact(), right[i].exact());
    }
}

/// The regression is let through exactly where both arguments are arrays, neither was aggregated
/// unless it may be released, neither may be empty, both hold floating point numbers, as many
/// of them, which is known, the estimator is one of the two there are, and the partitions can be
/// mixed.
pub proof fn law_sound_regressions_are_let_through(
    outcome: Result<Warnable<DataframeProperties>, Error>,
    arguments: Seq<(Seq<char>, ValueProperties)>,
    lowered: Seq<char>,
    node_id: u32,
    group_id: Result<Vec<GroupId>, Error>,
)
    requires
        is_outcome(outcome, arguments, lowered, node_id, group_id),
    ensures
        outcome is Ok <==> {
            &&& properties::lookup(arguments, "data_x"@) matches Some(ValueProperties::Array(x))
            &&& properties::lookup(arguments, "data_y"@) matches Some(ValueProperties::Array(y))
            &&& x.releasable || x.aggregator is None
            &&& y.releasable || y.aggregator is None
            &&& x.is_not_empty && y.is_not_empty
            &&& x.data_type == DataType::Float && y.data_type == DataType::Float
            &&& x.num_records is Some && y.num_records == x.num_records
            &&& lowered == "theil-sen"@ || lowered == "theil-sen-k-match"@
            &&& group_id is Ok
        },
{
}

/// A refusal says what is wrong, and says it of the first thing that is: of the arguments and
/// whether they are arrays, `data_x` ahead of `data_y`; then of what was aggregated, of what may
/// be empty, of the types, of the lengths, of the estimator, of a length that is not known, and
/// at last of the partitions.
pub proof fn law_refusals_name_the_first_fault(
    error: Error,
    arguments: Seq<(Seq<char>, ValueProperties)>,
    lowered: Seq<char>,
    node_id: u32,
    group_id: Result<Vec<GroupId>, Error>,
)
    requires
        is_outcome(
            Err::<Warnable<DataframeProperties>, Error>(error),
            arguments,
            lowered,
            node_id,
            group_id,
        ),
    ensures
        match (
            properties::lookup(arguments, "data_x"@),
            properties::lookup(arguments, "data_y"@),
        ) {
            (None, _) => error == Error::Missing(Argument::X),
            (Some(ValueProperties::Other), _) => error == Error::NotAnArray(Argument::X),
            (_, None) => error == Error::Missing(Argument::Y),
            (_, Some(ValueProperties::Other)) => error == Error::NotAnArray(Argument::Y),
            (Some(ValueProperties::Array(x)), Some(ValueProperties::Array(y))) => {
                let aggregated = !x.releasable && x.aggregator is Some || !y.releasable
                    && y.aggregator is Some;
                let full = !aggregated && x.is_not_empty && y.is_not_empty;
                let typed = full && x.data_type == DataType::Float && y.data_type
                    == DataType::Float;
                let matched = typed && x.num_records == y.num_records;
                let named = matched && (lowered == "theil-sen"@ || lowered
                    == "theil-sen-k-match"@);
                &&& aggregated ==> error == Error::Aggregated
                &&& !aggregated && !full ==> error == Error::PossiblyEmpty
                &&& full && x.data_type != DataType::Float ==> error == Error::NotFloat(
                    Argument::X,
                )
                &&& full && !typed && x.data_type == DataType::Float ==> error
                    == Error::NotFloat(Argument::Y)
                &&& typed && !matched ==> error == Error::LengthMismatch
                &&& matched && !named ==> error == Error::InvalidImplementation
                &&& named && x.num_records is None ==> error == Error::UnknownLength
                &&& named && x.num_records is Some ==> group_id == Err::<Vec<GroupId>, Error>(
                    error,
                )
            },
        },
{
}

/// A regression that is let through gives two columns, the slope and then the intercept, without
/// a warning. Each is one record of floating point numbers that is never missing, set by this node
/// and releasable where both arguments are, in the groups that were mixed. Its stabilities are
/// the products of those of the arguments, column by column, as many as the shorter has.
pub proof fn law_both_coefficients_are_described(
    frame: Warnable<DataframeProperties>,
    arguments: Seq<(Seq<char>, ValueProperties)>,
    lowered: Seq<char>,
    node_id: u32,
    groups: Vec<GroupId>,
    column: int,
)
    requires
        is_outcome(
            Ok::<Warnable<DataframeProperties>, Error>(frame),
            arguments,
            lowered,
            node_id,
            Ok(groups),
        ),
        column == 0 || column == 1,
    ensures
        ({
            let columns = properties::entries(frame.value.children);
            &&& frame.warnings@.len() == 0
            &&& columns.len() == 2
            &&& columns[0].0 == "slope"@
            &&& columns[1].0 == "intercept"@
            &&& properties::lookup(arguments, "data_x"@) matches Some(ValueProperties::Array(x))
            &&& properties::lookup(arguments, "data_y"@) matches Some(ValueProperties::Array(y))
            &&& columns[column].1 matches ValueProperties::Array(estimate)
            &&& estimate.num_records == Some(1i64)
            &&& estimate.num_columns == Some(2i64)
            &&& !estimate.nullity
            &&& estimate.releasable <==> x.releasable && y.releasable
            &&& estimate.aggregator is None
            &&& estimate.nature is None
            &&& estimate.data_type == DataType::Float
            &&& estimate.dataset_id matches Some(dataset) && dataset == node_id
            &&& estimate.is_not_empty
            &&& estimate.dimensionality == Some(1i64)
            &&& estimate.group_id@ == groups@
            &&& estimate.c_stability@.len() <= x.c_stability@.len()
            &&& estimate.c_stability@.len() <= y.c_stability@.len()
            &&& estimate.c_stability@.len() == x.c_stability@.len() || estimate.c_stability@.len()
                == y.c_stability@.len()
            &&& forall|i: int|
                0 <= i < estimate.c_stability@.len() ==> #[trigger] estimate.c_stability@[i]
                    == Stability::Product(
                    Box::new(x.c_stability@[i]),
                    Box::new(y.c_stability@[i]),
                )
        }),
{
}

/// What comes of the regression is an outcome as the laws on outcomes describe it, for the
/// estimator that is named or, of a component, for its name in lower case.
pub proof fn law_regressions_have_an_outcome(
    component: TheilSen,
    arguments: &IndexMap<String, ValueProperties>,
    node_id: u32,
    group_id: Result<Vec<GroupId>, Error>,
    derived: Result<Warnable<DataframeProperties>, Error>,
    lowered: &str,
    propagated: Result<Warnable<DataframeProperties>, Error>,
)
    requires
        call_ensures(
            TheilSen::propagate_property,
            (&component, arguments, node_id, group_id),
            derived,
        ),
        call_ensures(propagate, (lowered, arguments, node_id, group_id), propagated),
    ensures
        is_outcome(
            derived,
            properties::entries(*arguments),
            lowercase(component.implementation@),
            node_id,
            group_id,
        ),
        is_outcome(propagated, properties::entries(*arguments), lowered@, node_id, group_id),
{
}

} // verus!
