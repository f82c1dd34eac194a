//! The typical value of several measurements that have the same structure.
use crate::number::{double_rank, rank_of_double};
use crate::summary::{ascending, law_ascending_is_the_order, sort_numbers};
use crate::text::same_text;
use vstd::prelude::*;

verus! {

/// A measurement, or a structure of them.
#[derive(Debug)]
pub enum MetricValue {
    Null,
    Bool(bool),
    Unsigned(u64),
    /// A negative whole number.
    Negative(i64),
    /// The bit pattern of a number that is not whole, as an IEEE 754 double.
    Float(u64),
    Text(String),
    List(Vec<MetricValue>),
    Object(Vec<(String, MetricValue)>),
}

/// The content of a measurement.
pub enum MetricModel {
    Null,
    Bool(bool),
    Unsigned(u64),
    Negative(i64),
    Float(u64),
    Text(Seq<char>),
    List(Seq<MetricModel>),
    Object(Seq<(Seq<char>, MetricModel)>),
}

/// The value of the first field with a name.
pub open spec fn field(fields: Seq<(Seq<char>, MetricModel)>, name: Seq<char>) -> Option<MetricModel>
    decreases fields.len(),
{
    if fields.len() == 0 {
        None
    } else if fields[0].0 == name {
        Some(fields[0].1)
    } else {
        field(fields.skip(1), name)
    }
}

/// The values that the measurements have under a name.
pub open spec fn values_under(values: Seq<MetricModel>, name: Seq<char>) -> Seq<MetricModel>
    decreases values.len(),
{
    if values.len() == 0 {
        Seq::empty()
    } else {
        let front = values_under(values.drop_last(), name);
        match values.last() {
            MetricModel::Object(fields) => match field(fields, name) {
                Some(value) => front.push(value),
                None => front,
            },
            _ => front,
        }
    }
}

/// A field that is there is one of the fields.
proof fn lemma_field(fields: Seq<(Seq<char>, MetricModel)>, name: Seq<char>)
    ensures
        match field(fields, name) {
            Some(value) => exists|i: int|
                0 <= i < fields.len() && (#[trigger] fields[i]).0 == name && fields[i].1 == value,
            None => forall|i: int| 0 <= i < fields.len() ==> (#[trigger] fields[i]).0 != name,
        },
    decreases fields.len(),
{
    if fields.len() > 0 && fields[0].0 != name {
        let rest = fields.skip(1);
        lemma_field(rest, name);
        match field(rest, name) {
            Some(value) => {
                let i = choose|i: int|
                    0 <= i < rest.len() && (#[trigger] rest[i]).0 == name && rest[i].1 == value;
                assert(fields[i + 1] == rest[i]);
            },
            None => {
                assert forall|i: int| 0 <= i < fields.len() implies (#[trigger] fields[i]).0
                    != name by {
                    if i > 0 {
                        assert(rest[i - 1] == fields[i]);
                    }
                }
            },
        }
    }
}

/// The template for what comes of measurements: the last of them.
pub open spec fn template(values: Seq<MetricModel>) -> MetricModel {
    if values.len() == 0 {
        MetricModel::Null
    } else {
        values.last()
    }
}

/// The double nearest to a whole number, by its bits.
pub uninterp spec fn whole_double(n: i128) -> Option<u64>;

/// `serde_json::Number::from_i128` takes a whole number that a JSON number can be, and
/// `serde_json::Number::as_f64` gives the double nearest to it, here by its bits.
#[verifier::external_body]
pub(crate) fn double_of_whole(n: i128) -> (bits: Option<u64>)
    ensures
        bits == whole_double(n),
{
    serde_json::Number::from_i128(n)?.as_f64().map(|double| double.to_bits())
}

/// The bits of a measurement as a double, if it is a number.
pub open spec fn double_of(value: MetricModel) -> Option<u64> {
    match value {
        MetricModel::Unsigned(n) => whole_double(n as i128),
        MetricModel::Negative(n) => whole_double(n as i128),
        MetricModel::Float(bits) => Some(bits),
        _ => None,
    }
}

/// Whether bits are those of a finite double.
pub open spec fn is_finite_double(bits: u64) -> bool {
    bits % 0x8000_0000_0000_0000 < 0x7ff0_0000_0000_0000
}

/// The double with a place among all doubles, by its bits.
pub open spec fn double_at(place: u128) -> u64 {
    if place >= 0x8000_0000_0000_0000 {
        (place - 0x8000_0000_0000_0000) as u64
    } else {
        (u64::MAX - place) as u64
    }
}

/// The whole numbers, not negative, among some measurements.
pub open spec fn counts_in(values: Seq<MetricModel>) -> Seq<u128>
    decreases values.len(),
{
    if values.len() == 0 {
        Seq::empty()
    } else {
        match values.last() {
            MetricModel::Unsigned(n) => counts_in(values.drop_last()).push(n as u128),
            _ => counts_in(values.drop_last()),
        }
    }
}

/// The numbers among some measurements, by their places among all doubles.
pub open spec fn places_in(values: Seq<MetricModel>) -> Seq<u128>
    decreases values.len(),
{
    if values.len() == 0 {
        Seq::empty()
    } else {
        match double_of(values.last()) {
            Some(bits) => places_in(values.drop_last()).push(double_rank(bits) as u128),
            None => places_in(values.drop_last()),
        }
    }
}

/// Whether a measurement is a whole number, not negative, or missing.
pub open spec fn is_count_or_missing(value: MetricModel) -> bool {
    value is Unsigned || value is Null
}

/// The middle one of some numbers.
pub open spec fn middle(numbers: Seq<u128>) -> u128 {
    ascending(numbers)[(numbers.len() / 2) as int]
}

/// The middle one of the numbers among some measurements, if there are any: as a whole
/// number if all that are there are, else as a double.
pub open spec fn middle_number(values: Seq<MetricModel>) -> Option<MetricModel> {
    if counts_in(values).len() > 0 && forall|i: int|
        0 <= i < values.len() ==> is_count_or_missing(#[trigger] values[i]) {
        Some(MetricModel::Unsigned(middle(counts_in(values)) as u64))
    } else if places_in(values).len() == 0 {
        None
    } else {
        let bits = double_at(middle(places_in(values)));
        if is_finite_double(bits) {
            Some(MetricModel::Float(bits))
        } else {
            None
        }
    }
}

/// What is typical of some measurements: field by field the middle number, and else the
/// last measurement.
pub open spec fn median(values: Seq<MetricModel>) -> MetricModel
    decreases template(values),
    via median_decreases
{
    match template(values) {
        MetricModel::Object(fields) => MetricModel::Object(
            Seq::new(
                fields.len(),
                |i: int|
                    if 0 <= i < fields.len() {
                        (fields[i].0, median(values_under(values, fields[i].0)))
                    } else {
                        (Seq::empty(), MetricModel::Null)
                    },
            ),
        ),
        MetricModel::Bool(_) | MetricModel::Text(_) | MetricModel::List(_) => template(values),
        _ => match middle_number(values) {
            Some(number) => number,
            None => template(values),
        },
    }
}

/// What the measurements have under a name of the template is a part of the template.
proof fn lemma_template_shrinks(values: Seq<MetricModel>, i: int)
    requires
        template(values) is Object,
        0 <= i < template(values)->Object_0.len(),
    ensures
        decreases_to!(
            template(values) => template(
                values_under(values, template(values)->Object_0[i].0),
            )
        ),
{
    let fields = template(values)->Object_0;
    let name = fields[i].0;
    lemma_field(fields, name);
    let value = field(fields, name)->0;
    let k = choose|k: int|
        0 <= k < fields.len() && (#[trigger] fields[k]).0 == name && fields[k].1 == value;
    assert(template(values_under(values, name)) == fields[k].1);
    assert(decreases_to!(template(values) => fields));
    assert(decreases_to!(fields => fields[k]));
    assert(decreases_to!(fields[k] => fields[k].1));
}

#[via_fn]
proof fn median_decreases(values: Seq<MetricModel>) {
    if let MetricModel::Object(fields) = template(values) {
        assert forall|i: int| 0 <= i < fields.len() implies decreases_to!(
            template(values) => template(values_under(values, (#[trigger] fields[i]).0))
        ) by {
            lemma_template_shrinks(values, i);
        }
    }
}

// ---------------------------------------------------------------------------------
// Finding it
// ---------------------------------------------------------------------------------

impl MetricValue {
    /// The content of the measurement.
    pub open spec fn model(self) -> MetricModel
        decreases self,
    {
        match self {
            MetricValue::Null => MetricModel::Null,
            MetricValue::Bool(b) => MetricModel::Bool(b),
            MetricValue::Unsigned(n) => MetricModel::Unsigned(n),
            MetricValue::Negative(n) => MetricModel::Negative(n),
            MetricValue::Float(bits) => MetricModel::Float(bits),
            MetricValue::Text(text) => MetricModel::Text(text@),
            MetricValue::List(items) => MetricModel::List(
                Seq::new(
                    items@.len(),
                    |i: int|
                        if 0 <= i < items@.len() {
                            items@[i].model()
                        } else {
                            MetricModel::Null
                        },
                ),
            ),
            MetricValue::Object(fields) => MetricModel::Object(
                Seq::new(
                    fields@.len(),
                    |i: int|
                        if 0 <= i < fields@.len() {
                            (fields@[i].0@, fields@[i].1.model())
                        } else {
                            (Seq::empty(), MetricModel::Null)
                        },
                ),
            ),
        }
    }

    /// The same measurement once more.
    pub fn copy(&self) -> (copy: MetricValue)
        ensures
            copy.model() == self.model(),
        decreases self,
    {
        match self {
            MetricValue::Null => MetricValue::Null,
            MetricValue::Bool(b) => MetricValue::Bool(*b),
            MetricValue::Unsigned(n) => MetricValue::Unsigned(*n),
            MetricValue::Negative(n) => MetricValue::Negative(*n),
            MetricValue::Float(bits) => MetricValue::Float(*bits),
            MetricValue::Text(text) => MetricValue::Text(text.clone()),
            MetricValue::List(items) => {
                let mut copies: Vec<MetricValue> = Vec::new();
                let mut i: usize = 0;
                while i < items.len()
                    invariant
                        i <= items.len(),
                        *self == MetricValue::List(*items),
                        copies@.len() == i,
                        forall|k: int|
                            0 <= k < i ==> (#[trigger] copies@[k]).model() == items@[k].model(),
                    decreases items.len() - i,
                {
                    proof {
                        assert(decreases_to!(self => self->List_0));
                        assert(decreases_to!(self->List_0 => self->List_0@));
                        assert(decreases_to!(items@ => items@[i as int]));
                    }
                    copies.push(items[i].copy());
                    i = i + 1;
                }
                let copy = MetricValue::List(copies);
                proof {
                    assert(copy.model()->List_0 =~= self.model()->List_0);
                }
                copy
            },
            MetricValue::Object(fields) => {
                let mut copies: Vec<(String, MetricValue)> = Vec::new();
                let mut i: usize = 0;
                while i < fields.len()
                    invariant
                        i <= fields.len(),
                        *self == MetricValue::Object(*fields),
                        copies@.len() == i,
                        forall|k: int|
                            0 <= k < i ==> (#[trigger] copies@[k]).0@ == fields@[k].0@
                                && copies@[k].1.model() == fields@[k].1.model(),
                    decreases fields.len() - i,
                {
                    proof {
                        assert(decreases_to!(self => self->Object_0));
                        assert(decreases_to!(self->Object_0 => self->Object_0@));
                        assert(decreases_to!(fields@ => fields@[i as int]));
                        assert(decreases_to!(fields@[i as int] => fields@[i as int].1));
                    }
                    let name = fields[i].0.clone();
                    let value = fields[i].1.copy();
                    copies.push((name, value));
                    i = i + 1;
                }
                let copy = MetricValue::Object(copies);
                proof {
                    assert(copy.model()->Object_0 =~= self.model()->Object_0);
                }
                copy
            },
        }
    }
}

/// The contents of some measurements.
pub open spec fn metric_models(values: Seq<&MetricValue>) -> Seq<MetricModel> {
    values.map_values(|value: &MetricValue| value.model())
}

/// The whole numbers, not negative, among some measurements.
fn counts_of(values: &Vec<&MetricValue>) -> (counts: Vec<u128>)
    ensures
        counts@ == counts_in(metric_models(values@)),
{
    let ghost models = metric_models(values@);
    let mut counts: Vec<u128> = Vec::new();
    let mut i: usize = 0;
    proof {
        assert(models.take(0) =~= Seq::empty());
    }
    while i < values.len()
        invariant
            i <= values.len(),
            models == metric_models(values@),
            counts@ == counts_in(models.take(i as int)),
        decreases values.len() - i,
    {
        proof {
            assert(models.take(i + 1).drop_last() =~= models.take(i as int));
            assert(models.take(i + 1).last() == values@[i as int].model());
        }
        if let MetricValue::Unsigned(n) = values[i] {
            counts.push(*n as u128);
        }
        i = i + 1;
    }
    proof {
        assert(models.take(models.len() as int) =~= models);
    }
    counts
}

/// The bits of a measurement as a double, if it is a number.
fn bits_of(value: &MetricValue) -> (bits: Option<u64>)
    ensures
        bits == double_of(value.model()),
{
    match value {
        MetricValue::Unsigned(n) => double_of_whole(*n as i128),
        MetricValue::Negative(n) => double_of_whole(*n as i128),
        MetricValue::Float(bits) => Some(*bits),
        _ => None,
    }
}

/// The numbers among some measurements, by their places among all doubles.
fn places_of(values: &Vec<&MetricValue>) -> (places: Vec<u128>)
    ensures
        places@ == places_in(metric_models(values@)),
{
    let ghost models = metric_models(values@);
    let mut places: Vec<u128> = Vec::new();
    let mut i: usize = 0;
    proof {
        assert(models.take(0) =~= Seq::empty());
    }
    while i < values.len()
        invariant
            i <= values.len(),
            models == metric_models(values@),
            places@ == places_in(models.take(i as int)),
        decreases values.len() - i,
    {
        proof {
            assert(models.take(i + 1).drop_last() =~= models.take(i as int));
            assert(models.take(i + 1).last() == values@[i as int].model());
        }
        if let Some(bits) = bits_of(values[i]) {
            places.push(rank_of_double(bits) as u128);
        }
        i = i + 1;
    }
    proof {
        assert(models.take(models.len() as int) =~= models);
    }
    places
}

/// Whether all measurements are whole numbers, not negative, or missing.
fn all_counts(values: &Vec<&MetricValue>) -> (all: bool)
    ensures
        all == (forall|i: int|
            0 <= i < metric_models(values@).len() ==> is_count_or_missing(
                #[trigger] metric_models(values@)[i],
            )),
{
    let ghost models = metric_models(values@);
    let mut i: usize = 0;
    while i < values.len()
        invariant
            i <= values.len(),
            models == metric_models(values@),
            forall|k: int| 0 <= k < i ==> is_count_or_missing(#[trigger] models[k]),
        decreases values.len() - i,
    {
        proof {
            assert(models[i as int] == values@[i as int].model());
        }
        match values[i] {
            MetricValue::Unsigned(_) => {},
            MetricValue::Null => {},
            _ => {
                return false;
            },
        }
        i = i + 1;
    }
    true
}

/// The middle one of some numbers.
fn middle_of(numbers: &Vec<u128>) -> (number: u128)
    requires
        numbers.len() > 0,
    ensures
        number == middle(numbers@),
{
    let sorted = sort_numbers(numbers.as_slice());
    proof {
        law_ascending_is_the_order(numbers@);
    }
    sorted[numbers.len() / 2]
}

/// A measurement that may be missing, by its content.
pub open spec fn optional_metric(value: Option<MetricValue>) -> Option<MetricModel> {
    match value {
        Some(v) => Some(v.model()),
        None => None,
    }
}

/// The middle one of the numbers among some measurements, if there are any.
pub fn median_number(values: &Vec<&MetricValue>) -> (number: Option<MetricValue>)
    ensures
        optional_metric(number) == middle_number(metric_models(values@)),
{
    let counts = counts_of(values);
    if counts.len() > 0 && all_counts(values) {
        let number = middle_of(&counts);
        proof {
            lemma_counts_are_small(metric_models(values@));
            lemma_middle_is_one(counts@);
        }
        return Some(MetricValue::Unsigned(number as u64));
    }
    let places = places_of(values);
    if places.len() == 0 {
        return None;
    }
    let place = middle_of(&places);
    proof {
        lemma_places_are_small(metric_models(values@));
        lemma_middle_is_one(places@);
    }
    let bits: u64 = if place >= 0x8000_0000_0000_0000 {
        (place - 0x8000_0000_0000_0000) as u64
    } else {
        u64::MAX - place as u64
    };
    if bits % 0x8000_0000_0000_0000 < 0x7ff0_0000_0000_0000 {
        Some(MetricValue::Float(bits))
    } else {
        None
    }
}

/// The middle one of some numbers is one of them.
proof fn lemma_middle_is_one(numbers: Seq<u128>)
    requires
        numbers.len() > 0,
    ensures
        numbers.contains(middle(numbers)),
{
    broadcast use vstd::seq_lib::group_to_multiset_ensures;

    law_ascending_is_the_order(numbers);
    let sorted = ascending(numbers);
    assert(sorted.to_multiset().contains(sorted[(numbers.len() / 2) as int]));
    assert(numbers.to_multiset().contains(middle(numbers)));
}

proof fn lemma_counts_are_small(values: Seq<MetricModel>)
    ensures
        forall|i: int| 0 <= i < counts_in(values).len() ==> #[trigger] counts_in(values)[i] <= u64::MAX,
    decreases values.len(),
{
    if values.len() > 0 {
        lemma_counts_are_small(values.drop_last());
        let front = counts_in(values.drop_last());
        assert forall|i: int| 0 <= i < counts_in(values).len() implies #[trigger] counts_in(values)[i]
            <= u64::MAX by {
            if i < front.len() {
                assert(counts_in(values)[i] == front[i]);
            }
        }
    }
}

proof fn lemma_places_are_small(values: Seq<MetricModel>)
    ensures
        forall|i: int| 0 <= i < places_in(values).len() ==> #[trigger] places_in(values)[i] <= u64::MAX,
    decreases values.len(),
{
    if values.len() > 0 {
        lemma_places_are_small(values.drop_last());
        let front = places_in(values.drop_last());
        assert forall|i: int| 0 <= i < places_in(values).len() implies #[trigger] places_in(values)[i]
            <= u64::MAX by {
            if i < front.len() {
                assert(places_in(values)[i] == front[i]);
            }
        }
    }
}

/// The value of the first field with a name.
fn field_of<'a>(value: &'a MetricValue, name: &str) -> (found: Option<&'a MetricValue>)
    ensures
        match value.model() {
            MetricModel::Object(fields) => match found {
                Some(v) => field(fields, name@) == Some(v.model()),
                None => field(fields, name@) is None,
            },
            _ => found is None,
        },
{
    match value {
        MetricValue::Object(fields) => {
            let ghost models = value.model()->Object_0;
            let mut i: usize = 0;
            proof {
                assert(models.skip(0) =~= models);
            }
            while i < fields.len()
                invariant
                    i <= fields.len(),
                    *value == MetricValue::Object(*fields),
                    models == value.model()->Object_0,
                    field(models, name@) == field(models.skip(i as int), name@),
                decreases fields.len() - i,
            {
                proof {
                    assert(models.skip(i as int)[0] == models[i as int]);
                    assert(models.skip(i as int).skip(1) =~= models.skip(i + 1));
                }
                if same_text(fields[i].0.as_str(), name) {
                    return Some(&fields[i].1);
                }
                i = i + 1;
            }
            None
        },
        _ => None,
    }
}

/// The values that the measurements have under a name.
fn under<'a>(values: &Vec<&'a MetricValue>, name: &str) -> (found: Vec<&'a MetricValue>)
    ensures
        metric_models(found@) == values_under(metric_models(values@), name@),
{
    let ghost models = metric_models(values@);
    let mut found: Vec<&'a MetricValue> = Vec::new();
    let mut i: usize = 0;
    proof {
        assert(models.take(0) =~= Seq::empty());
        assert(metric_models(found@) =~= Seq::empty());
    }
    while i < values.len()
        invariant
            i <= values.len(),
            models == metric_models(values@),
            metric_models(found@) == values_under(models.take(i as int), name@),
        decreases values.len() - i,
    {
        proof {
            assert(models.take(i + 1).drop_last() =~= models.take(i as int));
            assert(models.take(i + 1).last() == values@[i as int].model());
        }
        if let Some(value) = field_of(values[i], name) {
            proof {
                assert(metric_models(found@.push(value)) =~= metric_models(found@).push(
                    value.model(),
                ));
            }
            found.push(value);
        }
        i = i + 1;
    }
    proof {
        assert(models.take(models.len() as int) =~= models);
    }
    found
}

/// What is typical of some measurements.
pub fn median_of(values: &Vec<&MetricValue>) -> (typical: MetricValue)
    ensures
        typical.model() == median(metric_models(values@)),
    decreases template(metric_models(values@)),
{
    let ghost models = metric_models(values@);
    if values.len() == 0 {
        proof {
            assert(models =~= Seq::empty());
        }
        return match median_number(values) {
            Some(number) => number,
            None => MetricValue::Null,
        };
    }
    let last: &MetricValue = values[values.len() - 1];
    proof {
        assert(template(models) == last.model());
    }
    match last {
        MetricValue::Object(fields) => {
            let mut typical: Vec<(String, MetricValue)> = Vec::new();
            let mut i: usize = 0;
            while i < fields.len()
                invariant
                    i <= fields.len(),
                    models == metric_models(values@),
                    template(models) == last.model(),
                    *last == MetricValue::Object(*fields),
                    typical@.len() == i,
                    forall|k: int|
                        0 <= k < i ==> (#[trigger] typical@[k]).0@ == fields@[k].0@
                            && typical@[k].1.model() == median(
                            values_under(models, fields@[k].0@),
                        ),
                decreases fields.len() - i,
            {
                let name = fields[i].0.clone();
                let children = under(values, name.as_str());
                proof {
                    lemma_template_shrinks(models, i as int);
                    assert(template(models)->Object_0[i as int].0 == name@);
                }
                let value = median_of(&children);
                typical.push((name, value));
                i = i + 1;
            }
            let whole = MetricValue::Object(typical);
            proof {
                assert(whole.model()->Object_0 =~= median(models)->Object_0);
            }
            whole
        },
        MetricValue::Bool(b) => MetricValue::Bool(*b),
        MetricValue::Text(text) => MetricValue::Text(text.clone()),
        MetricValue::List(_) => last.copy(),
        _ => match median_number(values) {
            Some(number) => number,
            None => last.copy(),
        },
    }
}

/// The contents of some measurements.
pub open spec fn owned_models(values: Seq<MetricValue>) -> Seq<MetricModel> {
    values.map_values(|value: MetricValue| value.model())
}

/// What is typical of some measurements.
pub fn median_json(values: &Vec<MetricValue>) -> (typical: MetricValue)
    ensures
        typical.model() == median(owned_models(values@)),
{
    let mut borrowed: Vec<&MetricValue> = Vec::new();
    let mut i: usize = 0;
    while i < values.len()
        invariant
            i <= values.len(),
            borrowed@.len() == i,
            forall|k: int| 0 <= k < i ==> *(#[trigger] borrowed@[k]) == values@[k],
        decreases values.len() - i,
    {
        borrowed.push(&values[i]);
        i = i + 1;
    }
    proof {
        assert(metric_models(borrowed@) =~= owned_models(values@));
    }
    median_of(&borrowed)
}

/// Fields with another value under a name.
pub open spec fn with_field(
    fields: Seq<(Seq<char>, MetricModel)>,
    name: Seq<char>,
    value: MetricModel,
) -> Seq<(Seq<char>, MetricModel)> {
    fields.map_values(
        |field: (Seq<char>, MetricModel)|
            if field.0 == name {
                (field.0, value)
            } else {
                field
            },
    )
}

/// What is typical of the measurements of several sessions, as a measurement that was
/// taken at a time of no running session.
pub open spec fn aggregated(values: Seq<MetricModel>, captured_at_unix_ms: u64) -> MetricModel {
    match median(values) {
        MetricModel::Object(fields) => MetricModel::Object(
            with_field(
                with_field(fields, "running"@, MetricModel::Bool(false)),
                "captured_at_unix_ms"@,
                MetricModel::Unsigned(captured_at_unix_ms),
            ),
        ),
        other => other,
    }
}

/// What is typical of the measurements of several sessions.
pub fn aggregate_snapshots(values: &Vec<MetricValue>, captured_at_unix_ms: u64) -> (typical:
    MetricValue)
    ensures
        typical.model() == aggregated(owned_models(values@), captured_at_unix_ms),
{
    let typical = median_json(values);
    match typical {
        MetricValue::Object(fields) => {
            let ghost before = MetricValue::Object(fields).model()->Object_0;
            let mut renewed: Vec<(String, MetricValue)> = Vec::new();
            let mut i: usize = 0;
            while i < fields.len()
                invariant
                    i <= fields.len(),
                    before == MetricValue::Object(fields).model()->Object_0,
                    renewed@.len() == i,
                    forall|k: int|
                        0 <= k < i ==> ((#[trigger] renewed@[k]).0@, renewed@[k].1.model())
                            == with_field(
                            with_field(before, "running"@, MetricModel::Bool(false)),
                            "captured_at_unix_ms"@,
                            MetricModel::Unsigned(captured_at_unix_ms),
                        )[k],
                decreases fields.len() - i,
            {
                let name = fields[i].0.clone();
                let value = if same_text(name.as_str(), "captured_at_unix_ms") {
                    MetricValue::Unsigned(captured_at_unix_ms)
                } else if same_text(name.as_str(), "running") {
                    MetricValue::Bool(false)
                } else {
                    fields[i].1.copy()
                };
                proof {
                    assert(before[i as int] == (fields@[i as int].0@, fields@[i as int].1.model()));
                }
                renewed.push((name, value));
                i = i + 1;
            }
            let whole = MetricValue::Object(renewed);
            proof {
                assert(whole.model()->Object_0 =~= aggregated(
                    owned_models(values@),
                    captured_at_unix_ms,
                )->Object_0);
            }
            whole
        },
        other => other,
    }
}

// ---------------------------------------------------------------------------------
// Laws
// ---------------------------------------------------------------------------------

/// The typical measurement has the names of the last one, in its order.
pub proof fn law_median_keeps_the_structure(values: Seq<MetricModel>)
    requires
        values.len() > 0,
        values.last() is Object,
    ensures
        median(values) is Object,
        median(values)->Object_0.len() == values.last()->Object_0.len(),
        forall|i: int|
            0 <= i < values.last()->Object_0.len() ==> (#[trigger] median(
                values,
            )->Object_0[i]).0 == values.last()->Object_0[i].0,
{
}

/// Among whole numbers the typical one is one of them.
pub proof fn law_typical_count_is_a_sample(values: Seq<MetricModel>)
    requires
        values.len() > 0,
        forall|i: int| 0 <= i < values.len() ==> (#[trigger] values[i]) is Unsigned,
    ensures
        median(values) matches MetricModel::Unsigned(n) && counts_in(values).contains(n as u128),
{
    lemma_counts_of_counts(values);
    lemma_counts_are_small(values);
    lemma_middle_is_one(counts_in(values));
    assert(values[values.len() - 1] is Unsigned);
}

proof fn lemma_counts_of_counts(values: Seq<MetricModel>)
    requires
        forall|i: int| 0 <= i < values.len() ==> (#[trigger] values[i]) is Unsigned,
    ensures
        counts_in(values).len() == values.len(),
    decreases values.len(),
{
    if values.len() > 0 {
        assert(values[values.len() - 1] is Unsigned);
        lemma_counts_of_counts(values.drop_last());
    }
}

/// Whether a number is the middle one of some numbers: they can be put in rising order, and
/// there as many stand before it as behind it, or one more.
pub open spec fn is_middle_of(n: u128, numbers: Seq<u128>, order: Seq<u128>) -> bool {
    let index = order.len() / 2;
    &&& order.to_multiset() == numbers.to_multiset()
    &&& forall|i: int, j: int|
        0 <= i < j < order.len() ==> #[trigger] order[i] <= #[trigger] order[j]
    &&& order.len() > 0
    &&& order[index as int] == n
}

/// The whole numbers among measurements, in their order.
pub open spec fn whole_numbers(values: Seq<MetricModel>) -> Seq<u128> {
    values.filter(|value: MetricModel| value is Unsigned).map_values(
        |value: MetricModel| value->Unsigned_0 as u128,
    )
}

/// The places of doubles among all doubles.
pub open spec fn double_places(values: Seq<MetricModel>) -> Seq<u128> {
    values.map_values(|value: MetricModel| double_rank(value->Float_0) as u128)
}

/// The whole numbers among measurements are found.
proof fn lemma_counts_are_the_numbers(values: Seq<MetricModel>)
    ensures
        counts_in(values) == whole_numbers(values),
    decreases values.len(),
{
    reveal(Seq::filter);
    let is_count = |value: MetricModel| value is Unsigned;
    let number = |value: MetricModel| value->Unsigned_0 as u128;
    if values.len() > 0 {
        let front = values.drop_last();
        lemma_counts_are_the_numbers(front);
        if values.last() is Unsigned {
            assert(values.filter(is_count).map_values(number) =~= front.filter(is_count).map_values(
                number,
            ).push(number(values.last())));
        }
    }
    assert(counts_in(values) =~= values.filter(is_count).map_values(number));
}

/// Of whole numbers, some of which may be missing, the middle one of those that are there
/// is typical.
pub proof fn law_middle_count_is_typical(values: Seq<MetricModel>)
    requires
        forall|i: int|
            0 <= i < values.len() ==> (#[trigger] values[i]) is Unsigned || values[i] is Null,
        exists|i: int| 0 <= i < values.len() && (#[trigger] values[i]) is Unsigned,
    ensures
        median(values) is Unsigned && exists|order: Seq<u128>|
            #[trigger] is_middle_of(
                median(values)->Unsigned_0 as u128,
                whole_numbers(values),
                order,
            ),
{
    let is_count = |value: MetricModel| value is Unsigned;
    let number = |value: MetricModel| value->Unsigned_0 as u128;
    let counts = counts_in(values);
    lemma_counts_are_the_numbers(values);
    assert(counts.len() > 0) by {
        broadcast use vstd::seq_lib::group_filter_ensures;

        let i = choose|i: int| 0 <= i < values.len() && (#[trigger] values[i]) is Unsigned;
        assert(is_count(values[i]));
        assert(values.filter(is_count).contains(values[i]));
    }
    assert(values[values.len() - 1] is Unsigned || values[values.len() - 1] is Null);
    law_ascending_is_the_order(counts);
    lemma_middle_is_one(counts);
    lemma_counts_are_small(values);
    let order = ascending(counts);
    let k = choose|k: int| 0 <= k < counts.len() && counts[k] == middle(counts);
    assert(counts[k] <= u64::MAX);
    assert(is_middle_of(middle(counts), counts, order));
}

/// Of doubles the middle one is typical, in the order of the doubles.
pub proof fn law_middle_double_is_typical(values: Seq<MetricModel>)
    requires
        values.len() > 0,
        forall|i: int|
            0 <= i < values.len() ==> (#[trigger] values[i] matches MetricModel::Float(bits)
                && is_finite_double(bits)),
    ensures
        median(values) is Float && exists|order: Seq<u128>|
            #[trigger] is_middle_of(
                double_rank(median(values)->Float_0) as u128,
                double_places(values),
                order,
            ),
{
    let place = |value: MetricModel| double_rank(value->Float_0) as u128;
    let places = places_in(values);
    lemma_places_are_the_doubles(values);
    assert(places =~= values.map_values(place));
    law_ascending_is_the_order(places);
    lemma_middle_is_one(places);
    let k = choose|k: int| 0 <= k < places.len() && places[k] == middle(places);
    let bits = values[k]->Float_0;
    assert(values[k] matches MetricModel::Float(bits) && is_finite_double(bits));
    assert(places[k] == double_rank(bits));
    assert(double_at(middle(places)) == bits);
    assert(values[values.len() - 1] is Float);
    lemma_no_counts_among_doubles(values);
    assert(is_middle_of(middle(places), places, ascending(places)));
}

/// The places of doubles are theirs.
proof fn lemma_places_are_the_doubles(values: Seq<MetricModel>)
    requires
        forall|i: int| 0 <= i < values.len() ==> (#[trigger] values[i]) is Float,
    ensures
        places_in(values) == double_places(values),
    decreases values.len(),
{
    let place = |value: MetricModel| double_rank(value->Float_0) as u128;
    if values.len() > 0 {
        let front = values.drop_last();
        assert forall|i: int| 0 <= i < front.len() implies (#[trigger] front[i]) is Float by {
            assert(front[i] == values[i]);
        }
        lemma_places_are_the_doubles(front);
        assert(values[values.len() - 1] is Float);
        assert(values.map_values(place) =~= front.map_values(place).push(place(values.last())));
    }
    assert(places_in(values) =~= values.map_values(place));
}

/// Among doubles there is no whole number.
proof fn lemma_no_counts_among_doubles(values: Seq<MetricModel>)
    requires
        forall|i: int| 0 <= i < values.len() ==> (#[trigger] values[i]) is Float,
    ensures
        counts_in(values).len() == 0,
    decreases values.len(),
{
    if values.len() > 0 {
        let front = values.drop_last();
        assert forall|i: int| 0 <= i < front.len() implies (#[trigger] front[i]) is Float by {
            assert(front[i] == values[i]);
        }
        lemma_no_counts_among_doubles(front);
        assert(values[values.len() - 1] is Float);
    }
}

/// Of truth values, texts and lists the last one is typical, and of structures what is
/// typical under each name of the last one.
pub proof fn law_structures_are_typical_by_name(values: Seq<MetricModel>, i: int)
    requires
        values.len() > 0,
    ensures
        values.last() is Bool || values.last() is Text || values.last() is List ==> median(values)
            == values.last(),
        values.last() matches MetricModel::Object(fields) ==> 0 <= i < fields.len()
            ==> median(values)->Object_0[i] == (
            fields[i].0,
            median(values_under(values, fields[i].0)),
        ),
{
}

/// What measurements have under a name is what each structure that has the name has there,
/// in their order.
pub proof fn law_values_under_a_name(
    values: Seq<MetricModel>,
    before: Seq<(Seq<char>, MetricModel)>,
    name: Seq<char>,
    value: MetricModel,
    after: Seq<(Seq<char>, MetricModel)>,
)
    requires
        forall|i: int| 0 <= i < before.len() ==> (#[trigger] before[i]).0 != name,
    ensures
        values_under(Seq::empty(), name) == Seq::<MetricModel>::empty(),
        values_under(values.push(MetricModel::Object(before)), name) == values_under(values, name),
        values_under(
            values.push(MetricModel::Object(before + seq![(name, value)] + after)),
            name,
        ) == values_under(values, name).push(value),
{
    let whole = before + seq![(name, value)] + after;
    lemma_field_behind(before, name, value, after);
    assert(values.push(MetricModel::Object(whole)).drop_last() =~= values);
    assert(values.push(MetricModel::Object(before)).drop_last() =~= values);
    lemma_field(before, name);
}

/// The first field with a name is the one that counts.
proof fn lemma_field_behind(
    before: Seq<(Seq<char>, MetricModel)>,
    name: Seq<char>,
    value: MetricModel,
    after: Seq<(Seq<char>, MetricModel)>,
)
    requires
        forall|i: int| 0 <= i < before.len() ==> (#[trigger] before[i]).0 != name,
    ensures
        field(before + seq![(name, value)] + after, name) == Some(value),
    decreases before.len(),
{
    let whole = before + seq![(name, value)] + after;
    if before.len() == 0 {
        assert(whole[0] == (name, value));
    } else {
        assert(whole[0] == before[0]);
        let rest = before.skip(1);
        assert forall|i: int| 0 <= i < rest.len() implies (#[trigger] rest[i]).0 != name by {
            assert(rest[i] == before[i + 1]);
        }
        lemma_field_behind(rest, name, value, after);
        assert(whole.skip(1) =~= rest + seq![(name, value)] + after);
    }
}

/// A baseline is what is typical, but that it says when it was taken and that no session
/// runs.
pub proof fn law_baseline_is_taken_at_a_time(values: Seq<MetricModel>, at: u64, i: int)
    requires
        median(values) is Object,
        0 <= i < median(values)->Object_0.len(),
    ensures
        ({
            let (name, value) = median(values)->Object_0[i];
            &&& aggregated(values, at) is Object
            &&& aggregated(values, at)->Object_0.len() == median(values)->Object_0.len()
            &&& aggregated(values, at)->Object_0[i].0 == name
            &&& name == "running"@ && name != "captured_at_unix_ms"@ ==> aggregated(
                values,
                at,
            )->Object_0[i].1 == MetricModel::Bool(false)
            &&& name == "captured_at_unix_ms"@ ==> aggregated(values, at)->Object_0[i].1
                == MetricModel::Unsigned(at)
            &&& name != "running"@ && name != "captured_at_unix_ms"@ ==> aggregated(
                values,
                at,
            )->Object_0[i].1 == value
        }),
{
}

} // verus!
