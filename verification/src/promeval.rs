//! PromQL evaluation.
//!
//! Samples are read once for a whole query, grouped into series, and every step is then
//! evaluated from memory. Doubles are their IEEE 754 bits: what compares, negates or counts
//! them is here, and what adds, multiplies or reads them is handed in.
use vstd::prelude::*;

use crate::double::{
    at_most, double_bits, double_of, is_infinite, is_nan, larger, less, magnitude, negated, smaller,
    whole_of, whole_part, INFINITY, NEGATIVE_INFINITY, NEGATIVE_ZERO, NOT_A_NUMBER, ONE,
};
use crate::error::{refused, Error, Failure, Fault};
use crate::grouping::{
    chosen, copy_places, group_by_labels, grouped, label_views, law_a_group_is_all_of_its_key,
    law_a_sorted_group_is_all_of_its_labels, law_every_item_is_grouped,
    law_groups_have_distinct_keys, law_ordering_orders, law_sorted_groups, lemma_chosen_with,
    lemma_grouped, lemma_ordered_places, lemma_place_is_ordered, lemma_same_order,
    lemma_sorted_groups, numbers, order, ordered, places, places_with, sort_groups, sorted_groups,
    sound_groups,
};
use crate::labels::{
    inserted, kept, labels_before, law_insert_keeps_order, law_insert_then_get, law_kept_labels,
    law_labels_are_what_they_read, law_labels_order_total, law_labels_order_transitive,
    law_remove_then_get, lemma_lookup_is_a_pair, lemma_sublabels, lookup, removed, sorted, Labels,
    Pair, METRIC_NAME_LABEL,
};
use crate::lexer::saturated;
use crate::matcher::{all_match, matches_all, LabelMatcher, MatchOp, MatcherView};
use crate::otlp_encode::sample_streams;
use crate::promql::{
    arities_match, lemma_call_view, selectors_of, widest_reach, AggregateOp, BinaryOp, Expr,
    ExprView, Function, Grouping, GroupingView, Selector, SelectorView, DEFAULT_LOOKBACK,
};
use crate::record::{MetricSample, SampleView};
use crate::seconds::{minus, read, read_number};
use crate::text::{decimal, decimal_text, lemma_views_push, same, text_before, views};

verus! {

// ---------------------------------------------------------------------------
// Arithmetic on doubles
// ---------------------------------------------------------------------------

/// Whether `calc` computes every operation, and each in one way.
pub open spec fn computes<C: Fn(BinaryOp, u64, u64) -> u64>(calc: &C) -> bool {
    &&& forall|op: BinaryOp, a: u64, b: u64| calc.requires((op, a, b))
    &&& forall|op: BinaryOp, a: u64, b: u64, one: u64, other: u64|
        calc.ensures((op, a, b), one) && calc.ensures((op, a, b), other) ==> one == other
}

/// Whether `parse` reads every text, and each in one way.
pub open spec fn reads<P: Fn(&str) -> u64>(parse: &P) -> bool {
    &&& forall|text: &str| parse.requires((text,))
    &&& forall|text: &str, same: &str, one: u64, other: u64|
        #![trigger parse.ensures((text,), one), parse.ensures((same,), other)]
        text@ == same@ && parse.ensures((text,), one) && parse.ensures((same,), other) ==> one
            == other
}

/// Operations on doubles.
pub type Calc = spec_fn(BinaryOp, u64, u64) -> u64;

/// The double that a text writes.
pub type Literals = spec_fn(Seq<char>) -> u64;

/// What `calc` computes.
pub open spec fn results<C: Fn(BinaryOp, u64, u64) -> u64>(calc: &C) -> Calc {
    |op: BinaryOp, a: u64, b: u64| choose|r: u64| calc.ensures((op, a, b), r)
}

pub open spec fn is_read<P: Fn(&str) -> u64>(parse: &P, text: Seq<char>, value: u64) -> bool {
    exists|s: &str| s@ == text && #[trigger] parse.ensures((s,), value)
}

/// What `parse` reads.
pub open spec fn literals<P: Fn(&str) -> u64>(parse: &P) -> Literals {
    |text: Seq<char>| choose|value: u64| is_read(parse, text, value)
}

/// One operation on two doubles. A union of scalars is its left side.
pub open spec fn applied(op: BinaryOp, a: u64, b: u64, calc: Calc) -> u64 {
    match op {
        BinaryOp::Or => a,
        _ => calc(op, a, b),
    }
}

fn apply<C: Fn(BinaryOp, u64, u64) -> u64>(op: BinaryOp, a: u64, b: u64, calc: &C) -> (r: u64)
    requires
        computes(calc),
    ensures
        r == applied(op, a, b, results(calc)),
{
    match op {
        BinaryOp::Or => a,
        _ => calc(op, a, b),
    }
}

fn literal<P: Fn(&str) -> u64>(parse: &P, text: &str) -> (value: u64)
    requires
        reads(parse),
    ensures
        value == literals(parse)(text@),
{
    let value: u64 = parse(text);
    assert(is_read(parse, text@, value));
    value
}

// ---------------------------------------------------------------------------
// Series and vectors
// ---------------------------------------------------------------------------

/// A value and the labels it is for.
pub type Sampled = (Seq<Pair>, u64);

/// One series' samples, ascending by time: when, and the double.
#[derive(Debug)]
pub struct Series {
    pub labels: Labels,
    pub samples: Vec<(u64, u64)>,
}

pub struct SeriesView {
    pub labels: Seq<Pair>,
    pub samples: Seq<(u64, u64)>,
}

impl View for Series {
    type V = SeriesView;

    open spec fn view(&self) -> SeriesView {
        SeriesView { labels: self.labels@, samples: self.samples@ }
    }
}

/// An instant vector: one value per series at one moment.
#[derive(Debug)]
pub struct InstantVector {
    pub samples: Vec<(Labels, u64)>,
}

impl View for InstantVector {
    type V = Seq<Sampled>;

    open spec fn view(&self) -> Seq<Sampled> {
        views(self.samples@)
    }
}

impl Default for InstantVector {
    fn default() -> (vector: InstantVector)
        ensures
            vector@ == Seq::<Sampled>::empty(),
    {
        let vector = InstantVector { samples: Vec::new() };
        assert(vector@ =~= Seq::<Sampled>::empty());
        vector
    }
}

/// What an expression evaluates to.
#[derive(Debug)]
pub enum Evaluated<V> {
    Scalar(u64),
    Vector(V),
}

pub type EvaluatedView = Evaluated<Seq<Sampled>>;

impl View for Evaluated<InstantVector> {
    type V = EvaluatedView;

    open spec fn view(&self) -> EvaluatedView {
        match self {
            Evaluated::Scalar(value) => Evaluated::Scalar(*value),
            Evaluated::Vector(vector) => Evaluated::Vector(vector@),
        }
    }
}

/// A value as a vector: a bare scalar is a single sample without labels.
pub open spec fn vector_of(value: EvaluatedView) -> Seq<Sampled> {
    match value {
        Evaluated::Scalar(value) => seq![(Seq::<Pair>::empty(), value)],
        Evaluated::Vector(vector) => vector,
    }
}

impl Evaluated<InstantVector> {
    pub fn into_vector(self) -> (vector: InstantVector)
        ensures
            vector@ == vector_of(self@),
    {
        match self {
            Evaluated::Vector(vector) => vector,
            Evaluated::Scalar(value) => {
                let mut samples: Vec<(Labels, u64)> = Vec::new();
                samples.push((Labels::new(), value));
                let vector = InstantVector { samples };
                assert(vector@ =~= seq![(Seq::<Pair>::empty(), value)]);
                vector
            },
        }
    }
}

// ---------------------------------------------------------------------------
// Grouping
// ---------------------------------------------------------------------------

/// The labels without the metric's name: after a function or an aggregation the value is
/// no longer that metric.
pub open spec fn nameless(labels: Seq<Pair>) -> Seq<Pair> {
    removed(labels, METRIC_NAME_LABEL@)
}

/// The labels without the metric's name and the bucket's bound.
pub open spec fn boundless(labels: Seq<Pair>) -> Seq<Pair> {
    removed(removed(labels, "le"@), METRIC_NAME_LABEL@)
}

pub fn strip_name(labels: &Labels) -> (out: Labels)
    ensures
        out@ == nameless(labels@),
{
    let mut out: Labels = labels.clone();
    out.remove(METRIC_NAME_LABEL);
    out
}

fn without_le(labels: &Labels) -> (out: Labels)
    ensures
        out@ == boundless(labels@),
{
    let mut out: Labels = labels.clone();
    out.remove("le");
    out.remove(METRIC_NAME_LABEL);
    out
}

/// Those of the labels that `names` name.
pub open spec fn projected(labels: Seq<Pair>, names: Seq<Seq<char>>) -> Seq<Pair>
    decreases names.len(),
{
    if names.len() == 0 {
        Seq::empty()
    } else {
        let rest = projected(labels, names.drop_last());
        match lookup(labels, names.last()) {
            Some(value) => inserted(rest, names.last(), value),
            None => rest,
        }
    }
}

/// The labels of the group that a sample falls into.
pub open spec fn key_of(labels: Seq<Pair>, grouping: GroupingView) -> Seq<Pair> {
    match grouping {
        GroupingView::All => Seq::empty(),
        GroupingView::By(names) => projected(labels, names),
        GroupingView::Without(names) => kept(labels, names),
    }
}

/// The labels of the group that a sample falls into under `by` or `without`.
pub fn group_key(labels: &Labels, grouping: &Grouping) -> (key: Labels)
    ensures
        key@ == key_of(labels@, grouping@),
{
    match grouping {
        Grouping::All => Labels::new(),
        Grouping::By(names) => {
            let mut key: Labels = Labels::new();
            let mut i: usize = 0;
            assert(views(names@).take(0) =~= Seq::empty());
            while i < names.len()
                invariant
                    i <= names@.len(),
                    key@ == projected(labels@, views(names@).take(i as int)),
                decreases names@.len() - i,
            {
                proof {
                    let next = views(names@).take(i as int + 1);
                    assert(next.drop_last() =~= views(names@).take(i as int));
                    assert(next.last() == names@[i as int]@);
                }
                match labels.get(names[i].as_str()) {
                    Some(value) => {
                        key.insert(names[i].as_str(), value);
                    },
                    None => {},
                }
                i += 1;
            }
            assert(views(names@).take(i as int) =~= views(names@));
            key
        },
        Grouping::Without(names) => labels.without(names),
    }
}

/// Whether labels belong to the group with the labels `key`.
pub open spec fn belongs(labels: Seq<Pair>, key: Seq<Pair>, grouping: GroupingView) -> bool {
    match grouping {
        GroupingView::All => true,
        GroupingView::By(names) => forall|i: int|
            0 <= i < names.len() ==> lookup(labels, #[trigger] names[i]) == lookup(key, names[i]),
        GroupingView::Without(names) => {
            let own = kept(labels, names);
            own.len() == key.len() && (forall|i: int|
                0 <= i < own.len() ==> lookup(key, (#[trigger] own[i]).0) == Some(own[i].1))
        },
    }
}

/// Whether two readings of a label are the same.
fn same_value(a: Option<&str>, b: Option<&str>) -> (r: bool)
    ensures
        r == (crate::text::option_view(a) == crate::text::option_view(b)),
{
    match (a, b) {
        (Some(a), Some(b)) => same(a, b),
        (None, None) => true,
        _ => false,
    }
}

/// Whether labels belong to the group with the labels `key`, without building their own.
pub fn group_matches(labels: &Labels, key: &Labels, grouping: &Grouping) -> (r: bool)
    ensures
        r == belongs(labels@, key@, grouping@),
{
    match grouping {
        Grouping::All => true,
        Grouping::By(names) => {
            let mut i: usize = 0;
            while i < names.len()
                invariant
                    i <= names@.len(),
                    grouping@ == GroupingView::By(views(names@)),
                    forall|j: int|
                        0 <= j < i ==> lookup(labels@, #[trigger] views(names@)[j]) == lookup(
                            key@,
                            views(names@)[j],
                        ),
                decreases names@.len() - i,
            {
                assert(views(names@)[i as int] == names@[i as int]@);
                if !same_value(labels.get(names[i].as_str()), key.get(names[i].as_str())) {
                    assert(lookup(labels@, views(names@)[i as int]) != lookup(
                        key@,
                        views(names@)[i as int],
                    ));
                    return false;
                }
                i += 1;
            }
            true
        },
        Grouping::Without(names) => {
            let own: Labels = labels.without(names);
            if own.len() != key.len() {
                return false;
            }
            let mut i: usize = 0;
            while i < own.len()
                invariant
                    i <= own@.len(),
                    own@ == kept(labels@, views(names@)),
                    own@.len() == key@.len(),
                    grouping@ == GroupingView::Without(views(names@)),
                    forall|j: int|
                        0 <= j < i ==> lookup(key@, (#[trigger] own@[j]).0) == Some(own@[j].1),
                decreases own@.len() - i,
            {
                if !same_value(key.get(own.name_at(i)), Some(own.value_at(i))) {
                    assert(lookup(key@, own@[i as int].0) != Some(own@[i as int].1));
                    return false;
                }
                i += 1;
            }
            true
        },
    }
}

/// The labels of the group of each sample.
pub open spec fn keys_of(vector: Seq<Sampled>, grouping: GroupingView) -> Seq<Seq<Pair>> {
    vector.map_values(|sample: Sampled| key_of(sample.0, grouping))
}

fn group_keys(samples: &Vec<(Labels, u64)>, grouping: &Grouping) -> (keys: Vec<Labels>)
    ensures
        views(keys@) == keys_of(views(samples@), grouping@),
{
    let mut keys: Vec<Labels> = Vec::new();
    let mut i: usize = 0;
    while i < samples.len()
        invariant
            i <= samples@.len(),
            keys@.len() == i,
            forall|j: int|
                0 <= j < i ==> (#[trigger] keys@[j])@ == key_of(views(samples@)[j].0, grouping@),
        decreases samples@.len() - i,
    {
        assert(views(samples@)[i as int] == (samples@[i as int].0@, samples@[i as int].1));
        keys.push(group_key(&samples[i].0, grouping));
        i += 1;
    }
    assert(views(keys@) =~= keys_of(views(samples@), grouping@));
    keys
}

/// References to label sets.
fn borrowed(list: &Vec<Labels>) -> (refs: Vec<&Labels>)
    ensures
        label_views(refs@) == views(list@),
{
    let mut refs: Vec<&Labels> = Vec::new();
    let mut i: usize = 0;
    while i < list.len()
        invariant
            i <= list@.len(),
            refs@.len() == i,
            forall|j: int| 0 <= j < i ==> (#[trigger] refs@[j])@ == list@[j]@,
        decreases list@.len() - i,
    {
        refs.push(&list[i]);
        i += 1;
    }
    assert(label_views(refs@) =~= views(list@));
    refs
}

// ---------------------------------------------------------------------------
// Aggregation
// ---------------------------------------------------------------------------

pub open spec fn total(values: Seq<u64>, calc: Calc) -> u64
    decreases values.len(),
{
    if values.len() == 0 {
        NEGATIVE_ZERO
    } else {
        calc(BinaryOp::Add, total(values.drop_last(), calc), values.last())
    }
}

pub open spec fn least(values: Seq<u64>) -> u64
    decreases values.len(),
{
    if values.len() == 0 {
        INFINITY
    } else {
        smaller(least(values.drop_last()), values.last())
    }
}

pub open spec fn greatest(values: Seq<u64>) -> u64
    decreases values.len(),
{
    if values.len() == 0 {
        NEGATIVE_INFINITY
    } else {
        larger(greatest(values.drop_last()), values.last())
    }
}

/// One group as a single value. Those that keep elements reduce nothing.
pub open spec fn reduced(op: AggregateOp, values: Seq<u64>, calc: Calc) -> u64 {
    match op {
        AggregateOp::Sum => total(values, calc),
        AggregateOp::Avg => calc(
            BinaryOp::Div,
            total(values, calc),
            double_bits(values.len()),
        ),
        AggregateOp::Min => least(values),
        AggregateOp::Max => greatest(values),
        AggregateOp::Count => double_bits(values.len()),
        AggregateOp::TopK | AggregateOp::BottomK => NOT_A_NUMBER,
    }
}

/// The values of one group.
pub open spec fn values_of(vector: Seq<Sampled>, group: Seq<int>) -> Seq<u64> {
    group.map_values(|i: int| vector[i].1)
}

/// One value per group, in the order of the groups' labels.
pub open spec fn aggregated(
    op: AggregateOp,
    grouping: GroupingView,
    vector: Seq<Sampled>,
    calc: Calc,
) -> Seq<Sampled> {
    let keys = keys_of(vector, grouping);
    sorted_groups(keys).map_values(
        |group: Seq<int>| (keys[group[0]], reduced(op, values_of(vector, group), calc)),
    )
}

fn reduce<C: Fn(BinaryOp, u64, u64) -> u64>(
    op: AggregateOp,
    values: &Vec<u64>,
    calc: &C,
) -> (r: u64)
    requires
        computes(calc),
    ensures
        r == reduced(op, values@, results(calc)),
{
    let mut sum: u64 = NEGATIVE_ZERO;
    let mut low: u64 = INFINITY;
    let mut high: u64 = NEGATIVE_INFINITY;
    let mut i: usize = 0;
    assert(values@.take(0) =~= Seq::empty());
    while i < values.len()
        invariant
            i <= values@.len(),
            computes(calc),
            sum == total(values@.take(i as int), results(calc)),
            low == least(values@.take(i as int)),
            high == greatest(values@.take(i as int)),
        decreases values@.len() - i,
    {
        proof {
            let next = values@.take(i as int + 1);
            assert(next.drop_last() =~= values@.take(i as int));
            assert(next.last() == values@[i as int]);
        }
        let value: u64 = values[i];
        sum = calc(BinaryOp::Add, sum, value);
        low = smaller(low, value);
        high = larger(high, value);
        i += 1;
    }
    assert(values@.take(i as int) =~= values@);
    match op {
        AggregateOp::Sum => sum,
        AggregateOp::Avg => calc(BinaryOp::Div, sum, double_of(values.len() as u64)),
        AggregateOp::Min => low,
        AggregateOp::Max => high,
        AggregateOp::Count => double_of(values.len() as u64),
        AggregateOp::TopK | AggregateOp::BottomK => NOT_A_NUMBER,
    }
}

/// One value per group of a vector.
pub fn aggregate<C: Fn(BinaryOp, u64, u64) -> u64>(
    op: AggregateOp,
    grouping: &Grouping,
    vector: &InstantVector,
    calc: &C,
) -> (out: InstantVector)
    requires
        computes(calc),
    ensures
        out@ == aggregated(op, grouping@, vector@, results(calc)),
{
    let ghost all = vector@;
    let ghost keyed = keys_of(all, grouping@);
    let keys: Vec<Labels> = group_keys(&vector.samples, grouping);
    let refs: Vec<&Labels> = borrowed(&keys);
    let groups: Vec<Vec<usize>> = sort_groups(&refs);
    let ghost sorted = sorted_groups(keyed);
    proof {
        lemma_sorted_groups(keyed);
    }
    let mut samples: Vec<(Labels, u64)> = Vec::new();
    let mut g: usize = 0;
    while g < groups.len()
        invariant
            g <= groups@.len(),
            computes(calc),
            all == vector@,
            keyed == keys_of(all, grouping@),
            keyed == views(keys@),
            sorted == places(groups@),
            sound_groups(sorted, keyed, keyed.len() as int),
            samples@.len() == g,
            forall|j: int|
                0 <= j < g ==> (#[trigger] samples@[j])@ == (
                    keyed[sorted[j][0]],
                    reduced(op, values_of(all, sorted[j]), results(calc)),
                ),
        decreases groups@.len() - g,
    {
        let group: &Vec<usize> = &groups[g];
        proof {
            assert(sorted[g as int] == numbers(group@));
            assert(sorted[g as int].len() > 0);
            assert(sorted[g as int][0] == group@[0]);
        }
        let values: Vec<u64> = group_values(&vector.samples, group);
        assert(keyed[group@[0] as int] == keys@[group@[0] as int]@);
        samples.push((keys[group[0]].clone(), reduce(op, &values, calc)));
        g += 1;
    }
    let out = InstantVector { samples };
    assert(out@ =~= aggregated(op, grouping@, all, results(calc)));
    out
}

fn group_values(samples: &Vec<(Labels, u64)>, group: &Vec<usize>) -> (values: Vec<u64>)
    requires
        forall|k: int|
            0 <= k < group@.len() ==> 0 <= #[trigger] numbers(group@)[k] < samples@.len(),
    ensures
        values@ == values_of(views(samples@), numbers(group@)),
{
    let ghost at = numbers(group@);
    let mut values: Vec<u64> = Vec::new();
    let mut k: usize = 0;
    while k < group.len()
        invariant
            k <= group@.len(),
            at == numbers(group@),
            forall|k: int| 0 <= k < group@.len() ==> 0 <= #[trigger] at[k] < samples@.len(),
            values@.len() == k,
            forall|j: int| 0 <= j < k ==> #[trigger] values@[j] == views(samples@)[at[j]].1,
        decreases group@.len() - k,
    {
        assert(at[k as int] == group@[k as int]);
        values.push(samples[group[k]].1);
        k += 1;
    }
    assert(values@ =~= values_of(views(samples@), at));
    values
}

// ---------------------------------------------------------------------------
// The best of a group
// ---------------------------------------------------------------------------

/// The samples of a vector that are numbers.
pub open spec fn numeric(vector: Seq<Sampled>) -> Seq<Sampled>
    decreases vector.len(),
{
    if vector.len() == 0 {
        vector
    } else if is_nan(vector.last().1) {
        numeric(vector.drop_last())
    } else {
        numeric(vector.drop_last()).push(vector.last())
    }
}

/// Whether a sample ranks before another: by value, from the least for `bottomk` and from
/// the greatest else, and by labels where the values are equal.
pub open spec fn ahead(op: AggregateOp, a: Sampled, b: Sampled) -> bool {
    let (x, y) = if op == AggregateOp::BottomK {
        (a.1, b.1)
    } else {
        (b.1, a.1)
    };
    less(x, y) || (!less(y, x) && labels_before(a.0, b.0))
}

/// The samples of a vector by rank.
pub open spec fn ranked(op: AggregateOp, vector: Seq<Sampled>) -> Seq<Sampled> {
    chosen(vector, ordered(vector.len(), |a: int, b: int| ahead(op, vector[a], vector[b])))
}

/// The first `n` items.
pub open spec fn first<V>(items: Seq<V>, n: nat) -> Seq<V> {
    if n < items.len() {
        items.take(n as int)
    } else {
        items
    }
}

/// The best of each of the first `n` groups, one group behind the other.
pub open spec fn best_of_each(
    op: AggregateOp,
    vector: Seq<Sampled>,
    groups: Seq<Seq<int>>,
    keep: nat,
    n: nat,
) -> Seq<Sampled>
    decreases n,
{
    if n == 0 {
        Seq::empty()
    } else {
        best_of_each(op, vector, groups, keep, (n - 1) as nat) + first(
            ranked(op, chosen(vector, groups[n - 1])),
            keep,
        )
    }
}

/// The `k` best elements of each group, labels intact, by rank. What is no number is
/// dropped, and a count below one keeps nothing.
pub open spec fn elements(
    op: AggregateOp,
    grouping: GroupingView,
    vector: Seq<Sampled>,
    k: u64,
) -> Seq<Sampled> {
    if is_nan(k) || is_infinite(k) || less(k, ONE) {
        Seq::empty()
    } else {
        let all = numeric(vector);
        let groups = grouped(keys_of(all, grouping), all.len());
        ranked(op, best_of_each(op, all, groups, whole_part(k), groups.len()))
    }
}

fn copy_sample(sample: &(Labels, u64)) -> (copy: (Labels, u64))
    ensures
        copy@ == sample@,
{
    (sample.0.clone(), sample.1)
}

fn is_ahead(op: AggregateOp, a: &(Labels, u64), b: &(Labels, u64)) -> (r: bool)
    ensures
        r == ahead(op, a@, b@),
{
    let (x, y): (u64, u64) = match op {
        AggregateOp::BottomK => (a.1, b.1),
        _ => (b.1, a.1),
    };
    less(x, y) || (!less(y, x) && a.0.comes_before(&b.0))
}

/// The samples at some places.
fn pick(samples: &Vec<(Labels, u64)>, group: &Vec<usize>) -> (out: Vec<(Labels, u64)>)
    requires
        forall|k: int|
            0 <= k < group@.len() ==> 0 <= #[trigger] numbers(group@)[k] < samples@.len(),
    ensures
        views(out@) == chosen(views(samples@), numbers(group@)),
{
    let ghost at = numbers(group@);
    let mut out: Vec<(Labels, u64)> = Vec::new();
    let mut k: usize = 0;
    while k < group.len()
        invariant
            k <= group@.len(),
            at == numbers(group@),
            forall|k: int| 0 <= k < group@.len() ==> 0 <= #[trigger] at[k] < samples@.len(),
            out@.len() == k,
            forall|j: int| 0 <= j < k ==> (#[trigger] out@[j])@ == views(samples@)[at[j]],
        decreases group@.len() - k,
    {
        assert(at[k as int] == group@[k as int]);
        out.push(copy_sample(&samples[group[k]]));
        k += 1;
    }
    assert(views(out@) =~= chosen(views(samples@), at));
    out
}

fn rank(op: AggregateOp, samples: &Vec<(Labels, u64)>) -> (out: Vec<(Labels, u64)>)
    ensures
        views(out@) == ranked(op, views(samples@)),
{
    let ghost all = views(samples@);
    let ghost earlier = |a: int, b: int| ahead(op, all[a], all[b]);
    let before = |a: usize, b: usize| -> (r: bool)
        requires
            a < samples@.len(),
            b < samples@.len(),
        ensures
            r == ahead(op, samples@[a as int]@, samples@[b as int]@),
        { is_ahead(op, &samples[a], &samples[b]) };
    let list: Vec<usize> = order(samples.len(), &before, Ghost(earlier));
    pick(samples, &list)
}

/// `topk` and `bottomk`: the k best elements of each group, labels intact.
pub fn select_elements(op: AggregateOp, grouping: &Grouping, vector: &InstantVector, k: u64) -> (out:
    InstantVector)
    ensures
        out@ == elements(op, grouping@, vector@, k),
{
    if is_nan(k) || is_infinite(k) || less(k, ONE) {
        return InstantVector::default();
    }
    let keep: u32 = whole_of(k);
    let mut all: Vec<(Labels, u64)> = Vec::new();
    let mut i: usize = 0;
    assert(views(all@) =~= numeric(vector@.take(0)));
    while i < vector.samples.len()
        invariant
            i <= vector.samples@.len(),
            views(all@) == numeric(vector@.take(i as int)),
        decreases vector.samples@.len() - i,
    {
        let sample: &(Labels, u64) = &vector.samples[i];
        proof {
            let next = vector@.take(i as int + 1);
            assert(next.drop_last() =~= vector@.take(i as int));
            assert(next.last() == sample@);
        }
        if !is_nan(sample.1) {
            let ghost done = all@;
            all.push(copy_sample(sample));
            proof {
                lemma_views_push(done, all@.last());
            }
        }
        i += 1;
    }
    assert(vector@.take(i as int) =~= vector@);
    let ghost seen = views(all@);
    let ghost keyed = keys_of(seen, grouping@);
    let keys: Vec<Labels> = group_keys(&all, grouping);
    let refs: Vec<&Labels> = borrowed(&keys);
    let groups: Vec<Vec<usize>> = group_by_labels(&refs);
    let ghost split = grouped(keyed, seen.len());
    proof {
        assert(refs@.len() == label_views(refs@).len());
        lemma_grouped(keyed, seen.len());
    }
    let mut best: Vec<(Labels, u64)> = Vec::new();
    let mut g: usize = 0;
    assert(views(best@) =~= Seq::empty());
    while g < groups.len()
        invariant
            g <= groups@.len(),
            seen == views(all@),
            split == places(groups@),
            sound_groups(split, keyed, seen.len() as int),
            views(best@) == best_of_each(op, seen, split, keep as nat, g as nat),
        decreases groups@.len() - g,
    {
        proof {
            assert(split[g as int] == numbers(groups@[g as int]@));
            assert(split[g as int].len() > 0);
        }
        let own: Vec<(Labels, u64)> = pick(&all, &groups[g]);
        let sorted: Vec<(Labels, u64)> = rank(op, &own);
        push_first(&mut best, &sorted, keep as usize);
        g += 1;
    }
    InstantVector { samples: rank(op, &best) }
}

fn push_first(list: &mut Vec<(Labels, u64)>, more: &Vec<(Labels, u64)>, n: usize)
    ensures
        views(final(list)@) == views(old(list)@) + first(views(more@), n as nat),
{
    let ghost start = views(list@);
    let ghost all = views(more@);
    let count: usize = if n < more.len() {
        n
    } else {
        more.len()
    };
    let mut i: usize = 0;
    assert(start + all.take(0) =~= start);
    while i < count
        invariant
            i <= count <= more@.len(),
            all == views(more@),
            views(list@) == start + all.take(i as int),
        decreases count - i,
    {
        let ghost done = list@;
        list.push(copy_sample(&more[i]));
        proof {
            lemma_views_push(done, list@.last());
            assert(start + all.take(i as int + 1) =~= (start + all.take(i as int)).push(
                all[i as int],
            ));
        }
        i += 1;
    }
    assert(all.take(count as int) =~= first(all, n as nat));
}

// ---------------------------------------------------------------------------
// Histograms
// ---------------------------------------------------------------------------

/// One bucket of a histogram: the histogram's labels, the bucket's bound and its count.
pub type Bucketed = (Seq<Pair>, (u64, u64));

/// The bound that an `le` label writes.
pub open spec fn bound_of(le: Seq<char>, read: Literals) -> Option<u64> {
    if le == "+Inf"@ {
        Some(INFINITY)
    } else if read_number(le) is Some {
        Some(read(le))
    } else {
        None
    }
}

/// The buckets among a vector's samples: those with an `le` label that writes a bound.
pub open spec fn buckets_of(vector: Seq<Sampled>, read: Literals) -> Seq<Bucketed>
    decreases vector.len(),
{
    if vector.len() == 0 {
        Seq::empty()
    } else {
        let rest = buckets_of(vector.drop_last(), read);
        match lookup(vector.last().0, "le"@) {
            None => rest,
            Some(le) => match bound_of(le, read) {
                None => rest,
                Some(bound) => rest.push((boundless(vector.last().0), (bound, vector.last().1))),
            },
        }
    }
}

/// The value at which the wanted count is reached, from the `i`-th bucket on: on the line
/// between the bound before and the bucket's own. Past the last finite bound that bound is
/// the best answer there is.
pub open spec fn reached(
    buckets: Seq<(u64, u64)>,
    i: int,
    wanted: u64,
    bound: u64,
    count: u64,
    calc: Calc,
) -> u64
    decreases buckets.len() - i,
{
    if i < 0 || i >= buckets.len() {
        bound
    } else if at_most(wanted, buckets[i].1) {
        if is_infinite(buckets[i].0) {
            bound
        } else {
            let span = calc(BinaryOp::Sub, buckets[i].1, count);
            let position = if less(0, span) {
                calc(BinaryOp::Div, calc(BinaryOp::Sub, wanted, count), span)
            } else {
                0
            };
            calc(
                BinaryOp::Add,
                bound,
                calc(BinaryOp::Mul, calc(BinaryOp::Sub, buckets[i].0, bound), position),
            )
        }
    } else {
        reached(buckets, i + 1, wanted, buckets[i].0, buckets[i].1, calc)
    }
}

/// Buckets in the order of their bounds.
pub open spec fn by_bound(buckets: Seq<(u64, u64)>) -> Seq<(u64, u64)> {
    chosen(buckets, ordered(buckets.len(), |a: int, b: int| less(buckets[a].0, buckets[b].0)))
}

/// A quantile of one histogram with cumulative buckets. An empty one has none.
pub open spec fn quantile_of(quantile: u64, buckets: Seq<(u64, u64)>, calc: Calc) -> Option<u64> {
    let sorted = by_bound(buckets);
    if sorted.len() == 0 || at_most(sorted.last().1, 0) {
        None
    } else {
        Some(reached(sorted, 0, calc(BinaryOp::Mul, quantile, sorted.last().1), 0, 0, calc))
    }
}

/// The histogram that each bucket belongs to.
pub open spec fn histogram_keys(buckets: Seq<Bucketed>) -> Seq<Seq<Pair>> {
    buckets.map_values(|bucket: Bucketed| bucket.0)
}

/// The buckets of one group, as bounds and counts.
pub open spec fn own_buckets(buckets: Seq<Bucketed>, group: Seq<int>) -> Seq<(u64, u64)> {
    group.map_values(|i: int| buckets[i].1)
}

/// The quantile of each of the first `n` histograms that has one.
pub open spec fn quantiles_of(
    quantile: u64,
    buckets: Seq<Bucketed>,
    groups: Seq<Seq<int>>,
    n: nat,
    calc: Calc,
) -> Seq<Sampled>
    decreases n,
{
    if n == 0 {
        Seq::empty()
    } else {
        let rest = quantiles_of(quantile, buckets, groups, (n - 1) as nat, calc);
        match quantile_of(quantile, own_buckets(buckets, groups[n - 1]), calc) {
            None => rest,
            Some(value) => rest.push((buckets[groups[n - 1][0]].0, value)),
        }
    }
}

/// Whether a number is a quantile: zero, one or between them.
pub open spec fn is_quantile(quantile: u64) -> bool {
    at_most(0, quantile) && at_most(quantile, ONE)
}

/// What every sample of a vector would belong to as a bucket.
pub open spec fn boundless_keys(vector: Seq<Sampled>) -> Seq<Seq<Pair>> {
    vector.map_values(|sample: Sampled| boundless(sample.0))
}

/// One infinity for each label set of a vector, a bucket or not, in the order of the labels.
pub open spec fn infinities(quantile: u64, vector: Seq<Sampled>) -> Seq<Sampled> {
    let keys = boundless_keys(vector);
    let value = if less(quantile, 0) {
        NEGATIVE_INFINITY
    } else {
        INFINITY
    };
    sorted_groups(keys).map_values(|group: Seq<int>| (keys[group[0]], value))
}

/// A quantile of every histogram of a vector, in the order of their labels. What is no
/// quantile is answered with an infinity.
pub open spec fn histogram_quantiles(
    quantile: u64,
    vector: Seq<Sampled>,
    calc: Calc,
    read: Literals,
) -> Seq<Sampled> {
    if is_quantile(quantile) {
        let buckets = buckets_of(vector, read);
        let groups = sorted_groups(histogram_keys(buckets));
        quantiles_of(quantile, buckets, groups, groups.len(), calc)
    } else {
        infinities(quantile, vector)
    }
}

fn read_bound<P: Fn(&str) -> u64>(le: &str, parse: &P) -> (bound: Option<u64>)
    requires
        reads(parse),
    ensures
        bound == bound_of(le@, literals(parse)),
{
    if same(le, "+Inf") {
        Some(INFINITY)
    } else {
        match read(le) {
            Some(_) => Some(literal(parse, le)),
            None => None,
        }
    }
}

fn collect_buckets<P: Fn(&str) -> u64>(samples: &Vec<(Labels, u64)>, parse: &P) -> (buckets: Vec<
    (Labels, (u64, u64)),
>)
    requires
        reads(parse),
    ensures
        views(buckets@) == buckets_of(views(samples@), literals(parse)),
{
    let ghost all = views(samples@);
    let mut buckets: Vec<(Labels, (u64, u64))> = Vec::new();
    let mut i: usize = 0;
    assert(views(buckets@) =~= buckets_of(all.take(0), literals(parse)));
    while i < samples.len()
        invariant
            i <= samples@.len(),
            reads(parse),
            all == views(samples@),
            views(buckets@) == buckets_of(all.take(i as int), literals(parse)),
        decreases samples@.len() - i,
    {
        let sample: &(Labels, u64) = &samples[i];
        proof {
            let next = all.take(i as int + 1);
            assert(next.drop_last() =~= all.take(i as int));
            assert(next.last() == sample@);
        }
        match sample.0.get("le") {
            None => {},
            Some(le) => match read_bound(le, parse) {
                None => {},
                Some(bound) => {
                    let ghost done = buckets@;
                    buckets.push((without_le(&sample.0), (bound, sample.1)));
                    proof {
                        lemma_views_push(done, buckets@.last());
                    }
                },
            },
        }
        i += 1;
    }
    assert(all.take(i as int) =~= all);
    buckets
}

fn one_quantile<C: Fn(BinaryOp, u64, u64) -> u64>(
    quantile: u64,
    buckets: &Vec<(u64, u64)>,
    calc: &C,
) -> (value: Option<u64>)
    requires
        computes(calc),
    ensures
        value == quantile_of(quantile, buckets@, results(calc)),
{
    let ghost earlier = |a: int, b: int| less(buckets@[a].0, buckets@[b].0);
    let before = |a: usize, b: usize| -> (r: bool)
        requires
            a < buckets@.len(),
            b < buckets@.len(),
        ensures
            r == less(buckets@[a as int].0, buckets@[b as int].0),
        { less(buckets[a].0, buckets[b].0) };
    let list: Vec<usize> = order(buckets.len(), &before, Ghost(earlier));
    let ghost sorted = by_bound(buckets@);
    let ghost f = results(calc);
    proof {
        assert forall|k: int| 0 <= k < list@.len() implies sorted[k] == buckets@[(
        #[trigger] list@[k]) as int] by {
            assert(numbers(list@)[k] == list@[k]);
        }
    }
    if list.len() == 0 {
        return None;
    }
    let last: usize = list[list.len() - 1];
    let total: u64 = buckets[last].1;
    if at_most(total, 0) {
        return None;
    }
    let wanted: u64 = calc(BinaryOp::Mul, quantile, total);
    let mut bound: u64 = 0;
    let mut count: u64 = 0;
    let mut i: usize = 0;
    while i < list.len()
        invariant
            i <= list@.len(),
            list@.len() == sorted.len(),
            computes(calc),
            f == results(calc),
            forall|k: int| 0 <= k < list@.len() ==> #[trigger] list@[k] < buckets@.len(),
            forall|k: int|
                0 <= k < list@.len() ==> sorted[k] == buckets@[(#[trigger] list@[k]) as int],
            quantile_of(quantile, buckets@, f) == Some(
                reached(sorted, i as int, wanted, bound, count, f),
            ),
        decreases list@.len() - i,
    {
        assert(list@[i as int] < buckets@.len());
        let own: (u64, u64) = buckets[list[i]];
        if at_most(wanted, own.1) {
            if is_infinite(own.0) {
                return Some(bound);
            }
            let span: u64 = calc(BinaryOp::Sub, own.1, count);
            let position: u64 = if less(0, span) {
                let part: u64 = calc(BinaryOp::Sub, wanted, count);
                calc(BinaryOp::Div, part, span)
            } else {
                0
            };
            let width: u64 = calc(BinaryOp::Sub, own.0, bound);
            let past: u64 = calc(BinaryOp::Mul, width, position);
            return Some(calc(BinaryOp::Add, bound, past));
        }
        bound = own.0;
        count = own.1;
        i += 1;
    }
    Some(bound)
}

/// One infinity for each label set of a vector.
fn answer_infinite(quantile: u64, vector: &InstantVector) -> (out: InstantVector)
    ensures
        out@ == infinities(quantile, vector@),
{
    let value: u64 = if less(quantile, 0) {
        NEGATIVE_INFINITY
    } else {
        INFINITY
    };
    let ghost keys = boundless_keys(vector@);
    let mut owners: Vec<Labels> = Vec::new();
    let mut i: usize = 0;
    while i < vector.samples.len()
        invariant
            i <= vector.samples@.len(),
            keys == boundless_keys(vector@),
            owners@.len() == i,
            forall|j: int| 0 <= j < i ==> (#[trigger] owners@[j])@ == keys[j],
        decreases vector.samples@.len() - i,
    {
        assert(vector@[i as int] == vector.samples@[i as int]@);
        owners.push(without_le(&vector.samples[i].0));
        i += 1;
    }
    let mut refs: Vec<&Labels> = Vec::new();
    let mut i: usize = 0;
    while i < owners.len()
        invariant
            i <= owners@.len(),
            owners@.len() == keys.len(),
            forall|j: int| 0 <= j < keys.len() ==> (#[trigger] owners@[j])@ == keys[j],
            refs@.len() == i,
            forall|j: int| 0 <= j < i ==> (#[trigger] refs@[j])@ == keys[j],
        decreases owners@.len() - i,
    {
        assert(owners@[i as int]@ == keys[i as int]);
        refs.push(&owners[i]);
        i += 1;
    }
    assert(label_views(refs@) =~= keys);
    let groups: Vec<Vec<usize>> = sort_groups(&refs);
    let ghost sorted = sorted_groups(keys);
    proof {
        lemma_sorted_groups(keys);
    }
    let mut samples: Vec<(Labels, u64)> = Vec::new();
    let mut g: usize = 0;
    while g < groups.len()
        invariant
            g <= groups@.len(),
            sorted == places(groups@),
            sound_groups(sorted, keys, keys.len() as int),
            owners@.len() == keys.len(),
            forall|j: int| 0 <= j < keys.len() ==> (#[trigger] owners@[j])@ == keys[j],
            samples@.len() == g,
            forall|j: int|
                0 <= j < g ==> (#[trigger] samples@[j])@ == (keys[sorted[j][0]], value),
        decreases groups@.len() - g,
    {
        let group: &Vec<usize> = &groups[g];
        proof {
            assert(sorted[g as int] == numbers(group@));
            assert(sorted[g as int].len() > 0);
            assert(sorted[g as int][0] == group@[0]);
            assert(owners@[group@[0] as int]@ == keys[group@[0] as int]);
        }
        samples.push((owners[group[0]].clone(), value));
        g += 1;
    }
    assert(views(samples@) =~= infinities(quantile, vector@));
    InstantVector { samples }
}

/// Interpolates over the cumulative buckets of every histogram.
pub fn histogram_quantile<C: Fn(BinaryOp, u64, u64) -> u64, P: Fn(&str) -> u64>(
    wanted: u64,
    vector: &InstantVector,
    calc: &C,
    parse: &P,
) -> (out: InstantVector)
    requires
        computes(calc),
        reads(parse),
    ensures
        out@ == histogram_quantiles(wanted, vector@, results(calc), literals(parse)),
{
    if !(at_most(0, wanted) && at_most(wanted, ONE)) {
        return answer_infinite(wanted, vector);
    }
    let ghost f = results(calc);
    let mut samples: Vec<(Labels, u64)> = Vec::new();
    let buckets: Vec<(Labels, (u64, u64))> = collect_buckets(&vector.samples, parse);
    let ghost all = views(buckets@);
    let mut refs: Vec<&Labels> = Vec::new();
    let mut i: usize = 0;
    while i < buckets.len()
        invariant
            i <= buckets@.len(),
            all == views(buckets@),
            refs@.len() == i,
            forall|j: int| 0 <= j < i ==> (#[trigger] refs@[j])@ == all[j].0,
        decreases buckets@.len() - i,
    {
        assert(all[i as int] == buckets@[i as int]@);
        refs.push(&buckets[i].0);
        i += 1;
    }
    let ghost keys = histogram_keys(all);
    assert(label_views(refs@) =~= keys);
    let groups: Vec<Vec<usize>> = sort_groups(&refs);
    let ghost sorted = sorted_groups(keys);
    proof {
        lemma_sorted_groups(keys);
    }
    let mut g: usize = 0;
    assert(views(samples@) =~= Seq::empty());
    while g < groups.len()
        invariant
            g <= groups@.len(),
            computes(calc),
            f == results(calc),
            all == views(buckets@),
            sorted == places(groups@),
            sound_groups(sorted, keys, all.len() as int),
            views(samples@) == quantiles_of(wanted, all, sorted, g as nat, f),
        decreases groups@.len() - g,
    {
        let group: &Vec<usize> = &groups[g];
        proof {
            assert(sorted[g as int] == numbers(group@));
            assert(sorted[g as int].len() > 0);
            assert(sorted[g as int][0] == group@[0]);
        }
        let own: Vec<(u64, u64)> = pick_buckets(&buckets, group);
        assert(all[group@[0] as int] == buckets@[group@[0] as int]@);
        match one_quantile(wanted, &own, calc) {
            None => {},
            Some(value) => {
                let ghost done = samples@;
                samples.push((buckets[group[0]].0.clone(), value));
                proof {
                    lemma_views_push(done, samples@.last());
                }
            },
        }
        g += 1;
    }
    InstantVector { samples }
}

fn pick_buckets(buckets: &Vec<(Labels, (u64, u64))>, group: &Vec<usize>) -> (own: Vec<(u64, u64)>)
    requires
        forall|k: int|
            0 <= k < group@.len() ==> 0 <= #[trigger] numbers(group@)[k] < buckets@.len(),
    ensures
        own@ == own_buckets(views(buckets@), numbers(group@)),
{
    let ghost at = numbers(group@);
    let mut own: Vec<(u64, u64)> = Vec::new();
    let mut k: usize = 0;
    while k < group.len()
        invariant
            k <= group@.len(),
            at == numbers(group@),
            forall|k: int| 0 <= k < group@.len() ==> 0 <= #[trigger] at[k] < buckets@.len(),
            own@.len() == k,
            forall|j: int| 0 <= j < k ==> #[trigger] own@[j] == views(buckets@)[at[j]].1,
        decreases group@.len() - k,
    {
        assert(at[k as int] == group@[k as int]);
        assert(views(buckets@)[at[k as int]] == buckets@[at[k as int]]@);
        own.push(buckets[group[k]].1);
        k += 1;
    }
    assert(own@ =~= own_buckets(views(buckets@), at));
    own
}

// ---------------------------------------------------------------------------
// Binary operators
// ---------------------------------------------------------------------------

/// Every value of a vector changed, the labels as they were.
pub open spec fn mapped(vector: Seq<Sampled>, change: spec_fn(u64) -> u64) -> Seq<Sampled> {
    vector.map_values(|sample: Sampled| (sample.0, change(sample.1)))
}

/// The value of the first sample with these labels.
pub open spec fn value_for(vector: Seq<Sampled>, labels: Seq<Pair>) -> Option<u64>
    decreases vector.len(),
{
    if vector.len() == 0 {
        None
    } else if vector[0].0 == labels {
        Some(vector[0].1)
    } else {
        value_for(vector.drop_first(), labels)
    }
}

/// Vector union: the left side wins, the right fills gaps.
pub open spec fn union(left: Seq<Sampled>, right: Seq<Sampled>) -> Seq<Sampled>
    decreases right.len(),
{
    if right.len() == 0 {
        left
    } else {
        let rest = union(left, right.drop_last());
        match value_for(rest, right.last().0) {
            Some(_) => rest,
            None => rest.push(right.last()),
        }
    }
}

/// Samples with the same labels on both sides, combined. Those on one side only drop out.
pub open spec fn joined(op: BinaryOp, left: Seq<Sampled>, right: Seq<Sampled>, calc: Calc) -> Seq<
    Sampled,
>
    decreases left.len(),
{
    if left.len() == 0 {
        left
    } else {
        let rest = joined(op, left.drop_last(), right, calc);
        match value_for(right, left.last().0) {
            Some(other) => rest.push((left.last().0, applied(op, left.last().1, other, calc))),
            None => rest,
        }
    }
}

/// An operation on two values.
pub open spec fn combined(op: BinaryOp, left: EvaluatedView, right: EvaluatedView, calc: Calc) -> EvaluatedView {
    if op == BinaryOp::Or {
        Evaluated::Vector(union(vector_of(left), vector_of(right)))
    } else {
        match (left, right) {
            (Evaluated::Scalar(a), Evaluated::Scalar(b)) => Evaluated::Scalar(
                applied(op, a, b, calc),
            ),
            (Evaluated::Vector(vector), Evaluated::Scalar(b)) => Evaluated::Vector(
                mapped(vector, |a: u64| applied(op, a, b, calc)),
            ),
            (Evaluated::Scalar(a), Evaluated::Vector(vector)) => Evaluated::Vector(
                mapped(vector, |b: u64| applied(op, a, b, calc)),
            ),
            (Evaluated::Vector(left), Evaluated::Vector(right)) => Evaluated::Vector(
                joined(op, left, right, calc),
            ),
        }
    }
}

fn find_value(samples: &Vec<(Labels, u64)>, labels: &Labels) -> (value: Option<u64>)
    ensures
        value == value_for(views(samples@), labels@),
{
    let ghost all = views(samples@);
    let mut i: usize = 0;
    assert(all.skip(0) =~= all);
    while i < samples.len()
        invariant
            i <= samples@.len(),
            all == views(samples@),
            value_for(all, labels@) == value_for(all.skip(i as int), labels@),
        decreases samples@.len() - i,
    {
        proof {
            assert(all.skip(i as int)[0] == samples@[i as int]@);
            assert(all.skip(i as int).drop_first() =~= all.skip(i as int + 1));
        }
        if samples[i].0 == *labels {
            return Some(samples[i].1);
        }
        i += 1;
    }
    None
}

/// Every value of a vector changed, the labels as they were.
fn change_each<F: Fn(u64) -> u64>(
    vector: &InstantVector,
    change: &F,
    Ghost(rule): Ghost<spec_fn(u64) -> u64>,
) -> (out: InstantVector)
    requires
        forall|v: u64| change.requires((v,)),
        forall|v: u64, r: u64| change.ensures((v,), r) ==> r == rule(v),
    ensures
        out@ == mapped(vector@, rule),
{
    let mut samples: Vec<(Labels, u64)> = Vec::new();
    let mut i: usize = 0;
    while i < vector.samples.len()
        invariant
            i <= vector.samples@.len(),
            forall|v: u64| change.requires((v,)),
            forall|v: u64, r: u64| change.ensures((v,), r) ==> r == rule(v),
            samples@.len() == i,
            forall|j: int|
                0 <= j < i ==> (#[trigger] samples@[j])@ == (vector@[j].0, rule(vector@[j].1)),
        decreases vector.samples@.len() - i,
    {
        assert(vector@[i as int] == vector.samples@[i as int]@);
        let sample: &(Labels, u64) = &vector.samples[i];
        samples.push((sample.0.clone(), change(sample.1)));
        i += 1;
    }
    let out = InstantVector { samples };
    assert(out@ =~= mapped(vector@, rule));
    out
}

fn unite(left: InstantVector, right: InstantVector) -> (out: InstantVector)
    ensures
        out@ == union(left@, right@),
{
    let mut samples: Vec<(Labels, u64)> = left.samples;
    let mut i: usize = 0;
    assert(right@.take(0) =~= Seq::empty());
    while i < right.samples.len()
        invariant
            i <= right.samples@.len(),
            views(samples@) == union(left@, right@.take(i as int)),
        decreases right.samples@.len() - i,
    {
        let sample: &(Labels, u64) = &right.samples[i];
        proof {
            let next = right@.take(i as int + 1);
            assert(next.drop_last() =~= right@.take(i as int));
            assert(next.last() == sample@);
        }
        if find_value(&samples, &sample.0).is_none() {
            let ghost done = samples@;
            samples.push(copy_sample(sample));
            proof {
                lemma_views_push(done, samples@.last());
            }
        }
        i += 1;
    }
    assert(right@.take(i as int) =~= right@);
    InstantVector { samples }
}

fn join_vectors<C: Fn(BinaryOp, u64, u64) -> u64>(
    op: BinaryOp,
    left: &InstantVector,
    right: &InstantVector,
    calc: &C,
) -> (out: InstantVector)
    requires
        computes(calc),
    ensures
        out@ == joined(op, left@, right@, results(calc)),
{
    let mut samples: Vec<(Labels, u64)> = Vec::new();
    let mut i: usize = 0;
    assert(views(samples@) =~= left@.take(0));
    while i < left.samples.len()
        invariant
            i <= left.samples@.len(),
            computes(calc),
            views(samples@) == joined(op, left@.take(i as int), right@, results(calc)),
        decreases left.samples@.len() - i,
    {
        let sample: &(Labels, u64) = &left.samples[i];
        proof {
            let next = left@.take(i as int + 1);
            assert(next.drop_last() =~= left@.take(i as int));
            assert(next.last() == sample@);
        }
        match find_value(&right.samples, &sample.0) {
            Some(other) => {
                let ghost done = samples@;
                samples.push((sample.0.clone(), apply(op, sample.1, other, calc)));
                proof {
                    lemma_views_push(done, samples@.last());
                }
            },
            None => {},
        }
        i += 1;
    }
    assert(left@.take(i as int) =~= left@);
    InstantVector { samples }
}

/// Applies an operator to two values.
pub fn binary<C: Fn(BinaryOp, u64, u64) -> u64>(
    op: BinaryOp,
    left: Evaluated<InstantVector>,
    right: Evaluated<InstantVector>,
    calc: &C,
) -> (out: Evaluated<InstantVector>)
    requires
        computes(calc),
    ensures
        out@ == combined(op, left@, right@, results(calc)),
{
    if op == BinaryOp::Or {
        return Evaluated::Vector(unite(left.into_vector(), right.into_vector()));
    }
    let ghost f = results(calc);
    match (left, right) {
        (Evaluated::Scalar(a), Evaluated::Scalar(b)) => Evaluated::Scalar(apply(op, a, b, calc)),
        (Evaluated::Vector(vector), Evaluated::Scalar(b)) => {
            let change = |a: u64| -> (r: u64)
                ensures
                    r == applied(op, a, b, results(calc)),
                { apply(op, a, b, calc) };
            Evaluated::Vector(
                change_each(&vector, &change, Ghost(|a: u64| applied(op, a, b, f))),
            )
        },
        (Evaluated::Scalar(a), Evaluated::Vector(vector)) => {
            let change = |b: u64| -> (r: u64)
                ensures
                    r == applied(op, a, b, results(calc)),
                { apply(op, a, b, calc) };
            Evaluated::Vector(
                change_each(&vector, &change, Ghost(|b: u64| applied(op, a, b, f))),
            )
        },
        (Evaluated::Vector(left), Evaluated::Vector(right)) => Evaluated::Vector(
            join_vectors(op, &left, &right, calc),
        ),
    }
}

// ---------------------------------------------------------------------------
// Snapshots
// ---------------------------------------------------------------------------

/// The places of samples in time order, those of one time as they stood.
pub open spec fn in_time(samples: Seq<SampleView>) -> Seq<int> {
    ordered(
        samples.len(),
        |a: int, b: int| samples[a].timestamp_nanos < samples[b].timestamp_nanos,
    )
}

/// When each sample was taken, and its value.
pub open spec fn points_of(samples: Seq<SampleView>) -> Seq<(u64, u64)> {
    samples.map_values(|sample: SampleView| (sample.timestamp_nanos, sample.value))
}

/// The series of one group of samples, in time order.
pub open spec fn one_series(samples: Seq<SampleView>, group: Seq<int>) -> SeriesView {
    let own = chosen(samples, group);
    SeriesView {
        labels: samples[group[0]].series,
        samples: points_of(chosen(own, in_time(own))),
    }
}

/// Samples grouped into series, the series in the order of their labels.
pub open spec fn series_of(samples: Seq<SampleView>) -> Seq<SeriesView> {
    sorted_groups(sample_streams(samples)).map_values(
        |group: Seq<int>| one_series(samples, group),
    )
}

/// Ascending by time.
pub open spec fn in_time_order(samples: Seq<(u64, u64)>) -> bool {
    forall|i: int, j: int|
        0 <= i < j < samples.len() ==> (#[trigger] samples[i]).0 <= (#[trigger] samples[j]).0
}

/// The places of the series that every matcher accepts, among the first `n`.
pub open spec fn matching_places(
    series: Seq<SeriesView>,
    matchers: Seq<MatcherView>,
    n: nat,
) -> Seq<int>
    decreases n,
{
    if n == 0 {
        Seq::empty()
    } else if all_match(matchers, series[n - 1].labels) {
        matching_places(series, matchers, (n - 1) as nat).push(n - 1)
    } else {
        matching_places(series, matchers, (n - 1) as nat)
    }
}

/// What each series at some places has for a value, under its labels without its name.
/// One that has none is left out.
pub open spec fn measured(
    series: Seq<SeriesView>,
    places: Seq<int>,
    value: spec_fn(Seq<(u64, u64)>) -> Option<u64>,
) -> Seq<Sampled>
    decreases places.len(),
{
    if places.len() == 0 {
        Seq::empty()
    } else {
        let rest = measured(series, places.drop_last(), value);
        let own = series[places.last()];
        match value(own.samples) {
            Some(v) => rest.push((nameless(own.labels), v)),
            None => rest,
        }
    }
}

/// The latest value after `floor` and up to `at`.
pub open spec fn latest(samples: Seq<(u64, u64)>, floor: u64, at: u64) -> Option<u64>
    decreases samples.len(),
{
    if samples.len() == 0 {
        None
    } else if floor < samples.last().0 <= at {
        Some(samples.last().1)
    } else {
        latest(samples.drop_last(), floor, at)
    }
}

/// The samples after `floor` and up to `at`.
pub open spec fn window(samples: Seq<(u64, u64)>, floor: u64, at: u64) -> Seq<(u64, u64)>
    decreases samples.len(),
{
    if samples.len() == 0 {
        samples
    } else if floor < samples.last().0 <= at {
        window(samples.drop_last(), floor, at).push(samples.last())
    } else {
        window(samples.drop_last(), floor, at)
    }
}

/// How much a counter grew over its samples. A drop means a restart, so what follows it
/// counts whole.
pub open spec fn growth(samples: Seq<(u64, u64)>, calc: Calc) -> u64
    decreases samples.len(),
{
    if samples.len() < 2 {
        0
    } else {
        let previous = samples[samples.len() - 2].1;
        let current = samples.last().1;
        calc(
            BinaryOp::Add,
            growth(samples.drop_last(), calc),
            if less(current, previous) {
                current
            } else {
                calc(BinaryOp::Sub, current, previous)
            },
        )
    }
}

/// Nanoseconds as seconds.
pub open spec fn as_seconds(nanos: u64, calc: Calc) -> u64 {
    calc(BinaryOp::Div, double_bits(nanos as nat), double_bits(1_000_000_000))
}

/// The rate of a counter over the span that was observed, per second, or extrapolated
/// across the range. One point, or points of one time, describe no change.
pub open spec fn rate_of(
    samples: Seq<(u64, u64)>,
    floor: u64,
    at: u64,
    range: u64,
    per_second: bool,
    calc: Calc,
) -> Option<u64> {
    let seen = window(samples, floor, at);
    if seen.len() < 2 || seen.last().0 <= seen[0].0 {
        None
    } else {
        let observed = as_seconds((seen.last().0 - seen[0].0) as u64, calc);
        let rate = calc(BinaryOp::Div, growth(seen, calc), observed);
        if per_second {
            Some(rate)
        } else {
            Some(calc(BinaryOp::Mul, rate, as_seconds(range, calc)))
        }
    }
}

/// The time that a selector is evaluated at.
pub open spec fn shifted_time(selector: SelectorView, at: u64) -> u64 {
    match selector.offset {
        Some(offset) => minus(at, offset),
        None => at,
    }
}

/// The most recent value of each matching series, within the lookback.
pub open spec fn instant_of(series: Seq<SeriesView>, selector: SelectorView, at: u64) -> Seq<
    Sampled,
> {
    let moment = shifted_time(selector, at);
    measured(
        series,
        matching_places(series, selector.matchers, series.len()),
        |samples: Seq<(u64, u64)>| latest(samples, minus(moment, DEFAULT_LOOKBACK), moment),
    )
}

/// The rate of each matching series over a range.
pub open spec fn rates_of(
    series: Seq<SeriesView>,
    selector: SelectorView,
    range: u64,
    at: u64,
    per_second: bool,
    calc: Calc,
) -> Seq<Sampled> {
    let moment = shifted_time(selector, at);
    measured(
        series,
        matching_places(series, selector.matchers, series.len()),
        |samples: Seq<(u64, u64)>|
            rate_of(samples, minus(moment, range), moment, range, per_second, calc),
    )
}

/// A matcher by what it says.
#[derive(Debug)]
struct MatcherKey {
    name: String,
    op: MatchOp,
    value: String,
}

impl View for MatcherKey {
    type V = MatcherView;

    closed spec fn view(&self) -> MatcherView {
        MatcherView { name: self.name@, op: self.op, value: self.value@ }
    }
}

/// The series that one selector matches.
#[derive(Debug)]
struct Resolved {
    matchers: Vec<MatcherKey>,
    members: Vec<usize>,
}

/// Series loaded once and evaluated many times. What does not depend on the step of a
/// range query is worked out once: the labels that results carry, and the series that each
/// selector matches.
#[derive(Debug)]
pub struct Snapshot {
    series: Vec<Series>,
    /// The labels of each series without its name, ready to be handed to a result.
    stripped: Vec<Labels>,
    /// The series that each distinct selector of the expression matches.
    resolved: Vec<Resolved>,
}

impl View for Snapshot {
    type V = Seq<SeriesView>;

    closed spec fn view(&self) -> Seq<SeriesView> {
        views(self.series@)
    }
}

proof fn lemma_in_time(samples: Seq<SampleView>)
    ensures
        in_time_order(points_of(chosen(samples, in_time(samples)))),
{
    let earlier = |a: int, b: int| samples[a].timestamp_nanos < samples[b].timestamp_nanos;
    crate::grouping::law_ordering_orders(samples.len(), earlier);
    let list = in_time(samples);
    let out = points_of(chosen(samples, list));
    assert forall|i: int, j: int| 0 <= i < j < out.len() implies (#[trigger] out[i]).0 <= (
    #[trigger] out[j]).0 by {
        assert(!earlier(list[j], list[i]));
    }
}

fn build_series(samples: &Vec<MetricSample>, group: &Vec<usize>) -> (series: Series)
    requires
        group@.len() > 0,
        forall|k: int|
            0 <= k < group@.len() ==> 0 <= #[trigger] numbers(group@)[k] < samples@.len(),
    ensures
        series@ == one_series(views(samples@), numbers(group@)),
        in_time_order(series@.samples),
{
    let ghost all = views(samples@);
    let ghost at = numbers(group@);
    let ghost own = chosen(all, at);
    let mut refs: Vec<&MetricSample> = Vec::new();
    let mut i: usize = 0;
    while i < group.len()
        invariant
            i <= group@.len(),
            all == views(samples@),
            at == numbers(group@),
            own == chosen(all, at),
            forall|k: int| 0 <= k < group@.len() ==> 0 <= #[trigger] at[k] < samples@.len(),
            refs@.len() == i,
            forall|j: int| 0 <= j < i ==> (#[trigger] refs@[j])@ == own[j],
        decreases group@.len() - i,
    {
        assert(at[i as int] == group@[i as int]);
        assert(all[at[i as int]] == samples@[at[i as int]]@);
        refs.push(&samples[group[i]]);
        i += 1;
    }
    let ghost earlier = |a: int, b: int| own[a].timestamp_nanos < own[b].timestamp_nanos;
    let before = |a: usize, b: usize| -> (r: bool)
        requires
            a < refs@.len(),
            b < refs@.len(),
        ensures
            r == (refs@[a as int]@.timestamp_nanos < refs@[b as int]@.timestamp_nanos),
        { refs[a].timestamp_nanos < refs[b].timestamp_nanos };
    let list: Vec<usize> = order(refs.len(), &before, Ghost(earlier));
    let ghost spots = in_time(own);
    let mut points: Vec<(u64, u64)> = Vec::new();
    let mut k: usize = 0;
    while k < list.len()
        invariant
            k <= list@.len(),
            list@.len() == refs@.len(),
            own.len() == refs@.len(),
            forall|j: int| 0 <= j < refs@.len() ==> (#[trigger] refs@[j])@ == own[j],
            spots == numbers(list@),
            forall|k: int| 0 <= k < list@.len() ==> #[trigger] list@[k] < refs@.len(),
            points@.len() == k,
            forall|j: int|
                0 <= j < k ==> #[trigger] points@[j] == points_of(chosen(own, spots))[j],
        decreases list@.len() - k,
    {
        assert(spots[k as int] == list@[k as int]);
        assert(list@[k as int] < refs@.len());
        let sample: &MetricSample = refs[list[k]];
        points.push((sample.timestamp_nanos, sample.value));
        k += 1;
    }
    proof {
        assert(points@ =~= points_of(chosen(own, spots)));
        lemma_in_time(own);
        assert(at[0] == group@[0]);
        assert(all[at[0]] == samples@[at[0]]@);
    }
    Series { labels: samples[group[0]].series.clone(), samples: points }
}

/// The places of the series that every matcher accepts.
fn filter_series(series: &Vec<Series>, matchers: &Vec<LabelMatcher>) -> (list: Vec<usize>)
    ensures
        numbers(list@) == matching_places(views(series@), views(matchers@), series@.len()),
        forall|k: int| 0 <= k < list@.len() ==> #[trigger] list@[k] < series@.len(),
{
    let ghost all = views(series@);
    let mut list: Vec<usize> = Vec::new();
    let mut i: usize = 0;
    assert(numbers(list@) =~= Seq::empty());
    while i < series.len()
        invariant
            i <= series@.len(),
            all == views(series@),
            numbers(list@) == matching_places(all, views(matchers@), i as nat),
            forall|k: int| 0 <= k < list@.len() ==> #[trigger] list@[k] < series@.len(),
        decreases series@.len() - i,
    {
        assert(all[i as int] == series@[i as int]@);
        if matches_all(matchers, &series[i].labels) {
            let ghost done = list@;
            list.push(i);
            assert(numbers(list@) =~= numbers(done).push(i as int));
        }
        i += 1;
    }
    list
}

fn same_matchers(keys: &Vec<MatcherKey>, matchers: &Vec<LabelMatcher>) -> (r: bool)
    ensures
        r == (views(keys@) == views(matchers@)),
{
    if keys.len() != matchers.len() {
        assert(views(keys@).len() != views(matchers@).len());
        return false;
    }
    let mut i: usize = 0;
    while i < keys.len()
        invariant
            i <= keys@.len(),
            keys@.len() == matchers@.len(),
            forall|j: int| 0 <= j < i ==> views(keys@)[j] == #[trigger] views(matchers@)[j],
        decreases keys@.len() - i,
    {
        assert(views(keys@)[i as int] == keys@[i as int]@);
        assert(views(matchers@)[i as int] == matchers@[i as int]@);
        let key: &MatcherKey = &keys[i];
        let matcher: &LabelMatcher = &matchers[i];
        if !(key.op == matcher.op() && same(key.name.as_str(), matcher.name()) && same(
            key.value.as_str(),
            matcher.value(),
        )) {
            return false;
        }
        i += 1;
    }
    assert(views(keys@) =~= views(matchers@));
    true
}

fn keys_for(matchers: &Vec<LabelMatcher>) -> (keys: Vec<MatcherKey>)
    ensures
        views(keys@) == views(matchers@),
{
    let mut keys: Vec<MatcherKey> = Vec::new();
    let mut i: usize = 0;
    while i < matchers.len()
        invariant
            i <= matchers@.len(),
            keys@.len() == i,
            forall|j: int| 0 <= j < i ==> (#[trigger] keys@[j])@ == matchers@[j]@,
        decreases matchers@.len() - i,
    {
        let matcher: &LabelMatcher = &matchers[i];
        keys.push(
            MatcherKey {
                name: matcher.name().to_owned(),
                op: matcher.op(),
                value: matcher.value().to_owned(),
            },
        );
        i += 1;
    }
    assert(views(keys@) =~= views(matchers@));
    keys
}

/// Works out which series each distinct selector matches.
fn resolve(series: &Vec<Series>, selectors: &Vec<&Selector>) -> (resolved: Vec<Resolved>)
    ensures
        forall|r: int|
            0 <= r < resolved@.len() ==> is_resolved(#[trigger] resolved@[r], series@),
{
    let mut resolved: Vec<Resolved> = Vec::new();
    let mut i: usize = 0;
    while i < selectors.len()
        invariant
            i <= selectors@.len(),
            forall|r: int|
                0 <= r < resolved@.len() ==> is_resolved(#[trigger] resolved@[r], series@),
        decreases selectors@.len() - i,
    {
        let mut known: bool = false;
        let mut r: usize = 0;
        while r < resolved.len() && !known
            invariant
                i < selectors@.len(),
                r <= resolved@.len(),
            decreases resolved@.len() - r,
        {
            known = same_matchers(&resolved[r].matchers, &selectors[i].matchers);
            r += 1;
        }
        if !known {
            let matchers: Vec<MatcherKey> = keys_for(&selectors[i].matchers);
            let members: Vec<usize> = filter_series(series, &selectors[i].matchers);
            resolved.push(Resolved { matchers, members });
        }
        i += 1;
    }
    resolved
}

/// How many samples, from the first, are at or before a time.
fn count_until(samples: &Vec<(u64, u64)>, at: u64) -> (n: usize)
    requires
        in_time_order(samples@),
    ensures
        n <= samples@.len(),
        forall|i: int| 0 <= i < n ==> (#[trigger] samples@[i]).0 <= at,
        forall|i: int| n <= i < samples@.len() ==> (#[trigger] samples@[i]).0 > at,
{
    let mut low: usize = 0;
    let mut high: usize = samples.len();
    while low < high
        invariant
            low <= high <= samples@.len(),
            in_time_order(samples@),
            forall|i: int| 0 <= i < low ==> (#[trigger] samples@[i]).0 <= at,
            forall|i: int| high <= i < samples@.len() ==> (#[trigger] samples@[i]).0 > at,
        decreases high - low,
    {
        let middle: usize = low + (high - low) / 2;
        if samples[middle].0 <= at {
            low = middle + 1;
        } else {
            high = middle;
        }
    }
    low
}

proof fn lemma_window(samples: Seq<(u64, u64)>, floor: u64, at: u64, start: int, end: int)
    requires
        0 <= start <= end <= samples.len(),
        forall|i: int| 0 <= i < start ==> (#[trigger] samples[i]).0 <= floor,
        forall|i: int| start <= i < end ==> floor < (#[trigger] samples[i]).0 <= at,
        forall|i: int| end <= i < samples.len() ==> (#[trigger] samples[i]).0 > at,
    ensures
        window(samples, floor, at) == samples.subrange(start, end),
    decreases samples.len(),
{
    if samples.len() == 0 {
        assert(samples.subrange(start, end) =~= samples);
    } else {
        let rest = samples.drop_last();
        let n = samples.len() as int;
        assert(samples.last() == samples[n - 1]);
        if end == n && start < n {
            lemma_window(rest, floor, at, start, n - 1);
            assert(rest.subrange(start, n - 1).push(samples.last()) =~= samples.subrange(start, n));
        } else if start == n {
            lemma_window(rest, floor, at, n - 1, n - 1);
            assert(rest.subrange(n - 1, n - 1) =~= samples.subrange(n, n));
        } else {
            lemma_window(rest, floor, at, start, end);
            assert(rest.subrange(start, end) =~= samples.subrange(start, end));
        }
    }
}

proof fn lemma_window_is_empty(samples: Seq<(u64, u64)>, floor: u64, at: u64)
    requires
        at <= floor,
    ensures
        window(samples, floor, at).len() == 0,
    decreases samples.len(),
{
    if samples.len() > 0 {
        lemma_window_is_empty(samples.drop_last(), floor, at);
    }
}

fn latest_value(samples: &Vec<(u64, u64)>, floor: u64, at: u64) -> (value: Option<u64>)
    ensures
        value == latest(samples@, floor, at),
{
    let mut n: usize = samples.len();
    assert(samples@.take(n as int) =~= samples@);
    while n > 0
        invariant
            n <= samples@.len(),
            latest(samples@, floor, at) == latest(samples@.take(n as int), floor, at),
        decreases n,
    {
        proof {
            assert(samples@.take(n as int).last() == samples@[n - 1]);
            assert(samples@.take(n as int).drop_last() =~= samples@.take(n - 1));
        }
        let sample: (u64, u64) = samples[n - 1];
        if sample.0 <= at && sample.0 > floor {
            return Some(sample.1);
        }
        n -= 1;
    }
    None
}

fn seconds_of<C: Fn(BinaryOp, u64, u64) -> u64>(nanos: u64, calc: &C) -> (seconds: u64)
    requires
        computes(calc),
    ensures
        seconds == as_seconds(nanos, results(calc)),
{
    calc(BinaryOp::Div, double_of(nanos), double_of(1_000_000_000))
}

fn rate_value<C: Fn(BinaryOp, u64, u64) -> u64>(
    samples: &Vec<(u64, u64)>,
    floor: u64,
    at: u64,
    range: u64,
    per_second: bool,
    calc: &C,
) -> (value: Option<u64>)
    requires
        computes(calc),
        in_time_order(samples@),
    ensures
        value == rate_of(samples@, floor, at, range, per_second, results(calc)),
{
    let ghost f = results(calc);
    let start: usize = count_until(samples, floor);
    let end: usize = count_until(samples, at);
    if at <= floor || end < start || end - start < 2 {
        proof {
            if at <= floor {
                lemma_window_is_empty(samples@, floor, at);
            } else {
                if end < start {
                    assert(samples@[end as int].0 > at);
                    assert(samples@[end as int].0 <= floor);
                }
                lemma_window(samples@, floor, at, start as int, end as int);
            }
        }
        return None;
    }
    let ghost seen = samples@.subrange(start as int, end as int);
    proof {
        lemma_window(samples@, floor, at, start as int, end as int);
    }
    let mut increase: u64 = 0;
    let mut i: usize = start + 1;
    while i < end
        invariant
            start + 1 <= i <= end <= samples@.len(),
            computes(calc),
            f == results(calc),
            seen == samples@.subrange(start as int, end as int),
            increase == growth(seen.take(i - start), f),
        decreases end - i,
    {
        let previous: u64 = samples[i - 1].1;
        let current: u64 = samples[i].1;
        proof {
            let next = seen.take(i - start + 1);
            assert(next.drop_last() =~= seen.take(i - start));
            assert(next.last() == samples@[i as int]);
            assert(next[next.len() - 2] == samples@[i - 1]);
        }
        let step: u64 = if less(current, previous) {
            current
        } else {
            calc(BinaryOp::Sub, current, previous)
        };
        increase = calc(BinaryOp::Add, increase, step);
        i += 1;
    }
    assert(seen.take(end - start) =~= seen);
    let first: u64 = samples[start].0;
    let last: u64 = samples[end - 1].0;
    if last <= first {
        return None;
    }
    let observed: u64 = seconds_of(last - first, calc);
    let rate: u64 = calc(BinaryOp::Div, increase, observed);
    if per_second {
        Some(rate)
    } else {
        let across: u64 = seconds_of(range, calc);
        Some(calc(BinaryOp::Mul, rate, across))
    }
}

impl Default for Snapshot {
    fn default() -> (snapshot: Snapshot)
        ensures
            snapshot@ == Seq::<SeriesView>::empty(),
    {
        let snapshot =
            Snapshot { series: Vec::new(), stripped: Vec::new(), resolved: Vec::new() };
        assert(snapshot@ =~= Seq::<SeriesView>::empty());
        snapshot
    }
}

/// Whether the members are the places of the series that the matchers accept.
spec fn is_resolved(one: Resolved, series: Seq<Series>) -> bool {
    &&& numbers(one.members@) == matching_places(views(series), views(one.matchers@), series.len())
    &&& forall|k: int| 0 <= k < one.members@.len() ==> #[trigger] one.members@[k] < series.len()
}

impl Snapshot {
    #[verifier::type_invariant]
    spec fn well_formed(&self) -> bool {
        &&& forall|r: int|
            0 <= r < self.resolved@.len() ==> is_resolved(
                #[trigger] self.resolved@[r],
                self.series@,
            )
        &&& self.stripped@.len() == self.series@.len()
        &&& forall|i: int|
            0 <= i < self.series@.len() ==> (#[trigger] self.stripped@[i])@ == nameless(
                self.series@[i].labels@,
            )
        &&& forall|i: int|
            0 <= i < self.series@.len() ==> in_time_order((#[trigger] self.series@[i]).samples@)
    }

    /// Builds series from samples.
    pub fn from_samples(samples: &Vec<MetricSample>) -> (snapshot: Snapshot)
        ensures
            snapshot@ == series_of(views(samples@)),
    {
        let ghost all = views(samples@);
        let mut refs: Vec<&Labels> = Vec::new();
        let mut i: usize = 0;
        while i < samples.len()
            invariant
                i <= samples@.len(),
                all == views(samples@),
                refs@.len() == i,
                forall|j: int| 0 <= j < i ==> (#[trigger] refs@[j])@ == all[j].series,
            decreases samples@.len() - i,
        {
            refs.push(&samples[i].series);
            i += 1;
        }
        assert(label_views(refs@) =~= sample_streams(all));
        let groups: Vec<Vec<usize>> = sort_groups(&refs);
        let ghost sorted = sorted_groups(sample_streams(all));
        proof {
            lemma_sorted_groups(sample_streams(all));
        }
        let mut series: Vec<Series> = Vec::new();
        let mut stripped: Vec<Labels> = Vec::new();
        let mut g: usize = 0;
        while g < groups.len()
            invariant
                g <= groups@.len(),
                all == views(samples@),
                sorted == places(groups@),
                sound_groups(sorted, sample_streams(all), all.len() as int),
                series@.len() == g,
                stripped@.len() == g,
                forall|j: int|
                    0 <= j < g ==> (#[trigger] stripped@[j])@ == nameless(series@[j].labels@),
                forall|j: int|
                    0 <= j < g ==> in_time_order((#[trigger] series@[j]).samples@) && series@[j]@
                        == one_series(all, sorted[j]),
            decreases groups@.len() - g,
        {
            proof {
                assert(sorted[g as int] == numbers(groups@[g as int]@));
                assert(sorted[g as int].len() > 0);
            }
            let one: Series = build_series(samples, &groups[g]);
            stripped.push(strip_name(&one.labels));
            series.push(one);
            g += 1;
        }
        assert(views(series@) =~= series_of(all));
        Snapshot { series, stripped, resolved: Vec::new() }
    }

    pub fn is_empty(&self) -> (r: bool)
        ensures
            r == (self@.len() == 0),
    {
        self.series.len() == 0
    }

    /// The labels of a series without its name.
    pub fn stripped(&self, i: usize) -> (labels: &Labels)
        requires
            i < self@.len(),
        ensures
            labels@ == nameless(self@[i as int].labels),
    {
        proof {
            use_type_invariant(self);
            assert(self.stripped@[i as int]@ == nameless(self.series@[i as int].labels@));
        }
        &self.stripped[i]
    }

    /// The places of the series that a selector matches: those that were resolved, or else
    /// those that pass.
    fn matching(&self, selector: &Selector) -> (list: Vec<usize>)
        ensures
            numbers(list@) == matching_places(self@, selector@.matchers, self@.len()),
            forall|k: int| 0 <= k < list@.len() ==> #[trigger] list@[k] < self.series@.len(),
    {
        proof {
            use_type_invariant(self);
        }
        let mut r: usize = 0;
        while r < self.resolved.len()
            invariant
                r <= self.resolved@.len(),
                self.well_formed(),
            decreases self.resolved@.len() - r,
        {
            if same_matchers(&self.resolved[r].matchers, &selector.matchers) {
                assert(is_resolved(self.resolved@[r as int], self.series@));
                return copy_places(&self.resolved[r].members);
            }
            r += 1;
        }
        filter_series(&self.series, &selector.matchers)
    }

    /// What each matching series has for a value.
    fn measure<F: Fn(&Vec<(u64, u64)>) -> Option<u64>>(
        &self,
        selector: &Selector,
        value: &F,
        Ghost(rule): Ghost<spec_fn(Seq<(u64, u64)>) -> Option<u64>>,
    ) -> (out: InstantVector)
        requires
            forall|samples: &Vec<(u64, u64)>|
                in_time_order(samples@) ==> #[trigger] value.requires((samples,)),
            forall|samples: &Vec<(u64, u64)>, r: Option<u64>|
                value.ensures((samples,), r) ==> r == rule(samples@),
        ensures
            out@ == measured(
                self@,
                matching_places(self@, selector@.matchers, self@.len()),
                rule,
            ),
    {
        proof {
            use_type_invariant(self);
        }
        let list: Vec<usize> = self.matching(selector);
        let ghost spots = numbers(list@);
        let mut samples: Vec<(Labels, u64)> = Vec::new();
        let mut k: usize = 0;
        assert(views(samples@) =~= measured(self@, spots.take(0), rule));
        while k < list.len()
            invariant
                k <= list@.len(),
                self.well_formed(),
                spots == numbers(list@),
                forall|k: int| 0 <= k < list@.len() ==> #[trigger] list@[k] < self.series@.len(),
                forall|samples: &Vec<(u64, u64)>|
                    in_time_order(samples@) ==> #[trigger] value.requires((samples,)),
                forall|samples: &Vec<(u64, u64)>, r: Option<u64>|
                    value.ensures((samples,), r) ==> r == rule(samples@),
                views(samples@) == measured(self@, spots.take(k as int), rule),
            decreases list@.len() - k,
        {
            let place: usize = list[k];
            proof {
                assert(list@[k as int] < self.series@.len());
                let next = spots.take(k as int + 1);
                assert(next.drop_last() =~= spots.take(k as int));
                assert(next.last() == place);
                assert(self@[place as int] == self.series@[place as int]@);
                assert(self.stripped@[place as int]@ == nameless(
                    self.series@[place as int].labels@,
                ));
            }
            let own: &Vec<(u64, u64)> = &self.series[place].samples;
            assert(value.requires((own,)));
            match value(own) {
                Some(v) => {
                    let ghost done = samples@;
                    samples.push((self.stripped[place].clone(), v));
                    proof {
                        lemma_views_push(done, samples@.last());
                    }
                },
                None => {},
            }
            k += 1;
        }
        assert(spots.take(k as int) =~= spots);
        InstantVector { samples }
    }

    /// The most recent sample of each matching series within the lookback window.
    fn instant(&self, selector: &Selector, at_nanos: u64) -> (out: InstantVector)
        ensures
            out@ == instant_of(self@, selector@, at_nanos),
    {
        let moment: u64 = evaluation_time(selector, at_nanos);
        let floor: u64 = moment.saturating_sub(DEFAULT_LOOKBACK);
        let value = |samples: &Vec<(u64, u64)>| -> (r: Option<u64>)
            ensures
                r == latest(samples@, floor, moment),
            { latest_value(samples, floor, moment) };
        let ghost rule = |samples: Seq<(u64, u64)>| latest(
            samples,
            minus(moment, DEFAULT_LOOKBACK),
            moment,
        );
        self.measure(selector, &value, Ghost(rule))
    }

    /// `rate` and `increase` over a range window, which is open at its start.
    fn rate<C: Fn(BinaryOp, u64, u64) -> u64>(
        &self,
        selector: &Selector,
        range: u64,
        at_nanos: u64,
        per_second: bool,
        calc: &C,
    ) -> (out: InstantVector)
        requires
            computes(calc),
        ensures
            out@ == rates_of(self@, selector@, range, at_nanos, per_second, results(calc)),
    {
        let ghost f = results(calc);
        let moment: u64 = evaluation_time(selector, at_nanos);
        let floor: u64 = moment.saturating_sub(range);
        let value = |samples: &Vec<(u64, u64)>| -> (r: Option<u64>)
            requires
                in_time_order(samples@),
            ensures
                r == rate_of(samples@, floor, moment, range, per_second, results(calc)),
            { rate_value(samples, floor, moment, range, per_second, calc) };
        let ghost rule = |samples: Seq<(u64, u64)>| rate_of(
            samples,
            minus(moment, range),
            moment,
            range,
            per_second,
            f,
        );
        self.measure(selector, &value, Ghost(rule))
    }

    /// One value per group of a vector.
    pub fn aggregate<C: Fn(BinaryOp, u64, u64) -> u64>(
        &self,
        op: AggregateOp,
        grouping: &Grouping,
        vector: &InstantVector,
        calc: &C,
    ) -> (out: InstantVector)
        requires
            computes(calc),
        ensures
            out@ == aggregated(op, grouping@, vector@, results(calc)),
    {
        aggregate(op, grouping, vector, calc)
    }
}

fn evaluation_time(selector: &Selector, at: u64) -> (moment: u64)
    ensures
        moment == shifted_time(selector@, at),
{
    match selector.offset {
        Some(offset) => at.saturating_sub(offset),
        None => at,
    }
}

// ---------------------------------------------------------------------------
// Evaluation
// ---------------------------------------------------------------------------

pub open spec fn no_range_vector(function: Function) -> Fault {
    refused(
        "`"@ + function.name() + "` needs a range vector, e.g. "@ + function.name()
            + "(metric[5m])"@,
    )
}

pub open spec fn no_range_selector(function: Function) -> Fault {
    refused("`"@ + function.name() + "` needs a range selector like `metric[5m]`"@)
}

pub open spec fn no_scalar_quantile() -> Fault {
    refused("histogram_quantile needs a scalar quantile as its first argument"@)
}

pub open spec fn no_scalar_bound(function: Function) -> Fault {
    refused("`"@ + function.name() + "` needs a scalar bound as its second argument"@)
}

pub open spec fn no_count(op: AggregateOp) -> Fault {
    refused(
        "`"@ + op.name() + "` needs a number as its first argument, like `"@ + op.name()
            + "(5, …)`"@,
    )
}

/// The value of a clamp.
pub open spec fn clamped(function: Function, value: u64, bound: u64) -> u64 {
    if function == Function::ClampMin {
        larger(value, bound)
    } else {
        smaller(value, bound)
    }
}

pub type Outcome = Result<EvaluatedView, Fault>;

/// A function call on its arguments, by what they evaluate to. The second argument of a
/// clamp and the first of a quantile come first.
pub open spec fn called(
    series: Seq<SeriesView>,
    function: Function,
    args: Seq<ExprView>,
    values: spec_fn(int) -> Outcome,
    at: u64,
    calc: Calc,
    read: Literals,
) -> Outcome {
    match function {
        Function::Rate | Function::Increase => match args[0] {
            ExprView::Selector(selector) => match selector.range {
                Some(range) => Ok(
                    Evaluated::Vector(
                        rates_of(series, selector, range, at, function == Function::Rate, calc),
                    ),
                ),
                None => Err(no_range_selector(function)),
            },
            _ => Err(no_range_vector(function)),
        },
        Function::HistogramQuantile => match values(0) {
            Err(fault) => Err(fault),
            Ok(Evaluated::Vector(_)) => Err(no_scalar_quantile()),
            Ok(Evaluated::Scalar(quantile)) => match values(1) {
                Err(fault) => Err(fault),
                Ok(value) => Ok(
                    Evaluated::Vector(
                        histogram_quantiles(quantile, vector_of(value), calc, read),
                    ),
                ),
            },
        },
        Function::ClampMin | Function::ClampMax => match values(1) {
            Err(fault) => Err(fault),
            Ok(Evaluated::Vector(_)) => Err(no_scalar_bound(function)),
            Ok(Evaluated::Scalar(bound)) => match values(0) {
                Err(fault) => Err(fault),
                Ok(value) => Ok(
                    Evaluated::Vector(
                        mapped(vector_of(value), |v: u64| clamped(function, v, bound)),
                    ),
                ),
            },
        },
        Function::Abs => match values(0) {
            Err(fault) => Err(fault),
            Ok(value) => Ok(Evaluated::Vector(mapped(vector_of(value), |v: u64| magnitude(v)))),
        },
    }
}

/// What an expression evaluates to at one instant.
pub open spec fn evaluated(
    series: Seq<SeriesView>,
    e: ExprView,
    at: u64,
    calc: Calc,
    read: Literals,
) -> Outcome
    decreases e,
{
    match e {
        ExprView::Number(text) => Ok(Evaluated::Scalar(read(text))),
        ExprView::Selector(selector) => Ok(Evaluated::Vector(instant_of(series, selector, at))),
        ExprView::Negate(inner) => match evaluated(series, *inner, at, calc, read) {
            Err(fault) => Err(fault),
            Ok(Evaluated::Scalar(value)) => Ok(Evaluated::Scalar(negated(value))),
            Ok(Evaluated::Vector(vector)) => Ok(
                Evaluated::Vector(mapped(vector, |v: u64| negated(v))),
            ),
        },
        ExprView::Call { function, args } => called(
            series,
            function,
            args,
            |i: int|
                if 0 <= i < args.len() {
                    evaluated(series, args[i], at, calc, read)
                } else {
                    arbitrary()
                },
            at,
            calc,
            read,
        ),
        ExprView::Aggregation { op, grouping, param, inner } => match evaluated(
            series,
            *inner,
            at,
            calc,
            read,
        ) {
            Err(fault) => Err(fault),
            Ok(value) => {
                let vector = vector_of(value);
                if op == AggregateOp::TopK || op == AggregateOp::BottomK {
                    match param {
                        None => Ok(Evaluated::Vector(elements(op, grouping, vector, 0))),
                        Some(k) => match evaluated(series, *k, at, calc, read) {
                            Err(fault) => Err(fault),
                            Ok(Evaluated::Vector(_)) => Err(no_count(op)),
                            Ok(Evaluated::Scalar(k)) => Ok(
                                Evaluated::Vector(elements(op, grouping, vector, k)),
                            ),
                        },
                    }
                } else {
                    Ok(Evaluated::Vector(aggregated(op, grouping, vector, calc)))
                }
            },
        },
        ExprView::Binary { op, left, right } => match evaluated(series, *left, at, calc, read) {
            Err(fault) => Err(fault),
            Ok(left) => match evaluated(series, *right, at, calc, read) {
                Err(fault) => Err(fault),
                Ok(right) => Ok(combined(op, left, right, calc)),
            },
        },
    }
}

/// An outcome as contracts speak of it.
pub open spec fn outcome_of(r: Result<Evaluated<InstantVector>, Error>) -> Outcome {
    match r {
        Ok(value) => Ok(value@),
        Err(error) => Err(error@),
    }
}

/// Refuses with a text in which a name stands once.
fn refuse_once(name: &str, rest: &str) -> (error: Error)
    ensures
        error@ == refused("`"@ + name@ + rest@),
{
    let mut message: String = "`".to_owned();
    message.append(name);
    message.append(rest);
    Failure::BadRequest(message)
}

/// Refuses with a text in which a name stands twice.
fn refuse_twice(name: &str, between: &str, rest: &str) -> (error: Error)
    ensures
        error@ == refused("`"@ + name@ + between@ + name@ + rest@),
{
    let mut message: String = "`".to_owned();
    message.append(name);
    message.append(between);
    message.append(name);
    message.append(rest);
    Failure::BadRequest(message)
}

impl Snapshot {
    /// Evaluates an expression at one instant.
    pub fn eval<C: Fn(BinaryOp, u64, u64) -> u64, P: Fn(&str) -> u64>(
        &self,
        expr: &Expr,
        at_nanos: u64,
        calc: &C,
        parse: &P,
    ) -> (r: Result<Evaluated<InstantVector>, Error>)
        requires
            arities_match(expr@),
            computes(calc),
            reads(parse),
        ensures
            outcome_of(r) == evaluated(self@, expr@, at_nanos, results(calc), literals(parse)),
        decreases expr, 1nat,
    {
        match expr {
            Expr::Number(text) => Ok(Evaluated::Scalar(literal(parse, text.as_str()))),
            Expr::Selector(selector) => Ok(Evaluated::Vector(self.instant(selector, at_nanos))),
            Expr::Negate(inner) => match self.eval(inner, at_nanos, calc, parse) {
                Err(error) => Err(error),
                Ok(Evaluated::Scalar(value)) => Ok(Evaluated::Scalar(negated(value))),
                Ok(Evaluated::Vector(vector)) => {
                    let change = |v: u64| -> (r: u64)
                        ensures
                            r == negated(v),
                        { negated(v) };
                    Ok(Evaluated::Vector(change_each(&vector, &change, Ghost(|v: u64| negated(v)))))
                },
            },
            Expr::Call { function, args } => {
                proof {
                    lemma_call_view(*function, *args);
                }
                self.eval_call(expr, *function, args, at_nanos, calc, parse)
            },
            Expr::Aggregation { op, grouping, param, inner } => {
                let vector: InstantVector = match self.eval(inner, at_nanos, calc, parse) {
                    Err(error) => {
                        return Err(error);
                    },
                    Ok(value) => value.into_vector(),
                };
                if !op.selects_elements() {
                    return Ok(Evaluated::Vector(self.aggregate(*op, grouping, &vector, calc)));
                }
                let k: u64 = match param {
                    None => 0,
                    Some(count) => match self.eval(count, at_nanos, calc, parse) {
                        Err(error) => {
                            return Err(error);
                        },
                        Ok(Evaluated::Scalar(k)) => k,
                        Ok(Evaluated::Vector(_)) => {
                            return Err(
                                refuse_twice(
                                    op.as_str(),
                                    "` needs a number as its first argument, like `",
                                    "(5, …)`",
                                ),
                            );
                        },
                    },
                };
                Ok(Evaluated::Vector(select_elements(*op, grouping, &vector, k)))
            },
            Expr::Binary { op, left, right } => {
                let left: Evaluated<InstantVector> = match self.eval(left, at_nanos, calc, parse) {
                    Err(error) => {
                        return Err(error);
                    },
                    Ok(value) => value,
                };
                let right: Evaluated<InstantVector> = match self.eval(
                    right,
                    at_nanos,
                    calc,
                    parse,
                ) {
                    Err(error) => {
                        return Err(error);
                    },
                    Ok(value) => value,
                };
                Ok(binary(*op, left, right, calc))
            },
        }
    }

    fn eval_call<C: Fn(BinaryOp, u64, u64) -> u64, P: Fn(&str) -> u64>(
        &self,
        call: &Expr,
        function: Function,
        args: &Vec<Expr>,
        at_nanos: u64,
        calc: &C,
        parse: &P,
    ) -> (r: Result<Evaluated<InstantVector>, Error>)
        requires
            *call == (Expr::Call { function, args: *args }),
            call@ == (ExprView::Call { function, args: views(args@) }),
            arities_match(call@),
            computes(calc),
            reads(parse),
        ensures
            outcome_of(r) == evaluated(self@, call@, at_nanos, results(calc), literals(parse)),
        decreases call, 0nat,
    {
        let ghost f = results(calc);
        let ghost g = literals(parse);
        proof {
            assert forall|i: int| 0 <= i < args@.len() implies arities_match(
                (#[trigger] args@[i])@,
            ) by {
                assert(views(args@)[i] == args@[i]@);
            }
        }
        match function {
            Function::Rate | Function::Increase => {
                assert(views(args@)[0] == args@[0]@);
                match &args[0] {
                    Expr::Selector(selector) => match selector.range {
                        Some(range) => Ok(
                            Evaluated::Vector(
                                self.rate(
                                    selector,
                                    range,
                                    at_nanos,
                                    function == Function::Rate,
                                    calc,
                                ),
                            ),
                        ),
                        None => Err(
                            refuse_once(
                                function.as_str(),
                                "` needs a range selector like `metric[5m]`",
                            ),
                        ),
                    },
                    _ => Err(
                        refuse_twice(
                            function.as_str(),
                            "` needs a range vector, e.g. ",
                            "(metric[5m])",
                        ),
                    ),
                }
            },
            Function::HistogramQuantile => {
                assert(views(args@)[0] == args@[0]@ && views(args@)[1] == args@[1]@);
                let quantile: u64 = match self.eval(&args[0], at_nanos, calc, parse) {
                    Err(error) => {
                        return Err(error);
                    },
                    Ok(Evaluated::Scalar(value)) => value,
                    Ok(Evaluated::Vector(_)) => {
                        return Err(
                            Failure::BadRequest(
                                "histogram_quantile needs a scalar quantile as its first argument".to_owned(),
                            ),
                        );
                    },
                };
                match self.eval(&args[1], at_nanos, calc, parse) {
                    Err(error) => Err(error),
                    Ok(value) => Ok(
                        Evaluated::Vector(
                            histogram_quantile(quantile, &value.into_vector(), calc, parse),
                        ),
                    ),
                }
            },
            Function::ClampMin | Function::ClampMax => {
                assert(views(args@)[0] == args@[0]@ && views(args@)[1] == args@[1]@);
                let bound: u64 = match self.eval(&args[1], at_nanos, calc, parse) {
                    Err(error) => {
                        return Err(error);
                    },
                    Ok(Evaluated::Scalar(value)) => value,
                    Ok(Evaluated::Vector(_)) => {
                        return Err(
                            refuse_once(
                                function.as_str(),
                                "` needs a scalar bound as its second argument",
                            ),
                        );
                    },
                };
                let vector: InstantVector = match self.eval(&args[0], at_nanos, calc, parse) {
                    Err(error) => {
                        return Err(error);
                    },
                    Ok(value) => value.into_vector(),
                };
                let change = |v: u64| -> (r: u64)
                    ensures
                        r == clamped(function, v, bound),
                    {
                        match function {
                            Function::ClampMin => larger(v, bound),
                            _ => smaller(v, bound),
                        }
                    };
                Ok(
                    Evaluated::Vector(
                        change_each(
                            &vector,
                            &change,
                            Ghost(|v: u64| clamped(function, v, bound)),
                        ),
                    ),
                )
            },
            Function::Abs => {
                assert(views(args@)[0] == args@[0]@);
                let vector: InstantVector = match self.eval(&args[0], at_nanos, calc, parse) {
                    Err(error) => {
                        return Err(error);
                    },
                    Ok(value) => value.into_vector(),
                };
                let change = |v: u64| -> (r: u64)
                    ensures
                        r == magnitude(v),
                    { magnitude(v) };
                Ok(
                    Evaluated::Vector(
                        change_each(&vector, &change, Ghost(|v: u64| magnitude(v))),
                    ),
                )
            },
        }
    }
}

// ---------------------------------------------------------------------------
// Loading
// ---------------------------------------------------------------------------

/// What to read for a query: the time range, the matchers that every selector has, and how
/// many samples to stop at. Zero reads them all.
#[derive(Debug)]
pub struct ReadPlan<'a> {
    pub from_nanos: u64,
    pub end_nanos: u64,
    pub matchers: Vec<&'a LabelMatcher>,
    pub ceiling: u64,
}

/// The matchers that may be common to all selectors: those of the first selector with a
/// single one, or else of the first with any.
pub open spec fn candidates(selectors: Seq<SelectorView>, i: int, seen: Seq<MatcherView>) -> Seq<
    MatcherView,
>
    decreases selectors.len() - i,
{
    if i < 0 || i >= selectors.len() {
        seen
    } else if selectors[i].matchers.len() == 1 {
        selectors[i].matchers
    } else if seen.len() == 0 {
        candidates(selectors, i + 1, selectors[i].matchers)
    } else {
        candidates(selectors, i + 1, seen)
    }
}

/// Whether every selector has a matcher.
pub open spec fn is_common(selectors: Seq<SelectorView>, matcher: MatcherView) -> bool {
    forall|i: int| 0 <= i < selectors.len() ==> (#[trigger] selectors[i]).matchers.contains(matcher)
}

/// Those of the matchers that every selector has.
pub open spec fn common(selectors: Seq<SelectorView>, matchers: Seq<MatcherView>) -> Seq<
    MatcherView,
>
    decreases matchers.len(),
{
    if matchers.len() == 0 {
        matchers
    } else if is_common(selectors, matchers.last()) {
        common(selectors, matchers.drop_last()).push(matchers.last())
    } else {
        common(selectors, matchers.drop_last())
    }
}

/// The matchers that can be applied to the read. Only those common to every selector are
/// safe.
pub open spec fn pushdown(selectors: Seq<SelectorView>) -> Seq<MatcherView> {
    common(selectors, candidates(selectors, 0, Seq::empty()))
}

/// One more than allowed, so that a full read is an overflow and not a query that fits
/// exactly.
pub open spec fn ceiling_of(max_samples: u64) -> u64 {
    if max_samples == 0 {
        0
    } else {
        saturated((max_samples + 1) as nat)
    }
}

fn has_matcher(matchers: &Vec<LabelMatcher>, matcher: &LabelMatcher) -> (r: bool)
    ensures
        r == views(matchers@).contains(matcher@),
{
    let mut i: usize = 0;
    while i < matchers.len()
        invariant
            i <= matchers@.len(),
            forall|j: int| 0 <= j < i ==> #[trigger] views(matchers@)[j] != matcher@,
        decreases matchers@.len() - i,
    {
        assert(views(matchers@)[i as int] == matchers@[i as int]@);
        if matchers[i].same_as(matcher) {
            return true;
        }
        i += 1;
    }
    false
}

fn in_every(selectors: &Vec<&Selector>, matcher: &LabelMatcher) -> (r: bool)
    ensures
        r == is_common(views(selectors@), matcher@),
{
    let mut i: usize = 0;
    while i < selectors.len()
        invariant
            i <= selectors@.len(),
            forall|j: int|
                0 <= j < i ==> (#[trigger] views(selectors@)[j]).matchers.contains(matcher@),
        decreases selectors@.len() - i,
    {
        assert(views(selectors@)[i as int] == selectors@[i as int]@);
        if !has_matcher(&selectors[i].matchers, matcher) {
            return false;
        }
        i += 1;
    }
    true
}

/// Plans the one read that covers every selector of an expression.
pub fn plan<'a>(expr: &'a Expr, start_nanos: u64, end_nanos: u64, max_samples: u64) -> (plan:
    ReadPlan<'a>)
    ensures
        plan.from_nanos == minus(start_nanos, saturated(widest_reach(selectors_of(expr@)))),
        plan.end_nanos == end_nanos,
        views(plan.matchers@) == pushdown(selectors_of(expr@)),
        plan.ceiling == ceiling_of(max_samples),
{
    let lookback: u128 = expr.required_lookback();
    let lookback: u64 = if lookback > u64::MAX as u128 {
        u64::MAX
    } else {
        lookback as u64
    };
    let selectors: Vec<&'a Selector> = expr.selectors();
    let ghost all = views(selectors@);
    let mut wanted: Option<&'a Selector> = None;
    let ghost mut seen: Seq<MatcherView> = Seq::empty();
    let ghost goal = candidates(all, 0, Seq::empty());
    let mut i: usize = 0;
    let mut single: bool = false;
    while i < selectors.len() && !single
        invariant
            i <= selectors@.len(),
            all == views(selectors@),
            seen == (match wanted {
                Some(selector) => selector@.matchers,
                None => Seq::empty(),
            }),
            single ==> goal == seen,
            !single ==> goal == candidates(all, i as int, seen),
        decreases selectors@.len() - i + (if single { 0int } else { 1 }),
    {
        let selector: &'a Selector = selectors[i];
        assert(all[i as int] == selector@);
        let fresh: bool = match wanted {
            Some(selector) => selector.matchers.len() == 0,
            None => true,
        };
        if selector.matchers.len() == 1 {
            single = true;
        }
        if single || fresh {
            wanted = Some(selector);
            proof {
                seen = selector@.matchers;
            }
        }
        i += 1;
    }
    let mut matchers: Vec<&'a LabelMatcher> = Vec::new();
    assert(views(matchers@) =~= Seq::empty());
    match wanted {
        Some(selector) => {
            let ghost own = selector@.matchers;
            let mut j: usize = 0;
            assert(own.take(0) =~= Seq::empty());
            while j < selector.matchers.len()
                invariant
                    j <= selector.matchers@.len(),
                    all == views(selectors@),
                    own == selector@.matchers,
                    views(matchers@) == common(all, own.take(j as int)),
                decreases selector.matchers@.len() - j,
            {
                let matcher: &'a LabelMatcher = &selector.matchers[j];
                proof {
                    let next = own.take(j as int + 1);
                    assert(next.drop_last() =~= own.take(j as int));
                    assert(next.last() == matcher@);
                }
                if in_every(&selectors, matcher) {
                    proof {
                        lemma_views_push(matchers@, matcher);
                    }
                    matchers.push(matcher);
                }
                j += 1;
            }
            assert(own.take(j as int) =~= own);
        },
        None => {},
    }
    let ceiling: u64 = if max_samples == 0 {
        0
    } else if max_samples == u64::MAX {
        u64::MAX
    } else {
        max_samples + 1
    };
    ReadPlan { from_nanos: start_nanos.saturating_sub(lookback), end_nanos, matchers, ceiling }
}

/// The refusal of a query that reads too much.
pub open spec fn too_many_samples(max_samples: u64) -> Fault {
    refused(
        "this query would load more than "@ + decimal(max_samples as nat)
            + " samples into memory at once. PromQL is evaluated from a single read of the whole window, so the cost is every sample of every matching series — narrow the time range, add label matchers, or raise limits.max_query_samples"@,
    )
}

impl Snapshot {
    /// Builds series from what was read for an expression, unless that is more than
    /// allowed. Zero allows any number.
    pub fn load(samples: &Vec<MetricSample>, expr: &Expr, max_samples: u64) -> (r: Result<
        Snapshot,
        Error,
    >)
        ensures
            match r {
                Ok(snapshot) => snapshot@ == series_of(views(samples@)) && (max_samples == 0
                    || samples@.len() <= max_samples),
                Err(error) => error@ == too_many_samples(max_samples) && max_samples != 0
                    && samples@.len() > max_samples,
            },
    {
        if max_samples != 0 && samples.len() as u64 > max_samples {
            let mut message: String = "this query would load more than ".to_owned();
            message.append(decimal_text(max_samples).as_str());
            message.append(
                " samples into memory at once. PromQL is evaluated from a single read of the whole window, so the cost is every sample of every matching series — narrow the time range, add label matchers, or raise limits.max_query_samples",
            );
            return Err(Failure::BadRequest(message));
        }
        let loaded: Snapshot = Snapshot::from_samples(samples);
        Ok(loaded.resolved_for(expr))
    }

    /// The same series, with what the expression's selectors match worked out.
    fn resolved_for(self, expr: &Expr) -> (snapshot: Snapshot)
        ensures
            snapshot@ == self@,
    {
        proof {
            use_type_invariant(&self);
        }
        let Snapshot { series, stripped, resolved: _ } = self;
        let resolved: Vec<Resolved> = resolve(&series, &expr.selectors());
        Snapshot { series, stripped, resolved }
    }
}

// ---------------------------------------------------------------------------
// Laws
// ---------------------------------------------------------------------------

pub proof fn lemma_projected(labels: Seq<Pair>, names: Seq<Seq<char>>)
    ensures
        sorted(projected(labels, names)),
        forall|name: Seq<char>| #[trigger]
            lookup(projected(labels, names), name) == (if names.contains(name) {
                lookup(labels, name)
            } else {
                None
            }),
    decreases names.len(),
{
    let all = projected(labels, names);
    if names.len() > 0 {
        let front = names.drop_last();
        let last = names.last();
        let rest = projected(labels, front);
        lemma_projected(labels, front);
        match lookup(labels, last) {
            Some(value) => {
                law_insert_keeps_order(rest, last, value);
            },
            None => {},
        }
        assert forall|name: Seq<char>| #[trigger] lookup(all, name) == (if names.contains(name) {
            lookup(labels, name)
        } else {
            None
        }) by {
            match lookup(labels, last) {
                Some(value) => {
                    law_insert_then_get(rest, last, value, name);
                },
                None => {},
            }
            assert(names[names.len() - 1] == last);
            if name != last {
                if names.contains(name) {
                    let i = choose|i: int| 0 <= i < names.len() && names[i] == name;
                    assert(front[i] == name);
                } else if front.contains(name) {
                    let i = choose|i: int| 0 <= i < front.len() && front[i] == name;
                    assert(names[i] == name);
                }
            }
            assert(lookup(rest, name) == (if front.contains(name) {
                lookup(labels, name)
            } else {
                None
            }));
        }
    }
}

/// Labels belong to a group exactly where their own key is the group's.
pub proof fn law_belonging_is_having_the_key(
    labels: Seq<Pair>,
    other: Seq<Pair>,
    grouping: GroupingView,
)
    requires
        sorted(labels),
        sorted(other),
    ensures
        belongs(labels, key_of(other, grouping), grouping) == (key_of(labels, grouping) == key_of(
            other,
            grouping,
        )),
{
    let key = key_of(other, grouping);
    match grouping {
        GroupingView::All => {},
        GroupingView::By(names) => {
            let own = projected(labels, names);
            lemma_projected(labels, names);
            lemma_projected(other, names);
            if belongs(labels, key, grouping) {
                assert forall|name: Seq<char>| #[trigger] lookup(own, name) == lookup(key, name) by {
                    if names.contains(name) {
                        let i = choose|i: int| 0 <= i < names.len() && names[i] == name;
                        assert(lookup(labels, names[i]) == lookup(key, names[i]));
                    }
                }
                law_labels_are_what_they_read(own, key);
            }
            if own == key {
                assert forall|i: int| 0 <= i < names.len() implies lookup(
                    labels,
                    #[trigger] names[i],
                ) == lookup(key, names[i]) by {
                    assert(names.contains(names[i]));
                    assert(lookup(own, names[i]) == lookup(labels, names[i]));
                }
            }
        },
        GroupingView::Without(names) => {
            let own = kept(labels, names);
            law_kept_labels(labels, names);
            law_kept_labels(other, names);
            if belongs(labels, key, grouping) {
                assert forall|i: int| 0 <= i < own.len() implies key.contains(#[trigger] own[i]) by {
                    lemma_lookup_is_a_pair(key, own[i].0, own[i].1);
                    assert(own[i] == (own[i].0, own[i].1));
                }
                lemma_sublabels(own, key);
            }
            if own == key {
                assert forall|i: int| 0 <= i < own.len() implies lookup(key, (#[trigger] own[i]).0)
                    == Some(own[i].1) by {
                    lemma_lookup_is_a_pair(key, own[i].0, own[i].1);
                    assert(own[i] == (own[i].0, own[i].1));
                    assert(key.contains((own[i].0, own[i].1)));
                }
            }
        },
    }
}

/// The order of the names under `by` does not change a group, nor does a name that stands
/// twice.
pub proof fn law_the_order_of_names_does_not_matter(
    labels: Seq<Pair>,
    names: Seq<Seq<char>>,
    others: Seq<Seq<char>>,
)
    requires
        forall|name: Seq<char>| #[trigger] names.contains(name) == others.contains(name),
    ensures
        key_of(labels, GroupingView::By(names)) == key_of(labels, GroupingView::By(others)),
{
    let a = projected(labels, names);
    let b = projected(labels, others);
    lemma_projected(labels, names);
    lemma_projected(labels, others);
    assert forall|name: Seq<char>| #[trigger] lookup(a, name) == lookup(b, name) by {
        assert(names.contains(name) == others.contains(name));
        assert(lookup(b, name) == (if others.contains(name) {
            lookup(labels, name)
        } else {
            None
        }));
    }
    law_labels_are_what_they_read(a, b);
}

/// An aggregation answers in the order of label sets, each of them once, and no sample's
/// group is missing.
pub proof fn law_every_group_is_answered_once(
    op: AggregateOp,
    grouping: GroupingView,
    vector: Seq<Sampled>,
    calc: Calc,
)
    ensures
        forall|a: int, b: int|
            0 <= a < b < aggregated(op, grouping, vector, calc).len() ==> labels_before(
                (#[trigger] aggregated(op, grouping, vector, calc)[a]).0,
                (#[trigger] aggregated(op, grouping, vector, calc)[b]).0,
            ),
        forall|i: int|
            0 <= i < vector.len() ==> exists|g: int|
                0 <= g < aggregated(op, grouping, vector, calc).len() && (#[trigger] aggregated(
                    op,
                    grouping,
                    vector,
                    calc,
                )[g]).0 == key_of((#[trigger] vector[i]).0, grouping),
{
    let keys = keys_of(vector, grouping);
    let out = aggregated(op, grouping, vector, calc);
    let groups = sorted_groups(keys);
    law_sorted_groups(keys);
    assert forall|a: int, b: int| 0 <= a < b < out.len() implies labels_before(
        (#[trigger] out[a]).0,
        (#[trigger] out[b]).0,
    ) by {
        assert(out[a].0 == keys[groups[a][0]]);
        assert(out[b].0 == keys[groups[b][0]]);
    }
    assert forall|i: int| 0 <= i < vector.len() implies exists|g: int|
        0 <= g < out.len() && (#[trigger] out[g]).0 == key_of((#[trigger] vector[i]).0, grouping) by {
        assert(keys[i] == key_of(vector[i].0, grouping));
        let g = choose|g: int|
            0 <= g < groups.len() && keys[(#[trigger] groups[g])[0]] == keys[i]
                && groups[g].contains(i);
        assert(out[g].0 == keys[groups[g][0]]);
    }
}

proof fn lemma_quantiles(
    quantile: u64,
    buckets: Seq<Bucketed>,
    groups: Seq<Seq<int>>,
    n: nat,
    calc: Calc,
)
    requires
        n <= groups.len(),
        forall|a: int, b: int|
            0 <= a < b < groups.len() ==> labels_before(
                buckets[(#[trigger] groups[a])[0]].0,
                buckets[(#[trigger] groups[b])[0]].0,
            ),
    ensures
        forall|i: int|
            0 <= i < quantiles_of(quantile, buckets, groups, n, calc).len() ==> exists|g: int|
                0 <= g < n && (#[trigger] quantiles_of(quantile, buckets, groups, n, calc)[i]).0
                    == buckets[(#[trigger] groups[g])[0]].0,
        forall|i: int, j: int|
            0 <= i < j < quantiles_of(quantile, buckets, groups, n, calc).len() ==> labels_before(
                (#[trigger] quantiles_of(quantile, buckets, groups, n, calc)[i]).0,
                (#[trigger] quantiles_of(quantile, buckets, groups, n, calc)[j]).0,
            ),
    decreases n,
{
    if n > 0 {
        let rest = quantiles_of(quantile, buckets, groups, (n - 1) as nat, calc);
        let out = quantiles_of(quantile, buckets, groups, n, calc);
        let last = groups[n - 1];
        lemma_quantiles(quantile, buckets, groups, (n - 1) as nat, calc);
        assert forall|i: int| 0 <= i < out.len() implies exists|g: int|
            0 <= g < n && (#[trigger] out[i]).0 == buckets[(#[trigger] groups[g])[0]].0 by {
            if i < rest.len() {
                assert(out[i] == rest[i]);
            } else {
                assert(out[i].0 == buckets[groups[n - 1][0]].0);
            }
        }
        assert forall|i: int, j: int| 0 <= i < j < out.len() implies labels_before(
            (#[trigger] out[i]).0,
            (#[trigger] out[j]).0,
        ) by {
            assert(out[i] == rest[i]);
            if j < rest.len() {
                assert(out[j] == rest[j]);
            } else {
                let g = choose|g: int|
                    0 <= g < n - 1 && rest[i].0 == buckets[(#[trigger] groups[g])[0]].0;
                assert(out[j].0 == buckets[last[0]].0);
            }
        }
    }
}

/// A quantile, whether between zero and one or not, has one value per label set.
pub proof fn law_one_quantile_per_series(
    quantile: u64,
    vector: Seq<Sampled>,
    calc: Calc,
    read: Literals,
)
    ensures
        forall|i: int, j: int|
            0 <= i < j < histogram_quantiles(quantile, vector, calc, read).len() ==> labels_before(
                (#[trigger] histogram_quantiles(quantile, vector, calc, read)[i]).0,
                (#[trigger] histogram_quantiles(quantile, vector, calc, read)[j]).0,
            ),
{
    law_sorted_groups(boundless_keys(vector));
    let buckets = buckets_of(vector, read);
    let keys = histogram_keys(buckets);
    let groups = sorted_groups(keys);
    law_sorted_groups(keys);
    lemma_sorted_groups(keys);
    assert forall|a: int, b: int| 0 <= a < b < groups.len() implies labels_before(
        buckets[(#[trigger] groups[a])[0]].0,
        buckets[(#[trigger] groups[b])[0]].0,
    ) by {
        assert(keys[groups[a][0]] == buckets[groups[a][0]].0);
        assert(keys[groups[b][0]] == buckets[groups[b][0]].0);
    }
    lemma_quantiles(quantile, buckets, groups, groups.len(), calc);
}

/// In a union the left side wins and the right fills the gaps.
pub proof fn law_union_prefers_the_left(left: Seq<Sampled>, right: Seq<Sampled>, labels: Seq<Pair>)
    ensures
        value_for(union(left, right), labels) == (match value_for(left, labels) {
            Some(value) => Some(value),
            None => value_for(right, labels),
        }),
    decreases right.len(),
{
    if right.len() > 0 {
        let front = right.drop_last();
        let rest = union(left, front);
        law_union_prefers_the_left(left, front, labels);
        law_union_prefers_the_left(left, front, right.last().0);
        lemma_value_for_push(front, right.last(), labels);
        assert(front.push(right.last()) =~= right);
        lemma_value_for_push(rest, right.last(), labels);
    }
}

proof fn lemma_value_for_push(vector: Seq<Sampled>, sample: Sampled, labels: Seq<Pair>)
    ensures
        value_for(vector.push(sample), labels) == (match value_for(vector, labels) {
            Some(value) => Some(value),
            None => if sample.0 == labels {
                Some(sample.1)
            } else {
                None
            },
        }),
    decreases vector.len(),
{
    let all = vector.push(sample);
    if vector.len() == 0 {
        assert(all.drop_first() =~= Seq::empty());
        assert(all[0] == sample);
        assert(value_for(all.drop_first(), labels) is None);
    } else {
        assert(all[0] == vector[0]);
        assert(all.drop_first() =~= vector.drop_first().push(sample));
        lemma_value_for_push(vector.drop_first(), sample, labels);
    }
}

/// A matcher that is applied to the read is one of every selector's own, so no series that
/// a selector accepts is left unread.
pub proof fn law_the_read_covers_every_selector(
    selectors: Seq<SelectorView>,
    i: int,
    labels: Seq<Pair>,
)
    requires
        0 <= i < selectors.len(),
        all_match(selectors[i].matchers, labels),
    ensures
        all_match(pushdown(selectors), labels),
{
    lemma_common(selectors, candidates(selectors, 0, Seq::empty()), i, labels);
}

proof fn lemma_common(
    selectors: Seq<SelectorView>,
    matchers: Seq<MatcherView>,
    i: int,
    labels: Seq<Pair>,
)
    requires
        0 <= i < selectors.len(),
        all_match(selectors[i].matchers, labels),
    ensures
        all_match(common(selectors, matchers), labels),
    decreases matchers.len(),
{
    if matchers.len() > 0 {
        lemma_common(selectors, matchers.drop_last(), i, labels);
        if is_common(selectors, matchers.last()) {
            let own = selectors[i].matchers;
            assert(own.contains(matchers.last()));
            let k = choose|k: int| 0 <= k < own.len() && own[k] == matchers.last();
            assert(own[k].matches(labels));
            let all = common(selectors, matchers);
            let rest = common(selectors, matchers.drop_last());
            assert forall|j: int| 0 <= j < all.len() implies #[trigger] all[j].matches(labels) by {
                if j < rest.len() {
                    assert(all[j] == rest[j]);
                }
            }
        }
    }
}

/// What `topk` and `bottomk` keep is a part of the vector, and holds only numbers.
pub proof fn law_kept_elements_are_elements(
    op: AggregateOp,
    grouping: GroupingView,
    vector: Seq<Sampled>,
    k: u64,
)
    ensures
        forall|i: int|
            0 <= i < elements(op, grouping, vector, k).len() ==> vector.contains(
                #[trigger] elements(op, grouping, vector, k)[i],
            ) && !is_nan(elements(op, grouping, vector, k)[i].1),
{
    let out = elements(op, grouping, vector, k);
    if !(is_nan(k) || is_infinite(k) || less(k, ONE)) {
        let all = numeric(vector);
        let keys = keys_of(all, grouping);
        let groups = grouped(keys, all.len());
        lemma_grouped(keys, all.len());
        let best = best_of_each(op, all, groups, whole_part(k), groups.len());
        lemma_best(op, all, groups, keys, whole_part(k), groups.len());
        lemma_ranked(op, best);
        lemma_numeric(vector);
        assert forall|i: int| 0 <= i < out.len() implies vector.contains(#[trigger] out[i])
            && !is_nan(out[i].1) by {
            assert(best.contains(out[i]));
            let j = choose|j: int| 0 <= j < best.len() && best[j] == out[i];
            assert(all.contains(best[j]));
            let a = choose|a: int| 0 <= a < all.len() && all[a] == best[j];
            assert(vector.contains(all[a]) && !is_nan(all[a].1));
        }
    }
}

proof fn lemma_numeric(vector: Seq<Sampled>)
    ensures
        forall|i: int|
            0 <= i < numeric(vector).len() ==> vector.contains(#[trigger] numeric(vector)[i])
                && !is_nan(numeric(vector)[i].1),
    decreases vector.len(),
{
    if vector.len() > 0 {
        let front = vector.drop_last();
        lemma_numeric(front);
        let rest = numeric(front);
        let all = numeric(vector);
        assert forall|i: int| 0 <= i < all.len() implies vector.contains(#[trigger] all[i])
            && !is_nan(all[i].1) by {
            if i < rest.len() {
                assert(all[i] == rest[i]);
                assert(front.contains(rest[i]));
                let k = choose|k: int| 0 <= k < front.len() && front[k] == rest[i];
                assert(vector[k] == rest[i]);
            } else {
                assert(vector[vector.len() - 1] == all[i]);
            }
        }
    }
}

proof fn lemma_ranked(op: AggregateOp, vector: Seq<Sampled>)
    ensures
        forall|i: int|
            0 <= i < ranked(op, vector).len() ==> vector.contains(#[trigger] ranked(op, vector)[i]),
{
    let earlier = |a: int, b: int| ahead(op, vector[a], vector[b]);
    lemma_ordered_places(vector.len(), earlier);
    let list = ordered(vector.len(), earlier);
    let out = ranked(op, vector);
    assert forall|i: int| 0 <= i < out.len() implies vector.contains(#[trigger] out[i]) by {
        assert(0 <= list[i] < vector.len());
        assert(out[i] == vector[list[i]]);
    }
}

proof fn lemma_best(
    op: AggregateOp,
    vector: Seq<Sampled>,
    groups: Seq<Seq<int>>,
    keys: Seq<Seq<Pair>>,
    keep: nat,
    n: nat,
)
    requires
        n <= groups.len(),
        sound_groups(groups, keys, vector.len() as int),
    ensures
        forall|i: int|
            0 <= i < best_of_each(op, vector, groups, keep, n).len() ==> vector.contains(
                #[trigger] best_of_each(op, vector, groups, keep, n)[i],
            ),
    decreases n,
{
    if n > 0 {
        lemma_best(op, vector, groups, keys, keep, (n - 1) as nat);
        let rest = best_of_each(op, vector, groups, keep, (n - 1) as nat);
        let all = best_of_each(op, vector, groups, keep, n);
        let group = groups[n - 1];
        let own = chosen(vector, group);
        lemma_ranked(op, own);
        assert(group.len() > 0);
        assert forall|i: int| 0 <= i < all.len() implies vector.contains(#[trigger] all[i]) by {
            if i < rest.len() {
                assert(all[i] == rest[i]);
            } else {
                let sorted = ranked(op, own);
                assert(all[i] == sorted[i - rest.len()]);
                let k = choose|k: int| 0 <= k < own.len() && own[k] == sorted[i - rest.len()];
                assert(0 <= group[k] < vector.len());
                assert(vector[group[k]] == all[i]);
            }
        }
    }
}

/// Numbers are ranked: none stands behind one that it ranks before, so what `topk` and
/// `bottomk` cut off a group is never better than what they keep of it.
pub proof fn law_ranking_puts_the_best_first(op: AggregateOp, vector: Seq<Sampled>)
    requires
        forall|i: int| 0 <= i < vector.len() ==> !is_nan((#[trigger] vector[i]).1),
    ensures
        forall|a: int, b: int|
            0 <= a < b < ranked(op, vector).len() ==> !ahead(
                op,
                #[trigger] ranked(op, vector)[b],
                #[trigger] ranked(op, vector)[a],
            ),
{
    let n = vector.len();
    let zero: Sampled = (Seq::empty(), 0);
    let item = |i: int|
        if 0 <= i < n {
            vector[i]
        } else {
            zero
        };
    let inside = |a: int, b: int| ahead(op, vector[a], vector[b]);
    let earlier = |a: int, b: int| ahead(op, item(a), item(b));
    assert forall|i: int, j: int, k: int|
        !(#[trigger] earlier(j, i)) && !(#[trigger] earlier(k, j)) implies !earlier(k, i) by {
        let (a, b, c) = (item(i), item(j), item(k));
        assert(!is_nan(a.1) && !is_nan(b.1) && !is_nan(c.1));
        law_labels_order_total(a.0, b.0);
        law_labels_order_total(b.0, c.0);
        law_labels_order_total(a.0, c.0);
        if labels_before(a.0, b.0) && labels_before(b.0, c.0) {
            law_labels_order_transitive(a.0, b.0, c.0);
        }
    }
    assert forall|i: int, j: int| #[trigger] earlier(i, j) implies !earlier(j, i) by {
        law_labels_order_total(item(i).0, item(j).0);
    }
    law_ordering_orders(n, earlier);
    lemma_same_order(n, inside, earlier);
    lemma_ordered_places(n, inside);
    let list = ordered(n, inside);
    let out = ranked(op, vector);
    assert forall|a: int, b: int| 0 <= a < b < out.len() implies !ahead(
        op,
        #[trigger] out[b],
        #[trigger] out[a],
    ) by {
        assert(0 <= list[a] < n && 0 <= list[b] < n);
        assert(!earlier(list[b], list[a]));
        assert(out[a] == vector[list[a]] && out[b] == vector[list[b]]);
    }
}

/// Whether the first sample of a vector with these labels is the one at `i`.
pub open spec fn is_first_of(vector: Seq<Sampled>, labels: Seq<Pair>, i: int) -> bool {
    &&& 0 <= i < vector.len()
    &&& vector[i].0 == labels
    &&& forall|k: int| 0 <= k < i ==> (#[trigger] vector[k]).0 != labels
}

/// The value for a label set is that of the first sample with it, and there is none where no
/// sample has it.
pub proof fn law_a_value_is_looked_up_by_labels(vector: Seq<Sampled>, labels: Seq<Pair>)
    ensures
        match value_for(vector, labels) {
            Some(value) => exists|i: int| #[trigger]
                is_first_of(vector, labels, i) && vector[i].1 == value,
            None => forall|i: int| 0 <= i < vector.len() ==> (#[trigger] vector[i]).0 != labels,
        },
    decreases vector.len(),
{
    if vector.len() > 0 {
        if vector[0].0 == labels {
            assert(is_first_of(vector, labels, 0));
        } else {
            let rest = vector.drop_first();
            law_a_value_is_looked_up_by_labels(rest, labels);
            match value_for(rest, labels) {
                Some(value) => {
                    let i = choose|i: int| #[trigger]
                        is_first_of(rest, labels, i) && rest[i].1 == value;
                    assert(vector[i + 1] == rest[i]);
                    assert forall|k: int| 0 <= k < i + 1 implies (#[trigger] vector[k]).0
                        != labels by {
                        if k > 0 {
                            assert(rest[k - 1] == vector[k]);
                        }
                    }
                    assert(is_first_of(vector, labels, i + 1));
                },
                None => {
                    assert forall|k: int| 0 <= k < vector.len() implies (#[trigger] vector[k]).0
                        != labels by {
                        if k > 0 {
                            assert(rest[k - 1] == vector[k]);
                        }
                    }
                },
            }
        }
    }
}

proof fn lemma_first_is_the_value(vector: Seq<Sampled>, labels: Seq<Pair>, i: int)
    requires
        is_first_of(vector, labels, i),
    ensures
        value_for(vector, labels) == Some(vector[i].1),
{
    law_a_value_is_looked_up_by_labels(vector, labels);
    match value_for(vector, labels) {
        Some(value) => {
            let j = choose|j: int| #[trigger]
                is_first_of(vector, labels, j) && vector[j].1 == value;
            if j < i {
                assert(vector[j].0 != labels);
            }
            if i < j {
                assert(vector[i].0 != labels);
            }
        },
        None => {
            assert(vector[i].0 != labels);
        },
    }
}

/// Whether a sample is what an operation gives of the left sample at `i` and the first one on
/// the right with its labels, at `j`.
pub open spec fn is_join(
    op: BinaryOp,
    left: Seq<Sampled>,
    right: Seq<Sampled>,
    calc: Calc,
    sample: Sampled,
    i: int,
    j: int,
) -> bool {
    &&& 0 <= i < left.len()
    &&& left[i].0 == sample.0
    &&& is_first_of(right, sample.0, j)
    &&& sample.1 == calc(op, left[i].1, right[j].1)
}

/// Whether a sample is what an operation gives of two samples with its labels.
pub open spec fn is_joined(
    op: BinaryOp,
    left: Seq<Sampled>,
    right: Seq<Sampled>,
    calc: Calc,
    sample: Sampled,
) -> bool {
    exists|i: int, j: int| is_join(op, left, right, calc, sample, i, j)
}

proof fn lemma_joins_come_from_both(
    op: BinaryOp,
    left: Seq<Sampled>,
    right: Seq<Sampled>,
    calc: Calc,
    k: int,
) -> (at: (int, int))
    requires
        op != BinaryOp::Or,
        0 <= k < joined(op, left, right, calc).len(),
    ensures
        is_join(op, left, right, calc, joined(op, left, right, calc)[k], at.0, at.1),
    decreases left.len(),
{
    let front = left.drop_last();
    let last = left.last();
    let rest = joined(op, front, right, calc);
    if k < rest.len() {
        let (i, j) = lemma_joins_come_from_both(op, front, right, calc, k);
        assert(left[i] == front[i]);
        (i, j)
    } else {
        law_a_value_is_looked_up_by_labels(right, last.0);
        let other = value_for(right, last.0)->Some_0;
        let j = choose|j: int| #[trigger] is_first_of(right, last.0, j) && right[j].1 == other;
        assert(left[left.len() - 1] == last);
        (left.len() - 1, j)
    }
}

proof fn lemma_shared_labels_join(
    op: BinaryOp,
    left: Seq<Sampled>,
    right: Seq<Sampled>,
    calc: Calc,
    i: int,
    j: int,
) -> (k: int)
    requires
        op != BinaryOp::Or,
        0 <= i < left.len(),
        is_first_of(right, left[i].0, j),
    ensures
        0 <= k < joined(op, left, right, calc).len(),
        joined(op, left, right, calc)[k] == (left[i].0, calc(op, left[i].1, right[j].1)),
    decreases left.len(),
{
    let front = left.drop_last();
    if i < front.len() {
        assert(front[i] == left[i]);
        lemma_shared_labels_join(op, front, right, calc, i, j)
    } else {
        lemma_first_is_the_value(right, left[i].0, j);
        joined(op, left, right, calc).len() - 1
    }
}

/// An operator between two vectors, other than `or`: what it gives comes from one sample on
/// the left and the first one on the right with the same labels, and is what the arithmetic
/// gives for that very operator on the left value and the right one. Every left sample whose
/// labels are on the right is in it.
pub proof fn law_vectors_join_where_labels_agree(
    op: BinaryOp,
    left: Seq<Sampled>,
    right: Seq<Sampled>,
    calc: Calc,
)
    requires
        op != BinaryOp::Or,
    ensures
        match combined(op, Evaluated::Vector(left), Evaluated::Vector(right), calc) {
            Evaluated::Vector(out) => {
                &&& forall|k: int|
                    0 <= k < out.len() ==> is_joined(op, left, right, calc, #[trigger] out[k])
                &&& forall|i: int, j: int|
                    0 <= i < left.len() && #[trigger] is_first_of(right, left[i].0, j)
                        ==> out.contains((left[i].0, calc(op, left[i].1, right[j].1)))
            },
            Evaluated::Scalar(_) => false,
        },
{
    let out = joined(op, left, right, calc);
    assert(combined(op, Evaluated::Vector(left), Evaluated::Vector(right), calc)
        == Evaluated::Vector(out));
    assert forall|k: int| 0 <= k < out.len() implies is_joined(
        op,
        left,
        right,
        calc,
        #[trigger] out[k],
    ) by {
        let (i, j) = lemma_joins_come_from_both(op, left, right, calc, k);
        assert(is_join(op, left, right, calc, out[k], i, j));
    }
    assert forall|i: int, j: int|
        0 <= i < left.len() && #[trigger] is_first_of(right, left[i].0, j) implies out.contains(
        (left[i].0, calc(op, left[i].1, right[j].1)),
    ) by {
        let k = lemma_shared_labels_join(op, left, right, calc, i, j);
        assert(out[k] == (left[i].0, calc(op, left[i].1, right[j].1)));
    }
}

/// An operator between two vectors, other than `or`, gives each label set that both hold the
/// value that the same operator gives of the two numbers, and no other label set any.
pub proof fn law_vectors_compute_as_scalars(
    op: BinaryOp,
    left: Seq<Sampled>,
    right: Seq<Sampled>,
    labels: Seq<Pair>,
    calc: Calc,
)
    requires
        op != BinaryOp::Or,
    ensures
        match combined(op, Evaluated::Vector(left), Evaluated::Vector(right), calc) {
            Evaluated::Vector(out) => match (value_for(left, labels), value_for(right, labels)) {
                (Some(a), Some(b)) => match value_for(out, labels) {
                    Some(value) => combined(op, Evaluated::Scalar(a), Evaluated::Scalar(b), calc)
                        == Evaluated::<Seq<Sampled>>::Scalar(value),
                    None => false,
                },
                _ => value_for(out, labels) is None,
            },
            Evaluated::Scalar(_) => false,
        },
    decreases left.len(),
{
    if left.len() > 0 {
        let front = left.drop_last();
        let last = left.last();
        let rest = joined(op, front, right, calc);
        law_vectors_compute_as_scalars(op, front, right, labels, calc);
        assert(front.push(last) =~= left);
        lemma_value_for_push(front, last, labels);
        if let Some(other) = value_for(right, last.0) {
            lemma_value_for_push(rest, (last.0, applied(op, last.1, other, calc)), labels);
        }
    }
}

/// Two numbers are combined by the operator that stands between them, the left one first; a
/// number and a vector sample by sample, each label set as it was. `or` of numbers is the left.
pub proof fn law_numbers_combine_in_order(
    op: BinaryOp,
    a: u64,
    b: u64,
    vector: Seq<Sampled>,
    calc: Calc,
)
    requires
        op != BinaryOp::Or,
    ensures
        combined(op, Evaluated::Scalar(a), Evaluated::Scalar(b), calc) == Evaluated::<
            Seq<Sampled>,
        >::Scalar(calc(op, a, b)),
        match combined(op, Evaluated::Vector(vector), Evaluated::Scalar(b), calc) {
            Evaluated::Vector(out) => out.len() == vector.len() && forall|i: int|
                0 <= i < out.len() ==> #[trigger] out[i] == (
                    vector[i].0,
                    calc(op, vector[i].1, b),
                ),
            Evaluated::Scalar(_) => false,
        },
        match combined(op, Evaluated::Scalar(a), Evaluated::Vector(vector), calc) {
            Evaluated::Vector(out) => out.len() == vector.len() && forall|i: int|
                0 <= i < out.len() ==> #[trigger] out[i] == (
                    vector[i].0,
                    calc(op, a, vector[i].1),
                ),
            Evaluated::Scalar(_) => false,
        },
{
}

/// Whether a value ranks no worse than another for an operator: `topk` wants the greatest and
/// `bottomk` the least.
pub open spec fn is_no_worse(op: AggregateOp, value: u64, other: u64) -> bool {
    if op == AggregateOp::TopK {
        !less(value, other)
    } else {
        !less(other, value)
    }
}

/// Of the elements that `topk` keeps, none is less than one behind it, and of those that
/// `bottomk` keeps none is greater; those of one value stand by their labels.
pub proof fn law_the_best_elements_come_first(
    op: AggregateOp,
    grouping: GroupingView,
    vector: Seq<Sampled>,
    k: u64,
)
    requires
        op == AggregateOp::TopK || op == AggregateOp::BottomK,
    ensures
        forall|a: int, b: int|
            0 <= a < b < elements(op, grouping, vector, k).len() ==> is_no_worse(
                op,
                (#[trigger] elements(op, grouping, vector, k)[a]).1,
                (#[trigger] elements(op, grouping, vector, k)[b]).1,
            ) && (elements(op, grouping, vector, k)[a].1 == elements(op, grouping, vector, k)[b].1
                ==> !labels_before(
                elements(op, grouping, vector, k)[b].0,
                elements(op, grouping, vector, k)[a].0,
            )),
{
    if !(is_nan(k) || is_infinite(k) || less(k, ONE)) {
        let all = numeric(vector);
        let keys = keys_of(all, grouping);
        let groups = grouped(keys, all.len());
        lemma_grouped(keys, all.len());
        let best = best_of_each(op, all, groups, whole_part(k), groups.len());
        lemma_best(op, all, groups, keys, whole_part(k), groups.len());
        lemma_numeric(vector);
        assert forall|i: int| 0 <= i < best.len() implies !is_nan((#[trigger] best[i]).1) by {
            assert(all.contains(best[i]));
            let a = choose|a: int| 0 <= a < all.len() && all[a] == best[i];
            assert(!is_nan(all[a].1));
        }
        law_ranking_puts_the_best_first(op, best);
        let out = elements(op, grouping, vector, k);
        assert forall|a: int, b: int| 0 <= a < b < out.len() implies is_no_worse(
            op,
            (#[trigger] out[a]).1,
            (#[trigger] out[b]).1,
        ) && (out[a].1 == out[b].1 ==> !labels_before(out[b].0, out[a].0)) by {
            assert(!ahead(op, out[b], out[a]));
        }
    }
}

proof fn lemma_best_holds(
    op: AggregateOp,
    vector: Seq<Sampled>,
    groups: Seq<Seq<int>>,
    keep: nat,
    n: nat,
    g: int,
    i: int,
)
    requires
        0 <= g < n <= groups.len(),
        0 <= i < keep,
        i < ranked(op, chosen(vector, groups[g])).len(),
    ensures
        best_of_each(op, vector, groups, keep, n).contains(
            ranked(op, chosen(vector, groups[g]))[i],
        ),
    decreases n,
{
    let rest = best_of_each(op, vector, groups, keep, (n - 1) as nat);
    let all = best_of_each(op, vector, groups, keep, n);
    let sample = ranked(op, chosen(vector, groups[g]))[i];
    if g < n - 1 {
        lemma_best_holds(op, vector, groups, keep, (n - 1) as nat, g, i);
        let k = choose|k: int| 0 <= k < rest.len() && rest[k] == sample;
        assert(all[k] == sample);
    } else {
        assert(all[rest.len() + i] == sample);
    }
}

proof fn lemma_best_comes_from(
    op: AggregateOp,
    vector: Seq<Sampled>,
    groups: Seq<Seq<int>>,
    keep: nat,
    n: nat,
    at: int,
) -> (r: (int, int))
    requires
        n <= groups.len(),
        0 <= at < best_of_each(op, vector, groups, keep, n).len(),
    ensures
        0 <= r.0 < n,
        0 <= r.1 < keep,
        r.1 < ranked(op, chosen(vector, groups[r.0])).len(),
        best_of_each(op, vector, groups, keep, n)[at] == ranked(
            op,
            chosen(vector, groups[r.0]),
        )[r.1],
    decreases n,
{
    let rest = best_of_each(op, vector, groups, keep, (n - 1) as nat);
    if at < rest.len() {
        lemma_best_comes_from(op, vector, groups, keep, (n - 1) as nat, at)
    } else {
        (n - 1, at - rest.len())
    }
}

/// What is left out of a group is no better than anything that is kept of it: a number that
/// `topk` drops is not greater than one of its group that stays, and one that `bottomk` drops
/// not less.
#[verifier::spinoff_prover]
#[verifier::rlimit(40)]
pub proof fn law_the_best_elements_are_kept(
    op: AggregateOp,
    grouping: GroupingView,
    vector: Seq<Sampled>,
    k: u64,
    sample: Sampled,
    i: int,
)
    requires
        op == AggregateOp::TopK || op == AggregateOp::BottomK,
        !is_nan(k) && !is_infinite(k) && !less(k, ONE),
        vector.contains(sample),
        !is_nan(sample.1),
        !elements(op, grouping, vector, k).contains(sample),
        0 <= i < elements(op, grouping, vector, k).len(),
        key_of(elements(op, grouping, vector, k)[i].0, grouping) == key_of(sample.0, grouping),
    ensures
        is_no_worse(op, elements(op, grouping, vector, k)[i].1, sample.1),
{
    let keep = whole_part(k);
    let all = numeric(vector);
    let keys = keys_of(all, grouping);
    let groups = grouped(keys, all.len());
    let best = best_of_each(op, all, groups, keep, groups.len());
    let out = elements(op, grouping, vector, k);
    lemma_grouped(keys, all.len());
    law_groups_have_distinct_keys(keys, all.len());
    lemma_numeric(vector);
    let a = lemma_numeric_holds(vector, sample);
    law_every_item_is_grouped(keys, all.len(), a);
    let (g, at) = choose|g: int, at: int|
        0 <= g < groups.len() && 0 <= at < groups[g].len() && #[trigger] groups[g][at] == a;
    let own = chosen(all, groups[g]);
    let sorted = ranked(op, own);
    let less_own = |x: int, y: int| ahead(op, own[x], own[y]);
    lemma_ordered_places(own.len(), less_own);
    lemma_place_is_ordered(own.len(), less_own, at);
    let place = choose|place: int|
        0 <= place < ordered(own.len(), less_own).len() && ordered(own.len(), less_own)[place]
            == at;
    assert(sorted[place] == own[at] && own[at] == all[a]);
    let less_best = |x: int, y: int| ahead(op, best[x], best[y]);
    lemma_ordered_places(best.len(), less_best);
    if place < keep {
        lemma_best_holds(op, all, groups, keep, groups.len(), g, place);
        let b = choose|b: int| 0 <= b < best.len() && best[b] == sample;
        lemma_place_is_ordered(best.len(), less_best, b);
        let c = choose|c: int|
            0 <= c < ordered(best.len(), less_best).len() && ordered(best.len(), less_best)[c] == b;
        assert(out[c] == sample);
        assert(false);
    }
    let b = ordered(best.len(), less_best)[i];
    assert(0 <= b < best.len());
    assert(out[i] == best[b]);
    let (h, r) = lemma_best_comes_from(op, all, groups, keep, groups.len(), b);
    let other = chosen(all, groups[h]);
    let less_other = |x: int, y: int| ahead(op, other[x], other[y]);
    lemma_ordered_places(other.len(), less_other);
    let c = ordered(other.len(), less_other)[r];
    assert(0 <= c < other.len());
    assert(out[i] == other[c] && other[c] == all[groups[h][c]]);
    assert(0 <= groups[h][c] < all.len());
    assert(keys[groups[h][c]] == key_of(out[i].0, grouping));
    assert(keys[a] == key_of(sample.0, grouping));
    assert(keys[groups[g][at]] == keys[groups[g][0]]);
    assert(keys[groups[h][c]] == keys[groups[h][0]]);
    if g < h {
        assert(keys[groups[g][0]] != keys[groups[h][0]]);
    } else if h < g {
        assert(keys[groups[h][0]] != keys[groups[g][0]]);
    }
    assert(g == h);
    assert forall|x: int| 0 <= x < own.len() implies !is_nan((#[trigger] own[x]).1) by {
        assert(0 <= groups[g][x] < all.len());
        assert(own[x] == all[groups[g][x]]);
    }
    law_ranking_puts_the_best_first(op, own);
    assert(r < place);
    assert(!ahead(op, sorted[place], sorted[r]));
}

proof fn lemma_numeric_holds(vector: Seq<Sampled>, sample: Sampled) -> (a: int)
    requires
        vector.contains(sample),
        !is_nan(sample.1),
    ensures
        0 <= a < numeric(vector).len(),
        numeric(vector)[a] == sample,
    decreases vector.len(),
{
    let i = choose|i: int| 0 <= i < vector.len() && vector[i] == sample;
    let front = vector.drop_last();
    if i < front.len() {
        assert(front[i] == sample);
        lemma_numeric_holds(front, sample)
    } else {
        numeric(vector).len() - 1
    }
}

/// Without a grouping `k` elements are kept, or all the numbers there are.
pub proof fn law_as_many_elements_as_asked_for(op: AggregateOp, vector: Seq<Sampled>, k: u64)
    requires
        !is_nan(k) && !is_infinite(k) && !less(k, ONE),
    ensures
        elements(op, GroupingView::All, vector, k).len() == (if whole_part(k) < numeric(
            vector,
        ).len() {
            whole_part(k)
        } else {
            numeric(vector).len()
        }),
{
    let keep = whole_part(k);
    let all = numeric(vector);
    let keys = keys_of(all, GroupingView::All);
    let groups = grouped(keys, all.len());
    let best = best_of_each(op, all, groups, keep, groups.len());
    lemma_ordered_places(best.len(), |x: int, y: int| ahead(op, best[x], best[y]));
    lemma_grouped(keys, all.len());
    law_groups_have_distinct_keys(keys, all.len());
    if groups.len() >= 2 {
        assert(groups[0].len() > 0 && groups[1].len() > 0);
        assert(0 <= groups[0][0] < all.len() && 0 <= groups[1][0] < all.len());
        assert(keys[groups[0][0]] != keys[groups[1][0]]);
        assert(false);
    }
    if all.len() == 0 {
        assert(groups.len() == 0);
    } else {
        law_every_item_is_grouped(keys, all.len(), 0);
        law_a_group_is_all_of_its_key(keys, all.len());
        let group = groups[0];
        assert(group == places_with(keys, keys[group[0]], all.len()));
        assert(0 <= group[0] < all.len());
        lemma_all_places(keys, keys[group[0]], all.len());
        let own = chosen(all, group);
        lemma_ordered_places(own.len(), |x: int, y: int| ahead(op, own[x], own[y]));
        assert(groups.len() == 1);
        assert(best_of_each(op, all, groups, keep, 0) == Seq::<Sampled>::empty());
        assert(best =~= first(ranked(op, own), keep));
    }
}

proof fn lemma_all_places(keys: Seq<Seq<Pair>>, key: Seq<Pair>, n: nat)
    requires
        forall|i: int| 0 <= i < n ==> #[trigger] keys[i] == key,
    ensures
        places_with(keys, key, n).len() == n,
    decreases n,
{
    if n > 0 {
        lemma_all_places(keys, key, (n - 1) as nat);
    }
}

/// Buckets are taken in the order of their bounds, each of them once.
pub proof fn law_buckets_ascend(buckets: Seq<(u64, u64)>)
    requires
        forall|i: int| 0 <= i < buckets.len() ==> !is_nan((#[trigger] buckets[i]).0),
    ensures
        by_bound(buckets).len() == buckets.len(),
        forall|i: int| 0 <= i < buckets.len() ==> by_bound(buckets).contains(#[trigger] buckets[i]),
        forall|a: int, b: int|
            0 <= a < b < by_bound(buckets).len() ==> !less(
                (#[trigger] by_bound(buckets)[b]).0,
                (#[trigger] by_bound(buckets)[a]).0,
            ),
{
    let n = buckets.len();
    let item = |i: int|
        if 0 <= i < n {
            buckets[i].0
        } else {
            0
        };
    let inside = |a: int, b: int| less(buckets[a].0, buckets[b].0);
    let earlier = |a: int, b: int| less(item(a), item(b));
    law_ordering_orders(n, earlier);
    lemma_same_order(n, inside, earlier);
    lemma_ordered_places(n, inside);
    let list = ordered(n, inside);
    let out = by_bound(buckets);
    assert forall|i: int| 0 <= i < n implies out.contains(#[trigger] buckets[i]) by {
        lemma_place_is_ordered(n, inside, i);
        let at = choose|at: int| 0 <= at < list.len() && list[at] == i;
        assert(out[at] == buckets[i]);
    }
    assert forall|a: int, b: int| 0 <= a < b < out.len() implies !less(
        (#[trigger] out[b]).0,
        (#[trigger] out[a]).0,
    ) by {
        assert(0 <= list[a] < n && 0 <= list[b] < n);
        assert(!earlier(list[b], list[a]));
    }
}

/// A bucket is a sample with an `le` label that writes a bound: under its labels without that
/// one and its name, with the bound and the sample's value as its count. `+Inf` is the bound
/// past every number.
pub proof fn law_buckets_are_samples_with_a_bound(
    vector: Seq<Sampled>,
    read: Literals,
    i: int,
    le: Seq<char>,
)
    requires
        0 <= i < vector.len(),
        lookup(vector[i].0, "le"@) == Some(le),
    ensures
        le == "+Inf"@ ==> buckets_of(vector, read).contains(
            (boundless(vector[i].0), (INFINITY, vector[i].1)),
        ),
        le != "+Inf"@ && read_number(le) is Some ==> buckets_of(vector, read).contains(
            (boundless(vector[i].0), (read(le), vector[i].1)),
        ),
    decreases vector.len(),
{
    let front = vector.drop_last();
    let all = buckets_of(vector, read);
    let rest = buckets_of(front, read);
    if i < front.len() {
        assert(front[i] == vector[i]);
        law_buckets_are_samples_with_a_bound(front, read, i, le);
        assert forall|bucket: Bucketed| rest.contains(bucket) implies all.contains(bucket) by {
            let k = choose|k: int| 0 <= k < rest.len() && rest[k] == bucket;
            assert(all[k] == bucket);
        }
    } else if le == "+Inf"@ || read_number(le) is Some {
        assert(all[all.len() - 1] == all.last());
    }
}

/// `or` keeps every sample on the left and adds those on the right whose labels the left does
/// not have; a number is a sample without labels.
pub proof fn law_or_fills_gaps(left: EvaluatedView, right: EvaluatedView, labels: Seq<Pair>, calc: Calc)
    ensures
        match combined(BinaryOp::Or, left, right, calc) {
            Evaluated::Vector(out) => {
                &&& value_for(out, labels) == (match value_for(vector_of(left), labels) {
                    Some(value) => Some(value),
                    None => value_for(vector_of(right), labels),
                })
                &&& vector_of(left).len() <= out.len()
                &&& forall|i: int|
                    0 <= i < vector_of(left).len() ==> #[trigger] out[i] == vector_of(left)[i]
            },
            Evaluated::Scalar(_) => false,
        },
{
    law_union_prefers_the_left(vector_of(left), vector_of(right), labels);
    lemma_union_keeps(vector_of(left), vector_of(right));
}

proof fn lemma_union_keeps(left: Seq<Sampled>, right: Seq<Sampled>)
    ensures
        left.len() <= union(left, right).len(),
        forall|i: int| 0 <= i < left.len() ==> #[trigger] union(left, right)[i] == left[i],
    decreases right.len(),
{
    if right.len() > 0 {
        let rest = union(left, right.drop_last());
        lemma_union_keeps(left, right.drop_last());
        assert forall|i: int| 0 <= i < left.len() implies #[trigger] union(left, right)[i]
            == left[i] by {
            assert(union(left, right)[i] == rest[i]);
        }
    }
}

/// What a function or an aggregation gives carries every label but the metric's name, and a
/// quantile every one but the name and the bound.
pub proof fn law_results_have_no_name(labels: Seq<Pair>, name: Seq<char>)
    requires
        sorted(labels),
    ensures
        lookup(nameless(labels), "__name__"@) is None,
        name != "__name__"@ ==> lookup(nameless(labels), name) == lookup(labels, name),
        lookup(boundless(labels), "__name__"@) is None,
        lookup(boundless(labels), "le"@) is None,
        name != "__name__"@ && name != "le"@ ==> lookup(boundless(labels), name) == lookup(
            labels,
            name,
        ),
{
    let rest = removed(labels, "le"@);
    reveal_strlit("le");
    reveal_strlit("__name__");
    assert("le"@.len() == 2 && METRIC_NAME_LABEL@.len() == 8);
    law_remove_then_get(labels, METRIC_NAME_LABEL@, name);
    law_remove_then_get(labels, "le"@, name);
    lemma_removed_sorted(labels, "le"@);
    law_remove_then_get(rest, METRIC_NAME_LABEL@, name);
    law_remove_then_get(rest, METRIC_NAME_LABEL@, "le"@);
}

proof fn lemma_removed_sorted(labels: Seq<Pair>, name: Seq<char>)
    requires
        sorted(labels),
    ensures
        sorted(removed(labels, name)),
        forall|i: int|
            0 <= i < removed(labels, name).len() ==> labels.contains(
                #[trigger] removed(labels, name)[i],
            ),
    decreases labels.len(),
{
    if labels.len() > 0 && labels[0].0 != name {
        let rest = labels.drop_first();
        let fewer = removed(rest, name);
        assert forall|i: int, j: int| 0 <= i < j < rest.len() implies text_before(
            #[trigger] rest[i].0,
            #[trigger] rest[j].0,
        ) by {
            assert(rest[i] == labels[i + 1] && rest[j] == labels[j + 1]);
        }
        lemma_removed_sorted(rest, name);
        let all = removed(labels, name);
        assert(all == seq![labels[0]] + fewer);
        assert forall|i: int| 0 <= i < fewer.len() implies exists|k: int|
            0 < k < labels.len() && labels[k] == #[trigger] fewer[i] by {
            assert(rest.contains(fewer[i]));
            let k = choose|k: int| 0 <= k < rest.len() && rest[k] == fewer[i];
            assert(labels[k + 1] == fewer[i]);
        }
        assert forall|i: int, j: int| 0 <= i < j < all.len() implies text_before(
            #[trigger] all[i].0,
            #[trigger] all[j].0,
        ) by {
            assert(all[j] == fewer[j - 1]);
            if i == 0 {
                let k = choose|k: int| 0 < k < labels.len() && labels[k] == fewer[j - 1];
                assert(text_before(labels[0].0, labels[k].0));
            } else {
                assert(all[i] == fewer[i - 1]);
            }
        }
        assert forall|i: int| 0 <= i < all.len() implies labels.contains(#[trigger] all[i]) by {
            if i > 0 {
                assert(all[i] == fewer[i - 1]);
                let k = choose|k: int| 0 < k < labels.len() && labels[k] == fewer[i - 1];
                assert(labels[k] == all[i]);
            } else {
                assert(labels[0] == all[0]);
            }
        }
    } else if labels.len() > 0 {
        let all = removed(labels, name);
        assert forall|i: int, j: int| 0 <= i < j < all.len() implies text_before(
            #[trigger] all[i].0,
            #[trigger] all[j].0,
        ) by {
            assert(all[i] == labels[i + 1] && all[j] == labels[j + 1]);
        }
        assert forall|i: int| 0 <= i < all.len() implies labels.contains(#[trigger] all[i]) by {
            assert(all[i] == labels[i + 1]);
        }
    }
}

/// Whether points are the samples of a series, by their time.
pub open spec fn is_in_time(points: Seq<(u64, u64)>, samples: Seq<SampleView>) -> bool {
    &&& points.len() == samples.len()
    &&& forall|i: int|
        0 <= i < samples.len() ==> points.contains(
            ((#[trigger] samples[i]).timestamp_nanos, samples[i].value),
        )
    &&& in_time_order(points)
}

/// The samples with some labels.
pub open spec fn samples_with(samples: Seq<SampleView>, labels: Seq<Pair>) -> Seq<SampleView> {
    samples.filter(|sample: SampleView| sample.series == labels)
}

/// A series holds all the samples with its labels and no other, by their time.
#[verifier::spinoff_prover]
#[verifier::rlimit(40)]
pub proof fn law_a_series_holds_its_samples(samples: Seq<SampleView>)
    ensures
        forall|j: int|
            0 <= j < series_of(samples).len() ==> is_in_time(
                (#[trigger] series_of(samples)[j]).samples,
                samples_with(samples, series_of(samples)[j].labels),
            ),
{
    let keys = sample_streams(samples);
    let groups = sorted_groups(keys);
    let out = series_of(samples);
    law_a_sorted_group_is_all_of_its_labels(keys);
    lemma_sorted_groups(keys);
    assert forall|j: int| 0 <= j < out.len() implies is_in_time(
        (#[trigger] out[j]).samples,
        samples_with(samples, out[j].labels),
    ) by {
        assert(groups[j].len() > 0);
        assert(0 <= groups[j][0] < samples.len());
        let key = keys[groups[j][0]];
        let has = |sample: SampleView| sample.series == key;
        lemma_chosen_with(samples, keys, key, has);
        let own = chosen(samples, groups[j]);
        assert(groups[j] == places_with(keys, key, samples.len()));
        assert(out[j] == one_series(samples, groups[j]));
        assert(out[j].labels == key);
        assert(samples_with(samples, key) == own);
        lemma_points_in_time(own);
    }
}

proof fn lemma_points_in_time(own: Seq<SampleView>)
    ensures
        is_in_time(points_of(chosen(own, in_time(own))), own),
{
    let n = own.len();
    let item = |i: int|
        if 0 <= i < n {
            own[i].timestamp_nanos as int
        } else {
            -1
        };
    let inside = |a: int, b: int| own[a].timestamp_nanos < own[b].timestamp_nanos;
    let earlier = |a: int, b: int| item(a) < item(b);
    law_ordering_orders(n, earlier);
    lemma_same_order(n, inside, earlier);
    lemma_ordered_places(n, inside);
    let list = in_time(own);
    assert(list == ordered(n, inside));
    let points = points_of(chosen(own, list));
    assert forall|i: int| 0 <= i < n implies points.contains(
        ((#[trigger] own[i]).timestamp_nanos, own[i].value),
    ) by {
        lemma_place_is_ordered(n, inside, i);
        let at = choose|at: int| 0 <= at < ordered(n, inside).len() && ordered(n, inside)[at] == i;
        assert(points[at] == (own[i].timestamp_nanos, own[i].value));
    }
    assert forall|a: int, b: int| 0 <= a < b < points.len() implies (#[trigger] points[a]).0 <= (
    #[trigger] points[b]).0 by {
        assert(0 <= list[a] < n && 0 <= list[b] < n);
        assert(!earlier(list[b], list[a]));
    }
}

} // verus!
