//! Time series: a metric name, its labels, and timestamped samples.

use vstd::prelude::*;
use crate::text::{compare, debug_quoted, precedes, quoted, Rank};
use crate::text::{lemma_precedes_asymmetric, lemma_precedes_total, lemma_precedes_transitive};

verus! {

/// A label: its name and its value.
pub type Label = (Seq<char>, Seq<char>);

/// A sample: a timestamp in milliseconds since the epoch, and the value recorded at it. A value
/// is held as the bit pattern of an IEEE 754 double; `None` marks a gap.
pub type Sample = (i64, Option<u64>);

/// The name of the label that holds a series' metric name.
pub open spec fn name_label() -> Seq<char> {
    "__name__"@
}

/// Label names strictly ascend, so no name occurs twice.
pub open spec fn ascending(labels: Seq<Label>) -> bool {
    forall|i: int, j: int|
        0 <= i < j < labels.len() ==> precedes(#[trigger] labels[i].0, #[trigger] labels[j].0)
}

/// The label named `name` stands at position `i`.
pub open spec fn label_at(labels: Seq<Label>, name: Seq<char>, i: int) -> bool {
    0 <= i < labels.len() && labels[i].0 == name
}

/// Some label is named `name`.
pub open spec fn has_label(labels: Seq<Label>, name: Seq<char>) -> bool {
    exists|i: int| #[trigger] label_at(labels, name, i)
}

/// Labels as a map from name to value.
pub open spec fn label_map(labels: Seq<Label>) -> Map<Seq<char>, Seq<char>> {
    Map::new(
        |name: Seq<char>| has_label(labels, name),
        |name: Seq<char>| labels[choose|i: int| #[trigger] label_at(labels, name, i)].1,
    )
}

/// How many labels have a name that comes before `name`. In an ascending list this is where
/// a label of that name stands or belongs.
pub open spec fn slot(labels: Seq<Label>, name: Seq<char>) -> int
    decreases labels.len(),
{
    if labels.len() == 0 {
        0
    } else {
        slot(labels.drop_last(), name) + if precedes(labels.last().0, name) {
            1int
        } else {
            0int
        }
    }
}

/// `labels` with the label `name` set to `value`: replaced where it exists, else put in its
/// place in the order.
pub open spec fn put(labels: Seq<Label>, name: Seq<char>, value: Seq<char>) -> Seq<Label> {
    let i = slot(labels, name);
    if i < labels.len() && labels[i].0 == name {
        labels.update(i, (name, value))
    } else {
        labels.insert(i, (name, value))
    }
}

/// The ascending list that holds each of `pairs`, a later pair replacing an earlier one of the
/// same name.
pub open spec fn arrange(pairs: Seq<Label>) -> Seq<Label>
    decreases pairs.len(),
{
    if pairs.len() == 0 {
        Seq::empty()
    } else {
        put(arrange(pairs.drop_last()), pairs.last().0, pairs.last().1)
    }
}

/// The labels other than the metric name, each as `name="value"`, joined by a comma and a
/// space.
pub open spec fn label_list(labels: Seq<Label>) -> Seq<char>
    decreases labels.len(),
{
    if labels.len() == 0 {
        Seq::empty()
    } else {
        let head = label_list(labels.drop_last());
        let item = labels.last().0 + "="@ + debug_quoted(labels.last().1);
        if labels.last().0 == name_label() {
            head
        } else if head.len() == 0 {
            item
        } else {
            head + ", "@ + item
        }
    }
}

/// Whether a sample at `time` lies in the window that starts at `from` and ends before `until`;
/// a missing bound leaves that side open.
pub open spec fn in_window(time: i64, from: Option<i64>, until: Option<i64>) -> bool {
    &&& from matches Some(start) ==> start <= time
    &&& until matches Some(end) ==> time < end
}

/// The test `in_window` as a predicate on samples.
pub open spec fn window_of(from: Option<i64>, until: Option<i64>) -> spec_fn(Sample) -> bool {
    |sample: Sample| in_window(sample.0, from, until)
}

/// What a time series is: its labels in ascending order of name, the metric name among them,
/// and its samples in the order they were recorded.
pub struct Series {
    pub labels: Seq<Label>,
    pub samples: Seq<Sample>,
}

impl Series {
    /// The labels ascend by name and the metric name is among them.
    pub open spec fn wf(self) -> bool {
        ascending(self.labels) && has_label(self.labels, name_label())
    }

    /// The value of the label `name`, or the empty text where the series has no such label.
    pub open spec fn label(self, name: Seq<char>) -> Seq<char> {
        if has_label(self.labels, name) {
            label_map(self.labels)[name]
        } else {
            Seq::empty()
        }
    }

    /// The metric name.
    pub open spec fn name(self) -> Seq<char> {
        self.label(name_label())
    }

    /// This series with the label `name` set to `value`.
    pub open spec fn with_label(self, name: Seq<char>, value: Seq<char>) -> Series {
        Series { labels: put(self.labels, name, value), samples: self.samples }
    }

    /// This series without its samples.
    pub open spec fn emptied(self) -> Series {
        Series { labels: self.labels, samples: Seq::empty() }
    }

    /// This series with one more sample at its end.
    pub open spec fn with_sample(self, time: i64, value: Option<u64>) -> Series {
        Series { labels: self.labels, samples: self.samples.push((time, value)) }
    }

    /// This series with only the samples inside the window, in their order.
    pub open spec fn window(self, from: Option<i64>, until: Option<i64>) -> Series {
        Series { labels: self.labels, samples: self.samples.filter(window_of(from, until)) }
    }

    /// Some sample is older than `timestamp`.
    pub open spec fn has_records_before(self, timestamp: i64) -> bool {
        exists|i: int| 0 <= i < self.samples.len() && (#[trigger] self.samples[i]).0 < timestamp
    }

    /// Setting a label changes what that label reads as and nothing else: the series stays
    /// well formed, every other label and the samples stay as they are.
    pub proof fn lemma_with_label(self, name: Seq<char>, value: Seq<char>, other: Seq<char>)
        requires
            self.wf(),
        ensures
            self.with_label(name, value).wf(),
            self.with_label(name, value).samples == self.samples,
            self.with_label(name, value).label(other) == if other == name {
                value
            } else {
                self.label(other)
            },
    {
        lemma_put(self.labels, name, value);
        let after = put(self.labels, name, value);
        assert(has_label(after, name_label()));
        assert(has_label(after, other) <==> (other == name || has_label(self.labels, other)));
        if has_label(after, other) {
            assert(label_map(after).dom().contains(other));
            assert(label_map(after)[other] == label_map(self.labels).insert(name, value)[other]);
        }
    }

    /// A window keeps its labels, holds only samples inside it, and so has no sample that is
    /// older than its start.
    pub proof fn lemma_window_bounds(self, from: Option<i64>, until: Option<i64>)
        ensures
            self.window(from, until).labels == self.labels,
            forall|i: int|
                0 <= i < self.window(from, until).samples.len() ==> in_window(
                    (#[trigger] self.window(from, until).samples[i]).0,
                    from,
                    until,
                ),
            forall|timestamp: i64|
                from matches Some(start) && timestamp <= start ==> !#[trigger] self.window(
                    from,
                    until,
                ).has_records_before(timestamp),
    {
        let kept = self.window(from, until).samples;
        assert forall|i: int| 0 <= i < kept.len() implies in_window(
            (#[trigger] kept[i]).0,
            from,
            until,
        ) by {
            self.samples.lemma_filter_pred(window_of(from, until), i);
        }
    }

    /// A cut at `cutoff` parts the samples in two: each sample goes to the part before the
    /// cutoff or to the part from it on, a sample at the cutoff to the latter.
    pub proof fn lemma_cut_parts(self, cutoff: i64)
        ensures
            self.window(None, Some(cutoff)).samples.len() + self.window(
                Some(cutoff),
                None,
            ).samples.len() == self.samples.len(),
            forall|i: int|
                0 <= i < self.samples.len() ==> {
                    let sample = #[trigger] self.samples[i];
                    if sample.0 < cutoff {
                        self.window(None, Some(cutoff)).samples.contains(sample)
                    } else {
                        self.window(Some(cutoff), None).samples.contains(sample)
                    }
                },
        decreases self.samples.len(),
    {
        let before = window_of(None, Some(cutoff));
        let after = window_of(Some(cutoff), None);
        assert forall|i: int| 0 <= i < self.samples.len() implies {
            let sample = #[trigger] self.samples[i];
            if sample.0 < cutoff {
                self.samples.filter(before).contains(sample)
            } else {
                self.samples.filter(after).contains(sample)
            }
        } by {
            if self.samples[i].0 < cutoff {
                self.samples.lemma_filter_contains(before, i);
            } else {
                self.samples.lemma_filter_contains(after, i);
            }
        }
        if self.samples.len() > 0 {
            let rest = Series { labels: self.labels, samples: self.samples.drop_last() };
            rest.lemma_cut_parts(cutoff);
            assert(self.samples == rest.samples.push(self.samples.last()));
            rest.samples.lemma_filter_push(self.samples.last(), before);
            rest.samples.lemma_filter_push(self.samples.last(), after);
        } else {
            reveal(Seq::filter);
        }
    }

    /// The canonical form `name{label="value", ...}`: the labels other than the name in
    /// ascending order, and no braces where there is none.
    pub open spec fn canonical(self) -> Seq<char> {
        let list = label_list(self.labels);
        if list.len() == 0 {
            self.name()
        } else {
            self.name() + "{"@ + list + "}"@
        }
    }
}

/// In an ascending list a name stands at one position only.
pub proof fn lemma_label_position(labels: Seq<Label>, name: Seq<char>, i: int)
    requires
        ascending(labels),
        label_at(labels, name, i),
    ensures
        has_label(labels, name),
        label_map(labels).contains_key(name),
        label_map(labels)[name] == labels[i].1,
        slot(labels, name) == i,
{
    let j = choose|j: int| #[trigger] label_at(labels, name, j);
    if i < j {
        lemma_precedes_asymmetric(labels[i].0, labels[j].0);
    } else if j < i {
        lemma_precedes_asymmetric(labels[j].0, labels[i].0);
    }
    lemma_slot(labels, name, i);
}

/// In an ascending list, the position before which all names come before `name` and from
/// which on none does is `slot`.
proof fn lemma_slot(labels: Seq<Label>, name: Seq<char>, i: int)
    requires
        ascending(labels),
        0 <= i <= labels.len(),
        forall|j: int| 0 <= j < i ==> precedes(#[trigger] labels[j].0, name),
        i < labels.len() ==> !precedes(labels[i].0, name),
    ensures
        slot(labels, name) == i,
    decreases labels.len(),
{
    if labels.len() > 0 {
        let rest = labels.drop_last();
        let n = labels.len() - 1;
        if i <= n {
            if i < n {
                if precedes(labels[n].0, name) {
                    lemma_precedes_transitive(labels[i].0, labels[n].0, name);
                }
            }
            assert(!precedes(labels[n].0, name));
            lemma_slot(rest, name, i);
        } else {
            lemma_slot(rest, name, n);
        }
    }
}

/// Setting a label keeps the order, and changes the label map at that name only.
pub proof fn lemma_put(labels: Seq<Label>, name: Seq<char>, value: Seq<char>)
    requires
        ascending(labels),
    ensures
        ascending(put(labels, name, value)),
        label_map(put(labels, name, value)) == label_map(labels).insert(name, value),
        forall|other: Seq<char>| #[trigger]
            has_label(put(labels, name, value), other) <==> (other == name || has_label(
                labels,
                other,
            )),
{
    let i = slot(labels, name);
    lemma_slot_bounds(labels, name);
    let out = put(labels, name, value);
    if i < labels.len() && labels[i].0 == name {
        assert forall|a: int, b: int| 0 <= a < b < out.len() implies precedes(
            #[trigger] out[a].0,
            #[trigger] out[b].0,
        ) by {
            assert(out[a].0 == labels[a].0);
            assert(out[b].0 == labels[b].0);
        }
        assert forall|other: Seq<char>| has_label(out, other) <==> (other == name || has_label(
            labels,
            other,
        )) by {
            if has_label(out, other) {
                let k = choose|k: int| #[trigger] label_at(out, other, k);
                assert(label_at(labels, other, k));
            }
            if has_label(labels, other) {
                let k = choose|k: int| #[trigger] label_at(labels, other, k);
                assert(label_at(out, other, k));
            }
            if other == name {
                assert(label_at(out, other, i));
            }
        }
        assert forall|other: Seq<char>| #[trigger]
            label_map(out).dom().contains(other) implies label_map(out)[other] == label_map(
            labels,
        ).insert(name, value)[other] by {
            let k = choose|k: int| #[trigger] label_at(out, other, k);
            lemma_label_position(out, other, k);
            if other != name {
                assert(label_at(labels, other, k));
                lemma_label_position(labels, other, k);
            } else {
                assert(label_at(out, other, i));
                lemma_label_position(out, other, i);
            }
        }
        assert(label_map(out) =~= label_map(labels).insert(name, value));
    } else {
        assert forall|a: int, b: int| 0 <= a < b < out.len() implies precedes(
            #[trigger] out[a].0,
            #[trigger] out[b].0,
        ) by {
            if i < labels.len() {
                lemma_precedes_total(labels[i].0, name);
            }
            if a == i {
                if b - 1 > i {
                    lemma_precedes_transitive(name, labels[i].0, labels[b - 1].0);
                }
            } else if b == i {
            } else {
                let a0 = if a < i { a } else { a - 1 };
                let b0 = if b < i { b } else { b - 1 };
                assert(out[a].0 == labels[a0].0);
                assert(out[b].0 == labels[b0].0);
            }
        }
        assert forall|other: Seq<char>| has_label(out, other) <==> (other == name || has_label(
            labels,
            other,
        )) by {
            if has_label(out, other) && other != name {
                let k = choose|k: int| #[trigger] label_at(out, other, k);
                let k0 = if k < i { k } else { k - 1 };
                assert(label_at(labels, other, k0));
            }
            if has_label(labels, other) {
                let k = choose|k: int| #[trigger] label_at(labels, other, k);
                let k1 = if k < i { k } else { k + 1 };
                assert(label_at(out, other, k1));
            }
            if other == name {
                assert(label_at(out, other, i));
            }
        }
        assert forall|other: Seq<char>| #[trigger]
            label_map(out).dom().contains(other) implies label_map(out)[other] == label_map(
            labels,
        ).insert(name, value)[other] by {
            let k = choose|k: int| #[trigger] label_at(out, other, k);
            lemma_label_position(out, other, k);
            if other != name {
                let k0 = if k < i { k } else { k - 1 };
                assert(label_at(labels, other, k0));
                lemma_label_position(labels, other, k0);
            } else {
                assert(label_at(out, other, i));
                lemma_label_position(out, other, i);
            }
        }
        assert(label_map(out) =~= label_map(labels).insert(name, value));
    }
}

/// `slot` lies within the list, all names before it come before `name`, and the name at it,
/// if there is one, does not.
proof fn lemma_slot_bounds(labels: Seq<Label>, name: Seq<char>)
    requires
        ascending(labels),
    ensures
        0 <= slot(labels, name) <= labels.len(),
        forall|j: int| 0 <= j < slot(labels, name) ==> precedes(#[trigger] labels[j].0, name),
        forall|j: int|
            slot(labels, name) <= j < labels.len() ==> !precedes(#[trigger] labels[j].0, name),
    decreases labels.len(),
{
    if labels.len() > 0 {
        let rest = labels.drop_last();
        let n = labels.len() - 1;
        lemma_slot_bounds(rest, name);
        assert forall|j: int| 0 <= j < n implies rest[j] == labels[j] by {}
        if precedes(labels[n].0, name) {
            assert forall|j: int| 0 <= j < n implies precedes(#[trigger] labels[j].0, name) by {
                lemma_precedes_transitive(labels[j].0, labels[n].0, name);
            }
            if slot(rest, name) < n {
                assert(!precedes(rest[slot(rest, name)].0, name));
            }
        } else {
            assert forall|j: int| 0 <= j < slot(labels, name) implies precedes(
                #[trigger] labels[j].0,
                name,
            ) by {
                assert(precedes(rest[j].0, name));
            }
            assert forall|j: int| slot(labels, name) <= j < labels.len() implies !precedes(
                #[trigger] labels[j].0,
                name,
            ) by {
                if j < n {
                    assert(!precedes(rest[j].0, name));
                }
            }
        }
    }
}

/// An ascending list of labels is arranged already: a series made of the parts of a series is
/// that series again.
pub proof fn lemma_arranged(labels: Seq<Label>)
    requires
        ascending(labels),
    ensures
        arrange(labels) == labels,
    decreases labels.len(),
{
    if labels.len() > 0 {
        let rest = labels.drop_last();
        let last = labels.last();
        assert forall|i: int, j: int| 0 <= i < j < rest.len() implies precedes(
            #[trigger] rest[i].0,
            #[trigger] rest[j].0,
        ) by {
            assert(rest[i] == labels[i]);
            assert(rest[j] == labels[j]);
        }
        lemma_arranged(rest);
        assert forall|j: int| 0 <= j < rest.len() implies precedes(
            #[trigger] rest[j].0,
            last.0,
        ) by {
            assert(rest[j] == labels[j]);
        }
        lemma_slot(rest, last.0, rest.len() as int);
        assert(!label_at(rest, last.0, rest.len() as int));
        assert(rest.insert(rest.len() as int, last) == labels);
    }
}

/// The labels that a list of name and value strings holds.
pub open spec fn labels_of(metric: Seq<(String, String)>) -> Seq<Label> {
    Seq::new(metric.len(), |i: int| (metric[i].0@, metric[i].1@))
}

/// The samples that two parallel lists hold: the timestamps, each with the value at its
/// position.
pub open spec fn samples_of(timestamps: Seq<i64>, values: Seq<Option<u64>>) -> Seq<Sample> {
    Seq::new(timestamps.len(), |i: int| (timestamps[i], values[i]))
}

/// Why a set of parts is no time series.
#[derive(Debug, PartialEq, Eq)]
pub enum RecordError {
    /// No label holds the metric name.
    MissingName,
    /// There are not as many values as timestamps.
    UnevenSamples { timestamps: usize, values: usize },
}

/// One named, labeled stream of samples.
#[derive(Debug, PartialEq, Eq)]
pub struct TimeSeries {
    metric: Vec<(String, String)>,
    values: Vec<Option<u64>>,
    timestamps: Vec<i64>,
}

impl View for TimeSeries {
    type V = Series;

    closed spec fn view(&self) -> Series {
        Series {
            labels: labels_of(self.metric@),
            samples: samples_of(self.timestamps@, self.values@),
        }
    }
}

/// Where the label `name` stands in an ascending list or, where there is none, belongs.
fn locate(metric: &Vec<(String, String)>, name: &str) -> (r: (usize, bool))
    requires
        ascending(labels_of(metric@)),
    ensures
        r.0 == slot(labels_of(metric@), name@),
        r.0 <= metric.len(),
        r.1 == has_label(labels_of(metric@), name@),
        r.1 ==> label_at(labels_of(metric@), name@, r.0 as int),
{
    let ghost labels = labels_of(metric@);
    let mut i: usize = 0;
    while i < metric.len()
        invariant
            i <= metric.len(),
            labels == labels_of(metric@),
            ascending(labels),
            forall|j: int| 0 <= j < i ==> precedes(#[trigger] labels[j].0, name@),
        decreases metric.len() - i,
    {
        let rank = compare(metric[i].0.as_str(), name);
        assert(labels[i as int].0 == metric[i as int].0@);
        match rank {
            Rank::Before => {},
            Rank::Same => {
                proof {
                    assert(label_at(labels, name@, i as int));
                    lemma_label_position(labels, name@, i as int);
                }
                return (i, true);
            },
            Rank::After => {
                proof {
                    lemma_precedes_asymmetric(name@, labels[i as int].0);
                    lemma_slot(labels, name@, i as int);
                    lemma_absent(labels, name@, i as int);
                }
                return (i, false);
            },
        }
        i += 1;
    }
    proof {
        lemma_slot(labels, name@, i as int);
        lemma_absent(labels, name@, i as int);
    }
    (i, false)
}

/// A name that all labels before position `i` come before, and that comes before the label at
/// `i`, is not in the list.
proof fn lemma_absent(labels: Seq<Label>, name: Seq<char>, i: int)
    requires
        ascending(labels),
        0 <= i <= labels.len(),
        forall|j: int| 0 <= j < i ==> precedes(#[trigger] labels[j].0, name),
        i < labels.len() ==> precedes(name, labels[i].0),
    ensures
        !has_label(labels, name),
{
    if has_label(labels, name) {
        let k = choose|k: int| #[trigger] label_at(labels, name, k);
        if k < i {
            lemma_precedes_asymmetric(labels[k].0, name);
        } else if k > i {
            lemma_precedes_transitive(name, labels[i].0, labels[k].0);
            lemma_precedes_asymmetric(name, labels[k].0);
        } else {
            lemma_precedes_asymmetric(name, labels[i].0);
        }
    }
}

/// Sets the label `name` to `value` in an ascending list.
fn store(metric: &mut Vec<(String, String)>, name: String, value: String)
    requires
        ascending(labels_of(old(metric)@)),
    ensures
        labels_of(final(metric)@) == put(labels_of(old(metric)@), name@, value@),
        ascending(labels_of(final(metric)@)),
{
    let ghost before = labels_of(metric@);
    let (i, found) = locate(metric, name.as_str());
    let ghost entry = (name@, value@);
    if found {
        metric.set(i, (name, value));
        assert(labels_of(metric@) =~= before.update(i as int, entry));
    } else {
        assert(!label_at(before, entry.0, i as int));
        metric.insert(i, (name, value));
        assert(labels_of(metric@) =~= before.insert(i as int, entry));
    }
    proof {
        assert(labels_of(metric@) == put(before, entry.0, entry.1));
        lemma_put(before, entry.0, entry.1);
    }
}

impl TimeSeries {
    /// The labels ascend by name, the metric name is among them, and there is one value for
    /// each timestamp.
    pub open spec fn wf(&self) -> bool {
        self@.wf() && self.paired()
    }

    /// There are as many values as timestamps.
    pub closed spec fn paired(&self) -> bool {
        self.timestamps.len() == self.values.len()
    }

    /// The parts of a series make that series again: `from_parts` takes what `labels`,
    /// `timestamps` and `values` give, and what it makes has the same labels and samples.
    pub proof fn lemma_parts_round_trip(
        &self,
        labels: Seq<(String, String)>,
        timestamps: Seq<i64>,
        values: Seq<Option<u64>>,
    )
        requires
            self.wf(),
            labels_of(labels) == self@.labels,
            timestamps.len() == self@.samples.len(),
            values.len() == self@.samples.len(),
            forall|i: int|
                0 <= i < timestamps.len() ==> timestamps[i] == (#[trigger] self@.samples[i]).0,
            forall|i: int|
                0 <= i < values.len() ==> values[i] == (#[trigger] self@.samples[i]).1,
        ensures
            has_label(arrange(labels_of(labels)), name_label()),
            arrange(labels_of(labels)) == self@.labels,
            samples_of(timestamps, values) == self@.samples,
    {
        lemma_arranged(self@.labels);
        assert(samples_of(timestamps, values) =~= self@.samples);
    }

    /// Makes a series of labels, timestamps and values. A later label replaces an earlier one
    /// of the same name. A series needs a label that holds its metric name, and one value for
    /// each timestamp.
    pub fn from_parts(
        labels: Vec<(String, String)>,
        timestamps: Vec<i64>,
        values: Vec<Option<u64>>,
    ) -> (r: Result<TimeSeries, RecordError>)
        ensures
            r is Ok <==> has_label(arrange(labels_of(labels@)), name_label()) && timestamps.len()
                == values.len(),
            r matches Ok(series) ==> {
                &&& series.wf()
                &&& series@.labels == arrange(labels_of(labels@))
                &&& series@.samples == samples_of(timestamps@, values@)
            },
            r matches Err(error) ==> error == if has_label(
                arrange(labels_of(labels@)),
                name_label(),
            ) {
                RecordError::UnevenSamples { timestamps: timestamps.len(), values: values.len() }
            } else {
                RecordError::MissingName
            },
    {
        let mut metric: Vec<(String, String)> = Vec::new();
        let mut i: usize = 0;
        assert(labels_of(labels@).take(0) =~= Seq::empty());
        assert(labels_of(metric@) =~= Seq::empty());
        while i < labels.len()
            invariant
                i <= labels.len(),
                ascending(labels_of(metric@)),
                labels_of(metric@) == arrange(labels_of(labels@).take(i as int)),
            decreases labels.len() - i,
        {
            let name = labels[i].0.clone();
            let value = labels[i].1.clone();
            proof {
                let sofar = labels_of(labels@).take(i as int + 1);
                assert(sofar.drop_last() =~= labels_of(labels@).take(i as int));
                assert(sofar.last() == (name@, value@));
            }
            store(&mut metric, name, value);
            i += 1;
        }
        assert(labels_of(labels@).take(i as int) =~= labels_of(labels@));
        let (_, named) = locate(&metric, "__name__");
        if !named {
            return Err(RecordError::MissingName);
        }
        if timestamps.len() != values.len() {
            return Err(
                RecordError::UnevenSamples { timestamps: timestamps.len(), values: values.len() },
            );
        }
        Ok(TimeSeries { metric, values, timestamps })
    }

    /// The metric name.
    pub fn name(&self) -> (r: &str)
        requires
            self.wf(),
        ensures
            r@ == self@.name(),
    {
        self.label("__name__")
    }

    /// The value of the label `name`, or the empty text where the series has no such label.
    pub fn label(&self, name: &str) -> (r: &str)
        requires
            self.wf(),
        ensures
            r@ == self@.label(name@),
    {
        let (i, found) = locate(&self.metric, name);
        if found {
            proof {
                lemma_label_position(self@.labels, name@, i as int);
            }
            self.metric[i].1.as_str()
        } else {
            proof {
                reveal_strlit("");
            }
            ""
        }
    }

    /// Sets the label `name` to `value`.
    pub fn set_label(&mut self, name: &str, value: &str)
        requires
            old(self).wf(),
        ensures
            final(self).wf(),
            final(self)@ == old(self)@.with_label(name@, value@),
    {
        proof {
            lemma_put(self@.labels, name@, value@);
        }
        store(&mut self.metric, name.to_owned(), value.to_owned());
    }

    /// The canonical form of the series: its name, then in braces the other labels in ascending
    /// order of name, each as `name="value"`.
    pub fn format_metric(&self) -> (r: String)
        requires
            self.wf(),
        ensures
            r@ == self@.canonical(),
    {
        let mut list = String::new();
        let mut i: usize = 0;
        let ghost labels = self@.labels;
        assert(labels.take(0) =~= Seq::empty());
        while i < self.metric.len()
            invariant
                i <= self.metric.len(),
                labels == labels_of(self.metric@),
                list@ == label_list(labels.take(i as int)),
            decreases self.metric.len() - i,
        {
            let ghost head = list@;
            proof {
                assert(labels.take(i as int + 1).drop_last() =~= labels.take(i as int));
                assert(labels.take(i as int + 1).last() == labels[i as int]);
            }
            if compare(self.metric[i].0.as_str(), "__name__") != Rank::Same {
                if !list.as_str().is_empty() {
                    list.append(", ");
                }
                list.append(self.metric[i].0.as_str());
                list.append("=");
                let value = quoted(self.metric[i].1.as_str());
                list.append(value.as_str());
                proof {
                    let item = labels[i as int].0 + "="@ + debug_quoted(labels[i as int].1);
                    if head.len() == 0 {
                        assert(list@ =~= item);
                    } else {
                        assert(list@ =~= head + ", "@ + item);
                    }
                }
            }
            i += 1;
        }
        assert(labels.take(i as int) =~= labels);
        let mut out = self.name().to_owned();
        if !list.as_str().is_empty() {
            out.append("{");
            out.append(list.as_str());
            out.append("}");
        }
        out
    }

    /// Whether the series has no samples.
    pub fn is_empty(&self) -> (r: bool)
        requires
            self.wf(),
        ensures
            r == (self@.samples.len() == 0),
    {
        self.timestamps.len() == 0
    }

    /// The number of samples.
    pub fn len(&self) -> (r: usize)
        requires
            self.wf(),
        ensures
            r == self@.samples.len(),
    {
        self.timestamps.len()
    }

    /// Whether some sample is older than `timestamp`.
    pub fn has_records_before(&self, timestamp: i64) -> (r: bool)
        requires
            self.wf(),
        ensures
            r == self@.has_records_before(timestamp),
    {
        let mut i: usize = 0;
        while i < self.timestamps.len()
            invariant
                i <= self.timestamps.len(),
                self.timestamps.len() == self.values.len(),
                forall|j: int| 0 <= j < i ==> (#[trigger] self@.samples[j]).0 >= timestamp,
            decreases self.timestamps.len() - i,
        {
            if self.timestamps[i] < timestamp {
                assert(self@.samples[i as int].0 < timestamp);
                return true;
            }
            i += 1;
        }
        false
    }

    /// The samples, in order.
    pub fn iter(&self) -> (r: Vec<(i64, Option<u64>)>)
        requires
            self.wf(),
        ensures
            r@ == self@.samples,
    {
        let mut out: Vec<(i64, Option<u64>)> = Vec::new();
        let mut i: usize = 0;
        while i < self.timestamps.len()
            invariant
                i <= self.timestamps.len(),
                self.timestamps.len() == self.values.len(),
                out@ == self@.samples.take(i as int),
            decreases self.timestamps.len() - i,
        {
            out.push((self.timestamps[i], self.values[i]));
            assert(out@ =~= self@.samples.take(i as int + 1));
            i += 1;
        }
        assert(self@.samples.take(i as int) =~= self@.samples);
        out
    }

    /// Adds a sample at the end.
    pub fn add(&mut self, time: i64, value: Option<u64>)
        requires
            old(self).wf(),
        ensures
            final(self).wf(),
            final(self)@ == old(self)@.with_sample(time, value),
    {
        self.timestamps.push(time);
        self.values.push(value);
        assert(self@.samples =~= old(self)@.samples.push((time, value)));
    }

    /// A series with the same labels and no samples.
    pub fn clone_empty(&self) -> (r: TimeSeries)
        requires
            self.wf(),
        ensures
            r.wf(),
            r@ == self@.emptied(),
    {
        let r = TimeSeries {
            metric: copy_labels(&self.metric),
            values: Vec::new(),
            timestamps: Vec::new(),
        };
        assert(r@.samples =~= Seq::empty());
        r
    }

    /// A series with the same labels and, of the samples, those whose timestamp is at least
    /// `from` and less than `until`, in their order. A missing bound leaves that side open.
    pub fn window(&self, from: Option<i64>, until: Option<i64>) -> (r: TimeSeries)
        requires
            self.wf(),
        ensures
            r.wf(),
            r@ == self@.window(from, until),
    {
        let mut r = self.clone_empty();
        let mut i: usize = 0;
        let ghost keep = window_of(from, until);
        proof {
            reveal(Seq::filter);
            assert(self@.samples.take(0) =~= Seq::empty());
        }
        while i < self.timestamps.len()
            invariant
                i <= self.timestamps.len(),
                self.timestamps.len() == self.values.len(),
                keep == window_of(from, until),
                r.wf(),
                r@.labels == self@.labels,
                r@.samples == self@.samples.take(i as int).filter(keep),
            decreases self.timestamps.len() - i,
        {
            let time = self.timestamps[i];
            let after_start = match from {
                Some(start) => start <= time,
                None => true,
            };
            let before_end = match until {
                Some(end) => time < end,
                None => true,
            };
            proof {
                let sofar = self@.samples.take(i as int);
                assert(self@.samples.take(i as int + 1) =~= sofar.push(self@.samples[i as int]));
                sofar.lemma_filter_push(self@.samples[i as int], keep);
            }
            if after_start && before_end {
                r.add(time, self.values[i]);
            }
            i += 1;
        }
        assert(self@.samples.take(i as int) =~= self@.samples);
        r
    }

    /// The labels, in ascending order of name.
    pub fn labels(&self) -> (r: &Vec<(String, String)>)
        requires
            self.wf(),
        ensures
            labels_of(r@) == self@.labels,
    {
        &self.metric
    }

    /// The timestamps of the samples, in order.
    pub fn timestamps(&self) -> (r: &Vec<i64>)
        requires
            self.wf(),
        ensures
            r@.len() == self@.samples.len(),
            forall|i: int| 0 <= i < r@.len() ==> r@[i] == (#[trigger] self@.samples[i]).0,
    {
        &self.timestamps
    }

    /// The values of the samples, in order.
    pub fn values(&self) -> (r: &Vec<Option<u64>>)
        requires
            self.wf(),
        ensures
            r@.len() == self@.samples.len(),
            forall|i: int| 0 <= i < r@.len() ==> r@[i] == (#[trigger] self@.samples[i]).1,
    {
        &self.values
    }
}

impl Clone for TimeSeries {
    fn clone(&self) -> (r: Self)
        ensures
            r@ == self@,
            self.wf() ==> r.wf(),
    {
        let r = TimeSeries {
            metric: copy_labels(&self.metric),
            values: self.values.clone(),
            timestamps: self.timestamps.clone(),
        };
        assert(r.values@ =~= self.values@);
        assert(r.timestamps@ =~= self.timestamps@);
        r
    }
}

/// A copy of a list of labels.
fn copy_labels(metric: &Vec<(String, String)>) -> (r: Vec<(String, String)>)
    ensures
        labels_of(r@) == labels_of(metric@),
{
    let mut out: Vec<(String, String)> = Vec::new();
    let mut i: usize = 0;
    while i < metric.len()
        invariant
            i <= metric.len(),
            labels_of(out@) == labels_of(metric@).take(i as int),
        decreases metric.len() - i,
    {
        let name = metric[i].0.clone();
        let value = metric[i].1.clone();
        let ghost before = labels_of(out@);
        out.push((name, value));
        assert(labels_of(out@) =~= before.push(labels_of(metric@)[i as int]));
        assert(labels_of(out@) =~= labels_of(metric@).take(i as int + 1));
        i += 1;
    }
    assert(labels_of(metric@).take(i as int) =~= labels_of(metric@));
    out
}

/// What a migration makes of one series.
#[derive(Debug, PartialEq, Eq)]
pub enum MigratedTimeSeries {
    /// The series passes as it is.
    Unchanged,
    /// One series takes its place.
    Changed(TimeSeries),
    /// Any number of series take its place.
    Rewrite(Vec<TimeSeries>),
    /// The series is dropped.
    Deleted,
}

/// What a `MigratedTimeSeries` is.
pub enum Outcome {
    Unchanged,
    Changed(Series),
    Rewrite(Seq<Series>),
    Deleted,
}

/// What a list of series holds.
pub open spec fn series_of(list: Seq<TimeSeries>) -> Seq<Series> {
    Seq::new(list.len(), |i: int| list[i]@)
}

/// Every series of a list is well formed.
pub open spec fn all_wf(list: Seq<TimeSeries>) -> bool {
    forall|i: int| 0 <= i < list.len() ==> (#[trigger] list[i]).wf()
}

impl View for MigratedTimeSeries {
    type V = Outcome;

    open spec fn view(&self) -> Outcome {
        match self {
            MigratedTimeSeries::Unchanged => Outcome::Unchanged,
            MigratedTimeSeries::Changed(series) => Outcome::Changed(series@),
            MigratedTimeSeries::Rewrite(list) => Outcome::Rewrite(series_of(list@)),
            MigratedTimeSeries::Deleted => Outcome::Deleted,
        }
    }
}

impl MigratedTimeSeries {
    /// Every series that the outcome holds is well formed.
    pub open spec fn wf(&self) -> bool {
        match self {
            MigratedTimeSeries::Changed(series) => series.wf(),
            MigratedTimeSeries::Rewrite(list) => all_wf(list@),
            _ => true,
        }
    }
}

} // verus!
