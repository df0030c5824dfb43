//! Statistics of a run: how many samples went out under each namespace, and which changes
//! were already reported.

use vstd::prelude::*;
use crate::metrics::{all_wf, series_of, MigratedTimeSeries, Outcome, Series, TimeSeries};
use crate::text::same;

verus! {

/// A reported change: the canonical form of the source and that of what took its place, or
/// `None` where the source was dropped.
pub type Change = (Seq<char>, Option<Seq<char>>);

/// A namespace and the number of samples counted under it.
pub type Count = (Seq<char>, nat);

/// How many underscores a text holds.
pub open spec fn underscores(text: Seq<char>) -> nat
    decreases text.len(),
{
    if text.len() == 0 {
        0
    } else {
        underscores(text.drop_last()) + if text.last() == '_' {
            1nat
        } else {
            0nat
        }
    }
}

/// The length of the longest prefix of `name` that holds at most one underscore.
pub open spec fn namespace_len(name: Seq<char>) -> int
    decreases name.len(),
{
    if name.len() == 0 || underscores(name) <= 1 {
        name.len() as int
    } else {
        namespace_len(name.drop_last())
    }
}

/// The namespace of a metric name: the name up to its second underscore, or all of it where
/// it has fewer than two.
pub open spec fn namespace_of(name: Seq<char>) -> Seq<char> {
    name.take(namespace_len(name))
}

/// A longer prefix holds at least as many underscores.
proof fn lemma_underscores_grow(text: Seq<char>, i: int, j: int)
    requires
        0 <= i <= j <= text.len(),
    ensures
        underscores(text.take(i)) <= underscores(text.take(j)),
    decreases j - i,
{
    if i < j {
        assert(text.take(j).drop_last() == text.take(j - 1));
        lemma_underscores_grow(text, i, j - 1);
    }
}

/// The namespace ends before an underscore that has exactly one underscore before it.
pub proof fn lemma_namespace_ends_at(name: Seq<char>, i: int)
    requires
        0 <= i < name.len(),
        name[i] == '_',
        underscores(name.take(i)) == 1,
    ensures
        namespace_of(name) == name.take(i),
    decreases name.len() - i,
{
    assert(name.take(i + 1).drop_last() == name.take(i));
    lemma_underscores_grow(name, i + 1, name.len() as int);
    assert(name.take(name.len() as int) == name);
    lemma_namespace_len_of_prefix(name, i, name.len() as int);
}

proof fn lemma_namespace_len_of_prefix(name: Seq<char>, i: int, k: int)
    requires
        0 <= i < k <= name.len(),
        name[i] == '_',
        underscores(name.take(i)) == 1,
    ensures
        namespace_len(name.take(k)) == i,
    decreases k,
{
    assert(name.take(i + 1).drop_last() == name.take(i));
    assert(name.take(i + 1).last() == name[i]);
    assert(underscores(name.take(i + 1)) == 2);
    lemma_underscores_grow(name, i + 1, k);
    assert(name.take(k).drop_last() == name.take(k - 1));
    assert(underscores(name.take(k)) >= 2);
    assert(namespace_len(name.take(k)) == namespace_len(name.take(k - 1)));
    if k - 1 > i {
        lemma_namespace_len_of_prefix(name, i, k - 1);
    } else {
        assert(namespace_len(name.take(i)) == name.take(i).len());
    }
}

/// A name with fewer than two underscores is its own namespace.
pub proof fn lemma_namespace_whole(name: Seq<char>)
    requires
        underscores(name) <= 1,
    ensures
        namespace_of(name) == name,
{
    assert(name.take(name.len() as int) == name);
}

/// The namespace of a metric name: the name up to its second underscore, or all of it where
/// it has fewer than two.
pub fn get_metric_namespace(name: &str) -> (r: &str)
    ensures
        r@ == namespace_of(name@),
{
    broadcast use vstd::string::axiom_spec_iter;
    let length = name.unicode_len();
    let mut delimiters: usize = 0;
    let mut index: usize = 0;
    assert(name@.take(0) =~= Seq::empty());
    for c in it: name.chars()
        invariant
            it.seq() == name@,
            length == name@.len(),
            index == it.index(),
            delimiters == underscores(name@.take(index as int)),
            delimiters <= 1,
    {
        proof {
            assert(name@.take(index + 1).drop_last() == name@.take(index as int));
        }
        if c == '_' {
            if delimiters >= 1 {
                proof {
                    lemma_namespace_ends_at(name@, index as int);
                }
                return name.substring_char(0, index);
            }
            delimiters += 1;
        }
        index += 1;
    }
    proof {
        assert(name@.take(index as int) == name@);
        lemma_namespace_whole(name@);
    }
    name
}

/// The sum of the counts.
pub open spec fn sum_of(counts: Seq<Count>) -> nat
    decreases counts.len(),
{
    if counts.len() == 0 {
        0
    } else {
        sum_of(counts.drop_last()) + counts.last().1
    }
}

/// The count of `namespace` stands at position `i`.
pub open spec fn counted_at(counts: Seq<Count>, namespace: Seq<char>, i: int) -> bool {
    0 <= i < counts.len() && counts[i].0 == namespace
}

/// No namespace has two counts.
pub open spec fn distinct(counts: Seq<Count>) -> bool {
    forall|i: int, j: int|
        0 <= i < j < counts.len() ==> (#[trigger] counts[i]).0 != (#[trigger] counts[j]).0
}

/// The counts after `samples` more samples under `namespace`: added to the count of that
/// namespace, or as a new count at the end where it has none yet.
pub open spec fn counted(counts: Seq<Count>, namespace: Seq<char>, samples: nat) -> Seq<Count> {
    if exists|i: int| counted_at(counts, namespace, i) {
        let i = choose|i: int| counted_at(counts, namespace, i);
        counts.update(i, (namespace, counts[i].1 + samples))
    } else {
        counts.push((namespace, samples))
    }
}

/// The changes after one more: put at the end unless it was reported before.
pub open spec fn noted(changes: Seq<Change>, change: Change) -> Seq<Change> {
    if changes.contains(change) {
        changes
    } else {
        changes.push(change)
    }
}

/// The line that reports a change.
pub open spec fn change_line(change: Change) -> Seq<char> {
    match change.1 {
        None => "Delete: "@ + change.0,
        Some(target) => if change.0 == target {
            "Change: "@ + change.0
        } else {
            "Change: "@ + change.0 + " -> "@ + target
        },
    }
}

/// The lines that report the changes of `after` that `before` did not hold yet.
pub open spec fn report(before: Seq<Change>, after: Seq<Change>) -> Seq<Seq<char>> {
    Seq::new((after.len() - before.len()) as nat, |i: int| change_line(after[before.len() + i]))
}

/// How many samples an outcome sends on: those of the source where it passes unchanged, those
/// of the series that take its place otherwise.
pub open spec fn transmitted(source: Series, outcome: Outcome) -> nat {
    match outcome {
        Outcome::Unchanged => source.samples.len(),
        Outcome::Changed(result) => result.samples.len(),
        Outcome::Rewrite(results) => samples_in(results),
        Outcome::Deleted => 0,
    }
}

/// The number of samples in a list of series.
pub open spec fn samples_in(list: Seq<Series>) -> nat
    decreases list.len(),
{
    if list.len() == 0 {
        0
    } else {
        samples_in(list.drop_last()) + list.last().samples.len()
    }
}

/// Every series of the list is without samples.
pub open spec fn all_empty(list: Seq<Series>) -> bool {
    forall|i: int| 0 <= i < list.len() ==> (#[trigger] list[i]).samples.len() == 0
}

/// What the statistics hold.
pub struct Tally {
    /// The samples sent on so far.
    pub total: nat,
    /// The changes reported so far, in the order of their first report.
    pub changes: Seq<Change>,
    /// The samples sent on under each namespace, in the order in which the namespaces came.
    pub metrics: Seq<Count>,
}

impl Tally {
    /// Nothing seen yet.
    pub open spec fn empty() -> Tally {
        Tally { total: 0, changes: Seq::empty(), metrics: Seq::empty() }
    }

    /// No namespace is counted twice, no change is held twice, and the counts add up to the
    /// total.
    pub open spec fn wf(self) -> bool {
        &&& distinct(self.metrics)
        &&& self.changes.no_duplicates()
        &&& sum_of(self.metrics) == self.total
    }

    /// The statistics after the samples of `series` were counted.
    pub open spec fn count(self, series: Series) -> Tally {
        Tally {
            total: self.total + series.samples.len(),
            changes: self.changes,
            metrics: counted(self.metrics, namespace_of(series.name()), series.samples.len()),
        }
    }

    /// The statistics after `source` was dropped.
    pub open spec fn on_deleted(self, source: Series) -> Tally {
        Tally {
            total: self.total,
            changes: noted(self.changes, (source.canonical(), None)),
            metrics: self.metrics,
        }
    }

    /// The statistics after `result` took the place of `source`. A result without samples
    /// counts as a deletion.
    pub open spec fn on_changed(self, source: Series, result: Series) -> Tally {
        if result.samples.len() == 0 {
            self.on_deleted(source)
        } else {
            Tally {
                total: self.total,
                changes: noted(self.changes, (source.canonical(), Some(result.canonical()))),
                metrics: self.metrics,
            }.count(result)
        }
    }

    /// The statistics after those of `results` that have samples took the place of `source`,
    /// one after the other.
    pub open spec fn on_each(self, source: Series, results: Seq<Series>) -> Tally
        decreases results.len(),
    {
        if results.len() == 0 {
            self
        } else {
            let before = self.on_each(source, results.drop_last());
            if results.last().samples.len() == 0 {
                before
            } else {
                before.on_changed(source, results.last())
            }
        }
    }

    /// The statistics after one more series and what became of it.
    pub open spec fn observe(self, source: Series, outcome: Outcome) -> Tally {
        match outcome {
            Outcome::Unchanged => self.count(source),
            Outcome::Changed(result) => self.on_changed(source, result),
            Outcome::Rewrite(results) => if all_empty(results) {
                self.on_each(source, results).on_deleted(source)
            } else {
                self.on_each(source, results)
            },
            Outcome::Deleted => self.on_deleted(source),
        }
    }
}

/// A count is part of the sum.
proof fn lemma_count_within_sum(counts: Seq<Count>, i: int)
    requires
        0 <= i < counts.len(),
    ensures
        counts[i].1 <= sum_of(counts),
    decreases counts.len(),
{
    if i < counts.len() - 1 {
        lemma_count_within_sum(counts.drop_last(), i);
    }
}

/// Raising one count raises the sum by as much.
proof fn lemma_sum_update(counts: Seq<Count>, i: int, entry: Count)
    requires
        0 <= i < counts.len(),
    ensures
        sum_of(counts.update(i, entry)) == sum_of(counts) - counts[i].1 + entry.1,
    decreases counts.len(),
{
    if i < counts.len() - 1 {
        lemma_sum_update(counts.drop_last(), i, entry);
        assert(counts.update(i, entry).drop_last() == counts.drop_last().update(i, entry));
    } else {
        assert(counts.update(i, entry).drop_last() == counts.drop_last());
    }
}

/// Counting keeps the namespaces distinct and raises the sum by the samples counted.
proof fn lemma_counted(counts: Seq<Count>, namespace: Seq<char>, samples: nat)
    requires
        distinct(counts),
    ensures
        distinct(counted(counts, namespace, samples)),
        sum_of(counted(counts, namespace, samples)) == sum_of(counts) + samples,
{
    let out = counted(counts, namespace, samples);
    if exists|i: int| counted_at(counts, namespace, i) {
        let i = choose|i: int| counted_at(counts, namespace, i);
        lemma_sum_update(counts, i, (namespace, counts[i].1 + samples));
        assert forall|a: int, b: int| 0 <= a < b < out.len() implies (#[trigger] out[a]).0 != (
        #[trigger] out[b]).0 by {
            assert(out[a].0 == counts[a].0);
            assert(out[b].0 == counts[b].0);
        }
    } else {
        assert(out.drop_last() == counts);
        assert forall|a: int, b: int| 0 <= a < b < out.len() implies (#[trigger] out[a]).0 != (
        #[trigger] out[b]).0 by {
            if b == counts.len() {
                assert(!counted_at(counts, namespace, a));
            }
        }
    }
}

/// Noting a change keeps the changes distinct.
proof fn lemma_noted(changes: Seq<Change>, change: Change)
    requires
        changes.no_duplicates(),
    ensures
        noted(changes, change).no_duplicates(),
        noted(changes, change).contains(change),
        noted(noted(changes, change), change) == noted(changes, change),
{
    let out = noted(changes, change);
    if !changes.contains(change) {
        assert forall|a: int, b: int|
            0 <= a < out.len() && 0 <= b < out.len() && a != b implies out[a] != out[b] by {
            if a == changes.len() {
                assert(changes[b] == out[b]);
                assert(changes.contains(changes[b]));
            } else if b == changes.len() {
                assert(changes[a] == out[a]);
                assert(changes.contains(changes[a]));
            }
        }
        assert(out[changes.len() as int] == change);
    }
}

/// The invariant of the statistics: whatever is observed, no namespace is counted twice, no
/// change is held twice, the counts of the namespaces add up to the total, and the total has
/// grown by the samples sent on.
pub proof fn lemma_observe(tally: Tally, source: Series, outcome: Outcome)
    requires
        tally.wf(),
    ensures
        tally.observe(source, outcome).wf(),
        tally.observe(source, outcome).total == tally.total + transmitted(source, outcome),
        sum_of(tally.observe(source, outcome).metrics) == tally.observe(source, outcome).total,
{
    match outcome {
        Outcome::Unchanged => {
            lemma_count(tally, source);
        },
        Outcome::Changed(result) => {
            lemma_on_changed(tally, source, result);
        },
        Outcome::Rewrite(results) => {
            lemma_on_each(tally, source, results);
            lemma_on_deleted(tally.on_each(source, results), source);
        },
        Outcome::Deleted => {
            lemma_on_deleted(tally, source);
        },
    }
}

proof fn lemma_count(tally: Tally, series: Series)
    requires
        tally.wf(),
    ensures
        tally.count(series).wf(),
        tally.count(series).total == tally.total + series.samples.len(),
        tally.count(series).changes == tally.changes,
{
    lemma_counted(tally.metrics, namespace_of(series.name()), series.samples.len());
}

proof fn lemma_on_deleted(tally: Tally, source: Series)
    requires
        tally.wf(),
    ensures
        tally.on_deleted(source).wf(),
        tally.on_deleted(source).total == tally.total,
{
    lemma_noted(tally.changes, (source.canonical(), None));
}

proof fn lemma_on_changed(tally: Tally, source: Series, result: Series)
    requires
        tally.wf(),
    ensures
        tally.on_changed(source, result).wf(),
        tally.on_changed(source, result).total == tally.total + result.samples.len(),
{
    if result.samples.len() == 0 {
        lemma_on_deleted(tally, source);
    } else {
        let change = (source.canonical(), Some(result.canonical()));
        lemma_noted(tally.changes, change);
        lemma_count(
            Tally {
                total: tally.total,
                changes: noted(tally.changes, change),
                metrics: tally.metrics,
            },
            result,
        );
    }
}

proof fn lemma_on_each(tally: Tally, source: Series, results: Seq<Series>)
    requires
        tally.wf(),
    ensures
        tally.on_each(source, results).wf(),
        tally.on_each(source, results).total == tally.total + samples_in(results),
    decreases results.len(),
{
    if results.len() > 0 {
        lemma_on_each(tally, source, results.drop_last());
        lemma_on_changed(tally.on_each(source, results.drop_last()), source, results.last());
    }
}

/// A result without samples is a deletion to the statistics: one series without samples in
/// the place of the source, or any number of them, leaves them as the loss of the source does.
pub proof fn lemma_empty_result_is_deletion(tally: Tally, source: Series, outcome: Outcome)
    requires
        match outcome {
            Outcome::Changed(result) => result.samples.len() == 0,
            Outcome::Rewrite(results) => all_empty(results),
            _ => false,
        },
    ensures
        tally.observe(source, outcome) == tally.observe(source, Outcome::Deleted),
        transmitted(source, outcome) == 0,
{
    match outcome {
        Outcome::Rewrite(results) => {
            lemma_on_each_of_empty(tally, source, results);
            lemma_no_samples_in_empty(results);
        },
        _ => {},
    }
}

/// Series without samples hold no samples.
proof fn lemma_no_samples_in_empty(list: Seq<Series>)
    requires
        all_empty(list),
    ensures
        samples_in(list) == 0,
    decreases list.len(),
{
    if list.len() > 0 {
        assert(list.last().samples.len() == 0);
        assert forall|i: int| 0 <= i < list.drop_last().len() implies (
        #[trigger] list.drop_last()[i]).samples.len() == 0 by {
            assert(list.drop_last()[i] == list[i]);
        }
        lemma_no_samples_in_empty(list.drop_last());
    }
}

/// Observed a second time, a series and its outcome are reported no more: the list of
/// changes stays as the first observation left it.
pub proof fn lemma_observed_twice(tally: Tally, source: Series, outcome: Outcome)
    requires
        tally.wf(),
    ensures
        tally.observe(source, outcome).observe(source, outcome).changes == tally.observe(
            source,
            outcome,
        ).changes,
{
    let once = tally.observe(source, outcome);
    match outcome {
        Outcome::Unchanged => {
            assert(once.count(source).changes == once.changes);
        },
        Outcome::Changed(result) => {
            lemma_on_changed_holds(tally, source, result);
            lemma_on_changed_silent(once, source, result);
        },
        Outcome::Rewrite(results) => {
            lemma_on_each(tally, source, results);
            lemma_on_each_holds(tally, source, results);
            let each = tally.on_each(source, results);
            if all_empty(results) {
                lemma_on_each_of_empty(tally, source, results);
                lemma_on_each_of_empty(once, source, results);
                lemma_noted(tally.changes, (source.canonical(), None));
            } else {
                lemma_on_each_again(once, source, results, results.len() as int);
                assert(results.take(results.len() as int) == results);
            }
        },
        Outcome::Deleted => {
            lemma_noted(tally.changes, (source.canonical(), None));
        },
    }
}

/// The change that `result` in the place of `source` is reported as.
pub open spec fn change_of(source: Series, result: Series) -> Change {
    if result.samples.len() == 0 {
        (source.canonical(), None)
    } else {
        (source.canonical(), Some(result.canonical()))
    }
}

/// A change that was reported is reported no more, whatever series bring it. Where a second
/// source and result stand for the change of a first pair (their canonical forms are those of
/// the first, and both results have samples or both have none), the second observation leaves
/// the list of changes as it is and reports nothing; over both, the list grows by that one
/// change, if it was not held before.
pub proof fn lemma_same_change_is_silent(
    tally: Tally,
    source: Series,
    result: Series,
    again_source: Series,
    again_result: Series,
)
    requires
        change_of(again_source, again_result) == change_of(source, result),
    ensures
        ({
            let once = tally.observe(source, Outcome::Changed(result));
            let twice = once.observe(again_source, Outcome::Changed(again_result));
            &&& once.changes == noted(tally.changes, change_of(source, result))
            &&& twice.changes == once.changes
            &&& report(once.changes, twice.changes).len() == 0
            &&& once.changes.len() <= tally.changes.len() + 1
        }),
{
    let once = tally.observe(source, Outcome::Changed(result));
    lemma_on_changed_holds(tally, source, result);
    lemma_on_changed_silent(once, again_source, again_result);
}

/// What was held stays held when a result is observed, and the change of that result is
/// held after it.
proof fn lemma_on_changed_holds(tally: Tally, source: Series, result: Series)
    ensures
        tally.on_changed(source, result).changes.contains(change_of(source, result)),
        forall|change: Change| #[trigger]
            tally.changes.contains(change) ==> tally.on_changed(source, result).changes.contains(
                change,
            ),
{
    let change = change_of(source, result);
    let noted_once = noted(tally.changes, change);
    assert(tally.on_changed(source, result).changes == noted_once);
    if !tally.changes.contains(change) {
        assert(noted_once[tally.changes.len() as int] == change);
    }
    assert forall|other: Change| #[trigger] tally.changes.contains(other) implies noted_once.contains(
        other,
    ) by {
        let i = choose|i: int| 0 <= i < tally.changes.len() && tally.changes[i] == other;
        assert(noted_once[i] == other);
    }
}

/// A result whose change is held already is not reported again.
proof fn lemma_on_changed_silent(later: Tally, source: Series, result: Series)
    requires
        later.changes.contains(change_of(source, result)),
    ensures
        later.on_changed(source, result).changes == later.changes,
{
}

/// Without a result that has samples, nothing is counted or reported.
proof fn lemma_on_each_of_empty(tally: Tally, source: Series, results: Seq<Series>)
    requires
        all_empty(results),
    ensures
        tally.on_each(source, results) == tally,
    decreases results.len(),
{
    if results.len() > 0 {
        assert(results.last().samples.len() == 0);
        assert forall|i: int| 0 <= i < results.drop_last().len() implies (
        #[trigger] results.drop_last()[i]).samples.len() == 0 by {
            assert(results.drop_last()[i] == results[i]);
        }
        lemma_on_each_of_empty(tally, source, results.drop_last());
    }
}

/// After the results were observed one after the other, the change of each that has samples
/// is held, and so is every change held before.
proof fn lemma_on_each_holds(tally: Tally, source: Series, results: Seq<Series>)
    ensures
        forall|i: int|
            0 <= i < results.len() && (#[trigger] results[i]).samples.len() > 0
                ==> tally.on_each(source, results).changes.contains(change_of(source, results[i])),
        forall|change: Change| #[trigger]
            tally.changes.contains(change) ==> tally.on_each(source, results).changes.contains(
                change,
            ),
    decreases results.len(),
{
    if results.len() > 0 {
        let rest = results.drop_last();
        let before = tally.on_each(source, rest);
        lemma_on_each_holds(tally, source, rest);
        lemma_on_changed_holds(before, source, results.last());
        assert forall|i: int|
            0 <= i < results.len() && (#[trigger] results[i]).samples.len() > 0 implies tally.on_each(
            source,
            results,
        ).changes.contains(change_of(source, results[i])) by {
            if i < results.len() - 1 {
                assert(rest[i] == results[i]);
                assert(before.changes.contains(change_of(source, results[i])));
            }
        }
    }
}

/// Where the change of each result that has samples is held already, observing the first `n`
/// results reports nothing.
proof fn lemma_on_each_again(later: Tally, source: Series, results: Seq<Series>, n: int)
    requires
        0 <= n <= results.len(),
        forall|i: int|
            0 <= i < results.len() && (#[trigger] results[i]).samples.len() > 0
                ==> later.changes.contains(change_of(source, results[i])),
    ensures
        later.on_each(source, results.take(n)).changes == later.changes,
    decreases n,
{
    if n > 0 {
        assert(results.take(n).drop_last() == results.take(n - 1));
        assert(results.take(n).last() == results[n - 1]);
        lemma_on_each_again(later, source, results, n - 1);
        let before = later.on_each(source, results.take(n - 1));
        if results[n - 1].samples.len() > 0 {
            lemma_on_changed_silent(before, source, results[n - 1]);
        }
    } else {
        assert(results.take(0).len() == 0);
    }
    if n == results.len() {
        assert(results.take(n) == results);
    }
}

/// The changes that a list of canonical forms holds.
pub open spec fn changes_of(changes: Seq<(String, Option<String>)>) -> Seq<Change> {
    Seq::new(
        changes.len(),
        |i: int|
            (
                changes[i].0@,
                match changes[i].1 {
                    Some(target) => Some(target@),
                    None => None,
                },
            ),
    )
}

/// The counts that a list of namespaces and numbers holds.
pub open spec fn counts_of(metrics: Seq<(String, u64)>) -> Seq<Count> {
    Seq::new(metrics.len(), |i: int| (metrics[i].0@, metrics[i].1 as nat))
}

/// The texts of a list of strings.
pub open spec fn texts_of(lines: Seq<String>) -> Seq<Seq<char>> {
    Seq::new(lines.len(), |i: int| lines[i]@)
}

/// Running statistics of one run.
#[derive(Debug)]
pub struct Stat {
    total: u64,
    changes: Vec<(String, Option<String>)>,
    metrics: Vec<(String, u64)>,
}

impl View for Stat {
    type V = Tally;

    closed spec fn view(&self) -> Tally {
        Tally {
            total: self.total as nat,
            changes: changes_of(self.changes@),
            metrics: counts_of(self.metrics@),
        }
    }
}

impl Stat {
    /// No namespace is counted twice, no change is held twice, and the counts of the namespaces
    /// add up to the total.
    pub open spec fn wf(&self) -> bool {
        self@.wf()
    }

    /// The total fits its counter.
    pub proof fn lemma_total_fits(&self)
        ensures
            self@.total <= u64::MAX,
    {
    }

    /// Statistics that have seen nothing.
    pub fn new() -> (r: Stat)
        ensures
            r.wf(),
            r@ == Tally::empty(),
    {
        let r = Stat { total: 0, changes: Vec::new(), metrics: Vec::new() };
        assert(r@.changes =~= Seq::empty());
        assert(r@.metrics =~= Seq::empty());
        r
    }

    /// The samples sent on so far.
    pub fn total(&self) -> (r: u64)
        requires
            self.wf(),
        ensures
            r == self@.total,
    {
        self.total
    }

    /// Takes in one series and what became of it: counts the samples that are sent on under
    /// the namespace of the series that holds them, and reports the change unless the same
    /// change was reported before. Returns the lines of the report.
    #[verifier::loop_isolation(false)]
    pub fn add(&mut self, source: &TimeSeries, result: &MigratedTimeSeries) -> (lines: Vec<String>)
        requires
            old(self).wf(),
            source.wf(),
            result.wf(),
            old(self)@.total + transmitted(source@, result@) <= u64::MAX,
        ensures
            final(self).wf(),
            final(self)@ == old(self)@.observe(source@, result@),
            final(self)@.changes.len() == old(self)@.changes.len() + lines@.len(),
            texts_of(lines@) == report(old(self)@.changes, final(self)@.changes),
    {
        let mut lines: Vec<String> = Vec::new();
        let ghost before = self@;
        assert(texts_of(lines@) =~= report(before.changes, before.changes));
        proof {
            lemma_observe(before, source@, result@);
        }
        match result {
            MigratedTimeSeries::Unchanged => {
                self.count(source);
            },
            MigratedTimeSeries::Changed(result) => {
                let line = self.on_changed(source, result);
                push_line(
                    &mut lines,
                    line,
                    Ghost(before.changes),
                    Ghost(before.changes),
                    Ghost(change_of(source@, result@)),
                );
            },
            MigratedTimeSeries::Rewrite(results) => {
                let mut is_empty = true;
                let mut i: usize = 0;
                let ghost list = series_of(results@);
                assert(list.take(0) =~= Seq::empty());
                while i < results.len()
                    invariant
                        i <= results.len(),
                        self.wf(),
                        source.wf(),
                        all_wf(results@),
                        list == series_of(results@),
                        before.total + samples_in(list) <= u64::MAX,
                        self@ == before.on_each(source@, list.take(i as int)),
                        is_empty == all_empty(list.take(i as int)),
                        self@.changes.len() >= before.changes.len(),
                        texts_of(lines@) == report(before.changes, self@.changes),
                    decreases results.len() - i,
                {
                    proof {
                        assert(list.take(i as int + 1).drop_last() == list.take(i as int));
                        assert(list.take(i as int + 1).last() == results[i as int]@);
                        lemma_on_each(before, source@, list.take(i as int));
                        lemma_samples_in_prefix(list, i as int + 1);
                        if all_empty(list.take(i as int + 1)) {
                            assert forall|j: int| 0 <= j < i implies (#[trigger] list.take(
                                i as int,
                            )[j]).samples.len() == 0 by {
                                assert(list.take(i as int + 1)[j] == list.take(i as int)[j]);
                            }
                        }
                        if all_empty(list.take(i as int)) && results[i as int]@.samples.len() == 0 {
                            assert forall|j: int| 0 <= j < i + 1 implies (#[trigger] list.take(
                                i as int + 1,
                            )[j]).samples.len() == 0 by {
                                if j < i {
                                    assert(list.take(i as int + 1)[j] == list.take(i as int)[j]);
                                }
                            }
                        }
                        if results[i as int]@.samples.len() > 0 {
                            assert(list.take(i as int + 1)[i as int].samples.len() > 0);
                        }
                    }
                    if !results[i].is_empty() {
                        let ghost held = self@.changes;
                        let line = self.on_changed(source, &results[i]);
                        push_line(
                            &mut lines,
                            line,
                            Ghost(before.changes),
                            Ghost(held),
                            Ghost(change_of(source@, results[i as int]@)),
                        );
                        is_empty = false;
                    }
                    i += 1;
                }
                assert(list.take(i as int) == list);
                if is_empty {
                    proof {
                        lemma_on_each(before, source@, list);
                    }
                    let ghost held = self@.changes;
                    let line = self.on_deleted(source);
                    push_line(
                        &mut lines,
                        line,
                        Ghost(before.changes),
                        Ghost(held),
                        Ghost((source@.canonical(), None)),
                    );
                }
            },
            MigratedTimeSeries::Deleted => {
                let line = self.on_deleted(source);
                push_line(
                    &mut lines,
                    line,
                    Ghost(before.changes),
                    Ghost(before.changes),
                    Ghost((source@.canonical(), None)),
                );
            },
        }
        assert(texts_of(lines@).len() == lines@.len());
        lines
    }

    /// Counts the samples of a series under its namespace.
    #[verifier::loop_isolation(false)]
    fn count(&mut self, time_series: &TimeSeries)
        requires
            old(self).wf(),
            time_series.wf(),
            old(self)@.total + time_series@.samples.len() <= u64::MAX,
        ensures
            final(self).wf(),
            final(self)@ == old(self)@.count(time_series@),
    {
        let namespace = get_metric_namespace(time_series.name());
        let count = time_series.len() as u64;
        let ghost counts = self@.metrics;
        assert(count == time_series@.samples.len());
        assert(self.total + count <= u64::MAX);
        proof {
            lemma_counted(counts, namespace@, count as nat);
        }
        let mut i: usize = 0;
        while i < self.metrics.len()
            invariant
                *self == *old(self),
                i <= self.metrics.len(),
                counts == counts_of(self.metrics@),
                forall|j: int| 0 <= j < i ==> !counted_at(counts, namespace@, j),
            decreases self.metrics.len() - i,
        {
            if same(self.metrics[i].0.as_str(), namespace) {
                proof {
                    assert(counted_at(counts, namespace@, i as int));
                    let k = choose|k: int| counted_at(counts, namespace@, k);
                    assert(k == i);
                    lemma_count_within_sum(counts, i as int);
                }
                let name = self.metrics[i].0.clone();
                let raised = self.metrics[i].1 + count;
                self.metrics.set(i, (name, raised));
                self.total = self.total + count;
                assert(self@.metrics =~= counts.update(
                    i as int,
                    (namespace@, counts[i as int].1 + count as nat),
                ));
                return ;
            }
            i += 1;
        }
        assert(!exists|k: int| counted_at(counts, namespace@, k));
        self.metrics.push((namespace.to_owned(), count));
        self.total = self.total + count;
        assert(self@.metrics =~= counts.push((namespace@, count as nat)));
    }

    /// Holds a change, and returns the line that reports it unless it was held before.
    #[verifier::loop_isolation(false)]
    fn note(&mut self, source: String, target: Option<String>) -> (line: Option<String>)
        requires
            old(self).wf(),
        ensures
            final(self).wf(),
            final(self)@.total == old(self)@.total,
            final(self)@.metrics == old(self)@.metrics,
            final(self)@.changes == noted(old(self)@.changes, change_view(source, target)),
            line is None <==> old(self)@.changes.contains(change_view(source, target)),
            line matches Some(text) ==> text@ == change_line(change_view(source, target)),
    {
        let ghost change = change_view(source, target);
        let ghost held = self@.changes;
        proof {
            lemma_noted(held, change);
        }
        let mut i: usize = 0;
        while i < self.changes.len()
            invariant
                *self == *old(self),
                i <= self.changes.len(),
                held == changes_of(self.changes@),
                change == change_view(source, target),
                forall|j: int| 0 <= j < i ==> held[j] != change,
            decreases self.changes.len() - i,
        {
            let same_target = match (&self.changes[i].1, &target) {
                (Some(a), Some(b)) => same(a.as_str(), b.as_str()),
                (None, None) => true,
                _ => false,
            };
            if same_target && same(self.changes[i].0.as_str(), source.as_str()) {
                assert(held[i as int] == change);
                return None;
            }
            i += 1;
        }
        assert(!held.contains(change));
        let line = match &target {
            None => {
                let mut line = "Delete: ".to_owned();
                line.append(source.as_str());
                line
            },
            Some(target) => {
                let mut line = "Change: ".to_owned();
                line.append(source.as_str());
                if !same(source.as_str(), target.as_str()) {
                    line.append(" -> ");
                    line.append(target.as_str());
                }
                line
            },
        };
        self.changes.push((source, target));
        assert(self@.changes =~= held.push(change));
        Some(line)
    }

    /// Takes in a series that took the place of `source`. One without samples counts as a
    /// deletion.
    fn on_changed(&mut self, source: &TimeSeries, result: &TimeSeries) -> (line: Option<String>)
        requires
            old(self).wf(),
            source.wf(),
            result.wf(),
            old(self)@.total + result@.samples.len() <= u64::MAX,
        ensures
            final(self).wf(),
            final(self)@ == old(self)@.on_changed(source@, result@),
            final(self)@.changes == noted(old(self)@.changes, change_of(source@, result@)),
            line is None <==> old(self)@.changes.contains(change_of(source@, result@)),
            line matches Some(text) ==> text@ == change_line(change_of(source@, result@)),
    {
        if result.is_empty() {
            return self.on_deleted(source);
        }
        let line = self.note(source.format_metric(), Some(result.format_metric()));
        self.count(result);
        line
    }

    /// Takes in the loss of `source`.
    fn on_deleted(&mut self, source: &TimeSeries) -> (line: Option<String>)
        requires
            old(self).wf(),
            source.wf(),
        ensures
            final(self).wf(),
            final(self)@ == old(self)@.on_deleted(source@),
            line is None <==> old(self)@.changes.contains((source@.canonical(), None)),
            line matches Some(text) ==> text@ == change_line((source@.canonical(), None)),
    {
        self.note(source.format_metric(), None)
    }
}

impl Stat {
    /// Whether the counters have room for what an outcome sends on.
    pub fn has_room(&self, source: &TimeSeries, result: &MigratedTimeSeries) -> (r: bool)
        requires
            self.wf(),
            source.wf(),
            result.wf(),
        ensures
            r == (self@.total + transmitted(source@, result@) <= u64::MAX),
    {
        let room: u64 = u64::MAX - self.total;
        match result {
            MigratedTimeSeries::Unchanged => source.len() as u64 <= room,
            MigratedTimeSeries::Changed(result) => result.len() as u64 <= room,
            MigratedTimeSeries::Rewrite(results) => {
                let ghost list = series_of(results@);
                let mut left: u64 = room;
                let mut i: usize = 0;
                assert(list.take(0) =~= Seq::empty());
                while i < results.len()
                    invariant
                        i <= results.len(),
                        all_wf(results@),
                        list == series_of(results@),
                        room == u64::MAX - self.total,
                        self@.total == self.total,
                        transmitted(source@, result@) == samples_in(list),
                        left + samples_in(list.take(i as int)) == room,
                    decreases results.len() - i,
                {
                    let samples = results[i].len() as u64;
                    proof {
                        assert(list.take(i as int + 1).drop_last() == list.take(i as int));
                        assert(list.take(i as int + 1).last() == results[i as int]@);
                        assert(samples_in(list.take(i as int + 1)) == samples_in(list.take(i as int))
                            + samples);
                        lemma_samples_in_prefix(list, i as int + 1);
                    }
                    if samples > left {
                        return false;
                    }
                    left = left - samples;
                    i += 1;
                }
                assert(list.take(i as int) == list);
                true
            },
            MigratedTimeSeries::Deleted => true,
        }
    }
}

/// The change that two canonical forms stand for.
pub open spec fn change_view(source: String, target: Option<String>) -> Change {
    (
        source@,
        match target {
            Some(target) => Some(target@),
            None => None,
        },
    )
}

/// The samples of the first `n` series are among those of all.
proof fn lemma_samples_in_prefix(list: Seq<Series>, n: int)
    requires
        0 <= n <= list.len(),
    ensures
        samples_in(list.take(n)) <= samples_in(list),
    decreases list.len() - n,
{
    if n < list.len() {
        lemma_samples_in_prefix(list, n + 1);
        assert(list.take(n + 1).drop_last() == list.take(n));
    } else {
        assert(list.take(n) == list);
    }
}

/// Adds the line of a change to the report, where the change was not held before.
fn push_line(
    lines: &mut Vec<String>,
    line: Option<String>,
    Ghost(before): Ghost<Seq<Change>>,
    Ghost(held): Ghost<Seq<Change>>,
    Ghost(change): Ghost<Change>,
)
    requires
        held.len() >= before.len(),
        texts_of(old(lines)@) == report(before, held),
        line is None <==> held.contains(change),
        line matches Some(text) ==> text@ == change_line(change),
    ensures
        texts_of(final(lines)@) == report(before, noted(held, change)),
        noted(held, change).len() >= before.len(),
{
    match line {
        Some(text) => {
            let ghost earlier = texts_of(lines@);
            lines.push(text);
            let ghost longer = held.push(change);
            assert forall|i: int| 0 <= i < texts_of(lines@).len() implies texts_of(lines@)[i]
                == report(before, longer)[i] by {
                if i < earlier.len() {
                    assert(texts_of(lines@)[i] == earlier[i]);
                    assert(earlier[i] == report(before, held)[i]);
                    assert(longer[before.len() + i] == held[before.len() + i]);
                }
            }
            assert(texts_of(lines@) =~= report(before, longer));
        },
        None => {},
    }
}

/// Whether a count is shown in a row of its own: it is at least one hundredth of the total.
pub open spec fn shown(count: nat, total: nat) -> bool {
    count * 100 >= total
}

/// How many rows hold at least `count`. Where the rows descend, this is the place of a new row
/// of that count behind its equals.
pub open spec fn ahead(rows: Seq<Count>, count: nat) -> int
    decreases rows.len(),
{
    if rows.len() == 0 {
        0
    } else {
        ahead(rows.drop_last(), count) + if rows.last().1 >= count {
            1int
        } else {
            0int
        }
    }
}

/// The rows with one more, behind the rows that hold as much or more.
pub open spec fn ranked(rows: Seq<Count>, row: Count) -> Seq<Count> {
    rows.insert(ahead(rows, row.1), row)
}

/// The counts that are shown, by descending count; among equals, the namespace that came
/// first stays first.
pub open spec fn listed(metrics: Seq<Count>, total: nat) -> Seq<Count>
    decreases metrics.len(),
{
    if metrics.len() == 0 {
        Seq::empty()
    } else if shown(metrics.last().1, total) {
        ranked(listed(metrics.drop_last(), total), metrics.last())
    } else {
        listed(metrics.drop_last(), total)
    }
}

/// The sum of the counts that are not shown.
pub open spec fn unlisted(metrics: Seq<Count>, total: nat) -> nat
    decreases metrics.len(),
{
    if metrics.len() == 0 {
        0
    } else if shown(metrics.last().1, total) {
        unlisted(metrics.drop_last(), total)
    } else {
        unlisted(metrics.drop_last(), total) + metrics.last().1
    }
}

/// The rows of the summary: none where nothing was sent on; else the counts that are shown,
/// and behind them, where the others are not zero, their sum under the name `other`.
pub open spec fn summary_rows(metrics: Seq<Count>, total: nat) -> Seq<Count> {
    if total == 0 {
        Seq::empty()
    } else if unlisted(metrics, total) != 0 {
        listed(metrics, total).push(("other"@, unlisted(metrics, total)))
    } else {
        listed(metrics, total)
    }
}

/// The counts descend.
pub open spec fn descending(rows: Seq<Count>) -> bool {
    forall|i: int, j: int|
        0 <= i < j < rows.len() ==> (#[trigger] rows[i]).1 >= (#[trigger] rows[j]).1
}

/// In descending rows, the place before which all rows hold at least `count` and from which
/// on none does is `ahead`.
proof fn lemma_ahead(rows: Seq<Count>, count: nat, i: int)
    requires
        descending(rows),
        0 <= i <= rows.len(),
        forall|j: int| 0 <= j < i ==> (#[trigger] rows[j]).1 >= count,
        i < rows.len() ==> rows[i].1 < count,
    ensures
        ahead(rows, count) == i,
    decreases rows.len(),
{
    if rows.len() > 0 {
        let rest = rows.drop_last();
        let n = rows.len() - 1;
        assert forall|a: int, b: int| 0 <= a < b < rest.len() implies (#[trigger] rest[a]).1 >= (
        #[trigger] rest[b]).1 by {
            assert(rest[a] == rows[a]);
            assert(rest[b] == rows[b]);
        }
        assert forall|j: int| 0 <= j < i && j < n implies (#[trigger] rest[j]).1 >= count by {
            assert(rest[j] == rows[j]);
        }
        if i <= n {
            assert(rows[i].1 >= rows[n].1);
            if i < n {
                assert(rest[i] == rows[i]);
            }
            lemma_ahead(rest, count, i);
        } else {
            lemma_ahead(rest, count, n);
        }
    }
}

/// `ahead` lies within the rows; in descending rows all rows before it hold at least
/// `count` and all rows from it on hold less.
proof fn lemma_ahead_bounds(rows: Seq<Count>, count: nat)
    requires
        descending(rows),
    ensures
        0 <= ahead(rows, count) <= rows.len(),
        forall|j: int| 0 <= j < ahead(rows, count) ==> (#[trigger] rows[j]).1 >= count,
        forall|j: int| ahead(rows, count) <= j < rows.len() ==> (#[trigger] rows[j]).1 < count,
    decreases rows.len(),
{
    if rows.len() > 0 {
        let rest = rows.drop_last();
        let n = rows.len() - 1;
        assert forall|a: int, b: int| 0 <= a < b < rest.len() implies (#[trigger] rest[a]).1 >= (
        #[trigger] rest[b]).1 by {
            assert(rest[a] == rows[a]);
            assert(rest[b] == rows[b]);
        }
        lemma_ahead_bounds(rest, count);
        assert forall|j: int| 0 <= j < n implies rest[j] == rows[j] by {}
        if rows[n].1 >= count {
            assert forall|j: int| 0 <= j < n implies (#[trigger] rows[j]).1 >= count by {
                assert(rows[j].1 >= rows[n].1);
            }
            if ahead(rest, count) < n {
                assert(rest[ahead(rest, count)].1 < count);
            }
        } else {
            assert forall|j: int| 0 <= j < ahead(rows, count) implies (#[trigger] rows[j]).1
                >= count by {
                assert(rest[j].1 >= count);
            }
            assert forall|j: int| ahead(rows, count) <= j < rows.len() implies (#[trigger] rows[j]).1
                < count by {
                if j < n {
                    assert(rest[j].1 < count);
                }
            }
        }
    }
}

/// The rows that are shown descend by count, each of them is a count that is shown, and
/// together with what is not shown they add up to the sum of all counts.
pub proof fn lemma_listed(metrics: Seq<Count>, total: nat)
    ensures
        descending(listed(metrics, total)),
        listed(metrics, total).len() <= metrics.len(),
        sum_of(listed(metrics, total)) + unlisted(metrics, total) == sum_of(metrics),
        forall|i: int|
            0 <= i < listed(metrics, total).len() ==> shown(
                (#[trigger] listed(metrics, total)[i]).1,
                total,
            ) && metrics.contains(listed(metrics, total)[i]),
        forall|i: int|
            0 <= i < metrics.len() && shown((#[trigger] metrics[i]).1, total) ==> listed(
                metrics,
                total,
            ).contains(metrics[i]),
    decreases metrics.len(),
{
    if metrics.len() > 0 {
        let rest = metrics.drop_last();
        let last = metrics.last();
        let head = listed(rest, total);
        lemma_listed(rest, total);
        let out = listed(metrics, total);
        if shown(last.1, total) {
            let at = ahead(head, last.1);
            lemma_ahead_bounds(head, last.1);
            lemma_sum_insert(head, at, last);
            assert forall|a: int, b: int| 0 <= a < b < out.len() implies (#[trigger] out[a]).1 >= (
            #[trigger] out[b]).1 by {
                let a0 = if a < at { a } else { a - 1 };
                let b0 = if b < at { b } else { b - 1 };
                if a != at && b != at {
                    assert(out[a] == head[a0]);
                    assert(out[b] == head[b0]);
                } else if a == at {
                    assert(out[b] == head[b0]);
                } else {
                    assert(out[a] == head[a0]);
                }
            }
            assert forall|i: int| 0 <= i < out.len() implies shown((#[trigger] out[i]).1, total)
                && metrics.contains(out[i]) by {
                if i == at {
                    assert(metrics[metrics.len() - 1] == last);
                } else {
                    let i0 = if i < at { i } else { i - 1 };
                    assert(out[i] == head[i0]);
                    assert(rest.contains(head[i0]));
                    let k = choose|k: int| 0 <= k < rest.len() && rest[k] == head[i0];
                    assert(metrics[k] == head[i0]);
                }
            }
            assert forall|i: int|
                0 <= i < metrics.len() && shown((#[trigger] metrics[i]).1, total) implies out.contains(
                metrics[i],
            ) by {
                if i == metrics.len() - 1 {
                    assert(out[at] == last);
                } else {
                    assert(rest[i] == metrics[i]);
                    assert(head.contains(metrics[i]));
                    let k = choose|k: int| 0 <= k < head.len() && head[k] == metrics[i];
                    let k1 = if k < at { k } else { k + 1 };
                    assert(out[k1] == metrics[i]);
                }
            }
        } else {
            assert forall|i: int| 0 <= i < out.len() implies shown((#[trigger] out[i]).1, total)
                && metrics.contains(out[i]) by {
                assert(rest.contains(head[i]));
                let k = choose|k: int| 0 <= k < rest.len() && rest[k] == head[i];
                assert(metrics[k] == head[i]);
            }
            assert forall|i: int|
                0 <= i < metrics.len() && shown((#[trigger] metrics[i]).1, total) implies out.contains(
                metrics[i],
            ) by {
                assert(rest[i] == metrics[i]);
            }
        }
    }
}

/// Of two counts that are shown, one that came first and is no smaller stands first among
/// the rows.
pub proof fn lemma_listed_keeps_order(metrics: Seq<Count>, total: nat, a: int, b: int)
    requires
        0 <= a < b < metrics.len(),
        shown(metrics[a].1, total),
        shown(metrics[b].1, total),
        metrics[a].1 >= metrics[b].1,
    ensures
        exists|i: int, j: int|
            0 <= i < j < listed(metrics, total).len() && #[trigger] listed(metrics, total)[i]
                == metrics[a] && #[trigger] listed(metrics, total)[j] == metrics[b],
    decreases metrics.len(),
{
    let rest = metrics.drop_last();
    let last = metrics.last();
    let head = listed(rest, total);
    let out = listed(metrics, total);
    lemma_listed(rest, total);
    if b < metrics.len() - 1 {
        lemma_listed_keeps_order(rest, total, a, b);
        let (i, j) = choose|i: int, j: int|
            0 <= i < j < head.len() && #[trigger] head[i] == rest[a] && #[trigger] head[j]
                == rest[b];
        if shown(last.1, total) {
            let at = ahead(head, last.1);
            lemma_ahead_bounds(head, last.1);
            let i1 = if i < at { i } else { i + 1 };
            let j1 = if j < at { j } else { j + 1 };
            assert(out[i1] == metrics[a] && out[j1] == metrics[b]);
        } else {
            assert(out[i] == metrics[a] && out[j] == metrics[b]);
        }
    } else {
        let at = ahead(head, last.1);
        lemma_ahead_bounds(head, last.1);
        assert(rest[a] == metrics[a]);
        assert(head.contains(rest[a]));
        let i = choose|i: int| 0 <= i < head.len() && head[i] == rest[a];
        assert(i < at);
        assert(out[i] == metrics[a] && out[at] == metrics[b]);
    }
}

/// A row put into the rows adds its count to the sum.
proof fn lemma_sum_insert(rows: Seq<Count>, at: int, row: Count)
    requires
        0 <= at <= rows.len(),
    ensures
        sum_of(rows.insert(at, row)) == sum_of(rows) + row.1,
    decreases rows.len(),
{
    let out = rows.insert(at, row);
    if at == rows.len() {
        assert(out.drop_last() == rows);
    } else {
        lemma_sum_insert(rows.drop_last(), at, row);
        assert(out.drop_last() == rows.drop_last().insert(at, row));
        assert(out.last() == rows.last());
    }
}

/// The rows of a summary account for every sample: their counts add up to the total.
pub proof fn lemma_summary_adds_up(tally: Tally)
    requires
        tally.wf(),
        tally.total > 0,
    ensures
        sum_of(summary_rows(tally.metrics, tally.total)) == tally.total,
{
    lemma_listed(tally.metrics, tally.total);
    let rows = listed(tally.metrics, tally.total);
    let other = unlisted(tally.metrics, tally.total);
    if other != 0 {
        assert(rows.push(("other"@, other)).drop_last() == rows);
    }
}

/// A row of the summary: a namespace, or `other`, and the samples sent on under it.
#[derive(Debug, PartialEq, Eq)]
pub struct SummaryRow {
    pub name: String,
    pub count: u64,
}

/// The summary of a run: the samples sent on, and how they are spread over the namespaces.
#[derive(Debug, PartialEq, Eq)]
pub struct Summary {
    pub total: u64,
    pub rows: Vec<SummaryRow>,
}

/// The counts that the rows of a summary hold.
pub open spec fn rows_of(rows: Seq<SummaryRow>) -> Seq<Count> {
    Seq::new(rows.len(), |i: int| (rows[i].name@, rows[i].count as nat))
}

/// The rows that are shown descend, and what is not shown is within the sum of all counts.
proof fn lemma_listed_descends(metrics: Seq<Count>, total: nat)
    ensures
        descending(listed(metrics, total)),
        unlisted(metrics, total) <= sum_of(metrics),
{
    lemma_listed(metrics, total);
}

/// Puts a row behind the rows that hold as much or more.
fn place(rows: &mut Vec<SummaryRow>, name: String, count: u64)
    requires
        descending(rows_of(old(rows)@)),
    ensures
        rows_of(final(rows)@) == ranked(rows_of(old(rows)@), (name@, count as nat)),
{
    let ghost head = rows_of(rows@);
    let mut at: usize = 0;
    while at < rows.len() && rows[at].count >= count
        invariant
            at <= rows.len(),
            head == rows_of(rows@),
            forall|j: int| 0 <= j < at ==> (#[trigger] head[j]).1 >= count,
        decreases rows.len() - at,
    {
        at += 1;
    }
    proof {
        if at < rows.len() {
            assert(head[at as int].1 < count);
        }
        lemma_ahead(head, count as nat, at as int);
    }
    let ghost row = (name@, count as nat);
    rows.insert(at, SummaryRow { name, count });
    assert(rows_of(rows@) =~= head.insert(at as int, row));
}

impl Stat {
    /// Ends the statistics and gives their summary: the namespaces with at least one
    /// hundredth of the samples by descending count, the rest as one row named `other`; no
    /// rows where no sample was sent on.
    pub fn finish(self) -> (r: Summary)
        requires
            self.wf(),
        ensures
            r.total == self@.total,
            rows_of(r.rows@) == summary_rows(self@.metrics, self@.total),
    {
        let total = self.total;
        let mut rows: Vec<SummaryRow> = Vec::new();
        if total == 0 {
            assert(rows_of(rows@) =~= Seq::empty());
            return Summary { total, rows };
        }
        let ghost counts = self@.metrics;
        let mut other: u64 = 0;
        let mut i: usize = 0;
        assert(counts.take(0) =~= Seq::empty());
        assert(rows_of(rows@) =~= Seq::empty());
        while i < self.metrics.len()
            invariant
                i <= self.metrics.len(),
                counts == counts_of(self.metrics@),
                sum_of(counts) == total,
                rows_of(rows@) == listed(counts.take(i as int), total as nat),
                other == unlisted(counts.take(i as int), total as nat),
            decreases self.metrics.len() - i,
        {
            let count = self.metrics[i].1;
            proof {
                assert(counts.take(i as int + 1).drop_last() == counts.take(i as int));
                assert(counts.take(i as int + 1).last() == counts[i as int]);
                lemma_listed_descends(counts.take(i as int), total as nat);
                lemma_listed_descends(counts.take(i as int + 1), total as nat);
                lemma_sum_prefix(counts, i as int + 1);
            }
            if count as u128 * 100 >= total as u128 {
                place(&mut rows, self.metrics[i].0.clone(), count);
            } else {
                other = other + count;
            }
            i += 1;
        }
        assert(counts.take(i as int) == counts);
        if other != 0 {
            let ghost head = rows_of(rows@);
            rows.push(SummaryRow { name: "other".to_owned(), count: other });
            assert(rows_of(rows@) =~= head.push(("other"@, other as nat)));
        }
        Summary { total, rows }
    }
}

/// The sum of the first `n` counts is within the sum of all.
proof fn lemma_sum_prefix(counts: Seq<Count>, n: int)
    requires
        0 <= n <= counts.len(),
    ensures
        sum_of(counts.take(n)) <= sum_of(counts),
    decreases counts.len() - n,
{
    if n < counts.len() {
        lemma_sum_prefix(counts, n + 1);
        assert(counts.take(n + 1).drop_last() == counts.take(n));
    } else {
        assert(counts.take(n) == counts);
    }
}

} // verus!
