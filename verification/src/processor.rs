//! The decisions of a run: which addresses to ask, what an answer means, and what each line
//! of the export does to the run. Reading, sending and printing are left to the caller.

use vstd::prelude::*;
use vstd::string::StringSliceAdditionalSpecFns;
use url::Url;
use crate::metrics::{all_wf, series_of, MigratedTimeSeries, Outcome, Series, TimeSeries};
use crate::migrator::{apply_rules, outcome_of, rules_of, Rule, RuleView};
use crate::stat::{report, rows_of, samples_in, summary_rows, texts_of, transmitted};
use crate::stat::{Stat, Summary, Tally};
use crate::text::{trim_of, trimmed};

verus! {

/// The error that `url` gives for a text that is no URL.
#[verifier::external_type_specification]
#[verifier::external_body]
pub struct ExParseError(url::ParseError);

/// What `Url::join` makes of a base URL and a reference, as text; `None` where the base is no
/// URL or the two do not join.
pub uninterp spec fn url_joined(base: Seq<char>, reference: Seq<char>) -> Option<Seq<char>>;

/// What a URL is after `append_pair` on its query, as text; `None` where the text is no URL.
pub uninterp spec fn url_with_pair(url: Seq<char>, name: Seq<char>, value: Seq<char>) -> Option<
    Seq<char>,
>;

/// The longest text, in bytes, that is handed to `url`.
pub const URL_LIMIT: usize = 0x100_0000;

/// `Url::parse` and `Url::join`: the URL that `reference` names seen from `base`. The
/// contract names the result, and says that an error comes exactly where there is none.
#[verifier::external_body]
fn join_url(base: &str, reference: &str) -> (r: Result<String, url::ParseError>)
    ensures
        match r {
            Ok(url) => url_joined(base@, reference@) == Some(url@),
            Err(_) => url_joined(base@, reference@) is None,
        },
{
    let joined = Url::parse(base)?.join(reference)?;
    Ok(String::from(joined))
}

/// `Url::parse`, then `append_pair` on `Url::query_pairs_mut`: the URL with one more pair in
/// its query. The contract names the result, and says that an error comes exactly where
/// there is none. The texts are kept short: `url` panics on a URL of more than four gigabytes.
#[verifier::external_body]
fn append_pair(url: &str, name: &str, value: &str) -> (r: Result<String, url::ParseError>)
    requires
        url.spec_bytes().len() <= URL_LIMIT,
        name.spec_bytes().len() <= URL_LIMIT,
        value.spec_bytes().len() <= URL_LIMIT,
    ensures
        match r {
            Ok(out) => url_with_pair(url@, name@, value@) == Some(out@),
            Err(_) => url_with_pair(url@, name@, value@) is None,
        },
{
    let mut parsed = Url::parse(url)?;
    parsed.query_pairs_mut().append_pair(name, value);
    Ok(String::from(parsed))
}

/// The side of a run that an error comes from.
#[derive(Clone, Copy, Debug, PartialEq, Eq, Structural)]
pub enum Stage {
    Source,
    Target,
}

/// How a connection failed.
#[derive(Clone, Copy, Debug, PartialEq, Eq, Structural)]
pub enum Fault {
    /// It could not be set up.
    Connect,
    /// It broke while data moved.
    Transfer,
    /// The body that was being sent ended in an error of its own.
    Body,
}

/// Why a run ends early.
#[derive(Debug, PartialEq, Eq)]
pub enum MigrationError {
    /// An address could not be made.
    Url { stage: Stage, cause: String },
    /// A connection failed.
    Transport { stage: Stage, fault: Fault, cause: String },
    /// An answer came with a status that is no success.
    HttpStatus { stage: Stage, code: u16, status: String, body: String },
    /// A line of the export is no time series.
    MalformedRecord { reason: String, line: String },
}

/// What a `MigrationError` is.
pub enum ErrorView {
    Url { stage: Stage, cause: Seq<char> },
    Transport { stage: Stage, fault: Fault, cause: Seq<char> },
    HttpStatus { stage: Stage, code: u16, status: Seq<char>, body: Seq<char> },
    MalformedRecord { reason: Seq<char>, line: Seq<char> },
}

impl View for MigrationError {
    type V = ErrorView;

    open spec fn view(&self) -> ErrorView {
        match self {
            MigrationError::Url { stage, cause } => ErrorView::Url { stage: *stage, cause: cause@ },
            MigrationError::Transport { stage, fault, cause } => ErrorView::Transport {
                stage: *stage,
                fault: *fault,
                cause: cause@,
            },
            MigrationError::HttpStatus { stage, code, status, body } => ErrorView::HttpStatus {
                stage: *stage,
                code: *code,
                status: status@,
                body: body@,
            },
            MigrationError::MalformedRecord { reason, line } => ErrorView::MalformedRecord {
                reason: reason@,
                line: line@,
            },
        }
    }
}

/// What stands before an error that came up while the export was asked for.
pub open spec fn source_prefix() -> Seq<char> {
    "Failed to establish connection to source VictoriaMetrics: "@
}

impl ErrorView {
    /// The error in words.
    pub open spec fn message(self) -> Seq<char> {
        match self {
            ErrorView::Url { stage, cause } => match stage {
                Stage::Source => source_prefix() + "Invalid URL: "@ + cause,
                Stage::Target => "Invalid URL: "@ + cause,
            },
            ErrorView::Transport { stage, fault, cause } => match (stage, fault) {
                (Stage::Source, Fault::Connect) => source_prefix() + cause,
                (Stage::Source, _) => "Source VictoriaMetrics connection error: "@ + cause,
                (Stage::Target, Fault::Connect) =>
                    "Failed to establish connection to target VictoriaMetrics: "@ + cause,
                (Stage::Target, Fault::Transfer) =>
                    "Target VictoriaMetrics connection error: "@ + cause,
                (Stage::Target, Fault::Body) => cause,
            },
            ErrorView::HttpStatus { stage, code, status, body } => match stage {
                Stage::Source => source_prefix() + "The server returned an error ("@ + status
                    + "): "@ + body,
                Stage::Target => "Target VictoriaMetrics returned an error ("@ + status + "): "@
                    + body,
            },
            ErrorView::MalformedRecord { reason, line } => "Got an invalid time series ("@ + reason
                + "): "@ + line,
        }
    }
}

impl MigrationError {
    /// The error in words.
    pub fn message(&self) -> (r: String)
        ensures
            r@ == self@.message(),
    {
        let mut out = String::new();
        match self {
            MigrationError::Url { stage, cause } => {
                match stage {
                    Stage::Source => {
                        out.append("Failed to establish connection to source VictoriaMetrics: ");
                    },
                    Stage::Target => {},
                }
                out.append("Invalid URL: ");
                out.append(cause.as_str());
            },
            MigrationError::Transport { stage, fault, cause } => {
                match (stage, fault) {
                    (Stage::Source, Fault::Connect) => {
                        out.append("Failed to establish connection to source VictoriaMetrics: ");
                    },
                    (Stage::Source, _) => {
                        out.append("Source VictoriaMetrics connection error: ");
                    },
                    (Stage::Target, Fault::Connect) => {
                        out.append("Failed to establish connection to target VictoriaMetrics: ");
                    },
                    (Stage::Target, Fault::Transfer) => {
                        out.append("Target VictoriaMetrics connection error: ");
                    },
                    (Stage::Target, Fault::Body) => {},
                }
                out.append(cause.as_str());
            },
            MigrationError::HttpStatus { stage, code, status, body } => {
                match stage {
                    Stage::Source => {
                        out.append("Failed to establish connection to source VictoriaMetrics: ");
                        out.append("The server returned an error (");
                    },
                    Stage::Target => {
                        out.append("Target VictoriaMetrics returned an error (");
                    },
                }
                out.append(status.as_str());
                out.append("): ");
                out.append(body.as_str());
            },
            MigrationError::MalformedRecord { reason, line } => {
                out.append("Got an invalid time series (");
                out.append(reason.as_str());
                out.append("): ");
                out.append(line.as_str());
            },
        }
        assert(out@ =~= self@.message());
        out
    }
}

/// Whether a text is short enough to be handed to `url`.
pub open spec fn short(text: Seq<char>) -> bool {
    vstd::utf8::encode_utf8(text).len() <= URL_LIMIT
}

/// A URL with one more pair in its query; `None` where there is no URL to begin with, a text
/// is too long, or `url` does not take the result.
pub open spec fn paired(url: Option<Seq<char>>, name: Seq<char>, value: Seq<char>) -> Option<
    Seq<char>,
> {
    match url {
        Some(text) => if short(text) && short(name) && short(value) {
            url_with_pair(text, name, value)
        } else {
            None
        },
        None => None,
    }
}

/// The address of the export of `source`: the path of the export, with a query that asks for
/// every series, for reduced memory use and, where a start is given, for the samples from it
/// on.
pub open spec fn export_url_of(source: Seq<char>, start_time: Option<Seq<char>>) -> Option<
    Seq<char>,
> {
    let path = url_joined(source, "/api/v1/export"@);
    let matched = paired(path, "match"@, "{__name__!=\"\"}"@);
    let reduced = paired(matched, "reduce_mem_usage"@, "1"@);
    match start_time {
        Some(start) => paired(reduced, "start"@, start),
        None => reduced,
    }
}

/// The address of the import of `target`.
pub open spec fn import_url_of(target: Seq<char>) -> Option<Seq<char>> {
    url_joined(target, "/api/v1/import"@)
}

/// The error for an address that could not be made.
fn url_error(stage: Stage, cause: String) -> (r: MigrationError)
    ensures
        r@ is Url,
        r@->Url_stage == stage,
{
    MigrationError::Url { stage, cause }
}

/// The URL that `reference` names seen from `base`.
fn joined(stage: Stage, base: &str, reference: &str) -> (r: Result<String, MigrationError>)
    ensures
        match r {
            Ok(url) => url_joined(base@, reference@) == Some(url@),
            Err(error) => {
                &&& url_joined(base@, reference@) is None
                &&& error@ is Url
                &&& error@->Url_stage == stage
            },
        },
{
    match join_url(base, reference) {
        Ok(url) => Ok(url),
        Err(error) => Err(url_error(stage, error.to_string())),
    }
}

/// The URL with one more pair in its query.
fn with_pair(stage: Stage, url: String, name: &str, value: &str) -> (r: Result<
    String,
    MigrationError,
>)
    ensures
        match r {
            Ok(out) => paired(Some(url@), name@, value@) == Some(out@),
            Err(error) => {
                &&& paired(Some(url@), name@, value@) is None
                &&& error@ is Url
                &&& error@->Url_stage == stage
            },
        },
{
    if url.as_str().as_bytes().len() > URL_LIMIT || name.as_bytes().len() > URL_LIMIT
        || value.as_bytes().len() > URL_LIMIT {
        return Err(url_error(stage, "the URL is too long".to_owned()));
    }
    match append_pair(url.as_str(), name, value) {
        Ok(out) => Ok(out),
        Err(error) => Err(url_error(stage, error.to_string())),
    }
}

/// The address to ask `source` for its export, from `start_time` on where one is given.
pub fn export_url(source: &str, start_time: Option<&str>) -> (r: Result<String, MigrationError>)
    ensures
        match r {
            Ok(url) => export_url_of(
                source@,
                match start_time {
                    Some(start) => Some(start@),
                    None => None,
                },
            ) == Some(url@),
            Err(error) => {
                &&& export_url_of(
                    source@,
                    match start_time {
                        Some(start) => Some(start@),
                        None => None,
                    },
                ) is None
                &&& error@ is Url
                &&& error@->Url_stage == Stage::Source
            },
        },
{
    let path = match joined(Stage::Source, source, "/api/v1/export") {
        Ok(url) => url,
        Err(error) => return Err(error),
    };
    let matched = match with_pair(Stage::Source, path, "match", "{__name__!=\"\"}") {
        Ok(url) => url,
        Err(error) => return Err(error),
    };
    let reduced = match with_pair(Stage::Source, matched, "reduce_mem_usage", "1") {
        Ok(url) => url,
        Err(error) => return Err(error),
    };
    match start_time {
        Some(start) => with_pair(Stage::Source, reduced, "start", start),
        None => Ok(reduced),
    }
}

/// The address to send the import of `target` to.
pub fn import_url(target: &str) -> (r: Result<String, MigrationError>)
    ensures
        match r {
            Ok(url) => import_url_of(target@) == Some(url@),
            Err(error) => {
                &&& import_url_of(target@) is None
                &&& error@ is Url
                &&& error@->Url_stage == Stage::Target
            },
        },
{
    joined(Stage::Target, target, "/api/v1/import")
}

/// Whether a status code stands for success: the codes from 200 to 299.
pub open spec fn success(code: u16) -> bool {
    200 <= code < 300
}

/// Whether a status code stands for success.
pub fn is_success(code: u16) -> (r: bool)
    ensures
        r == success(code),
{
    200 <= code && code < 300
}

/// The error for an answer whose status is no success. `status` is the status as it is shown,
/// `body` what the answer holds; the error holds the body without the whitespace around it.
pub fn status_error(stage: Stage, code: u16, status: &str, body: &str) -> (r: MigrationError)
    ensures
        r@ == (ErrorView::HttpStatus { stage, code, status: status@, body: trim_of(body@) }),
{
    MigrationError::HttpStatus {
        stage,
        code,
        status: status.to_owned(),
        body: trimmed(body).to_owned(),
    }
}

/// Takes an answer: nothing to say of a success, the error for any other status. `status` is
/// the status as it is shown, `body` what the answer holds; the error holds the body without
/// the whitespace around it.
pub fn check_response(stage: Stage, code: u16, status: &str, body: &str) -> (r: Result<
    (),
    MigrationError,
>)
    ensures
        match r {
            Ok(_) => success(code),
            Err(error) => !success(code) && error@ == (ErrorView::HttpStatus {
                stage,
                code,
                status: status@,
                body: trim_of(body@),
            }),
        },
{
    if is_success(code) {
        Ok(())
    } else {
        Err(status_error(stage, code, status, body))
    }
}

/// The test for a series that is sent on: it has samples.
pub open spec fn with_samples() -> spec_fn(Series) -> bool {
    |series: Series| series.samples.len() > 0
}

/// The series that are sent on for a source and what became of it: the source itself where
/// it passes unchanged, else what took its place, as far as it has samples.
pub open spec fn outgoing(source: Series, outcome: Outcome) -> Seq<Series> {
    match outcome {
        Outcome::Unchanged => seq![source],
        Outcome::Changed(result) => seq![result].filter(with_samples()),
        Outcome::Rewrite(results) => results.filter(with_samples()),
        Outcome::Deleted => Seq::empty(),
    }
}

/// What is sent on holds as many samples as are counted.
pub proof fn lemma_outgoing_is_counted(source: Series, outcome: Outcome)
    ensures
        samples_in(outgoing(source, outcome)) == transmitted(source, outcome),
{
    match outcome {
        Outcome::Unchanged => {
            assert(seq![source].drop_last() == Seq::<Series>::empty());
            assert(samples_in(seq![source].drop_last()) == 0);
        },
        Outcome::Changed(result) => {
            lemma_kept_samples(seq![result]);
            assert(seq![result].drop_last() == Seq::<Series>::empty());
            assert(samples_in(seq![result].drop_last()) == 0);
        },
        Outcome::Rewrite(results) => {
            lemma_kept_samples(results);
        },
        Outcome::Deleted => {},
    }
}

/// The series with samples hold all the samples of a list.
proof fn lemma_kept_samples(list: Seq<Series>)
    ensures
        samples_in(list.filter(with_samples())) == samples_in(list),
    decreases list.len(),
{
    reveal(Seq::filter);
    if list.len() > 0 {
        lemma_kept_samples(list.drop_last());
        let kept = list.drop_last().filter(with_samples());
        if list.last().samples.len() > 0 {
            assert(kept.push(list.last()).drop_last() == kept);
        }
    }
}

/// The series to send on for a source and what became of it.
pub fn send_on(source: TimeSeries, outcome: MigratedTimeSeries) -> (r: Vec<TimeSeries>)
    requires
        source.wf(),
        outcome.wf(),
    ensures
        all_wf(r@),
        series_of(r@) == outgoing(source@, outcome@),
{
    let mut out: Vec<TimeSeries> = Vec::new();
    proof {
        reveal(Seq::filter);
    }
    match outcome {
        MigratedTimeSeries::Unchanged => {
            out.push(source);
            assert(series_of(out@) =~= seq![source@]);
        },
        MigratedTimeSeries::Changed(result) => {
            let ghost only = seq![result@];
            assert(only.drop_last() =~= Seq::empty());
            assert(only.drop_last().filter(with_samples()) =~= Seq::empty());
            if !result.is_empty() {
                out.push(result);
                assert(series_of(out@) =~= only.filter(with_samples()));
            } else {
                assert(series_of(out@) =~= only.filter(with_samples()));
            }
        },
        MigratedTimeSeries::Rewrite(results) => {
            broadcast use vstd::std_specs::vec::axiom_spec_into_iter;
            let ghost list = series_of(results@);
            assert(list.take(0) =~= Seq::empty());
            assert(series_of(out@) =~= Seq::empty());
            for series in it: results.into_iter()
                invariant
                    it.seq() == results@,
                    all_wf(results@),
                    all_wf(out@),
                    list == series_of(results@),
                    series_of(out@) == list.take(it.index()).filter(with_samples()),
            {
                let ghost i = it.index();
                let ghost sofar = series_of(out@);
                proof {
                    assert(list.take(i + 1) =~= list.take(i).push(series@));
                    list.take(i).lemma_filter_push(series@, with_samples());
                }
                assert(series.wf());
                if !series.is_empty() {
                    out.push(series);
                    assert(series_of(out@) =~= sofar.push(series@));
                }
            }
            assert(list.take(results@.len() as int) == list);
        },
        MigratedTimeSeries::Deleted => {
            assert(series_of(out@) =~= Seq::empty());
        },
    }
    out
}

/// Whether a run only counts, or sends what it reads to a target.
#[derive(Clone, Copy, Debug, PartialEq, Eq, Structural)]
pub enum Mode {
    DryRun,
    Import,
}

/// How far a run has come.
#[derive(Clone, Copy, Debug, PartialEq, Eq, Structural)]
pub enum Phase {
    /// The export is being read.
    Streaming,
    /// The export was read to its end, and the target has not answered yet.
    AwaitingTarget,
    /// The run is over, and went well.
    Finished,
    /// The run is over, and failed.
    Failed,
}

/// What happened outside.
#[derive(Debug)]
pub enum Event {
    /// A line of the export held this series.
    Record(TimeSeries),
    /// A line of the export held no time series.
    Malformed { reason: String, line: String },
    /// The export broke off.
    SourceFailed { cause: String },
    /// The export came to its end.
    EndOfStream,
    /// The connection to the target failed.
    TargetFailed { fault: Fault, cause: String },
    /// The target answered.
    TargetReplied { code: u16, status: String, body: String },
}

impl Event {
    /// A series that the event holds is well formed.
    pub open spec fn wf(&self) -> bool {
        self matches Event::Record(series) ==> series.wf()
    }
}

/// What is to be done outside.
#[derive(Debug, PartialEq, Eq)]
pub enum Action {
    /// Send these series on, in this order, and print these lines.
    Forward { records: Vec<TimeSeries>, lines: Vec<String> },
    /// End what is sent to the target and wait for its answer.
    AwaitTarget,
    /// End the run as a success, and print the summary if there is one.
    Complete { summary: Option<Summary> },
    /// End the run as a failure.
    Abort,
    /// Nothing: the event came too late or does not belong to this kind of run.
    Ignore,
}

/// What a `Pipeline` is.
pub struct PipelineView {
    pub mode: Mode,
    pub phase: Phase,
    pub rules: Seq<RuleView>,
    pub stat: Tally,
    pub failure: Option<ErrorView>,
}

impl PipelineView {
    /// Whether the counters have room for what the event brings.
    pub open spec fn fits(self, event: Event) -> bool {
        self.phase == Phase::Streaming ==> (event matches Event::Record(series) ==> self.stat.total
            + transmitted(series@, outcome_of(self.rules, series@)) <= u64::MAX)
    }

    /// The run has failed with `error`, and nothing else has changed.
    pub open spec fn failed(self, after: PipelineView, action: Action, error: ErrorView) -> bool {
        &&& after.phase == Phase::Failed
        &&& after.failure == Some(error)
        &&& after.stat == self.stat
        &&& action is Abort
    }

    /// The run has ended well, and the statistics have gone into the summary, if one is due.
    pub open spec fn completed(self, after: PipelineView, action: Action, due: bool) -> bool {
        &&& after.phase == Phase::Finished
        &&& after.failure is None
        &&& after.stat == Tally::empty()
        &&& action matches Action::Complete { summary }
        &&& if due {
            &&& summary matches Some(summary)
            &&& summary.total == self.stat.total
            &&& rows_of(summary.rows@) == summary_rows(self.stat.metrics, self.stat.total)
        } else {
            summary is None
        }
    }

    /// What the answer of the target does to a run that sends to one. Before the export has
    /// come to its end, a success ends the run without a summary.
    pub open spec fn answered(
        self,
        after: PipelineView,
        action: Action,
        code: u16,
        status: Seq<char>,
        body: Seq<char>,
    ) -> bool {
        if success(code) {
            self.completed(after, action, self.phase == Phase::AwaitingTarget)
        } else {
            self.failed(
                after,
                action,
                ErrorView::HttpStatus { stage: Stage::Target, code, status, body: trim_of(body) },
            )
        }
    }

    /// What an event does to a run: how the run stands after it, and what is to be done.
    pub open spec fn stepped(self, event: Event, after: PipelineView, action: Action) -> bool {
        &&& after.mode == self.mode
        &&& after.rules == self.rules
        &&& match (self.phase, event) {
            (Phase::Streaming, Event::Record(series)) => {
                let outcome = outcome_of(self.rules, series@);
                &&& after.phase == Phase::Streaming
                &&& after.failure is None
                &&& after.stat == self.stat.observe(series@, outcome)
                &&& action matches Action::Forward { records, lines }
                &&& all_wf(records@)
                &&& series_of(records@) == outgoing(series@, outcome)
                &&& texts_of(lines@) == report(self.stat.changes, after.stat.changes)
            },
            (Phase::Streaming, Event::Malformed { reason, line }) => self.failed(
                after,
                action,
                ErrorView::MalformedRecord { reason: reason@, line: line@ },
            ),
            (Phase::Streaming, Event::SourceFailed { cause }) => self.failed(
                after,
                action,
                ErrorView::Transport {
                    stage: Stage::Source,
                    fault: Fault::Transfer,
                    cause: cause@,
                },
            ),
            (Phase::Streaming, Event::EndOfStream) => match self.mode {
                Mode::DryRun => self.completed(after, action, true),
                Mode::Import => {
                    &&& after.phase == Phase::AwaitingTarget
                    &&& after.failure is None
                    &&& after.stat == self.stat
                    &&& action is AwaitTarget
                },
            },
            (Phase::Streaming, Event::TargetFailed { fault, cause }) | (
                Phase::AwaitingTarget,
                Event::TargetFailed { fault, cause },
            ) => match self.mode {
                Mode::DryRun => after == self && action is Ignore,
                Mode::Import => self.failed(
                    after,
                    action,
                    ErrorView::Transport { stage: Stage::Target, fault, cause: cause@ },
                ),
            },
            (Phase::Streaming, Event::TargetReplied { code, status, body }) | (
                Phase::AwaitingTarget,
                Event::TargetReplied { code, status, body },
            ) => match self.mode {
                Mode::DryRun => after == self && action is Ignore,
                Mode::Import => self.answered(after, action, code, status@, body@),
            },
            _ => after == self && action is Ignore,
        }
    }
}

/// A summary comes only where it is due: with the end of the export in a run that only counts,
/// and with a success from the target, after the end of the export, in a run that sends.
pub proof fn lemma_summary_is_due(
    before: PipelineView,
    event: Event,
    after: PipelineView,
    action: Action,
)
    requires
        before.stepped(event, after, action),
        action matches Action::Complete { summary } && summary is Some,
    ensures
        match before.mode {
            Mode::DryRun => before.phase == Phase::Streaming && event is EndOfStream,
            Mode::Import => {
                &&& before.phase == Phase::AwaitingTarget
                &&& event matches Event::TargetReplied { code, .. }
                &&& success(code)
            },
        },
{
}

/// A run that is over stays as it is: whatever comes, nothing changes and nothing is done.
pub proof fn lemma_over_is_over(
    before: PipelineView,
    event: Event,
    after: PipelineView,
    action: Action,
)
    requires
        before.stepped(event, after, action),
        before.phase == Phase::Finished || before.phase == Phase::Failed,
    ensures
        after == before,
        action is Ignore,
{
}

/// A run: its rules, its statistics, and how far it has come.
#[derive(Debug)]
pub struct Pipeline {
    mode: Mode,
    phase: Phase,
    rules: Vec<Rule>,
    stat: Stat,
    failure: Option<MigrationError>,
}

impl View for Pipeline {
    type V = PipelineView;

    closed spec fn view(&self) -> PipelineView {
        PipelineView {
            mode: self.mode,
            phase: self.phase,
            rules: rules_of(self.rules@),
            stat: self.stat@,
            failure: match self.failure {
                Some(error) => Some(error@),
                None => None,
            },
        }
    }
}

impl Pipeline {
    /// The statistics are well formed, and an error is held exactly where the run has failed.
    pub open spec fn wf(&self) -> bool {
        &&& self@.stat.wf()
        &&& self@.phase == Phase::Failed <==> self@.failure is Some
    }

    /// A run at its start.
    pub fn new(mode: Mode, rules: Vec<Rule>) -> (r: Pipeline)
        ensures
            r.wf(),
            r@ == (PipelineView {
                mode,
                phase: Phase::Streaming,
                rules: rules_of(rules@),
                stat: Tally::empty(),
                failure: None,
            }),
    {
        Pipeline { mode, phase: Phase::Streaming, rules, stat: Stat::new(), failure: None }
    }

    /// How far the run has come.
    pub fn phase(&self) -> (r: Phase)
        ensures
            r == self@.phase,
    {
        self.phase
    }

    /// Whether the run takes more of the export.
    pub fn is_streaming(&self) -> (r: bool)
        ensures
            r == (self@.phase == Phase::Streaming),
    {
        self.phase == Phase::Streaming
    }

    /// The error that ended the run, if one did.
    pub fn failure(&self) -> (r: Option<&MigrationError>)
        ensures
            match r {
                Some(error) => self@.failure == Some(error@),
                None => self@.failure is None,
            },
    {
        self.failure.as_ref()
    }

    /// Ends the run with an error.
    fn fail(&mut self, error: MigrationError) -> (action: Action)
        requires
            old(self).wf(),
        ensures
            final(self).wf(),
            final(self)@.mode == old(self)@.mode,
            final(self)@.rules == old(self)@.rules,
            old(self)@.failed(final(self)@, action, error@),
    {
        self.phase = Phase::Failed;
        self.failure = Some(error);
        Action::Abort
    }

    /// Ends the run as a success.
    fn complete(&mut self, due: bool) -> (action: Action)
        requires
            old(self).wf(),
            old(self)@.phase != Phase::Failed,
        ensures
            final(self).wf(),
            final(self)@.mode == old(self)@.mode,
            final(self)@.rules == old(self)@.rules,
            old(self)@.completed(final(self)@, action, due),
    {
        let mut stat = Stat::new();
        core::mem::swap(&mut self.stat, &mut stat);
        self.phase = Phase::Finished;
        if due {
            Action::Complete { summary: Some(stat.finish()) }
        } else {
            Action::Complete { summary: None }
        }
    }

    /// Takes in a series of the export and what the rules made of it.
    fn take_in(&mut self, series: TimeSeries, outcome: MigratedTimeSeries) -> (action: Action)
        requires
            old(self).wf(),
            old(self)@.phase == Phase::Streaming,
            series.wf(),
            outcome.wf(),
            outcome@ == outcome_of(old(self)@.rules, series@),
            old(self)@.stat.total + transmitted(series@, outcome@) <= u64::MAX,
        ensures
            final(self).wf(),
            old(self)@.stepped(Event::Record(series), final(self)@, action),
    {
        let lines = self.stat.add(&series, &outcome);
        let records = send_on(series, outcome);
        Action::Forward { records, lines }
    }

    /// Takes an event and says what is to be done. The counters must have room for what the
    /// event brings; `feed` tests that first.
    pub fn step(&mut self, event: Event) -> (action: Action)
        requires
            old(self).wf(),
            event.wf(),
            old(self)@.fits(event),
        ensures
            final(self).wf(),
            old(self)@.stepped(event, final(self)@, action),
    {
        match (self.phase, event) {
            (Phase::Streaming, Event::Record(series)) => {
                let outcome = apply_rules(&self.rules, &series);
                self.take_in(series, outcome)
            },
            (Phase::Streaming, Event::Malformed { reason, line }) => self.fail(
                MigrationError::MalformedRecord { reason, line },
            ),
            (Phase::Streaming, Event::SourceFailed { cause }) => self.fail(
                MigrationError::Transport { stage: Stage::Source, fault: Fault::Transfer, cause },
            ),
            (Phase::Streaming, Event::EndOfStream) => match self.mode {
                Mode::DryRun => self.complete(true),
                Mode::Import => {
                    self.phase = Phase::AwaitingTarget;
                    Action::AwaitTarget
                },
            },
            (Phase::Streaming, Event::TargetFailed { fault, cause }) | (
                Phase::AwaitingTarget,
                Event::TargetFailed { fault, cause },
            ) => match self.mode {
                Mode::DryRun => Action::Ignore,
                Mode::Import => self.fail(
                    MigrationError::Transport { stage: Stage::Target, fault, cause },
                ),
            },
            (Phase::Streaming, Event::TargetReplied { code, status, body }) | (
                Phase::AwaitingTarget,
                Event::TargetReplied { code, status, body },
            ) => match self.mode {
                Mode::DryRun => Action::Ignore,
                Mode::Import => match check_response(
                    Stage::Target,
                    code,
                    status.as_str(),
                    body.as_str(),
                ) {
                    Ok(_) => {
                        let due = self.phase == Phase::AwaitingTarget;
                        self.complete(due)
                    },
                    Err(error) => self.fail(error),
                },
            },
            _ => Action::Ignore,
        }
    }

    /// Takes an event and says what is to be done, as `step` does, unless the counters have no
    /// room for what the event brings: then nothing changes and `None` comes back.
    pub fn feed(&mut self, event: Event) -> (r: Option<Action>)
        requires
            old(self).wf(),
            event.wf(),
        ensures
            final(self).wf(),
            match r {
                Some(action) => old(self)@.fits(event) && old(self)@.stepped(
                    event,
                    final(self)@,
                    action,
                ),
                None => !old(self)@.fits(event) && final(self)@ == old(self)@,
            },
    {
        match (self.phase, event) {
            (Phase::Streaming, Event::Record(series)) => {
                let outcome = apply_rules(&self.rules, &series);
                if self.stat.has_room(&series, &outcome) {
                    Some(self.take_in(series, outcome))
                } else {
                    None
                }
            },
            (_, event) => Some(self.step(event)),
        }
    }
}

} // verus!
