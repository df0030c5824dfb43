use metrics_migrator::metrics::{MigratedTimeSeries, TimeSeries};
use metrics_migrator::migrator::{standard_rules, Action as RuleAction, Condition, Rule};
use metrics_migrator::options::{verbosity, Verbosity};
use metrics_migrator::processor::{
    check_response, export_url, import_url, is_success, send_on, status_error, Action, Event,
    Fault, MigrationError, Mode, Phase, Pipeline, Stage,
};
use metrics_migrator::stat::SummaryRow;

fn value(number: f64) -> Option<u64> {
    Some(number.to_bits())
}

fn series(labels: &[(&str, &str)], samples: &[(i64, f64)]) -> TimeSeries {
    TimeSeries::from_parts(
        labels.iter().map(|(name, value)| (name.to_string(), value.to_string())).collect(),
        samples.iter().map(|(time, _)| *time).collect(),
        samples.iter().map(|(_, number)| value(*number)).collect(),
    )
    .unwrap()
}

fn text(value: &str) -> String {
    value.to_owned()
}

fn row(name: &str, count: u64) -> SummaryRow {
    SummaryRow { name: name.to_owned(), count }
}

/// Reads one line of an export: an object with the three fields of a record and no other.
fn decode(line: &str) -> Result<TimeSeries, String> {
    let parsed: serde_json::Value = serde_json::from_str(line).map_err(|error| error.to_string())?;
    let record = parsed.as_object().ok_or("not an object")?;
    if record.keys().any(|key| key != "metric" && key != "values" && key != "timestamps") {
        return Err(text("unknown field"));
    }
    let metric = record.get("metric").and_then(|metric| metric.as_object()).ok_or("no metric")?;
    let values = record.get("values").and_then(|values| values.as_array()).ok_or("no values")?;
    let timestamps =
        record.get("timestamps").and_then(|times| times.as_array()).ok_or("no timestamps")?;
    let mut labels = Vec::new();
    for (name, label) in metric {
        labels.push((name.clone(), label.as_str().ok_or("a label is no text")?.to_owned()));
    }
    let mut numbers = Vec::new();
    for number in values {
        if number.is_null() {
            numbers.push(None);
        } else {
            numbers.push(Some(number.as_f64().ok_or("a value is no number")?.to_bits()));
        }
    }
    let mut times = Vec::new();
    for time in timestamps {
        times.push(time.as_i64().ok_or("a timestamp is no integer")?);
    }
    TimeSeries::from_parts(labels, times, numbers).map_err(|error| format!("{:?}", error))
}

/// Writes a series as one line of an import.
fn encode(series: &TimeSeries) -> String {
    let mut metric = serde_json::Map::new();
    for (name, label) in series.labels() {
        metric.insert(name.clone(), serde_json::Value::from(label.as_str()));
    }
    let values: Vec<serde_json::Value> = series
        .values()
        .iter()
        .map(|number| match number {
            Some(bits) => serde_json::Value::from(f64::from_bits(*bits)),
            None => serde_json::Value::Null,
        })
        .collect();
    let timestamps: Vec<serde_json::Value> =
        series.timestamps().iter().map(|time| serde_json::Value::from(*time)).collect();
    let mut record = serde_json::Map::new();
    record.insert(text("metric"), serde_json::Value::Object(metric));
    record.insert(text("values"), serde_json::Value::Array(values));
    record.insert(text("timestamps"), serde_json::Value::Array(timestamps));
    let mut line = serde_json::to_string(&serde_json::Value::Object(record)).unwrap();
    line.push('\n');
    line
}

#[test]
fn a_series_comes_back_from_its_line() {
    let mut first = series(
        &[("__name__", "node_load1"), ("job", "node"), ("path", "a\"b\\c")],
        &[(100, 1.5), (200, -2.25), (300, 1e300)],
    );
    first.add(400, None);
    let line = encode(&first);
    assert!(line.ends_with('\n'));
    assert_eq!(line.matches('\n').count(), 1);
    assert_eq!(decode(&line), Ok(first));
}

#[test]
fn a_line_with_uneven_samples_is_no_series() {
    let line = r#"{"metric":{"__name__":"m"},"values":[1,2],"timestamps":[100]}"#;
    assert_eq!(decode(line), Err(text("UnevenSamples { timestamps: 1, values: 2 }")));
}

#[test]
fn a_dry_run_stops_at_the_first_bad_line() {
    let lines = [
        r#"{"metric":{"__name__":"node_cpu_seconds","job":"x"},"values":[1,null],"timestamps":[100,200]}"#,
        r#"{"metric":{"__name__":"broken"},"values":[1],"timestamps":[100],"extra":true}"#,
        r#"{"metric":{"__name__":"never_read"},"values":[1],"timestamps":[100]}"#,
    ];
    let mut pipeline = Pipeline::new(Mode::DryRun, standard_rules());
    let mut decoded = 0;
    let mut forwarded = Vec::new();
    for line in lines {
        if !pipeline.is_streaming() {
            break;
        }
        decoded += 1;
        let event = match decode(line) {
            Ok(series) => Event::Record(series),
            Err(reason) => Event::Malformed { reason, line: text(line) },
        };
        match pipeline.feed(event) {
            Some(Action::Forward { records, lines }) => {
                assert!(lines.is_empty());
                forwarded.extend(records);
            }
            Some(Action::Abort) => {}
            other => panic!("not expected: {:?}", other),
        }
    }
    assert_eq!(decoded, 2);
    assert_eq!(forwarded, vec![decode(lines[0]).unwrap()]);
    assert_eq!(pipeline.phase(), Phase::Failed);
    assert_eq!(
        pipeline.failure(),
        Some(&MigrationError::MalformedRecord { reason: text("unknown field"), line: text(lines[1]) })
    );
    assert_eq!(
        pipeline.failure().unwrap().message(),
        format!("Got an invalid time series (unknown field): {}", lines[1])
    );
    assert_eq!(pipeline.feed(Event::EndOfStream), Some(Action::Ignore));
    assert_eq!(pipeline.phase(), Phase::Failed);
}

#[test]
fn a_dry_run_ends_with_the_summary() {
    let mut pipeline = Pipeline::new(Mode::DryRun, standard_rules());
    let first = series(&[("__name__", "node_cpu_seconds")], &[(1, 1.0), (2, 2.0)]);
    let second = series(&[("__name__", "node_systemd_unit_state"), ("job", "node")], &[(1, 1.0)]);
    assert_eq!(
        pipeline.feed(Event::Record(first.clone())),
        Some(Action::Forward { records: vec![first], lines: vec![] })
    );
    assert_eq!(
        pipeline.feed(Event::Record(second)),
        Some(Action::Forward {
            records: vec![],
            lines: vec![text("Delete: node_systemd_unit_state{job=\"node\"}")]
        })
    );
    match pipeline.feed(Event::EndOfStream) {
        Some(Action::Complete { summary: Some(summary) }) => {
            assert_eq!(summary.total, 2);
            assert_eq!(summary.rows, vec![row("node_cpu", 2)]);
        }
        other => panic!("not expected: {:?}", other),
    }
    assert_eq!(pipeline.phase(), Phase::Finished);
    assert_eq!(pipeline.failure(), None);
    assert_eq!(
        pipeline.feed(Event::Record(series(&[("__name__", "late")], &[]))),
        Some(Action::Ignore)
    );
}

#[test]
fn a_dry_run_pays_no_heed_to_a_target() {
    let mut pipeline = Pipeline::new(Mode::DryRun, vec![]);
    assert_eq!(
        pipeline.feed(Event::TargetReplied { code: 500, status: text("500"), body: text("no") }),
        Some(Action::Ignore)
    );
    assert_eq!(
        pipeline.feed(Event::TargetFailed { fault: Fault::Connect, cause: text("refused") }),
        Some(Action::Ignore)
    );
    assert!(pipeline.is_streaming());
}

#[test]
fn an_import_sends_what_the_rules_make() {
    let rules = vec![Rule {
        conditions: vec![Condition::NameIs(text("m"))],
        action: RuleAction::SetLabel(text("k"), text("new")),
    }];
    let mut pipeline = Pipeline::new(Mode::Import, rules);
    let source = series(&[("__name__", "m"), ("k", "old")], &[(1, 1.0)]);
    let result = series(&[("__name__", "m"), ("k", "new")], &[(1, 1.0)]);
    assert_eq!(
        pipeline.step(Event::Record(source.clone())),
        Action::Forward {
            records: vec![result.clone()],
            lines: vec![text("Change: m{k=\"old\"} -> m{k=\"new\"}")]
        }
    );
    assert_eq!(
        pipeline.step(Event::Record(source)),
        Action::Forward { records: vec![result], lines: vec![] }
    );
}

#[test]
fn an_import_waits_for_the_target_before_it_ends() {
    let mut pipeline = Pipeline::new(Mode::Import, standard_rules());
    pipeline.feed(Event::Record(series(&[("__name__", "up")], &[(1, 1.0)])));
    assert_eq!(pipeline.feed(Event::EndOfStream), Some(Action::AwaitTarget));
    assert_eq!(pipeline.phase(), Phase::AwaitingTarget);
    assert_eq!(pipeline.feed(Event::EndOfStream), Some(Action::Ignore));
    assert_eq!(
        pipeline.feed(Event::Record(series(&[("__name__", "late")], &[(1, 1.0)]))),
        Some(Action::Ignore)
    );
    match pipeline.feed(Event::TargetReplied {
        code: 204,
        status: text("204 No Content"),
        body: text(""),
    }) {
        Some(Action::Complete { summary: Some(summary) }) => {
            assert_eq!(summary.total, 1);
            assert_eq!(summary.rows, vec![row("up", 1)]);
        }
        other => panic!("not expected: {:?}", other),
    }
    assert_eq!(pipeline.phase(), Phase::Finished);
}

#[test]
fn an_import_fails_on_a_bad_answer() {
    let mut pipeline = Pipeline::new(Mode::Import, standard_rules());
    assert_eq!(pipeline.feed(Event::EndOfStream), Some(Action::AwaitTarget));
    assert_eq!(
        pipeline.feed(Event::TargetReplied {
            code: 503,
            status: text("503 Service Unavailable"),
            body: text("\n  try later \r\n"),
        }),
        Some(Action::Abort)
    );
    assert_eq!(pipeline.phase(), Phase::Failed);
    assert_eq!(
        pipeline.failure(),
        Some(&MigrationError::HttpStatus {
            stage: Stage::Target,
            code: 503,
            status: text("503 Service Unavailable"),
            body: text("try later"),
        })
    );
    assert_eq!(
        pipeline.failure().unwrap().message(),
        "Target VictoriaMetrics returned an error (503 Service Unavailable): try later"
    );
}

#[test]
fn an_import_fails_when_the_target_breaks_off() {
    let mut pipeline = Pipeline::new(Mode::Import, standard_rules());
    assert_eq!(
        pipeline.feed(Event::TargetFailed { fault: Fault::Connect, cause: text("refused") }),
        Some(Action::Abort)
    );
    assert_eq!(
        pipeline.failure().unwrap().message(),
        "Failed to establish connection to target VictoriaMetrics: refused"
    );
    assert_eq!(
        pipeline.feed(Event::TargetFailed { fault: Fault::Body, cause: text("later") }),
        Some(Action::Ignore)
    );
    assert_eq!(
        pipeline.failure(),
        Some(&MigrationError::Transport {
            stage: Stage::Target,
            fault: Fault::Connect,
            cause: text("refused")
        })
    );
}

#[test]
fn an_early_success_of_the_target_ends_the_run_without_a_summary() {
    let mut pipeline = Pipeline::new(Mode::Import, standard_rules());
    pipeline.feed(Event::Record(series(&[("__name__", "up")], &[(1, 1.0)])));
    assert_eq!(
        pipeline.feed(Event::TargetReplied { code: 200, status: text("200 OK"), body: text("") }),
        Some(Action::Complete { summary: None })
    );
    assert_eq!(pipeline.phase(), Phase::Finished);
}

#[test]
fn a_broken_export_ends_the_run() {
    let mut pipeline = Pipeline::new(Mode::DryRun, standard_rules());
    assert_eq!(
        pipeline.feed(Event::SourceFailed { cause: text("connection reset") }),
        Some(Action::Abort)
    );
    assert_eq!(
        pipeline.failure().unwrap().message(),
        "Source VictoriaMetrics connection error: connection reset"
    );
}

#[test]
fn send_on_passes_what_has_samples() {
    let source = series(&[("__name__", "m")], &[(1, 1.0)]);
    let empty = series(&[("__name__", "m")], &[]);
    let other = series(&[("__name__", "n")], &[(2, 2.0)]);
    assert_eq!(send_on(source.clone(), MigratedTimeSeries::Unchanged), vec![source.clone()]);
    assert_eq!(send_on(empty.clone(), MigratedTimeSeries::Unchanged), vec![empty.clone()]);
    assert_eq!(send_on(source.clone(), MigratedTimeSeries::Deleted), vec![]);
    assert_eq!(
        send_on(source.clone(), MigratedTimeSeries::Changed(other.clone())),
        vec![other.clone()]
    );
    assert_eq!(send_on(source.clone(), MigratedTimeSeries::Changed(empty.clone())), vec![]);
    assert_eq!(
        send_on(
            source.clone(),
            MigratedTimeSeries::Rewrite(vec![empty.clone(), other.clone(), empty, source.clone()])
        ),
        vec![other, source]
    );
}

#[test]
fn export_url_asks_for_every_series() {
    assert_eq!(
        export_url("http://localhost:8428", None),
        Ok(text(
            "http://localhost:8428/api/v1/export?match=%7B__name__%21%3D%22%22%7D&reduce_mem_usage=1"
        ))
    );
}

#[test]
fn export_url_takes_a_start() {
    assert_eq!(
        export_url("https://vm.example.net/some/path?x=1#frag", Some("1700000000")),
        Ok(text(
            "https://vm.example.net/api/v1/export?match=%7B__name__%21%3D%22%22%7D&reduce_mem_usage=1&start=1700000000"
        ))
    );
    assert_eq!(
        export_url("http://h", Some("-1 d&x")),
        Ok(text(
            "http://h/api/v1/export?match=%7B__name__%21%3D%22%22%7D&reduce_mem_usage=1&start=-1+d%26x"
        ))
    );
}

#[test]
fn export_url_of_no_url_is_an_error() {
    let error = export_url("not a url", None).unwrap_err();
    assert_eq!(
        error,
        MigrationError::Url { stage: Stage::Source, cause: text("relative URL without a base") }
    );
    assert_eq!(
        error.message(),
        "Failed to establish connection to source VictoriaMetrics: Invalid URL: relative URL without a base"
    );
    assert!(export_url("mailto:someone@example.net", None).is_err());
}

#[test]
fn import_url_is_the_import_path() {
    assert_eq!(import_url("http://localhost:8428/base/"), Ok(text("http://localhost:8428/api/v1/import")));
    assert_eq!(import_url("http://[::1]:8428"), Ok(text("http://[::1]:8428/api/v1/import")));
}

#[test]
fn import_url_of_no_url_is_an_error() {
    let error = import_url("").unwrap_err();
    assert_eq!(
        error,
        MigrationError::Url { stage: Stage::Target, cause: text("relative URL without a base") }
    );
    assert_eq!(error.message(), "Invalid URL: relative URL without a base");
}

#[test]
fn a_query_that_is_too_long_is_an_error() {
    let long = "a".repeat(0x100_0001);
    assert_eq!(
        export_url("http://h", Some(&long)),
        Err(MigrationError::Url { stage: Stage::Source, cause: text("the URL is too long") })
    );
    assert!(export_url("http://h", Some(&long[1..])).is_ok());
    assert_eq!(import_url(&format!("http://h/{long}")), Ok(text("http://h/api/v1/import")));
}

#[test]
fn success_is_a_status_from_200_to_299() {
    assert!(!is_success(199));
    assert!(is_success(200));
    assert!(is_success(204));
    assert!(is_success(299));
    assert!(!is_success(300));
    assert!(!is_success(404));
    assert!(!is_success(0));
}

#[test]
fn check_response_passes_a_success() {
    assert_eq!(check_response(Stage::Source, 200, "200 OK", "anything"), Ok(()));
}

#[test]
fn check_response_holds_the_trimmed_body() {
    let error = check_response(Stage::Source, 404, "404 Not Found", " \t no such path\u{a0}\n")
        .unwrap_err();
    assert_eq!(
        error,
        MigrationError::HttpStatus {
            stage: Stage::Source,
            code: 404,
            status: text("404 Not Found"),
            body: text("no such path"),
        }
    );
    assert_eq!(
        error.message(),
        "Failed to establish connection to source VictoriaMetrics: The server returned an error (404 Not Found): no such path"
    );
    assert_eq!(
        check_response(Stage::Target, 500, "500", " \n ").unwrap_err().message(),
        "Target VictoriaMetrics returned an error (500): "
    );
}

#[test]
fn status_error_holds_the_status_and_the_trimmed_body() {
    assert_eq!(
        status_error(Stage::Target, 418, "418 I'm a teapot", "\u{3000}short and stout\r\n"),
        MigrationError::HttpStatus {
            stage: Stage::Target,
            code: 418,
            status: text("418 I'm a teapot"),
            body: text("short and stout"),
        }
    );
    assert_eq!(
        status_error(Stage::Source, 200, "200 OK", "").message(),
        "Failed to establish connection to source VictoriaMetrics: The server returned an error (200 OK): "
    );
}

#[test]
fn messages_name_the_side_and_the_fault() {
    let transport = |stage, fault| MigrationError::Transport { stage, fault, cause: text("why") };
    assert_eq!(
        transport(Stage::Source, Fault::Connect).message(),
        "Failed to establish connection to source VictoriaMetrics: why"
    );
    assert_eq!(
        transport(Stage::Source, Fault::Transfer).message(),
        "Source VictoriaMetrics connection error: why"
    );
    assert_eq!(
        transport(Stage::Source, Fault::Body).message(),
        "Source VictoriaMetrics connection error: why"
    );
    assert_eq!(
        transport(Stage::Target, Fault::Connect).message(),
        "Failed to establish connection to target VictoriaMetrics: why"
    );
    assert_eq!(
        transport(Stage::Target, Fault::Transfer).message(),
        "Target VictoriaMetrics connection error: why"
    );
    assert_eq!(transport(Stage::Target, Fault::Body).message(), "why");
    assert_eq!(
        MigrationError::MalformedRecord { reason: text("EOF"), line: text("{") }.message(),
        "Got an invalid time series (EOF): {"
    );
}

#[test]
fn verbosity_follows_the_flags() {
    assert_eq!(verbosity(0), Some(Verbosity::Info));
    assert_eq!(verbosity(1), Some(Verbosity::Debug));
    assert_eq!(verbosity(2), Some(Verbosity::Trace));
    assert_eq!(verbosity(3), None);
    assert_eq!(verbosity(255), None);
}
