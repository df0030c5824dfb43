use metrics_migrator::metrics::{MigratedTimeSeries, TimeSeries};
use metrics_migrator::migrator::{
    apply_rules, assemble_cutoffs, date, example_rules, in_millis, local_cutoffs, migrate,
    migrate_example, standard_rules, Action, Condition, ExampleCutoffs, Part, Rule, MD0_UNTIL,
};

fn value(number: f64) -> Option<u64> {
    Some(number.to_bits())
}

fn series(labels: &[(&str, &str)], samples: &[(i64, f64)]) -> TimeSeries {
    TimeSeries::from_parts(
        labels.iter().map(|(name, value)| (name.to_string(), value.to_string())).collect(),
        samples.iter().map(|(time, _)| *time).collect(),
        samples.iter().map(|(_, number)| value(*number)).collect(),
    )
    .unwrap()
}

fn text(value: &str) -> String {
    value.to_owned()
}

fn cutoffs() -> ExampleCutoffs {
    ExampleCutoffs { euro_bonds_until: 1000, bonds_from: 2000, reit_from: 3000, emerging_from: 4000 }
}

fn split_rule(cutoff: i64) -> Rule {
    Rule {
        conditions: vec![Condition::NameIs(text("m")), Condition::HasSamplesBefore(cutoff)],
        action: Action::Rewrite(vec![
            Part { label: Some((text("era"), text("old"))), from: None, until: Some(cutoff) },
            Part { label: None, from: Some(cutoff), until: None },
        ]),
    }
}

#[test]
fn a_split_puts_the_sample_at_the_cutoff_into_the_later_part() {
    let source = series(&[("__name__", "m"), ("k", "v")], &[(100, 1.0), (200, 2.0), (300, 3.0)]);
    let outcome = apply_rules(&vec![split_rule(200)], &source);
    assert_eq!(
        outcome,
        MigratedTimeSeries::Rewrite(vec![
            series(&[("__name__", "m"), ("k", "v"), ("era", "old")], &[(100, 1.0)]),
            series(&[("__name__", "m"), ("k", "v")], &[(200, 2.0), (300, 3.0)]),
        ])
    );
}

#[test]
fn a_split_leaves_its_later_part_alone() {
    let source = series(&[("__name__", "m"), ("k", "v")], &[(100, 1.0), (200, 2.0), (300, 3.0)]);
    let rules = vec![split_rule(200)];
    let later = match apply_rules(&rules, &source) {
        MigratedTimeSeries::Rewrite(mut parts) => parts.pop().unwrap(),
        other => panic!("no rewrite: {:?}", other),
    };
    assert_eq!(apply_rules(&rules, &later), MigratedTimeSeries::Unchanged);
}

#[test]
fn the_first_rule_that_applies_decides() {
    let source = series(&[("__name__", "m"), ("job", "node")], &[(1, 1.0)]);
    let relabel = || Rule {
        conditions: vec![Condition::LabelIs(text("job"), text("node"))],
        action: Action::SetLabel(text("job"), text("host")),
    };
    let delete = || Rule { conditions: vec![Condition::NameIs(text("m"))], action: Action::Delete };
    let other = || Rule { conditions: vec![Condition::NameIs(text("n"))], action: Action::Delete };
    assert_eq!(
        apply_rules(&vec![other(), relabel(), delete()], &source),
        MigratedTimeSeries::Changed(series(&[("__name__", "m"), ("job", "host")], &[(1, 1.0)]))
    );
    assert_eq!(apply_rules(&vec![delete(), relabel()], &source), MigratedTimeSeries::Deleted);
    assert_eq!(apply_rules(&vec![other()], &source), MigratedTimeSeries::Unchanged);
    assert_eq!(apply_rules(&vec![], &source), MigratedTimeSeries::Unchanged);
}

#[test]
fn a_rule_without_conditions_applies_to_every_series() {
    let rule = Rule { conditions: vec![], action: Action::Delete };
    assert!(rule.applies(&series(&[("__name__", "m")], &[])));
    assert_eq!(rule.apply(&series(&[("__name__", "m")], &[])), MigratedTimeSeries::Deleted);
}

#[test]
fn a_rule_needs_all_its_conditions() {
    let rule = Rule {
        conditions: vec![
            Condition::NameStartsWith(text("node_")),
            Condition::LabelIsNot(text("instance"), text("proxy")),
        ],
        action: Action::Delete,
    };
    assert!(rule.applies(&series(&[("__name__", "node_load1"), ("instance", "web")], &[])));
    assert!(rule.applies(&series(&[("__name__", "node_load1")], &[])));
    assert!(!rule.applies(&series(&[("__name__", "node_load1"), ("instance", "proxy")], &[])));
    assert!(!rule.applies(&series(&[("__name__", "nodeload"), ("instance", "web")], &[])));
}

#[test]
fn conditions_test_names_and_labels() {
    let source =
        series(&[("__name__", "backup_size"), ("device", "/dev/md126"), ("job", "")], &[(5, 1.0)]);
    assert!(Condition::NameIs(text("backup_size")).test(&source));
    assert!(!Condition::NameIs(text("backup_")).test(&source));
    assert!(Condition::NameStartsWith(text("backup_")).test(&source));
    assert!(Condition::NameStartsWith(text("")).test(&source));
    assert!(!Condition::NameStartsWith(text("backup_size_")).test(&source));
    assert!(Condition::LabelIs(text("device"), text("/dev/md126")).test(&source));
    assert!(Condition::LabelIs(text("missing"), text("")).test(&source));
    assert!(Condition::LabelIs(text("job"), text("")).test(&source));
    assert!(!Condition::LabelIsNot(text("missing"), text("")).test(&source));
    assert!(Condition::LabelIsNot(text("device"), text("md126")).test(&source));
    assert!(Condition::LabelContains(text("device"), text("/md")).test(&source));
    assert!(Condition::LabelContains(text("device"), text("")).test(&source));
    assert!(Condition::LabelContains(text("device"), text("/dev/md126")).test(&source));
    assert!(!Condition::LabelContains(text("device"), text("md127")).test(&source));
    assert!(!Condition::LabelContains(text("missing"), text("x")).test(&source));
    assert!(Condition::LabelEndsWith(text("device"), text("md126")).test(&source));
    assert!(Condition::LabelEndsWith(text("device"), text("")).test(&source));
    assert!(!Condition::LabelEndsWith(text("device"), text("/dev")).test(&source));
    assert!(!Condition::LabelEndsWith(text("device"), text("x/dev/md126")).test(&source));
    assert!(Condition::HasSamplesBefore(6).test(&source));
    assert!(!Condition::HasSamplesBefore(5).test(&source));
}

#[test]
fn actions_make_the_outcome() {
    let source = series(&[("__name__", "m"), ("k", "v")], &[(100, 1.0), (200, 2.0)]);
    assert_eq!(Action::Delete.apply(&source), MigratedTimeSeries::Deleted);
    assert_eq!(
        Action::SetLabel(text("k"), text("w")).apply(&source),
        MigratedTimeSeries::Changed(series(&[("__name__", "m"), ("k", "w")], &[(100, 1.0), (200, 2.0)]))
    );
    assert_eq!(
        Action::KeepFrom(200).apply(&source),
        MigratedTimeSeries::Changed(series(&[("__name__", "m"), ("k", "v")], &[(200, 2.0)]))
    );
    assert_eq!(
        Action::KeepFrom(201).apply(&source),
        MigratedTimeSeries::Changed(series(&[("__name__", "m"), ("k", "v")], &[]))
    );
    assert_eq!(Action::Rewrite(vec![]).apply(&source), MigratedTimeSeries::Rewrite(vec![]));
}

#[test]
fn a_part_cuts_and_relabels() {
    let source = series(&[("__name__", "m"), ("k", "v")], &[(100, 1.0), (200, 2.0), (300, 3.0)]);
    let part = Part { label: Some((text("k"), text("w"))), from: Some(150), until: Some(300) };
    assert_eq!(part.cut(&source), series(&[("__name__", "m"), ("k", "w")], &[(200, 2.0)]));
    let whole = Part { label: None, from: None, until: None };
    assert_eq!(whole.cut(&source), source);
}

#[test]
fn migrate_renames_the_laptop_backups() {
    let source = series(
        &[("__name__", "backup_size"), ("job", "node"), ("name", "macos.laptop")],
        &[(1, 1.0)],
    );
    assert_eq!(
        migrate(&source),
        MigratedTimeSeries::Changed(series(
            &[("__name__", "backup_size"), ("job", "node"), ("name", "laptop")],
            &[(1, 1.0)]
        ))
    );
}

#[test]
fn migrate_drops_the_unit_states_of_nodes() {
    let source = series(&[("__name__", "node_systemd_unit_state"), ("job", "node")], &[(1, 1.0)]);
    assert_eq!(migrate(&source), MigratedTimeSeries::Deleted);
    let other = series(&[("__name__", "node_systemd_unit_state"), ("job", "x")], &[(1, 1.0)]);
    assert_eq!(migrate(&other), MigratedTimeSeries::Unchanged);
}

#[test]
fn migrate_renames_the_broker() {
    let source =
        series(&[("__name__", "investments_brokers"), ("broker", "Тинькофф")], &[(1, 1.0)]);
    assert_eq!(
        migrate(&source),
        MigratedTimeSeries::Changed(series(
            &[("__name__", "investments_brokers"), ("broker", "Т‑Банк")],
            &[(1, 1.0)]
        ))
    );
}

#[test]
fn migrate_renames_the_issuer() {
    let source = series(
        &[("__name__", "investments:asset_classes:funds"), ("issuer", "Tinkoff")],
        &[(1, 1.0)],
    );
    assert_eq!(
        migrate(&source),
        MigratedTimeSeries::Changed(series(
            &[("__name__", "investments:asset_classes:funds"), ("issuer", "T-Bank")],
            &[(1, 1.0)]
        ))
    );
}

#[test]
fn migrate_leaves_other_series_alone() {
    assert_eq!(migrate(&series(&[("__name__", "up")], &[(1, 1.0)])), MigratedTimeSeries::Unchanged);
    assert_eq!(
        migrate(&series(
            &[("__name__", "backup_size"), ("job", "node"), ("name", "laptop")],
            &[(1, 1.0)]
        )),
        MigratedTimeSeries::Unchanged
    );
    assert_eq!(
        migrate(&series(
            &[("__name__", "backup_size"), ("job", "other"), ("name", "macos.laptop")],
            &[]
        )),
        MigratedTimeSeries::Unchanged
    );
    assert_eq!(
        migrate(&series(&[("__name__", "investments_brokers"), ("broker", "Tinkoff")], &[])),
        MigratedTimeSeries::Unchanged
    );
}

#[test]
fn migrate_is_what_the_rules_in_force_make() {
    let rules = standard_rules();
    assert_eq!(rules.len(), 4);
    let source = series(&[("__name__", "node_systemd_unit_state"), ("job", "node")], &[]);
    assert_eq!(apply_rules(&rules, &source), migrate(&source));
}

#[test]
fn example_drops_by_name_and_label() {
    let at = cutoffs();
    assert_eq!(
        migrate_example(
            &series(&[("__name__", "backup_age"), ("job", "node"), ("name", "job")], &[(1, 1.0)]),
            &at
        ),
        MigratedTimeSeries::Deleted
    );
    assert_eq!(
        migrate_example(
            &series(
                &[
                    ("__name__", "unit_state"),
                    ("service", "dbus-:1.2-org.fedoraproject.SetroubleshootPrivileged@0.service")
                ],
                &[(1, 1.0)]
            ),
            &at
        ),
        MigratedTimeSeries::Deleted
    );
    assert_eq!(
        migrate_example(
            &series(&[("__name__", "node_systemd_unit_state"), ("job", "node")], &[]),
            &at
        ),
        MigratedTimeSeries::Deleted
    );
    assert_eq!(
        migrate_example(
            &series(&[("__name__", "node_disk"), ("job", "node"), ("device", "/dev/md126")], &[]),
            &at
        ),
        MigratedTimeSeries::Deleted
    );
    assert_eq!(
        migrate_example(
            &series(
                &[
                    ("__name__", "node_disk"),
                    ("job", "node"),
                    ("instance", "proxy"),
                    ("device", "md126")
                ],
                &[]
            ),
            &at
        ),
        MigratedTimeSeries::Unchanged
    );
}

#[test]
fn example_renames_the_root_array() {
    let at = cutoffs();
    let samples = [(MD0_UNTIL - 1, 1.0), (MD0_UNTIL, 2.0)];
    assert_eq!(
        migrate_example(
            &series(&[("__name__", "d"), ("job", "node"), ("device", "/dev/md127")], &samples),
            &at
        ),
        MigratedTimeSeries::Rewrite(vec![series(
            &[("__name__", "d"), ("job", "node"), ("device", "/dev/md/root")],
            &samples
        )])
    );
    assert_eq!(
        migrate_example(
            &series(&[("__name__", "d"), ("job", "node"), ("device", "md127")], &samples),
            &at
        ),
        MigratedTimeSeries::Rewrite(vec![series(
            &[("__name__", "d"), ("job", "node"), ("device", "md/root")],
            &samples
        )])
    );
}

#[test]
fn example_keeps_the_old_array_until_it_was_retired() {
    let at = cutoffs();
    let samples = [(MD0_UNTIL - 1, 1.0), (MD0_UNTIL, 2.0), (MD0_UNTIL + 1, 3.0)];
    assert_eq!(MD0_UNTIL, 1734447790 * 1000);
    assert_eq!(
        migrate_example(
            &series(&[("__name__", "d"), ("job", "node"), ("device", "/dev/md0")], &samples),
            &at
        ),
        MigratedTimeSeries::Rewrite(vec![series(
            &[("__name__", "d"), ("job", "node"), ("device", "/dev/md/root")],
            &[(MD0_UNTIL - 1, 1.0)]
        )])
    );
    assert_eq!(
        migrate_example(
            &series(&[("__name__", "d"), ("job", "node"), ("device", "md0")], &samples[1..]),
            &at
        ),
        MigratedTimeSeries::Rewrite(vec![series(
            &[("__name__", "d"), ("job", "node"), ("device", "md/root")],
            &[]
        )])
    );
}

#[test]
fn example_splits_the_russian_bonds() {
    let source = series(
        &[("__name__", "investments_performance"), ("instrument", "Russian bonds")],
        &[(999, 1.0), (1000, 2.0), (1999, 3.0), (2000, 4.0), (5000, 5.0)],
    );
    assert_eq!(
        migrate_example(&source, &cutoffs()),
        MigratedTimeSeries::Rewrite(vec![
            series(
                &[("__name__", "investments_performance"), ("instrument", "Russian Eurobonds")],
                &[(999, 1.0)]
            ),
            series(
                &[("__name__", "investments_performance"), ("instrument", "Russian bonds")],
                &[(2000, 4.0), (5000, 5.0)]
            ),
        ])
    );
}

#[test]
fn example_sends_no_sample_of_the_russian_bonds_twice() {
    let source = series(
        &[("__name__", "investments_performance"), ("instrument", "Russian bonds")],
        &[(100, 1.0), (1500, 2.0), (2500, 3.0)],
    );
    let crossed =
        ExampleCutoffs { euro_bonds_until: 2000, bonds_from: 1000, reit_from: 0, emerging_from: 0 };
    assert_eq!(
        migrate_example(&source, &crossed),
        MigratedTimeSeries::Rewrite(vec![
            series(
                &[("__name__", "investments_performance"), ("instrument", "Russian Eurobonds")],
                &[(100, 1.0), (1500, 2.0)]
            ),
            series(
                &[("__name__", "investments_performance"), ("instrument", "Russian bonds")],
                &[(2500, 3.0)]
            ),
        ])
    );
}

#[test]
fn example_keeps_the_late_samples_of_two_instruments() {
    let at = cutoffs();
    let samples = [(2999, 1.0), (3000, 2.0), (3999, 3.0), (4000, 4.0)];
    assert_eq!(
        migrate_example(
            &series(
                &[("__name__", "investments_performance"), ("instrument", "Global REIT")],
                &samples
            ),
            &at
        ),
        MigratedTimeSeries::Changed(series(
            &[("__name__", "investments_performance"), ("instrument", "Global REIT")],
            &samples[1..]
        ))
    );
    assert_eq!(
        migrate_example(
            &series(
                &[("__name__", "investments_performance"), ("instrument", "Emerging Markets stocks")],
                &samples
            ),
            &at
        ),
        MigratedTimeSeries::Changed(series(
            &[("__name__", "investments_performance"), ("instrument", "Emerging Markets stocks")],
            &samples[3..]
        ))
    );
    assert_eq!(
        migrate_example(
            &series(&[("__name__", "investments_performance"), ("instrument", "Gold")], &samples),
            &at
        ),
        MigratedTimeSeries::Unchanged
    );
}

#[test]
fn example_rules_are_eleven() {
    assert_eq!(example_rules(&cutoffs()).len(), 11);
}

#[test]
fn date_is_the_start_of_a_day_in_milliseconds() {
    // Five days in a row: a zone changes its time on two days of a year at most, so at least
    // three of them have a single start.
    let utc_midnight: i64 = 1_636_156_800_000;
    let day: i64 = 86_400_000;
    let mut answers = 0;
    for (offset, number) in (4u32..=8).enumerate() {
        let start = utc_midnight + (offset as i64 - 2) * day;
        if let Some(millis) = date(2021, 11, number) {
            answers += 1;
            assert_eq!(millis % 1000, 0);
            assert!(start - day < millis && millis < start + day);
        }
    }
    assert!(answers >= 3);
}

#[test]
fn date_moves_on_by_a_day_from_day_to_day() {
    match (date(2023, 3, 2), date(2023, 3, 3)) {
        (Some(first), Some(second)) => {
            assert!(first < second);
            assert!(second - first < 2 * 86_400_000);
        }
        (first, second) => assert!(first.is_none() || second.is_none()),
    }
}

#[test]
fn date_of_a_day_that_is_not_in_the_calendar_is_none() {
    assert_eq!(date(2021, 2, 30), None);
    assert_eq!(date(2021, 13, 1), None);
    assert_eq!(date(2021, 0, 1), None);
    assert_eq!(date(2021, 1, 0), None);
    assert_eq!(date(2021, 4, 31), None);
    assert_eq!(date(2023, 2, 29), None);
    assert_eq!(date(1900, 2, 29), None);
}

#[test]
fn local_cutoffs_are_in_the_order_of_their_days() {
    let days = [date(2021, 11, 6), date(2023, 3, 2), date(2023, 10, 26), date(2023, 7, 29)];
    match local_cutoffs() {
        Some(at) => {
            assert_eq!(Some(at.euro_bonds_until), days[0]);
            assert_eq!(Some(at.bonds_from), days[1]);
            assert_eq!(Some(at.reit_from), days[2]);
            assert_eq!(Some(at.emerging_from), days[3]);
            assert!(at.euro_bonds_until < at.bonds_from);
            assert!(at.bonds_from < at.emerging_from);
            assert!(at.emerging_from < at.reit_from);
            let day: i64 = 86_400_000;
            assert!((at.euro_bonds_until - 1_636_156_800_000).abs() < day);
            assert!((at.bonds_from - 1_677_715_200_000).abs() < day);
            assert!((at.reit_from - 1_698_278_400_000).abs() < day);
            assert!((at.emerging_from - 1_690_588_800_000).abs() < day);
        }
        None => assert!(days.iter().any(|start| start.is_none())),
    }
}

#[test]
fn in_millis_multiplies_by_a_thousand() {
    assert_eq!(in_millis(Some(1_636_156_800)), Some(1_636_156_800_000));
    assert_eq!(in_millis(Some(0)), Some(0));
    assert_eq!(in_millis(Some(-86_400)), Some(-86_400_000));
    assert_eq!(in_millis(None), None);
}

#[test]
fn in_millis_gives_nothing_where_the_milliseconds_do_not_fit() {
    assert_eq!(in_millis(Some(i64::MAX / 1000)), Some(i64::MAX / 1000 * 1000));
    assert_eq!(in_millis(Some(i64::MAX / 1000 + 1)), None);
    assert_eq!(in_millis(Some(i64::MIN / 1000)), Some(i64::MIN / 1000 * 1000));
    assert_eq!(in_millis(Some(i64::MIN / 1000 - 1)), None);
    assert_eq!(in_millis(Some(i64::MAX)), None);
}

#[test]
fn assemble_cutoffs_needs_all_four_days() {
    assert_eq!(
        assemble_cutoffs(Some(1), Some(2), Some(3), Some(4)),
        Some(ExampleCutoffs { euro_bonds_until: 1, bonds_from: 2, reit_from: 3, emerging_from: 4 })
    );
    assert_eq!(assemble_cutoffs(None, Some(2), Some(3), Some(4)), None);
    assert_eq!(assemble_cutoffs(Some(1), None, Some(3), Some(4)), None);
    assert_eq!(assemble_cutoffs(Some(1), Some(2), None, Some(4)), None);
    assert_eq!(assemble_cutoffs(Some(1), Some(2), Some(3), None), None);
    assert_eq!(assemble_cutoffs(None, None, None, None), None);
}
