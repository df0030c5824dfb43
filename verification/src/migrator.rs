//! The transform engine: an ordered list of rules, of which the first that applies to a
//! series decides what becomes of it.

use vstd::prelude::*;
use chrono::{Local, TimeZone};
use crate::metrics::{all_wf, series_of, MigratedTimeSeries, Outcome, Series, TimeSeries};
use crate::text::{contains, ends_with, has_infix, same, starts_with};

verus! {

/// A test on a series. A label that the series lacks reads as the empty text.
#[derive(Debug)]
pub enum Condition {
    /// The metric name is this text.
    NameIs(String),
    /// The metric name begins with this text.
    NameStartsWith(String),
    /// The label has this value.
    LabelIs(String, String),
    /// The label has another value than this.
    LabelIsNot(String, String),
    /// The label's value holds this text.
    LabelContains(String, String),
    /// The label's value ends with this text.
    LabelEndsWith(String, String),
    /// Some sample is older than this timestamp.
    HasSamplesBefore(i64),
}

/// What a `Condition` is.
pub enum ConditionView {
    NameIs(Seq<char>),
    NameStartsWith(Seq<char>),
    LabelIs(Seq<char>, Seq<char>),
    LabelIsNot(Seq<char>, Seq<char>),
    LabelContains(Seq<char>, Seq<char>),
    LabelEndsWith(Seq<char>, Seq<char>),
    HasSamplesBefore(i64),
}

impl ConditionView {
    /// Whether the series meets the condition.
    pub open spec fn holds(self, series: Series) -> bool {
        match self {
            ConditionView::NameIs(name) => series.name() == name,
            ConditionView::NameStartsWith(prefix) => prefix.is_prefix_of(series.name()),
            ConditionView::LabelIs(label, value) => series.label(label) == value,
            ConditionView::LabelIsNot(label, value) => series.label(label) != value,
            ConditionView::LabelContains(label, part) => has_infix(series.label(label), part),
            ConditionView::LabelEndsWith(label, suffix) => suffix.is_suffix_of(series.label(label)),
            ConditionView::HasSamplesBefore(timestamp) => series.has_records_before(timestamp),
        }
    }
}

impl View for Condition {
    type V = ConditionView;

    open spec fn view(&self) -> ConditionView {
        match self {
            Condition::NameIs(name) => ConditionView::NameIs(name@),
            Condition::NameStartsWith(prefix) => ConditionView::NameStartsWith(prefix@),
            Condition::LabelIs(label, value) => ConditionView::LabelIs(label@, value@),
            Condition::LabelIsNot(label, value) => ConditionView::LabelIsNot(label@, value@),
            Condition::LabelContains(label, part) => ConditionView::LabelContains(label@, part@),
            Condition::LabelEndsWith(label, suffix) => ConditionView::LabelEndsWith(
                label@,
                suffix@,
            ),
            Condition::HasSamplesBefore(timestamp) => ConditionView::HasSamplesBefore(*timestamp),
        }
    }
}

impl Condition {
    /// Whether the series meets the condition.
    pub fn test(&self, series: &TimeSeries) -> (r: bool)
        requires
            series.wf(),
        ensures
            r == self@.holds(series@),
    {
        match self {
            Condition::NameIs(name) => same(series.name(), name.as_str()),
            Condition::NameStartsWith(prefix) => starts_with(series.name(), prefix.as_str()),
            Condition::LabelIs(label, value) => same(series.label(label.as_str()), value.as_str()),
            Condition::LabelIsNot(label, value) => !same(
                series.label(label.as_str()),
                value.as_str(),
            ),
            Condition::LabelContains(label, part) => contains(
                series.label(label.as_str()),
                part.as_str(),
            ),
            Condition::LabelEndsWith(label, suffix) => ends_with(
                series.label(label.as_str()),
                suffix.as_str(),
            ),
            Condition::HasSamplesBefore(timestamp) => series.has_records_before(*timestamp),
        }
    }
}

/// One of the series that a rewrite puts in the place of its source: the samples of the source
/// from `from` on and before `until`, under the source's labels with `label` set, if any.
#[derive(Debug)]
pub struct Part {
    pub label: Option<(String, String)>,
    pub from: Option<i64>,
    pub until: Option<i64>,
}

/// What a `Part` is.
pub struct PartView {
    pub label: Option<(Seq<char>, Seq<char>)>,
    pub from: Option<i64>,
    pub until: Option<i64>,
}

impl PartView {
    /// The series that this part makes of `series`.
    pub open spec fn of(self, series: Series) -> Series {
        let cut = series.window(self.from, self.until);
        match self.label {
            Some((name, value)) => cut.with_label(name, value),
            None => cut,
        }
    }
}

impl View for Part {
    type V = PartView;

    open spec fn view(&self) -> PartView {
        PartView {
            label: match self.label {
                Some((name, value)) => Some((name@, value@)),
                None => None,
            },
            from: self.from,
            until: self.until,
        }
    }
}

impl Part {
    /// The series that this part makes of `series`.
    pub fn cut(&self, series: &TimeSeries) -> (r: TimeSeries)
        requires
            series.wf(),
        ensures
            r.wf(),
            r@ == self@.of(series@),
    {
        let mut out = series.window(self.from, self.until);
        match &self.label {
            Some((name, value)) => {
                out.set_label(name.as_str(), value.as_str());
            },
            None => {},
        }
        out
    }
}

/// What a rule does to a series that it applies to.
#[derive(Debug)]
pub enum Action {
    /// Drops the series.
    Delete,
    /// Sets a label and keeps the samples.
    SetLabel(String, String),
    /// Keeps the samples from this timestamp on.
    KeepFrom(i64),
    /// Puts these parts in the place of the series.
    Rewrite(Vec<Part>),
}

/// What an `Action` is.
pub enum ActionView {
    Delete,
    SetLabel(Seq<char>, Seq<char>),
    KeepFrom(i64),
    Rewrite(Seq<PartView>),
}

/// What a list of parts holds.
pub open spec fn parts_of(parts: Seq<Part>) -> Seq<PartView> {
    Seq::new(parts.len(), |i: int| parts[i]@)
}

impl ActionView {
    /// What the action makes of `series`.
    pub open spec fn outcome(self, series: Series) -> Outcome {
        match self {
            ActionView::Delete => Outcome::Deleted,
            ActionView::SetLabel(name, value) => Outcome::Changed(series.with_label(name, value)),
            ActionView::KeepFrom(cutoff) => Outcome::Changed(series.window(Some(cutoff), None)),
            ActionView::Rewrite(parts) => Outcome::Rewrite(
                Seq::new(parts.len(), |i: int| parts[i].of(series)),
            ),
        }
    }
}

impl View for Action {
    type V = ActionView;

    open spec fn view(&self) -> ActionView {
        match self {
            Action::Delete => ActionView::Delete,
            Action::SetLabel(name, value) => ActionView::SetLabel(name@, value@),
            Action::KeepFrom(cutoff) => ActionView::KeepFrom(*cutoff),
            Action::Rewrite(parts) => ActionView::Rewrite(parts_of(parts@)),
        }
    }
}

impl Action {
    /// Carries the action out on `series`.
    pub fn apply(&self, series: &TimeSeries) -> (r: MigratedTimeSeries)
        requires
            series.wf(),
        ensures
            r.wf(),
            r@ == self@.outcome(series@),
    {
        match self {
            Action::Delete => MigratedTimeSeries::Deleted,
            Action::SetLabel(name, value) => {
                let mut changed = series.clone();
                changed.set_label(name.as_str(), value.as_str());
                MigratedTimeSeries::Changed(changed)
            },
            Action::KeepFrom(cutoff) => MigratedTimeSeries::Changed(
                series.window(Some(*cutoff), None),
            ),
            Action::Rewrite(parts) => {
                let mut list: Vec<TimeSeries> = Vec::new();
                let mut i: usize = 0;
                while i < parts.len()
                    invariant
                        i <= parts.len(),
                        series.wf(),
                        all_wf(list@),
                        list.len() == i,
                        forall|j: int|
                            0 <= j < i ==> (#[trigger] list[j])@ == parts[j]@.of(series@),
                    decreases parts.len() - i,
                {
                    list.push(parts[i].cut(series));
                    i += 1;
                }
                assert(series_of(list@) =~= Seq::new(
                    parts.len() as nat,
                    |i: int| parts_of(parts@)[i].of(series@),
                ));
                MigratedTimeSeries::Rewrite(list)
            },
        }
    }
}

/// A rule: the conditions that a series must all meet, and what is done to one that does.
#[derive(Debug)]
pub struct Rule {
    pub conditions: Vec<Condition>,
    pub action: Action,
}

/// What a `Rule` is.
pub struct RuleView {
    pub conditions: Seq<ConditionView>,
    pub action: ActionView,
}

/// What a list of conditions holds.
pub open spec fn conditions_of(conditions: Seq<Condition>) -> Seq<ConditionView> {
    Seq::new(conditions.len(), |i: int| conditions[i]@)
}

/// What a list of rules holds.
pub open spec fn rules_of(rules: Seq<Rule>) -> Seq<RuleView> {
    Seq::new(rules.len(), |i: int| rules[i]@)
}

impl RuleView {
    /// The series meets every condition of the rule.
    pub open spec fn applies(self, series: Series) -> bool {
        forall|i: int|
            0 <= i < self.conditions.len() ==> (#[trigger] self.conditions[i]).holds(series)
    }

    /// What the rule makes of `series`: what its action does where it applies, else nothing.
    pub open spec fn outcome(self, series: Series) -> Outcome {
        if self.applies(series) {
            self.action.outcome(series)
        } else {
            Outcome::Unchanged
        }
    }
}

impl View for Rule {
    type V = RuleView;

    open spec fn view(&self) -> RuleView {
        RuleView { conditions: conditions_of(self.conditions@), action: self.action@ }
    }
}

impl Rule {
    /// Whether the series meets every condition of the rule.
    pub fn applies(&self, series: &TimeSeries) -> (r: bool)
        requires
            series.wf(),
        ensures
            r == self@.applies(series@),
    {
        let mut i: usize = 0;
        while i < self.conditions.len()
            invariant
                i <= self.conditions.len(),
                series.wf(),
                forall|j: int| 0 <= j < i ==> (#[trigger] self@.conditions[j]).holds(series@),
            decreases self.conditions.len() - i,
        {
            if !self.conditions[i].test(series) {
                assert(!self@.conditions[i as int].holds(series@));
                return false;
            }
            i += 1;
        }
        true
    }

    /// What the rule makes of `series`.
    pub fn apply(&self, series: &TimeSeries) -> (r: MigratedTimeSeries)
        requires
            series.wf(),
        ensures
            r.wf(),
            r@ == self@.outcome(series@),
    {
        if self.applies(series) {
            self.action.apply(series)
        } else {
            MigratedTimeSeries::Unchanged
        }
    }
}

/// What an ordered list of rules makes of a series: what the first rule that applies does, or
/// nothing where none applies.
pub open spec fn outcome_of(rules: Seq<RuleView>, series: Series) -> Outcome
    decreases rules.len(),
{
    if rules.len() == 0 {
        Outcome::Unchanged
    } else if rules[0].applies(series) {
        rules[0].action.outcome(series)
    } else {
        outcome_of(rules.drop_first(), series)
    }
}

/// Applies the first rule that applies to `series`.
pub fn apply_rules(rules: &Vec<Rule>, series: &TimeSeries) -> (r: MigratedTimeSeries)
    requires
        series.wf(),
    ensures
        r.wf(),
        r@ == outcome_of(rules_of(rules@), series@),
{
    let mut i: usize = 0;
    assert(rules_of(rules@).skip(0) =~= rules_of(rules@));
    while i < rules.len()
        invariant
            i <= rules.len(),
            series.wf(),
            outcome_of(rules_of(rules@), series@) == outcome_of(
                rules_of(rules@).skip(i as int),
                series@,
            ),
        decreases rules.len() - i,
    {
        let ghost rest = rules_of(rules@).skip(i as int);
        assert(rest[0] == rules[i as int]@);
        assert(rest.drop_first() =~= rules_of(rules@).skip(i as int + 1));
        if rules[i].applies(series) {
            return rules[i].action.apply(series);
        }
        i += 1;
    }
    MigratedTimeSeries::Unchanged
}

/// The rules in force, in the order in which they are tried.
pub open spec fn standard_ruleset() -> Seq<RuleView> {
    seq![
        RuleView {
            conditions: seq![
                ConditionView::LabelIs("job"@, "node"@),
                ConditionView::NameStartsWith("backup_"@),
                ConditionView::LabelIs("name"@, "macos.laptop"@),
            ],
            action: ActionView::SetLabel("name"@, "laptop"@),
        },
        RuleView {
            conditions: seq![
                ConditionView::LabelIs("job"@, "node"@),
                ConditionView::NameIs("node_systemd_unit_state"@),
            ],
            action: ActionView::Delete,
        },
        RuleView {
            conditions: seq![
                ConditionView::NameIs("investments_brokers"@),
                ConditionView::LabelIs("broker"@, "Тинькофф"@),
            ],
            action: ActionView::SetLabel("broker"@, "Т‑Банк"@),
        },
        RuleView {
            conditions: seq![
                ConditionView::NameIs("investments:asset_classes:funds"@),
                ConditionView::LabelIs("issuer"@, "Tinkoff"@),
            ],
            action: ActionView::SetLabel("issuer"@, "T-Bank"@),
        },
    ]
}

/// The rules in force, in the order in which they are tried.
pub fn standard_rules() -> (r: Vec<Rule>)
    ensures
        rules_of(r@) == standard_ruleset(),
{
    let ghost wanted = standard_ruleset();
    let mut rules: Vec<Rule> = Vec::new();

    let conditions = vec![
        Condition::LabelIs("job".to_owned(), "node".to_owned()),
        Condition::NameStartsWith("backup_".to_owned()),
        Condition::LabelIs("name".to_owned(), "macos.laptop".to_owned()),
    ];
    assert(conditions_of(conditions@) =~= wanted[0].conditions);
    rules.push(
        Rule { conditions, action: Action::SetLabel("name".to_owned(), "laptop".to_owned()) },
    );

    let conditions = vec![
        Condition::LabelIs("job".to_owned(), "node".to_owned()),
        Condition::NameIs("node_systemd_unit_state".to_owned()),
    ];
    assert(conditions_of(conditions@) =~= wanted[1].conditions);
    rules.push(Rule { conditions, action: Action::Delete });

    let conditions = vec![
        Condition::NameIs("investments_brokers".to_owned()),
        Condition::LabelIs("broker".to_owned(), "Тинькофф".to_owned()),
    ];
    assert(conditions_of(conditions@) =~= wanted[2].conditions);
    rules.push(
        Rule { conditions, action: Action::SetLabel("broker".to_owned(), "Т‑Банк".to_owned()) },
    );

    let conditions = vec![
        Condition::NameIs("investments:asset_classes:funds".to_owned()),
        Condition::LabelIs("issuer".to_owned(), "Tinkoff".to_owned()),
    ];
    assert(conditions_of(conditions@) =~= wanted[3].conditions);
    rules.push(
        Rule { conditions, action: Action::SetLabel("issuer".to_owned(), "T-Bank".to_owned()) },
    );

    assert(rules_of(rules@) =~= wanted);
    rules
}

/// What the rules in force make of a series.
pub fn migrate(time_series: &TimeSeries) -> (r: MigratedTimeSeries)
    requires
        time_series.wf(),
    ensures
        r.wf(),
        r@ == outcome_of(standard_ruleset(), time_series@),
{
    apply_rules(&standard_rules(), time_series)
}

/// The first rule that applies decides, whatever the rules after it say.
pub proof fn lemma_first_rule_wins(rules: Seq<RuleView>, series: Series, i: int)
    requires
        0 <= i < rules.len(),
        rules[i].applies(series),
        forall|j: int| 0 <= j < i ==> !(#[trigger] rules[j]).applies(series),
    ensures
        outcome_of(rules, series) == rules[i].action.outcome(series),
    decreases rules.len(),
{
    if i > 0 {
        let rest = rules.drop_first();
        assert(!rules[0].applies(series));
        assert forall|j: int| 0 <= j < i - 1 implies !(#[trigger] rest[j]).applies(series) by {
            assert(rest[j] == rules[j + 1]);
        }
        lemma_first_rule_wins(rest, series, i - 1);
    }
}

/// A series passes unchanged exactly when no rule applies to it.
pub proof fn lemma_unchanged_iff_no_rule_applies(rules: Seq<RuleView>, series: Series)
    ensures
        outcome_of(rules, series) is Unchanged <==> forall|j: int|
            0 <= j < rules.len() ==> !(#[trigger] rules[j]).applies(series),
    decreases rules.len(),
{
    if rules.len() > 0 {
        let rest = rules.drop_first();
        lemma_unchanged_iff_no_rule_applies(rest, series);
        if !rules[0].applies(series) {
            if outcome_of(rules, series) is Unchanged {
                assert forall|j: int| 0 <= j < rules.len() implies !(#[trigger] rules[j]).applies(
                    series,
                ) by {
                    if j > 0 {
                        assert(rest[j - 1] == rules[j]);
                    }
                }
            } else {
                let j = choose|j: int| 0 <= j < rest.len() && (#[trigger] rest[j]).applies(series);
                assert(rules[j + 1] == rest[j]);
            }
        }
    }
}

/// A rule that asks for samples before a cutoff leaves alone a part that begins at the cutoff
/// or later: run again on what it made, such a rule changes nothing.
pub proof fn lemma_guard_skips_later_part(
    rule: RuleView,
    part: PartView,
    series: Series,
    cutoff: i64,
    i: int,
)
    requires
        0 <= i < rule.conditions.len(),
        rule.conditions[i] == ConditionView::HasSamplesBefore(cutoff),
        part.from matches Some(start) && cutoff <= start,
    ensures
        rule.outcome(part.of(series)) is Unchanged,
{
    series.lemma_window_bounds(part.from, part.until);
    assert(part.of(series).samples == series.window(part.from, part.until).samples);
    assert(!series.window(part.from, part.until).has_records_before(cutoff));
    assert(!rule.conditions[i].holds(part.of(series)));
}

/// The timestamp before which the samples of the first `md0` array are kept.
pub const MD0_UNTIL: i64 = 1_734_447_790_000;

/// The timestamps at which the example rules cut, in milliseconds since the epoch.
#[derive(Clone, Copy, Debug, PartialEq, Eq, Structural)]
pub struct ExampleCutoffs {
    /// Russian bonds before this are Eurobonds.
    pub euro_bonds_until: i64,
    /// Russian bonds are kept from this on.
    pub bonds_from: i64,
    /// Global REIT is kept from this on.
    pub reit_from: i64,
    /// Emerging Markets stocks are kept from this on.
    pub emerging_from: i64,
}

/// The conditions of a rule on a disk of a node other than the proxy.
pub open spec fn node_disk(device: ConditionView) -> Seq<ConditionView> {
    seq![
        ConditionView::LabelIs("job"@, "node"@),
        ConditionView::LabelIsNot("instance"@, "proxy"@),
        device,
    ]
}

/// A part that keeps the samples in a window under a changed label.
pub open spec fn relabeled(
    label: Seq<char>,
    value: Seq<char>,
    from: Option<i64>,
    until: Option<i64>,
) -> PartView {
    PartView { label: Some((label, value)), from, until }
}

/// Where the Russian bonds that stay bonds begin: no sample goes to both parts.
pub open spec fn bonds_start(cutoffs: ExampleCutoffs) -> i64 {
    if cutoffs.bonds_from < cutoffs.euro_bonds_until {
        cutoffs.euro_bonds_until
    } else {
        cutoffs.bonds_from
    }
}

/// The example rules, in the order in which they are tried.
pub open spec fn example_ruleset(cutoffs: ExampleCutoffs) -> Seq<RuleView> {
    seq![
        RuleView {
            conditions: seq![
                ConditionView::NameStartsWith("backup_"@),
                ConditionView::LabelIs("job"@, "node"@),
                ConditionView::LabelIs("name"@, "job"@),
            ],
            action: ActionView::Delete,
        },
        RuleView {
            conditions: seq![
                ConditionView::LabelContains(
                    "service"@,
                    "-org.fedoraproject.SetroubleshootPrivileged@"@,
                ),
            ],
            action: ActionView::Delete,
        },
        RuleView {
            conditions: seq![
                ConditionView::LabelIs("job"@, "node"@),
                ConditionView::NameIs("node_systemd_unit_state"@),
            ],
            action: ActionView::Delete,
        },
        RuleView {
            conditions: node_disk(ConditionView::LabelEndsWith("device"@, "md126"@)),
            action: ActionView::Delete,
        },
        RuleView {
            conditions: node_disk(ConditionView::LabelIs("device"@, "/dev/md127"@)),
            action: ActionView::Rewrite(seq![relabeled("device"@, "/dev/md/root"@, None, None)]),
        },
        RuleView {
            conditions: node_disk(ConditionView::LabelIs("device"@, "md127"@)),
            action: ActionView::Rewrite(seq![relabeled("device"@, "md/root"@, None, None)]),
        },
        RuleView {
            conditions: node_disk(ConditionView::LabelIs("device"@, "/dev/md0"@)),
            action: ActionView::Rewrite(
                seq![relabeled("device"@, "/dev/md/root"@, None, Some(MD0_UNTIL))],
            ),
        },
        RuleView {
            conditions: node_disk(ConditionView::LabelIs("device"@, "md0"@)),
            action: ActionView::Rewrite(
                seq![relabeled("device"@, "md/root"@, None, Some(MD0_UNTIL))],
            ),
        },
        RuleView {
            conditions: seq![
                ConditionView::NameIs("investments_performance"@),
                ConditionView::LabelIs("instrument"@, "Russian bonds"@),
            ],
            action: ActionView::Rewrite(
                seq![
                    relabeled(
                        "instrument"@,
                        "Russian Eurobonds"@,
                        None,
                        Some(cutoffs.euro_bonds_until),
                    ),
                    PartView { label: None, from: Some(bonds_start(cutoffs)), until: None },
                ],
            ),
        },
        RuleView {
            conditions: seq![
                ConditionView::NameIs("investments_performance"@),
                ConditionView::LabelIs("instrument"@, "Global REIT"@),
            ],
            action: ActionView::KeepFrom(cutoffs.reit_from),
        },
        RuleView {
            conditions: seq![
                ConditionView::NameIs("investments_performance"@),
                ConditionView::LabelIs("instrument"@, "Emerging Markets stocks"@),
            ],
            action: ActionView::KeepFrom(cutoffs.emerging_from),
        },
    ]
}

fn node_disk_conditions(device: Condition) -> (r: Vec<Condition>)
    ensures
        conditions_of(r@) == node_disk(device@),
{
    let conditions = vec![
        Condition::LabelIs("job".to_owned(), "node".to_owned()),
        Condition::LabelIsNot("instance".to_owned(), "proxy".to_owned()),
        device,
    ];
    assert(conditions_of(conditions@) =~= node_disk(device@));
    conditions
}

fn relabeled_part(label: &str, value: &str, from: Option<i64>, until: Option<i64>) -> (r: Part)
    ensures
        r@ == relabeled(label@, value@, from, until),
{
    Part { label: Some((label.to_owned(), value.to_owned())), from, until }
}

fn rewrite_to(part: Part) -> (r: Action)
    ensures
        r@ == ActionView::Rewrite(seq![part@]),
{
    let parts = vec![part];
    assert(parts_of(parts@) =~= seq![part@]);
    Action::Rewrite(parts)
}

/// The example rules, in the order in which they are tried.
pub fn example_rules(cutoffs: &ExampleCutoffs) -> (r: Vec<Rule>)
    ensures
        rules_of(r@) == example_ruleset(*cutoffs),
{
    let ghost wanted = example_ruleset(*cutoffs);
    let mut rules: Vec<Rule> = Vec::new();

    let conditions = vec![
        Condition::NameStartsWith("backup_".to_owned()),
        Condition::LabelIs("job".to_owned(), "node".to_owned()),
        Condition::LabelIs("name".to_owned(), "job".to_owned()),
    ];
    assert(conditions_of(conditions@) =~= wanted[0].conditions);
    rules.push(Rule { conditions, action: Action::Delete });

    let conditions = vec![
        Condition::LabelContains(
            "service".to_owned(),
            "-org.fedoraproject.SetroubleshootPrivileged@".to_owned(),
        ),
    ];
    assert(conditions_of(conditions@) =~= wanted[1].conditions);
    rules.push(Rule { conditions, action: Action::Delete });

    let conditions = vec![
        Condition::LabelIs("job".to_owned(), "node".to_owned()),
        Condition::NameIs("node_systemd_unit_state".to_owned()),
    ];
    assert(conditions_of(conditions@) =~= wanted[2].conditions);
    rules.push(Rule { conditions, action: Action::Delete });

    rules.push(
        Rule {
            conditions: node_disk_conditions(
                Condition::LabelEndsWith("device".to_owned(), "md126".to_owned()),
            ),
            action: Action::Delete,
        },
    );
    rules.push(
        Rule {
            conditions: node_disk_conditions(
                Condition::LabelIs("device".to_owned(), "/dev/md127".to_owned()),
            ),
            action: rewrite_to(relabeled_part("device", "/dev/md/root", None, None)),
        },
    );
    rules.push(
        Rule {
            conditions: node_disk_conditions(
                Condition::LabelIs("device".to_owned(), "md127".to_owned()),
            ),
            action: rewrite_to(relabeled_part("device", "md/root", None, None)),
        },
    );
    rules.push(
        Rule {
            conditions: node_disk_conditions(
                Condition::LabelIs("device".to_owned(), "/dev/md0".to_owned()),
            ),
            action: rewrite_to(relabeled_part("device", "/dev/md/root", None, Some(MD0_UNTIL))),
        },
    );
    rules.push(
        Rule {
            conditions: node_disk_conditions(
                Condition::LabelIs("device".to_owned(), "md0".to_owned()),
            ),
            action: rewrite_to(relabeled_part("device", "md/root", None, Some(MD0_UNTIL))),
        },
    );

    let conditions = vec![
        Condition::NameIs("investments_performance".to_owned()),
        Condition::LabelIs("instrument".to_owned(), "Russian bonds".to_owned()),
    ];
    assert(conditions_of(conditions@) =~= wanted[8].conditions);
    let bonds_from = if cutoffs.bonds_from < cutoffs.euro_bonds_until {
        cutoffs.euro_bonds_until
    } else {
        cutoffs.bonds_from
    };
    let parts = vec![
        relabeled_part("instrument", "Russian Eurobonds", None, Some(cutoffs.euro_bonds_until)),
        Part { label: None, from: Some(bonds_from), until: None },
    ];
    assert(parts_of(parts@) =~= seq![
        relabeled("instrument"@, "Russian Eurobonds"@, None, Some(cutoffs.euro_bonds_until)),
        PartView { label: None, from: Some(bonds_start(*cutoffs)), until: None },
    ]);
    rules.push(Rule { conditions, action: Action::Rewrite(parts) });

    let conditions = vec![
        Condition::NameIs("investments_performance".to_owned()),
        Condition::LabelIs("instrument".to_owned(), "Global REIT".to_owned()),
    ];
    assert(conditions_of(conditions@) =~= wanted[9].conditions);
    rules.push(Rule { conditions, action: Action::KeepFrom(cutoffs.reit_from) });

    let conditions = vec![
        Condition::NameIs("investments_performance".to_owned()),
        Condition::LabelIs("instrument".to_owned(), "Emerging Markets stocks".to_owned()),
    ];
    assert(conditions_of(conditions@) =~= wanted[10].conditions);
    rules.push(Rule { conditions, action: Action::KeepFrom(cutoffs.emerging_from) });

    assert(rules_of(rules@) =~= wanted);
    rules
}

/// What the example rules, cutting at `cutoffs`, make of a series.
pub fn migrate_example(time_series: &TimeSeries, cutoffs: &ExampleCutoffs) -> (r:
    MigratedTimeSeries)
    requires
        time_series.wf(),
    ensures
        r.wf(),
        r@ == outcome_of(example_ruleset(*cutoffs), time_series@),
{
    apply_rules(&example_rules(cutoffs), time_series)
}

/// Whether a year is a leap year of the Gregorian calendar.
pub open spec fn leap_year(year: i32) -> bool {
    year % 4 == 0 && (year % 100 != 0 || year % 400 == 0)
}

/// Whether the calendar has such a day.
pub open spec fn day_exists(year: i32, month: u32, day: u32) -> bool {
    &&& 1 <= month <= 12
    &&& 1 <= day
    &&& day <= if month == 2 {
        if leap_year(year) {
            29u32
        } else {
            28u32
        }
    } else if month == 4 || month == 6 || month == 9 || month == 11 {
        30u32
    } else {
        31u32
    }
}

/// The number of leap years from the year 1 up to, not including, `year`.
pub open spec fn leap_years_before(year: int) -> int {
    (year - 1) / 4 - (year - 1) / 100 + (year - 1) / 400
}

/// The number of days of `year` that lie before its month `month`.
pub open spec fn days_before_month(year: i32, month: u32) -> int {
    let february: int = if leap_year(year) {
        29
    } else {
        28
    };
    if month <= 1 {
        0
    } else if month == 2 {
        31
    } else if month == 3 {
        31 + february
    } else if month == 4 {
        62 + february
    } else if month == 5 {
        92 + february
    } else if month == 6 {
        123 + february
    } else if month == 7 {
        153 + february
    } else if month == 8 {
        184 + february
    } else if month == 9 {
        215 + february
    } else if month == 10 {
        245 + february
    } else if month == 11 {
        276 + february
    } else {
        306 + february
    }
}

/// The number of days from the first day of the year 1 to a day of the Gregorian calendar.
pub open spec fn day_number(year: i32, month: u32, day: u32) -> int {
    (year - 1) * 365 + leap_years_before(year as int) + days_before_month(year, month) + day - 1
}

/// The seconds since the epoch at which a day begins in UTC.
pub open spec fn utc_midnight(year: i32, month: u32, day: u32) -> int {
    (day_number(year, month, day) - day_number(1970, 1, 1)) * 86_400
}

/// Whether a timestamp in milliseconds is less than a day away from the start of a day in
/// UTC. The start of that day in any time zone is.
pub open spec fn near_midnight(millis: i64, year: i32, month: u32, day: u32) -> bool {
    (utc_midnight(year, month, day) - 86_400) * 1000 < millis < (utc_midnight(year, month, day)
        + 86_400) * 1000
}

/// `TimeZone::with_ymd_and_hms` on `Local`, then `MappedLocalTime::single` and
/// `DateTime::timestamp`: the seconds since the epoch at which the given day begins in the
/// machine's time zone, or `None` where that zone has no such time or has it twice. Which it
/// is depends on the machine, so the contract says only what holds of every answer. There is
/// none for a day that the calendar does not have. A timestamp is the start of the day in UTC
/// less the offset of the zone, which chrono keeps below one day either way; and it is in the
/// range that chrono computes it in, from a day count held in an `i32` and the seconds of one
/// day.
#[verifier::external_body]
fn local_midnight(year: i32, month: u32, day: u32) -> (r: Option<i64>)
    ensures
        !day_exists(year, month, day) ==> r is None,
        r matches Some(seconds) ==> {
            &&& -0x4_0000_0000_0000 <= seconds <= 0x4_0000_0000_0000
            &&& utc_midnight(year, month, day) - 86_400 < seconds < utc_midnight(year, month, day)
                + 86_400
        },
{
    match Local.with_ymd_and_hms(year, month, day, 0, 0, 0).single() {
        Some(time) => Some(time.timestamp()),
        None => None,
    }
}

/// The start of a day in the machine's time zone, in milliseconds since the epoch; `None`
/// where the calendar has no such day, or that zone has no such time or has it twice. Whatever
/// the zone, the start of a day is less than a day away from its start in UTC.
pub fn date(year: i32, month: u32, day: u32) -> (r: Option<i64>)
    ensures
        !day_exists(year, month, day) ==> r is None,
        r matches Some(millis) ==> millis % 1000 == 0 && near_midnight(millis, year, month, day),
{
    let answer = local_midnight(year, month, day);
    // The range of a timestamp leaves room for the factor: no answer is lost.
    assert(answer is Some ==> millis_of(answer) is Some);
    in_millis(answer)
}

/// The cutoffs of the example rules in the machine's time zone: the starts of 6 November 2021,
/// 2 March 2023, 26 October 2023 and 29 July 2023. `None` where one of the days has no single
/// start there. Whatever the zone, each cutoff is less than a day away from the start of its
/// day in UTC, and so the cutoffs stand in the order of their days.
pub fn local_cutoffs() -> (r: Option<ExampleCutoffs>)
    ensures
        r matches Some(cutoffs) ==> {
            &&& cutoffs.euro_bonds_until % 1000 == 0
            &&& cutoffs.bonds_from % 1000 == 0
            &&& cutoffs.reit_from % 1000 == 0
            &&& cutoffs.emerging_from % 1000 == 0
            &&& near_midnight(cutoffs.euro_bonds_until, 2021, 11, 6)
            &&& near_midnight(cutoffs.bonds_from, 2023, 3, 2)
            &&& near_midnight(cutoffs.reit_from, 2023, 10, 26)
            &&& near_midnight(cutoffs.emerging_from, 2023, 7, 29)
            &&& cutoffs.euro_bonds_until < cutoffs.bonds_from < cutoffs.emerging_from
                < cutoffs.reit_from
        },
{
    assemble_cutoffs(date(2021, 11, 6), date(2023, 3, 2), date(2023, 10, 26), date(2023, 7, 29))
}

/// What an answer in seconds is in milliseconds: nothing where there is no answer, or where
/// the milliseconds do not fit.
pub open spec fn millis_of(answer: Option<i64>) -> Option<i64> {
    match answer {
        Some(seconds) => if i64::MIN <= seconds * 1000 <= i64::MAX {
            Some((seconds * 1000) as i64)
        } else {
            None
        },
        None => None,
    }
}

/// Turns the start of a day from seconds into milliseconds.
pub fn in_millis(answer: Option<i64>) -> (r: Option<i64>)
    ensures
        r == millis_of(answer),
{
    match answer {
        Some(seconds) => seconds.checked_mul(1000),
        None => None,
    }
}

/// The cutoffs that four starts of days make: none where one of the days has no start.
pub open spec fn assembled(
    euro_bonds_until: Option<i64>,
    bonds_from: Option<i64>,
    reit_from: Option<i64>,
    emerging_from: Option<i64>,
) -> Option<ExampleCutoffs> {
    if euro_bonds_until is Some && bonds_from is Some && reit_from is Some
        && emerging_from is Some {
        Some(
            ExampleCutoffs {
                euro_bonds_until: euro_bonds_until->0,
                bonds_from: bonds_from->0,
                reit_from: reit_from->0,
                emerging_from: emerging_from->0,
            },
        )
    } else {
        None
    }
}

/// Makes the cutoffs of the example rules of the starts of their four days.
pub fn assemble_cutoffs(
    euro_bonds_until: Option<i64>,
    bonds_from: Option<i64>,
    reit_from: Option<i64>,
    emerging_from: Option<i64>,
) -> (r: Option<ExampleCutoffs>)
    ensures
        r == assembled(euro_bonds_until, bonds_from, reit_from, emerging_from),
{
    match (euro_bonds_until, bonds_from, reit_from, emerging_from) {
        (Some(euro_bonds_until), Some(bonds_from), Some(reit_from), Some(emerging_from)) => Some(
            ExampleCutoffs { euro_bonds_until, bonds_from, reit_from, emerging_from },
        ),
        _ => None,
    }
}

} // verus!
