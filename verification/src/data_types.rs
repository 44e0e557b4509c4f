//! The risk-model data types, their validation, and the binder that attaches
//! sampling distributions from the reference catalogs.
//!
//! All real-valued quantities are fixed-point: a stored `q` stands for the
//! real `q / SCALE`. Event frequencies are plain integers.

use crate::distribution::Triangular;
use crate::numeric::{BOUND_LIMIT, SCALE};
use vstd::prelude::*;
use vstd::string::StringExecFns;

verus! {

/// The parameters of a triangular distribution over fixed-point values.
/// `low` and `high` are mandatory, but absence is only detected by
/// `range_checks` so that records can exist before they are populated.
#[derive(Clone, Copy, Debug)]
pub struct Range {
    pub low: Option<i64>,
    pub mode: Option<i64>,
    pub high: Option<i64>,
}

/// The parameters of a triangular distribution over plain integer counts.
#[derive(Clone, Copy, Debug)]
pub struct IntRange {
    pub low: Option<i64>,
    pub mode: Option<i64>,
    pub high: Option<i64>,
}

/// How often the triggering event may fire per round.
#[derive(Debug)]
pub struct Event {
    pub description: String,
    pub includes_controls: Option<bool>,
    pub range: IntRange,
    pub prob: Option<Triangular>,
}

/// A single gating probability, expressed as a percentage.
#[derive(Debug)]
pub struct Condition {
    pub description: String,
    pub range: Range,
    pub prob: Option<Triangular>,
}

/// One additive monetary cost component triggered upon loss.
#[derive(Debug)]
pub struct Cost {
    pub description: String,
    pub range: Range,
    pub prob: Option<Triangular>,
}

/// One weighted alternative of a decision branch.
#[derive(Debug)]
pub struct Leaf {
    pub weight: u32,
    pub scenario: Vec<Entry>,
}

/// A node of the conditional-probability tree: either one condition, or a
/// branch over mutually exclusive weighted alternatives.
#[derive(Debug)]
pub enum Entry {
    Single(Condition),
    Branch(Vec<Leaf>),
}

/// One risk scenario: an event, a gating tree, a loss magnitude and costs.
#[derive(Debug)]
pub struct Play {
    pub description: String,
    pub file_name: Option<String>,
    pub event: Event,
    pub scenario: Vec<Entry>,
    pub magnitude: Range,
    pub magnitude_prob: Option<Triangular>,
    pub costs: Vec<Cost>,
}

/// Summary statistics of one play's (or the aggregate's) loss distribution,
/// in fixed-point units.
#[derive(Debug, Clone)]
pub struct MonteCarloResult {
    pub description: String,
    pub annual_loss_event_prob: i64,
    pub fifth_percentile: i64,
    pub ninety_fifth_percentile: i64,
    pub mean: i64,
    pub median: i64,
    pub std_dev: i64,
}

/// The first numeric defect a range can have, in checking order.
#[derive(Clone, Copy, Debug, PartialEq, Eq, Structural)]
pub enum RangeIssue {
    MissingBoth,
    MissingLow,
    MissingHigh,
    LowNotPositive,
    HighNotPositive,
    LowAboveHigh,
    ModeNotPositive,
    LowAboveMode,
    ModeAboveHigh,
}

/// A structural defect found before any simulation work begins.
#[derive(Debug)]
pub enum ValidationError {
    /// A range of the named record breaks a numeric invariant.
    Range { context: String, description: String, issue: RangeIssue },
    /// Two records of one catalog share a description.
    Duplicate { context: String, description: String },
    /// The leaf weights of some branch do not total one hundred.
    WeightSum,
}

/// All numeric invariants of a fixed-point range hold.
pub open spec fn valid_range(r: Range) -> bool {
    &&& r.low is Some
    &&& r.high is Some
    &&& r.low->0 > 0
    &&& r.high->0 > 0
    &&& r.low->0 <= r.high->0
    &&& (r.mode is Some ==> r.mode->0 > 0 && r.low->0 <= r.mode->0 && r.mode->0 <= r.high->0)
}

/// The first check a fixed-point range fails, if any.
pub open spec fn range_issue_spec(r: Range) -> Option<RangeIssue> {
    if r.low is None && r.high is None {
        Some(RangeIssue::MissingBoth)
    } else if r.low is None {
        Some(RangeIssue::MissingLow)
    } else if r.high is None {
        Some(RangeIssue::MissingHigh)
    } else if r.low->0 <= 0 {
        Some(RangeIssue::LowNotPositive)
    } else if r.high->0 <= 0 {
        Some(RangeIssue::HighNotPositive)
    } else if r.low->0 > r.high->0 {
        Some(RangeIssue::LowAboveHigh)
    } else if r.mode is Some && r.mode->0 <= 0 {
        Some(RangeIssue::ModeNotPositive)
    } else if r.mode is Some && r.low->0 > r.mode->0 {
        Some(RangeIssue::LowAboveMode)
    } else if r.mode is Some && r.mode->0 > r.high->0 {
        Some(RangeIssue::ModeAboveHigh)
    } else {
        None
    }
}

/// All numeric invariants of an integer range hold.
pub open spec fn valid_int_range(r: IntRange) -> bool {
    &&& r.low is Some
    &&& r.high is Some
    &&& r.low->0 > 0
    &&& r.high->0 > 0
    &&& r.low->0 <= r.high->0
    &&& (r.mode is Some ==> r.mode->0 > 0 && r.low->0 <= r.mode->0 && r.mode->0 <= r.high->0)
}

/// The first check an integer range fails, if any.
pub open spec fn int_range_issue_spec(r: IntRange) -> Option<RangeIssue> {
    if r.low is None && r.high is None {
        Some(RangeIssue::MissingBoth)
    } else if r.low is None {
        Some(RangeIssue::MissingLow)
    } else if r.high is None {
        Some(RangeIssue::MissingHigh)
    } else if r.low->0 <= 0 {
        Some(RangeIssue::LowNotPositive)
    } else if r.high->0 <= 0 {
        Some(RangeIssue::HighNotPositive)
    } else if r.low->0 > r.high->0 {
        Some(RangeIssue::LowAboveHigh)
    } else if r.mode is Some && r.mode->0 <= 0 {
        Some(RangeIssue::ModeNotPositive)
    } else if r.mode is Some && r.low->0 > r.mode->0 {
        Some(RangeIssue::LowAboveMode)
    } else if r.mode is Some && r.mode->0 > r.high->0 {
        Some(RangeIssue::ModeAboveHigh)
    } else {
        None
    }
}

impl Range {
    /// Checks the numeric invariants, reporting the first violation together
    /// with the record it came from.
    pub fn range_checks(&self, data_type: &str, description: &str) -> (res: Result<
        (),
        ValidationError,
    >)
        ensures
            res is Ok <==> valid_range(*self),
            res matches Err(e) ==> e matches ValidationError::Range {
                context,
                description: d,
                issue,
            } && context@ == data_type@ && d@ == description@ && range_issue_spec(*self) == Some(
                issue,
            ),
    {
        let issue: Option<RangeIssue> = match (self.low, self.high) {
            (None, None) => Some(RangeIssue::MissingBoth),
            (None, Some(_)) => Some(RangeIssue::MissingLow),
            (Some(_), None) => Some(RangeIssue::MissingHigh),
            (Some(low), Some(high)) => {
                if low <= 0 {
                    Some(RangeIssue::LowNotPositive)
                } else if high <= 0 {
                    Some(RangeIssue::HighNotPositive)
                } else if low > high {
                    Some(RangeIssue::LowAboveHigh)
                } else {
                    match self.mode {
                        Some(mode) => {
                            if mode <= 0 {
                                Some(RangeIssue::ModeNotPositive)
                            } else if low > mode {
                                Some(RangeIssue::LowAboveMode)
                            } else if mode > high {
                                Some(RangeIssue::ModeAboveHigh)
                            } else {
                                None
                            }
                        },
                        None => None,
                    }
                }
            },
        };
        match issue {
            None => Ok(()),
            Some(i) => Err(
                ValidationError::Range {
                    context: data_type.to_owned(),
                    description: description.to_owned(),
                    issue: i,
                },
            ),
        }
    }
}

impl IntRange {
    /// Checks the numeric invariants, reporting the first violation together
    /// with the record it came from.
    pub fn range_checks(&self, data_type: &str, description: &str) -> (res: Result<
        (),
        ValidationError,
    >)
        ensures
            res is Ok <==> valid_int_range(*self),
            res matches Err(e) ==> e matches ValidationError::Range {
                context,
                description: d,
                issue,
            } && context@ == data_type@ && d@ == description@ && int_range_issue_spec(*self)
                == Some(issue),
    {
        let issue: Option<RangeIssue> = match (self.low, self.high) {
            (None, None) => Some(RangeIssue::MissingBoth),
            (None, Some(_)) => Some(RangeIssue::MissingLow),
            (Some(_), None) => Some(RangeIssue::MissingHigh),
            (Some(low), Some(high)) => {
                if low <= 0 {
                    Some(RangeIssue::LowNotPositive)
                } else if high <= 0 {
                    Some(RangeIssue::HighNotPositive)
                } else if low > high {
                    Some(RangeIssue::LowAboveHigh)
                } else {
                    match self.mode {
                        Some(mode) => {
                            if mode <= 0 {
                                Some(RangeIssue::ModeNotPositive)
                            } else if low > mode {
                                Some(RangeIssue::LowAboveMode)
                            } else if mode > high {
                                Some(RangeIssue::ModeAboveHigh)
                            } else {
                                None
                            }
                        },
                        None => None,
                    }
                }
            },
        };
        match issue {
            None => Ok(()),
            Some(i) => Err(
                ValidationError::Range {
                    context: data_type.to_owned(),
                    description: description.to_owned(),
                    issue: i,
                },
            ),
        }
    }
}

/// Every branch in a sequence of scenario entries has leaf weights
/// totalling exactly one hundred, recursively.
pub open spec fn entries_weights_ok(s: Seq<Entry>) -> bool
    decreases s,
{
    forall|i: int| 0 <= i < s.len() ==> entry_weights_ok(#[trigger] s[i])
}

/// Every branch under one scenario entry has leaf weights totalling
/// exactly one hundred, recursively.
pub open spec fn entry_weights_ok(e: Entry) -> bool
    decreases e,
{
    match e {
        Entry::Single(_) => true,
        Entry::Branch(leaves) => leaf_weight_sum(leaves@) == 100 && forall|i: int|
            0 <= i < leaves@.len() ==> entries_weights_ok(#[trigger] leaves@[i].scenario@),
    }
}

/// The total weight of a sequence of leaves.
pub open spec fn leaf_weight_sum(ls: Seq<Leaf>) -> int
    decreases ls.len(),
{
    if ls.len() == 0 {
        0
    } else {
        leaf_weight_sum(ls.drop_last()) + ls.last().weight
    }
}

/// Walks a scenario tree and rejects any branch whose leaf weights do not
/// total exactly one hundred.
#[verifier::loop_isolation(false)]
fn entries_weight_check(entries: &Vec<Entry>) -> (res: Result<(), ValidationError>)
    ensures
        res is Ok <==> entries_weights_ok(entries@),
        res matches Err(e) ==> e is WeightSum,
    decreases entries@,
{
    let n = entries.len();
    for i in 0..n
        invariant
            n == entries@.len(),
            forall|k: int| 0 <= k < i ==> entry_weights_ok(#[trigger] entries@[k]),
    {
        match &entries[i] {
            Entry::Single(_) => {},
            Entry::Branch(leaves) => {
                proof {
                    assert(entries@[i as int] == Entry::Branch(*leaves));
                }
                let m = leaves.len();
                let mut total: u128 = 0;
                for j in 0..m
                    invariant
                        m == leaves@.len(),
                        entries@[i as int] == Entry::Branch(*leaves),
                        total == leaf_weight_sum(leaves@.subrange(0, j as int)),
                        total <= j * 0x1_0000_0000,
                        forall|k: int| 0 <= k < j ==> entries_weights_ok(
                            #[trigger] leaves@[k].scenario@,
                        ),
                {
                    proof {
                        let ghost e = entries@[i as int];
                        let ghost lf = leaves@[j as int];
                        assert(decreases_to!(entries@ => e));
                        assert(decreases_to!(e => *leaves));
                        assert(decreases_to!(*leaves => leaves@));
                        assert(decreases_to!(leaves@ => lf));
                        assert(decreases_to!(lf => lf.scenario));
                        assert(decreases_to!(lf.scenario => lf.scenario@));
                        assert(leaves@.subrange(0, j + 1).drop_last() =~= leaves@.subrange(
                            0,
                            j as int,
                        ));
                    }
                    match entries_weight_check(&leaves[j].scenario) {
                        Ok(()) => {},
                        Err(e) => {
                            assert(!entry_weights_ok(entries@[i as int]));
                            return Err(e);
                        },
                    }
                    total = total + (leaves[j].weight as u128);
                }
                proof {
                    assert(leaves@.subrange(0, m as int) =~= leaves@);
                }
                if total != 100 {
                    assert(!entry_weights_ok(entries@[i as int]));
                    return Err(ValidationError::WeightSum);
                }
            },
        }
        assert(entry_weights_ok(entries@[i as int]));
    }
    Ok(())
}

/// A record set that can be checked against its structural invariants.
pub trait Validation {
    /// The invariant that `validate` decides.
    spec fn valid(&self) -> bool;

    /// Checks the invariant, reporting the first violation.
    fn validate(&self) -> (res: Result<(), ValidationError>)
        ensures
            res is Ok <==> self.valid(),
    ;
}

/// Entry `i` of the condition catalog has an invalid range or repeats an
/// earlier description.
pub open spec fn condition_violates(s: Seq<Condition>, i: int) -> bool {
    !valid_range(s[i].range) || exists|j: int|
        0 <= j < i && #[trigger] s[j].description@ == s[i].description@
}

/// The error reported for entry `i` of the condition catalog names that
/// entry and its first failing check.
pub open spec fn condition_error_matches(e: ValidationError, s: Seq<Condition>, i: int) -> bool {
    if !valid_range(s[i].range) {
        e matches ValidationError::Range { context, description, issue } && context@
            == "conditions.yaml"@ && description@ == s[i].description@ && range_issue_spec(
            s[i].range,
        ) == Some(issue)
    } else {
        e matches ValidationError::Duplicate { context, description } && context@
            == "conditions.yaml"@ && description@ == s[i].description@
    }
}

impl Validation for Vec<Condition> {
    /// Every range is valid and no description repeats.
    open spec fn valid(&self) -> bool {
        forall|i: int| 0 <= i < self@.len() ==> !condition_violates(self@, i)
    }

    #[verifier::loop_isolation(false)]
    fn validate(&self) -> (res: Result<(), ValidationError>)
        ensures
            res matches Err(e) ==> exists|i: int|
                0 <= i < self@.len() && #[trigger] condition_violates(self@, i) && (forall|k: int|
                    0 <= k < i ==> !condition_violates(self@, k)) && condition_error_matches(
                    e,
                    self@,
                    i,
                ),
    {
        let n = self.len();
        for i in 0..n
            invariant
                forall|k: int| 0 <= k < i ==> !condition_violates(self@, k),
        {
            let c = &self[i];
            match c.range.range_checks("conditions.yaml", c.description.as_str()) {
                Err(e) => {
                    assert(condition_violates(self@, i as int));
                    return Err(e);
                },
                Ok(()) => {},
            }
            let mut j: usize = 0;
            while j < i
                invariant
                    j <= i,
                    forall|k: int|
                        0 <= k < j ==> #[trigger] self@[k].description@ != self@[i as int].description@,
                decreases i - j,
            {
                if self[j].description == self[i].description {
                    assert(condition_violates(self@, i as int));
                    return Err(
                        ValidationError::Duplicate {
                            context: "conditions.yaml".to_owned(),
                            description: self[i].description.clone(),
                        },
                    );
                }
                j += 1;
            }
            assert(!condition_violates(self@, i as int));
        }
        Ok(())
    }
}

/// Entry `i` of the event catalog has an invalid range or repeats an
/// earlier description.
pub open spec fn event_violates(s: Seq<Event>, i: int) -> bool {
    !valid_int_range(s[i].range) || exists|j: int|
        0 <= j < i && #[trigger] s[j].description@ == s[i].description@
}

/// The error reported for entry `i` of the event catalog names that entry
/// and its first failing check.
pub open spec fn event_error_matches(e: ValidationError, s: Seq<Event>, i: int) -> bool {
    if !valid_int_range(s[i].range) {
        e matches ValidationError::Range { context, description, issue } && context@
            == "events.yaml"@ && description@ == s[i].description@ && int_range_issue_spec(
            s[i].range,
        ) == Some(issue)
    } else {
        e matches ValidationError::Duplicate { context, description } && context@ == "events.yaml"@
            && description@ == s[i].description@
    }
}

impl Validation for Vec<Event> {
    /// Every range is valid and no description repeats.
    open spec fn valid(&self) -> bool {
        forall|i: int| 0 <= i < self@.len() ==> !event_violates(self@, i)
    }

    #[verifier::loop_isolation(false)]
    fn validate(&self) -> (res: Result<(), ValidationError>)
        ensures
            res matches Err(e) ==> exists|i: int|
                0 <= i < self@.len() && #[trigger] event_violates(self@, i) && (forall|k: int|
                    0 <= k < i ==> !event_violates(self@, k)) && event_error_matches(e, self@, i),
    {
        let n = self.len();
        for i in 0..n
            invariant
                forall|k: int| 0 <= k < i ==> !event_violates(self@, k),
        {
            let ev = &self[i];
            match ev.range.range_checks("events.yaml", ev.description.as_str()) {
                Err(e) => {
                    assert(event_violates(self@, i as int));
                    return Err(e);
                },
                Ok(()) => {},
            }
            let mut j: usize = 0;
            while j < i
                invariant
                    j <= i,
                    forall|k: int|
                        0 <= k < j ==> #[trigger] self@[k].description@ != self@[i as int].description@,
                decreases i - j,
            {
                if self[j].description == self[i].description {
                    assert(event_violates(self@, i as int));
                    return Err(
                        ValidationError::Duplicate {
                            context: "events.yaml".to_owned(),
                            description: self[i].description.clone(),
                        },
                    );
                }
                j += 1;
            }
            assert(!event_violates(self@, i as int));
        }
        Ok(())
    }
}

/// Entry `i` of the cost catalog has an invalid range or repeats an
/// earlier description.
pub open spec fn cost_violates(s: Seq<Cost>, i: int) -> bool {
    !valid_range(s[i].range) || exists|j: int|
        0 <= j < i && #[trigger] s[j].description@ == s[i].description@
}

/// The error reported for entry `i` of the cost catalog names that entry
/// and its first failing check.
pub open spec fn cost_error_matches(e: ValidationError, s: Seq<Cost>, i: int) -> bool {
    if !valid_range(s[i].range) {
        e matches ValidationError::Range { context, description, issue } && context@
            == "costs.yaml"@ && description@ == s[i].description@ && range_issue_spec(s[i].range)
            == Some(issue)
    } else {
        e matches ValidationError::Duplicate { context, description } && context@ == "costs.yaml"@
            && description@ == s[i].description@
    }
}

impl Validation for Vec<Cost> {
    /// Every range is valid and no description repeats.
    open spec fn valid(&self) -> bool {
        forall|i: int| 0 <= i < self@.len() ==> !cost_violates(self@, i)
    }

    #[verifier::loop_isolation(false)]
    fn validate(&self) -> (res: Result<(), ValidationError>)
        ensures
            res matches Err(e) ==> exists|i: int|
                0 <= i < self@.len() && #[trigger] cost_violates(self@, i) && (forall|k: int|
                    0 <= k < i ==> !cost_violates(self@, k)) && cost_error_matches(e, self@, i),
    {
        let n = self.len();
        for i in 0..n
            invariant
                forall|k: int| 0 <= k < i ==> !cost_violates(self@, k),
        {
            let c = &self[i];
            match c.range.range_checks("costs.yaml", c.description.as_str()) {
                Err(e) => {
                    assert(cost_violates(self@, i as int));
                    return Err(e);
                },
                Ok(()) => {},
            }
            let mut j: usize = 0;
            while j < i
                invariant
                    j <= i,
                    forall|k: int|
                        0 <= k < j ==> #[trigger] self@[k].description@ != self@[i as int].description@,
                decreases i - j,
            {
                if self[j].description == self[i].description {
                    assert(cost_violates(self@, i as int));
                    return Err(
                        ValidationError::Duplicate {
                            context: "costs.yaml".to_owned(),
                            description: self[i].description.clone(),
                        },
                    );
                }
                j += 1;
            }
            assert(!cost_violates(self@, i as int));
        }
        Ok(())
    }
}

/// A scenario forest whose branch weights can be totalled and checked.
pub trait WeightChecking {
    /// Every branch's leaf weights total exactly one hundred.
    spec fn weights_balanced(&self) -> bool;

    /// Checks every branch's weight total, recursively.
    fn check_weight_totals(&self) -> (res: Result<(), ValidationError>)
        ensures
            res is Ok <==> self.weights_balanced(),
            res matches Err(e) ==> e is WeightSum,
    ;
}

impl WeightChecking for Vec<Entry> {
    open spec fn weights_balanced(&self) -> bool {
        entries_weights_ok(self@)
    }

    fn check_weight_totals(&self) -> (res: Result<(), ValidationError>) {
        entries_weight_check(self)
    }
}

/// The context under which the play's magnitude range is reported:
/// the play's file name when it is known.
pub open spec fn play_context_spec(p: Play) -> Seq<char> {
    if p.file_name is Some {
        "Play: "@ + p.file_name->0@
    } else {
        "Play"@
    }
}

impl Validation for Play {
    /// The magnitude range is valid and every branch's weights balance.
    open spec fn valid(&self) -> bool {
        valid_range(self.magnitude) && entries_weights_ok(self.scenario@)
    }

    fn validate(&self) -> (res: Result<(), ValidationError>)
        ensures
            res matches Err(e) ==> if !valid_range(self.magnitude) {
                e matches ValidationError::Range { context, description, issue } && context@
                    == play_context_spec(*self) && description@ == "magnitude"@
                    && range_issue_spec(self.magnitude) == Some(issue)
            } else {
                e is WeightSum
            },
    {
        let context: String = match &self.file_name {
            Some(f) => "Play: ".to_owned().concat(f.as_str()),
            None => "Play".to_owned(),
        };
        match self.magnitude.range_checks(context.as_str(), "magnitude") {
            Err(e) => {
                return Err(e);
            },
            Ok(()) => {},
        }
        self.scenario.check_weight_totals()
    }
}

/// A reference of a play that could not be resolved against the catalogs
/// when building its sampling distributions.
#[derive(Debug)]
pub enum BindError {
    /// The play's event is not in the event catalog.
    UnknownEvent { description: String },
    /// A condition of the play's scenario tree is not in the condition catalog.
    UnknownCondition { description: String },
    /// A cost of the play is not in the cost catalog.
    UnknownCost { description: String },
    /// The named record's range carries no mode, so no distribution can be built.
    MissingMode { description: String },
}

/// Largest event-frequency bound the binder accepts: frequencies are scaled
/// to fixed point before a distribution is built over them, and this many
/// `SCALE` units still fit under `BOUND_LIMIT`.
pub const EVENT_BOUND_LIMIT: i64 = 4_503_599_627;

/// The range of the first event catalog entry with the given description.
pub open spec fn event_lookup(s: Seq<Event>, d: Seq<char>) -> Option<IntRange>
    decreases s.len(),
{
    if s.len() == 0 {
        None
    } else if s[0].description@ == d {
        Some(s[0].range)
    } else {
        event_lookup(s.drop_first(), d)
    }
}

/// The range of the first condition catalog entry with the given description.
pub open spec fn condition_lookup(s: Seq<Condition>, d: Seq<char>) -> Option<Range>
    decreases s.len(),
{
    if s.len() == 0 {
        None
    } else if s[0].description@ == d {
        Some(s[0].range)
    } else {
        condition_lookup(s.drop_first(), d)
    }
}

/// The range of the first cost catalog entry with the given description.
pub open spec fn cost_lookup(s: Seq<Cost>, d: Seq<char>) -> Option<Range>
    decreases s.len(),
{
    if s.len() == 0 {
        None
    } else if s[0].description@ == d {
        Some(s[0].range)
    } else {
        cost_lookup(s.drop_first(), d)
    }
}

/// Every event catalog range is valid and small enough to scale.
pub open spec fn event_catalog_ok(s: Seq<Event>) -> bool {
    forall|i: int|
        0 <= i < s.len() ==> valid_int_range(#[trigger] s[i].range) && s[i].range.high->0
            <= EVENT_BOUND_LIMIT
}

/// Every condition catalog range is valid and within the sampling bound.
pub open spec fn condition_catalog_ok(s: Seq<Condition>) -> bool {
    forall|i: int|
        0 <= i < s.len() ==> valid_range(#[trigger] s[i].range) && s[i].range.high->0
            <= BOUND_LIMIT
}

/// Every cost catalog range is valid and within the sampling bound.
pub open spec fn cost_catalog_ok(s: Seq<Cost>) -> bool {
    forall|i: int|
        0 <= i < s.len() ==> valid_range(#[trigger] s[i].range) && s[i].range.high->0
            <= BOUND_LIMIT
}

/// The distribution the binder attaches for a resolved fixed-point range.
pub open spec fn range_distribution(r: Range) -> Triangular {
    Triangular { min: r.low->0, max: r.high->0, mode: r.mode->0 }
}

/// The distribution the binder attaches for a resolved event frequency
/// range, scaled to fixed point.
pub open spec fn event_distribution(r: IntRange) -> Triangular {
    Triangular {
        min: (r.low->0 * SCALE) as i64,
        max: (r.high->0 * SCALE) as i64,
        mode: (r.mode->0 * SCALE) as i64,
    }
}

/// `after` is `before` with its condition resolved and its distribution
/// attached.
pub open spec fn entry_bound(before: Entry, after: Entry, cat: Seq<Condition>) -> bool
    decreases before,
{
    match before {
        Entry::Single(c0) => {
            let found = condition_lookup(cat, c0.description@);
            after matches Entry::Single(c1) && found matches Some(r) && r.mode is Some
                && c1.description@ == c0.description@ && c1.range == r && c1.prob == Some(
                range_distribution(r),
            )
        },
        Entry::Branch(l0) => after matches Entry::Branch(l1) && leaves_bound(l0@, l1@, cat),
    }
}

/// `after` mirrors `before` leaf for leaf, each one bound.
pub open spec fn leaves_bound(before: Seq<Leaf>, after: Seq<Leaf>, cat: Seq<Condition>) -> bool
    decreases before,
{
    before.len() == after.len() && forall|i: int|
        0 <= i < before.len() ==> leaf_bound(#[trigger] before[i], after[i], cat)
}

/// `after` is `before` with the same weight and a bound sub-scenario.
pub open spec fn leaf_bound(before: Leaf, after: Leaf, cat: Seq<Condition>) -> bool
    decreases before,
{
    after.weight == before.weight && entries_bound(before.scenario@, after.scenario@, cat)
}

/// `after` mirrors `before` entry for entry, each one bound.
pub open spec fn entries_bound(before: Seq<Entry>, after: Seq<Entry>, cat: Seq<Condition>) -> bool
    decreases before,
{
    before.len() == after.len() && forall|i: int|
        0 <= i < before.len() ==> entry_bound(#[trigger] before[i], after[i], cat)
}

/// The first failure a depth-first walk of the scenario tree meets when
/// resolving its conditions, if any.
pub open spec fn scenario_bind_issue(entries: Seq<Entry>, cat: Seq<Condition>) -> Option<BindError>
    decreases entries,
{
    if entries.len() == 0 {
        None
    } else {
        let head = entry_bind_issue(entries[0], cat);
        if head is Some {
            head
        } else {
            scenario_bind_issue(entries.drop_first(), cat)
        }
    }
}

/// The first failure one scenario entry meets when its conditions are
/// resolved, if any.
pub open spec fn entry_bind_issue(e: Entry, cat: Seq<Condition>) -> Option<BindError>
    decreases e,
{
    match e {
        Entry::Single(c) => match condition_lookup(cat, c.description@) {
            Option::None => Some(BindError::UnknownCondition { description: c.description }),
            Option::Some(r) => if r.mode is None {
                Some(BindError::MissingMode { description: c.description })
            } else {
                None
            },
        },
        Entry::Branch(leaves) => leaves_bind_issue(leaves@, cat),
    }
}

/// The first failure the leaves of one branch meet, in order, if any.
pub open spec fn leaves_bind_issue(ls: Seq<Leaf>, cat: Seq<Condition>) -> Option<BindError>
    decreases ls,
{
    if ls.len() == 0 {
        None
    } else {
        let head = scenario_bind_issue(ls[0].scenario@, cat);
        if head is Some {
            head
        } else {
            leaves_bind_issue(ls.drop_first(), cat)
        }
    }
}

/// Finds the first event catalog entry with the given description.
#[verifier::loop_isolation(false)]
fn lookup_event(events: &[Event], d: &String) -> (res: Option<IntRange>)
    ensures
        res == event_lookup(events@, d@),
{
    let n = events.len();
    proof {
        assert(events@.skip(0) =~= events@);
    }
    for i in 0..n
        invariant
            event_lookup(events@, d@) == event_lookup(events@.skip(i as int), d@),
    {
        if events[i].description == *d {
            proof {
                assert(events@.skip(i as int)[0] == events@[i as int]);
            }
            return Some(events[i].range);
        }
        proof {
            assert(events@.skip(i as int).drop_first() =~= events@.skip(i + 1));
        }
    }
    proof {
        assert(events@.skip(n as int).len() == 0);
    }
    None
}

/// Finds the first condition catalog entry with the given description.
#[verifier::loop_isolation(false)]
fn lookup_condition(conditions: &[Condition], d: &String) -> (res: Option<Range>)
    ensures
        res == condition_lookup(conditions@, d@),
{
    let n = conditions.len();
    proof {
        assert(conditions@.skip(0) =~= conditions@);
    }
    for i in 0..n
        invariant
            condition_lookup(conditions@, d@) == condition_lookup(conditions@.skip(i as int), d@),
    {
        if conditions[i].description == *d {
            proof {
                assert(conditions@.skip(i as int)[0] == conditions@[i as int]);
            }
            return Some(conditions[i].range);
        }
        proof {
            assert(conditions@.skip(i as int).drop_first() =~= conditions@.skip(i + 1));
        }
    }
    proof {
        assert(conditions@.skip(n as int).len() == 0);
    }
    None
}

/// Finds the first cost catalog entry with the given description.
#[verifier::loop_isolation(false)]
fn lookup_cost(costs: &[Cost], d: &String) -> (res: Option<Range>)
    ensures
        res == cost_lookup(costs@, d@),
{
    let n = costs.len();
    proof {
        assert(costs@.skip(0) =~= costs@);
    }
    for i in 0..n
        invariant
            cost_lookup(costs@, d@) == cost_lookup(costs@.skip(i as int), d@),
    {
        if costs[i].description == *d {
            proof {
                assert(costs@.skip(i as int)[0] == costs@[i as int]);
            }
            return Some(costs[i].range);
        }
        proof {
            assert(costs@.skip(i as int).drop_first() =~= costs@.skip(i + 1));
        }
    }
    proof {
        assert(costs@.skip(n as int).len() == 0);
    }
    None
}

/// A looked-up condition range inherits the catalog's validity and bound.
proof fn lemma_condition_lookup_ok(s: Seq<Condition>, d: Seq<char>)
    requires
        condition_catalog_ok(s),
        condition_lookup(s, d) is Some,
    ensures
        valid_range(condition_lookup(s, d)->0),
        condition_lookup(s, d)->0.high->0 <= BOUND_LIMIT,
    decreases s.len(),
{
    if s.len() > 0 && s[0].description@ != d {
        assert(condition_catalog_ok(s.drop_first())) by {
            assert(forall|i: int|
                0 <= i < s.drop_first().len() ==> #[trigger] s.drop_first()[i] == s[i + 1]);
        }
        lemma_condition_lookup_ok(s.drop_first(), d);
    }
}

/// Rebuilds a scenario forest with every condition resolved against the
/// catalog and its sampling distribution attached.
#[verifier::loop_isolation(false)]
fn bind_entries(entries: &Vec<Entry>, conditions: &[Condition]) -> (res: Result<
    Vec<Entry>,
    BindError,
>)
    requires
        condition_catalog_ok(conditions@),
    ensures
        res matches Ok(out) ==> entries_bound(entries@, out@, conditions@) && scenario_bind_issue(
            entries@,
            conditions@,
        ) is None,
        res matches Err(e) ==> scenario_bind_issue(entries@, conditions@) == Some(e),
    decreases entries@,
{
    let n = entries.len();
    let mut out: Vec<Entry> = Vec::new();
    proof {
        assert(entries@.skip(0) =~= entries@);
    }
    for i in 0..n
        invariant
            out@.len() == i,
            forall|k: int| 0 <= k < i ==> entry_bound(#[trigger] entries@[k], out@[k], conditions@),
            scenario_bind_issue(entries@, conditions@) == scenario_bind_issue(
                entries@.skip(i as int),
                conditions@,
            ),
    {
        proof {
            assert(entries@.skip(i as int)[0] == entries@[i as int]);
            assert(entries@.skip(i as int).drop_first() =~= entries@.skip(i + 1));
        }
        match &entries[i] {
            Entry::Single(c) => {
                proof {
                    assert(entries@[i as int] == Entry::Single(*c));
                }
                match lookup_condition(conditions, &c.description) {
                    None => {
                        return Err(
                            BindError::UnknownCondition { description: c.description.clone() },
                        );
                    },
                    Some(r) => {
                        if r.mode.is_none() {
                            return Err(
                                BindError::MissingMode { description: c.description.clone() },
                            );
                        }
                        proof {
                            lemma_condition_lookup_ok(conditions@, c.description@);
                        }
                        let tri = Triangular::new(r.low.unwrap(), r.high.unwrap(), r.mode.unwrap());
                        out.push(
                            Entry::Single(
                                Condition {
                                    description: c.description.clone(),
                                    range: r,
                                    prob: Some(tri),
                                },
                            ),
                        );
                        assert(entry_bound(entries@[i as int], out@[i as int], conditions@));
                    },
                }
            },
            Entry::Branch(leaves) => {
                proof {
                    assert(entries@[i as int] == Entry::Branch(*leaves));
                }
                let m = leaves.len();
                let mut new_leaves: Vec<Leaf> = Vec::new();
                proof {
                    assert(leaves@.skip(0) =~= leaves@);
                }
                for j in 0..m
                    invariant
                        new_leaves@.len() == j,
                        entries@[i as int] == Entry::Branch(*leaves),
                        forall|k: int|
                            0 <= k < j ==> leaf_bound(
                                #[trigger] leaves@[k],
                                new_leaves@[k],
                                conditions@,
                            ),
                        leaves_bind_issue(leaves@, conditions@) == leaves_bind_issue(
                            leaves@.skip(j as int),
                            conditions@,
                        ),
                {
                    proof {
                        let ghost e = entries@[i as int];
                        let ghost lf = leaves@[j as int];
                        assert(decreases_to!(entries@ => e));
                        assert(decreases_to!(e => *leaves));
                        assert(decreases_to!(*leaves => leaves@));
                        assert(decreases_to!(leaves@ => lf));
                        assert(decreases_to!(lf => lf.scenario));
                        assert(decreases_to!(lf.scenario => lf.scenario@));
                        assert(leaves@.skip(j as int)[0] == leaves@[j as int]);
                        assert(leaves@.skip(j as int).drop_first() =~= leaves@.skip(j + 1));
                    }
                    match bind_entries(&leaves[j].scenario, conditions) {
                        Err(e) => {
                            return Err(e);
                        },
                        Ok(sub) => {
                            new_leaves.push(Leaf { weight: leaves[j].weight, scenario: sub });
                        },
                    }
                }
                proof {
                    assert(leaves@.skip(m as int).len() == 0);
                }
                let ghost nl = new_leaves@;
                proof {
                    assert(leaves_bound(leaves@, nl, conditions@));
                }
                out.push(Entry::Branch(new_leaves));
                proof {
                    assert(out@[i as int]->Branch_0@ == nl);
                }
                assert(entry_bound(entries@[i as int], out@[i as int], conditions@));
            },
        }
        assert(entry_bind_issue(entries@[i as int], conditions@) is None);
    }
    proof {
        assert(entries@.skip(n as int).len() == 0);
    }
    Ok(out)
}

/// A looked-up event range inherits the catalog's validity and bound.
proof fn lemma_event_lookup_ok(s: Seq<Event>, d: Seq<char>)
    requires
        event_catalog_ok(s),
        event_lookup(s, d) is Some,
    ensures
        valid_int_range(event_lookup(s, d)->0),
        event_lookup(s, d)->0.high->0 <= EVENT_BOUND_LIMIT,
    decreases s.len(),
{
    if s.len() > 0 && s[0].description@ != d {
        assert(event_catalog_ok(s.drop_first())) by {
            assert(forall|i: int|
                0 <= i < s.drop_first().len() ==> #[trigger] s.drop_first()[i] == s[i + 1]);
        }
        lemma_event_lookup_ok(s.drop_first(), d);
    }
}

/// A looked-up cost range inherits the catalog's validity and bound.
proof fn lemma_cost_lookup_ok(s: Seq<Cost>, d: Seq<char>)
    requires
        cost_catalog_ok(s),
        cost_lookup(s, d) is Some,
    ensures
        valid_range(cost_lookup(s, d)->0),
        cost_lookup(s, d)->0.high->0 <= BOUND_LIMIT,
    decreases s.len(),
{
    if s.len() > 0 && s[0].description@ != d {
        assert(cost_catalog_ok(s.drop_first())) by {
            assert(forall|i: int|
                0 <= i < s.drop_first().len() ==> #[trigger] s.drop_first()[i] == s[i + 1]);
        }
        lemma_cost_lookup_ok(s.drop_first(), d);
    }
}

/// `after` is `before` with its cost resolved and its distribution attached.
pub open spec fn cost_bound(before: Cost, after: Cost, cat: Seq<Cost>) -> bool {
    let found = cost_lookup(cat, before.description@);
    &&& found is Some
    &&& found->0.mode is Some
    &&& after.description@ == before.description@
    &&& after.range == found->0
    &&& after.prob == Some(range_distribution(found->0))
}

/// `after` mirrors `before` cost for cost, each one bound.
pub open spec fn costs_bound(before: Seq<Cost>, after: Seq<Cost>, cat: Seq<Cost>) -> bool {
    before.len() == after.len() && forall|i: int|
        0 <= i < before.len() ==> cost_bound(#[trigger] before[i], after[i], cat)
}

/// The first failure the play's costs meet when they are resolved against
/// the cost catalog, in order, if any.
pub open spec fn costs_bind_issue(cs: Seq<Cost>, cat: Seq<Cost>) -> Option<BindError>
    decreases cs.len(),
{
    if cs.len() == 0 {
        None
    } else {
        match cost_lookup(cat, cs[0].description@) {
            Option::None => Some(BindError::UnknownCost { description: cs[0].description }),
            Option::Some(r) => if r.mode is None {
                Some(BindError::MissingMode { description: cs[0].description })
            } else {
                costs_bind_issue(cs.drop_first(), cat)
            },
        }
    }
}

/// Rebuilds the play's cost list with every cost resolved against the
/// catalog and its sampling distribution attached.
#[verifier::loop_isolation(false)]
fn bind_costs(play_costs: &Vec<Cost>, catalog: &[Cost]) -> (res: Result<Vec<Cost>, BindError>)
    requires
        cost_catalog_ok(catalog@),
    ensures
        res matches Ok(out) ==> costs_bound(play_costs@, out@, catalog@) && costs_bind_issue(
            play_costs@,
            catalog@,
        ) is None,
        res matches Err(e) ==> costs_bind_issue(play_costs@, catalog@) == Some(e),
{
    let n = play_costs.len();
    let mut out: Vec<Cost> = Vec::new();
    proof {
        assert(play_costs@.skip(0) =~= play_costs@);
    }
    for i in 0..n
        invariant
            out@.len() == i,
            forall|k: int| 0 <= k < i ==> cost_bound(#[trigger] play_costs@[k], out@[k], catalog@),
            costs_bind_issue(play_costs@, catalog@) == costs_bind_issue(
                play_costs@.skip(i as int),
                catalog@,
            ),
    {
        proof {
            assert(play_costs@.skip(i as int)[0] == play_costs@[i as int]);
            assert(play_costs@.skip(i as int).drop_first() =~= play_costs@.skip(i + 1));
        }
        let c = &play_costs[i];
        match lookup_cost(catalog, &c.description) {
            None => {
                return Err(BindError::UnknownCost { description: c.description.clone() });
            },
            Some(r) => {
                if r.mode.is_none() {
                    return Err(BindError::MissingMode { description: c.description.clone() });
                }
                proof {
                    lemma_cost_lookup_ok(catalog@, c.description@);
                }
                let tri = Triangular::new(r.low.unwrap(), r.high.unwrap(), r.mode.unwrap());
                out.push(Cost { description: c.description.clone(), range: r, prob: Some(tri) });
            },
        }
    }
    proof {
        assert(play_costs@.skip(n as int).len() == 0);
    }
    Ok(out)
}

/// Every reference of the play resolves and every distribution it needs has
/// a mode to be built from.
pub open spec fn play_bindable(
    p: Play,
    events: Seq<Event>,
    conditions: Seq<Condition>,
    costs: Seq<Cost>,
) -> bool {
    let found = event_lookup(events, p.event.description@);
    &&& found is Some
    &&& found->0.mode is Some
    &&& scenario_bind_issue(p.scenario@, conditions) is None
    &&& p.magnitude.mode is Some
    &&& costs_bind_issue(p.costs@, costs) is None
}

/// The binder's error names the first reference the play cannot resolve, in
/// binding order: the event, then the scenario tree, then the magnitude,
/// then the costs.
pub open spec fn play_bind_error_matches(
    e: BindError,
    p: Play,
    events: Seq<Event>,
    conditions: Seq<Condition>,
    costs: Seq<Cost>,
) -> bool {
    let found = event_lookup(events, p.event.description@);
    if found is None {
        e matches BindError::UnknownEvent { description } && description@ == p.event.description@
    } else if found->0.mode is None {
        e matches BindError::MissingMode { description } && description@ == p.event.description@
    } else if scenario_bind_issue(p.scenario@, conditions) is Some {
        scenario_bind_issue(p.scenario@, conditions) == Some(e)
    } else if p.magnitude.mode is None {
        e matches BindError::MissingMode { description } && description@ == "magnitude"@
    } else {
        costs_bind_issue(p.costs@, costs) == Some(e)
    }
}

impl Play {
    /// Resolves the play's event, conditions and costs against the catalogs,
    /// copying the matching ranges in and attaching the sampling
    /// distributions; the magnitude's distribution is built from the play's
    /// own range. On failure the play is left untouched and the error names
    /// the first unresolved reference.
    pub fn build_models(
        &mut self,
        events: &[Event],
        conditions: &[Condition],
        costs: &[Cost],
    ) -> (res: Result<(), BindError>)
        requires
            event_catalog_ok(events@),
            condition_catalog_ok(conditions@),
            cost_catalog_ok(costs@),
            valid_range(old(self).magnitude),
            old(self).magnitude.high->0 <= BOUND_LIMIT,
        ensures
            res is Ok <==> play_bindable(*old(self), events@, conditions@, costs@),
            res matches Err(e) ==> *final(self) == *old(self) && play_bind_error_matches(
                e,
                *old(self),
                events@,
                conditions@,
                costs@,
            ),
            res is Ok ==> {
                let found = event_lookup(events@, old(self).event.description@)->0;
                &&& final(self).description == old(self).description
                &&& final(self).file_name == old(self).file_name
                &&& final(self).event.description == old(self).event.description
                &&& final(self).event.includes_controls == old(self).event.includes_controls
                &&& final(self).event.range == found
                &&& final(self).event.prob == Some(event_distribution(found))
                &&& entries_bound(old(self).scenario@, final(self).scenario@, conditions@)
                &&& final(self).magnitude == old(self).magnitude
                &&& final(self).magnitude_prob == Some(range_distribution(old(self).magnitude))
                &&& costs_bound(old(self).costs@, final(self).costs@, costs@)
            },
    {
        let ev_range = match lookup_event(events, &self.event.description) {
            None => {
                return Err(BindError::UnknownEvent { description: self.event.description.clone() });
            },
            Some(r) => r,
        };
        if ev_range.mode.is_none() {
            return Err(BindError::MissingMode { description: self.event.description.clone() });
        }
        proof {
            lemma_event_lookup_ok(events@, self.event.description@);
        }
        let ev_tri = Triangular::new(
            ev_range.low.unwrap() * SCALE,
            ev_range.high.unwrap() * SCALE,
            ev_range.mode.unwrap() * SCALE,
        );
        let new_scenario = match bind_entries(&self.scenario, conditions) {
            Ok(v) => v,
            Err(e) => {
                return Err(e);
            },
        };
        if self.magnitude.mode.is_none() {
            return Err(BindError::MissingMode { description: "magnitude".to_owned() });
        }
        let mag_tri = Triangular::new(
            self.magnitude.low.unwrap(),
            self.magnitude.high.unwrap(),
            self.magnitude.mode.unwrap(),
        );
        let new_costs = match bind_costs(&self.costs, costs) {
            Ok(v) => v,
            Err(e) => {
                return Err(e);
            },
        };
        self.event.range = ev_range;
        self.event.prob = Some(ev_tri);
        self.scenario = new_scenario;
        self.magnitude_prob = Some(mag_tri);
        self.costs = new_costs;
        Ok(())
    }
}

} // verus!
