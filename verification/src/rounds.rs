//! Rounds with the model: repairing a reply until it validates, and
//! measuring and improving an artifact until it measures clean.

use vstd::prelude::*;

use crate::text;
use crate::text::{decimal_of, joined_strings, owned};

verus! {

// -- Effort -----------------------------------------------------------------

/// Fix rounds per candidate before giving up, by effort level.
pub open spec fn fix_rounds(effort: Seq<char>) -> usize {
    if effort == "low"@ {
        2
    } else if effort == "high"@ {
        4
    } else {
        3
    }
}

/// Fix rounds per candidate before giving up, by effort level.
pub fn fix_round_limit(effort: &str) -> (r: usize)
    ensures
        r == fix_rounds(effort@),
{
    if *effort == *"low" {
        2
    } else if *effort == *"high" {
        4
    } else {
        3
    }
}

/// The reasoning effort for requests that write markup: one level under the
/// run's effort, never below `low`. Writing markup gains little from long
/// reasoning, and the effort level still sets the fix and polish rounds.
pub fn writing_effort(effort: &str) -> (r: &'static str)
    ensures
        r@ == if effort@ == "high"@ {
            "medium"@
        } else {
            "low"@
        },
{
    if *effort == *"high" {
        "medium"
    } else {
        "low"
    }
}

// -- Repairing a reply ------------------------------------------------------

/// One turn of the conversation with the model.
#[derive(Debug, PartialEq, Eq)]
pub struct Turn {
    /// Who speaks: `assistant` or `user`.
    pub role: String,
    pub content: String,
}

/// Who speaks and what, turn by turn.
pub open spec fn turns_of(turns: Seq<Turn>) -> Seq<(Seq<char>, Seq<char>)> {
    turns.map_values(|turn: Turn| (turn.role@, turn.content@))
}

/// What a reply turned out to be.
#[derive(Debug)]
pub enum ReplyOutcome<T, Q> {
    /// The model asks for a detail it cannot do without.
    Clarification(Q),
    /// A valid artifact.
    Valid(T),
    /// An artifact with these validation errors.
    Invalid(Vec<String>),
    /// A reply that cannot be applied, and why.
    Unreadable(String),
}

/// What a reply turned out to be. A valid question of the model goes before
/// everything else. `parsed` is the artifact in the reply with its validation
/// errors, or why there is none.
pub fn outcome_of<T, Q>(
    clarification: Option<Q>,
    parsed: Result<(T, Vec<String>), String>,
) -> (r: ReplyOutcome<T, Q>)
    ensures
        r == (match clarification {
            Some(questions) => ReplyOutcome::<T, Q>::Clarification(questions),
            None => match parsed {
                Ok((artifact, errors)) => if errors@.len() == 0 {
                    ReplyOutcome::Valid(artifact)
                } else {
                    ReplyOutcome::Invalid(errors)
                },
                Err(error) => ReplyOutcome::Unreadable(error),
            },
        }),
{
    if let Some(questions) = clarification {
        return ReplyOutcome::Clarification(questions);
    }
    match parsed {
        Ok((artifact, errors)) => {
            if errors.len() == 0 {
                ReplyOutcome::Valid(artifact)
            } else {
                ReplyOutcome::Invalid(errors)
            }
        },
        Err(error) => ReplyOutcome::Unreadable(error),
    }
}

/// What follows a reply.
#[derive(Debug)]
pub enum RepairStep<T, Q> {
    /// Ask again, with the conversation as it is now.
    Ask,
    /// Stop with the questions of the model.
    Clarify(Q),
    /// Stop with the artifact.
    Done(T),
    /// Stop: the rounds are used up.
    GiveUp(String),
}

/// What the model reads about the errors in its reply.
pub open spec fn correction(errors: Seq<Seq<char>>) -> Seq<char> {
    "The result failed validation:\n"@ + text::join(errors, "\n"@)
        + "\nFix every error. Reply with only the corrected JSON in the same format as before."@
}

/// What the model reads about a reply that cannot be applied.
pub open spec fn rejection(error: Seq<char>) -> Seq<char> {
    "That reply could not be applied ("@ + error
        + "). Reply with only the JSON in the same format as before."@
}

/// Why a request without a valid reply stops.
pub open spec fn exhausted(label: Seq<char>, limit: nat) -> Seq<char> {
    label + " still fails after "@ + text::decimal(limit) + " fix rounds"@
}

/// A request that is repaired through fix rounds until its reply validates.
#[derive(Debug)]
pub struct Repair {
    label: String,
    limit: usize,
    round: usize,
    turns: Vec<Turn>,
}

impl Repair {
    /// What the request is called.
    pub closed spec fn name(&self) -> Seq<char> {
        self.label@
    }

    /// How many fix rounds follow the first request at most.
    pub closed spec fn rounds(&self) -> nat {
        self.limit as nat
    }

    /// How many fix rounds were asked for.
    pub closed spec fn asked(&self) -> nat {
        self.round as nat
    }

    /// What was said behind the first request.
    pub closed spec fn said(&self) -> Seq<(Seq<char>, Seq<char>)> {
        turns_of(self.turns@)
    }

    /// True while the request stands within its rounds.
    pub closed spec fn is_open(&self) -> bool {
        self.round <= self.limit
    }

    /// The first request, with as many fix rounds as the effort allows.
    pub fn new(label: &str, effort: &str) -> (r: Repair)
        ensures
            r.name() == label@,
            r.rounds() == fix_rounds(effort@),
            r.asked() == 0,
            r.said().len() == 0,
            r.is_open(),
    {
        Repair {
            label: owned(label),
            limit: fix_round_limit(effort),
            round: 0,
            turns: Vec::new(),
        }
    }

    /// The number of the request, from one, for the log.
    pub fn round_number(&self) -> (r: u128)
        ensures
            r == self.asked() + 1,
    {
        self.round as u128 + 1
    }

    /// What was said behind the first request.
    pub fn turns(&self) -> (r: &Vec<Turn>)
        ensures
            turns_of(r@) == self.said(),
    {
        &self.turns
    }

    fn say(&mut self, reply: &str, answer: String)
        ensures
            final(self).said() == old(self).said().push(("assistant"@, reply@)).push(
                ("user"@, answer@),
            ),
            final(self).name() == old(self).name(),
            final(self).rounds() == old(self).rounds(),
            final(self).asked() == old(self).asked(),
    {
        let ghost before = turns_of(self.turns@);
        let ghost spoken = answer@;
        self.turns.push(Turn { role: owned("assistant"), content: owned(reply) });
        self.turns.push(Turn { role: owned("user"), content: answer });
        assert(turns_of(self.turns@) =~= before.push(("assistant"@, reply@)).push(
            ("user"@, spoken),
        ));
    }

    /// Takes a reply. A valid artifact or a question of the model ends the
    /// request. Anything else goes back to the model with what is wrong,
    /// until the fix rounds are used up.
    pub fn take<T, Q>(&mut self, reply: &str, outcome: ReplyOutcome<T, Q>) -> (r: RepairStep<T, Q>)
        requires
            old(self).is_open(),
        ensures
            final(self).name() == old(self).name(),
            final(self).rounds() == old(self).rounds(),
            match outcome {
                ReplyOutcome::Clarification(questions) => r == RepairStep::<T, Q>::Clarify(
                    questions,
                ) && final(self).said() == old(self).said() && final(self).asked()
                    == old(self).asked(),
                ReplyOutcome::Valid(artifact) => r == RepairStep::<T, Q>::Done(artifact)
                    && final(self).said() == old(self).said() && final(self).asked()
                    == old(self).asked(),
                ReplyOutcome::Invalid(errors) => final(self).said() == old(self).said().push(
                    ("assistant"@, reply@),
                ).push(("user"@, correction(text::strings(errors@)))),
                ReplyOutcome::Unreadable(error) => final(self).said() == old(self).said().push(
                    ("assistant"@, reply@),
                ).push(("user"@, rejection(error@))),
            },
            outcome is Invalid || outcome is Unreadable ==> if old(self).asked()
                < old(self).rounds() {
                r == RepairStep::<T, Q>::Ask && final(self).is_open() && final(self).asked()
                    == old(self).asked() + 1
            } else {
                r matches RepairStep::GiveUp(message) && message@ == exhausted(
                    old(self).name(),
                    old(self).rounds(),
                )
            },
    {
        match outcome {
            ReplyOutcome::Clarification(questions) => {
                return RepairStep::Clarify(questions);
            },
            ReplyOutcome::Valid(artifact) => {
                return RepairStep::Done(artifact);
            },
            ReplyOutcome::Invalid(errors) => {
                let mut answer = owned("The result failed validation:\n");
                answer.append(joined_strings(&errors, "\n").as_str());
                answer.append(
                    "\nFix every error. Reply with only the corrected JSON in the same format as before.",
                );
                self.say(reply, answer);
            },
            ReplyOutcome::Unreadable(error) => {
                let mut answer = owned("That reply could not be applied (");
                answer.append(error.as_str());
                answer.append("). Reply with only the JSON in the same format as before.");
                self.say(reply, answer);
            },
        }
        if self.round < self.limit {
            self.round = self.round + 1;
            return RepairStep::Ask;
        }
        let mut message = owned(self.label.as_str());
        message.append(" still fails after ");
        message.append(decimal_of(self.limit as u128).as_str());
        message.append(" fix rounds");
        RepairStep::GiveUp(message)
    }
}

// -- Measuring and improving ------------------------------------------------

/// Why the rounds over an artifact ended.
#[derive(Clone, Copy, Debug, PartialEq, Eq, Structural)]
pub enum PolishStop {
    /// Nothing can be measured here.
    NotMeasured,
    /// Nothing measures wrong.
    Clean,
    /// The last round did not reduce the findings.
    NoImprovement,
    /// The rounds are used up, or one could not reach the model.
    OutOfRounds,
}

/// What follows a measurement.
#[derive(Clone, Copy, Debug, PartialEq, Eq, Structural)]
pub enum PolishStep {
    /// Ask the model to improve the artifact, in this round.
    Ask(usize),
    /// End the rounds.
    Stop(PolishStop),
}

/// What the rounds over an artifact come to.
#[derive(Debug)]
pub struct Polished<T> {
    /// The version that measured best.
    pub best: T,
    /// Its findings, when it was measured.
    pub findings: Option<usize>,
    /// The rounds in which the model was asked.
    pub rounds_taken: usize,
    pub stop: PolishStop,
}

/// One measurement: the version and its number of findings.
pub type Measured<T> = (T, usize);

/// True when `version` is the first of the measured ones with the fewest
/// findings.
pub open spec fn is_best<T>(history: Seq<Measured<T>>, version: T, findings: usize) -> bool {
    exists|i: int|
        {
            &&& 0 <= i < history.len()
            &&& #[trigger] history[i] == (version, findings)
            &&& forall|j: int| 0 <= j < history.len() ==> findings <= #[trigger] history[j].1
            &&& forall|j: int| 0 <= j < i ==> findings < #[trigger] history[j].1
        }
}

/// True when every measurement but the last asked for a round: each had
/// findings, and fewer than the one before it.
pub open spec fn improves<T>(history: Seq<Measured<T>>) -> bool {
    forall|i: int| 0 <= i < history.len() - 1 ==> #[trigger] is_helpful(history, i)
}

/// True when measurement `i` had findings, and fewer than the one before it.
pub open spec fn is_helpful<T>(history: Seq<Measured<T>>, i: int) -> bool {
    history[i].1 > 0 && (i > 0 ==> history[i].1 < history[i - 1].1)
}

/// The step behind the last measurement of `history`.
pub open spec fn step_for<T>(history: Seq<Measured<T>>) -> PolishStep {
    let n = history.len() as int;
    if history[n - 1].1 == 0 {
        PolishStep::Stop(PolishStop::Clean)
    } else if n > 1 && history[n - 1].1 >= history[n - 2].1 {
        PolishStep::Stop(PolishStop::NoImprovement)
    } else {
        PolishStep::Ask(n as usize)
    }
}

/// How many of the measurements asked for a round.
pub open spec fn rounds_asked<T>(history: Seq<Measured<T>>) -> nat
    decreases history.len(),
{
    if history.len() == 0 {
        0
    } else if step_for(history) is Ask {
        rounds_asked(history.drop_last()) + 1
    } else {
        rounds_asked(history.drop_last())
    }
}

/// Every round that is asked for was measured first.
pub proof fn law_rounds_are_measurements<T>(history: Seq<Measured<T>>)
    ensures
        rounds_asked(history) <= history.len(),
    decreases history.len(),
{
    if history.len() > 0 {
        law_rounds_are_measurements(history.drop_last());
    }
}

/// Why rounds end before anything is measured.
pub open spec fn end_before(limit: usize, can_measure: bool) -> Option<PolishStop> {
    if !can_measure {
        Some(PolishStop::NotMeasured)
    } else if limit == 0 {
        Some(PolishStop::OutOfRounds)
    } else {
        None
    }
}

/// The rounds over one artifact: it is measured, and the model improves what
/// measures wrong, until it measures clean, a round does not help, or the
/// rounds are used up. The version that measured best is kept: a round that
/// makes the artifact worse is measured, and then thrown away.
pub struct Polish<T> {
    /// The version at hand.
    current: T,
    /// The version to keep, when it is not the one at hand.
    best: Option<T>,
    best_count: Option<usize>,
    previous: Option<usize>,
    round: usize,
    limit: usize,
    rounds_taken: usize,
    stop: Option<PolishStop>,
    measured: Ghost<Seq<Measured<T>>>,
}

impl<T> Polish<T> {
    /// Every measurement so far.
    pub closed spec fn history(&self) -> Seq<Measured<T>> {
        self.measured@
    }

    /// The version at hand.
    pub closed spec fn version(&self) -> T {
        self.current
    }

    /// How many rounds there are at most.
    pub closed spec fn rounds(&self) -> nat {
        self.limit as nat
    }

    /// Why the rounds ended, once they have.
    pub closed spec fn ended(&self) -> Option<PolishStop> {
        self.stop
    }

    /// The version to keep.
    pub closed spec fn kept(&self) -> T {
        match self.best {
            Some(version) => version,
            None => self.current,
        }
    }

    /// True when the rounds fit what was measured.
    pub closed spec fn wf(&self) -> bool {
        let history = self.measured@;
        let n = history.len();
        &&& n == self.round <= self.limit
        &&& self.rounds_taken == rounds_asked(history)
        &&& match self.best_count {
            Some(count) => n > 0 && is_best(history, self.kept(), count),
            None => n == 0 && self.best is None,
        }
        &&& improves(history)
        &&& match self.stop {
            None => {
                &&& n > 0 ==> step_for(history) is Ask
                &&& self.previous == if n > 0 {
                    Some(history[n - 1].1)
                } else {
                    None
                }
                &&& self.rounds_taken == n
            },
            Some(_) => true,
        }
    }

    /// The rounds over `artifact`, `limit` at most. There are none where
    /// nothing can be measured: a round would ask the model to fix findings
    /// that were never taken.
    pub fn new(artifact: T, limit: usize, can_measure: bool) -> (r: Polish<T>)
        ensures
            r.wf(),
            r.history().len() == 0,
            r.version() == artifact,
            r.kept() == artifact,
            r.rounds() == limit,
            r.ended() == end_before(limit, can_measure),
    {
        Polish {
            current: artifact,
            best: None,
            best_count: None,
            previous: None,
            round: 0,
            limit,
            rounds_taken: 0,
            stop: if !can_measure {
                Some(PolishStop::NotMeasured)
            } else if limit == 0 {
                Some(PolishStop::OutOfRounds)
            } else {
                None
            },
            measured: Ghost(Seq::empty()),
        }
    }

    /// True once the rounds have ended.
    pub fn is_ended(&self) -> (r: bool)
        ensures
            r == (self.ended() is Some),
    {
        self.stop.is_some()
    }

    /// The version to measure, or to show the model.
    pub fn artifact(&self) -> (r: &T)
        ensures
            *r == self.version(),
    {
        &self.current
    }

    /// Takes the number of findings that the version at hand measures.
    pub fn measure(&mut self, findings: usize) -> (r: PolishStep)
        requires
            old(self).wf(),
            old(self).ended() is None,
            old(self).history().len() < old(self).rounds(),
        ensures
            final(self).wf(),
            final(self).history() == old(self).history().push((old(self).version(), findings)),
            final(self).version() == old(self).version(),
            final(self).rounds() == old(self).rounds(),
            r == step_for(final(self).history()),
            final(self).ended() == (match r {
                PolishStep::Ask(_) => None,
                PolishStep::Stop(stop) => Some(stop),
            }),
    {
        let ghost before = self.measured@;
        let ghost after = before.push((self.current, findings));
        self.round = self.round + 1;
        let is_better = match self.best_count {
            Some(count) => findings < count,
            None => true,
        };
        proof {
            lemma_improves(before, (self.current, findings));
            if is_better {
                lemma_new_best(before, (self.current, findings), self.best_count, self.kept());
            } else {
                lemma_old_best(
                    before,
                    (self.current, findings),
                    self.kept(),
                    self.best_count->0,
                );
            }
        }
        if is_better {
            self.best_count = Some(findings);
            self.best = None;
        }
        self.measured = Ghost(after);
        assert(after.drop_last() =~= before);
        if findings == 0 {
            self.stop = Some(PolishStop::Clean);
            return PolishStep::Stop(PolishStop::Clean);
        }
        if let Some(count) = self.previous {
            if findings >= count {
                self.stop = Some(PolishStop::NoImprovement);
                return PolishStep::Stop(PolishStop::NoImprovement);
            }
        }
        self.previous = Some(findings);
        self.rounds_taken = self.round;
        PolishStep::Ask(self.round)
    }

    /// Takes what the model made of the version at hand: a valid improvement
    /// replaces it, anything else keeps it. The rounds end when they are used
    /// up.
    pub fn reply(&mut self, improved: Option<T>)
        requires
            old(self).wf(),
            old(self).ended() is None,
            old(self).history().len() > 0,
        ensures
            final(self).wf(),
            final(self).history() == old(self).history(),
            final(self).kept() == old(self).kept(),
            final(self).rounds() == old(self).rounds(),
            final(self).version() == (match improved {
                Some(artifact) => artifact,
                None => old(self).version(),
            }),
            final(self).ended() == if old(self).history().len() == old(self).rounds() {
                Some(PolishStop::OutOfRounds)
            } else {
                None
            },
    {
        if let Some(artifact) = improved {
            let mut other = artifact;
            std::mem::swap(&mut self.current, &mut other);
            if self.best.is_none() {
                self.best = Some(other);
            }
        }
        if self.round == self.limit {
            self.stop = Some(PolishStop::OutOfRounds);
        }
    }

    /// Ends the rounds early: the model could not be reached. The best
    /// version stays as it is.
    pub fn abandon(&mut self)
        requires
            old(self).wf(),
            old(self).ended() is None,
        ensures
            final(self).wf(),
            final(self).history() == old(self).history(),
            final(self).version() == old(self).version(),
            final(self).kept() == old(self).kept(),
            final(self).rounds() == old(self).rounds(),
            final(self).ended() == Some(PolishStop::OutOfRounds),
    {
        self.stop = Some(PolishStop::OutOfRounds);
    }

    /// The version that measured best: the first with the fewest findings.
    pub fn finish(self) -> (r: Polished<T>)
        requires
            self.wf(),
            self.ended() is Some,
        ensures
            r.stop == self.ended()->0,
            r.best == self.kept(),
            r.rounds_taken == rounds_asked(self.history()),
            r.rounds_taken <= self.rounds(),
            match r.findings {
                Some(findings) => is_best(self.history(), r.best, findings),
                None => self.history().len() == 0,
            },
    {
        proof {
            law_rounds_are_measurements(self.history());
        }
        let stop = match self.stop {
            Some(stop) => stop,
            None => PolishStop::OutOfRounds,
        };
        let best = match self.best {
            Some(version) => version,
            None => self.current,
        };
        Polished {
            best,
            findings: self.best_count,
            rounds_taken: self.rounds_taken,
            stop,
        }
    }
}

/// The best of the measured versions stays the best behind a new one that is
/// not better.
proof fn lemma_old_best<T>(
    before: Seq<Measured<T>>,
    new: Measured<T>,
    version: T,
    findings: usize,
)
    requires
        is_best(before, version, findings),
        findings <= new.1,
    ensures
        is_best(before.push(new), version, findings),
{
    let after = before.push(new);
    let i = choose|i: int|
        {
            &&& 0 <= i < before.len()
            &&& #[trigger] before[i] == (version, findings)
            &&& forall|j: int| 0 <= j < before.len() ==> findings <= #[trigger] before[j].1
            &&& forall|j: int| 0 <= j < i ==> findings < #[trigger] before[j].1
        };
    assert(after[i] == (version, findings));
    assert forall|j: int| 0 <= j < after.len() implies findings <= #[trigger] after[j].1 by {
        if j < before.len() {
            assert(after[j] == before[j]);
        }
    }
    assert forall|j: int| 0 <= j < i implies findings < #[trigger] after[j].1 by {
        assert(after[j] == before[j]);
    }
}

/// A new version with fewer findings is the best.
proof fn lemma_new_best<T>(
    before: Seq<Measured<T>>,
    new: Measured<T>,
    best: Option<usize>,
    version: T,
)
    requires
        match best {
            Some(findings) => is_best(before, version, findings) && new.1 < findings,
            None => before.len() == 0,
        },
    ensures
        is_best(before.push(new), new.0, new.1),
{
    let after = before.push(new);
    assert(after[before.len() as int] == (new.0, new.1));
    assert forall|j: int| 0 <= j < before.len() implies new.1 < #[trigger] after[j].1 by {
        assert(after[j] == before[j]);
    }
}

/// A version is measured only behind rounds that helped.
proof fn lemma_improves<T>(before: Seq<Measured<T>>, new: Measured<T>)
    requires
        improves(before),
        before.len() > 0 ==> step_for(before) is Ask,
    ensures
        improves(before.push(new)),
{
    let after = before.push(new);
    assert forall|i: int| 0 <= i < after.len() - 1 implies #[trigger] is_helpful(after, i) by {
        assert(after[i] == before[i]);
        if i > 0 {
            assert(after[i - 1] == before[i - 1]);
        }
        if i < before.len() - 1 {
            assert(is_helpful(before, i));
        }
    }
}

/// The model is asked again only when a round helped, so the findings fall
/// from round to round, and there are no more rounds than findings at first.
pub proof fn law_findings_fall_from_round_to_round<T>(history: Seq<Measured<T>>, i: int, j: int)
    requires
        improves(history),
        0 <= i < j < history.len() - 1,
    ensures
        history[j].1 < history[i].1,
    decreases j - i,
{
    if i + 1 < j {
        law_findings_fall_from_round_to_round(history, i, j - 1);
    }
    assert(is_helpful(history, j));
}

/// No version that was measured is better than the one kept.
pub proof fn law_the_best_version_is_kept<T>(
    history: Seq<Measured<T>>,
    version: T,
    findings: usize,
    i: int,
)
    requires
        is_best(history, version, findings),
        0 <= i < history.len(),
    ensures
        findings <= history[i].1,
{
}

/// A correction tells every error of a reply.
pub proof fn law_a_correction_tells_every_error(errors: Seq<Seq<char>>, k: int)
    requires
        0 <= k < errors.len(),
    ensures
        text::holds(correction(errors), errors[k]),
{
    text::lemma_join_holds(errors, "\n"@, k);
    text::lemma_holds_behind(
        "The result failed validation:\n"@,
        text::join(errors, "\n"@),
        "\nFix every error. Reply with only the corrected JSON in the same format as before."@,
        errors[k],
    );
}

/// A rejection says why the reply could not be applied, and the last word on
/// a request names it and its rounds.
pub proof fn law_a_rejection_says_why(error: Seq<char>, label: Seq<char>, limit: nat)
    ensures
        text::holds(rejection(error), error),
        text::starts_with(exhausted(label, limit), label),
        text::holds(exhausted(label, limit), text::decimal(limit)),
{
    text::lemma_holds_itself(
        "That reply could not be applied ("@,
        error,
        "). Reply with only the JSON in the same format as before."@,
    );
    let told = exhausted(label, limit);
    assert(told.subrange(0, label.len() as int) =~= label);
    text::lemma_holds_itself(
        label + " still fails after "@,
        text::decimal(limit),
        " fix rounds"@,
    );
}

/// A round is asked for exactly while something measures wrong and the last
/// round helped.
pub proof fn law_rounds_go_on_while_they_help<T>(history: Seq<Measured<T>>)
    requires
        history.len() > 0,
    ensures
        step_for(history) is Ask <==> history.last().1 > 0 && (history.len() == 1
            || history.last().1 < history[history.len() - 2].1),
        step_for(history) == PolishStep::Stop(PolishStop::Clean) <==> history.last().1 == 0,
{
}

} // verus!
