//! The decisions of a generation turn: what it does, what it writes, and what
//! it reports.
//!
//! A turn reads the conversation, asks the model, and writes the stores. Here
//! stands what it decides from what it read; the calls are the caller's.

use vstd::prelude::*;

use crate::conversation;
use crate::conversation::{
    late_continue_ids, latest_user_text, trailing_regenerate, ChatMessage,
};
use crate::model;
use crate::model::{duplicate_list, Duplicate, Viewport};
use crate::text;
use crate::text::{chars_of, decimal_of, joined_strings, owned, trimmed};

verus! {

/// Units a preview candidate writes before the rest are continued.
pub const PREVIEW_SCREEN_COUNT: usize = 3;

/// What a generation run did.
#[derive(Debug)]
pub enum GenerationOutcome {
    /// The run wrote these artifacts.
    Wrote {
        /// The artifact ids written, in candidate order.
        design_ids: Vec<String>,
    },
    /// The run needs the user to answer a blocking question set.
    NeedsClarification {
        /// The set number.
        question_set: u32,
    },
    /// The planner answered in the chat and wrote nothing.
    Replied,
}

/// What the model must do this run.
#[derive(Debug)]
pub enum GenerationTask {
    /// Write the requested candidates.
    Candidates,
    /// Apply the user's latest request to each artifact named.
    Edit {
        /// The artifacts to edit: the candidates the user pinned, the one
        /// open in the editor, or the chosen one.
        designs: Vec<String>,
        /// What to change, in the user's words.
        instruction: String,
    },
    /// Continue the previews named here.
    Continue(Vec<String>),
    /// Combine parts of the named candidates into one new candidate.
    Merge {
        /// The candidates to take parts from, in the order pinned.
        sources: Vec<String>,
        /// Which parts to take from each, in the user's words.
        instruction: String,
    },
    /// Write the units the instruction names anew, in one artifact.
    Regenerate {
        /// The artifact whose units are rewritten.
        design: String,
        /// The request, with its references.
        instruction: String,
    },
}

/// A task as a mathematical value.
pub enum TaskModel {
    Candidates,
    Edit(Seq<Seq<char>>, Seq<char>),
    Continue(Seq<Seq<char>>),
    Merge(Seq<Seq<char>>, Seq<char>),
    Regenerate(Seq<char>, Seq<char>),
}

impl View for GenerationTask {
    type V = TaskModel;

    open spec fn view(&self) -> TaskModel {
        match self {
            GenerationTask::Candidates => TaskModel::Candidates,
            GenerationTask::Edit { designs, instruction } => TaskModel::Edit(
                text::strings(designs@),
                instruction@,
            ),
            GenerationTask::Continue(designs) => TaskModel::Continue(text::strings(designs@)),
            GenerationTask::Merge { sources, instruction } => TaskModel::Merge(
                text::strings(sources@),
                instruction@,
            ),
            GenerationTask::Regenerate { design, instruction } => TaskModel::Regenerate(
                design@,
                instruction@,
            ),
        }
    }
}

/// Why a run stopped without writing.
#[derive(Debug)]
pub enum GenerationStop<Q> {
    /// The run failed with this message.
    Failed(String),
    /// The model asked for a blocking detail.
    NeedsClarification(Q),
}

/// The preview length of a run, or `None` for complete candidates.
pub fn preview_screens(is_preview: bool) -> (r: Option<usize>)
    ensures
        r == if is_preview {
            Some(PREVIEW_SCREEN_COUNT)
        } else {
            None
        },
{
    if is_preview {
        Some(PREVIEW_SCREEN_COUNT)
    } else {
        None
    }
}

// -- The task of a turn -----------------------------------------------------

/// Why a session cannot run a turn: there is none, or it is halted. `found`
/// holds the name of the session's state and whether it is halted.
pub fn check_session(session_id: &str, found: Option<(&str, bool)>) -> (r: Result<(), String>)
    ensures
        match r {
            Ok(_) => found matches Some((_, is_halted)) && !is_halted,
            Err(message) => match found {
                Some((state, is_halted)) => is_halted && message@ == "the session is `"@ + state@
                    + "`: resume it first"@,
                None => message@ == "no session `"@ + session_id@ + "`"@,
            },
        },
{
    match found {
        Some((state, is_halted)) => {
            if is_halted {
                let mut message = owned("the session is `");
                message.append(state);
                message.append("`: resume it first");
                return Err(message);
            }
            Ok(())
        },
        None => {
            let mut message = owned("no session `");
            message.append(session_id);
            message.append("`");
            Err(message)
        },
    }
}

/// The ids among the first `n` that are marked, in order.
pub open spec fn marked(ids: Seq<Seq<char>>, marks: Seq<bool>, n: int) -> Seq<Seq<char>>
    decreases n,
{
    if n <= 0 {
        Seq::empty()
    } else if marks[n - 1] {
        marked(ids, marks, n - 1).push(ids[n - 1])
    } else {
        marked(ids, marks, n - 1)
    }
}

fn marked_ids(ids: &[String], marks: &[bool]) -> (r: Vec<String>)
    requires
        ids@.len() == marks@.len(),
    ensures
        text::strings(r@) == marked(text::strings(ids@), marks@, ids@.len() as int),
{
    let ghost all = text::strings(ids@);
    let mut r: Vec<String> = Vec::new();
    let mut n: usize = 0;
    assert(text::strings(r@) =~= Seq::<Seq<char>>::empty());
    while n < ids.len()
        invariant
            n <= ids@.len(),
            ids@.len() == marks@.len(),
            all == text::strings(ids@),
            text::strings(r@) == marked(all, marks@, n as int),
        decreases ids@.len() - n,
    {
        if marks[n] {
            let ghost before = text::strings(r@);
            r.push(ids[n].duplicate());
            assert(text::strings(r@) =~= before.push(all[n as int]));
        }
        n += 1;
    }
    r
}

/// The requested continues whose artifact still is a preview. One that no
/// longer is was finished already, by this run or an earlier one.
pub fn continue_requests(ids: &[String], is_preview: &[bool]) -> (r: Vec<String>)
    requires
        ids@.len() == is_preview@.len(),
    ensures
        text::strings(r@) == marked(text::strings(ids@), is_preview@, ids@.len() as int),
{
    marked_ids(ids, is_preview)
}

/// The task that the latest user turn names by itself: a regenerate, or the
/// previews to continue.
pub open spec fn named_task(
    messages: Seq<ChatMessage>,
    continues: Seq<Seq<char>>,
) -> Option<TaskModel> {
    let continued = if continues.len() > 0 {
        Some(TaskModel::Continue(continues))
    } else {
        None
    };
    match conversation::latest_user(messages, messages.len() as int) {
        Some(i) => match model::optional(messages[i].design) {
            Some(design) => if messages[i].is_regenerate {
                Some(TaskModel::Regenerate(design, messages[i].content@))
            } else {
                continued
            },
            None => continued,
        },
        None => continued,
    }
}

/// An optional task as an optional mathematical value.
pub open spec fn task_of(task: Option<GenerationTask>) -> Option<TaskModel> {
    match task {
        Some(named) => Some(named@),
        None => None,
    }
}

/// A continue or a regenerate request names its artifacts; no planning is
/// needed. `continues` are the requested previews.
pub fn pick_task(messages: &[ChatMessage], continues: Vec<String>) -> (r: Option<GenerationTask>)
    ensures
        task_of(r) == named_task(messages@, text::strings(continues@)),
{
    if let Some((design, instruction)) = trailing_regenerate(messages) {
        return Some(GenerationTask::Regenerate { design, instruction });
    }
    assert(text::strings(continues@).len() == continues@.len());
    if continues.len() > 0 {
        Some(GenerationTask::Continue(continues))
    } else {
        None
    }
}

/// The task that needs no planner: the one the turn names, or the candidates
/// when the session asked to write now. `None` asks the planner.
pub fn task_without_planner(picked: Option<GenerationTask>, is_generating: bool) -> (r: Option<
    GenerationTask,
>)
    ensures
        task_of(r) == (match task_of(picked) {
            Some(task) => Some(task),
            None => if is_generating {
                Some(TaskModel::Candidates)
            } else {
                None
            },
        }),
{
    match picked {
        Some(task) => Some(task),
        None => {
            if is_generating {
                Some(GenerationTask::Candidates)
            } else {
                None
            }
        },
    }
}

// -- Planning ---------------------------------------------------------------

/// What the planner replied.
#[derive(Debug)]
pub struct Plan {
    /// What it says in the chat.
    pub reply: String,
    /// The message of the question set it asks, when it asks one.
    pub questions: Option<String>,
    pub should_generate: bool,
    pub should_edit: bool,
    pub should_merge: bool,
}

/// What a turn is planned from, beside the planner's reply.
pub struct PlanInput<'a> {
    pub messages: &'a [ChatMessage],
    /// The artifacts the turn is about.
    pub targets: &'a [String],
    /// True before the app's own questions were asked.
    pub is_setup_turn: bool,
    /// The message of the app's own question set.
    pub app_questions: &'a str,
    /// How many questions of this request are answered.
    pub answered: usize,
    /// How many answers a request gets at most.
    pub answer_limit: usize,
}

/// What the planner decided for a turn.
#[derive(Debug)]
pub enum PlanStep {
    /// Ask a question set, and say this in the chat.
    Ask {
        /// True for the planner's own set, false for the app's.
        from_planner: bool,
        spoken: String,
    },
    /// Say the reply of the planner, when there is one, and start what it picked.
    Task {
        task: GenerationTask,
    },
    /// Say the planner's reply, when there is one, and wait for the user.
    Replied,
}

/// A plan step as a mathematical value.
pub enum PlanStepModel {
    Ask(bool, Seq<char>),
    Task(TaskModel),
    Replied,
}

impl View for PlanStep {
    type V = PlanStepModel;

    open spec fn view(&self) -> PlanStepModel {
        match self {
            PlanStep::Ask { from_planner, spoken } => PlanStepModel::Ask(*from_planner, spoken@),
            PlanStep::Task { task } => PlanStepModel::Task(task@),
            PlanStep::Replied => PlanStepModel::Replied,
        }
    }
}

impl PlanStep {
    /// What the run record says when the turn ends here. `None` when the run
    /// goes on.
    pub fn result(&self) -> (r: Option<&'static str>)
        ensures
            model::optional_str(r) == (match self {
                PlanStep::Ask { .. } => Some("asked_questions"@),
                PlanStep::Task { .. } => None,
                PlanStep::Replied => Some("replied"@),
            }),
    {
        match self {
            PlanStep::Ask { .. } => Some("asked_questions"),
            PlanStep::Task { .. } => None,
            PlanStep::Replied => Some("replied"),
        }
    }
}

/// What the assistant says when it asks: the planner's reply, unless it is
/// blank or promises a write that the setup turn never does.
pub open spec fn spoken_question(plan: Plan, is_setup_turn: bool, message: Seq<char>) -> Seq<char> {
    if text::trim(plan.reply@).len() > 0 && !(is_setup_turn && plan.should_generate) {
        text::trim(plan.reply@)
    } else {
        message
    }
}

/// The words of the latest user turn.
pub open spec fn instruction_in(messages: Seq<ChatMessage>) -> Seq<char> {
    match conversation::latest_user(messages, messages.len() as int) {
        Some(i) => messages[i].content@,
        None => Seq::empty(),
    }
}

/// The step of a turn that does not ask.
pub open spec fn step_without_asking(plan: Plan, input: PlanInput) -> PlanStepModel {
    let targets = text::strings(input.targets@);
    if plan.should_merge && targets.len() >= 2 {
        PlanStepModel::Task(TaskModel::Merge(targets, instruction_in(input.messages@)))
    } else if (plan.should_edit || plan.should_merge) && targets.len() > 0 {
        PlanStepModel::Task(TaskModel::Edit(targets, instruction_in(input.messages@)))
    } else if plan.should_generate || plan.questions is Some {
        PlanStepModel::Task(TaskModel::Candidates)
    } else {
        PlanStepModel::Replied
    }
}

/// The step of a turn.
pub open spec fn planned(plan: Plan, input: PlanInput) -> PlanStepModel {
    if input.answered < input.answer_limit && (plan.questions is Some || input.is_setup_turn) {
        match plan.questions {
            Some(message) => PlanStepModel::Ask(
                true,
                spoken_question(plan, input.is_setup_turn, message@),
            ),
            None => PlanStepModel::Ask(
                false,
                spoken_question(plan, input.is_setup_turn, input.app_questions@),
            ),
        }
    } else {
        step_without_asking(plan, input)
    }
}

fn speak(plan: &Plan, is_setup_turn: bool, message: &str) -> (r: String)
    ensures
        r@ == spoken_question(*plan, is_setup_turn, message@),
{
    let reply = trimmed(&chars_of(plan.reply.as_str()));
    if reply.len() > 0 && !(is_setup_turn && plan.should_generate) {
        text::text_of(&reply)
    } else {
        owned(message)
    }
}

fn words_of_user(messages: &[ChatMessage]) -> (r: String)
    ensures
        r@ == instruction_in(messages@),
{
    match latest_user_text(messages) {
        Some(words) => words,
        None => String::new(),
    }
}

/// What a turn does with the planner's reply: ask, write, edit, merge, or
/// only speak.
///
/// The first turn always asks: the app owns a fixed list of questions and
/// asks it before anything is written, and the planner only adds to that
/// card. Past the answer limit the planner writes instead of asking. A merge
/// needs two sources; with one, the change is an edit.
pub fn plan_turn(plan: &Plan, input: &PlanInput) -> (r: PlanStep)
    ensures
        r@ == planned(*plan, *input),
{
    if input.answered < input.answer_limit {
        if let Some(message) = &plan.questions {
            return PlanStep::Ask {
                from_planner: true,
                spoken: speak(plan, input.is_setup_turn, message.as_str()),
            };
        }
        if input.is_setup_turn {
            return PlanStep::Ask {
                from_planner: false,
                spoken: speak(plan, true, input.app_questions),
            };
        }
    }
    assert(text::strings(input.targets@).len() == input.targets@.len());
    if plan.should_merge && input.targets.len() >= 2 {
        return PlanStep::Task {
            task: GenerationTask::Merge {
                sources: duplicate_list(input.targets),
                instruction: words_of_user(input.messages),
            },
        };
    }
    if (plan.should_edit || plan.should_merge) && input.targets.len() > 0 {
        return PlanStep::Task {
            task: GenerationTask::Edit {
                designs: duplicate_list(input.targets),
                instruction: words_of_user(input.messages),
            },
        };
    }
    if plan.should_generate || plan.questions.is_some() {
        return PlanStep::Task { task: GenerationTask::Candidates };
    }
    PlanStep::Replied
}

/// What the planner's reply adds to the chat when the turn does not ask.
pub fn spoken_reply(plan: &Plan) -> (r: Option<&str>)
    ensures
        match r {
            Some(reply) => plan.reply@.len() > 0 && reply@ == plan.reply@,
            None => plan.reply@.len() == 0,
        },
{
    if plan.reply.as_str().is_empty() {
        None
    } else {
        Some(plan.reply.as_str())
    }
}

/// The first turn always asks, whatever the planner wants.
pub proof fn law_the_first_turn_asks(plan: Plan, input: PlanInput)
    requires
        input.is_setup_turn,
        input.answered < input.answer_limit,
    ensures
        planned(plan, input) is Ask,
{
}

/// A merge has at least two sources.
pub proof fn law_a_merge_has_two_sources(
    plan: Plan,
    input: PlanInput,
    sources: Seq<Seq<char>>,
    instruction: Seq<char>,
)
    requires
        planned(plan, input) == PlanStepModel::Task(TaskModel::Merge(sources, instruction)),
    ensures
        sources.len() >= 2,
{
}

/// Past the answer limit a turn never asks.
pub proof fn law_past_the_limit_nothing_is_asked(plan: Plan, input: PlanInput)
    requires
        input.answered >= input.answer_limit,
    ensures
        planned(plan, input) !is Ask,
{
}

/// True when a turn may not ask: past the limit, or with nothing to ask.
pub open spec fn has_nothing_to_ask(plan: Plan, input: PlanInput) -> bool {
    input.answered >= input.answer_limit || plan.questions is None && !input.is_setup_turn
}

/// True when the user says `words` in their last message.
pub open spec fn are_last_words(messages: Seq<ChatMessage>, words: Seq<char>) -> bool {
    exists|i: int|
        0 <= i < messages.len() && (#[trigger] messages[i]).role@ == "user"@
            && messages[i].content@ == words && forall|j: int|
            i < j < messages.len() ==> (#[trigger] messages[j]).role@ != "user"@
}

proof fn lemma_last_words(messages: Seq<ChatMessage>, i: int, n: int)
    requires
        0 <= i < n <= messages.len(),
        messages[i].role@ == "user"@,
        forall|j: int| i < j < messages.len() ==> (#[trigger] messages[j]).role@ != "user"@,
    ensures
        conversation::latest_user(messages, n) == Some(i),
    decreases n,
{
    if n - 1 > i {
        lemma_last_words(messages, i, n - 1);
    }
}

/// A turn that does not ask, whose plan says to edit and not to merge, and
/// that has a target, edits exactly those targets with the user's last words.
pub proof fn law_an_edit_changes_its_targets(plan: Plan, input: PlanInput, words: Seq<char>)
    requires
        has_nothing_to_ask(plan, input),
        plan.should_edit,
        !plan.should_merge,
        input.targets@.len() > 0,
        are_last_words(input.messages@, words),
    ensures
        planned(plan, input) == PlanStepModel::Task(
            TaskModel::Edit(text::strings(input.targets@), words),
        ),
{
    lemma_words(input.messages@, words);
}

proof fn lemma_words(messages: Seq<ChatMessage>, words: Seq<char>)
    requires
        are_last_words(messages, words),
    ensures
        instruction_in(messages) == words,
{
    let i = choose|i: int|
        0 <= i < messages.len() && (#[trigger] messages[i]).role@ == "user"@
            && messages[i].content@ == words && forall|j: int|
            i < j < messages.len() ==> (#[trigger] messages[j]).role@ != "user"@;
    lemma_last_words(messages, i, messages.len() as int);
}

/// A turn that does not ask and whose plan says to merge combines its
/// targets, in order, with the user's last words. With one target the change
/// is an edit of it.
pub proof fn law_a_merge_combines_its_targets(plan: Plan, input: PlanInput, words: Seq<char>)
    requires
        has_nothing_to_ask(plan, input),
        plan.should_merge,
        input.targets@.len() > 0,
        are_last_words(input.messages@, words),
    ensures
        input.targets@.len() > 1 ==> planned(plan, input) == PlanStepModel::Task(
            TaskModel::Merge(text::strings(input.targets@), words),
        ),
        input.targets@.len() == 1 ==> planned(plan, input) == PlanStepModel::Task(
            TaskModel::Edit(seq![input.targets@[0]@], words),
        ),
{
    lemma_words(input.messages@, words);
    if input.targets@.len() == 1 {
        assert(text::strings(input.targets@) =~= seq![input.targets@[0]@]);
    }
}

/// A turn that does not ask and has nothing to change writes candidates when
/// the plan says to generate, or when it would have asked.
pub proof fn law_a_turn_without_a_change_writes(plan: Plan, input: PlanInput)
    requires
        has_nothing_to_ask(plan, input),
        input.targets@.len() == 0 || !plan.should_edit && !plan.should_merge,
        plan.should_generate || plan.questions is Some,
    ensures
        planned(plan, input) == PlanStepModel::Task(TaskModel::Candidates),
{
}

/// A turn only speaks when, and only when, it neither asks nor has anything
/// to write or to change.
pub proof fn law_a_turn_only_speaks_with_nothing_to_do(plan: Plan, input: PlanInput)
    ensures
        planned(plan, input) is Replied <==> {
            &&& has_nothing_to_ask(plan, input)
            &&& input.targets@.len() == 0 || !plan.should_edit && !plan.should_merge
            &&& !plan.should_generate
            &&& plan.questions is None
        },
{
}

/// A turn asks when, and only when, it has something to ask and the answers
/// are below the limit. The planner's own questions go before the app's, and
/// the assistant says the planner's reply without the space around it; the
/// message of the questions stands in for a blank reply, and for one that
/// promises a write that the setup turn never does.
pub proof fn law_a_turn_asks_the_planners_questions_first(plan: Plan, input: PlanInput)
    ensures
        planned(plan, input) is Ask <==> !has_nothing_to_ask(plan, input),
        planned(plan, input) matches PlanStepModel::Ask(from_planner, spoken) ==> {
            &&& from_planner == (plan.questions is Some)
            &&& text::trim(plan.reply@).len() > 0 && !(input.is_setup_turn && plan.should_generate)
                ==> spoken == text::trim(plan.reply@)
            &&& text::trim(plan.reply@).len() == 0 || (input.is_setup_turn && plan.should_generate)
                ==> spoken == (match plan.questions {
                Some(message) => message@,
                None => input.app_questions@,
            })
        },
{
}

/// A request to write a unit anew is that task, whatever else was asked for;
/// else the requested previews are continued, in order; else the turn names
/// no task.
pub proof fn law_a_turn_names_its_task(
    messages: Seq<ChatMessage>,
    continues: Seq<Seq<char>>,
    i: int,
)
    requires
        0 <= i < messages.len(),
        messages[i].role@ == "user"@,
        forall|j: int| i < j < messages.len() ==> (#[trigger] messages[j]).role@ != "user"@,
    ensures
        messages[i].is_regenerate && messages[i].design is Some ==> named_task(messages, continues)
            == Some(TaskModel::Regenerate(messages[i].design->0@, messages[i].content@)),
        !messages[i].is_regenerate || messages[i].design is None ==> named_task(
            messages,
            continues,
        ) == if continues.len() > 0 {
            Some(TaskModel::Continue(continues))
        } else {
            None
        },
{
    lemma_last_words(messages, i, messages.len() as int);
}

proof fn lemma_marked_of_prefix(
    ids: Seq<Seq<char>>,
    marks: Seq<bool>,
    more: Seq<Seq<char>>,
    others: Seq<bool>,
    n: int,
)
    requires
        0 <= n <= ids.len(),
        ids.len() == marks.len(),
    ensures
        marked(ids + more, marks + others, n) == marked(ids, marks, n),
    decreases n,
{
    if n > 0 {
        lemma_marked_of_prefix(ids, marks, more, others, n - 1);
        assert((ids + more)[n - 1] == ids[n - 1]);
        assert((marks + others)[n - 1] == marks[n - 1]);
    }
}

/// The marked ids keep their order: those of a list behind another stand
/// behind those of the other, and an id alone is kept when it is marked.
pub proof fn law_marked_ids_keep_their_order(
    a: Seq<Seq<char>>,
    marks_a: Seq<bool>,
    b: Seq<Seq<char>>,
    marks_b: Seq<bool>,
)
    requires
        a.len() == marks_a.len(),
        b.len() == marks_b.len(),
    ensures
        marked(a + b, marks_a + marks_b, (a + b).len() as int) == marked(a, marks_a, a.len() as int)
            + marked(b, marks_b, b.len() as int),
        a.len() == 1 ==> marked(a, marks_a, 1) == if marks_a[0] {
            seq![a[0]]
        } else {
            Seq::empty()
        },
    decreases b.len(),
{
    reveal_with_fuel(marked, 2);
    if a.len() == 1 {
        assert(marked(a, marks_a, 1) =~= if marks_a[0] {
            seq![a[0]]
        } else {
            Seq::empty()
        });
    }
    let first = marked(a, marks_a, a.len() as int);
    if b.len() == 0 {
        assert(a + b =~= a);
        assert(marks_a + marks_b =~= marks_a);
        assert(first + Seq::<Seq<char>>::empty() =~= first);
    } else {
        let rest = b.drop_last();
        let rest_marks = marks_b.drop_last();
        let tail = seq![b.last()];
        let tail_marks = seq![marks_b.last()];
        law_marked_ids_keep_their_order(a, marks_a, rest, rest_marks);
        assert(a + b =~= (a + rest) + tail);
        assert(marks_a + marks_b =~= (marks_a + rest_marks) + tail_marks);
        assert(b =~= rest + tail);
        assert(marks_b =~= rest_marks + tail_marks);
        lemma_marked_of_prefix(
            a + rest,
            marks_a + rest_marks,
            tail,
            tail_marks,
            (a + rest).len() as int,
        );
        lemma_marked_of_prefix(rest, rest_marks, tail, tail_marks, rest.len() as int);
        let middle = marked(rest, rest_marks, rest.len() as int);
        assert((first + middle).push(b.last()) =~= first + middle.push(b.last()));
    }
}

// -- Edits ------------------------------------------------------------------

/// What one edit came to.
#[derive(Debug)]
pub enum EditResult<Q> {
    Saved,
    Stopped(GenerationStop<Q>),
}

/// The edits of a turn so far.
#[derive(Debug)]
pub struct EditTurn {
    saved: Vec<String>,
    last_error: Option<String>,
}

impl EditTurn {
    /// The artifacts saved so far.
    pub closed spec fn written(&self) -> Seq<Seq<char>> {
        text::strings(self.saved@)
    }

    /// The message of the last failure.
    pub closed spec fn failure(&self) -> Option<Seq<char>> {
        model::optional(self.last_error)
    }

    /// A turn that has edited nothing.
    pub fn new() -> (r: EditTurn)
        ensures
            r.written().len() == 0,
            r.failure() is None,
    {
        EditTurn { saved: Vec::new(), last_error: None }
    }

    /// Takes the result of one edit. A question of the model halts the whole
    /// turn: the user answers it before any other edit. One failure is noted
    /// and the rest still run.
    pub fn take<Q>(&mut self, id: &str, result: EditResult<Q>) -> (r: Option<Q>)
        ensures
            match result {
                EditResult::Saved => r is None && final(self).written()
                    == old(self).written().push(id@) && final(self).failure()
                    == old(self).failure(),
                EditResult::Stopped(GenerationStop::Failed(message)) => r is None
                    && final(self).written() == old(self).written() && final(self).failure()
                    == Some(message@),
                EditResult::Stopped(GenerationStop::NeedsClarification(questions)) => r == Some(
                    questions,
                ) && final(self).written() == old(self).written() && final(self).failure()
                    == old(self).failure(),
            },
    {
        match result {
            EditResult::Saved => {
                let ghost before = text::strings(self.saved@);
                self.saved.push(owned(id));
                assert(text::strings(self.saved@) =~= before.push(id@));
                None
            },
            EditResult::Stopped(GenerationStop::Failed(message)) => {
                self.last_error = Some(message);
                None
            },
            EditResult::Stopped(GenerationStop::NeedsClarification(questions)) => Some(questions),
        }
    }

    /// What the turn wrote. It fails only when every edit failed.
    pub fn finish(self) -> (r: Result<Vec<String>, String>)
        ensures
            match r {
                Ok(saved) => text::strings(saved@) == self.written() && (self.written().len() > 0
                    || self.failure() is None),
                Err(message) => self.written().len() == 0 && self.failure() == Some(message@),
            },
    {
        assert(text::strings(self.saved@).len() == self.saved@.len());
        match self.last_error {
            Some(message) => {
                if self.saved.len() == 0 {
                    Err(message)
                } else {
                    Ok(self.saved)
                }
            },
            None => Ok(self.saved),
        }
    }
}

// -- Failures ---------------------------------------------------------------

/// The message for a run that produced nothing.
pub open spec fn failure_text(failures: Seq<Seq<char>>, fallback: Seq<char>) -> Seq<char> {
    if failures.len() == 0 {
        fallback
    } else {
        text::join(failures, "; "@)
    }
}

/// The message for a run that produced nothing.
///
/// `failures` is empty when every task reported success and the work still is
/// not there. An empty message would tell the user nothing, so each site names
/// itself instead.
pub fn failure_message(failures: &[String], fallback: &str) -> (r: String)
    ensures
        r@ == failure_text(text::strings(failures@), fallback@),
{
    assert(text::strings(failures@).len() == failures@.len());
    if failures.len() == 0 {
        return owned(fallback);
    }
    joined_strings(failures, "; ")
}

/// What a stop says to a caller that does not carry questions.
pub fn stop_to_string<Q>(stop: GenerationStop<Q>) -> (r: String)
    ensures
        r@ == (match stop {
            GenerationStop::Failed(message) => message@,
            GenerationStop::NeedsClarification(_) =>
                "the model asked for clarification mid-continuation"@,
        }),
{
    match stop {
        GenerationStop::Failed(message) => message,
        GenerationStop::NeedsClarification(_) => owned(
            "the model asked for clarification mid-continuation",
        ),
    }
}

// -- Continues --------------------------------------------------------------

/// What one continue came to: the units added, or the error.
#[derive(Debug)]
pub struct ContinueResult {
    pub id: String,
    pub added: Result<usize, String>,
}

/// The ids of the first `n` results.
pub open spec fn result_ids(results: Seq<ContinueResult>) -> Seq<Seq<char>> {
    results.map_values(|result: ContinueResult| result.id@)
}

/// The failures among the first `n` results, each behind its id.
pub open spec fn result_failures(results: Seq<ContinueResult>, n: int) -> Seq<Seq<char>>
    decreases n,
{
    if n <= 0 {
        Seq::empty()
    } else {
        match results[n - 1].added {
            Err(error) => result_failures(results, n - 1).push(
                results[n - 1].id@ + ": "@ + error@,
            ),
            Ok(_) => result_failures(results, n - 1),
        }
    }
}

/// True when a result added units, or found the artifact complete.
pub open spec fn any_continued(results: Seq<ContinueResult>) -> bool {
    exists|i: int| 0 <= i < results.len() && (#[trigger] results[i]).added is Ok
}

/// What the continues of a turn wrote: every artifact, in order, when one of
/// them succeeded. The turn fails when all of them did.
pub fn continued_ids(results: &[ContinueResult], fallback: &str) -> (r: Result<Vec<String>, String>)
    ensures
        match r {
            Ok(ids) => any_continued(results@) && text::strings(ids@) == result_ids(results@),
            Err(message) => !any_continued(results@) && message@ == failure_text(
                result_failures(results@, results@.len() as int),
                fallback@,
            ),
        },
{
    let mut ids: Vec<String> = Vec::new();
    let mut failures: Vec<String> = Vec::new();
    let mut succeeded = false;
    let mut n: usize = 0;
    assert(text::strings(failures@) =~= Seq::<Seq<char>>::empty());
    while n < results.len()
        invariant
            n <= results@.len(),
            text::strings(ids@) == result_ids(results@).take(n as int),
            text::strings(failures@) == result_failures(results@, n as int),
            succeeded <==> exists|i: int| 0 <= i < n && (#[trigger] results@[i]).added is Ok,
        decreases results@.len() - n,
    {
        let ghost known = text::strings(ids@);
        let ghost before = text::strings(failures@);
        ids.push(results[n].id.duplicate());
        assert(text::strings(ids@) =~= known.push(results@[n as int].id@));
        assert(text::strings(ids@) =~= result_ids(results@).take(n + 1));
        match &results[n].added {
            Ok(_) => {
                succeeded = true;
            },
            Err(error) => {
                let mut line = owned(results[n].id.as_str());
                line.append(": ");
                line.append(error.as_str());
                let ghost new = line@;
                failures.push(line);
                assert(text::strings(failures@) =~= before.push(new));
            },
        }
        n += 1;
    }
    assert(result_ids(results@).take(n as int) =~= result_ids(results@));
    if succeeded {
        Ok(ids)
    } else {
        Err(failure_message(&failures, fallback))
    }
}

/// The continues that a run adds while it works.
#[derive(Debug)]
pub struct LateContinues {
    written: Vec<String>,
    tried: Vec<String>,
}

impl LateContinues {
    /// The artifacts the run wrote so far.
    pub closed spec fn wrote(&self) -> Seq<Seq<char>> {
        text::strings(self.written@)
    }

    /// The artifacts the run has tried.
    pub closed spec fn seen(&self) -> Seq<Seq<char>> {
        text::strings(self.tried@)
    }

    /// The run behind its first task, which wrote these artifacts.
    pub fn new(written: Vec<String>) -> (r: LateContinues)
        ensures
            r.wrote() == text::strings(written@),
            r.seen() == text::strings(written@),
    {
        let tried = duplicate_list(&written);
        LateContinues { written, tried }
    }

    /// The requested continues that were not tried, which now count as tried.
    /// Each id is tried once: a continue that fails leaves a preview behind,
    /// and trying it again would never end the run. Empty ends the run.
    pub fn next(&mut self, requested: &[String]) -> (r: Vec<String>)
        ensures
            text::strings(r@) == conversation::fresh(text::strings(requested@), old(self).seen()),
            final(self).seen() == old(self).seen() + text::strings(r@),
            final(self).wrote() == old(self).wrote(),
    {
        let fresh = late_continue_ids(requested, &self.tried);
        let ghost before = self.tried@;
        let mut more = duplicate_list(&fresh);
        self.tried.append(&mut more);
        assert(text::strings(self.tried@) =~= text::strings(before) + text::strings(fresh@));
        fresh
    }

    /// Adds what a later continue wrote.
    pub fn add_written(&mut self, ids: Vec<String>)
        ensures
            final(self).wrote() == old(self).wrote() + text::strings(ids@),
            final(self).seen() == old(self).seen(),
    {
        let ghost before = self.written@;
        let ghost new = ids@;
        let mut more = ids;
        self.written.append(&mut more);
        assert(text::strings(self.written@) =~= text::strings(before) + text::strings(new));
    }

    /// What the run wrote in all.
    pub fn finish(self) -> (r: Vec<String>)
        ensures
            text::strings(r@) == self.wrote(),
    {
        self.written
    }
}

/// The positions of the results of `id` among the first `m`.
pub open spec fn results_for(ids: Seq<Seq<char>>, id: Seq<char>, m: int) -> Seq<usize>
    decreases m,
{
    if m <= 0 {
        Seq::empty()
    } else if ids[m - 1] == id {
        results_for(ids, id, m - 1).push((m - 1) as usize)
    } else {
        results_for(ids, id, m - 1)
    }
}

/// The results in the order in which their continues started.
pub open spec fn in_start_order(ids: Seq<Seq<char>>, started: Seq<Seq<char>>, n: int) -> Seq<usize>
    decreases n,
{
    if n <= 0 {
        Seq::empty()
    } else {
        in_start_order(ids, started, n - 1) + results_for(ids, started[n - 1], ids.len() as int)
    }
}

/// The positions of the results, in the order in which their continues
/// started. `ids` are the ids of the results as they came in.
pub fn start_order(ids: &[String], started: &[String]) -> (r: Vec<usize>)
    ensures
        r@ == in_start_order(
            text::strings(ids@),
            text::strings(started@),
            started@.len() as int,
        ),
{
    let ghost all = text::strings(ids@);
    let ghost order = text::strings(started@);
    let mut r: Vec<usize> = Vec::new();
    let mut n: usize = 0;
    while n < started.len()
        invariant
            n <= started@.len(),
            all == text::strings(ids@),
            order == text::strings(started@),
            r@ == in_start_order(all, order, n as int),
        decreases started@.len() - n,
    {
        let ghost before = r@;
        let mut m: usize = 0;
        assert(before + results_for(all, order[n as int], 0) =~= before);
        while m < ids.len()
            invariant
                n < started@.len(),
                m <= ids@.len(),
                all == text::strings(ids@),
                order == text::strings(started@),
                r@ == before + results_for(all, order[n as int], m as int),
            decreases ids@.len() - m,
        {
            if *ids[m].as_str() == *started[n].as_str() {
                r.push(m);
                assert(r@ =~= before + results_for(all, order[n as int], m + 1));
            }
            m += 1;
        }
        n += 1;
    }
    r
}

proof fn lemma_results_for(ids: Seq<Seq<char>>, id: Seq<char>, m: int)
    requires
        0 <= m <= ids.len() <= usize::MAX,
    ensures
        forall|k: int|
            0 <= k < results_for(ids, id, m).len() ==> (#[trigger] results_for(ids, id, m)[k]) < m
                && ids[results_for(ids, id, m)[k] as int] == id,
        forall|k: int, l: int|
            0 <= k < l < results_for(ids, id, m).len() ==> (#[trigger] results_for(ids, id, m)[k])
                < (#[trigger] results_for(ids, id, m)[l]),
        forall|p: int|
            0 <= p < m && (#[trigger] ids[p]) == id ==> results_for(ids, id, m).contains(
                p as usize,
            ),
    decreases m,
{
    if m > 0 {
        lemma_results_for(ids, id, m - 1);
        let less = results_for(ids, id, m - 1);
        let all = results_for(ids, id, m);
        if ids[m - 1] == id {
            assert(all == less.push((m - 1) as usize));
        }
        assert forall|p: int| 0 <= p < m && (#[trigger] ids[p]) == id implies all.contains(
            p as usize,
        ) by {
            if p == m - 1 {
                assert(all[all.len() - 1] == p as usize);
            } else {
                assert(less.contains(p as usize));
                let k = choose|k: int| 0 <= k < less.len() && less[k] == p as usize;
                assert(all[k] == p as usize);
            }
        }
    }
}

proof fn lemma_start_order_of_prefix(
    ids: Seq<Seq<char>>,
    a: Seq<Seq<char>>,
    b: Seq<Seq<char>>,
    n: int,
)
    requires
        0 <= n <= a.len(),
    ensures
        in_start_order(ids, a + b, n) == in_start_order(ids, a, n),
    decreases n,
{
    if n > 0 {
        lemma_start_order_of_prefix(ids, a, b, n - 1);
        assert((a + b)[n - 1] == a[n - 1]);
    }
}

/// The results stand in the order in which their continues started: those of
/// continues that started later stand behind those that started earlier.
pub proof fn law_results_stand_in_start_order(
    ids: Seq<Seq<char>>,
    a: Seq<Seq<char>>,
    b: Seq<Seq<char>>,
)
    ensures
        in_start_order(ids, a + b, (a + b).len() as int) == in_start_order(ids, a, a.len() as int)
            + in_start_order(ids, b, b.len() as int),
    decreases b.len(),
{
    let first = in_start_order(ids, a, a.len() as int);
    if b.len() == 0 {
        assert(a + b =~= a);
        assert(first + Seq::<usize>::empty() =~= first);
    } else {
        let rest = b.drop_last();
        let tail = seq![b.last()];
        law_results_stand_in_start_order(ids, a, rest);
        assert(a + b =~= (a + rest) + tail);
        assert(b =~= rest + tail);
        lemma_start_order_of_prefix(ids, a + rest, tail, (a + rest).len() as int);
        lemma_start_order_of_prefix(ids, rest, tail, rest.len() as int);
        let middle = in_start_order(ids, rest, rest.len() as int);
        let last = results_for(ids, b.last(), ids.len() as int);
        assert((first + middle) + last =~= first + (middle + last));
    }
}

/// What one continue gave is all the results with its id and no others, in
/// the order in which they came in.
pub proof fn law_a_continue_has_its_results(ids: Seq<Seq<char>>, id: Seq<char>)
    requires
        ids.len() <= usize::MAX,
    ensures
        ({
            let found = in_start_order(ids, seq![id], 1);
            &&& forall|k: int|
                0 <= k < found.len() ==> (#[trigger] found[k]) < ids.len() && ids[found[k] as int]
                    == id
            &&& forall|k: int, l: int|
                0 <= k < l < found.len() ==> (#[trigger] found[k]) < (#[trigger] found[l])
            &&& forall|p: int|
                0 <= p < ids.len() && (#[trigger] ids[p]) == id ==> found.contains(p as usize)
        }),
{
    reveal_with_fuel(in_start_order, 2);
    let own = results_for(ids, id, ids.len() as int);
    assert(in_start_order(ids, seq![id], 1) =~= own);
    lemma_results_for(ids, id, ids.len() as int);
}

proof fn lemma_failures_of_prefix(a: Seq<ContinueResult>, b: Seq<ContinueResult>, n: int)
    requires
        0 <= n <= a.len(),
    ensures
        result_failures(a + b, n) == result_failures(a, n),
    decreases n,
{
    if n > 0 {
        lemma_failures_of_prefix(a, b, n - 1);
        assert((a + b)[n - 1] == a[n - 1]);
    }
}

/// Every failed continue is told, behind its id, in the order of the results,
/// and one that succeeded is not.
pub proof fn law_every_failure_is_told(a: Seq<ContinueResult>, b: Seq<ContinueResult>)
    ensures
        result_failures(a + b, (a + b).len() as int) == result_failures(a, a.len() as int)
            + result_failures(b, b.len() as int),
        a.len() == 1 ==> result_failures(a, 1) == (match a[0].added {
            Ok(_) => Seq::empty(),
            Err(error) => seq![a[0].id@ + ": "@ + error@],
        }),
    decreases b.len(),
{
    reveal_with_fuel(result_failures, 2);
    if a.len() == 1 {
        assert(result_failures(a, 1) =~= (match a[0].added {
            Ok(_) => Seq::empty(),
            Err(error) => seq![a[0].id@ + ": "@ + error@],
        }));
    }
    let first = result_failures(a, a.len() as int);
    if b.len() == 0 {
        assert(a + b =~= a);
        assert(first + Seq::<Seq<char>>::empty() =~= first);
    } else {
        let rest = b.drop_last();
        let tail = seq![b.last()];
        law_every_failure_is_told(a, rest);
        assert(a + b =~= (a + rest) + tail);
        assert(b =~= rest + tail);
        lemma_failures_of_prefix(a + rest, tail, (a + rest).len() as int);
        lemma_failures_of_prefix(rest, tail, rest.len() as int);
        let middle = result_failures(rest, rest.len() as int);
        assert(result_failures(b, b.len() as int) =~= middle + (match b.last().added {
            Ok(_) => Seq::empty(),
            Err(error) => seq![b.last().id@ + ": "@ + error@],
        }));
        assert(result_failures(a + b, (a + b).len() as int) =~= first + result_failures(
            b,
            b.len() as int,
        ));
    }
}

// -- Candidates -------------------------------------------------------------

/// What one candidate's task came to.
#[derive(Debug)]
pub enum CandidateResult<Q> {
    Written,
    Stopped(GenerationStop<Q>),
    /// The task itself broke, and how.
    Crashed(String),
}

/// The candidates of a turn so far.
#[derive(Debug)]
pub struct CandidateTurn {
    failures: Vec<String>,
}

impl CandidateTurn {
    /// What went wrong so far.
    pub closed spec fn failed(&self) -> Seq<Seq<char>> {
        text::strings(self.failures@)
    }

    /// A turn in which nothing has failed.
    pub fn new() -> (r: CandidateTurn)
        ensures
            r.failed().len() == 0,
    {
        CandidateTurn { failures: Vec::new() }
    }

    /// Takes the result of one candidate. A question of the model ends the
    /// turn; a failure is noted and the rest still run.
    pub fn take<Q>(&mut self, result: CandidateResult<Q>) -> (r: Option<Q>)
        ensures
            match result {
                CandidateResult::Written => r is None && final(self).failed()
                    == old(self).failed(),
                CandidateResult::Stopped(GenerationStop::Failed(message)) => r is None
                    && final(self).failed() == old(self).failed().push(message@),
                CandidateResult::Stopped(GenerationStop::NeedsClarification(questions)) => r
                    == Some(questions) && final(self).failed() == old(self).failed(),
                CandidateResult::Crashed(error) => r is None && final(self).failed()
                    == old(self).failed().push("candidate task failed: "@ + error@),
            },
    {
        let ghost before = text::strings(self.failures@);
        match result {
            CandidateResult::Written => None,
            CandidateResult::Stopped(GenerationStop::Failed(message)) => {
                let ghost new = message@;
                self.failures.push(message);
                assert(text::strings(self.failures@) =~= before.push(new));
                None
            },
            CandidateResult::Stopped(GenerationStop::NeedsClarification(questions)) => Some(
                questions,
            ),
            CandidateResult::Crashed(error) => {
                let mut line = owned("candidate task failed: ");
                line.append(error.as_str());
                let ghost new = line@;
                self.failures.push(line);
                assert(text::strings(self.failures@) =~= before.push(new));
                None
            },
        }
    }

    /// What went wrong, for the log.
    pub fn failures(&self) -> (r: &Vec<String>)
        ensures
            text::strings(r@) == self.failed(),
    {
        &self.failures
    }

    /// What the turn wrote: every candidate saves itself, so the written ids
    /// are those in the store. The turn fails when there are none.
    pub fn finish(&self, ids: &[String], is_stored: &[bool], fallback: &str) -> (r: Result<
        Vec<String>,
        String,
    >)
        requires
            ids@.len() == is_stored@.len(),
        ensures
            ({
                let saved = marked(text::strings(ids@), is_stored@, ids@.len() as int);
                match r {
                    Ok(written) => saved.len() > 0 && text::strings(written@) == saved,
                    Err(message) => saved.len() == 0 && message@ == failure_text(
                        self.failed(),
                        fallback@,
                    ),
                }
            }),
    {
        let saved = marked_ids(ids, is_stored);
        assert(text::strings(saved@).len() == saved@.len());
        if saved.len() == 0 {
            return Err(failure_message(&self.failures, fallback));
        }
        Ok(saved)
    }
}

// -- Merges -----------------------------------------------------------------

/// The message for an artifact that is not in the store.
pub fn missing_artifact(kind: &str, id: &str) -> (r: String)
    ensures
        r@ == kind@ + " `"@ + id@ + "` does not exist"@,
{
    let mut r = owned(kind);
    r.append(" `");
    r.append(id);
    r.append("` does not exist");
    r
}

/// The first canvas from `k` on that is not the first one.
pub open spec fn other_canvas(viewports: Seq<Viewport>, k: int) -> Option<int>
    decreases viewports.len() - k,
{
    if k < 0 || k >= viewports.len() {
        None
    } else if viewports[k] != viewports[0] {
        Some(k)
    } else {
        other_canvas(viewports, k + 1)
    }
}

/// The canvas of a merge. The sources must share one: a phone screen and a
/// desktop screen do not merge.
pub fn merge_canvas(ids: &[String], viewports: &[Viewport]) -> (r: Result<Viewport, String>)
    requires
        ids@.len() == viewports@.len(),
    ensures
        match r {
            Ok(viewport) => viewports@.len() > 0 && viewport == viewports@[0] && other_canvas(
                viewports@,
                0,
            ) is None,
            Err(message) => if viewports@.len() == 0 {
                message@ == "a merge needs two candidates: pin them with @"@
            } else {
                other_canvas(viewports@, 0) matches Some(k) && message@ == "`"@ + ids@[0]@
                    + "` and `"@ + ids@[k]@
                    + "` are on different canvases: merge candidates of one canvas"@
            },
        },
{
    if viewports.len() == 0 {
        return Err(owned("a merge needs two candidates: pin them with @"));
    }
    let first = viewports[0];
    let mut k: usize = 0;
    while k < viewports.len()
        invariant
            k <= viewports@.len(),
            viewports@.len() > 0,
            first == viewports@[0],
            ids@.len() == viewports@.len(),
            other_canvas(viewports@, 0) == other_canvas(viewports@, k as int),
        decreases viewports@.len() - k,
    {
        if viewports[k] != first {
            let mut message = owned("`");
            message.append(ids[0].as_str());
            message.append("` and `");
            message.append(ids[k].as_str());
            message.append("` are on different canvases: merge candidates of one canvas");
            return Err(message);
        }
        k += 1;
    }
    Ok(first)
}

proof fn lemma_other_canvas(viewports: Seq<Viewport>, k: int)
    requires
        0 <= k,
    ensures
        match other_canvas(viewports, k) {
            Some(i) => k <= i < viewports.len() && viewports[i] != viewports[0] && forall|j: int|
                k <= j < i ==> #[trigger] viewports[j] == viewports[0],
            None => forall|j: int| k <= j < viewports.len() ==> #[trigger] viewports[j]
                == viewports[0],
        },
    decreases viewports.len() - k,
{
    if k < viewports.len() && viewports[k] == viewports[0] {
        lemma_other_canvas(viewports, k + 1);
    }
}

/// A merge is refused for the first source on another canvas than the first
/// one, and for nothing else.
pub proof fn law_a_merge_has_one_canvas(viewports: Seq<Viewport>)
    ensures
        match other_canvas(viewports, 0) {
            Some(i) => 0 <= i < viewports.len() && viewports[i] != viewports[0] && forall|j: int|
                0 <= j < i ==> #[trigger] viewports[j] == viewports[0],
            None => forall|j: int| 0 <= j < viewports.len() ==> #[trigger] viewports[j]
                == viewports[0],
        },
{
    lemma_other_canvas(viewports, 0);
}

// -- The end of a run -------------------------------------------------------

/// The assistant summary after a run wrote artifacts.
pub open spec fn summary(ids: Seq<Seq<char>>) -> Seq<char> {
    if ids.len() == 0 {
        "The run wrote no designs."@
    } else if ids.len() == 1 {
        "I wrote `"@ + ids[0] + "`. Open it, then ask for a change in the chat."@
    } else {
        "I wrote "@ + text::decimal(ids.len())
            + " candidates to the canvas. Pick one, then ask for a change in the chat."@
    }
}

/// The assistant summary after a run wrote artifacts.
pub fn wrote_summary(design_ids: &[String]) -> (r: String)
    ensures
        r@ == summary(text::strings(design_ids@)),
{
    assert(text::strings(design_ids@).len() == design_ids@.len());
    if design_ids.len() == 0 {
        owned("The run wrote no designs.")
    } else if design_ids.len() == 1 {
        let mut r = owned("I wrote `");
        r.append(design_ids[0].as_str());
        r.append("`. Open it, then ask for a change in the chat.");
        r
    } else {
        let mut r = owned("I wrote ");
        r.append(decimal_of(design_ids.len() as u128).as_str());
        r.append(" candidates to the canvas. Pick one, then ask for a change in the chat.");
        r
    }
}

/// What the end of a run records.
#[derive(Debug)]
pub enum Settlement<Q> {
    /// Nothing more: the questions were asked already.
    Asked(u32),
    /// Record the run as replied.
    Replied,
    /// Say the summary with the artifacts written, and record the run as
    /// succeeded with them.
    Wrote { summary: String, design_ids: Vec<String> },
    /// Write the question set, say its message, return the session to its
    /// questions, and record that the run needs clarification.
    AskQuestions(Q),
    /// Record the run as failed with this message, and report it.
    Failed(String),
}

/// What the end of a run records. A written artifact is reported and the run
/// finishes; a clarification writes the set; a failure is recorded and
/// propagated.
pub fn settle<Q>(outcome: Result<GenerationOutcome, GenerationStop<Q>>) -> (r: Settlement<Q>)
    ensures
        match outcome {
            Ok(GenerationOutcome::NeedsClarification { question_set }) => r == Settlement::<
                Q,
            >::Asked(question_set),
            Ok(GenerationOutcome::Replied) => r == Settlement::<Q>::Replied,
            Ok(GenerationOutcome::Wrote { design_ids }) => r matches Settlement::Wrote {
                summary: said,
                design_ids: ids,
            } && ids == design_ids && said@ == summary(text::strings(design_ids@)),
            Err(GenerationStop::NeedsClarification(questions)) => r == Settlement::<
                Q,
            >::AskQuestions(questions),
            Err(GenerationStop::Failed(message)) => r == Settlement::<Q>::Failed(message),
        },
{
    match outcome {
        Ok(GenerationOutcome::NeedsClarification { question_set }) => Settlement::Asked(
            question_set,
        ),
        Ok(GenerationOutcome::Replied) => Settlement::Replied,
        Ok(GenerationOutcome::Wrote { design_ids }) => {
            let summary = wrote_summary(&design_ids);
            Settlement::Wrote { summary, design_ids }
        },
        Err(GenerationStop::NeedsClarification(questions)) => Settlement::AskQuestions(questions),
        Err(GenerationStop::Failed(message)) => Settlement::Failed(message),
    }
}

impl<Q> Settlement<Q> {
    /// What the run record says the run came to. `None` leaves it open.
    pub fn result(&self) -> (r: Option<&'static str>)
        ensures
            model::optional_str(r) == (match self {
                Settlement::Asked(_) => None,
                Settlement::Replied => Some("replied"@),
                Settlement::Wrote { .. } => Some("succeeded"@),
                Settlement::AskQuestions(_) => Some("needs_clarification"@),
                Settlement::Failed(_) => Some("failed"@),
            }),
    {
        match self {
            Settlement::Asked(_) => None,
            Settlement::Replied => Some("replied"),
            Settlement::Wrote { .. } => Some("succeeded"),
            Settlement::AskQuestions(_) => Some("needs_clarification"),
            Settlement::Failed(_) => Some("failed"),
        }
    }
}

/// A run that produced nothing tells every failure, and a run that wrote one
/// artifact names it.
pub proof fn law_a_run_tells_how_it_went(
    failures: Seq<Seq<char>>,
    fallback: Seq<char>,
    id: Seq<char>,
    k: int,
)
    requires
        0 <= k < failures.len(),
    ensures
        text::holds(failure_text(failures, fallback), failures[k]),
        failure_text(Seq::empty(), fallback) == fallback,
        text::holds(summary(seq![id]), "`"@ + id + "`"@),
{
    text::lemma_join_holds(failures, "; "@, k);
    reveal_strlit("I wrote `");
    reveal_strlit("`. Open it, then ask for a change in the chat.");
    reveal_strlit("I wrote ");
    reveal_strlit(". Open it, then ask for a change in the chat.");
    reveal_strlit("`");
    let named = "`"@ + id + "`"@;
    text::lemma_holds_itself(
        "I wrote "@,
        named,
        ". Open it, then ask for a change in the chat."@,
    );
    assert("I wrote "@ + named + ". Open it, then ask for a change in the chat."@ =~= summary(
        seq![id],
    ));
}

} // verus!
