//! A run: its conversation, its plan, its candidates, and its rounds.

use std::io::{Cursor, Write};

use swift_design::attachments::{
    attachment_parts, describe_size, is_text_attachment, text_of, user_content_with_attachments,
    user_content_with_images, AttachmentLoader, Attachments, Content, OfficeReading, Part,
    UploadAttachment, ATTACHMENT_FILE_LIMIT_BYTES, ATTACHMENT_TEXT_LIMIT_BYTES,
    ATTACHMENT_TEXT_TOTAL_LIMIT_BYTES,
};
use swift_design::candidates::{
    candidate_count, candidate_id, candidate_ids, candidate_plans, candidate_template,
};
use swift_design::conversation::{
    answers_since_last_write, edit_targets, late_continue_ids, latest_user_text,
    trailing_continue_ids, trailing_regenerate, AnswerRecord, ChatMessage,
};
use swift_design::generation::{
    check_session, continue_requests, continued_ids, failure_message, merge_canvas,
    missing_artifact, pick_task, plan_turn, preview_screens, settle, spoken_reply, start_order,
    stop_to_string, task_without_planner, wrote_summary, CandidateResult, CandidateTurn,
    ContinueResult, EditResult, EditTurn, GenerationOutcome, GenerationStop, GenerationTask,
    LateContinues, Plan, PlanInput, PlanStep, Settlement,
};
use swift_design::model::Viewport;
use swift_design::rounds::{
    fix_round_limit, outcome_of, writing_effort, Polish, PolishStep, PolishStop, Repair, RepairStep,
    ReplyOutcome,
};

const DESKTOP: Viewport = Viewport {
    width: 1440,
    height: 900,
};
const PHONE: Viewport = Viewport {
    width: 390,
    height: 844,
};

fn texts(list: &[&str]) -> Vec<String> {
    list.iter().map(|text| text.to_string()).collect()
}

fn plan(reply: &str) -> Plan {
    Plan {
        reply: reply.to_owned(),
        questions: None,
        should_generate: false,
        should_edit: false,
        should_merge: false,
    }
}

fn input<'a>(messages: &'a [ChatMessage], targets: &'a [String]) -> PlanInput<'a> {
    PlanInput {
        messages,
        targets,
        is_setup_turn: false,
        app_questions: "What should it cover?",
        answered: 0,
        answer_limit: 6,
    }
}

/// Every text of a content, joined.
fn content_text(content: &Content) -> String {
    match content {
        Content::Plain(text) => text.clone(),
        Content::Parts(parts) => parts
            .iter()
            .map(|part| match part {
                Part::Text(text) => text.clone(),
                Part::Image(data) => data.clone(),
                Part::File(name, data) => format!("{name} {data}"),
            })
            .collect::<Vec<String>>()
            .join("\n"),
    }
}

fn no_readings(count: usize) -> Vec<OfficeReading> {
    (0..count).map(|_| OfficeReading::NotOffice).collect()
}

#[test]
fn a_run_writes_one_candidate_per_canvas_per_variation() {
    let plans = candidate_plans("talk", &[DESKTOP, PHONE], 2, 1);
    assert_eq!(plans.len(), 4);
    let ids: Vec<&str> = plans.iter().map(|plan| plan.design_id.as_str()).collect();
    assert_eq!(
        ids,
        [
            "talk-candidate-1",
            "talk-candidate-2",
            "talk-candidate-3",
            "talk-candidate-4"
        ]
    );
    // The canvases run in the order the user picked them, and the
    // same two concepts are drawn on each.
    assert_eq!(plans[0].viewport, DESKTOP);
    assert_eq!(plans[1].variation, 2);
    assert_eq!(plans[2].viewport.width, 390);
    assert_eq!(plans[3].variation, 2);
}

#[test]
fn one_canvas_leaves_the_candidate_numbering_alone() {
    let one = [DESKTOP];
    let plans = candidate_plans("talk", &one, 3, 1);
    assert_eq!(plans.len(), 3);
    assert_eq!(plans[0].design_id, "talk-candidate-1");
    assert_eq!(plans[2].variation, 3);
    // Zero variations still writes one candidate.
    assert_eq!(candidate_plans("talk", &one, 0, 1).len(), 1);
}

#[test]
fn a_second_run_numbers_after_the_first() {
    let one = [DESKTOP];
    let plans = candidate_plans("talk", &one, 2, 4);
    let ids: Vec<&str> = plans.iter().map(|plan| plan.design_id.as_str()).collect();
    assert_eq!(ids, ["talk-candidate-4", "talk-candidate-5"]);
    assert_eq!(plans[1].candidate_number, 5);
    assert_eq!(plans[1].variation, 2);
    // A first number of zero still starts at one.
    assert_eq!(
        candidate_plans("talk", &one, 1, 0)[0].design_id,
        "talk-candidate-1"
    );
}

#[test]
fn an_office_file_reaches_the_prompt_as_its_text() {
    let mut writer = zip::ZipWriter::new(Cursor::new(Vec::new()));
    writer
        .start_file(
            "word/document.xml",
            zip::write::SimpleFileOptions::default(),
        )
        .unwrap();
    Write::write_all(
        &mut writer,
        b"<w:document><w:p><w:r><w:t>Pricing starts at 9 a month.</w:t></w:r></w:p></w:document>",
    )
    .unwrap();
    let bytes = writer.finish().unwrap().into_inner();
    let office = "application/vnd.openxmlformats-officedocument.wordprocessingml.document";
    let attachments = Attachments {
        files: vec![UploadAttachment {
            name: "brief.docx".to_owned(),
            content_type: office.to_owned(),
            bytes,
        }],
        skipped: Vec::new(),
    };
    let reading = [OfficeReading::Text(
        "Pricing starts at 9 a month.".to_owned(),
    )];
    let content = content_text(&user_content_with_attachments(
        "Go.",
        &attachments,
        &reading,
        false,
    ));
    assert!(content.contains("File brief.docx"));
    assert!(content.contains("Pricing starts at 9 a month."));
    assert!(!content.contains("cannot carry"));
    // A broken archive is reported, not dropped in silence.
    let broken = Attachments {
        files: vec![UploadAttachment {
            name: "brief.docx".to_owned(),
            content_type: office.to_owned(),
            bytes: b"not a zip".to_vec(),
        }],
        skipped: Vec::new(),
    };
    let reading = [OfficeReading::Unreadable("no zip".to_owned())];
    let content = content_text(&user_content_with_attachments(
        "Go.", &broken, &reading, false,
    ));
    assert!(content.contains("could not be read"));
}

#[test]
fn a_source_file_of_unknown_type_reaches_the_prompt_as_its_text() {
    let source = Attachments {
        files: vec![UploadAttachment {
            name: "main.zig".to_owned(),
            content_type: "application/octet-stream".to_owned(),
            bytes: b"pub fn main() void {}\n".to_vec(),
        }],
        skipped: Vec::new(),
    };
    let content = content_text(&user_content_with_attachments(
        "Go.",
        &source,
        &no_readings(1),
        false,
    ));
    assert!(content.contains("pub fn main() void {}"));
    assert!(!content.contains("cannot carry"));
    // A binary file is still named only.
    let binary = Attachments {
        files: vec![UploadAttachment {
            name: "font.bin".to_owned(),
            content_type: "application/octet-stream".to_owned(),
            bytes: vec![0, 159, 146, 150, 0, 1],
        }],
        skipped: Vec::new(),
    };
    let content = content_text(&user_content_with_attachments(
        "Go.",
        &binary,
        &no_readings(1),
        false,
    ));
    assert!(content.contains("cannot carry"));
    assert_eq!(text_of(b"plain").as_deref(), Some("plain"));
    assert_eq!(text_of(b"a\0b"), None);
    assert_eq!(text_of(&[0xff, 0xfe]), None);
}

#[test]
fn the_inlined_text_stops_at_the_request_budget() {
    let file = |name: &str, bytes: usize| UploadAttachment {
        name: name.to_owned(),
        content_type: "text/plain; charset=utf-8".to_owned(),
        bytes: vec![b'~'; bytes],
    };
    // Three files at the per-file cap pass the budget: the third
    // is cut at what is left, the fourth is named only, and the
    // model is told which one it is.
    let attachments = Attachments {
        files: vec![
            file("a.rs", ATTACHMENT_TEXT_LIMIT_BYTES),
            file("b.rs", ATTACHMENT_TEXT_LIMIT_BYTES),
            file("c.rs", ATTACHMENT_TEXT_LIMIT_BYTES),
            file("d.rs", 10),
        ],
        skipped: Vec::new(),
    };
    let content = user_content_with_attachments("Go.", &attachments, &no_readings(4), false);
    let text = content_text(&content);
    assert!(text.contains("File a.rs"));
    assert!(text.contains("File c.rs"));
    assert!(text.contains("[cut: the file continues]"));
    assert!(text.contains("File d.rs (text/plain; charset=utf-8, 10 B): named only"));
    assert!(text.contains("no room for more text: d.rs"));
    assert_eq!(
        text.matches('~').count(),
        ATTACHMENT_TEXT_TOTAL_LIMIT_BYTES
    );
    // A small set is inlined whole, with no note.
    let small = Attachments {
        files: vec![file("a.rs", 10), file("b.rs", 10)],
        skipped: Vec::new(),
    };
    let text = content_text(&user_content_with_attachments(
        "Go.",
        &small,
        &no_readings(2),
        false,
    ));
    assert!(!text.contains("named only"));
}

#[test]
fn a_message_says_only_what_it_was_made_for() {
    let asked = ChatMessage::assistant_questions("Two questions.", 3);
    assert_eq!((asked.role.as_str(), asked.content.as_str()), ("assistant", "Two questions."));
    assert_eq!(asked.question_set, Some(3));
    assert_eq!(asked.design, None);
    assert!(asked.pinned.is_empty() && asked.artifacts.is_empty());
    assert!(!asked.is_continue && !asked.is_regenerate);
    let press = ChatMessage::continue_request("Finish it.", "talk-candidate-1");
    assert_eq!((press.role.as_str(), press.design.as_deref()), ("user", Some("talk-candidate-1")));
    assert_eq!(press.question_set, None);
    assert!(press.is_continue && !press.is_regenerate);
}

#[test]
fn a_run_of_finish_presses_continues_every_candidate() {
    let messages = vec![
        ChatMessage::user("A landing page.", None),
        ChatMessage::assistant("Two candidates."),
        ChatMessage::continue_request("Finish it.", "talk-candidate-1"),
        ChatMessage::continue_request("Finish it.", "talk-candidate-2"),
        // The same card pressed twice is one request.
        ChatMessage::continue_request("Finish it.", "talk-candidate-2"),
    ];
    assert_eq!(
        trailing_continue_ids(&messages),
        ["talk-candidate-1", "talk-candidate-2"]
    );
}

#[test]
fn a_continue_from_an_earlier_turn_is_that_turns_business() {
    let messages = vec![
        ChatMessage::continue_request("Finish it.", "talk-candidate-1"),
        ChatMessage::user("Make the title bigger.", None),
        ChatMessage::continue_request("Finish it.", "talk-candidate-2"),
    ];
    assert_eq!(trailing_continue_ids(&messages), ["talk-candidate-2"]);
    assert!(trailing_continue_ids(&[]).is_empty());
}

#[test]
fn the_first_turn_asks_the_apps_own_questions_before_it_writes() {
    // The planner wants to write at once and asks nothing.
    let mut eager = plan("Writing it now.");
    eager.should_generate = true;
    let messages = [ChatMessage::user("A talk.", None)];
    let mut first = input(&messages, &[]);
    first.is_setup_turn = true;
    match plan_turn(&eager, &first) {
        PlanStep::Ask {
            from_planner,
            spoken,
        } => {
            assert!(!from_planner);
            // A promise to write is not spoken: the turn asks.
            assert_eq!(spoken, "What should it cover?");
        }
        step => panic!("expected a question, got {step:?}"),
    }
}

#[test]
fn a_second_turn_writes_without_asking_again() {
    let mut eager = plan("Writing it now.");
    eager.should_generate = true;
    let messages = [ChatMessage::user("A talk.", None)];
    let step = plan_turn(&eager, &input(&messages, &[]));
    assert!(matches!(
        step,
        PlanStep::Task {
            task: GenerationTask::Candidates
        }
    ));
    assert_eq!(step.result(), None);
    assert_eq!(spoken_reply(&eager), Some("Writing it now."));
}

#[test]
fn a_planner_question_set_moves_the_session_to_clarifying() {
    let mut asking = plan("  Two things. ");
    asking.questions = Some("Which audience?".to_owned());
    let messages = [ChatMessage::user("A talk.", None)];
    let step = plan_turn(&asking, &input(&messages, &[]));
    assert_eq!(step.result(), Some("asked_questions"));
    assert!(matches!(
        step,
        PlanStep::Ask { from_planner: true, spoken } if spoken == "Two things."
    ));
    asking.reply = " ".to_owned();
    assert!(matches!(
        plan_turn(&asking, &input(&messages, &[])),
        PlanStep::Ask { from_planner: true, spoken } if spoken == "Which audience?"
    ));
}

#[test]
fn past_the_answer_limit_the_planner_writes() {
    let mut asking = plan("");
    asking.questions = Some("Which audience?".to_owned());
    let messages = [ChatMessage::user("A talk.", None)];
    let mut answered = input(&messages, &[]);
    answered.answered = 6;
    assert!(matches!(
        plan_turn(&asking, &answered),
        PlanStep::Task {
            task: GenerationTask::Candidates
        }
    ));
    answered.is_setup_turn = true;
    assert!(!matches!(plan_turn(&asking, &answered), PlanStep::Ask { .. }));
}

#[test]
fn a_plain_reply_keeps_the_state_and_lands_in_the_chat() {
    let said = plan("A talk is a deck.");
    let messages = [ChatMessage::user("What is a talk?", None)];
    let step = plan_turn(&said, &input(&messages, &[]));
    assert!(matches!(step, PlanStep::Replied));
    assert_eq!(step.result(), Some("replied"));
    assert_eq!(spoken_reply(&said), Some("A talk is a deck."));
    assert_eq!(spoken_reply(&plan("")), None);
}

#[test]
fn a_merge_needs_two_pins_and_one_pin_is_an_edit() {
    let mut merge = plan("Merging.");
    merge.should_merge = true;
    let messages = [ChatMessage::user("Take the hero of A.", None)];
    let two = texts(&["talk-candidate-1", "talk-candidate-2"]);
    assert!(matches!(
        plan_turn(&merge, &input(&messages, &two)),
        PlanStep::Task {
            task: GenerationTask::Merge { sources, instruction }
        } if sources == two && instruction == "Take the hero of A."
    ));
    let one = texts(&["talk-candidate-1"]);
    assert!(matches!(
        plan_turn(&merge, &input(&messages, &one)),
        PlanStep::Task {
            task: GenerationTask::Edit { designs, .. }
        } if designs == one
    ));
    assert!(matches!(
        plan_turn(&merge, &input(&messages, &[])),
        PlanStep::Replied
    ));
}

#[test]
fn answers_count_per_request_from_the_last_write() {
    let record = |at: &str, count: usize| AnswerRecord {
        question_set: 1,
        answers: (0..count).map(|index| format!("q{index}")).collect(),
        at: at.to_owned(),
    };
    let records = vec![
        record("2026-08-29T07:00:00Z", 3),
        record("2026-08-29T07:30:00Z", 2),
    ];
    let mut wrote = ChatMessage::assistant("I wrote 2 candidates.")
        .with_artifacts(vec!["talk-candidate-1".to_owned()]);
    wrote.at = Some("2026-08-29T07:10:00Z".to_owned());
    let messages = vec![ChatMessage::user("A talk.", None), wrote];
    assert_eq!(answers_since_last_write(&messages, &records), 2);
    assert_eq!(answers_since_last_write(&messages[..1], &records), 5);
}

#[test]
fn a_finish_pressed_mid_run_is_a_late_continue() {
    let press = |id: &str| ChatMessage::continue_request("Finish it.", id);
    let started = texts(&["talk-candidate-1"]);
    let mut messages = vec![press("talk-candidate-1")];
    // Nothing new: the running continue is the only request.
    assert!(late_continue_ids(&trailing_continue_ids(&messages), &started).is_empty());
    // The second Finish arrives while the first runs.
    messages.push(press("talk-candidate-2"));
    assert_eq!(
        late_continue_ids(&trailing_continue_ids(&messages), &started),
        ["talk-candidate-2"]
    );
}

#[test]
fn the_edit_targets_are_the_pins_then_the_open_artifact_then_the_chosen_one() {
    let pinned = vec![
        ChatMessage::user("Bigger.", Some("talk-candidate-1")).with_pinned(vec![
            "talk-candidate-2".to_owned(),
            "talk-candidate-3".to_owned(),
        ]),
    ];
    assert_eq!(
        edit_targets(&pinned, Some("talk-candidate-1")),
        vec!["talk-candidate-2".to_owned(), "talk-candidate-3".to_owned()]
    );
    let open = vec![ChatMessage::user("Bigger.", Some("talk-candidate-1"))];
    assert_eq!(
        edit_targets(&open, Some("talk-candidate-2")),
        vec!["talk-candidate-1".to_owned()]
    );
    let plain = vec![
        ChatMessage::user("Bigger.", None),
        ChatMessage::assistant("Done."),
    ];
    assert_eq!(
        edit_targets(&plain, Some("talk-candidate-2")),
        vec!["talk-candidate-2".to_owned()]
    );
    assert!(edit_targets(&plain, None).is_empty());
}

#[test]
fn a_regenerate_names_its_artifact_and_its_words() {
    let mut message = ChatMessage::user("[screen 2]", Some("talk-candidate-1"));
    message.is_regenerate = true;
    let messages = [ChatMessage::user("A talk.", None), message];
    assert_eq!(
        trailing_regenerate(&messages),
        Some(("talk-candidate-1".to_owned(), "[screen 2]".to_owned()))
    );
    assert!(matches!(
        pick_task(&messages, texts(&["talk-candidate-9"])),
        Some(GenerationTask::Regenerate { design, .. }) if design == "talk-candidate-1"
    ));
    assert_eq!(trailing_regenerate(&messages[..1]), None);
    assert_eq!(latest_user_text(&messages).as_deref(), Some("[screen 2]"));
    assert_eq!(latest_user_text(&[]), None);
}

#[test]
fn a_turn_without_a_named_task_asks_the_planner() {
    let messages = [ChatMessage::user("A talk.", None)];
    assert!(pick_task(&messages, Vec::new()).is_none());
    assert!(task_without_planner(None, false).is_none());
    assert!(matches!(
        task_without_planner(None, true),
        Some(GenerationTask::Candidates)
    ));
    let continued = pick_task(&messages, texts(&["talk-candidate-1"]));
    assert!(matches!(
        task_without_planner(continued, true),
        Some(GenerationTask::Continue(ids)) if ids == ["talk-candidate-1"]
    ));
}

#[test]
fn a_session_must_exist_and_run() {
    assert_eq!(check_session("talk", Some(("intake", false))), Ok(()));
    assert_eq!(
        check_session("talk", Some(("paused", true))),
        Err("the session is `paused`: resume it first".to_owned())
    );
    assert_eq!(
        check_session("talk", None),
        Err("no session `talk`".to_owned())
    );
}

#[test]
fn only_previews_are_continued() {
    assert_eq!(
        continue_requests(&texts(&["a", "b", "c"]), &[true, false, true]),
        ["a", "c"]
    );
    assert_eq!(preview_screens(true), Some(3));
    assert_eq!(preview_screens(false), None);
}

#[test]
fn one_failed_edit_does_not_stop_the_others() {
    let mut turn = EditTurn::new();
    let failed = EditResult::Stopped(GenerationStop::<u8>::Failed("broken".to_owned()));
    assert_eq!(turn.take("a", failed), None);
    assert_eq!(turn.take("b", EditResult::<u8>::Saved), None);
    assert_eq!(turn.finish(), Ok(texts(&["b"])));
    let mut all_failed = EditTurn::new();
    let failed = EditResult::Stopped(GenerationStop::<u8>::Failed("broken".to_owned()));
    all_failed.take("a", failed);
    assert_eq!(all_failed.finish(), Err("broken".to_owned()));
    let mut asked = EditTurn::new();
    let question = EditResult::Stopped(GenerationStop::NeedsClarification(7u8));
    assert_eq!(asked.take("a", question), Some(7));
    assert_eq!(EditTurn::new().finish(), Ok(Vec::new()));
}

#[test]
fn a_failure_says_something() {
    assert_eq!(failure_message(&[], "nothing came"), "nothing came");
    assert_eq!(failure_message(&texts(&["a", "b"]), "x"), "a; b");
    assert_eq!(
        stop_to_string(GenerationStop::<u8>::Failed("no".to_owned())),
        "no"
    );
    assert!(!stop_to_string(GenerationStop::NeedsClarification(1u8)).is_empty());
    assert_eq!(
        missing_artifact("document", "x"),
        "document `x` does not exist"
    );
}

#[test]
fn the_continues_of_a_turn_fail_together_only() {
    let result = |id: &str, added: Result<usize, &str>| ContinueResult {
        id: id.to_owned(),
        added: added.map_err(str::to_owned),
    };
    assert_eq!(
        continued_ids(&[result("a", Ok(2)), result("b", Err("down"))], "none"),
        Ok(texts(&["a", "b"]))
    );
    let message = continued_ids(&[result("a", Err("down"))], "none").unwrap_err();
    assert!(message.contains("a"));
    assert!(message.contains("down"));
    assert_eq!(continued_ids(&[], "none"), Err("none".to_owned()));
}

#[test]
fn each_late_continue_is_tried_once() {
    let mut late = LateContinues::new(texts(&["a"]));
    assert_eq!(late.next(&texts(&["a", "b"])), ["b"]);
    late.add_written(texts(&["b"]));
    assert!(late.next(&texts(&["a", "b"])).is_empty());
    assert_eq!(late.finish(), ["a", "b"]);
}

#[test]
fn results_are_sorted_by_their_start() {
    assert_eq!(
        start_order(&texts(&["c", "a", "b"]), &texts(&["a", "b", "c"])),
        [1, 2, 0]
    );
    assert!(start_order(&texts(&["x"]), &texts(&["a"])).is_empty());
}

#[test]
fn the_written_candidates_are_those_in_the_store() {
    let mut turn = CandidateTurn::new();
    assert_eq!(turn.take(CandidateResult::<u8>::Written), None);
    let failed = CandidateResult::<u8>::Stopped(GenerationStop::Failed("bad".to_owned()));
    assert_eq!(turn.take(failed), None);
    turn.take(CandidateResult::<u8>::Crashed("panic".to_owned()));
    assert_eq!(turn.failures().len(), 2);
    let ids = texts(&["t-1", "t-2"]);
    assert_eq!(
        turn.finish(&ids, &[false, true], "none"),
        Ok(texts(&["t-2"]))
    );
    let message = turn.finish(&ids, &[false, false], "none").unwrap_err();
    assert!(message.contains("bad"));
    assert!(message.contains("panic"));
    let asked = CandidateResult::Stopped(GenerationStop::NeedsClarification(3u8));
    assert_eq!(CandidateTurn::new().take(asked), Some(3));
}

#[test]
fn a_merge_across_canvases_is_refused() {
    let ids = texts(&["a", "b"]);
    assert_eq!(merge_canvas(&ids, &[DESKTOP, DESKTOP]), Ok(DESKTOP));
    let message = merge_canvas(&ids, &[DESKTOP, PHONE]).unwrap_err();
    assert!(message.contains("`a`"));
    assert!(message.contains("`b`"));
    assert_eq!(
        merge_canvas(&[], &[]),
        Err("a merge needs two candidates: pin them with @".to_owned())
    );
}

#[test]
fn a_run_settles_by_its_outcome() {
    let wrote = settle::<u8>(Ok(GenerationOutcome::Wrote {
        design_ids: texts(&["a"]),
    }));
    assert_eq!(wrote.result(), Some("succeeded"));
    assert!(matches!(
        &wrote,
        Settlement::Wrote { summary, design_ids }
            if *summary == wrote_summary(&texts(&["a"])) && *design_ids == ["a"]
    ));
    assert!(matches!(
        settle::<u8>(Ok(GenerationOutcome::NeedsClarification { question_set: 4 })),
        Settlement::Asked(4)
    ));
    assert!(matches!(
        settle::<u8>(Ok(GenerationOutcome::Replied)),
        Settlement::Replied
    ));
    assert!(matches!(
        settle(Err(GenerationStop::NeedsClarification(9u8))),
        Settlement::AskQuestions(9)
    ));
    let failed = settle::<u8>(Err(GenerationStop::Failed("no".to_owned())));
    assert!(matches!(&failed, Settlement::Failed(message) if message == "no"));
    assert_eq!(failed.result(), Some("failed"));
}

#[test]
fn candidate_ids_count_from_the_first_number() {
    assert_eq!(candidate_id("talk", 12), "talk-candidate-12");
    assert_eq!(
        candidate_ids("talk", 2, 3),
        ["talk-candidate-3", "talk-candidate-4"]
    );
    assert_ne!(candidate_id("talk", 1), candidate_id("talk", 11));
    assert!(candidate_ids("talk", 0, 1).is_empty());
}

#[test]
fn templates_wrap_around_the_candidates() {
    let looks: Vec<Option<usize>> = (1..=5).map(|number| candidate_template(3, number)).collect();
    assert_eq!(looks, [Some(0), Some(1), Some(2), Some(0), Some(1)]);
    assert_eq!(candidate_template(0, 1), None);
}

#[test]
fn only_the_candidates_of_a_session_count() {
    let owners = texts(&["talk", "other", "talk"]);
    assert_eq!(candidate_count(Some(&owners), "talk"), 2);
    assert_eq!(candidate_count(Some(&owners), "none"), 0);
    assert_eq!(candidate_count(None, "talk"), 0);
}

#[test]
fn an_invalid_design_gets_fix_rounds_then_fails() {
    let mut repair = Repair::new("candidate 1", "low");
    let mut rounds = 0;
    loop {
        let outcome = ReplyOutcome::<u8, u8>::Invalid(texts(&["title: empty"]));
        match repair.take("{}", outcome) {
            RepairStep::Ask => rounds += 1,
            RepairStep::GiveUp(message) => {
                assert_eq!(message, "candidate 1 still fails after 2 fix rounds");
                break;
            }
            step => panic!("unexpected {step:?}"),
        }
    }
    assert_eq!(rounds, fix_round_limit("low"));
    let turns = repair.turns();
    assert_eq!(turns.len(), 6);
    assert_eq!(turns[0].role, "assistant");
    assert_eq!(turns[0].content, "{}");
    assert!(turns[1].content.contains("title: empty"));
}

#[test]
fn a_repair_ends_with_the_first_good_reply() {
    let mut repair = Repair::new("edit", "high");
    assert_eq!(repair.round_number(), 1);
    let unreadable = ReplyOutcome::<u8, u8>::Unreadable("no JSON".to_owned());
    assert!(matches!(repair.take("hm", unreadable), RepairStep::Ask));
    assert_eq!(repair.round_number(), 2);
    assert!(repair.turns()[1].content.contains("(no JSON)"));
    assert!(matches!(
        repair.take("{}", ReplyOutcome::<u8, u8>::Valid(5)),
        RepairStep::Done(5)
    ));
    let mut asked = Repair::new("edit", "high");
    assert!(matches!(
        asked.take("{}", ReplyOutcome::<u8, u8>::Clarification(8)),
        RepairStep::Clarify(8)
    ));
}

#[test]
fn the_effort_sets_the_rounds_and_the_writing() {
    assert_eq!(fix_round_limit("low"), 2);
    assert_eq!(fix_round_limit("medium"), 3);
    assert_eq!(fix_round_limit("high"), 4);
    assert_eq!(writing_effort("high"), "medium");
    assert_eq!(writing_effort("medium"), "low");
    assert_eq!(writing_effort("low"), "low");
}

#[test]
fn the_version_that_measured_best_is_kept() {
    let mut polish = Polish::new("first", 5, true);
    assert_eq!(polish.measure(3), PolishStep::Ask(1));
    polish.reply(Some("second"));
    assert_eq!(polish.measure(1), PolishStep::Ask(2));
    polish.reply(Some("third"));
    assert_eq!(
        polish.measure(2),
        PolishStep::Stop(PolishStop::NoImprovement)
    );
    let polished = polish.finish();
    assert_eq!(polished.best, "second");
    assert_eq!(polished.findings, Some(1));
    assert_eq!(polished.rounds_taken, 2);
    assert_eq!(polished.stop, PolishStop::NoImprovement);
}

#[test]
fn polishing_stops_when_clean_or_out_of_rounds() {
    let mut clean = Polish::new("first", 3, true);
    assert_eq!(clean.measure(0), PolishStep::Stop(PolishStop::Clean));
    assert_eq!(clean.finish().stop, PolishStop::Clean);
    let mut short = Polish::new("first", 1, true);
    assert_eq!(short.measure(4), PolishStep::Ask(1));
    short.reply(None);
    let polished = short.finish();
    assert_eq!(polished.stop, PolishStop::OutOfRounds);
    assert_eq!(polished.best, "first");
    let mut lost = Polish::new("first", 3, true);
    lost.measure(4);
    lost.abandon();
    let kept = lost.finish();
    assert_eq!(kept.findings, Some(4));
    assert_eq!(kept.rounds_taken, 1);
}

#[test]
fn only_measurements_that_ask_count_as_rounds() {
    let mut polish = Polish::new("first", 5, true);
    assert_eq!(polish.measure(2), PolishStep::Ask(1));
    polish.reply(Some("second"));
    assert!(!polish.is_ended());
    assert_eq!(polish.measure(0), PolishStep::Stop(PolishStop::Clean));
    assert!(polish.is_ended());
    let polished = polish.finish();
    assert_eq!(polished.best, "second");
    assert_eq!(polished.rounds_taken, 1);
    let mut clean = Polish::new("first", 5, true);
    clean.measure(0);
    assert_eq!(clean.finish().rounds_taken, 0);
}

#[test]
fn nothing_is_polished_that_cannot_be_measured() {
    let blind = Polish::new("first", 3, false);
    assert!(blind.is_ended());
    let kept = blind.finish();
    assert_eq!(kept.best, "first");
    assert_eq!(kept.findings, None);
    assert_eq!(kept.rounds_taken, 0);
    assert_eq!(kept.stop, PolishStop::NotMeasured);
    let none = Polish::new("first", 0, true);
    assert!(none.is_ended());
    assert_eq!(none.finish().stop, PolishStop::OutOfRounds);
}

#[test]
fn uploads_over_the_caps_are_skipped_by_name() {
    let mut loader = AttachmentLoader::new();
    assert!(loader.fits(10));
    assert!(!loader.fits(ATTACHMENT_FILE_LIMIT_BYTES + 1));
    loader.skip("big.bin", ATTACHMENT_FILE_LIMIT_BYTES + 1);
    loader.take(UploadAttachment {
        name: "a.txt".to_owned(),
        content_type: "text/plain".to_owned(),
        bytes: b"hi".to_vec(),
    });
    let attachments = loader.finish();
    assert_eq!(attachments.files.len(), 1);
    assert_eq!(attachments.skipped, ["big.bin (20.0 MB)"]);
}

#[test]
fn the_total_of_the_uploads_is_capped() {
    let mut loader = AttachmentLoader::new();
    let file = |bytes: usize| UploadAttachment {
        name: "x".to_owned(),
        content_type: "image/png".to_owned(),
        bytes: vec![0; bytes],
    };
    loader.take(file(ATTACHMENT_FILE_LIMIT_BYTES));
    assert!(loader.fits(1024));
    assert!(!loader.fits(ATTACHMENT_FILE_LIMIT_BYTES));
}

#[test]
fn sizes_are_told_in_the_unit_that_fits() {
    assert_eq!(describe_size(10), "10 B");
    assert_eq!(describe_size(1023), "1023 B");
    assert_eq!(describe_size(2048), "2.0 KB");
    assert_eq!(describe_size(1572864), "1.5 MB");
}

#[test]
fn images_and_files_go_along_as_data() {
    let image = UploadAttachment {
        name: "a.png".to_owned(),
        content_type: "image/png".to_owned(),
        bytes: b"PNGDATA".to_vec(),
    };
    let mut budget = 100;
    let seen = attachment_parts(&image, &OfficeReading::NotOffice, true, &mut budget);
    assert!(seen
        .iter()
        .any(|part| matches!(part, Part::Image(uri) if uri.starts_with("data:image/png;base64,"))));
    let unseen = attachment_parts(&image, &OfficeReading::NotOffice, false, &mut budget);
    assert!(!unseen.iter().any(|part| matches!(part, Part::Image(_))));
    assert!(!is_text_attachment(&image, &OfficeReading::NotOffice));
    let content = user_content_with_images("Look.", &[b"PNGDATA".to_vec()]);
    assert!(matches!(&content, Content::Parts(parts) if parts.len() == 3));
    assert_eq!(
        user_content_with_images("Look.", &[]),
        Content::Plain("Look.".to_owned())
    );
}

#[test]
fn text_that_is_no_utf8_is_read_with_replacements() {
    let odd = UploadAttachment {
        name: "odd.txt".to_owned(),
        content_type: "text/plain".to_owned(),
        bytes: vec![b'a', 0xff, b'b'],
    };
    let attachments = Attachments {
        files: vec![odd],
        skipped: Vec::new(),
    };
    let text = content_text(&user_content_with_attachments(
        "Go.",
        &attachments,
        &no_readings(1),
        false,
    ));
    assert!(text.contains("a\u{fffd}b"));
}

#[test]
fn a_reply_is_a_question_before_it_is_an_artifact() {
    let parsed = |errors: &[&str]| Ok::<(u8, Vec<String>), String>((5, texts(errors)));
    assert!(matches!(
        outcome_of(Some("q"), parsed(&[])),
        ReplyOutcome::Clarification("q")
    ));
    assert!(matches!(
        outcome_of::<u8, u8>(None, parsed(&[])),
        ReplyOutcome::Valid(5)
    ));
    assert!(matches!(
        outcome_of::<u8, u8>(None, parsed(&["title: empty"])),
        ReplyOutcome::Invalid(errors) if errors == ["title: empty"]
    ));
    assert!(matches!(
        outcome_of::<u8, u8>(None, Err("no JSON".to_owned())),
        ReplyOutcome::Unreadable(error) if error == "no JSON"
    ));
}
