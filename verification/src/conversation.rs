//! The conversation of a session: what its messages ask a turn to do.

use vstd::prelude::*;

use crate::model;
use crate::model::{borrowed, duplicate_list, Duplicate};
use crate::order;
use crate::order::stands_before;
use crate::text;
use crate::text::{chars_of, owned};

verus! {

/// One message of a session's chat.
#[derive(Debug)]
pub struct ChatMessage {
    /// Who speaks: `user` or `assistant`.
    pub role: String,
    pub content: String,
    /// The artifact open in the editor, or the one to continue.
    pub design: Option<String>,
    /// The candidates the user pinned.
    pub pinned: Vec<String>,
    /// True when the user asks to finish a preview.
    pub is_continue: bool,
    /// True when the user asks to write units anew.
    pub is_regenerate: bool,
    /// The artifacts that the turn of this reply wrote.
    pub artifacts: Vec<String>,
    /// The question set that this reply opens.
    pub question_set: Option<u32>,
    /// When the message was stored, as an RFC 3339 UTC text.
    pub at: Option<String>,
}

/// One stored set of answers.
#[derive(Debug)]
pub struct AnswerRecord {
    /// The question set answered.
    pub question_set: u32,
    /// The answers, one text each.
    pub answers: Vec<String>,
    /// When the answers were stored, as an RFC 3339 UTC text.
    pub at: String,
}

impl ChatMessage {
    fn spoken(role: &str, content: &str) -> (r: ChatMessage)
        ensures
            r.role@ == role@,
            r.content@ == content@,
            r.design is None,
            r.pinned@.len() == 0,
            !r.is_continue,
            !r.is_regenerate,
            r.artifacts@.len() == 0,
            r.question_set is None,
            r.at is None,
    {
        ChatMessage {
            role: owned(role),
            content: owned(content),
            design: None,
            pinned: Vec::new(),
            is_continue: false,
            is_regenerate: false,
            artifacts: Vec::new(),
            question_set: None,
            at: None,
        }
    }

    /// What the user says, with the artifact open in the editor.
    pub fn user(content: &str, design: Option<&str>) -> (r: ChatMessage)
        ensures
            r.role@ == "user"@,
            r.content@ == content@,
            model::optional(r.design) == model::optional_str(design),
            r.pinned@.len() == 0,
            !r.is_continue,
            !r.is_regenerate,
            r.artifacts@.len() == 0,
            r.question_set is None,
            r.at is None,
    {
        let mut r = ChatMessage::spoken("user", content);
        r.design = match design {
            Some(id) => Some(owned(id)),
            None => None,
        };
        r
    }

    /// What the assistant says.
    pub fn assistant(content: &str) -> (r: ChatMessage)
        ensures
            r.role@ == "assistant"@,
            r.content@ == content@,
            r.design is None,
            r.pinned@.len() == 0,
            !r.is_continue,
            !r.is_regenerate,
            r.artifacts@.len() == 0,
            r.question_set is None,
            r.at is None,
    {
        ChatMessage::spoken("assistant", content)
    }

    /// What the assistant says when it opens question set `number`.
    pub fn assistant_questions(content: &str, number: u32) -> (r: ChatMessage)
        ensures
            r.role@ == "assistant"@,
            r.content@ == content@,
            r.design is None,
            r.pinned@.len() == 0,
            !r.is_continue,
            !r.is_regenerate,
            r.artifacts@.len() == 0,
            r.question_set == Some(number),
            r.at is None,
    {
        let mut r = ChatMessage::spoken("assistant", content);
        r.question_set = Some(number);
        r
    }

    /// The user's request to finish the preview `design`.
    pub fn continue_request(content: &str, design: &str) -> (r: ChatMessage)
        ensures
            r.role@ == "user"@,
            r.content@ == content@,
            model::optional(r.design) == Some(design@),
            r.pinned@.len() == 0,
            r.is_continue,
            !r.is_regenerate,
            r.artifacts@.len() == 0,
            r.question_set is None,
            r.at is None,
    {
        let mut r = ChatMessage::user(content, Some(design));
        r.is_continue = true;
        r
    }

    /// The message with pinned candidates.
    pub fn with_pinned(self, pinned: Vec<String>) -> (r: ChatMessage)
        ensures
            r == (ChatMessage { pinned, ..self }),
    {
        let mut r = self;
        r.pinned = pinned;
        r
    }

    /// The message with the artifacts its turn wrote.
    pub fn with_artifacts(self, artifacts: Vec<String>) -> (r: ChatMessage)
        ensures
            r == (ChatMessage { artifacts, ..self }),
    {
        let mut r = self;
        r.artifacts = artifacts;
        r
    }
}

// -- The latest user turn ---------------------------------------------------

/// True when the user speaks.
pub open spec fn is_user(message: ChatMessage) -> bool {
    message.role@ == "user"@
}

/// The last of the first `n` messages in which the user speaks.
pub open spec fn latest_user(messages: Seq<ChatMessage>, n: int) -> Option<int>
    decreases n,
{
    if n <= 0 || n > messages.len() {
        None
    } else if is_user(messages[n - 1]) {
        Some(n - 1)
    } else {
        latest_user(messages, n - 1)
    }
}

fn find_latest_user(messages: &[ChatMessage]) -> (r: Option<usize>)
    ensures
        text::position(r) == latest_user(messages@, messages@.len() as int),
        r is Some ==> r->0 < messages@.len(),
{
    let mut n: usize = messages.len();
    while n > 0
        invariant
            n <= messages@.len(),
            latest_user(messages@, messages@.len() as int) == latest_user(messages@, n as int),
        decreases n,
    {
        if *messages[n - 1].role.as_str() == *"user" {
            return Some(n - 1);
        }
        n -= 1;
    }
    None
}

/// The artifacts that the latest user turn is about.
pub open spec fn targets(messages: Seq<ChatMessage>, chosen: Option<Seq<char>>) -> Seq<Seq<char>> {
    let from_chosen = match chosen {
        Some(id) => seq![id],
        None => Seq::empty(),
    };
    match latest_user(messages, messages.len() as int) {
        Some(i) => if messages[i].pinned@.len() > 0 {
            text::strings(messages[i].pinned@)
        } else {
            match model::optional(messages[i].design) {
                Some(id) => seq![id],
                None => from_chosen,
            }
        },
        None => from_chosen,
    }
}

fn only(id: &str) -> (r: Vec<String>)
    ensures
        text::strings(r@) == seq![id@],
{
    let mut r: Vec<String> = Vec::new();
    r.push(owned(id));
    assert(text::strings(r@) =~= seq![id@]);
    r
}

/// The artifacts the latest user turn is about: the candidates it pinned,
/// else the artifact it was sent from in the editor, else the chosen one.
/// Empty when it names none.
pub fn edit_targets(messages: &[ChatMessage], chosen: Option<&str>) -> (r: Vec<String>)
    ensures
        text::strings(r@) == targets(messages@, model::optional_str(chosen)),
{
    if let Some(i) = find_latest_user(messages) {
        let message = &messages[i];
        if message.pinned.len() > 0 {
            return duplicate_list(&message.pinned);
        }
        if let Some(id) = &message.design {
            return only(id.as_str());
        }
    }
    match chosen {
        Some(id) => only(id),
        None => {
            let r: Vec<String> = Vec::new();
            assert(text::strings(r@) =~= Seq::<Seq<char>>::empty());
            r
        },
    }
}

/// The text of the latest user turn.
pub fn latest_user_text(messages: &[ChatMessage]) -> (r: Option<String>)
    ensures
        model::optional(r) == (match latest_user(messages@, messages@.len() as int) {
            Some(i) => Some(messages@[i].content@),
            None => None,
        }),
{
    match find_latest_user(messages) {
        Some(i) => Some(messages[i].content.clone()),
        None => None,
    }
}

/// The artifact and the instruction of a regenerate request, when the
/// latest user turn is one.
pub fn trailing_regenerate(messages: &[ChatMessage]) -> (r: Option<(String, String)>)
    ensures
        match latest_user(messages@, messages@.len() as int) {
            Some(i) => match r {
                Some((design, instruction)) => messages@[i].is_regenerate && model::optional(
                    messages@[i].design,
                ) == Some(design@) && instruction@ == messages@[i].content@,
                None => !messages@[i].is_regenerate || messages@[i].design is None,
            },
            None => r is None,
        },
{
    match find_latest_user(messages) {
        Some(i) => {
            let message = &messages[i];
            if !message.is_regenerate {
                return None;
            }
            match &message.design {
                Some(design) => Some((design.clone(), message.content.clone())),
                None => None,
            }
        },
        None => None,
    }
}

// -- Answers ----------------------------------------------------------------

/// The last of the first `n` messages whose turn wrote artifacts.
pub open spec fn latest_write(messages: Seq<ChatMessage>, n: int) -> Option<int>
    decreases n,
{
    if n <= 0 || n > messages.len() {
        None
    } else if messages[n - 1].role@ == "assistant"@ && messages[n - 1].artifacts@.len() > 0 {
        Some(n - 1)
    } else {
        latest_write(messages, n - 1)
    }
}

/// When the last turn that wrote artifacts was stored.
pub open spec fn written_at(messages: Seq<ChatMessage>) -> Option<Seq<char>> {
    match latest_write(messages, messages.len() as int) {
        Some(i) => model::optional(messages[i].at),
        None => None,
    }
}

/// How many answers the first `n` records stored after `written` hold.
pub open spec fn answers_after(
    records: Seq<AnswerRecord>,
    written: Option<Seq<char>>,
    n: int,
) -> nat
    decreases n,
{
    if n <= 0 || n > records.len() {
        0
    } else {
        let before = answers_after(records, written, n - 1);
        let is_later = match written {
            Some(time) => order::listed_before(time, records[n - 1].at@),
            None => true,
        };
        if is_later {
            before + records[n - 1].answers@.len()
        } else {
            before
        }
    }
}

proof fn lemma_answers_ascend(
    records: Seq<AnswerRecord>,
    written: Option<Seq<char>>,
    m: int,
    n: int,
)
    requires
        0 <= m <= n <= records.len(),
    ensures
        answers_after(records, written, m) <= answers_after(records, written, n),
    decreases n - m,
{
    if m < n {
        lemma_answers_ascend(records, written, m, n - 1);
    }
}

fn find_written_at(messages: &[ChatMessage]) -> (r: Option<&str>)
    ensures
        model::optional_str(r) == written_at(messages@),
{
    let mut n: usize = messages.len();
    while n > 0
        invariant
            n <= messages@.len(),
            latest_write(messages@, messages@.len() as int) == latest_write(messages@, n as int),
        decreases n,
    {
        if *messages[n - 1].role.as_str() == *"assistant" && messages[n - 1].artifacts.len() > 0 {
            return borrowed(&messages[n - 1].at);
        }
        n -= 1;
    }
    None
}

/// How many questions the user answered since the last turn that wrote
/// artifacts: the answers that belong to the current request. Every answer
/// counts while nothing was written yet.
pub fn answers_since_last_write(messages: &[ChatMessage], records: &[AnswerRecord]) -> (r: usize)
    requires
        answers_after(records@, written_at(messages@), records@.len() as int) <= usize::MAX,
    ensures
        r == answers_after(records@, written_at(messages@), records@.len() as int),
{
    let written = find_written_at(messages);
    let ghost at = written_at(messages@);
    let mut count: usize = 0;
    let mut n: usize = 0;
    while n < records.len()
        invariant
            n <= records@.len(),
            model::optional_str(written) == at,
            count == answers_after(records@, at, n as int),
            answers_after(records@, at, records@.len() as int) <= usize::MAX,
        decreases records@.len() - n,
    {
        proof {
            lemma_answers_ascend(records@, at, n + 1, records@.len() as int);
        }
        let is_later = match written {
            Some(time) => stands_before(&chars_of(time), &chars_of(records[n].at.as_str())),
            None => true,
        };
        if is_later {
            count += records[n].answers.len();
        }
        n += 1;
    }
    count
}

// -- Continue requests ------------------------------------------------------

/// The artifacts of the continue requests at the end of the first `n`
/// messages, newest first, behind those in `ids`.
pub open spec fn continues_before(
    messages: Seq<ChatMessage>,
    n: int,
    ids: Seq<Seq<char>>,
) -> Seq<Seq<char>>
    decreases n,
{
    if n <= 0 || n > messages.len() {
        ids
    } else {
        let message = messages[n - 1];
        if !is_user(message) {
            continues_before(messages, n - 1, ids)
        } else if !message.is_continue {
            ids
        } else {
            match model::optional(message.design) {
                Some(id) => if ids.contains(id) {
                    continues_before(messages, n - 1, ids)
                } else {
                    continues_before(messages, n - 1, ids.push(id))
                },
                None => continues_before(messages, n - 1, ids),
            }
        }
    }
}

/// The artifacts of the continue requests at the end of the messages, newest
/// last, without repeats.
pub open spec fn trailing_continues(messages: Seq<ChatMessage>) -> Seq<Seq<char>> {
    continues_before(messages, messages.len() as int, Seq::empty()).reverse()
}

/// True when `ids` holds `id`.
pub fn holds(ids: &[String], id: &str) -> (r: bool)
    ensures
        r == text::strings(ids@).contains(id@),
{
    let mut k: usize = 0;
    while k < ids.len()
        invariant
            k <= ids@.len(),
            forall|j: int| 0 <= j < k ==> text::strings(ids@)[j] != id@,
        decreases ids@.len() - k,
    {
        if *ids[k].as_str() == *id {
            assert(text::strings(ids@)[k as int] == id@);
            return true;
        }
        k += 1;
    }
    false
}

fn reversed(ids: &[String]) -> (r: Vec<String>)
    ensures
        text::strings(r@) == text::strings(ids@).reverse(),
{
    let mut r: Vec<String> = Vec::new();
    let mut k: usize = ids.len();
    while k > 0
        invariant
            k <= ids@.len(),
            r@.len() + k == ids@.len(),
            forall|j: int| 0 <= j < r@.len() ==> #[trigger] r@[j] == ids@[ids@.len() - 1 - j],
        decreases k,
    {
        k -= 1;
        r.push(ids[k].duplicate());
    }
    assert(text::strings(r@) =~= text::strings(ids@).reverse());
    r
}

/// The artifact ids of the continue requests at the end of `messages`,
/// newest last, without repeats.
///
/// The walk stops at the first user message that is not a continue: a
/// request from an earlier turn is that turn's business. Pressing Finish on
/// three candidates in a row therefore continues all three.
pub fn trailing_continue_ids(messages: &[ChatMessage]) -> (r: Vec<String>)
    ensures
        text::strings(r@) == trailing_continues(messages@),
{
    let mut ids: Vec<String> = Vec::new();
    let mut n: usize = messages.len();
    let ghost all = continues_before(messages@, messages@.len() as int, Seq::empty());
    assert(text::strings(ids@) =~= Seq::<Seq<char>>::empty());
    while n > 0
        invariant_except_break
            n <= messages@.len(),
            all == continues_before(messages@, n as int, text::strings(ids@)),
        ensures
            all == text::strings(ids@),
        decreases n,
    {
        let message = &messages[n - 1];
        n -= 1;
        if *message.role.as_str() == *"user" {
            if !message.is_continue {
                break;
            }
            if let Some(id) = &message.design {
                if !holds(&ids, id.as_str()) {
                    let ghost before = text::strings(ids@);
                    ids.push(id.clone());
                    assert(text::strings(ids@) =~= before.push(id@));
                }
            }
        }
    }
    reversed(&ids)
}

/// The ids of `requested` that are not in `started`, in order.
pub open spec fn fresh(requested: Seq<Seq<char>>, started: Seq<Seq<char>>) -> Seq<Seq<char>> {
    requested.filter(|id: Seq<char>| !started.contains(id))
}

/// The continue requests that are not running yet: a Finish pressed after
/// the turn read its task. Each id is tried once.
pub fn late_continue_ids(requested: &[String], started: &[String]) -> (r: Vec<String>)
    ensures
        text::strings(r@) == fresh(text::strings(requested@), text::strings(started@)),
{
    let ghost all = text::strings(requested@);
    let ghost known = text::strings(started@);
    let ghost is_new = |id: Seq<char>| !known.contains(id);
    let mut r: Vec<String> = Vec::new();
    let mut k: usize = 0;
    proof {
        reveal(Seq::filter);
        assert(text::strings(r@) =~= all.take(0).filter(is_new));
    }
    while k < requested.len()
        invariant
            k <= requested@.len(),
            all == text::strings(requested@),
            known == text::strings(started@),
            is_new == (|id: Seq<char>| !known.contains(id)),
            text::strings(r@) == all.take(k as int).filter(is_new),
        decreases requested@.len() - k,
    {
        let ghost before = text::strings(r@);
        proof {
            reveal(Seq::filter);
            assert(all.take(k + 1).drop_last() =~= all.take(k as int));
            assert(all.take(k + 1).last() == requested@[k as int]@);
        }
        if !holds(started, requested[k].as_str()) {
            r.push(requested[k].duplicate());
            assert(text::strings(r@) =~= before.push(requested@[k as int]@));
        }
        k += 1;
    }
    assert(all.take(k as int) =~= all);
    r
}

// -- Laws -------------------------------------------------------------------

/// No artifact is continued twice.
pub proof fn law_each_preview_is_continued_once(messages: Seq<ChatMessage>)
    ensures
        trailing_continues(messages).no_duplicates(),
{
    let all = continues_before(messages, messages.len() as int, Seq::empty());
    lemma_continues(messages, messages.len() as int, Seq::empty());
    assert forall|i: int, j: int|
        0 <= i < all.len() && 0 <= j < all.len() && i != j implies all.reverse()[i]
        != all.reverse()[j] by {
        assert(all[all.len() - 1 - i] != all[all.len() - 1 - j]);
    }
}

proof fn lemma_continues(messages: Seq<ChatMessage>, n: int, ids: Seq<Seq<char>>)
    requires
        ids.no_duplicates(),
    ensures
        continues_before(messages, n, ids).no_duplicates(),
    decreases n,
{
    if 0 < n <= messages.len() {
        let message = messages[n - 1];
        lemma_continues(messages, n - 1, ids);
        if let Some(id) = model::optional(message.design) {
            if !ids.contains(id) {
                lemma_continues(messages, n - 1, ids.push(id));
            }
        }
    }
}

/// What stands before a user's plain request does not continue anything.
pub proof fn law_an_earlier_turn_is_its_own_business(
    earlier: Seq<ChatMessage>,
    request: ChatMessage,
    later: Seq<ChatMessage>,
)
    requires
        is_user(request),
        !request.is_continue,
    ensures
        trailing_continues(earlier.push(request) + later) == trailing_continues(later),
{
    let all = earlier.push(request) + later;
    lemma_request_ends_the_walk(earlier, request, later, later.len() as int, Seq::empty());
}

proof fn lemma_request_ends_the_walk(
    earlier: Seq<ChatMessage>,
    request: ChatMessage,
    later: Seq<ChatMessage>,
    n: int,
    ids: Seq<Seq<char>>,
)
    requires
        is_user(request),
        !request.is_continue,
        0 <= n <= later.len(),
    ensures
        continues_before(earlier.push(request) + later, earlier.len() + 1 + n, ids)
            == continues_before(later, n, ids),
    decreases n,
{
    let all = earlier.push(request) + later;
    if n == 0 {
        assert(all[earlier.len() as int] == request);
    } else {
        let message = later[n - 1];
        assert(all[earlier.len() + n] == message);
        lemma_request_ends_the_walk(earlier, request, later, n - 1, ids);
        if let Some(id) = model::optional(message.design) {
            lemma_request_ends_the_walk(earlier, request, later, n - 1, ids.push(id));
        }
    }
}

/// A late continue is never one that runs already.
pub proof fn law_late_continues_are_new(
    requested: Seq<Seq<char>>,
    started: Seq<Seq<char>>,
    id: Seq<char>,
)
    ensures
        fresh(requested, started).contains(id) <==> requested.contains(id) && !started.contains(id),
{
    let is_new = |other: Seq<char>| !started.contains(other);
    if fresh(requested, started).contains(id) {
        let i = choose|i: int|
            0 <= i < fresh(requested, started).len() && fresh(requested, started)[i] == id;
        requested.lemma_filter_pred(is_new, i);
        requested.lemma_filter_contains_rev(is_new, id);
        assert(is_new(id));
    }
    if requested.contains(id) && !started.contains(id) {
        let k = choose|k: int| 0 <= k < requested.len() && requested[k] == id;
        requested.lemma_filter_contains(is_new, k);
    }
}

/// True when message `i` is the last in which the user speaks.
pub open spec fn is_last_turn(messages: Seq<ChatMessage>, i: int) -> bool {
    &&& 0 <= i < messages.len()
    &&& messages[i].role@ == "user"@
    &&& forall|j: int| i < j < messages.len() ==> (#[trigger] messages[j]).role@ != "user"@
}

proof fn lemma_last_turn(messages: Seq<ChatMessage>, i: int, n: int)
    requires
        is_last_turn(messages, i),
        i < n <= messages.len(),
    ensures
        latest_user(messages, n) == Some(i),
    decreases n,
{
    if n - 1 > i {
        lemma_last_turn(messages, i, n - 1);
    }
}

/// The user's last turn says what it is about: the candidates it pins, in
/// order; else the artifact it is open on; else the chosen one, when there is
/// one.
pub proof fn law_the_last_turn_names_its_targets(
    messages: Seq<ChatMessage>,
    chosen: Option<Seq<char>>,
    i: int,
)
    requires
        is_last_turn(messages, i),
    ensures
        messages[i].pinned@.len() > 0 ==> targets(messages, chosen) == text::strings(
            messages[i].pinned@,
        ),
        messages[i].pinned@.len() == 0 && messages[i].design is Some ==> targets(messages, chosen)
            == seq![messages[i].design->0@],
        messages[i].pinned@.len() == 0 && messages[i].design is None && chosen is Some ==> targets(
            messages,
            chosen,
        ) == seq![chosen->0],
        messages[i].pinned@.len() == 0 && messages[i].design is None && chosen is None ==> targets(
            messages,
            chosen,
        ) == Seq::<Seq<char>>::empty(),
{
    lemma_last_turn(messages, i, messages.len() as int);
}

proof fn lemma_latest_write(messages: Seq<ChatMessage>, i: int, n: int)
    requires
        0 <= i < n <= messages.len(),
        messages[i].role@ == "assistant"@,
        messages[i].artifacts@.len() > 0,
        forall|j: int|
            i < j < messages.len() ==> (#[trigger] messages[j]).role@ != "assistant"@
                || messages[j].artifacts@.len() == 0,
    ensures
        latest_write(messages, n) == Some(i),
    decreases n,
{
    if n - 1 > i {
        lemma_latest_write(messages, i, n - 1);
    }
}

/// The time of the last write is that of the last message of the assistant
/// that names artifacts.
pub proof fn law_the_last_write_is_the_latest(messages: Seq<ChatMessage>, i: int)
    requires
        0 <= i < messages.len(),
        messages[i].role@ == "assistant"@,
        messages[i].artifacts@.len() > 0,
        forall|j: int|
            i < j < messages.len() ==> (#[trigger] messages[j]).role@ != "assistant"@
                || messages[j].artifacts@.len() == 0,
    ensures
        written_at(messages) == model::optional(messages[i].at),
{
    lemma_latest_write(messages, i, messages.len() as int);
}

proof fn lemma_answers_of_prefix(
    a: Seq<AnswerRecord>,
    b: Seq<AnswerRecord>,
    written: Option<Seq<char>>,
    n: int,
)
    requires
        0 <= n <= a.len(),
    ensures
        answers_after(a + b, written, n) == answers_after(a, written, n),
    decreases n,
{
    if n > 0 {
        lemma_answers_of_prefix(a, b, written, n - 1);
        assert((a + b)[n - 1] == a[n - 1]);
    }
}

/// The answers of a request add up, record by record: those stored after the
/// last write count, and all of them before anything was written.
pub proof fn law_answers_add_up(
    a: Seq<AnswerRecord>,
    b: Seq<AnswerRecord>,
    written: Option<Seq<char>>,
)
    ensures
        answers_after(a + b, written, (a + b).len() as int) == answers_after(
            a,
            written,
            a.len() as int,
        ) + answers_after(b, written, b.len() as int),
        a.len() == 1 ==> answers_after(a, written, 1) == (match written {
            Some(time) => if order::listed_before(time, a[0].at@) {
                a[0].answers@.len()
            } else {
                0
            },
            None => a[0].answers@.len(),
        }),
    decreases b.len(),
{
    reveal_with_fuel(answers_after, 2);
    if b.len() == 0 {
        assert(a + b =~= a);
    } else {
        let rest = b.drop_last();
        let tail = seq![b.last()];
        law_answers_add_up(a, rest, written);
        assert(a + b =~= (a + rest) + tail);
        assert(b =~= rest + tail);
        lemma_answers_of_prefix(a + rest, tail, written, (a + rest).len() as int);
        lemma_answers_of_prefix(rest, tail, written, rest.len() as int);
    }
}

/// The ids but one, in order.
pub open spec fn without(ids: Seq<Seq<char>>, id: Seq<char>) -> Seq<Seq<char>> {
    ids.filter(|other: Seq<char>| other != id)
}

proof fn lemma_without_push(ids: Seq<Seq<char>>, last: Seq<char>, id: Seq<char>)
    ensures
        without(ids.push(last), id) == if last == id {
            without(ids, id)
        } else {
            without(ids, id).push(last)
        },
{
    reveal(Seq::filter);
    assert(ids.push(last).drop_last() =~= ids);
}

proof fn lemma_without_none(id: Seq<char>)
    ensures
        without(Seq::empty(), id) == Seq::<Seq<char>>::empty(),
{
    reveal(Seq::filter);
}

proof fn lemma_without_contains(ids: Seq<Seq<char>>, id: Seq<char>, other: Seq<char>)
    ensures
        without(ids, id).contains(other) <==> ids.contains(other) && other != id,
    decreases ids.len(),
{
    if ids.len() == 0 {
        lemma_without_none(id);
        assert(ids =~= Seq::<Seq<char>>::empty());
    } else {
        let rest = ids.drop_last();
        let last = ids.last();
        lemma_without_contains(rest, id, other);
        lemma_without_push(rest, last, id);
        assert(rest.push(last) =~= ids);
        lemma_pushed_contains(rest, last, other);
        lemma_pushed_contains(without(rest, id), last, other);
    }
}

proof fn lemma_pushed_contains(ids: Seq<Seq<char>>, last: Seq<char>, other: Seq<char>)
    ensures
        ids.push(last).contains(other) <==> ids.contains(other) || other == last,
{
    let all = ids.push(last);
    if ids.contains(other) {
        let k = choose|k: int| 0 <= k < ids.len() && ids[k] == other;
        assert(all[k] == other);
    }
    if other == last {
        assert(all[ids.len() as int] == other);
    }
    if all.contains(other) && other != last {
        let k = choose|k: int| 0 <= k < all.len() && all[k] == other;
        assert(ids[k] == other);
    }
}

proof fn lemma_without_first(first: Seq<char>, ids: Seq<Seq<char>>, id: Seq<char>)
    ensures
        without(seq![first] + ids, id) == (if first == id {
            Seq::empty()
        } else {
            seq![first]
        }) + without(ids, id),
    decreases ids.len(),
{
    let all = seq![first] + ids;
    let head = if first == id {
        Seq::<Seq<char>>::empty()
    } else {
        seq![first]
    };
    if ids.len() == 0 {
        lemma_without_none(id);
        assert(ids =~= Seq::<Seq<char>>::empty());
        lemma_without_push(Seq::empty(), first, id);
        assert(all =~= Seq::<Seq<char>>::empty().push(first));
        assert(without(all, id) =~= head + without(ids, id));
    } else {
        let rest = ids.drop_last();
        let last = ids.last();
        lemma_without_first(first, rest, id);
        lemma_without_push(seq![first] + rest, last, id);
        lemma_without_push(rest, last, id);
        assert((seq![first] + rest).push(last) =~= all);
        assert(rest.push(last) =~= ids);
        assert(without(all, id) =~= head + without(ids, id));
    }
}

proof fn lemma_without_reversed(ids: Seq<Seq<char>>, id: Seq<char>)
    ensures
        without(ids.reverse(), id) == without(ids, id).reverse(),
    decreases ids.len(),
{
    if ids.len() == 0 {
        lemma_without_none(id);
        assert(ids =~= Seq::<Seq<char>>::empty());
        assert(ids.reverse() =~= ids);
        assert(without(ids, id).reverse() =~= without(ids, id));
    } else {
        let rest = ids.drop_last();
        let last = ids.last();
        lemma_without_reversed(rest, id);
        lemma_without_push(rest, last, id);
        lemma_without_first(last, rest.reverse(), id);
        assert(rest.push(last) =~= ids);
        assert(ids.reverse() =~= seq![last] + rest.reverse());
        assert(without(ids, id).reverse() =~= without(ids.reverse(), id));
    }
}

proof fn lemma_press_comes_first(
    messages: Seq<ChatMessage>,
    n: int,
    ids: Seq<Seq<char>>,
    id: Seq<char>,
)
    ensures
        continues_before(messages, n, seq![id] + without(ids, id)) == seq![id] + without(
            continues_before(messages, n, ids),
            id,
        ),
    decreases n,
{
    let kept = without(ids, id);
    let listed = seq![id] + kept;
    if n > 0 && n <= messages.len() {
        let message = messages[n - 1];
        if !is_user(message) {
            lemma_press_comes_first(messages, n - 1, ids, id);
        } else if message.is_continue {
            lemma_press_comes_first(messages, n - 1, ids, id);
            if let Some(named) = model::optional(message.design) {
                lemma_press_comes_first(messages, n - 1, ids.push(named), id);
                lemma_without_push(ids, named, id);
                lemma_without_contains(ids, id, named);
                assert(listed[0] == id);
                if named == id {
                    assert(listed.contains(named));
                } else {
                    assert(listed.contains(named) == kept.contains(named)) by {
                        if kept.contains(named) {
                            let j = choose|j: int| 0 <= j < kept.len() && kept[j] == named;
                            assert(listed[j + 1] == named);
                        }
                        if listed.contains(named) {
                            let j = choose|j: int| 0 <= j < listed.len() && listed[j] == named;
                            assert(kept[j - 1] == named);
                        }
                    }
                    assert(listed.push(named) =~= seq![id] + kept.push(named));
                }
            }
        }
    }
}

proof fn lemma_continues_of_prefix(
    messages: Seq<ChatMessage>,
    last: ChatMessage,
    n: int,
    ids: Seq<Seq<char>>,
)
    requires
        0 <= n <= messages.len(),
    ensures
        continues_before(messages.push(last), n, ids) == continues_before(messages, n, ids),
    decreases n,
{
    if n > 0 {
        assert(messages.push(last)[n - 1] == messages[n - 1]);
        lemma_continues_of_prefix(messages, last, n - 1, ids);
        if let Some(id) = model::optional(messages[n - 1].design) {
            lemma_continues_of_prefix(messages, last, n - 1, ids.push(id));
        }
    }
}

/// The user's next press comes last among the previews to continue, once; any
/// other request of the user starts anew; and what the assistant says in
/// between changes nothing.
pub proof fn law_the_latest_press_comes_last(messages: Seq<ChatMessage>, next: ChatMessage)
    ensures
        !is_user(next) ==> trailing_continues(messages.push(next)) == trailing_continues(messages),
        is_user(next) && !next.is_continue ==> trailing_continues(messages.push(next)) == Seq::<
            Seq<char>,
        >::empty(),
        is_user(next) && next.is_continue && next.design is Some ==> trailing_continues(
            messages.push(next),
        ) == without(trailing_continues(messages), next.design->0@).push(next.design->0@),
        is_user(next) && next.is_continue && next.design is None ==> trailing_continues(
            messages.push(next),
        ) == trailing_continues(messages),
{
    let n = messages.len() as int;
    let none = Seq::<Seq<char>>::empty();
    assert(messages.push(next)[n] == next);
    lemma_continues_of_prefix(messages, next, n, none);
    if is_user(next) && !next.is_continue {
        assert(none.reverse() =~= none);
    }
    if is_user(next) && next.is_continue && next.design is Some {
        let id = next.design->0@;
        lemma_continues_of_prefix(messages, next, n, none.push(id));
        lemma_press_comes_first(messages, n, none, id);
        lemma_without_none(id);
        let before = continues_before(messages, n, none);
        assert(seq![id] + without(none, id) =~= none.push(id));
        assert(!none.contains(id));
        lemma_without_reversed(before, id);
        assert((seq![id] + without(before, id)).reverse() =~= without(before, id).reverse().push(
            id,
        ));
    }
}

} // verus!
