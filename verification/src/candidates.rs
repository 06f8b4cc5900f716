//! The candidates of a run: their numbers, their ids, their looks.

use vstd::prelude::*;

use crate::model::Viewport;
use crate::order;
use crate::text;
use crate::text::{decimal_of, owned};

verus! {

/// The id of candidate `number` of a session.
pub open spec fn id_of(base: Seq<char>, number: nat) -> Seq<char> {
    base + "-candidate-"@ + text::decimal(number)
}

/// The id of candidate `number` of a session.
pub fn candidate_id(base: &str, number: usize) -> (r: String)
    ensures
        r@ == id_of(base@, number as nat),
{
    let mut r = owned(base);
    r.append("-candidate-");
    r.append(decimal_of(number as u128).as_str());
    r
}

/// Different candidates have different ids.
pub proof fn law_candidates_have_their_own_ids(base: Seq<char>, a: nat, b: nat)
    requires
        a != b,
    ensures
        id_of(base, a) != id_of(base, b),
{
    let head = base + "-candidate-"@;
    if a < b {
        order::lemma_decimals_ascend(a, b);
    } else {
        order::lemma_decimals_ascend(b, a);
    }
    assert(id_of(base, a).skip(head.len() as int) =~= text::decimal(a));
    assert(id_of(base, b).skip(head.len() as int) =~= text::decimal(b));
}

/// One candidate to write: which variation, which canvas, which id.
///
/// A run writes one design per canvas per variation. The variation number
/// picks the concept and the template; the viewport picks the canvas. The id
/// numbers every candidate straight through.
#[derive(Debug, PartialEq)]
pub struct CandidatePlan {
    /// The id the candidate is saved under.
    pub design_id: String,
    /// Position in the whole run, from one.
    pub candidate_number: usize,
    /// Which variation this is, from one.
    pub variation: usize,
    /// The canvas to write for.
    pub viewport: Viewport,
}

/// A plan as a mathematical value.
pub struct PlanModel {
    pub design_id: Seq<char>,
    pub candidate_number: int,
    pub variation: int,
    pub viewport: Viewport,
}

impl View for CandidatePlan {
    type V = PlanModel;

    open spec fn view(&self) -> PlanModel {
        PlanModel {
            design_id: self.design_id@,
            candidate_number: self.candidate_number as int,
            variation: self.variation as int,
            viewport: self.viewport,
        }
    }
}

/// At least one.
pub open spec fn at_least_one(n: int) -> int {
    if n < 1 {
        1
    } else {
        n
    }
}

/// The `k`th candidate of a run, from zero: the variations of the first
/// canvas, then those of the next.
pub open spec fn plan_at(
    base: Seq<char>,
    viewports: Seq<Viewport>,
    variations: int,
    first_number: int,
    k: int,
) -> PlanModel {
    let each = at_least_one(variations);
    let number = at_least_one(first_number) + k;
    PlanModel {
        design_id: id_of(base, number as nat),
        candidate_number: number,
        variation: k % each + 1,
        viewport: viewports[k / each],
    }
}

/// Every candidate a run writes: `variations` concepts on each canvas, canvas
/// by canvas, numbered from `first_number`. A run numbers after the
/// candidates the session has, so it adds to them instead of overwriting
/// them.
pub fn candidate_plans(
    base: &str,
    viewports: &[Viewport],
    variations: usize,
    first_number: usize,
) -> (plans: Vec<CandidatePlan>)
    requires
        at_least_one(first_number as int) + viewports@.len() * at_least_one(variations as int)
            <= usize::MAX,
    ensures
        plans@.len() == viewports@.len() * at_least_one(variations as int),
        forall|k: int|
            0 <= k < plans@.len() ==> (#[trigger] plans@[k])@ == plan_at(
                base@,
                viewports@,
                variations as int,
                first_number as int,
                k,
            ),
{
    let each: usize = if variations < 1 {
        1
    } else {
        variations
    };
    let first: usize = if first_number < 1 {
        1
    } else {
        first_number
    };
    let mut plans: Vec<CandidatePlan> = Vec::new();
    let mut canvas: usize = 0;
    while canvas < viewports.len()
        invariant
            canvas <= viewports@.len(),
            each == at_least_one(variations as int),
            first == at_least_one(first_number as int),
            first + viewports@.len() * each <= usize::MAX,
            plans@.len() == canvas * each,
            forall|k: int|
                0 <= k < plans@.len() ==> (#[trigger] plans@[k])@ == plan_at(
                    base@,
                    viewports@,
                    variations as int,
                    first_number as int,
                    k,
                ),
        decreases viewports@.len() - canvas,
    {
        proof {
            lemma_row(canvas as int, viewports@.len() as int, each as int);
        }
        let mut done: usize = 0;
        while done < each
            invariant
                canvas < viewports@.len(),
                done <= each,
                each == at_least_one(variations as int),
                first == at_least_one(first_number as int),
                first + viewports@.len() * each <= usize::MAX,
                (canvas + 1) * each <= viewports@.len() * each,
                canvas * each + each == (canvas + 1) * each,
                plans@.len() == canvas * each + done,
                forall|k: int|
                    0 <= k < plans@.len() ==> (#[trigger] plans@[k])@ == plan_at(
                        base@,
                        viewports@,
                        variations as int,
                        first_number as int,
                        k,
                    ),
            decreases each - done,
        {
            let candidate_number: usize = first + plans.len();
            proof {
                lemma_place(canvas as int, done as int, each as int);
            }
            plans.push(
                CandidatePlan {
                    design_id: candidate_id(base, candidate_number),
                    candidate_number,
                    variation: done + 1,
                    viewport: viewports[canvas],
                },
            );
            done += 1;
        }
        canvas += 1;
    }
    plans
}

proof fn lemma_row(canvas: int, canvases: int, each: int)
    requires
        0 <= canvas < canvases,
        0 <= each,
    ensures
        (canvas + 1) * each <= canvases * each,
        canvas * each + each == (canvas + 1) * each,
{
    assert((canvas + 1) * each <= canvases * each) by (nonlinear_arith)
        requires
            canvas + 1 <= canvases,
            0 <= each,
    ;
    assert(canvas * each + each == (canvas + 1) * each) by (nonlinear_arith);
}

proof fn lemma_place(canvas: int, offset: int, each: int)
    requires
        0 <= canvas,
        0 <= offset < each,
    ensures
        (canvas * each + offset) / each == canvas,
        (canvas * each + offset) % each == offset,
{
    vstd::arithmetic::div_mod::lemma_fundamental_div_mod_converse(
        canvas * each + offset,
        each,
        canvas,
        offset,
    );
}

/// The ids of `count` candidates, numbered from `first_number`.
pub fn candidate_ids(base: &str, count: usize, first_number: usize) -> (r: Vec<String>)
    requires
        first_number + count <= usize::MAX,
    ensures
        text::strings(r@) == Seq::new(
            count as nat,
            |k: int| id_of(base@, (first_number + k) as nat),
        ),
{
    let mut r: Vec<String> = Vec::new();
    let mut k: usize = 0;
    while k < count
        invariant
            k <= count,
            first_number + count <= usize::MAX,
            r@.len() == k,
            forall|j: int|
                0 <= j < k ==> (#[trigger] r@[j])@ == id_of(base@, (first_number + j) as nat),
        decreases count - k,
    {
        r.push(candidate_id(base, first_number + k));
        k += 1;
    }
    assert(text::strings(r@) =~= Seq::new(
        count as nat,
        |k: int| id_of(base@, (first_number + k) as nat),
    ));
    r
}

/// How many of the stored artifacts belong to `session`. `sessions` names the
/// session of each stored artifact; `None` is a store that is missing or cannot
/// be read.
pub fn candidate_count(sessions: Option<&[String]>, session: &str) -> (r: usize)
    ensures
        r == match sessions {
            Some(list) => text::strings(list@).filter(|owner: Seq<char>| owner == session@).len(),
            None => 0,
        },
{
    let list = match sessions {
        Some(list) => list,
        None => return 0,
    };
    let ghost owners = text::strings(list@);
    let ghost is_own = |owner: Seq<char>| owner == session@;
    let mut count: usize = 0;
    let mut k: usize = 0;
    assert(owners.take(0).filter(is_own).len() == 0) by {
        reveal(Seq::filter);
    }
    while k < list.len()
        invariant
            k <= list@.len(),
            count <= k,
            owners == text::strings(list@),
            is_own == (|owner: Seq<char>| owner == session@),
            count == owners.take(k as int).filter(is_own).len(),
        decreases list@.len() - k,
    {
        assert(owners.take(k + 1).filter(is_own) == if is_own(owners[k as int]) {
            owners.take(k as int).filter(is_own).push(owners[k as int])
        } else {
            owners.take(k as int).filter(is_own)
        }) by {
            reveal(Seq::filter);
            assert(owners.take(k + 1).drop_last() =~= owners.take(k as int));
            assert(owners.take(k + 1).last() == owners[k as int]);
        }
        if *list[k].as_str() == *session {
            count += 1;
        }
        k += 1;
    }
    assert(owners.take(k as int) =~= owners);
    count
}

/// Which of `templates` looks candidate `candidate_number` takes. Candidates
/// are numbered from one and wrap around the chosen templates, so three looks
/// across five candidates run 1, 2, 3, 1, 2. `None` without a template.
pub fn candidate_template(templates: usize, candidate_number: usize) -> (r: Option<usize>)
    requires
        1 <= candidate_number,
    ensures
        r == if templates == 0 {
            None
        } else {
            Some(((candidate_number - 1) as usize) % templates)
        },
        r matches Some(look) ==> look < templates,
{
    if templates == 0 {
        None
    } else {
        Some((candidate_number - 1) % templates)
    }
}

/// A run that starts past the numbers a session has never overwrites one of
/// its candidates.
pub proof fn law_a_later_run_adds_to_the_earlier(
    base: Seq<char>,
    viewports: Seq<Viewport>,
    variations: int,
    first_number: int,
    k: int,
    earlier: nat,
)
    requires
        0 <= k,
        earlier < first_number,
    ensures
        plan_at(base, viewports, variations, first_number, k).design_id != id_of(base, earlier),
{
    law_candidates_have_their_own_ids(
        base,
        (at_least_one(first_number) + k) as nat,
        earlier,
    );
}

/// A run writes every canvas in every variation: the candidate of a canvas
/// and a variation stands at its place, and counts on from the first number.
pub proof fn law_each_canvas_gets_each_variation(
    base: Seq<char>,
    viewports: Seq<Viewport>,
    variations: int,
    first_number: int,
    canvas: int,
    variation: int,
)
    requires
        0 <= canvas < viewports.len(),
        1 <= variation <= at_least_one(variations),
    ensures
        ({
            let k = canvas * at_least_one(variations) + variation - 1;
            let plan = plan_at(base, viewports, variations, first_number, k);
            &&& 0 <= k < viewports.len() * at_least_one(variations)
            &&& plan.viewport == viewports[canvas]
            &&& plan.variation == variation
            &&& plan.candidate_number == at_least_one(first_number) + k
            &&& plan.design_id == id_of(base, plan.candidate_number as nat)
        }),
{
    let each = at_least_one(variations);
    lemma_place(canvas, variation - 1, each);
    lemma_row(canvas, viewports.len() as int, each);
    assert(0 <= canvas * each) by (nonlinear_arith)
        requires
            0 <= canvas,
            0 <= each,
    ;
}

} // verus!
