//! What a classification comes to, for any model and any arithmetic.

use vstd::prelude::*;

use crate::binary64::{law_order_by_value, Binary64};
use crate::chat::ChatResponse;
use crate::classify::{most_probable, Course, Matter, Need, Point, Verdict};
use crate::error::Failure;
use crate::formula::Term;
use crate::outcome::{law_run_keeps_outcome, law_step_keeps_outcome, law_walk_ends, World};
use crate::request::ClassifyRequest;
use crate::scoring::Progress;

verus! {

impl Matter {
    /// The response to scored options: their scores are divided by the sum of
    /// all, which must not be zero.
    pub open spec fn judged(self, w: World, scores: Seq<Binary64>, requests: nat) -> Result<
        Verdict,
        Failure,
    > {
        let total = (w.value)(Term::Sum(scores));
        if total.zero() {
            Err(Failure::Upstream("no returned token prefix matched any option"@))
        } else {
            Ok(
                self.shared_out(
                    w,
                    w.values(scores.map_values(|score: Binary64| Term::Quotient(score, total))),
                    requests,
                ),
            )
        }
    }

    /// The response to options with the given probabilities.
    pub open spec fn shared_out(self, w: World, shares: Seq<Binary64>, requests: nat) -> Verdict {
        self.verdict(
            shares,
            w.values(shares.map_values(|share: Binary64| Term::Log(share))),
            requests + 1,
        )
    }

    /// The response after the options were scored, or why there is none.
    pub open spec fn scored(
        self,
        w: World,
        outcome: Result<(Seq<Binary64>, nat), Failure>,
    ) -> Result<Verdict, Failure> {
        match outcome {
            Ok((scores, requests)) => self.judged(w, scores, requests),
            Err(failure) => Err(failure),
        }
    }

    /// What a classification comes to: the model thinks, the options are
    /// scored under what it thought, and the scores are made probabilities.
    pub open spec fn outcome(self, w: World) -> Result<Verdict, Failure> {
        match w.thoughts(self.reasoning_call()) {
            Ok(reasoning) => self.scored(w, self.walk(reasoning).outcome(w)),
            Err(failure) => Err(failure),
        }
    }
}

impl Course {
    /// What a classification under way comes to.
    pub open spec fn outcome(self, w: World) -> Result<Verdict, Failure> {
        match self.point {
            Point::Reasoning(_) => self.matter.outcome(w),
            Point::Scoring(walk) => self.matter.scored(w, walk.outcome(w)),
            Point::Summing(scores, requests) => self.matter.judged(w, scores, requests),
            Point::Sharing(scores, total, requests) => Ok(
                self.matter.shared_out(
                    w,
                    w.values(scores.map_values(|score: Binary64| Term::Quotient(score, total))),
                    requests,
                ),
            ),
            Point::Logging(shares, requests) => Ok(self.matter.shared_out(w, shares, requests)),
            Point::Done(verdict) => Ok(verdict),
            Point::Failed(failure) => Err(failure),
        }
    }

    /// After a request to the model, which brought a reply or a failure.
    pub open spec fn answered(self, reply: Result<ChatResponse, Failure>) -> Course {
        match reply {
            Ok(response) => self.replied(response),
            Err(failure) => self.failed(failure),
        }
    }

    /// The failure of the request that the classification now makes, where it
    /// makes one that brings no reply.
    pub open spec fn unanswered(self, w: World) -> Option<Failure> {
        match self.need() {
            Need::Reason(call) => match (w.reasoning)(call) {
                Ok(_) => None,
                Err(failure) => Some(failure),
            },
            Need::Continue(call) => match (w.continuation)(self.requests(), call) {
                Ok(_) => None,
                Err(failure) => Some(failure),
            },
            _ => None,
        }
    }

    /// The classification after its surroundings have given it what it wants.
    pub open spec fn step(self, w: World) -> Course {
        match self.need() {
            Need::Reason(call) => self.answered((w.reasoning)(call)),
            Need::Continue(call) => self.answered((w.continuation)(self.requests(), call)),
            Need::Compute(list) => self.computed(w.values(list)),
            Need::Describe(number) => self.described((w.described)(number)),
            Need::Finish => self,
        }
    }

    /// The classification after `n` steps.
    pub open spec fn run(self, w: World, n: nat) -> Course
        decreases n,
    {
        if n == 0 {
            self
        } else {
            self.step(w).run(w, (n - 1) as nat)
        }
    }

    /// How often the model is asked in `n` steps.
    pub open spec fn asked(self, w: World, n: nat) -> nat
        decreases n,
    {
        if n == 0 {
            0
        } else {
            (if self.need() is Reason || self.need() is Continue {
                1nat
            } else {
                0nat
            }) + self.step(w).asked(w, (n - 1) as nat)
        }
    }

    /// How often the model was asked up to here.
    pub open spec fn spent(self) -> nat {
        match self.point {
            Point::Done(verdict) => verdict.vllm_requests,
            Point::Reasoning(_) => 0,
            _ => self.requests() + 1,
        }
    }
}

impl Course {
    /// The state fits together, but for the bounds that the machine's integers
    /// set.
    pub open spec fn fits(self) -> bool {
        match self.point {
            Point::Scoring(walk) => walk.well_formed() && !walk.settled(),
            _ => true,
        }
    }
}

/// A step changes nothing in what a classification comes to.
pub proof fn law_course_step_keeps_outcome(w: World, course: Course)
    requires
        course.fits(),
    ensures
        course.step(w).outcome(w) == course.outcome(w),
        course.step(w).fits(),
        course.step(w).matter == course.matter,
{
    match course.point {
        Point::Reasoning(_) => {},
        Point::Scoring(walk) => {
            law_step_keeps_outcome(w, walk);
            assert(course.step(w) == course.walked(walk.step(w)));
            let next = walk.step(w);
            if next.settled() {
                assert(next.outcome(w) == next.stage_outcome(w)) by {
                    law_run_keeps_outcome(w, next, 0);
                }
            }
        },
        Point::Summing(scores, requests) => {
            let wanted = seq![Term::Sum(scores)];
            assert(w.values(wanted)[0] == (w.value)(Term::Sum(scores)));
        },
        _ => {},
    }
}

/// Steps change nothing in what a classification comes to, and one that is over
/// stands there with its outcome.
pub proof fn law_course_run_keeps_outcome(w: World, course: Course, n: nat)
    requires
        course.fits(),
    ensures
        course.run(w, n).fits(),
        course.run(w, n).outcome(w) == course.outcome(w),
        course.run(w, n).point matches Point::Done(verdict) ==> course.outcome(w) == Ok::<
            Verdict,
            Failure,
        >(verdict),
        course.run(w, n).point matches Point::Failed(failure) ==> course.outcome(w) == Err::<
            Verdict,
            Failure,
        >(failure),
    decreases n,
{
    if n > 0 {
        law_course_step_keeps_outcome(w, course);
        law_course_run_keeps_outcome(w, course.step(w), (n - 1) as nat);
    }
}

/// A request that brings no reply ends the classification with that very
/// failure: it is what the classification comes to, it stands from then on, and
/// nothing more is asked of the model.
pub proof fn law_failed_request_ends(w: World, course: Course, failure: Failure, n: nat)
    requires
        course.fits(),
        course.unanswered(w) == Some(failure),
    ensures
        course.outcome(w) == Err::<Verdict, Failure>(failure),
        course.run(w, n + 1) == course.failed(failure),
        course.run(w, n + 1).point == Point::Failed(failure),
        course.asked(w, n + 1) == 1,
{
    let next = course.step(w);
    assert(next == course.failed(failure));
    law_course_step_keeps_outcome(w, course);
    lemma_failed_stays(w, next, n);
}

/// The requests that a response reports are those that were made for it.
pub proof fn law_requests_counted(w: World, matter: Matter, n: nat)
    ensures
        Course::initial(matter).run(w, n).point matches Point::Done(verdict) ==> verdict.vllm_requests
            == Course::initial(matter).asked(w, n),
{
    lemma_requests_counted(w, Course::initial(matter), n);
}

/// Each step counts the request that it makes.
proof fn lemma_requests_counted(w: World, course: Course, n: nat)
    requires
        course.fits(),
    ensures
        !(course.run(w, n).point is Failed) ==> course.run(w, n).spent() == course.spent()
            + course.asked(w, n),
    decreases n,
{
    if n > 0 {
        let next = course.step(w);
        law_course_step_keeps_outcome(w, course);
        lemma_requests_counted(w, next, (n - 1) as nat);
        if course.point is Failed {
            lemma_failed_stays(w, course, n);
        } else if next.point is Failed {
            lemma_failed_stays(w, next, (n - 1) as nat);
        }
    }
}

/// A classification that has failed stays so, and asks nothing more.
proof fn lemma_failed_stays(w: World, course: Course, n: nat)
    requires
        course.point is Failed,
    ensures
        course.run(w, n) == course,
        course.asked(w, n) == 0,
    decreases n,
{
    if n > 0 {
        lemma_failed_stays(w, course.step(w), (n - 1) as nat);
    }
}

/// A classification whose options are scored is over after some number of
/// steps.
proof fn lemma_summing_ends(w: World, course: Course)
    requires
        course.point is Summing || course.point is Sharing || course.point is Logging
            || course.finished(),
    ensures
        exists|n: nat| #[trigger] course.run(w, n).finished(),
{
    reveal_with_fuel(Course::run, 4);
    if course.finished() {
        assert(course.run(w, 0).finished());
    } else if course.point is Logging {
        assert(course.run(w, 1) == course.step(w));
        assert(course.run(w, 1).finished());
    } else if course.point is Sharing {
        assert(course.run(w, 2) == course.step(w).step(w));
        assert(course.run(w, 2).finished());
    } else {
        let first = course.step(w);
        assert(course.run(w, 1) == first);
        if first.finished() {
            assert(course.run(w, 1).finished());
        } else {
            assert(first.point is Sharing);
            assert(course.run(w, 3) == first.step(w).step(w));
            assert(course.run(w, 3).finished());
        }
    }
}

/// One step before an end is a step to it.
proof fn lemma_ends_after_step(w: World, course: Course)
    requires
        exists|n: nat| #[trigger] course.step(w).run(w, n).finished(),
    ensures
        exists|n: nat| #[trigger] course.run(w, n).finished(),
{
    let n = choose|n: nat| #[trigger] course.step(w).run(w, n).finished();
    assert(course.run(w, n + 1).finished());
}

/// A classification whose walk is over in `k` steps is over after some number
/// of steps.
proof fn lemma_scoring_ends(w: World, course: Course, walk: Progress, k: nat)
    requires
        course.point == Point::Scoring(walk),
        !walk.settled(),
        walk.run(w, k).settled(),
    ensures
        exists|n: nat| #[trigger] course.run(w, n).finished(),
    decreases k,
{
    if k > 0 {
        let next = course.step(w);
        let further = walk.step(w);
        assert(next == course.walked(further));
        if further.settled() {
            lemma_summing_ends(w, next);
        } else {
            lemma_scoring_ends(w, next, further, (k - 1) as nat);
        }
        lemma_ends_after_step(w, course);
    }
}

/// Whatever the model replies and however numbers are computed, a
/// classification comes to an end, with a response or a failure.
pub proof fn law_classification_ends(w: World, course: Course)
    requires
        course.fits(),
    ensures
        exists|n: nat| #[trigger] course.run(w, n).finished(),
{
    match course.point {
        Point::Reasoning(_) => {
            let next = course.step(w);
            match next.point {
                Point::Scoring(walk) => {
                    law_walk_ends(w, walk);
                    let k = choose|k: nat| #[trigger] walk.run(w, k).settled();
                    lemma_scoring_ends(w, next, walk, k);
                },
                _ => {
                    lemma_summing_ends(w, next);
                },
            }
            lemma_ends_after_step(w, course);
        },
        Point::Scoring(walk) => {
            law_walk_ends(w, walk);
            let k = choose|k: nat| #[trigger] walk.run(w, k).settled();
            lemma_scoring_ends(w, course, walk, k);
        },
        _ => {
            lemma_summing_ends(w, course);
        },
    }
}

/// A request that can be served comes, in some number of steps, to what its
/// matter comes to.
pub proof fn law_classification_arrives(w: World, model: Seq<char>, request: ClassifyRequest)
    ensures
        exists|n: nat|
            {
                let there = #[trigger] Course::initial(Matter::of(model, request)).run(w, n);
                match Matter::of(model, request).outcome(w) {
                    Ok(verdict) => there.point == Point::Done(verdict),
                    Err(failure) => there.point == Point::Failed(failure),
                }
            },
{
    let start = Course::initial(Matter::of(model, request));
    law_classification_ends(w, start);
    let n = choose|n: nat| #[trigger] start.run(w, n).finished();
    law_course_run_keeps_outcome(w, start, n);
}

/// The most probable option is one of the list; none is more probable, and the
/// later ones are less probable.
pub proof fn law_most_probable(shares: Seq<Binary64>)
    requires
        shares.len() >= 1,
    ensures
        0 <= most_probable(shares) < shares.len(),
        forall|i: int|
            0 <= i < shares.len() ==> (#[trigger] shares[i]).total_rank()
                <= shares[most_probable(shares)].total_rank(),
        forall|i: int|
            most_probable(shares) < i < shares.len() ==> (#[trigger] shares[i]).total_rank()
                < shares[most_probable(shares)].total_rank(),
    decreases shares.len(),
{
    if shares.len() > 1 {
        let front = shares.drop_last();
        law_most_probable(front);
        let earlier = most_probable(front);
        assert(front[earlier] == shares[earlier]);
        assert forall|i: int| 0 <= i < shares.len() implies (#[trigger] shares[i]).total_rank()
            <= shares[most_probable(shares)].total_rank() by {
            if i < front.len() {
                assert(front[i] == shares[i]);
            }
        }
        assert forall|i: int| most_probable(shares) < i < shares.len() implies (
        #[trigger] shares[i]).total_rank() < shares[most_probable(shares)].total_rank() by {
            if i < front.len() {
                assert(front[i] == shares[i]);
            }
        }
    }
}

/// The answer names an option, no other option is more probable, every option
/// is listed with its probability in the order of the options, and its
/// logarithm is given exactly where it is positive.
pub proof fn law_verdict(
    matter: Matter,
    shares: Seq<Binary64>,
    logs: Seq<Binary64>,
    requests: nat,
)
    requires
        matter.options.len() >= 1,
        shares.len() == matter.options.len(),
    ensures
        ({
            let verdict = matter.verdict(shares, logs, requests);
            let listed = verdict.candidate_probabilities;
            &&& exists|i: int|
                0 <= i < matter.options.len() && verdict.answer == "choice: "@
                    + #[trigger] matter.options[i] && forall|j: int|
                    0 <= j < listed.len() ==> (#[trigger] listed[j]).1.total_rank()
                        <= shares[i].total_rank()
            &&& listed.len() == matter.options.len()
            &&& verdict.candidate_logprobs.len() == matter.options.len()
            &&& forall|i: int|
                0 <= i < listed.len() ==> (#[trigger] listed[i]).0 == matter.options[i]
            &&& forall|i: int|
                0 <= i < listed.len() ==> (#[trigger] verdict.candidate_logprobs[i]).0
                    == matter.options[i] && (verdict.candidate_logprobs[i].1 is Some
                    <==> listed[i].1.positive())
        }),
{
    law_most_probable(shares);
    let i = most_probable(shares);
    assert(matter.verdict(shares, logs, requests).answer == "choice: "@ + matter.options[i]);
}

/// A response is made of what it is about and of each option's own numbers:
/// every option is listed in its place with the probability and, where that is
/// positive, the logarithm that were given for it.
pub proof fn law_verdict_own_numbers(
    matter: Matter,
    shares: Seq<Binary64>,
    logs: Seq<Binary64>,
    requests: nat,
)
    ensures
        ({
            let verdict = matter.verdict(shares, logs, requests);
            &&& verdict.model == matter.model
            &&& verdict.shared_prefix_removed == matter.shared_prefix
            &&& verdict.thinking_budget == matter.thinking_budget
            &&& verdict.vllm_requests == requests
            &&& verdict.probability_scope == "normalized across the listed options"@
            &&& verdict.candidate_probabilities.len() == matter.options.len()
            &&& verdict.candidate_logprobs.len() == matter.options.len()
            &&& forall|i: int|
                0 <= i < matter.options.len() ==> #[trigger] verdict.candidate_probabilities[i] == (
                matter.options[i],
                shares[i],
                )
            &&& forall|i: int|
                0 <= i < matter.options.len() ==> (#[trigger] verdict.candidate_logprobs[i]).0
                    == matter.options[i] && if !shares[i].stands_for_nothing()
                    && shares[i].stands_for() > 0 {
                    verdict.candidate_logprobs[i].1 == Some(logs[i])
                } else {
                    verdict.candidate_logprobs[i].1 is None
                }
        }),
{
    assert forall|i: int| #[trigger] shares[i].positive() == (!shares[i].stands_for_nothing()
        && shares[i].stands_for() > 0) by {
        law_order_by_value(shares[i], shares[i]);
    }
    let verdict = matter.verdict(shares, logs, requests);
    assert forall|i: int| 0 <= i < matter.options.len() implies (
    #[trigger] verdict.candidate_logprobs[i]).0 == matter.options[i]
        && if !shares[i].stands_for_nothing() && shares[i].stands_for() > 0 {
        verdict.candidate_logprobs[i].1 == Some(logs[i])
    } else {
        verdict.candidate_logprobs[i].1 is None
    } by {
        assert(shares[i].positive() == (!shares[i].stands_for_nothing() && shares[i].stands_for()
            > 0));
    }
}

} // verus!
