//! What of a request reaches the model, and what of the model's replies reaches
//! the caller.

use vstd::prelude::*;

use crate::binary64::{law_order_by_value, Binary64};
use crate::candidate::{law_split, shared_prefix, Entry};
use crate::chat::reasoning_in;
use crate::classify::{
    most_probable, Action, ClassifyResponse, Course, Matter, Need, Point, Verdict,
};
use crate::coherence::{
    law_accepted, law_asked_texts, law_classification_coherent, law_place_outcome,
};
use crate::error::Failure;
use crate::formula::Term;
use crate::outcome::{place_outcome, World};
use crate::prompt::prompt_text;
use crate::request::ClassifyRequest;
use crate::scoring::{
    child, measures, next_move, Move, Open, Place, Progress, Rules, Stage,
};
use crate::tokens::{law_matching, matching};
use crate::verdict::law_most_probable;

verus! {

/// What a response holds is what its fields hold.
pub proof fn law_response_holds(response: ClassifyResponse)
    ensures
        response@.model == response.model@,
        response@.answer == response.answer@,
        response@.probability_scope == response.probability_scope@,
        response@.shared_prefix_removed == response.shared_prefix_removed@,
        response@.thinking_budget == response.thinking_budget,
        response@.vllm_requests == response.vllm_requests,
        response@.candidate_logprobs.len() == response.candidate_logprobs@.len(),
        forall|i: int|
            0 <= i < response.candidate_logprobs@.len() ==> (
            #[trigger] response@.candidate_logprobs[i]).0 == response.candidate_logprobs@[i].0@
                && response@.candidate_logprobs[i].1 == response.candidate_logprobs@[i].1,
        response@.candidate_probabilities.len() == response.candidate_probabilities@.len(),
        forall|i: int|
            0 <= i < response.candidate_probabilities@.len() ==> (
            #[trigger] response@.candidate_probabilities[i]).0
                == response.candidate_probabilities@[i].0@ && response@.candidate_probabilities[i].1
                == response.candidate_probabilities@[i].1,
{
}

/// What an action holds is what it was made of.
pub proof fn law_action_holds(action: Action)
    ensures
        match action {
            Action::Reason(payload) => action@ == Need::Reason(payload@),
            Action::Continue(payload) => action@ == Need::Continue(payload@),
            Action::Compute(list) => action@ matches Need::Compute(terms) && terms.len()
                == list@.len() && forall|i: int|
                0 <= i < terms.len() ==> #[trigger] terms[i] == list@[i]@,
            Action::Describe(number) => action@ == Need::Describe(number),
            Action::Finish => action@ == Need::Finish,
        },
{
}

/// A classification begins by having the model think: the model that the request
/// names, or else the service's own, is given the prompt of the request's own
/// state, question and trimmed options, and the request's thinking budget.
pub proof fn law_thinking_asked(model: Seq<char>, request: ClassifyRequest)
    ensures
        Course::initial(Matter::of(model, request)).need() matches Need::Reason(call) && {
            &&& call.model == (match request.model {
                Some(name) => name@,
                None => model,
            })
            &&& call.messages.len() == 2
            &&& call.messages[1].role == "user"@
            &&& call.messages[1].content == prompt_text(
                request.state@,
                request.question@,
                request.offered(),
                None,
            )
            &&& call.thinking_token_budget == request.thinking_budget
            &&& request.thinking_budget + 16 <= usize::MAX ==> call.max_tokens
                == request.thinking_budget + 16
        },
{
}

impl Course {
    /// The walk goes by the rules of the matter, under what the model thought.
    spec fn ruled(self, w: World) -> bool {
        self.point matches Point::Scoring(walk) ==> (w.thoughts(
            self.matter.reasoning_call(),
        ) matches Ok(reasoning) && walk.rules == self.matter.rules(reasoning))
    }
}

/// A classification stays about the same matter and under the same rules.
proof fn lemma_ruled(w: World, course: Course, n: nat)
    requires
        course.ruled(w),
    ensures
        course.run(w, n).ruled(w),
        course.run(w, n).matter == course.matter,
    decreases n,
{
    if n > 0 {
        let next = course.step(w);
        match course.point {
            Point::Scoring(walk) => {
                assert(walk.step(w).rules == walk.rules);
                if !(walk.want() is Nothing) {
                    assert(next == course.walked(walk.step(w)));
                }
            },
            _ => {},
        }
        assert(next.ruled(w));
        lemma_ruled(w, next, (n - 1) as nat);
    }
}

/// Whenever the options of a request are being scored, the request's own limits
/// hold: how many tokens may be spent, how many alternatives are asked for, and
/// how much probability they may leave out.
pub proof fn law_limits_kept(w: World, model: Seq<char>, request: ClassifyRequest, n: nat)
    ensures
        Course::initial(Matter::of(model, request)).run(w, n).point matches Point::Scoring(walk)
            ==> walk.rules.max_tokens == request.max_tokens && walk.rules.top_logprobs
            == request.top_logprobs && walk.rules.mass_tolerance == request.mass_tolerance,
{
    lemma_ruled(w, Course::initial(Matter::of(model, request)), n);
}

/// Whenever the model is asked how it goes on, after any number of steps and
/// whatever it replied before, the model that the request names, or else the
/// service's own, is given the prompt of the request's own state, question and
/// trimmed options with what the model thought, and is asked for the request's
/// own number of alternatives to one token. A model without thoughts is not
/// asked.
pub proof fn law_continuation_asked(w: World, model: Seq<char>, request: ClassifyRequest, n: nat)
    ensures
        ({
            let start = Course::initial(Matter::of(model, request));
            start.run(w, n).need() matches Need::Continue(call) ==> ((w.reasoning)(
                start.need()->Reason_0,
            ) matches Ok(response) && (reasoning_in(response) matches Ok(reasoning) && {
                &&& call.model == (match request.model {
                    Some(name) => name@,
                    None => model,
                })
                &&& call.messages.len() == 3
                &&& call.messages[1].role == "user"@
                &&& call.messages[1].content == prompt_text(
                    request.state@,
                    request.question@,
                    request.offered(),
                    Some(reasoning),
                )
                &&& call.top_logprobs == request.top_logprobs
                &&& call.max_tokens == 1
            }))
        }),
{
    let start = Course::initial(Matter::of(model, request));
    lemma_ruled(w, start, n);
}

impl Place {
    /// Every option that the text so far may still become is a candidate.
    pub open spec fn complete(self, options: Seq<Seq<char>>, lead: Seq<char>) -> bool {
        forall|i: int|
            0 <= i < options.len() && self.generated.is_prefix_of(lead + #[trigger] options[i])
                ==> exists|k: int|
                0 <= k < self.candidates.len() && (#[trigger] self.candidates[k]).label
                    == options[i]
    }
}

impl Progress {
    /// Every place of the walk is complete.
    pub open spec fn complete(self, options: Seq<Seq<char>>, lead: Seq<char>) -> bool {
        &&& forall|i: int|
            0 <= i < self.stack.len() ==> (#[trigger] self.stack[i]).place.complete(options, lead)
        &&& self.here() matches Some(place) ==> place.complete(options, lead)
    }
}

/// A longer text that begins with another leaves its rest to begin with what is
/// added.
proof fn lemma_prefix_rest(a: Seq<char>, b: Seq<char>, c: Seq<char>)
    requires
        (a + b).is_prefix_of(a + c),
    ensures
        b.is_prefix_of(c),
{
    assert forall|i: int| 0 <= i < b.len() implies b[i] == c[i] by {
        assert((a + b)[a.len() + i] == (a + c).subrange(0, (a + b).len() as int)[a.len() + i]);
    }
    assert(b =~= c.subrange(0, b.len() as int));
}

/// A token that leaves several candidates leads to a complete place.
proof fn lemma_child_complete(
    options: Seq<Seq<char>>,
    lead: Seq<char>,
    place: Place,
    token: Seq<char>,
    weight: Binary64,
)
    requires
        place.coherent(options, lead),
        place.complete(options, lead),
    ensures
        child(place, token, matching(place.candidates, token), weight).complete(options, lead),
{
    let found = matching(place.candidates, token);
    let next = child(place, token, found, weight);
    law_matching(place.candidates, token);
    assert forall|i: int|
        0 <= i < options.len() && next.generated.is_prefix_of(lead + #[trigger] options[i]) implies exists|
        k: int,
    |
        0 <= k < next.candidates.len() && (#[trigger] next.candidates[k]).label == options[i] by {
        let whole = lead + options[i];
        assert(place.generated.is_prefix_of(whole)) by {
            assert forall|j: int| 0 <= j < place.generated.len() implies place.generated[j]
                == whole[j] by {
                assert(next.generated[j] == whole.subrange(0, next.generated.len() as int)[j]);
            }
            assert(place.generated =~= whole.subrange(0, place.generated.len() as int));
        }
        let p = choose|p: int|
            0 <= p < place.candidates.len() && (#[trigger] place.candidates[p]).label == options[i];
        assert(place.generated + place.candidates[p].suffix == whole);
        lemma_prefix_rest(place.generated, token, place.candidates[p].suffix);
        assert(place.candidates[p].suffix == place.candidates[p].suffix);
        assert(found.contains(p));
        let k = choose|k: int| 0 <= k < found.len() && found[k] == p;
        assert(next.candidates[k].label == options[i]);
    }
}

/// Going through tokens keeps a walk complete.
proof fn lemma_at_complete(
    options: Seq<Seq<char>>,
    lead: Seq<char>,
    progress: Progress,
    stack: Seq<Open>,
    open: Open,
)
    requires
        forall|i: int|
            0 <= i < stack.len() ==> (#[trigger] stack[i]).place.complete(options, lead),
        open.place.coherent(options, lead),
        open.place.complete(options, lead),
    ensures
        progress.at(stack, open).complete(options, lead),
    decreases open.tokens.len() - open.next,
{
    if open.next < open.tokens.len() {
        let token = open.tokens[open.next as int];
        match next_move(progress.rules, open.place, token) {
            Move::Skip => {
                lemma_at_complete(options, lead, progress, stack, open.skipped());
            },
            Move::Credit(position) => {
                lemma_at_complete(options, lead, progress, stack, open.credited(position));
            },
            Move::Stuck => {},
            Move::Descend(positions) => {
                lemma_child_complete(
                    options,
                    lead,
                    open.place,
                    token,
                    open.branches[open.next as int],
                );
            },
        }
    }
}

/// A step of a coherent walk keeps it complete.
proof fn lemma_step_complete(
    w: World,
    options: Seq<Seq<char>>,
    lead: Seq<char>,
    progress: Progress,
)
    requires
        progress.coherent(options, lead),
        progress.complete(options, lead),
    ensures
        progress.step(w).complete(options, lead),
{
    match progress.stage {
        Stage::Measuring(place, tokens, probabilities) => {
            let values = w.values(
                measures(place.weight, progress.rules.mass_tolerance, probabilities),
            );
            lemma_at_complete(
                options,
                lead,
                progress,
                progress.stack,
                Open::fresh(place, tokens, values.skip(2)),
            );
        },
        Stage::Totalling(open) => {
            if progress.stack.len() > 0 {
                let values = w.values(
                    open.credits.map_values(|credits: Seq<Binary64>| Term::Sum(credits)),
                );
                lemma_at_complete(
                    options,
                    lead,
                    progress,
                    progress.stack.drop_last(),
                    progress.stack.last().returned(values),
                );
            }
        },
        _ => {},
    }
}

/// A classification whose walk is complete keeps it so.
proof fn lemma_course_complete(
    w: World,
    model: Seq<char>,
    request: ClassifyRequest,
    n: nat,
)
    requires
        request.refusal() is None,
    ensures
        Course::initial(Matter::of(model, request)).run(w, n).point matches Point::Scoring(walk)
            ==> walk.complete(request.offered(), " "@),
    decreases n,
{
    let start = Course::initial(Matter::of(model, request));
    if n > 0 {
        let before = start.run(w, (n - 1) as nat);
        lemma_run_last(w, start, (n - 1) as nat);
        lemma_course_complete(w, model, request, (n - 1) as nat);
        law_classification_coherent(w, model, request, (n - 1) as nat);
        lemma_ruled(w, start, (n - 1) as nat);
        match before.point {
            Point::Reasoning(_) => {
                match w.thoughts(before.matter.reasoning_call()) {
                    Ok(reasoning) => {
                        lemma_start_complete(model, request, reasoning);
                    },
                    Err(_) => {},
                }
            },
            Point::Scoring(walk) => {
                lemma_step_complete(w, request.offered(), " "@, walk);
                if !(walk.want() is Nothing) {
                    assert(before.step(w) == before.walked(walk.step(w)));
                }
            },
            _ => {},
        }
    }
}

/// The last of some steps.
proof fn lemma_run_last(w: World, course: Course, n: nat)
    ensures
        course.run(w, n + 1) == course.run(w, n).step(w),
    decreases n,
{
    reveal_with_fuel(Course::run, 2);
    if n > 0 {
        lemma_run_last(w, course.step(w), (n - 1) as nat);
    }
}

/// At the beginning of a walk every option is a candidate.
proof fn lemma_start_complete(model: Seq<char>, request: ClassifyRequest, reasoning: Seq<char>)
    requires
        request.refusal() is None,
    ensures
        Matter::of(model, request).walk(reasoning).complete(request.offered(), " "@),
{
    let offered = request.offered();
    law_accepted(request);
    law_split(offered);
    let place = Matter::of(model, request).walk(reasoning).stage->Asking_0;
    assert forall|i: int|
        0 <= i < offered.len() && place.generated.is_prefix_of(" "@ + #[trigger] offered[i]) implies exists|
        k: int,
    |
        0 <= k < place.candidates.len() && (#[trigger] place.candidates[k]).label == offered[i] by {
        assert(place.candidates[i].label == offered[i]);
    }
}

/// Whenever the model is asked how it goes on, the text that it is given to go
/// on from, followed by each of the texts that it is held to, is the answer
/// that names an option of the request; and every option whose answer begins
/// with that text is among them.
pub proof fn law_choice_asked(w: World, model: Seq<char>, request: ClassifyRequest, n: nat)
    requires
        request.refusal() is None,
    ensures
        Course::initial(Matter::of(model, request)).run(w, n).need() matches Need::Continue(call)
            ==> {
            let said = call.messages[2].content;
            &&& call.messages[2].role == "assistant"@
            &&& call.choice.no_duplicates()
            &&& forall|k: int|
                0 <= k < call.choice.len() ==> (#[trigger] call.choice[k]).len() > 0 && exists|
                    i: int,
                |
                    0 <= i < request.offered().len() && said + call.choice[k] == "choice: "@
                        + #[trigger] request.offered()[i]
            &&& forall|i: int|
                0 <= i < request.offered().len() && said.is_prefix_of(
                    "choice: "@ + #[trigger] request.offered()[i],
                ) ==> exists|k: int|
                    0 <= k < call.choice.len() && said + #[trigger] call.choice[k] == "choice: "@
                        + request.offered()[i]
        },
{
    let offered = request.offered();
    let there = Course::initial(Matter::of(model, request)).run(w, n);
    law_classification_coherent(w, model, request, n);
    lemma_course_complete(w, model, request, n);
    if let Need::Continue(call) = there.need() {
        if let Point::Scoring(walk) = there.point {
            if let Stage::Asking(place) = walk.stage {
                law_asked_texts(offered, walk, place);
                let said = call.messages[2].content;
                assert(call.messages.last() == call.messages[2]);
                assert forall|k: int| 0 <= k < call.choice.len() implies (
                #[trigger] call.choice[k]).len() > 0 && exists|i: int|
                    0 <= i < offered.len() && said + call.choice[k] == "choice: "@
                        + #[trigger] offered[i] by {
                    assert(walk.call(place).choice[k] == call.choice[k]);
                    assert(offered.contains(place.candidates[k].label));
                    let i = choose|i: int|
                        0 <= i < offered.len() && offered[i] == place.candidates[k].label;
                    assert(said + call.choice[k] == "choice: "@ + offered[i]);
                }
                reveal_strlit("choice:");
                reveal_strlit(" ");
                reveal_strlit("choice: ");
                assert forall|i: int|
                    0 <= i < offered.len() && said.is_prefix_of("choice: "@ + #[trigger] offered[i]) implies exists|
                    k: int,
                |
                    0 <= k < call.choice.len() && said + #[trigger] call.choice[k] == "choice: "@
                        + offered[i] by {
                    assert("choice: "@ + offered[i] =~= "choice:"@ + (" "@ + offered[i]));
                    lemma_prefix_rest("choice:"@, place.generated, " "@ + offered[i]);
                    let k = choose|k: int|
                        0 <= k < place.candidates.len() && (#[trigger] place.candidates[k]).label
                            == offered[i];
                    assert(walk.call(place).choice[k] == call.choice[k]);
                    assert(said + call.choice[k] == "choice: "@ + place.candidates[k].label);
                }
            }
        }
    }
}

/// What the classification of an accepted request comes to. The model thinks,
/// and its thoughts go into the prompt under which the place before the first
/// token is scored: there the shared beginning of the options counts as said,
/// every option is a candidate, the way is certain, and no token is spent. A
/// request without a usable reply, and a place without scores, give their own
/// failure; scores whose sum is zero give theirs. Otherwise every option is
/// listed in order with its own score divided by the sum of all scores, and
/// with the logarithm of that very number exactly if it is positive; the answer
/// names the last of the most probable options; and the response names the
/// model that was asked, the request's thinking budget, the shared beginning,
/// and the number of requests: one for the thoughts, and those of the scoring.
pub proof fn law_outcome(w: World, model: Seq<char>, request: ClassifyRequest)
    requires
        request.refusal() is None,
    ensures
        ({
            let name = match request.model {
                Some(name) => name@,
                None => model,
            };
            let offered = request.offered();
            let shared = shared_prefix(offered);
            let out = Matter::of(model, request).outcome(w);
            let thinking = Course::initial(Matter::of(model, request)).need()->Reason_0;
            match (w.reasoning)(thinking) {
                Err(failure) => out == Err::<Verdict, Failure>(failure),
                Ok(response) => match reasoning_in(response) {
                    Err(failure) => out == Err::<Verdict, Failure>(failure),
                    Ok(reasoning) => {
                        let rules = Rules {
                            model: name,
                            prompt: prompt_text(
                                request.state@,
                                request.question@,
                                offered,
                                Some(reasoning),
                            ),
                            top_logprobs: request.top_logprobs,
                            max_tokens: request.max_tokens,
                            mass_tolerance: request.mass_tolerance,
                        };
                        let place = Place {
                            candidates: Seq::new(
                                offered.len(),
                                |i: int|
                                    Entry {
                                        label: offered[i],
                                        suffix: offered[i].skip(shared.len() as int),
                                    },
                            ),
                            generated: " "@ + shared,
                            weight: Binary64 { bits: 0x3FF0_0000_0000_0000 },
                            depth: 0,
                        };
                        match place_outcome(w, rules, place, 0) {
                            Err(failure) => out == Err::<Verdict, Failure>(failure),
                            Ok((scores, requests)) => {
                                let total = (w.value)(Term::Sum(scores));
                                if total.stands_for() == 0 {
                                    out == Err::<Verdict, Failure>(
                                        Failure::Upstream(
                                            "no returned token prefix matched any option"@,
                                        ),
                                    )
                                } else {
                                    out matches Ok(verdict) && {
                                        let listed = verdict.candidate_probabilities;
                                        let logs = verdict.candidate_logprobs;
                                        &&& verdict.model == name
                                        &&& verdict.thinking_budget == request.thinking_budget
                                        &&& verdict.shared_prefix_removed == shared
                                        &&& verdict.probability_scope
                                            == "normalized across the listed options"@
                                        &&& verdict.vllm_requests == requests + 1
                                        &&& listed.len() == offered.len()
                                        &&& logs.len() == offered.len()
                                        &&& forall|i: int|
                                            0 <= i < offered.len() ==> (#[trigger] listed[i]).0
                                                == offered[i] && listed[i].1 == (w.value)(
                                                Term::Quotient(scores[i], total),
                                            )
                                        &&& forall|i: int|
                                            0 <= i < offered.len() ==> (#[trigger] logs[i]).0
                                                == offered[i]
                                        &&& forall|i: int|
                                            0 <= i < offered.len() ==> ((
                                            #[trigger] logs[i]).1 is Some
                                                <==> !listed[i].1.stands_for_nothing()
                                                && listed[i].1.stands_for() > 0)
                                        &&& forall|i: int|
                                            0 <= i < offered.len() ==> ((
                                            #[trigger] logs[i]).1 matches Some(log) ==> log == (
                                            w.value)(Term::Log(listed[i].1)))
                                        &&& exists|i: int|
                                            {
                                                &&& 0 <= i < offered.len()
                                                &&& verdict.answer == "choice: "@
                                                    + #[trigger] offered[i]
                                                &&& forall|j: int|
                                                    0 <= j < offered.len() ==> (
                                                    #[trigger] listed[j]).1.total_rank()
                                                        <= listed[i].1.total_rank()
                                                &&& forall|j: int|
                                                    i < j < offered.len() ==> (
                                                    #[trigger] listed[j]).1.total_rank()
                                                        < listed[i].1.total_rank()
                                            }
                                    }
                                }
                            },
                        }
                    },
                },
            }
        }),
{
    let offered = request.offered();
    let shared = shared_prefix(offered);
    let matter = Matter::of(model, request);
    law_accepted(request);
    match w.thoughts(matter.reasoning_call()) {
        Err(_) => {},
        Ok(reasoning) => {
            let rules = matter.rules(reasoning);
            let place = matter.walk(reasoning).stage->Asking_0;
            assert(place.candidates =~= Seq::new(
                offered.len(),
                |i: int|
                    Entry { label: offered[i], suffix: offered[i].skip(shared.len() as int) },
            ));
            law_place_outcome(w, rules, place, 0);
            match place_outcome(w, rules, place, 0) {
                Err(_) => {},
                Ok((scores, requests)) => {
                    let total = (w.value)(Term::Sum(scores));
                    law_order_by_value(total, total);
                    if !total.zero() {
                        let shares = w.values(
                            scores.map_values(|score: Binary64| Term::Quotient(score, total)),
                        );
                        let verdict = matter.outcome(w)->Ok_0;
                        let listed = verdict.candidate_probabilities;
                        let logs = verdict.candidate_logprobs;
                        assert(verdict == matter.shared_out(w, shares, requests));
                        assert forall|i: int| 0 <= i < offered.len() implies (
                        #[trigger] listed[i]).0 == offered[i] && listed[i].1 == shares[i]
                            && shares[i] == (w.value)(Term::Quotient(scores[i], total)) by {}
                        assert forall|i: int| 0 <= i < offered.len() implies ((
                        #[trigger] logs[i]).1 is Some <==> !listed[i].1.stands_for_nothing()
                            && listed[i].1.stands_for() > 0) && (logs[i].1 matches Some(log) ==> log
                            == (w.value)(Term::Log(listed[i].1))) by {
                            assert(listed[i].1 == shares[i]);
                            law_order_by_value(shares[i], shares[i]);
                        }
                        law_most_probable(shares);
                        let winner = most_probable(shares);
                        assert(verdict.answer == "choice: "@ + offered[winner]);
                        assert(listed[winner].1 == shares[winner]);
                    }
                },
            }
        },
    }
}

/// A step gives a classification what it wants: the reply to its call, or the
/// failure to get one; the value of each formula, in order; or the text of the
/// number. Steps follow one another, and each that makes a call counts as one.
pub proof fn law_steps(w: World, course: Course, n: nat)
    ensures
        match course.need() {
            Need::Reason(call) => match (w.reasoning)(call) {
                Ok(response) => course.step(w) == course.replied(response),
                Err(failure) => course.step(w) == course.failed(failure),
            },
            Need::Continue(call) => match (w.continuation)(course.requests(), call) {
                Ok(response) => course.step(w) == course.replied(response),
                Err(failure) => course.step(w) == course.failed(failure),
            },
            Need::Compute(list) => course.step(w) == course.computed(
                Seq::new(list.len(), |i: int| (w.value)(list[i])),
            ),
            Need::Describe(number) => course.step(w) == course.described((w.described)(number)),
            Need::Finish => course.step(w) == course,
        },
        course.run(w, 0) == course,
        course.run(w, n + 1) == course.run(w, n).step(w),
        course.asked(w, 0) == 0,
        course.asked(w, n + 1) == course.asked(w, n) + (if course.run(w, n).need() is Reason
            || course.run(w, n).need() is Continue {
            1nat
        } else {
            0nat
        }),
{
    lemma_run_last(w, course, n);
    lemma_asked_last(w, course, n);
    if let Need::Compute(list) = course.need() {
        assert(w.values(list) =~= Seq::new(list.len(), |i: int| (w.value)(list[i])));
    }
}

/// The calls of some steps and of one more.
proof fn lemma_asked_last(w: World, course: Course, n: nat)
    ensures
        course.asked(w, n + 1) == course.asked(w, n) + (if course.run(w, n).need() is Reason
            || course.run(w, n).need() is Continue {
            1nat
        } else {
            0nat
        }),
    decreases n,
{
    reveal_with_fuel(Course::asked, 2);
    if n > 0 {
        lemma_asked_last(w, course.step(w), (n - 1) as nat);
    }
}

} // verus!
