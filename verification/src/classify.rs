//! A classification from the request to the response.
//!
//! The model first thinks about the question. Its thoughts go into the prompt
//! under which the options are scored, and the scores are made to add up to one.
//! Like the walk that scores the options, a classification asks its surroundings
//! for what it needs and goes on with each answer.

use vstd::prelude::*;
use vstd::string::*;

use crate::binary64::Binary64;
use crate::candidate::{after, entries, shared_prefix, Candidate, Entry};
use crate::chat::{
    read_reasoning, reasoning_call, reasoning_in, reasoning_payload, ANSWER_MARGIN, ChatResponse,
    Classifier, ReasoningCall, ReasoningPayload, TokenCall, TokenPayload,
};
use crate::error::{ClassifyError, Failure};
use crate::formula::{copied, terms, Formula, Term};
use crate::prompt::{build_prompt, prompt_text};
use crate::request::{accept, ClassifyRequest};
use crate::scoring::{Demand, Phase, Progress, Rules, Scoring, Setting, Stage, Want};
use crate::text::texts;

verus! {

/// What a classification tells its caller.
#[derive(Debug)]
pub struct ClassifyResponse {
    /// The model that was asked.
    pub model: String,
    pub answer: String,
    /// The logarithm of each option's probability, where that is not zero.
    pub candidate_logprobs: Vec<(String, Option<Binary64>)>,
    /// The probability of each option.
    pub candidate_probabilities: Vec<(String, Binary64)>,
    pub probability_scope: &'static str,
    pub shared_prefix_removed: String,
    pub thinking_budget: usize,
    /// How often the model service was asked.
    pub vllm_requests: usize,
}

/// What a `ClassifyResponse` holds.
#[verifier::ext_equal]
pub struct Verdict {
    pub model: Seq<char>,
    pub answer: Seq<char>,
    pub candidate_logprobs: Seq<(Seq<char>, Option<Binary64>)>,
    pub candidate_probabilities: Seq<(Seq<char>, Binary64)>,
    pub probability_scope: Seq<char>,
    pub shared_prefix_removed: Seq<char>,
    pub thinking_budget: usize,
    pub vllm_requests: nat,
}

impl View for ClassifyResponse {
    type V = Verdict;

    open spec fn view(&self) -> Verdict {
        Verdict {
            model: self.model@,
            answer: self.answer@,
            candidate_logprobs: self.candidate_logprobs@.map_values(
                |item: (String, Option<Binary64>)| (item.0@, item.1),
            ),
            candidate_probabilities: self.candidate_probabilities@.map_values(
                |item: (String, Binary64)| (item.0@, item.1),
            ),
            probability_scope: self.probability_scope@,
            shared_prefix_removed: self.shared_prefix_removed@,
            thinking_budget: self.thinking_budget,
            vllm_requests: self.vllm_requests as nat,
        }
    }
}

/// What a classification is about.
#[derive(Debug)]
pub struct Case {
    pub model: String,
    pub state: String,
    pub question: String,
    pub options: Vec<String>,
    pub shared_prefix: String,
    pub thinking_budget: usize,
    pub max_tokens: usize,
    pub top_logprobs: usize,
    pub mass_tolerance: Binary64,
}

/// What a `Case` holds.
#[verifier::ext_equal]
pub struct Matter {
    pub model: Seq<char>,
    pub state: Seq<char>,
    pub question: Seq<char>,
    pub options: Seq<Seq<char>>,
    pub shared_prefix: Seq<char>,
    pub thinking_budget: usize,
    pub max_tokens: usize,
    pub top_logprobs: usize,
    pub mass_tolerance: Binary64,
}

impl View for Case {
    type V = Matter;

    open spec fn view(&self) -> Matter {
        Matter {
            model: self.model@,
            state: self.state@,
            question: self.question@,
            options: texts(self.options@),
            shared_prefix: self.shared_prefix@,
            thinking_budget: self.thinking_budget,
            max_tokens: self.max_tokens,
            top_logprobs: self.top_logprobs,
            mass_tolerance: self.mass_tolerance,
        }
    }
}

impl Matter {
    /// What a request that can be served is about, at a service with the given
    /// model.
    pub open spec fn of(model: Seq<char>, request: ClassifyRequest) -> Matter {
        Matter {
            model: match request.model {
                Some(name) => name@,
                None => model,
            },
            state: request.state@,
            question: request.question@,
            options: request.offered(),
            shared_prefix: shared_prefix(request.offered()),
            thinking_budget: request.thinking_budget,
            max_tokens: request.max_tokens,
            top_logprobs: request.top_logprobs,
            mass_tolerance: request.mass_tolerance,
        }
    }

    /// What is asked first.
    pub open spec fn reasoning_call(self) -> ReasoningCall {
        reasoning_call(
            self.model,
            prompt_text(self.state, self.question, self.options, None),
            self.thinking_budget,
        )
    }

    /// The rules under which the options are scored.
    pub open spec fn rules(self, reasoning: Seq<char>) -> Rules {
        Rules {
            model: self.model,
            prompt: prompt_text(self.state, self.question, self.options, Some(reasoning)),
            top_logprobs: self.top_logprobs,
            max_tokens: self.max_tokens,
            mass_tolerance: self.mass_tolerance,
        }
    }

    /// The walk that scores the options: the shared prefix counts as said.
    pub open spec fn walk(self, reasoning: Seq<char>) -> Progress {
        Progress::initial(
            self.rules(reasoning),
            after(self.options, self.shared_prefix.len() as int),
            " "@ + self.shared_prefix,
        )
    }

    /// The response, given the probabilities of the options, their logarithms,
    /// and the number of requests.
    pub open spec fn verdict(
        self,
        shares: Seq<Binary64>,
        logs: Seq<Binary64>,
        requests: nat,
    ) -> Verdict {
        Verdict {
            model: self.model,
            answer: "choice: "@ + self.options[most_probable(shares)],
            candidate_logprobs: Seq::new(
                self.options.len(),
                |i: int|
                    (
                        self.options[i],
                        if shares[i].positive() {
                            Some(logs[i])
                        } else {
                            None
                        },
                    ),
            ),
            candidate_probabilities: Seq::new(
                self.options.len(),
                |i: int| (self.options[i], shares[i]),
            ),
            probability_scope: "normalized across the listed options"@,
            shared_prefix_removed: self.shared_prefix,
            thinking_budget: self.thinking_budget,
            vllm_requests: requests,
        }
    }
}

/// The position of the greatest number in the total order; of equal ones, the
/// last.
pub open spec fn most_probable(shares: Seq<Binary64>) -> int
    decreases shares.len(),
{
    if shares.len() <= 1 {
        0
    } else {
        let earlier = most_probable(shares.drop_last());
        if shares[earlier].total_rank() <= shares.last().total_rank() {
            shares.len() - 1
        } else {
            earlier
        }
    }
}

/// What a classification is waiting for.
#[derive(Debug)]
pub enum Step {
    /// The model's thoughts about the question.
    Reasoning(Vec<Candidate>),
    /// What the walk wants that scores the options.
    Scoring(Scoring),
    /// The sum of the scores.
    Summing(Vec<Binary64>, usize),
    /// Each score divided by their sum.
    Sharing(Vec<Binary64>, Binary64, usize),
    /// The logarithm of each probability.
    Logging(Vec<Binary64>, usize),
    /// Nothing more: this is the response.
    Done(ClassifyResponse),
    /// Nothing more: this is why there is none.
    Failed(ClassifyError),
}

/// What a `Step` holds.
#[verifier::ext_equal]
pub enum Point {
    Reasoning(Seq<Entry>),
    Scoring(Progress),
    Summing(Seq<Binary64>, nat),
    Sharing(Seq<Binary64>, Binary64, nat),
    Logging(Seq<Binary64>, nat),
    Done(Verdict),
    Failed(Failure),
}

impl View for Step {
    type V = Point;

    open spec fn view(&self) -> Point {
        match self {
            Step::Reasoning(candidates) => Point::Reasoning(entries(candidates@)),
            Step::Scoring(scoring) => Point::Scoring(scoring@),
            Step::Summing(scores, requests) => Point::Summing(scores@, *requests as nat),
            Step::Sharing(scores, total, requests) => Point::Sharing(
                scores@,
                *total,
                *requests as nat,
            ),
            Step::Logging(shares, requests) => Point::Logging(shares@, *requests as nat),
            Step::Done(response) => Point::Done(response@),
            Step::Failed(error) => Point::Failed(error@),
        }
    }
}

/// A classification under way.
#[derive(Debug)]
pub struct Classification {
    pub case: Case,
    pub step: Step,
}

/// What a `Classification` holds.
#[verifier::ext_equal]
pub struct Course {
    pub matter: Matter,
    pub point: Point,
}

impl View for Classification {
    type V = Course;

    open spec fn view(&self) -> Course {
        Course { matter: self.case@, point: self.step@ }
    }
}

/// What a classification wants from its surroundings.
#[derive(Debug)]
pub enum Action {
    /// A reply to this, in which the model thinks.
    Reason(ReasoningPayload),
    /// A reply to this, in which the model goes on with its answer.
    Continue(TokenPayload),
    /// The values of these formulas.
    Compute(Vec<Formula>),
    /// This number with six decimals.
    Describe(Binary64),
    /// Nothing: the classification is over.
    Finish,
}

/// What an `Action` holds.
#[verifier::ext_equal]
pub enum Need {
    Reason(ReasoningCall),
    Continue(TokenCall),
    Compute(Seq<Term>),
    Describe(Binary64),
    Finish,
}

impl View for Action {
    type V = Need;

    open spec fn view(&self) -> Need {
        match self {
            Action::Reason(payload) => Need::Reason(payload@),
            Action::Continue(payload) => Need::Continue(payload@),
            Action::Compute(list) => Need::Compute(terms(list@)),
            Action::Describe(number) => Need::Describe(*number),
            Action::Finish => Need::Finish,
        }
    }
}

impl Course {
    /// The beginning of a classification.
    pub open spec fn initial(matter: Matter) -> Course {
        Course {
            matter,
            point: Point::Reasoning(after(matter.options, matter.shared_prefix.len() as int)),
        }
    }

    /// What the classification wants now.
    pub open spec fn need(self) -> Need {
        match self.point {
            Point::Reasoning(_) => Need::Reason(self.matter.reasoning_call()),
            Point::Scoring(walk) => match walk.want() {
                Want::Ask(call) => Need::Continue(call),
                Want::Compute(list) => Need::Compute(list),
                Want::Describe(number) => Need::Describe(number),
                Want::Nothing => Need::Finish,
            },
            Point::Summing(scores, _) => Need::Compute(seq![Term::Sum(scores)]),
            Point::Sharing(scores, total, _) => Need::Compute(
                scores.map_values(|score: Binary64| Term::Quotient(score, total)),
            ),
            Point::Logging(shares, _) => Need::Compute(
                shares.map_values(|share: Binary64| Term::Log(share)),
            ),
            Point::Done(_) => Need::Finish,
            Point::Failed(_) => Need::Finish,
        }
    }

    /// How many requests the walk has made.
    pub open spec fn requests(self) -> nat {
        match self.point {
            Point::Scoring(walk) => walk.requests,
            Point::Summing(_, requests) => requests,
            Point::Sharing(_, _, requests) => requests,
            Point::Logging(_, requests) => requests,
            _ => 0,
        }
    }

    /// The parts of the state fit together.
    pub open spec fn well_formed(self) -> bool {
        let n = self.matter.options.len();
        &&& n >= 1
        &&& self.requests() < usize::MAX
        &&& match self.point {
            Point::Reasoning(candidates) => candidates == after(
                self.matter.options,
                self.matter.shared_prefix.len() as int,
            ),
            Point::Scoring(walk) => walk.well_formed() && walk.covers(n as int) && !walk.settled(),
            Point::Summing(scores, _) => scores.len() == n,
            Point::Sharing(scores, _, _) => scores.len() == n,
            Point::Logging(shares, _) => shares.len() == n,
            _ => true,
        }
    }

    /// The classification is over.
    pub open spec fn finished(self) -> bool {
        self.point is Done || self.point is Failed
    }

    /// Where the classification stands when the walk stands at `walk`.
    pub open spec fn walked(self, walk: Progress) -> Course {
        let point = match walk.stage {
            Stage::Finished(scores) => Point::Summing(scores, walk.requests),
            Stage::Failed(failure) => Point::Failed(failure),
            _ => Point::Scoring(walk),
        };
        Course { point, ..self }
    }

    /// After a reply of the model.
    pub open spec fn replied(self, response: ChatResponse) -> Course {
        match self.point {
            Point::Reasoning(_) => match reasoning_in(response) {
                Ok(reasoning) => self.walked(self.matter.walk(reasoning)),
                Err(failure) => Course { point: Point::Failed(failure), ..self },
            },
            Point::Scoring(walk) => self.walked(walk.replied(response)),
            _ => self,
        }
    }

    /// After a request that brought no reply: the classification is over.
    pub open spec fn failed(self, failure: Failure) -> Course {
        Course { point: Point::Failed(failure), ..self }
    }

    /// After the values that were asked for.
    pub open spec fn computed(self, values: Seq<Binary64>) -> Course {
        match self.point {
            Point::Scoring(walk) => self.walked(walk.computed(values)),
            Point::Summing(scores, requests) => if values[0].zero() {
                Course {
                    point: Point::Failed(
                        Failure::Upstream("no returned token prefix matched any option"@),
                    ),
                    ..self
                }
            } else {
                Course { point: Point::Sharing(scores, values[0], requests), ..self }
            },
            Point::Sharing(_, _, requests) => Course {
                point: Point::Logging(values, requests),
                ..self
            },
            Point::Logging(shares, requests) => Course {
                point: Point::Done(self.matter.verdict(shares, values, requests + 1)),
                ..self
            },
            _ => self,
        }
    }

    /// After the text that was asked for.
    pub open spec fn described(self, text: Seq<char>) -> Course {
        match self.point {
            Point::Scoring(walk) => self.walked(walk.described(text)),
            _ => self,
        }
    }
}

/// Starts a classification, or refuses the request.
pub fn classify(classifier: &Classifier, request: ClassifyRequest) -> (result: Result<
    Classification,
    ClassifyError,
>)
    ensures
        match request.refusal() {
            Some(message) => result matches Err(error) && error@ == Failure::BadRequest(message),
            None => result matches Ok(classification) && classification@ == Course::initial(
                Matter::of(classifier.model(), request),
            ) && classification@.well_formed(),
        },
{
    match accept(request) {
        Err(error) => Err(error),
        Ok(accepted) => {
            let model: String = match accepted.request.model {
                Some(name) => name,
                None => classifier.default_model(),
            };
            let case: Case = Case {
                model,
                state: accepted.request.state,
                question: accepted.request.question,
                options: accepted.request.options,
                shared_prefix: accepted.shared_prefix,
                thinking_budget: accepted.request.thinking_budget,
                max_tokens: accepted.request.max_tokens,
                top_logprobs: accepted.request.top_logprobs,
                mass_tolerance: accepted.request.mass_tolerance,
            };
            proof {
                assert(case@ =~= Matter::of(classifier.model(), request));
            }
            Ok(Classification { case, step: Step::Reasoning(accepted.remaining) })
        },
    }
}

/// The position of the greatest number in the total order; of equal ones, the
/// last.
pub fn find_most_probable(shares: &Vec<Binary64>) -> (winner: usize)
    requires
        shares.len() >= 1,
    ensures
        winner == most_probable(shares@),
        winner < shares.len(),
{
    let mut winner: usize = 0;
    let mut i: usize = 1;
    while i < shares.len()
        invariant
            1 <= i <= shares.len(),
            winner < i,
            winner == most_probable(shares@.take(i as int)),
        decreases shares.len() - i,
    {
        proof {
            assert(shares@.take(i + 1).drop_last() =~= shares@.take(i as int));
        }
        if !shares[i].total_less(shares[winner]) {
            winner = i;
        }
        i = i + 1;
    }
    proof {
        assert(shares@.take(shares@.len() as int) =~= shares@);
    }
    winner
}

impl Case {
    /// The response, given the probabilities of the options, their logarithms,
    /// and the number of requests.
    pub fn respond(
        &self,
        shares: &Vec<Binary64>,
        logs: &Vec<Binary64>,
        requests: usize,
    ) -> (response: ClassifyResponse)
        requires
            self.options.len() >= 1,
            shares.len() == self.options.len(),
            logs.len() == self.options.len(),
        ensures
            response@ == self@.verdict(shares@, logs@, requests as nat),
    {
        let ghost matter = self@;
        let mut candidate_logprobs: Vec<(String, Option<Binary64>)> = Vec::new();
        let mut candidate_probabilities: Vec<(String, Binary64)> = Vec::new();
        let mut i: usize = 0;
        while i < self.options.len()
            invariant
                matter == self@,
                shares.len() == self.options.len(),
                logs.len() == self.options.len(),
                i <= self.options.len(),
                candidate_logprobs.len() == i,
                candidate_probabilities.len() == i,
                forall|k: int|
                    0 <= k < i ==> (#[trigger] candidate_logprobs@[k]).0@ == matter.options[k]
                        && candidate_logprobs@[k].1 == (if shares@[k].positive() {
                        Some(logs@[k])
                    } else {
                        None
                    }),
                forall|k: int|
                    0 <= k < i ==> (#[trigger] candidate_probabilities@[k]).0@ == matter.options[k]
                        && candidate_probabilities@[k].1 == shares@[k],
            decreases self.options.len() - i,
        {
            proof {
                assert(matter.options[i as int] == self.options@[i as int]@);
            }
            let log: Option<Binary64> = if shares[i].is_positive() {
                Some(logs[i])
            } else {
                None
            };
            candidate_logprobs.push((self.options[i].clone(), log));
            candidate_probabilities.push((self.options[i].clone(), shares[i]));
            i = i + 1;
        }
        let winner: usize = find_most_probable(shares);
        let mut answer: String = "choice: ".to_owned();
        answer.append(self.options[winner].as_str());
        proof {
            assert(matter.options[winner as int] == self.options@[winner as int]@);
        }
        let response: ClassifyResponse = ClassifyResponse {
            model: self.model.clone(),
            answer,
            candidate_logprobs,
            candidate_probabilities,
            probability_scope: "normalized across the listed options",
            shared_prefix_removed: self.shared_prefix.clone(),
            thinking_budget: self.thinking_budget,
            vllm_requests: requests,
        };
        proof {
            let goal = matter.verdict(shares@, logs@, requests as nat);
            assert(response@.candidate_logprobs =~= goal.candidate_logprobs);
            assert(response@.candidate_probabilities =~= goal.candidate_probabilities);
            assert(response@ =~= goal);
        }
        response
    }
}

impl Classification {
    /// What the classification wants now.
    pub fn action(&self) -> (action: Action)
        requires
            self@.well_formed(),
            self@.point is Reasoning ==> self@.matter.thinking_budget + ANSWER_MARGIN <= usize::MAX,
        ensures
            action@ == self@.need(),
    {
        match &self.step {
            Step::Reasoning(_) => {
                let prompt: String = build_prompt(
                    self.case.state.as_str(),
                    self.case.question.as_str(),
                    self.case.options.as_slice(),
                    None,
                );
                Action::Reason(
                    reasoning_payload(
                        self.case.model.as_str(),
                        prompt.as_str(),
                        self.case.thinking_budget,
                    ),
                )
            },
            Step::Scoring(scoring) => match scoring.demand() {
                Demand::Ask(payload) => Action::Continue(payload),
                Demand::Compute(list) => Action::Compute(list),
                Demand::Describe(number) => Action::Describe(number),
                Demand::Nothing => Action::Finish,
            },
            Step::Summing(scores, _) => {
                let mut formulas: Vec<Formula> = Vec::new();
                formulas.push(Formula::Sum(copied(scores)));
                proof {
                    assert(terms(formulas@) =~= seq![Term::Sum(scores@)]);
                }
                Action::Compute(formulas)
            },
            Step::Sharing(scores, total, _) => {
                let mut formulas: Vec<Formula> = Vec::new();
                let mut i: usize = 0;
                while i < scores.len()
                    invariant
                        i <= scores.len(),
                        formulas.len() == i,
                        forall|k: int|
                            0 <= k < i ==> (#[trigger] formulas@[k])@ == Term::Quotient(
                                scores@[k],
                                *total,
                            ),
                    decreases scores.len() - i,
                {
                    formulas.push(Formula::Quotient(scores[i], *total));
                    i = i + 1;
                }
                proof {
                    assert(terms(formulas@) =~= scores@.map_values(
                        |score: Binary64| Term::Quotient(score, *total),
                    ));
                }
                Action::Compute(formulas)
            },
            Step::Logging(shares, _) => {
                let mut formulas: Vec<Formula> = Vec::new();
                let mut i: usize = 0;
                while i < shares.len()
                    invariant
                        i <= shares.len(),
                        formulas.len() == i,
                        forall|k: int|
                            0 <= k < i ==> (#[trigger] formulas@[k])@ == Term::Log(shares@[k]),
                    decreases shares.len() - i,
                {
                    formulas.push(Formula::Log(shares[i]));
                    i = i + 1;
                }
                proof {
                    assert(terms(formulas@) =~= shares@.map_values(
                        |share: Binary64| Term::Log(share),
                    ));
                }
                Action::Compute(formulas)
            },
            Step::Done(_) => Action::Finish,
            Step::Failed(_) => Action::Finish,
        }
    }

    /// How many requests the walk has made.
    pub fn requests_made(&self) -> (requests: usize)
        ensures
            requests == self@.requests(),
    {
        match &self.step {
            Step::Scoring(scoring) => scoring.requests,
            Step::Summing(_, requests) => *requests,
            Step::Sharing(_, _, requests) => *requests,
            Step::Logging(_, requests) => *requests,
            _ => 0,
        }
    }

    /// Where a classification stands when the walk stands at `scoring`.
    fn after_walk(case: Case, scoring: Scoring) -> (next: Classification)
        ensures
            next@ == (Course {
                matter: case@,
                point: Point::Scoring(scoring@),
            }).walked(scoring@),
    {
        match scoring.phase {
            Phase::Finished(scores) => Classification {
                case,
                step: Step::Summing(scores, scoring.requests),
            },
            Phase::Failed(error) => Classification { case, step: Step::Failed(error) },
            phase => Classification {
                case,
                step: Step::Scoring(
                    Scoring {
                        setting: scoring.setting,
                        stack: scoring.stack,
                        phase,
                        requests: scoring.requests,
                    },
                ),
            },
        }
    }

    /// Goes on with a reply of the model.
    pub fn reply(self, response: &ChatResponse) -> (next: Classification)
        requires
            self@.well_formed(),
            self@.need() is Reason || self@.need() is Continue,
            self@.requests() + 1 < usize::MAX,
        ensures
            next@ == self@.replied(*response),
            next@.well_formed(),
    {
        let case: Case = self.case;
        match self.step {
            Step::Reasoning(candidates) => match read_reasoning(response) {
                Err(error) => Classification { case, step: Step::Failed(error) },
                Ok(reasoning) => {
                    let prompt: String = build_prompt(
                        case.state.as_str(),
                        case.question.as_str(),
                        case.options.as_slice(),
                        Some(reasoning.as_str()),
                    );
                    let setting: Setting = Setting {
                        model: case.model.clone(),
                        prompt,
                        top_logprobs: case.top_logprobs,
                        max_tokens: case.max_tokens,
                        mass_tolerance: case.mass_tolerance,
                    };
                    let mut generated: String = " ".to_owned();
                    generated.append(case.shared_prefix.as_str());
                    Classification::after_walk(
                        case,
                        Scoring::start(setting, candidates, generated),
                    )
                },
            },
            Step::Scoring(scoring) => Classification::after_walk(case, scoring.reply(response)),
            step => Classification { case, step },
        }
    }

    /// Ends with the failure of a request that brought no reply.
    pub fn fail(self, error: ClassifyError) -> (next: Classification)
        ensures
            next@ == self@.failed(error@),
            next@.need() is Finish,
            self@.well_formed() ==> next@.well_formed(),
    {
        Classification { case: self.case, step: Step::Failed(error) }
    }

    /// Goes on with the values that were asked for.
    pub fn supply(self, values: Vec<Binary64>) -> (next: Classification)
        requires
            self@.well_formed(),
            self@.need() matches Need::Compute(list) && values.len() == list.len(),
        ensures
            next@ == self@.computed(values@),
            next@.well_formed(),
    {
        let case: Case = self.case;
        match self.step {
            Step::Scoring(scoring) => {
                let next: Scoring = scoring.supply(values);
                proof {
                    assert(next@.requests == scoring@.requests);
                    assert(next@.covers(case@.options.len() as int));
                }
                Classification::after_walk(case, next)
            },
            Step::Summing(scores, requests) => {
                if values[0].is_zero() {
                    Classification {
                        case,
                        step: Step::Failed(
                            ClassifyError::Upstream(
                                "no returned token prefix matched any option".to_owned(),
                            ),
                        ),
                    }
                } else {
                    Classification { case, step: Step::Sharing(scores, values[0], requests) }
                }
            },
            Step::Sharing(_, _, requests) => Classification {
                case,
                step: Step::Logging(values, requests),
            },
            Step::Logging(shares, requests) => {
                let response: ClassifyResponse = case.respond(&shares, &values, requests + 1);
                Classification { case, step: Step::Done(response) }
            },
            step => Classification { case, step },
        }
    }

    /// Goes on with the text that was asked for.
    pub fn describe(self, text: &str) -> (next: Classification)
        requires
            self@.well_formed(),
            self@.need() is Describe,
        ensures
            next@ == self@.described(text@),
            next@.well_formed(),
    {
        let case: Case = self.case;
        match self.step {
            Step::Scoring(scoring) => Classification::after_walk(case, scoring.describe(text)),
            step => Classification { case, step },
        }
    }

    /// What the classification came to; `None` while it is still under way.
    pub fn result(self) -> (result: Option<Result<ClassifyResponse, ClassifyError>>)
        ensures
            match self@.point {
                Point::Done(verdict) => result matches Some(Ok(response)) && response@ == verdict,
                Point::Failed(failure) => result matches Some(Err(error)) && error@ == failure,
                _ => result is None,
            },
    {
        match self.step {
            Step::Done(response) => Some(Ok(response)),
            Step::Failed(error) => Some(Err(error)),
            _ => None,
        }
    }
}

} // verus!
