//! How likely the model is to spell out each candidate.
//!
//! The model is asked for its next token; each token that it could write leaves
//! some candidates possible. A token that leaves one of them credits it with the
//! probability of the way there, and a token that leaves several is followed
//! further. The walk asks its surroundings for replies and for arithmetic, and
//! goes on with each answer.

use vstd::prelude::*;
use vstd::string::*;

use crate::binary64::{Binary64, ONE_BITS};
use crate::candidate::{entries, suffixes, Candidate, Entry};
use crate::chat::{
    alternatives_in, read_alternatives, token_call, token_payload, ChatResponse, TokenCall,
    TokenPayload,
};
use crate::error::{ClassifyError, Failure};
use crate::formula::{copied, terms, Formula, Term};
use crate::text::{debug_form, decimal, decimal_digits, show_debug, texts};
use crate::tokens::{
    group_tokens, groups, groups_of, indices, law_matching, match_candidates, matching, narrow,
    narrowed, Group, TokenGroup,
};

verus! {

/// What stays the same throughout a walk.
#[derive(Debug)]
pub struct Setting {
    pub model: String,
    pub prompt: String,
    pub top_logprobs: usize,
    pub max_tokens: usize,
    pub mass_tolerance: Binary64,
}

/// What a `Setting` holds.
pub struct Rules {
    pub model: Seq<char>,
    pub prompt: Seq<char>,
    pub top_logprobs: usize,
    pub max_tokens: usize,
    pub mass_tolerance: Binary64,
}

impl View for Setting {
    type V = Rules;

    open spec fn view(&self) -> Rules {
        Rules {
            model: self.model@,
            prompt: self.prompt@,
            top_logprobs: self.top_logprobs,
            max_tokens: self.max_tokens,
            mass_tolerance: self.mass_tolerance,
        }
    }
}

/// A place of the walk: the text so far, what is still possible after it, how
/// probable the way there is, and how many tokens it took.
#[derive(Debug)]
pub struct Node {
    pub candidates: Vec<Candidate>,
    pub generated: String,
    pub weight: Binary64,
    pub depth: usize,
}

/// What a `Node` holds.
#[verifier::ext_equal]
pub struct Place {
    pub candidates: Seq<Entry>,
    pub generated: Seq<char>,
    pub weight: Binary64,
    pub depth: nat,
}

impl View for Node {
    type V = Place;

    open spec fn view(&self) -> Place {
        Place {
            candidates: entries(self.candidates@),
            generated: self.generated@,
            weight: self.weight,
            depth: self.depth as nat,
        }
    }
}

/// A place whose tokens are being gone through: the probability of the way
/// through each token, the token that comes next, what each candidate is
/// credited with so far, and the positions of the candidates that are being
/// followed further.
#[derive(Debug)]
pub struct Frame {
    pub node: Node,
    pub tokens: Vec<String>,
    pub branches: Vec<Binary64>,
    pub next: usize,
    pub credits: Vec<Vec<Binary64>>,
    pub positions: Vec<usize>,
}

/// What a `Frame` holds.
#[verifier::ext_equal]
pub struct Open {
    pub place: Place,
    pub tokens: Seq<Seq<char>>,
    pub branches: Seq<Binary64>,
    pub next: nat,
    pub credits: Seq<Seq<Binary64>>,
    pub positions: Seq<int>,
}

/// What each list of credits holds.
pub open spec fn credit_lists(list: Seq<Vec<Binary64>>) -> Seq<Seq<Binary64>> {
    list.map_values(|credits: Vec<Binary64>| credits@)
}

impl View for Frame {
    type V = Open;

    open spec fn view(&self) -> Open {
        Open {
            place: self.node@,
            tokens: texts(self.tokens@),
            branches: self.branches@,
            next: self.next as nat,
            credits: credit_lists(self.credits@),
            positions: indices(self.positions@),
        }
    }
}

/// What each frame of a stack holds.
pub open spec fn opens(list: Seq<Frame>) -> Seq<Open> {
    list.map_values(|frame: Frame| frame@)
}

/// What the walk is waiting for.
#[derive(Debug)]
pub enum Phase {
    /// A reply on how the model goes on.
    Asking(Node),
    /// The probability of each token.
    Weighing(Node, Vec<TokenGroup>),
    /// The probability of all tokens together, and of the way through each.
    Measuring(Node, Vec<String>, Vec<Binary64>),
    /// The text of a probability that falls short.
    Shortfall(Binary64, String),
    /// The score of each candidate of a place.
    Totalling(Frame),
    /// Nothing more: these are the scores.
    Finished(Vec<Binary64>),
    /// Nothing more: this is why there are no scores.
    Failed(ClassifyError),
}

/// What a `Phase` holds.
#[verifier::ext_equal]
pub enum Stage {
    Asking(Place),
    Weighing(Place, Seq<Group>),
    Measuring(Place, Seq<Seq<char>>, Seq<Binary64>),
    Shortfall(Binary64, Seq<char>),
    Totalling(Open),
    Finished(Seq<Binary64>),
    Failed(Failure),
}

impl View for Phase {
    type V = Stage;

    open spec fn view(&self) -> Stage {
        match self {
            Phase::Asking(node) => Stage::Asking(node@),
            Phase::Weighing(node, list) => Stage::Weighing(node@, groups(list@)),
            Phase::Measuring(node, tokens, probabilities) => Stage::Measuring(
                node@,
                texts(tokens@),
                probabilities@,
            ),
            Phase::Shortfall(mass, generated) => Stage::Shortfall(*mass, generated@),
            Phase::Totalling(frame) => Stage::Totalling(frame@),
            Phase::Finished(scores) => Stage::Finished(scores@),
            Phase::Failed(error) => Stage::Failed(error@),
        }
    }
}

/// A walk: the places that were left for a deeper one, what it waits for now,
/// and how often the model was asked.
#[derive(Debug)]
pub struct Scoring {
    pub setting: Setting,
    pub stack: Vec<Frame>,
    pub phase: Phase,
    pub requests: usize,
}

/// What a `Scoring` holds.
#[verifier::ext_equal]
pub struct Progress {
    pub rules: Rules,
    pub stack: Seq<Open>,
    pub stage: Stage,
    pub requests: nat,
}

impl View for Scoring {
    type V = Progress;

    open spec fn view(&self) -> Progress {
        Progress {
            rules: self.setting@,
            stack: opens(self.stack@),
            stage: self.phase@,
            requests: self.requests as nat,
        }
    }
}

/// What is said where the alternatives leave out too much probability.
pub open spec fn shortfall_message(mass: Seq<char>, generated: Seq<char>) -> Seq<char> {
    "top_logprobs covered only "@ + mass + " probability mass at prefix "@ + debug_form(generated)
        + "; increase top_logprobs"@
}

/// What is said where the options cannot be told apart in the given number of
/// tokens.
pub open spec fn ambiguity_message(generated: Seq<char>, max_tokens: usize) -> Seq<char> {
    "prefix "@ + debug_form(generated) + " is still ambiguous after "@ + decimal_digits(
        max_tokens as nat,
    ) + " tokens; increase max_tokens"@
}

/// What a token means at a place.
pub enum Move {
    /// It leads to no candidate.
    Skip,
    /// It leads to the one candidate at this position.
    Credit(int),
    /// It leaves several candidates, and no more tokens may be spent.
    Stuck,
    /// It leaves the candidates at these positions.
    Descend(Seq<int>),
}

/// What a token means at a place.
pub open spec fn next_move(rules: Rules, place: Place, token: Seq<char>) -> Move {
    let found = matching(place.candidates, token);
    if token.len() == 0 || found.len() == 0 {
        Move::Skip
    } else if found.len() == 1 {
        Move::Credit(found[0])
    } else if place.depth + 1 >= rules.max_tokens {
        Move::Stuck
    } else {
        Move::Descend(found)
    }
}

/// The place behind a token that leaves several candidates.
pub open spec fn child(place: Place, token: Seq<char>, positions: Seq<int>, weight: Binary64) -> Place {
    Place {
        candidates: narrowed(place.candidates, positions, token.len() as int),
        generated: place.generated + token,
        weight,
        depth: place.depth + 1,
    }
}

/// The credits of a place after the scores of candidates at some positions are
/// added to them.
pub open spec fn merged(
    credits: Seq<Seq<Binary64>>,
    positions: Seq<int>,
    scores: Seq<Binary64>,
) -> Seq<Seq<Binary64>>
    decreases positions.len(),
{
    if positions.len() == 0 {
        credits
    } else {
        let earlier = merged(credits, positions.drop_last(), scores.drop_last());
        earlier.update(positions.last(), earlier[positions.last()].push(scores.last()))
    }
}

impl Open {
    /// A place before the first of its tokens.
    pub open spec fn fresh(place: Place, tokens: Seq<Seq<char>>, branches: Seq<Binary64>) -> Open {
        Open {
            place,
            tokens,
            branches,
            next: 0,
            credits: Seq::new(place.candidates.len(), |k: int| Seq::<Binary64>::empty()),
            positions: seq![],
        }
    }

    /// After the next token, which leads nowhere.
    pub open spec fn skipped(self) -> Open {
        Open { next: self.next + 1, ..self }
    }

    /// After the next token, which leads to the candidate at `position`.
    pub open spec fn credited(self, position: int) -> Open {
        Open {
            next: self.next + 1,
            credits: self.credits.update(
                position,
                self.credits[position].push(self.branches[self.next as int]),
            ),
            ..self
        }
    }

    /// After the next token, while the candidates at `positions` are followed.
    pub open spec fn left(self, positions: Seq<int>) -> Open {
        Open { next: self.next + 1, positions, ..self }
    }

    /// After the candidates that were followed have got their scores.
    pub open spec fn returned(self, scores: Seq<Binary64>) -> Open {
        Open { credits: merged(self.credits, self.positions, scores), ..self }
    }

    /// The parts of a frame fit together.
    pub open spec fn well_formed(self) -> bool {
        &&& self.branches.len() == self.tokens.len()
        &&& self.next <= self.tokens.len()
        &&& self.credits.len() == self.place.candidates.len()
        &&& forall|k: int|
            0 <= k < self.positions.len() ==> 0 <= #[trigger] self.positions[k]
                < self.place.candidates.len()
    }
}

/// The places that were left fit together: each expects as many scores as the
/// one above it will bring.
pub open spec fn stack_fits(stack: Seq<Open>) -> bool {
    &&& forall|i: int| 0 <= i < stack.len() ==> (#[trigger] stack[i]).well_formed()
    &&& forall|i: int|
        0 < i < stack.len() ==> (#[trigger] stack[i]).place.candidates.len()
            == stack[i - 1].positions.len()
}

/// Where the walk stands after it has gone through the tokens of a place up to
/// one that has to be followed, or to the end.
pub open spec fn proceed(rules: Rules, stack: Seq<Open>, open: Open) -> (Seq<Open>, Stage)
    decreases open.tokens.len() - open.next,
{
    if open.next >= open.tokens.len() {
        (stack, Stage::Totalling(open))
    } else {
        let token = open.tokens[open.next as int];
        match next_move(rules, open.place, token) {
            Move::Skip => proceed(rules, stack, open.skipped()),
            Move::Credit(position) => proceed(rules, stack, open.credited(position)),
            Move::Stuck => (
                stack,
                Stage::Failed(
                    Failure::Upstream(
                        ambiguity_message(open.place.generated + token, rules.max_tokens),
                    ),
                ),
            ),
            Move::Descend(positions) => (
                stack.push(open.left(positions)),
                Stage::Asking(
                    child(open.place, token, positions, open.branches[open.next as int]),
                ),
            ),
        }
    }
}

/// What a walk wants from its surroundings.
#[derive(Debug)]
pub enum Demand {
    /// A reply to this.
    Ask(TokenPayload),
    /// The values of these formulas.
    Compute(Vec<Formula>),
    /// This number with six decimals.
    Describe(Binary64),
    /// Nothing: the walk is over.
    Nothing,
}

/// What a `Demand` holds.
#[verifier::ext_equal]
pub enum Want {
    Ask(TokenCall),
    Compute(Seq<Term>),
    Describe(Binary64),
    Nothing,
}

impl View for Demand {
    type V = Want;

    open spec fn view(&self) -> Want {
        match self {
            Demand::Ask(payload) => Want::Ask(payload@),
            Demand::Compute(list) => Want::Compute(terms(list@)),
            Demand::Describe(number) => Want::Describe(*number),
            Demand::Nothing => Want::Nothing,
        }
    }
}

/// The formulas for the probability of all tokens, for what it must reach, and
/// for the way through each token.
pub open spec fn measures(
    weight: Binary64,
    tolerance: Binary64,
    probabilities: Seq<Binary64>,
) -> Seq<Term> {
    seq![Term::Sum(probabilities), Term::Complement(tolerance)] + probabilities.map_values(
        |p: Binary64| Term::Product(weight, p),
    )
}

impl Progress {
    /// The beginning of a walk.
    pub open spec fn initial(rules: Rules, candidates: Seq<Entry>, generated: Seq<char>) -> Progress {
        Progress {
            rules,
            stack: seq![],
            stage: Stage::Asking(
                Place { candidates, generated, weight: Binary64 { bits: ONE_BITS }, depth: 0 },
            ),
            requests: 0,
        }
    }

    /// What is asked of the model at a place.
    pub open spec fn call(self, place: Place) -> TokenCall {
        token_call(
            self.rules.model,
            self.rules.prompt,
            place.generated,
            self.rules.top_logprobs,
            suffixes(place.candidates),
        )
    }

    /// What the walk wants now.
    pub open spec fn want(self) -> Want {
        match self.stage {
            Stage::Asking(place) => Want::Ask(self.call(place)),
            Stage::Weighing(_, list) => Want::Compute(
                list.map_values(|group: Group| Term::ExpSum(group.logprobs)),
            ),
            Stage::Measuring(place, _, probabilities) => Want::Compute(
                measures(place.weight, self.rules.mass_tolerance, probabilities),
            ),
            Stage::Shortfall(mass, _) => Want::Describe(mass),
            Stage::Totalling(open) => Want::Compute(
                open.credits.map_values(|credits: Seq<Binary64>| Term::Sum(credits)),
            ),
            Stage::Finished(_) => Want::Nothing,
            Stage::Failed(_) => Want::Nothing,
        }
    }

    /// The walk is over.
    pub open spec fn settled(self) -> bool {
        self.stage is Finished || self.stage is Failed
    }

    /// The number of candidates of the place that the walk is at.
    pub open spec fn width(self) -> int {
        match self.stage {
            Stage::Asking(place) => place.candidates.len() as int,
            Stage::Weighing(place, _) => place.candidates.len() as int,
            Stage::Measuring(place, _, _) => place.candidates.len() as int,
            Stage::Totalling(open) => open.place.candidates.len() as int,
            _ => 0,
        }
    }

    /// The parts of the state fit together.
    pub open spec fn well_formed(self) -> bool {
        &&& stack_fits(self.stack)
        &&& match self.stage {
            Stage::Shortfall(_, _) => true,
            Stage::Failed(_) => true,
            Stage::Finished(_) => self.stack.len() == 0,
            _ => self.stack.len() > 0 ==> self.width() == self.stack.last().positions.len(),
        }
        &&& match self.stage {
            Stage::Measuring(_, tokens, probabilities) => tokens.len() == probabilities.len(),
            Stage::Totalling(open) => open.well_formed(),
            _ => true,
        }
    }

    /// The walk is about `n` candidates: it began with as many, and will score
    /// as many.
    pub open spec fn covers(self, n: int) -> bool {
        match self.stage {
            Stage::Shortfall(_, _) => true,
            Stage::Failed(_) => true,
            Stage::Finished(scores) => scores.len() == n,
            _ => if self.stack.len() > 0 {
                self.stack[0].place.candidates.len() == n
            } else {
                self.width() == n
            },
        }
    }

    /// The same walk, where a place is about to be gone through.
    pub open spec fn at(self, stack: Seq<Open>, open: Open) -> Progress {
        let (stack, stage) = proceed(self.rules, stack, open);
        Progress { stack, stage, ..self }
    }

    /// After a reply of the model.
    pub open spec fn replied(self, response: ChatResponse) -> Progress {
        let stage = match (self.stage, alternatives_in(response)) {
            (Stage::Asking(place), Ok(list)) => Stage::Weighing(place, groups_of(list)),
            (_, Err(failure)) => Stage::Failed(failure),
            (stage, _) => stage,
        };
        Progress { stage, requests: self.requests + 1, ..self }
    }

    /// After a request that brought no reply.
    pub open spec fn failed(self, failure: Failure) -> Progress {
        Progress { stage: Stage::Failed(failure), requests: self.requests + 1, ..self }
    }

    /// After the values that were asked for.
    pub open spec fn computed(self, values: Seq<Binary64>) -> Progress {
        match self.stage {
            Stage::Weighing(place, list) => Progress {
                stage: Stage::Measuring(
                    place,
                    list.map_values(|group: Group| group.token),
                    values,
                ),
                ..self
            },
            Stage::Measuring(place, tokens, _) => if values[0].below(values[1]) {
                Progress { stage: Stage::Shortfall(values[0], place.generated), ..self }
            } else {
                self.at(self.stack, Open::fresh(place, tokens, values.skip(2)))
            },
            Stage::Totalling(_) => if self.stack.len() == 0 {
                Progress { stage: Stage::Finished(values), ..self }
            } else {
                self.at(self.stack.drop_last(), self.stack.last().returned(values))
            },
            _ => self,
        }
    }

    /// After the text that was asked for.
    pub open spec fn described(self, text: Seq<char>) -> Progress {
        match self.stage {
            Stage::Shortfall(_, generated) => Progress {
                stage: Stage::Failed(Failure::Upstream(shortfall_message(text, generated))),
                ..self
            },
            _ => self,
        }
    }
}

/// Goes through the tokens of a place up to one that has to be followed, or to
/// the end.
fn go_through(setting: &Setting, stack: Vec<Frame>, frame: Frame) -> (result: (Vec<Frame>, Phase))
    requires
        frame@.well_formed(),
    ensures
        (opens(result.0@), result.1@) == proceed(setting@, opens(stack@), frame@),
{
    let ghost goal = proceed(setting@, opens(stack@), frame@);
    let ghost below = opens(stack@);
    let mut current: Frame = frame;
    let mut left: Vec<Frame> = stack;
    while current.next < current.tokens.len()
        invariant
            goal == proceed(setting@, opens(stack@), frame@),
            current@.well_formed(),
            opens(left@) == below,
            goal == proceed(setting@, below, current@),
        decreases current.tokens.len() - current.next,
    {
        let at: usize = current.next;
        let ghost token = texts(current.tokens@)[at as int];
        let ghost before = current@;
        let found: Vec<usize> = match_candidates(
            &current.node.candidates,
            current.tokens[at].as_str(),
        );
        proof {
            law_matching(current@.place.candidates, token);
            assert(indices(found@).len() == found@.len());
            assert forall|k: int| 0 <= k < found@.len() implies (#[trigger] found@[k])
                < current.node.candidates.len() && token.is_prefix_of(
                current.node.candidates@[found@[k] as int].suffix@,
            ) by {
                assert(indices(found@)[k] == found@[k]);
            }
        }
        if current.tokens[at].as_str().is_empty() || found.len() == 0 {
            current.next = at + 1;
            proof {
                assert(current@ =~= before.skipped());
            }
        } else if found.len() == 1 {
            let position: usize = found[0];
            let branch: Binary64 = current.branches[at];
            current.credits[position].push(branch);
            current.next = at + 1;
            proof {
                assert(indices(found@)[0] == position);
                assert(current@.credits =~= before.credited(position as int).credits);
                assert(current@ =~= before.credited(position as int));
            }
        } else if current.node.depth >= setting.max_tokens || setting.max_tokens - current.node.depth
            <= 1 {
            let mut generated: String = current.node.generated.clone();
            generated.append(current.tokens[at].as_str());
            let mut message: String = "prefix ".to_owned();
            message.append(show_debug(generated.as_str()).as_str());
            message.append(" is still ambiguous after ");
            message.append(decimal(setting.max_tokens).as_str());
            message.append(" tokens; increase max_tokens");
            proof {
                assert(generated@ == before.place.generated + token);
            }
            return (left, Phase::Failed(ClassifyError::Upstream(message)));
        } else {
            let mut generated: String = current.node.generated.clone();
            generated.append(current.tokens[at].as_str());
            let n: usize = current.tokens[at].as_str().unicode_len();
            let node: Node = Node {
                candidates: narrow(&current.node.candidates, &found, n),
                generated,
                weight: current.branches[at],
                depth: current.node.depth + 1,
            };
            proof {
                assert(node@ =~= child(
                    before.place,
                    token,
                    indices(found@),
                    before.branches[at as int],
                ));
            }
            current.next = at + 1;
            current.positions = found;
            proof {
                assert(current@ =~= before.left(indices(found@)));
                assert(opens(left@.push(current)) =~= opens(left@).push(current@));
            }
            left.push(current);
            return (left, Phase::Asking(node));
        }
    }
    (left, Phase::Totalling(current))
}

/// Adding scores changes no number of candidates.
pub proof fn lemma_merged_length(
    credits: Seq<Seq<Binary64>>,
    positions: Seq<int>,
    scores: Seq<Binary64>,
)
    requires
        forall|k: int|
            0 <= k < positions.len() ==> 0 <= #[trigger] positions[k] < credits.len(),
    ensures
        merged(credits, positions, scores).len() == credits.len(),
    decreases positions.len(),
{
    if positions.len() > 0 {
        let front = positions.drop_last();
        assert(forall|k: int| 0 <= k < front.len() ==> front[k] == positions[k]);
        assert(positions.last() == positions[positions.len() - 1]);
        lemma_merged_length(credits, front, scores.drop_last());
    }
}

/// Going through tokens keeps a state well formed.
proof fn lemma_at_well_formed(progress: Progress, stack: Seq<Open>, open: Open)
    requires
        stack_fits(stack),
        open.well_formed(),
        stack.len() > 0 ==> open.place.candidates.len() == stack.last().positions.len(),
    ensures
        progress.at(stack, open).well_formed(),
        forall|n: int|
            n == (if stack.len() > 0 {
                stack[0].place.candidates.len()
            } else {
                open.place.candidates.len()
            }) ==> #[trigger] progress.at(stack, open).covers(n),
    decreases open.tokens.len() - open.next,
{
    if open.next < open.tokens.len() {
        let token = open.tokens[open.next as int];
        law_matching(open.place.candidates, token);
        match next_move(progress.rules, open.place, token) {
            Move::Skip => {
                lemma_at_well_formed(progress, stack, open.skipped());
            },
            Move::Credit(position) => {
                lemma_at_well_formed(progress, stack, open.credited(position));
            },
            Move::Stuck => {},
            Move::Descend(positions) => {
                let next = progress.at(stack, open);
                assert(open.left(positions).well_formed());
                assert forall|i: int| 0 < i < next.stack.len() implies (
                #[trigger] next.stack[i]).place.candidates.len() == next.stack[i
                    - 1].positions.len() by {
                    if i == stack.len() {
                        assert(stack[i - 1] == stack.last());
                    }
                }
            },
        }
    }
}

/// A reply keeps a state well formed, and about the same candidates.
pub proof fn law_replied_well_formed(progress: Progress, response: ChatResponse)
    requires
        progress.well_formed(),
        progress.stage is Asking,
    ensures
        progress.replied(response).well_formed(),
        forall|n: int| progress.covers(n) ==> #[trigger] progress.replied(response).covers(n),
{
}

/// Values keep a state well formed, and about the same candidates.
pub proof fn law_computed_well_formed(progress: Progress, values: Seq<Binary64>)
    requires
        progress.well_formed(),
        progress.want() matches Want::Compute(list) && values.len() == list.len(),
    ensures
        progress.computed(values).well_formed(),
        forall|n: int| progress.covers(n) ==> #[trigger] progress.computed(values).covers(n),
{
    match progress.stage {
        Stage::Measuring(place, tokens, _) => {
            if !values[0].below(values[1]) {
                lemma_at_well_formed(
                    progress,
                    progress.stack,
                    Open::fresh(place, tokens, values.skip(2)),
                );
            }
        },
        Stage::Totalling(_) => {
            if progress.stack.len() > 0 {
                let parent = progress.stack.last();
                lemma_merged_length(parent.credits, parent.positions, values);
                lemma_at_well_formed(
                    progress,
                    progress.stack.drop_last(),
                    parent.returned(values),
                );
            }
        },
        _ => {},
    }
}

/// Adds the scores of the candidates that were followed to the credits of the
/// place that they were followed from.
fn add_scores(frame: Frame, scores: &Vec<Binary64>) -> (result: Frame)
    requires
        frame@.well_formed(),
        scores.len() == frame.positions.len(),
    ensures
        result@ == frame@.returned(scores@),
{
    let ghost start = frame@;
    let mut current: Frame = frame;
    let mut k: usize = 0;
    proof {
        assert(start.positions.take(0) =~= seq![]);
        assert(merged(start.credits, seq![], scores@.take(0)) == start.credits);
    }
    while k < scores.len()
        invariant
            start == frame@,
            start.well_formed(),
            k <= scores.len() == start.positions.len(),
            current@ == (Open {
                credits: merged(
                    start.credits,
                    start.positions.take(k as int),
                    scores@.take(k as int),
                ),
                ..start
            }),
        decreases scores.len() - k,
    {
        let ghost earlier = current@.credits;
        let position: usize = current.positions[k];
        proof {
            assert(current@.positions[k as int] == position);
            lemma_merged_length(
                start.credits,
                start.positions.take(k as int),
                scores@.take(k as int),
            );
            assert(earlier.len() == current.credits@.len());
        }
        let score: Binary64 = scores[k];
        current.credits[position].push(score);
        proof {
            assert(start.positions.take(k + 1).drop_last() =~= start.positions.take(k as int));
            assert(scores@.take(k + 1).drop_last() =~= scores@.take(k as int));
            assert(current@.credits =~= earlier.update(
                position as int,
                earlier[position as int].push(score),
            ));
        }
        k = k + 1;
    }
    proof {
        assert(start.positions.take(k as int) =~= start.positions);
        assert(scores@.take(k as int) =~= scores@);
    }
    current
}

impl Scoring {
    /// A walk from the beginning: the model has said `generated`, and the
    /// candidates are what may follow.
    pub fn start(setting: Setting, candidates: Vec<Candidate>, generated: String) -> (scoring:
        Scoring)
        ensures
            scoring@ == Progress::initial(setting@, entries(candidates@), generated@),
            scoring@.well_formed(),
    {
        let scoring: Scoring = Scoring {
            setting,
            stack: Vec::new(),
            phase: Phase::Asking(
                Node { candidates, generated, weight: Binary64 { bits: ONE_BITS }, depth: 0 },
            ),
            requests: 0,
        };
        proof {
            assert(scoring@ =~= Progress::initial(setting@, entries(candidates@), generated@));
        }
        scoring
    }

    /// What the walk wants now.
    pub fn demand(&self) -> (demand: Demand)
        ensures
            demand@ == self@.want(),
    {
        match &self.phase {
            Phase::Asking(node) => {
                let mut allowed: Vec<String> = Vec::new();
                let mut i: usize = 0;
                while i < node.candidates.len()
                    invariant
                        i <= node.candidates.len(),
                        allowed.len() == i,
                        forall|k: int|
                            0 <= k < i ==> (#[trigger] allowed@[k])@ == node.candidates@[k].suffix@,
                    decreases node.candidates.len() - i,
                {
                    allowed.push(node.candidates[i].suffix.clone());
                    i = i + 1;
                }
                proof {
                    assert(texts(allowed@) =~= suffixes(entries(node.candidates@)));
                }
                Demand::Ask(
                    token_payload(
                        self.setting.model.as_str(),
                        self.setting.prompt.as_str(),
                        node.generated.as_str(),
                        self.setting.top_logprobs,
                        allowed,
                    ),
                )
            },
            Phase::Weighing(_, list) => {
                let mut formulas: Vec<Formula> = Vec::new();
                let mut i: usize = 0;
                while i < list.len()
                    invariant
                        i <= list.len(),
                        formulas.len() == i,
                        forall|k: int|
                            0 <= k < i ==> (#[trigger] formulas@[k])@ == Term::ExpSum(
                                list@[k].logprobs@,
                            ),
                    decreases list.len() - i,
                {
                    formulas.push(Formula::ExpSum(copied(&list[i].logprobs)));
                    i = i + 1;
                }
                proof {
                    assert(terms(formulas@) =~= groups(list@).map_values(
                        |group: Group| Term::ExpSum(group.logprobs),
                    ));
                }
                Demand::Compute(formulas)
            },
            Phase::Measuring(node, _, probabilities) => {
                let mut formulas: Vec<Formula> = Vec::new();
                formulas.push(Formula::Sum(copied(probabilities)));
                formulas.push(Formula::Complement(self.setting.mass_tolerance));
                let mut i: usize = 0;
                while i < probabilities.len()
                    invariant
                        i <= probabilities.len(),
                        formulas.len() == i + 2,
                        formulas@[0]@ == Term::Sum(probabilities@),
                        formulas@[1]@ == Term::Complement(self.setting.mass_tolerance),
                        forall|k: int|
                            2 <= k < i + 2 ==> (#[trigger] formulas@[k])@ == Term::Product(
                                node.weight,
                                probabilities@[k - 2],
                            ),
                    decreases probabilities.len() - i,
                {
                    formulas.push(Formula::Product(node.weight, probabilities[i]));
                    i = i + 1;
                }
                proof {
                    assert(terms(formulas@) =~= measures(
                        node.weight,
                        self.setting.mass_tolerance,
                        probabilities@,
                    ));
                }
                Demand::Compute(formulas)
            },
            Phase::Shortfall(mass, _) => Demand::Describe(*mass),
            Phase::Totalling(frame) => {
                let mut formulas: Vec<Formula> = Vec::new();
                let mut i: usize = 0;
                while i < frame.credits.len()
                    invariant
                        i <= frame.credits.len(),
                        formulas.len() == i,
                        forall|k: int|
                            0 <= k < i ==> (#[trigger] formulas@[k])@ == Term::Sum(
                                frame.credits@[k]@,
                            ),
                    decreases frame.credits.len() - i,
                {
                    formulas.push(Formula::Sum(copied(&frame.credits[i])));
                    i = i + 1;
                }
                proof {
                    assert(terms(formulas@) =~= frame@.credits.map_values(
                        |credits: Seq<Binary64>| Term::Sum(credits),
                    ));
                }
                Demand::Compute(formulas)
            },
            Phase::Finished(_) => Demand::Nothing,
            Phase::Failed(_) => Demand::Nothing,
        }
    }

    /// Goes on with a reply of the model.
    pub fn reply(self, response: &ChatResponse) -> (next: Scoring)
        requires
            self@.well_formed(),
            self@.stage is Asking,
            self.requests < usize::MAX,
        ensures
            next@ == self@.replied(*response),
            next@.well_formed(),
            forall|n: int| self@.covers(n) ==> #[trigger] next@.covers(n),
    {
        let phase: Phase = match (self.phase, read_alternatives(response)) {
            (Phase::Asking(node), Ok(list)) => Phase::Weighing(node, group_tokens(&list)),
            (_, Err(error)) => Phase::Failed(error),
            (phase, _) => phase,
        };
        proof {
            law_replied_well_formed(self@, *response);
        }
        Scoring {
            setting: self.setting,
            stack: self.stack,
            phase,
            requests: self.requests + 1,
        }
    }

    /// Goes on with the values that were asked for.
    pub fn supply(self, values: Vec<Binary64>) -> (next: Scoring)
        requires
            self@.well_formed(),
            self@.want() matches Want::Compute(list) && values.len() == list.len(),
        ensures
            next@ == self@.computed(values@),
            next@.well_formed(),
            forall|n: int| self@.covers(n) ==> #[trigger] next@.covers(n),
    {
        proof {
            law_computed_well_formed(self@, values@);
        }
        let setting: Setting = self.setting;
        let requests: usize = self.requests;
        let mut stack: Vec<Frame> = self.stack;
        match self.phase {
            Phase::Weighing(node, list) => {
                let mut tokens: Vec<String> = Vec::new();
                let mut i: usize = 0;
                while i < list.len()
                    invariant
                        i <= list.len(),
                        tokens.len() == i,
                        forall|k: int| 0 <= k < i ==> (#[trigger] tokens@[k])@ == list@[k].token@,
                    decreases list.len() - i,
                {
                    tokens.push(list[i].token.clone());
                    i = i + 1;
                }
                proof {
                    assert(texts(tokens@) =~= groups(list@).map_values(|group: Group| group.token));
                }
                Scoring { setting, stack, phase: Phase::Measuring(node, tokens, values), requests }
            },
            Phase::Measuring(node, tokens, _) => {
                if values[0].less(values[1]) {
                    let phase: Phase = Phase::Shortfall(values[0], node.generated);
                    return Scoring { setting, stack, phase, requests };
                }
                let mut branches: Vec<Binary64> = Vec::new();
                let mut i: usize = 2;
                while i < values.len()
                    invariant
                        2 <= i <= values.len(),
                        branches@ == values@.subrange(2, i as int),
                    decreases values.len() - i,
                {
                    branches.push(values[i]);
                    proof {
                        assert(values@.subrange(2, i + 1) =~= values@.subrange(2, i as int).push(
                            values@[i as int],
                        ));
                    }
                    i = i + 1;
                }
                let mut credits: Vec<Vec<Binary64>> = Vec::new();
                let mut k: usize = 0;
                while k < node.candidates.len()
                    invariant
                        k <= node.candidates.len(),
                        credits.len() == k,
                        forall|m: int|
                            0 <= m < k ==> (#[trigger] credits@[m])@ == Seq::<Binary64>::empty(),
                    decreases node.candidates.len() - k,
                {
                    credits.push(Vec::new());
                    k = k + 1;
                }
                let ghost place = node@;
                let frame: Frame = Frame {
                    node,
                    tokens,
                    branches,
                    next: 0,
                    credits,
                    positions: Vec::new(),
                };
                proof {
                    assert(frame@ =~= Open::fresh(place, texts(tokens@), values@.skip(2)));
                }
                let (stack, phase): (Vec<Frame>, Phase) = go_through(&setting, stack, frame);
                Scoring { setting, stack, phase, requests }
            },
            Phase::Totalling(frame) => {
                match stack.pop() {
                    None => Scoring { setting, stack, phase: Phase::Finished(values), requests },
                    Some(parent) => {
                        proof {
                            assert(opens(self.stack@).last() == parent@);
                            assert(opens(stack@) =~= opens(self.stack@).drop_last());
                            lemma_merged_length(parent@.credits, parent@.positions, values@);
                        }
                        let frame: Frame = add_scores(parent, &values);
                        let (stack, phase): (Vec<Frame>, Phase) = go_through(&setting, stack, frame);
                        Scoring { setting, stack, phase, requests }
                    },
                }
            },
            phase => Scoring { setting, stack, phase, requests },
        }
    }

    /// Goes on with the text that was asked for.
    pub fn describe(self, text: &str) -> (next: Scoring)
        requires
            self@.well_formed(),
            self@.stage is Shortfall,
        ensures
            next@ == self@.described(text@),
            next@.well_formed(),
            forall|n: int| self@.covers(n) ==> #[trigger] next@.covers(n),
    {
        let phase: Phase = match self.phase {
            Phase::Shortfall(_, generated) => {
                let mut message: String = "top_logprobs covered only ".to_owned();
                message.append(text);
                message.append(" probability mass at prefix ");
                message.append(show_debug(generated.as_str()).as_str());
                message.append("; increase top_logprobs");
                Phase::Failed(ClassifyError::Upstream(message))
            },
            phase => phase,
        };
        Scoring { setting: self.setting, stack: self.stack, phase, requests: self.requests }
    }
}

} // verus!
