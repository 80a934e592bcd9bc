//! What a walk comes to.
//!
//! Here the scores are defined by recursion over the places, for any model and
//! any arithmetic, and the walk, which goes step by step, is shown to arrive at
//! them.

use vstd::prelude::*;

use crate::binary64::Binary64;
use crate::candidate::suffixes;
use crate::chat::{
    alternatives_in, reasoning_in, token_call, Alternative, ChatResponse, ReasoningCall, TokenCall,
};
use crate::error::Failure;
use crate::formula::Term;
use crate::scoring::{
    ambiguity_message, child, law_computed_well_formed, law_replied_well_formed, measures,
    next_move, shortfall_message, Move, Open, Place, Progress, Rules, Stage, Want,
};
use crate::tokens::{groups_of, matching, Group};

verus! {

/// The surroundings of a walk: a model that replies to what it is asked, or
/// fails to, and arithmetic on numbers.
pub struct World {
    pub reasoning: spec_fn(ReasoningCall) -> Result<ChatResponse, Failure>,
    /// The reply to a call, which may depend on how many were made before it.
    pub continuation: spec_fn(nat, TokenCall) -> Result<ChatResponse, Failure>,
    pub value: spec_fn(Term) -> Binary64,
    pub described: spec_fn(Binary64) -> Seq<char>,
}

impl World {
    /// What the model thinks when it is asked to.
    pub open spec fn thoughts(self, call: ReasoningCall) -> Result<Seq<char>, Failure> {
        match (self.reasoning)(call) {
            Ok(response) => reasoning_in(response),
            Err(failure) => Err(failure),
        }
    }

    /// How the model could go on, where `count` calls were made before.
    pub open spec fn alternatives(self, count: nat, call: TokenCall) -> Result<
        Seq<Alternative>,
        Failure,
    > {
        match (self.continuation)(count, call) {
            Ok(response) => alternatives_in(response),
            Err(failure) => Err(failure),
        }
    }

    /// A request that brings no reply fails through the model service.
    pub open spec fn fails_upstream(self) -> bool {
        &&& forall|call: ReasoningCall|
            (#[trigger] (self.reasoning)(call)) matches Err(failure) ==> failure is Upstream
        &&& forall|count: nat, call: TokenCall|
            (#[trigger] (self.continuation)(count, call)) matches Err(failure)
                ==> failure is Upstream
    }

    /// The values of formulas.
    pub open spec fn values(self, list: Seq<Term>) -> Seq<Binary64> {
        list.map_values(|term: Term| (self.value)(term))
    }
}

/// How many tokens may still be spent at a depth.
pub open spec fn room(rules: Rules, depth: nat) -> nat {
    if depth < rules.max_tokens {
        (rules.max_tokens - depth) as nat
    } else {
        0
    }
}

/// The scores of the candidates of a place and the number of requests, where
/// `count` requests were made before; or why there are none.
pub open spec fn place_outcome(w: World, rules: Rules, place: Place, count: nat) -> Result<
    (Seq<Binary64>, nat),
    Failure,
>
    decreases room(rules, place.depth), 2nat, 0nat,
{
    let call = token_call(
        rules.model,
        rules.prompt,
        place.generated,
        rules.top_logprobs,
        suffixes(place.candidates),
    );
    match w.alternatives(count, call) {
        Err(failure) => Err(failure),
        Ok(list) => tokens_outcome(
            w,
            rules,
            place,
            groups_of(list).map_values(|group: Group| group.token),
            w.values(groups_of(list).map_values(|group: Group| Term::ExpSum(group.logprobs))),
            count + 1,
        ),
    }
}

/// What a place comes to, given its tokens and their probabilities: the
/// probabilities must not leave out more than the tolerance.
pub open spec fn tokens_outcome(
    w: World,
    rules: Rules,
    place: Place,
    tokens: Seq<Seq<char>>,
    probabilities: Seq<Binary64>,
    count: nat,
) -> Result<(Seq<Binary64>, nat), Failure>
    decreases room(rules, place.depth), 1nat, 0nat,
{
    let values = w.values(measures(place.weight, rules.mass_tolerance, probabilities));
    if values[0].below(values[1]) {
        Err(Failure::Upstream(shortfall_message((w.described)(values[0]), place.generated)))
    } else {
        walk_outcome(w, rules, Open::fresh(place, tokens, values.skip(2)), count)
    }
}

/// What a place comes to from the next of its tokens on.
pub open spec fn walk_outcome(w: World, rules: Rules, open: Open, count: nat) -> Result<
    (Seq<Binary64>, nat),
    Failure,
>
    decreases room(rules, open.place.depth), 0nat, open.tokens.len() - open.next,
{
    if open.next >= open.tokens.len() {
        Ok(
            (
                w.values(open.credits.map_values(|credits: Seq<Binary64>| Term::Sum(credits))),
                count,
            ),
        )
    } else {
        let token = open.tokens[open.next as int];
        match next_move(rules, open.place, token) {
            Move::Skip => walk_outcome(w, rules, open.skipped(), count),
            Move::Credit(position) => walk_outcome(w, rules, open.credited(position), count),
            Move::Stuck => Err(
                Failure::Upstream(
                    ambiguity_message(open.place.generated + token, rules.max_tokens),
                ),
            ),
            Move::Descend(positions) => {
                let place = child(open.place, token, positions, open.branches[open.next as int]);
                match place_outcome(w, rules, place, count) {
                    Err(failure) => Err(failure),
                    Ok((scores, count)) => walk_outcome(
                        w,
                        rules,
                        open.left(positions).returned(scores),
                        count,
                    ),
                }
            },
        }
    }
}

/// What the outcome of a place comes to for the places that were left for it.
pub open spec fn unwound(
    w: World,
    rules: Rules,
    stack: Seq<Open>,
    outcome: Result<(Seq<Binary64>, nat), Failure>,
) -> Result<(Seq<Binary64>, nat), Failure>
    decreases stack.len(),
{
    if stack.len() == 0 {
        outcome
    } else {
        match outcome {
            Err(failure) => Err(failure),
            Ok((scores, count)) => unwound(
                w,
                rules,
                stack.drop_last(),
                walk_outcome(w, rules, stack.last().returned(scores), count),
            ),
        }
    }
}

impl Progress {
    /// What the place that the walk is at comes to.
    pub open spec fn stage_outcome(self, w: World) -> Result<(Seq<Binary64>, nat), Failure> {
        match self.stage {
            Stage::Asking(place) => place_outcome(w, self.rules, place, self.requests),
            Stage::Weighing(place, list) => tokens_outcome(
                w,
                self.rules,
                place,
                list.map_values(|group: Group| group.token),
                w.values(list.map_values(|group: Group| Term::ExpSum(group.logprobs))),
                self.requests,
            ),
            Stage::Measuring(place, tokens, probabilities) => tokens_outcome(
                w,
                self.rules,
                place,
                tokens,
                probabilities,
                self.requests,
            ),
            Stage::Shortfall(mass, generated) => Err(
                Failure::Upstream(shortfall_message((w.described)(mass), generated)),
            ),
            Stage::Totalling(open) => Ok(
                (
                    w.values(open.credits.map_values(|credits: Seq<Binary64>| Term::Sum(credits))),
                    self.requests,
                ),
            ),
            Stage::Finished(scores) => Ok((scores, self.requests)),
            Stage::Failed(failure) => Err(failure),
        }
    }

    /// What the walk comes to.
    pub open spec fn outcome(self, w: World) -> Result<(Seq<Binary64>, nat), Failure> {
        unwound(w, self.rules, self.stack, self.stage_outcome(w))
    }

    /// The walk after its surroundings have given it what it wants.
    pub open spec fn step(self, w: World) -> Progress {
        match self.want() {
            Want::Ask(call) => match (w.continuation)(self.requests, call) {
                Ok(response) => self.replied(response),
                Err(failure) => self.failed(failure),
            },
            Want::Compute(list) => self.computed(w.values(list)),
            Want::Describe(number) => self.described((w.described)(number)),
            Want::Nothing => self,
        }
    }

    /// The walk after `n` steps.
    pub open spec fn run(self, w: World, n: nat) -> Progress
        decreases n,
    {
        if n == 0 {
            self
        } else {
            self.step(w).run(w, (n - 1) as nat)
        }
    }

    /// How often the model is asked in `n` steps.
    pub open spec fn asked(self, w: World, n: nat) -> nat
        decreases n,
    {
        if n == 0 {
            0
        } else {
            (if self.stage is Asking {
                1nat
            } else {
                0nat
            }) + self.step(w).asked(w, (n - 1) as nat)
        }
    }
}

/// Going through the tokens of a place changes nothing in what it comes to.
proof fn lemma_at_outcome(w: World, progress: Progress, stack: Seq<Open>, open: Open)
    ensures
        progress.at(stack, open).outcome(w) == unwound(
            w,
            progress.rules,
            stack,
            walk_outcome(w, progress.rules, open, progress.requests),
        ),
    decreases open.tokens.len() - open.next,
{
    if open.next < open.tokens.len() {
        let token = open.tokens[open.next as int];
        match next_move(progress.rules, open.place, token) {
            Move::Skip => {
                lemma_at_outcome(w, progress, stack, open.skipped());
            },
            Move::Credit(position) => {
                lemma_at_outcome(w, progress, stack, open.credited(position));
            },
            Move::Stuck => {},
            Move::Descend(positions) => {
                let left = stack.push(open.left(positions));
                assert(left.drop_last() =~= stack);
                assert(left.last() == open.left(positions));
            },
        }
    }
}

/// A step changes nothing in what a walk comes to, and leaves it well formed.
pub proof fn law_step_keeps_outcome(w: World, progress: Progress)
    requires
        progress.well_formed(),
    ensures
        progress.step(w).outcome(w) == progress.outcome(w),
        progress.step(w).well_formed(),
        progress.step(w).rules == progress.rules,
{
    match progress.stage {
        Stage::Asking(place) => {
            match (w.continuation)(progress.requests, progress.call(place)) {
                Ok(response) => {
                    law_replied_well_formed(progress, response);
                },
                Err(_) => {},
            }
        },
        Stage::Weighing(place, list) => {
            let wanted = list.map_values(|group: Group| Term::ExpSum(group.logprobs));
            law_computed_well_formed(progress, w.values(wanted));
        },
        Stage::Measuring(place, tokens, probabilities) => {
            let wanted = measures(place.weight, progress.rules.mass_tolerance, probabilities);
            let values = w.values(wanted);
            law_computed_well_formed(progress, values);
            if !values[0].below(values[1]) {
                lemma_at_outcome(
                    w,
                    progress,
                    progress.stack,
                    Open::fresh(place, tokens, values.skip(2)),
                );
            }
        },
        Stage::Totalling(open) => {
            let wanted = open.credits.map_values(|credits: Seq<Binary64>| Term::Sum(credits));
            let values = w.values(wanted);
            law_computed_well_formed(progress, values);
            if progress.stack.len() > 0 {
                lemma_at_outcome(
                    w,
                    progress,
                    progress.stack.drop_last(),
                    progress.stack.last().returned(values),
                );
            }
        },
        _ => {},
    }
}

/// Steps change nothing in what a walk comes to; a walk that is over stands
/// there with its outcome; and the requests it counts are those it made.
pub proof fn law_run_keeps_outcome(w: World, progress: Progress, n: nat)
    requires
        progress.well_formed(),
    ensures
        progress.run(w, n).well_formed(),
        progress.run(w, n).outcome(w) == progress.outcome(w),
        progress.run(w, n).requests == progress.requests + progress.asked(w, n),
        progress.run(w, n).stage matches Stage::Finished(scores) ==> progress.outcome(w) == Ok::<
            (Seq<Binary64>, nat),
            Failure,
        >((scores, progress.requests + progress.asked(w, n))),
        progress.run(w, n).stage matches Stage::Failed(failure) ==> progress.outcome(w) == Err::<
            (Seq<Binary64>, nat),
            Failure,
        >(failure),
    decreases n,
{
    if n > 0 {
        law_step_keeps_outcome(w, progress);
        law_run_keeps_outcome(w, progress.step(w), (n - 1) as nat);
        assert(progress.step(w).requests == progress.requests + (if progress.stage is Asking {
            1nat
        } else {
            0nat
        }));
    }
}

/// Steps compose.
proof fn lemma_run_composes(w: World, progress: Progress, a: nat, b: nat)
    ensures
        progress.run(w, a + b) == progress.run(w, a).run(w, b),
    decreases a,
{
    if a > 0 {
        lemma_run_composes(w, progress.step(w), (a - 1) as nat, b);
        assert((a + b - 1) as nat == (a - 1) as nat + b);
    }
}

/// Steps leave the rules as they are.
proof fn lemma_run_keeps_rules(w: World, progress: Progress, n: nat)
    ensures
        progress.run(w, n).rules == progress.rules,
    decreases n,
{
    if n > 0 {
        lemma_run_keeps_rules(w, progress.step(w), (n - 1) as nat);
    }
}

/// After `n` steps the walk has failed, or it has gone through all tokens of a
/// place above `stack`.
spec fn ready(w: World, progress: Progress, stack: Seq<Open>, n: nat) -> bool {
    let there = progress.run(w, n);
    there.stage is Failed || (there.stage is Totalling && there.stack == stack)
}

/// What is ready after some steps more is ready after all of them.
proof fn lemma_ready_later(w: World, progress: Progress, stack: Seq<Open>, a: nat, b: nat)
    requires
        ready(w, progress.run(w, a), stack, b),
    ensures
        ready(w, progress, stack, a + b),
{
    lemma_run_composes(w, progress, a, b);
}

/// A place whose model is asked is gone through in some number of steps.
proof fn lemma_asking_ready(w: World, progress: Progress, place: Place) -> (n: nat)
    requires
        progress.stage == Stage::Asking(place),
    ensures
        ready(w, progress, progress.stack, n),
    decreases room(progress.rules, place.depth), 2nat, 0nat,
{
    let first = progress.step(w);
    reveal_with_fuel(Progress::run, 3);
    if first.stage is Failed {
        1
    } else {
        let second = first.step(w);
        assert(progress.run(w, 2) == second);
        match second.stage {
            Stage::Measuring(place, tokens, probabilities) => {
                let n = lemma_measuring_ready(w, second, place, tokens, probabilities);
                lemma_ready_later(w, progress, progress.stack, 2, n);
                2 + n
            },
            _ => {
                assert(false);
                0
            },
        }
    }
}

/// A place whose tokens have probabilities is gone through in some number of
/// steps.
proof fn lemma_measuring_ready(
    w: World,
    progress: Progress,
    place: Place,
    tokens: Seq<Seq<char>>,
    probabilities: Seq<Binary64>,
) -> (n: nat)
    requires
        progress.stage == Stage::Measuring(place, tokens, probabilities),
    ensures
        ready(w, progress, progress.stack, n),
    decreases room(progress.rules, place.depth), 1nat, 0nat,
{
    reveal_with_fuel(Progress::run, 3);
    let next = progress.step(w);
    assert(progress.run(w, 1) == next);
    if next.stage is Shortfall {
        assert(progress.run(w, 2) == next.step(w));
        2
    } else {
        let values = w.values(
            measures(place.weight, progress.rules.mass_tolerance, probabilities),
        );
        let open = Open::fresh(place, tokens, values.skip(2));
        if values[0].below(values[1]) {
            assert(false);
        }
        let n = lemma_walk_ready(w, progress, progress.stack, open);
        lemma_ready_later(w, progress, progress.stack, 1, n);
        1 + n
    }
}

/// The tokens of a place are gone through in some number of steps.
proof fn lemma_walk_ready(w: World, progress: Progress, stack: Seq<Open>, open: Open) -> (n: nat)
    ensures
        ready(w, progress.at(stack, open), stack, n),
    decreases room(progress.rules, open.place.depth), 0nat, open.tokens.len() - open.next,
{
    let start = progress.at(stack, open);
    if open.next >= open.tokens.len() {
        0
    } else {
        let token = open.tokens[open.next as int];
        match next_move(progress.rules, open.place, token) {
            Move::Skip => lemma_walk_ready(w, progress, stack, open.skipped()),
            Move::Credit(position) => lemma_walk_ready(w, progress, stack, open.credited(position)),
            Move::Stuck => 0,
            Move::Descend(positions) => {
                let place = child(open.place, token, positions, open.branches[open.next as int]);
                let n1 = lemma_asking_ready(w, start, place);
                let there = start.run(w, n1);
                lemma_run_keeps_rules(w, start, n1);
                if there.stage is Failed {
                    n1
                } else {
                    let left = open.left(positions);
                    assert(start.stack.drop_last() =~= stack);
                    let wanted = there.stage->Totalling_0.credits.map_values(
                        |credits: Seq<Binary64>| Term::Sum(credits),
                    );
                    let back = left.returned(w.values(wanted));
                    assert(there.step(w) == there.at(stack, back));
                    let n2 = lemma_walk_ready(w, there, stack, back);
                    assert(there.run(w, 1) == there.step(w)) by {
                        reveal_with_fuel(Progress::run, 2);
                    }
                    lemma_ready_later(w, there, stack, 1, n2);
                    lemma_ready_later(w, start, stack, n1, 1 + n2);
                    n1 + (1 + n2)
                }
            },
        }
    }
}

/// A walk that has gone through a place is over after some number of steps.
proof fn lemma_totalling_settles(w: World, progress: Progress) -> (n: nat)
    requires
        progress.stage is Totalling,
    ensures
        progress.run(w, n).settled(),
    decreases progress.stack.len(),
{
    reveal_with_fuel(Progress::run, 2);
    let next = progress.step(w);
    assert(progress.run(w, 1) == next);
    if progress.stack.len() == 0 {
        1
    } else {
        let stack = progress.stack.drop_last();
        let wanted = progress.stage->Totalling_0.credits.map_values(
            |credits: Seq<Binary64>| Term::Sum(credits),
        );
        let back = progress.stack.last().returned(w.values(wanted));
        assert(next == progress.at(stack, back));
        let n1 = lemma_walk_ready(w, progress, stack, back);
        let there = next.run(w, n1);
        lemma_run_composes(w, progress, 1, n1);
        if there.stage is Failed {
            1 + n1
        } else {
            let n2 = lemma_totalling_settles(w, there);
            lemma_run_composes(w, progress, 1 + n1, n2);
            1 + n1 + n2
        }
    }
}

/// Whatever the model replies and however numbers are computed, a walk comes
/// to an end: after some number of steps it has scores or a failure.
pub proof fn law_walk_ends(w: World, progress: Progress)
    ensures
        exists|n: nat| #[trigger] progress.run(w, n).settled(),
{
    let n: nat = match progress.stage {
        Stage::Asking(place) => lemma_asking_ready(w, progress, place),
        Stage::Weighing(place, list) => {
            reveal_with_fuel(Progress::run, 2);
            let next = progress.step(w);
            assert(progress.run(w, 1) == next);
            match next.stage {
                Stage::Measuring(place, tokens, probabilities) => {
                    let n = lemma_measuring_ready(w, next, place, tokens, probabilities);
                    lemma_ready_later(w, progress, progress.stack, 1, n);
                    1 + n
                },
                _ => 0,
            }
        },
        Stage::Measuring(place, tokens, probabilities) => lemma_measuring_ready(
            w,
            progress,
            place,
            tokens,
            probabilities,
        ),
        Stage::Shortfall(_, _) => {
            reveal_with_fuel(Progress::run, 2);
            assert(progress.run(w, 1) == progress.step(w));
            1
        },
        _ => 0,
    };
    let there = progress.run(w, n);
    if there.stage is Totalling {
        let more = lemma_totalling_settles(w, there);
        lemma_run_composes(w, progress, n, more);
        assert(progress.run(w, n + more).settled());
    } else {
        assert(progress.run(w, n).settled());
    }
}

/// At the last depth a place has scores only if no token leaves several of its
/// candidates possible; in which order the tokens are gone through makes no
/// difference to that.
pub proof fn law_last_depth(w: World, rules: Rules, open: Open, count: nat)
    requires
        open.place.depth + 1 >= rules.max_tokens,
    ensures
        walk_outcome(w, rules, open, count) is Ok <==> forall|i: int|
            open.next <= i < open.tokens.len() && (#[trigger] open.tokens[i]).len() > 0 ==> matching(
                open.place.candidates,
                open.tokens[i],
            ).len() <= 1,
    decreases open.tokens.len() - open.next,
{
    if open.next < open.tokens.len() {
        let token = open.tokens[open.next as int];
        match next_move(rules, open.place, token) {
            Move::Skip => {
                law_last_depth(w, rules, open.skipped(), count);
            },
            Move::Credit(position) => {
                law_last_depth(w, rules, open.credited(position), count);
            },
            _ => {},
        }
    }
}

} // verus!
