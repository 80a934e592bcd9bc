//! What holds at every place of a walk over the options of a request.

use vstd::prelude::*;

use crate::binary64::Binary64;
use crate::candidate::{
    after, clash, first_clash, first_clash_with, law_shared_prefix_longest, prefix_free,
    shared_prefix, suffixes,
};
use crate::chat::{token_call, ChatResponse};
use crate::classify::{Course, Matter, Point};
use crate::formula::Term;
use crate::outcome::{place_outcome, room, walk_outcome, World};
use crate::request::{law_no_first_duplicate, ClassifyRequest};
use crate::scoring::{
    child, lemma_merged_length, measures, next_move, Move, Open, Place, Progress, Rules, Stage, Want,
};
use crate::text::{law_trimmed, texts, trimmed};
use crate::tokens::{groups_of, law_matching, matching, Group};

verus! {

/// No pair of options clashes exactly if none begins with another.
pub proof fn law_no_clash(options: Seq<Seq<char>>)
    ensures
        first_clash(options) is None <==> prefix_free(options),
    decreases options.len(),
{
    if options.len() > 0 {
        let rest = options.skip(1);
        law_no_clash(rest);
        lemma_no_clash_with(options[0], rest);
        assert(forall|k: int| 0 <= k < rest.len() ==> rest[k] == options[k + 1]);
        if first_clash(options) is None {
            assert forall|i: int, j: int|
                0 <= i < options.len() && 0 <= j < options.len() && i != j implies !(
            #[trigger] options[i]).is_prefix_of(#[trigger] options[j]) by {
                if i == 0 {
                    assert(rest[j - 1] == options[j]);
                } else if j == 0 {
                    assert(rest[i - 1] == options[i]);
                } else {
                    assert(rest[i - 1] == options[i] && rest[j - 1] == options[j]);
                }
            }
        }
        if prefix_free(options) {
            assert forall|i: int, j: int|
                0 <= i < rest.len() && 0 <= j < rest.len() && i != j implies !(
            #[trigger] rest[i]).is_prefix_of(#[trigger] rest[j]) by {
                assert(rest[i] == options[i + 1] && rest[j] == options[j + 1]);
            }
            assert forall|k: int| 0 <= k < rest.len() implies !clash(
                options[0],
                #[trigger] rest[k],
            ) by {
                assert(rest[k] == options[k + 1]);
            }
        }
    }
}

/// An option clashes with none of a list exactly if no clash is found.
proof fn lemma_no_clash_with(option: Seq<char>, others: Seq<Seq<char>>)
    ensures
        first_clash_with(option, others) is None <==> forall|k: int|
            0 <= k < others.len() ==> !clash(option, #[trigger] others[k]),
    decreases others.len(),
{
    if others.len() > 0 {
        let rest = others.skip(1);
        lemma_no_clash_with(option, rest);
        assert(forall|k: int| 0 <= k < rest.len() ==> rest[k] == others[k + 1]);
        if !clash(option, others[0]) && first_clash_with(option, others) is None {
            assert forall|k: int| 0 <= k < others.len() implies !clash(
                option,
                #[trigger] others[k],
            ) by {
                if k > 0 {
                    assert(rest[k - 1] == others[k]);
                }
            }
        }
    }
}

impl Place {
    /// At this place the model has said a part of every candidate: with what
    /// is left of it, after `lead`, it is an option. No candidate's rest
    /// begins with that of another, and there are several.
    pub open spec fn coherent(self, options: Seq<Seq<char>>, lead: Seq<char>) -> bool {
        &&& self.candidates.len() >= 2
        &&& forall|k: int|
            0 <= k < self.candidates.len() ==> self.generated + (
            #[trigger] self.candidates[k]).suffix == lead + self.candidates[k].label
                && options.contains(self.candidates[k].label)
        &&& prefix_free(suffixes(self.candidates))
    }
}

impl Progress {
    /// The place that the walk is at, if it is at one.
    pub open spec fn here(self) -> Option<Place> {
        match self.stage {
            Stage::Asking(place) => Some(place),
            Stage::Weighing(place, _) => Some(place),
            Stage::Measuring(place, _, _) => Some(place),
            Stage::Totalling(open) => Some(open.place),
            _ => None,
        }
    }

    /// Every place of the walk is coherent, and its depth is the number of
    /// places below it, which is less than the tokens that may be spent.
    pub open spec fn coherent(self, options: Seq<Seq<char>>, lead: Seq<char>) -> bool {
        &&& forall|i: int|
            0 <= i < self.stack.len() ==> (#[trigger] self.stack[i]).place.coherent(options, lead)
                && self.stack[i].place.depth == i && i < self.rules.max_tokens
        &&& self.here() matches Some(place) ==> place.coherent(options, lead) && place.depth
            == self.stack.len() && place.depth < self.rules.max_tokens
    }
}

/// What is left of prefix-free texts after a shared beginning is prefix-free.
proof fn lemma_skip_prefix_free(list: Seq<Seq<char>>, head: Seq<char>, rests: Seq<Seq<char>>)
    requires
        prefix_free(list),
        rests.len() == list.len(),
        forall|k: int| 0 <= k < list.len() ==> #[trigger] list[k] == head + rests[k],
    ensures
        prefix_free(rests),
{
    assert forall|i: int, j: int| 0 <= i < rests.len() && 0 <= j < rests.len() && i != j implies !(
    #[trigger] rests[i]).is_prefix_of(#[trigger] rests[j]) by {
        if rests[i].is_prefix_of(rests[j]) {
            assert(list[i] == head + rests[i] && list[j] == head + rests[j]);
            assert forall|m: int| 0 <= m < list[i].len() implies list[i][m] == list[j][m] by {
                if m >= head.len() {
                    let n = m - head.len();
                    assert(rests[i][n] == rests[j].subrange(0, rests[i].len() as int)[n]);
                }
            }
            assert(list[i] =~= list[j].subrange(0, list[i].len() as int));
        }
    }
}

/// A text that begins another, and what follows it there.
proof fn lemma_prefix_splits(head: Seq<char>, text: Seq<char>)
    requires
        head.is_prefix_of(text),
    ensures
        text == head + text.skip(head.len() as int),
{
    assert forall|m: int| 0 <= m < text.len() implies text[m] == (head + text.skip(
        head.len() as int,
    ))[m] by {
        if m < head.len() {
            assert(head[m] == text.subrange(0, head.len() as int)[m]);
        }
    }
    assert(text =~= head + text.skip(head.len() as int));
}

/// The walk over options of which none begins with another starts coherent.
pub proof fn law_walk_starts_coherent(rules: Rules, options: Seq<Seq<char>>, lead: Seq<char>)
    requires
        options.len() >= 2,
        first_clash(options) is None,
        rules.max_tokens >= 1,
    ensures
        Progress::initial(
            rules,
            after(options, shared_prefix(options).len() as int),
            lead + shared_prefix(options),
        ).coherent(options, lead),
{
    let head = shared_prefix(options);
    let candidates = after(options, head.len() as int);
    law_no_clash(options);
    law_shared_prefix_longest(options);
    assert forall|k: int| 0 <= k < options.len() implies #[trigger] options[k] == head + suffixes(
        candidates,
    )[k] by {
        lemma_prefix_splits(head, options[k]);
    }
    lemma_skip_prefix_free(options, head, suffixes(candidates));
    assert forall|k: int| 0 <= k < candidates.len() implies (lead + head) + (
    #[trigger] candidates[k]).suffix == lead + candidates[k].label && options.contains(
        candidates[k].label,
    ) by {
        assert(options[k] == head + suffixes(candidates)[k]);
        assert((lead + head) + candidates[k].suffix =~= lead + (head + candidates[k].suffix));
        assert(candidates[k].label == options[k]);
    }
}

/// A token that leaves several candidates leads to a coherent place.
proof fn lemma_child_coherent(
    options: Seq<Seq<char>>,
    lead: Seq<char>,
    place: Place,
    token: Seq<char>,
    weight: Binary64,
)
    requires
        place.coherent(options, lead),
        matching(place.candidates, token).len() >= 2,
    ensures
        child(place, token, matching(place.candidates, token), weight).coherent(options, lead),
{
    let found = matching(place.candidates, token);
    let next = child(place, token, found, weight);
    law_matching(place.candidates, token);
    assert forall|k: int| 0 <= k < next.candidates.len() implies next.generated + (
    #[trigger] next.candidates[k]).suffix == lead + next.candidates[k].label && options.contains(
        next.candidates[k].label,
    ) by {
        let entry = place.candidates[found[k]];
        assert(token.is_prefix_of(entry.suffix));
        lemma_prefix_splits(token, entry.suffix);
        assert(next.candidates[k].suffix == entry.suffix.skip(token.len() as int));
        assert(place.generated + token + next.candidates[k].suffix =~= place.generated + (token
            + next.candidates[k].suffix));
    }
    let before = found.map_values(|p: int| place.candidates[p].suffix);
    assert(prefix_free(before)) by {
        assert forall|i: int, j: int|
            0 <= i < before.len() && 0 <= j < before.len() && i != j implies !(
        #[trigger] before[i]).is_prefix_of(#[trigger] before[j]) by {
            assert(found[i] != found[j]);
            assert(suffixes(place.candidates)[found[i]] == before[i]);
            assert(suffixes(place.candidates)[found[j]] == before[j]);
        }
    }
    assert forall|k: int| 0 <= k < before.len() implies #[trigger] before[k] == token + suffixes(
        next.candidates,
    )[k] by {
        assert(token.is_prefix_of(place.candidates[found[k]].suffix));
        lemma_prefix_splits(token, before[k]);
    }
    lemma_skip_prefix_free(before, token, suffixes(next.candidates));
}

/// Going through tokens keeps a walk coherent.
proof fn lemma_at_coherent(
    options: Seq<Seq<char>>,
    lead: Seq<char>,
    progress: Progress,
    stack: Seq<Open>,
    open: Open,
)
    requires
        forall|i: int|
            0 <= i < stack.len() ==> (#[trigger] stack[i]).place.coherent(options, lead)
                && stack[i].place.depth == i && i < progress.rules.max_tokens,
        open.place.coherent(options, lead),
        open.place.depth == stack.len(),
        open.place.depth < progress.rules.max_tokens,
    ensures
        progress.at(stack, open).coherent(options, lead),
    decreases open.tokens.len() - open.next,
{
    if open.next < open.tokens.len() {
        let token = open.tokens[open.next as int];
        match next_move(progress.rules, open.place, token) {
            Move::Skip => {
                lemma_at_coherent(options, lead, progress, stack, open.skipped());
            },
            Move::Credit(position) => {
                lemma_at_coherent(options, lead, progress, stack, open.credited(position));
            },
            Move::Stuck => {},
            Move::Descend(positions) => {
                lemma_child_coherent(
                    options,
                    lead,
                    open.place,
                    token,
                    open.branches[open.next as int],
                );
            },
        }
    }
}

/// Whatever a walk is given, it stays coherent.
pub proof fn law_walk_stays_coherent(
    options: Seq<Seq<char>>,
    lead: Seq<char>,
    progress: Progress,
    response: ChatResponse,
    values: Seq<Binary64>,
    text: Seq<char>,
)
    requires
        progress.coherent(options, lead),
    ensures
        progress.stage is Asking ==> progress.replied(response).coherent(options, lead),
        progress.computed(values).coherent(options, lead),
        progress.described(text).coherent(options, lead),
{
    match progress.stage {
        Stage::Measuring(place, tokens, _) => {
            lemma_at_coherent(
                options,
                lead,
                progress,
                progress.stack,
                Open::fresh(place, tokens, values.skip(2)),
            );
        },
        Stage::Totalling(_) => {
            if progress.stack.len() > 0 {
                lemma_at_coherent(
                    options,
                    lead,
                    progress,
                    progress.stack.drop_last(),
                    progress.stack.last().returned(values),
                );
            }
        },
        _ => {},
    }
}

/// A walk that is coherent is so after any number of steps, for any model and
/// any arithmetic.
pub proof fn law_run_stays_coherent(
    w: World,
    options: Seq<Seq<char>>,
    lead: Seq<char>,
    progress: Progress,
    n: nat,
)
    requires
        progress.coherent(options, lead),
    ensures
        progress.run(w, n).coherent(options, lead),
    decreases n,
{
    if n > 0 {
        let (response, values, text) = match progress.want() {
            Want::Ask(call) => match (w.continuation)(progress.requests, call) {
                Ok(response) => (response, seq![], seq![]),
                Err(_) => (arbitrary(), seq![], seq![]),
            },
            Want::Compute(list) => (arbitrary(), w.values(list), seq![]),
            Want::Describe(number) => (arbitrary(), seq![], (w.described)(number)),
            Want::Nothing => (arbitrary(), seq![], seq![]),
        };
        law_walk_stays_coherent(options, lead, progress, response, values, text);
        law_run_stays_coherent(w, options, lead, progress.step(w), (n - 1) as nat);
    }
}

/// Where the model is asked, the texts that it is held to are not empty and
/// differ from each other, and what it has said so far, followed by one of
/// them, is the answer that names an option. Fewer tokens have been spent than
/// may be.
pub proof fn law_asked_texts(options: Seq<Seq<char>>, progress: Progress, place: Place)
    requires
        progress.coherent(options, " "@),
        progress.stage == Stage::Asking(place),
    ensures
        progress.call(place).choice.len() == place.candidates.len(),
        progress.call(place).choice.no_duplicates(),
        forall|k: int|
            0 <= k < place.candidates.len() ==> (#[trigger] progress.call(place).choice[k]).len() > 0,
        forall|k: int|
            0 <= k < place.candidates.len() ==> progress.call(place).messages.last().content
                + #[trigger] progress.call(place).choice[k] == "choice: "@
                + place.candidates[k].label && options.contains(place.candidates[k].label),
        place.depth < progress.rules.max_tokens,
{
    let choice = suffixes(place.candidates);
    assert(progress.call(place).choice == choice);
    assert forall|k: int| 0 <= k < choice.len() implies (#[trigger] choice[k]).len() > 0 by {
        let other = if k == 0 {
            1int
        } else {
            0int
        };
        if choice[k].len() == 0 {
            assert(choice[k] =~= choice[other].subrange(0, 0));
            assert(choice[k].is_prefix_of(choice[other]));
        }
    }
    assert forall|i: int, j: int|
        0 <= i < choice.len() && 0 <= j < choice.len() && i != j implies choice[i] != choice[j] by {
        if choice[i] == choice[j] {
            assert(choice[i] =~= choice[j].subrange(0, choice[i].len() as int));
            assert(choice[i].is_prefix_of(choice[j]));
        }
    }
    reveal_strlit("choice:");
    reveal_strlit(" ");
    reveal_strlit("choice: ");
    assert forall|k: int| 0 <= k < place.candidates.len() implies progress.call(
        place,
    ).messages.last().content + #[trigger] progress.call(place).choice[k] == "choice: "@
        + place.candidates[k].label by {
        let entry = place.candidates[k];
        assert(place.generated + entry.suffix == " "@ + entry.label);
        assert(("choice:"@ + place.generated) + entry.suffix =~= "choice:"@ + (place.generated
            + entry.suffix));
        assert("choice:"@ + (" "@ + entry.label) =~= "choice: "@ + entry.label);
    }
}

/// What a place comes to has one score for each of its candidates, and every
/// failure on the way is the model service's, if requests that bring no reply
/// fail through it.
pub proof fn law_place_outcome(w: World, rules: Rules, place: Place, count: nat)
    ensures
        match place_outcome(w, rules, place, count) {
            Ok((scores, total)) => scores.len() == place.candidates.len() && total > count,
            Err(failure) => w.fails_upstream() ==> failure is Upstream,
        },
    decreases room(rules, place.depth), 2nat, 0nat,
{
    let call = token_call(
        rules.model,
        rules.prompt,
        place.generated,
        rules.top_logprobs,
        suffixes(place.candidates),
    );
    match w.alternatives(count, call) {
        Err(failure) => {},
        Ok(list) => {
            let groups = groups_of(list);
            let tokens = groups.map_values(|group: Group| group.token);
            let probabilities = w.values(
                groups.map_values(
                    |group: Group| Term::ExpSum(group.logprobs),
                ),
            );
            let values = w.values(measures(place.weight, rules.mass_tolerance, probabilities));
            lemma_walk_outcome(w, rules, Open::fresh(place, tokens, values.skip(2)), count + 1);
        },
    }
}

/// What the tokens of a place come to.
proof fn lemma_walk_outcome(w: World, rules: Rules, open: Open, count: nat)
    requires
        open.credits.len() == open.place.candidates.len(),
    ensures
        match walk_outcome(w, rules, open, count) {
            Ok((scores, total)) => scores.len() == open.place.candidates.len() && total >= count,
            Err(failure) => w.fails_upstream() ==> failure is Upstream,
        },
    decreases
            room(rules, open.place.depth),
            0nat,
            open.tokens.len() - open.next,
{
    if open.next < open.tokens.len() {
        let token = open.tokens[open.next as int];
        law_matching(open.place.candidates, token);
        match next_move(rules, open.place, token) {
            Move::Skip => {
                lemma_walk_outcome(w, rules, open.skipped(), count);
            },
            Move::Credit(position) => {
                lemma_walk_outcome(w, rules, open.credited(position), count);
            },
            Move::Stuck => {},
            Move::Descend(positions) => {
                let place = child(open.place, token, positions, open.branches[open.next as int]);
                law_place_outcome(w, rules, place, count);
                match place_outcome(w, rules, place, count) {
                    Err(failure) => {},
                    Ok((scores, total)) => {
                        lemma_merged_length(open.credits, positions, scores);
                        lemma_walk_outcome(w, rules, open.left(positions).returned(scores), total);
                    },
                }
            },
        }
    }
}

/// A classification of a request that was accepted fails only through the
/// model service, if requests to it that bring no reply do; and its response
/// counts at least two requests.
pub proof fn law_failures_upstream(w: World, matter: Matter)
    ensures
        match matter.outcome(w) {
            Ok(verdict) => verdict.vllm_requests >= 2,
            Err(failure) => w.fails_upstream() ==> failure is Upstream,
        },
{
    match w.thoughts(matter.reasoning_call()) {
        Ok(reasoning) => {
            let walk = matter.walk(reasoning);
            match walk.stage {
                Stage::Asking(place) => {
                    law_place_outcome(w, walk.rules, place, 0);
                },
                _ => {},
            }
        },
        Err(failure) => {},
    }
}

/// The options of an accepted request are at least two; each is trimmed and
/// not empty, none occurs twice, and none begins with another. The numbers of
/// the request are in range.
pub proof fn law_accepted(request: ClassifyRequest)
    requires
        request.refusal() is None,
    ensures
        request.offered().len() >= 2,
        forall|i: int|
            0 <= i < request.offered().len() ==> (#[trigger] request.offered()[i]).len() > 0
                && trimmed(request.offered()[i]) == request.offered()[i],
        request.offered().no_duplicates(),
        prefix_free(request.offered()),
        request.thinking_budget >= 1,
        request.max_tokens >= 1,
        request.top_logprobs >= 1,
        request.mass_tolerance.in_unit_interval(),
{
    let offered = request.offered();
    law_no_clash(offered);
    law_no_first_duplicate(offered);
    assert forall|i: int| 0 <= i < offered.len() implies (#[trigger] offered[i]).len() > 0
        && trimmed(offered[i]) == offered[i] by {
        law_trimmed(texts(request.options@)[i]);
        assert(!(trimmed(offered[i]).len() == 0));
    }
}

/// The walk over the options of an accepted request starts coherent, whatever
/// the model thought.
pub proof fn law_accepted_walk(model: Seq<char>, request: ClassifyRequest, reasoning: Seq<char>)
    requires
        request.refusal() is None,
    ensures
        Matter::of(model, request).walk(reasoning).coherent(request.offered(), " "@),
{
    law_accepted(request);
    let matter = Matter::of(model, request);
    law_walk_starts_coherent(matter.rules(reasoning), request.offered(), " "@);
}

/// Whenever the classification of an accepted request has its options scored,
/// the walk over them is coherent, for any model and any arithmetic.
pub proof fn law_classification_coherent(
    w: World,
    model: Seq<char>,
    request: ClassifyRequest,
    n: nat,
)
    requires
        request.refusal() is None,
    ensures
        Course::initial(Matter::of(model, request)).run(w, n).point matches Point::Scoring(walk)
            ==> walk.coherent(request.offered(), " "@),
{
    lemma_course_coherent(w, model, request, Course::initial(Matter::of(model, request)), n);
}

/// A classification whose walk is coherent keeps it so.
proof fn lemma_course_coherent(
    w: World,
    model: Seq<char>,
    request: ClassifyRequest,
    course: Course,
    n: nat,
)
    requires
        request.refusal() is None,
        course.matter == Matter::of(model, request),
        course.point matches Point::Scoring(walk) ==> walk.coherent(request.offered(), " "@),
    ensures
        course.run(w, n).point matches Point::Scoring(walk) ==> walk.coherent(
            request.offered(),
            " "@,
        ),
    decreases n,
{
    if n > 0 {
        let next = course.step(w);
        match course.point {
            Point::Reasoning(_) => {
                match w.thoughts(course.matter.reasoning_call()) {
                    Ok(reasoning) => {
                        law_accepted_walk(model, request, reasoning);
                    },
                    Err(_) => {},
                }
            },
            Point::Scoring(walk) => {
                law_run_stays_coherent(w, request.offered(), " "@, walk, 1);
                assert(walk.run(w, 1) == walk.step(w)) by {
                    reveal_with_fuel(Progress::run, 2);
                }
                if !(walk.want() is Nothing) {
                    assert(next == course.walked(walk.step(w)));
                }
            },
            _ => {},
        }
        lemma_course_coherent(w, model, request, next, (n - 1) as nat);
    }
}

} // verus!
