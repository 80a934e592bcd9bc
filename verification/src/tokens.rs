//! The alternatives at one token: grouped by token, and held against the
//! candidates.

use vstd::prelude::*;
use vstd::string::*;

use crate::binary64::Binary64;
use crate::candidate::{entries, Candidate, Entry};
use crate::chat::{alternatives, Alternative, TokenLogprob};
use crate::text::{starts_with, texts};

verus! {

/// A token with all the log probabilities that a reply gives it.
#[derive(Debug)]
pub struct TokenGroup {
    pub token: String,
    pub logprobs: Vec<Binary64>,
}

/// What a `TokenGroup` holds.
#[verifier::ext_equal]
pub struct Group {
    pub token: Seq<char>,
    pub logprobs: Seq<Binary64>,
}

impl View for TokenGroup {
    type V = Group;

    open spec fn view(&self) -> Group {
        Group { token: self.token@, logprobs: self.logprobs@ }
    }
}

/// What each group of a list holds.
pub open spec fn groups(list: Seq<TokenGroup>) -> Seq<Group> {
    list.map_values(|group: TokenGroup| group@)
}

/// The tokens of a list of alternatives, each once, in the order in which they
/// come first.
pub open spec fn distinct_tokens(list: Seq<Alternative>) -> Seq<Seq<char>>
    decreases list.len(),
{
    if list.len() == 0 {
        seq![]
    } else {
        let earlier = distinct_tokens(list.drop_last());
        if earlier.contains(list.last().token) {
            earlier
        } else {
            earlier.push(list.last().token)
        }
    }
}

/// The log probabilities that a list of alternatives gives a token.
pub open spec fn logprobs_of(list: Seq<Alternative>, token: Seq<char>) -> Seq<Binary64>
    decreases list.len(),
{
    if list.len() == 0 {
        seq![]
    } else {
        let earlier = logprobs_of(list.drop_last(), token);
        if list.last().token == token {
            earlier.push(list.last().logprob)
        } else {
            earlier
        }
    }
}

/// The alternatives by token.
pub open spec fn groups_of(list: Seq<Alternative>) -> Seq<Group> {
    distinct_tokens(list).map_values(
        |token: Seq<char>| Group { token, logprobs: logprobs_of(list, token) },
    )
}

/// The positions of the candidates that go on with `token`, in ascending
/// order.
pub open spec fn matching(candidates: Seq<Entry>, token: Seq<char>) -> Seq<int>
    decreases candidates.len(),
{
    if candidates.len() == 0 {
        seq![]
    } else {
        let earlier = matching(candidates.drop_last(), token);
        if token.is_prefix_of(candidates.last().suffix) {
            earlier.push(candidates.len() - 1)
        } else {
            earlier
        }
    }
}

/// The candidates at the given positions, after `n` more characters.
pub open spec fn narrowed(candidates: Seq<Entry>, positions: Seq<int>, n: int) -> Seq<Entry> {
    positions.map_values(
        |p: int| Entry { label: candidates[p].label, suffix: candidates[p].suffix.skip(n) },
    )
}

/// Positions as integers.
pub open spec fn indices(list: Seq<usize>) -> Seq<int> {
    list.map_values(|p: usize| p as int)
}

/// Whether a list holds a text.
fn holds(list: &Vec<String>, text: &String) -> (result: bool)
    ensures
        result == texts(list@).contains(text@),
{
    let mut i: usize = 0;
    while i < list.len()
        invariant
            i <= list.len(),
            forall|k: int| 0 <= k < i ==> (#[trigger] list@[k])@ != text@,
        decreases list.len() - i,
    {
        if list[i] == *text {
            proof {
                assert(texts(list@)[i as int] == text@);
            }
            return true;
        }
        i = i + 1;
    }
    proof {
        assert forall|k: int| 0 <= k < texts(list@).len() implies texts(list@)[k] != text@ by {
            assert(texts(list@)[k] == list@[k]@);
        }
    }
    false
}

/// The log probabilities that the alternatives give a token.
fn collect_logprobs(list: &Vec<TokenLogprob>, token: &String) -> (logprobs: Vec<Binary64>)
    ensures
        logprobs@ == logprobs_of(alternatives(list@), token@),
{
    let ghost all = alternatives(list@);
    let mut logprobs: Vec<Binary64> = Vec::new();
    let mut i: usize = 0;
    while i < list.len()
        invariant
            all == alternatives(list@),
            i <= list.len(),
            logprobs@ == logprobs_of(all.take(i as int), token@),
        decreases list.len() - i,
    {
        proof {
            assert(all.take(i + 1).drop_last() =~= all.take(i as int));
            assert(all.take(i + 1).last() == list@[i as int]@);
        }
        if list[i].token == *token {
            logprobs.push(list[i].logprob);
        }
        i = i + 1;
    }
    proof {
        assert(all.take(all.len() as int) =~= all);
    }
    logprobs
}

/// Groups alternatives by token, in the order in which the tokens come first.
pub fn group_tokens(list: &Vec<TokenLogprob>) -> (result: Vec<TokenGroup>)
    ensures
        groups(result@) == groups_of(alternatives(list@)),
{
    let ghost all = alternatives(list@);
    let mut tokens: Vec<String> = Vec::new();
    let mut i: usize = 0;
    while i < list.len()
        invariant
            all == alternatives(list@),
            i <= list.len(),
            texts(tokens@) == distinct_tokens(all.take(i as int)),
        decreases list.len() - i,
    {
        proof {
            assert(all.take(i + 1).drop_last() =~= all.take(i as int));
            assert(all.take(i + 1).last() == list@[i as int]@);
        }
        if !holds(&tokens, &list[i].token) {
            let token: String = list[i].token.clone();
            proof {
                assert(texts(tokens@.push(token)) =~= texts(tokens@).push(token@));
            }
            tokens.push(token);
        }
        i = i + 1;
    }
    proof {
        assert(all.take(all.len() as int) =~= all);
    }
    let mut result: Vec<TokenGroup> = Vec::new();
    let mut j: usize = 0;
    while j < tokens.len()
        invariant
            all == alternatives(list@),
            texts(tokens@) == distinct_tokens(all),
            j <= tokens.len(),
            groups(result@) == groups_of(all).take(j as int),
        decreases tokens.len() - j,
    {
        let group: TokenGroup = TokenGroup {
            token: tokens[j].clone(),
            logprobs: collect_logprobs(list, &tokens[j]),
        };
        proof {
            assert(texts(tokens@)[j as int] == tokens@[j as int]@);
            assert(group@ == groups_of(all)[j as int]);
            assert(groups(result@.push(group)) =~= groups(result@).push(group@));
            assert(groups_of(all).take(j + 1) =~= groups_of(all).take(j as int).push(
                groups_of(all)[j as int],
            ));
        }
        result.push(group);
        j = j + 1;
    }
    proof {
        assert(groups_of(all).take(groups_of(all).len() as int) =~= groups_of(all));
    }
    result
}

/// The positions of the candidates that go on with `token`.
pub fn match_candidates(candidates: &Vec<Candidate>, token: &str) -> (positions: Vec<usize>)
    ensures
        indices(positions@) == matching(entries(candidates@), token@),
{
    let ghost all = entries(candidates@);
    let mut positions: Vec<usize> = Vec::new();
    let mut i: usize = 0;
    while i < candidates.len()
        invariant
            all == entries(candidates@),
            i <= candidates.len(),
            indices(positions@) == matching(all.take(i as int), token@),
        decreases candidates.len() - i,
    {
        proof {
            assert(all.take(i + 1).drop_last() =~= all.take(i as int));
            assert(all.take(i + 1).last() == candidates@[i as int]@);
        }
        if starts_with(candidates[i].suffix.as_str(), token) {
            proof {
                assert(indices(positions@.push(i)) =~= indices(positions@).push(i as int));
            }
            positions.push(i);
        }
        i = i + 1;
    }
    proof {
        assert(all.take(all.len() as int) =~= all);
    }
    positions
}

/// The positions of matching candidates are within range, ascending, and
/// exactly those whose suffix begins with the token.
pub proof fn law_matching(candidates: Seq<Entry>, token: Seq<char>)
    ensures
        forall|k: int|
            0 <= k < matching(candidates, token).len() ==> 0 <= #[trigger] matching(
                candidates,
                token,
            )[k] < candidates.len() && token.is_prefix_of(
                candidates[matching(candidates, token)[k]].suffix,
            ),
        forall|j: int, k: int|
            0 <= j < k < matching(candidates, token).len() ==> #[trigger] matching(
                candidates,
                token,
            )[j] < #[trigger] matching(candidates, token)[k],
        forall|p: int|
            0 <= p < candidates.len() && token.is_prefix_of(#[trigger] candidates[p].suffix)
                ==> matching(candidates, token).contains(p),
    decreases candidates.len(),
{
    if candidates.len() > 0 {
        let front = candidates.drop_last();
        let earlier = matching(front, token);
        law_matching(front, token);
        let found = matching(candidates, token);
        assert forall|k: int| 0 <= k < found.len() implies 0 <= #[trigger] found[k] < candidates.len()
            && token.is_prefix_of(candidates[found[k]].suffix) by {
            if k < earlier.len() {
                assert(found[k] == earlier[k]);
                assert(front[earlier[k]] == candidates[earlier[k]]);
            }
        }
        assert forall|p: int|
            0 <= p < candidates.len() && token.is_prefix_of(#[trigger] candidates[p].suffix) implies found.contains(
        p) by {
            if p < front.len() {
                assert(front[p] == candidates[p]);
                assert(earlier.contains(p));
                let k = choose|k: int| 0 <= k < earlier.len() && earlier[k] == p;
                assert(found[k] == p);
            } else {
                assert(found[found.len() - 1] == p);
            }
        }
    }
}

/// The candidates at the given positions, after `n` more characters.
pub fn narrow(candidates: &Vec<Candidate>, positions: &Vec<usize>, n: usize) -> (result: Vec<
    Candidate,
>)
    requires
        forall|k: int|
            0 <= k < positions.len() ==> (#[trigger] positions@[k]) < candidates.len() && n
                <= candidates@[positions@[k] as int].suffix@.len(),
    ensures
        entries(result@) == narrowed(entries(candidates@), indices(positions@), n as int),
{
    let ghost goal = narrowed(entries(candidates@), indices(positions@), n as int);
    let mut result: Vec<Candidate> = Vec::new();
    let mut k: usize = 0;
    while k < positions.len()
        invariant
            goal == narrowed(entries(candidates@), indices(positions@), n as int),
            forall|k: int|
                0 <= k < positions.len() ==> (#[trigger] positions@[k]) < candidates.len() && n
                    <= candidates@[positions@[k] as int].suffix@.len(),
            k <= positions.len(),
            entries(result@) == goal.take(k as int),
        decreases positions.len() - k,
    {
        let candidate: &Candidate = &candidates[positions[k]];
        let end: usize = candidate.suffix.as_str().unicode_len();
        let next: Candidate = Candidate {
            label: candidate.label.clone(),
            suffix: candidate.suffix.as_str().substring_char(n, end).to_owned(),
        };
        proof {
            assert(candidate.suffix@.subrange(n as int, end as int) =~= candidate.suffix@.skip(
                n as int,
            ));
            assert(next@ == goal[k as int]);
            assert(entries(result@.push(next)) =~= entries(result@).push(next@));
            assert(goal.take(k + 1) =~= goal.take(k as int).push(goal[k as int]));
        }
        result.push(next);
        k = k + 1;
    }
    proof {
        assert(goal.take(goal.len() as int) =~= goal);
    }
    result
}

/// Each token of the alternatives has one group, and no group is empty of log
/// probabilities.
pub proof fn law_distinct_tokens(list: Seq<Alternative>)
    ensures
        distinct_tokens(list).no_duplicates(),
        forall|i: int|
            0 <= i < list.len() ==> distinct_tokens(list).contains((#[trigger] list[i]).token),
        forall|token: Seq<char>|
            distinct_tokens(list).contains(token) ==> #[trigger] logprobs_of(list, token).len() > 0,
    decreases list.len(),
{
    if list.len() > 0 {
        let front = list.drop_last();
        let earlier = distinct_tokens(front);
        let found = distinct_tokens(list);
        law_distinct_tokens(front);
        assert forall|i: int| 0 <= i < list.len() implies found.contains((#[trigger] list[i]).token) by {
            if i < front.len() {
                assert(front[i] == list[i]);
                let k = choose|k: int| 0 <= k < earlier.len() && earlier[k] == list[i].token;
                assert(found[k] == list[i].token);
            } else if !earlier.contains(list.last().token) {
                assert(found[earlier.len() as int] == list.last().token);
            }
        }
        assert forall|token: Seq<char>| found.contains(token) implies #[trigger] logprobs_of(
            list,
            token,
        ).len() > 0 by {
            let k = choose|k: int| 0 <= k < found.len() && found[k] == token;
            if k < earlier.len() {
                assert(earlier[k] == token);
                assert(earlier.contains(token));
                assert(logprobs_of(front, token).len() > 0);
            }
        }
    }
}

/// The log probabilities of a token are those of the alternatives with this
/// token, in their order, and nothing else.
pub proof fn law_logprobs(list: Seq<Alternative>, token: Seq<char>)
    ensures
        logprobs_of(list, token) == list.filter(|item: Alternative| item.token == token).map_values(
            |item: Alternative| item.logprob,
        ),
    decreases list.len(),
{
    let wanted = |item: Alternative| item.token == token;
    let number = |item: Alternative| item.logprob;
    reveal(Seq::filter);
    if list.len() > 0 {
        let front = list.drop_last();
        law_logprobs(front, token);
        let kept = front.filter(wanted);
        if list.last().token == token {
            assert(list.filter(wanted) == kept.push(list.last()));
            assert(kept.push(list.last()).map_values(number) =~= kept.map_values(number).push(
                list.last().logprob,
            ));
        } else {
            assert(list.filter(wanted) == kept);
        }
    } else {
        assert(list.filter(wanted).map_values(number) =~= seq![]);
    }
}

/// The groups of alternatives: each token that occurs has exactly one, no other
/// token has any, and each holds the log probabilities of its token.
pub proof fn law_groups(list: Seq<Alternative>)
    ensures
        forall|i: int, j: int|
            0 <= i < j < groups_of(list).len() ==> (#[trigger] groups_of(list)[i]).token != (
            #[trigger] groups_of(list)[j]).token,
        forall|k: int|
            0 <= k < list.len() ==> exists|i: int|
                0 <= i < groups_of(list).len() && (#[trigger] groups_of(list)[i]).token == (
                #[trigger] list[k]).token,
        forall|i: int|
            0 <= i < groups_of(list).len() ==> exists|k: int|
                0 <= k < list.len() && (#[trigger] list[k]).token == (#[trigger] groups_of(
                    list,
                )[i]).token,
        forall|i: int|
            0 <= i < groups_of(list).len() ==> (#[trigger] groups_of(list)[i]).logprobs
                == list.filter(
                |item: Alternative| item.token == groups_of(list)[i].token,
            ).map_values(|item: Alternative| item.logprob),
{
    let tokens = distinct_tokens(list);
    law_distinct_tokens(list);
    assert forall|k: int| 0 <= k < list.len() implies exists|i: int|
        0 <= i < groups_of(list).len() && (#[trigger] groups_of(list)[i]).token == (
        #[trigger] list[k]).token by {
        assert(tokens.contains(list[k].token));
        let i = choose|i: int| 0 <= i < tokens.len() && tokens[i] == list[k].token;
        assert(groups_of(list)[i].token == list[k].token);
    }
    assert forall|i: int| 0 <= i < groups_of(list).len() implies exists|k: int|
        0 <= k < list.len() && (#[trigger] list[k]).token == (#[trigger] groups_of(
            list,
        )[i]).token by {
        lemma_distinct_occurs(list, i);
    }
    assert forall|i: int| 0 <= i < groups_of(list).len() implies (#[trigger] groups_of(
        list,
    )[i]).logprobs == list.filter(
        |item: Alternative| item.token == groups_of(list)[i].token,
    ).map_values(|item: Alternative| item.logprob) by {
        law_logprobs(list, groups_of(list)[i].token);
    }
}

/// A token that has a group occurs among the alternatives.
proof fn lemma_distinct_occurs(list: Seq<Alternative>, i: int)
    requires
        0 <= i < distinct_tokens(list).len(),
    ensures
        exists|k: int| 0 <= k < list.len() && (#[trigger] list[k]).token == distinct_tokens(list)[i],
    decreases list.len(),
{
    if list.len() > 0 {
        let front = list.drop_last();
        if i < distinct_tokens(front).len() {
            lemma_distinct_occurs(front, i);
            let k = choose|k: int|
                0 <= k < front.len() && (#[trigger] front[k]).token == distinct_tokens(front)[i];
            assert(list[k].token == distinct_tokens(list)[i]);
        } else {
            assert(list[list.len() - 1].token == distinct_tokens(list)[i]);
        }
    }
}

/// Behind a token, the candidates that go on with it are left, each under its
/// label; the token followed by what is left of one is what was left before.
pub proof fn law_narrowed(candidates: Seq<Entry>, token: Seq<char>)
    ensures
        ({
            let found = matching(candidates, token);
            let left = narrowed(candidates, found, token.len() as int);
            &&& left.len() == found.len()
            &&& forall|k: int|
                0 <= k < left.len() ==> (#[trigger] left[k]).label == candidates[found[k]].label
                    && token + left[k].suffix == candidates[found[k]].suffix
        }),
{
    let found = matching(candidates, token);
    let left = narrowed(candidates, found, token.len() as int);
    law_matching(candidates, token);
    assert forall|k: int| 0 <= k < left.len() implies (#[trigger] left[k]).label
        == candidates[found[k]].label && token + left[k].suffix == candidates[found[k]].suffix by {
        let whole = candidates[found[k]].suffix;
        assert(token.is_prefix_of(whole));
        assert(token + whole.skip(token.len() as int) =~= whole) by {
            assert forall|i: int| 0 <= i < token.len() implies token[i] == whole[i] by {
                assert(token[i] == whole.subrange(0, token.len() as int)[i]);
            }
        }
    }
}

} // verus!
