//! When a place of a walk has scores, and why it has none.

use vstd::prelude::*;

use crate::binary64::Binary64;
use crate::candidate::suffixes;
use crate::chat::{alternatives_in, token_call, Alternative, ChatResponse};
use crate::coherence::law_place_outcome;
use crate::error::Failure;
use crate::exact::{asked_before, behind, lemma_merged_at, lemma_place_alike};
use crate::formula::Term;
use crate::outcome::{place_outcome, walk_outcome, World};
use crate::scoring::{child, measures, next_move, Move, Open, Place, Rules};
use crate::text::{debug_form, decimal_digits};
use crate::tokens::{groups_of, law_matching, law_narrowed, matching, Group};

verus! {

/// The place behind a token: the token is said, one token more is spent, and
/// the candidates that go on with the token are left, each under its label and
/// with what follows the token.
pub proof fn law_behind(place: Place, token: Seq<char>)
    ensures
        ({
            let next = behind(place, token);
            &&& next.generated == place.generated + token
            &&& next.depth == place.depth + 1
            &&& next.weight.bits == 0x3FF0_0000_0000_0000
            &&& forall|k: int|
                0 <= k < next.candidates.len() ==> exists|p: int|
                    0 <= p < place.candidates.len() && (#[trigger] place.candidates[p]).label == (
                    #[trigger] next.candidates[k]).label && place.candidates[p].suffix == token
                        + next.candidates[k].suffix
            &&& forall|p: int|
                0 <= p < place.candidates.len() && token.is_prefix_of(
                    (#[trigger] place.candidates[p]).suffix,
                ) ==> exists|k: int|
                    0 <= k < next.candidates.len() && (#[trigger] next.candidates[k]).label
                        == place.candidates[p].label && token + next.candidates[k].suffix
                        == place.candidates[p].suffix
            &&& next.candidates.len() <= place.candidates.len()
        }),
{
    let next = behind(place, token);
    let found = matching(place.candidates, token);
    law_matching(place.candidates, token);
    law_narrowed(place.candidates, token);
    assert forall|k: int| 0 <= k < next.candidates.len() implies exists|p: int|
        0 <= p < place.candidates.len() && (#[trigger] place.candidates[p]).label == (
        #[trigger] next.candidates[k]).label && place.candidates[p].suffix == token
            + next.candidates[k].suffix by {
        assert(place.candidates[found[k]].label == next.candidates[k].label);
    }
    assert forall|p: int|
        0 <= p < place.candidates.len() && token.is_prefix_of(
            (#[trigger] place.candidates[p]).suffix,
        ) implies exists|k: int|
        0 <= k < next.candidates.len() && (#[trigger] next.candidates[k]).label
            == place.candidates[p].label && token + next.candidates[k].suffix
            == place.candidates[p].suffix by {
        assert(place.candidates[p].suffix == place.candidates[p].suffix);
        assert(found.contains(p));
        let k = choose|k: int| 0 <= k < found.len() && found[k] == p;
        assert(next.candidates[k].label == place.candidates[p].label);
    }
    lemma_ascending_fits(found, place.candidates.len() as int);
}

/// Ascending positions within a range are no more than fit there.
proof fn lemma_ascending_fits(list: Seq<int>, n: int)
    requires
        0 <= n,
        forall|k: int| 0 <= k < list.len() ==> 0 <= #[trigger] list[k] < n,
        forall|j: int, k: int| 0 <= j < k < list.len() ==> #[trigger] list[j] < #[trigger] list[k],
    ensures
        list.len() <= n,
    decreases list.len(),
{
    if list.len() > 0 {
        let front = list.drop_last();
        let last = list[list.len() - 1];
        assert forall|k: int| 0 <= k < front.len() implies 0 <= #[trigger] front[k] < last by {
            assert(front[k] == list[k]);
        }
        lemma_ascending_fits(front, last);
    }
}

/// Before its first token a place has spent no request on tokens; a token that
/// leaves several candidates, where one more may be spent, is followed at the
/// cost of the place behind it, and any other token costs nothing.
pub proof fn law_asked_before(
    w: World,
    rules: Rules,
    place: Place,
    groups: Seq<Group>,
    count: nat,
    n: nat,
)
    ensures
        asked_before(w, rules, place, groups, count, 0) == count,
        ({
            let token = groups[n as int].token;
            let here = asked_before(w, rules, place, groups, count, n);
            let next = asked_before(w, rules, place, groups, count, n + 1);
            if token.len() > 0 && matching(place.candidates, token).len() >= 2 && place.depth + 1
                < rules.max_tokens {
                place_outcome(w, rules, behind(place, token), here) matches Ok((_, later)) ==> next
                    == later
            } else {
                next == here
            }
        }),
{
}

/// Why a token leaves a place without scores, if it does: it leaves several
/// candidates, and no more tokens may be spent or the place behind it has no
/// scores.
spec fn hindrance(
    w: World,
    rules: Rules,
    place: Place,
    groups: Seq<Group>,
    start: nat,
    i: int,
) -> Option<Failure> {
    let token = groups[i].token;
    if token.len() == 0 || matching(place.candidates, token).len() < 2 {
        None
    } else if place.depth + 1 >= rules.max_tokens {
        Some(
            Failure::Upstream(
                "prefix "@ + debug_form(place.generated + token) + " is still ambiguous after "@
                    + decimal_digits(rules.max_tokens as nat) + " tokens; increase max_tokens"@,
            ),
        )
    } else {
        match place_outcome(
            w,
            rules,
            behind(place, token),
            asked_before(w, rules, place, groups, start, i as nat),
        ) {
            Ok(_) => None,
            Err(failure) => Some(failure),
        }
    }
}

/// What going on with the tokens of a place comes to.
proof fn lemma_walk_followed(w: World, rules: Rules, open: Open, groups: Seq<Group>, start: nat)
    requires
        open.tokens == groups.map_values(|group: Group| group.token),
        open.next <= groups.len(),
    ensures
        ({
            let out = walk_outcome(
                w,
                rules,
                open,
                asked_before(w, rules, open.place, groups, start, open.next),
            );
            &&& (forall|i: int|
                open.next <= i < groups.len() ==> #[trigger] hindrance(
                    w,
                    rules,
                    open.place,
                    groups,
                    start,
                    i,
                ) is None) ==> (out matches Ok((_, last)) && last == asked_before(
                w,
                rules,
                open.place,
                groups,
                start,
                groups.len(),
            ))
            &&& forall|i: int|
                open.next <= i < groups.len() && (#[trigger] hindrance(
                    w,
                    rules,
                    open.place,
                    groups,
                    start,
                    i,
                ) is Some) && (forall|j: int|
                    open.next <= j < i ==> #[trigger] hindrance(
                        w,
                        rules,
                        open.place,
                        groups,
                        start,
                        j,
                    ) is None) ==> out == Err::<(Seq<Binary64>, nat), Failure>(
                    hindrance(w, rules, open.place, groups, start, i)->0,
                )
        }),
    decreases groups.len() - open.next,
{
    let place = open.place;
    let n = open.next as int;
    let count = asked_before(w, rules, place, groups, start, open.next);
    if n < groups.len() {
        let token = open.tokens[n];
        assert(token == groups[n].token);
        let here = hindrance(w, rules, place, groups, start, n);
        match next_move(rules, place, token) {
            Move::Skip => {
                assert(here is None);
                lemma_walk_followed(w, rules, open.skipped(), groups, start);
            },
            Move::Credit(position) => {
                assert(here is None);
                lemma_walk_followed(w, rules, open.credited(position), groups, start);
            },
            Move::Stuck => {
                assert(here is Some);
            },
            Move::Descend(positions) => {
                let inner = child(place, token, positions, open.branches[n]);
                lemma_place_alike(w, rules, inner, behind(place, token), count);
                match place_outcome(w, rules, inner, count) {
                    Err(_) => {
                        assert(here is Some);
                    },
                    Ok((scores, later)) => {
                        assert(here is None);
                        assert(later == asked_before(
                            w,
                            rules,
                            place,
                            groups,
                            start,
                            open.next + 1,
                        ));
                        lemma_walk_followed(
                            w,
                            rules,
                            open.left(positions).returned(scores),
                            groups,
                            start,
                        );
                    },
                }
            },
        }
    }
}

/// The first of some positions with a property.
proof fn lemma_first(flags: Seq<bool>, at: int) -> (first: int)
    requires
        0 <= at < flags.len(),
        flags[at],
    ensures
        0 <= first <= at,
        flags[first],
        forall|j: int| 0 <= j < first ==> !#[trigger] flags[j],
    decreases at,
{
    if exists|j: int| 0 <= j < at && #[trigger] flags[j] {
        let j = choose|j: int| 0 <= j < at && #[trigger] flags[j];
        lemma_first(flags, j)
    } else {
        at
    }
}

/// At every place, whatever its depth, the model is asked how it goes on after
/// what was generated, held to what is left of the candidates. Without a reply,
/// or with one that does not tell the alternatives, the place has that failure.
/// Where the probabilities of the tokens add up to less than one minus the
/// tolerance, the place has no scores, and the failure names the sum and the
/// text so far.
pub proof fn law_place_mass(w: World, rules: Rules, place: Place, count: nat)
    ensures
        ({
            let call = token_call(
                rules.model,
                rules.prompt,
                place.generated,
                rules.top_logprobs,
                Seq::new(place.candidates.len(), |k: int| place.candidates[k].suffix),
            );
            let out = place_outcome(w, rules, place, count);
            match (w.continuation)(count, call) {
                Err(failure) => out == Err::<(Seq<Binary64>, nat), Failure>(failure),
                Ok(response) => match alternatives_in(response) {
                    Err(failure) => out == Err::<(Seq<Binary64>, nat), Failure>(failure),
                    Ok(list) => {
                        let mass = (w.value)(
                            Term::Sum(
                                Seq::new(
                                    groups_of(list).len(),
                                    |i: int| (w.value)(Term::ExpSum(groups_of(list)[i].logprobs)),
                                ),
                            ),
                        );
                        let least = (w.value)(Term::Complement(rules.mass_tolerance));
                        &&& out is Ok ==> !mass.below(least)
                        &&& mass.below(least) ==> out == Err::<(Seq<Binary64>, nat), Failure>(
                            Failure::Upstream(
                                "top_logprobs covered only "@ + (w.described)(mass)
                                    + " probability mass at prefix "@ + debug_form(place.generated)
                                    + "; increase top_logprobs"@,
                            ),
                        )
                    },
                },
            }
        }),
{
    lemma_left(place);
    let call = token_call(
        rules.model,
        rules.prompt,
        place.generated,
        rules.top_logprobs,
        suffixes(place.candidates),
    );
    match w.alternatives(count, call) {
        Ok(list) => {
            lemma_probabilities(w, rules, place, list);
        },
        Err(_) => {},
    }
}

/// What is left of the candidates of a place.
proof fn lemma_left(place: Place)
    ensures
        suffixes(place.candidates) == Seq::new(
            place.candidates.len(),
            |k: int| place.candidates[k].suffix,
        ),
{
    assert(suffixes(place.candidates) =~= Seq::new(
        place.candidates.len(),
        |k: int| place.candidates[k].suffix,
    ));
}

/// The probabilities of the tokens of a place, and what they must reach.
proof fn lemma_probabilities(w: World, rules: Rules, place: Place, list: Seq<Alternative>)
    ensures
        ({
            let groups = groups_of(list);
            let probabilities = w.values(
                groups.map_values(|group: Group| Term::ExpSum(group.logprobs)),
            );
            let values = w.values(measures(place.weight, rules.mass_tolerance, probabilities));
            &&& probabilities == Seq::new(
                groups.len(),
                |i: int| (w.value)(Term::ExpSum(groups_of(list)[i].logprobs)),
            )
            &&& values[0] == (w.value)(Term::Sum(probabilities))
            &&& values[1] == (w.value)(Term::Complement(rules.mass_tolerance))
        }),
{
    let groups = groups_of(list);
    let probabilities = w.values(groups.map_values(|group: Group| Term::ExpSum(group.logprobs)));
    assert(probabilities =~= Seq::new(
        groups.len(),
        |i: int| (w.value)(Term::ExpSum(groups_of(list)[i].logprobs)),
    ));
}

/// A place whose tokens are probable enough has scores exactly if no token
/// leaves several candidates where no more tokens may be spent, and every place
/// behind a token that leaves several has scores. It makes one request, and
/// those of the places behind its tokens. Otherwise the first token that stands
/// in the way gives its failure: that the text so far is still ambiguous, or
/// the failure of the place behind it.
pub proof fn law_place_followed(
    w: World,
    rules: Rules,
    place: Place,
    count: nat,
    response: ChatResponse,
    list: Seq<Alternative>,
)
    requires
        (w.continuation)(
            count,
            token_call(
                rules.model,
                rules.prompt,
                place.generated,
                rules.top_logprobs,
                Seq::new(place.candidates.len(), |k: int| place.candidates[k].suffix),
            ),
        ) == Ok::<ChatResponse, Failure>(response),
        alternatives_in(response) == Ok::<Seq<Alternative>, Failure>(list),
        !(w.value)(
            Term::Sum(
                Seq::new(
                    groups_of(list).len(),
                    |i: int| (w.value)(Term::ExpSum(groups_of(list)[i].logprobs)),
                ),
            ),
        ).below((w.value)(Term::Complement(rules.mass_tolerance))),
    ensures
        ({
            let groups = groups_of(list);
            let out = place_outcome(w, rules, place, count);
            let several = |i: int|
                groups[i].token.len() > 0 && matching(place.candidates, groups[i].token).len() >= 2;
            let inner = |i: int|
                place_outcome(
                    w,
                    rules,
                    behind(place, groups[i].token),
                    asked_before(w, rules, place, groups, count + 1, i as nat),
                );
            let passed = |i: int|
                several(i) ==> place.depth + 1 < rules.max_tokens && inner(i) is Ok;
            &&& out is Ok <==> forall|i: int| 0 <= i < groups.len() ==> #[trigger] passed(i)
            &&& out matches Ok((_, last)) ==> last == asked_before(
                w,
                rules,
                place,
                groups,
                count + 1,
                groups.len(),
            )
            &&& forall|i: int|
                0 <= i < groups.len() && !(#[trigger] passed(i)) && (forall|j: int|
                    0 <= j < i ==> #[trigger] passed(j)) ==> if place.depth + 1
                    < rules.max_tokens {
                    inner(i) matches Err(failure) && out == Err::<(Seq<Binary64>, nat), Failure>(
                        failure,
                    )
                } else {
                    out == Err::<(Seq<Binary64>, nat), Failure>(
                        Failure::Upstream(
                            "prefix "@ + debug_form(place.generated + groups[i].token)
                                + " is still ambiguous after "@ + decimal_digits(
                                rules.max_tokens as nat,
                            ) + " tokens; increase max_tokens"@,
                        ),
                    )
                }
        }),
{
    lemma_left(place);
    lemma_probabilities(w, rules, place, list);
    let groups = groups_of(list);
    let tokens = groups.map_values(|group: Group| group.token);
    let probabilities = w.values(groups.map_values(|group: Group| Term::ExpSum(group.logprobs)));
    let values = w.values(measures(place.weight, rules.mass_tolerance, probabilities));
    let open = Open::fresh(place, tokens, values.skip(2));
    let start = count + 1;
    lemma_walk_followed(w, rules, open, groups, start);
    let several = |i: int|
        groups[i].token.len() > 0 && matching(place.candidates, groups[i].token).len() >= 2;
    let inner = |i: int|
        place_outcome(
            w,
            rules,
            behind(place, groups[i].token),
            asked_before(w, rules, place, groups, count + 1, i as nat),
        );
    let passed = |i: int| several(i) ==> place.depth + 1 < rules.max_tokens && inner(i) is Ok;
    assert forall|i: int| 0 <= i < groups.len() implies #[trigger] passed(i) == (hindrance(
        w,
        rules,
        place,
        groups,
        start,
        i,
    ) is None) by {}
    let flags = Seq::new(
        groups.len(),
        |i: int| hindrance(w, rules, place, groups, start, i) is Some,
    );
    assert forall|i: int|
        0 <= i < groups.len() && !(#[trigger] passed(i)) && (forall|j: int|
            0 <= j < i ==> #[trigger] passed(j)) implies place_outcome(w, rules, place, count)
        == Err::<(Seq<Binary64>, nat), Failure>(
        hindrance(w, rules, place, groups, start, i)->0,
    ) by {
        assert forall|j: int| 0 <= j < i implies #[trigger] hindrance(
            w,
            rules,
            place,
            groups,
            start,
            j,
        ) is None by {
            assert(passed(j));
        }
        assert(hindrance(w, rules, place, groups, start, i) is Some);
    }
    if exists|i: int| 0 <= i < groups.len() && !(#[trigger] passed(i)) {
        let i = choose|i: int| 0 <= i < groups.len() && !(#[trigger] passed(i));
        assert(flags[i]);
        let first = lemma_first(flags, i);
        assert(flags[first]);
        assert(!passed(first));
        assert forall|j: int| 0 <= j < first implies #[trigger] passed(j) by {
            assert(!flags[j]);
        }
    } else {
        assert forall|i: int| 0 <= i < groups.len() implies #[trigger] hindrance(
            w,
            rules,
            place,
            groups,
            start,
            i,
        ) is None by {
            assert(passed(i));
        }
    }
}

/// The probability of the way through a token.
spec fn branch(w: World, place: Place, group: Group) -> Binary64 {
    (w.value)(Term::Product(place.weight, (w.value)(Term::ExpSum(group.logprobs))))
}

/// What a token adds to the credits of the candidate at position `k`.
spec fn credit(
    w: World,
    rules: Rules,
    place: Place,
    groups: Seq<Group>,
    start: nat,
    i: int,
    k: int,
) -> Seq<Binary64> {
    let token = groups[i].token;
    let found = matching(place.candidates, token);
    if token.len() == 0 || !found.contains(k) {
        seq![]
    } else if found.len() == 1 {
        seq![branch(w, place, groups[i])]
    } else {
        let inner = Place { weight: branch(w, place, groups[i]), ..behind(place, token) };
        let count = asked_before(w, rules, place, groups, start, i as nat);
        seq![place_outcome(w, rules, inner, count)->Ok_0.0[found.index_of(k)]]
    }
}

/// What the tokens of a place add to the credits of the candidate at position
/// `k`, one by one.
spec fn credits_of(
    w: World,
    rules: Rules,
    place: Place,
    groups: Seq<Group>,
    start: nat,
    k: int,
) -> Seq<Seq<Binary64>> {
    Seq::new(groups.len(), |i: int| credit(w, rules, place, groups, start, i, k))
}

/// One token more.
proof fn lemma_next_credit(
    w: World,
    rules: Rules,
    place: Place,
    groups: Seq<Group>,
    start: nat,
    k: int,
    n: int,
)
    requires
        0 <= n < groups.len(),
    ensures
        credits_of(w, rules, place, groups, start, k).take(n + 1).flatten() == credits_of(
            w,
            rules,
            place,
            groups,
            start,
            k,
        ).take(n).flatten() + credit(w, rules, place, groups, start, n, k),
{
    let all = credits_of(w, rules, place, groups, start, k);
    assert(all.take(n + 1) =~= all.take(n).push(all[n]));
    all.take(n).lemma_flatten_push(all[n]);
}

/// What the candidates have been credited with so far is what the tokens so far
/// add, and so their scores are the sums of what all tokens add.
proof fn lemma_walk_scores(w: World, rules: Rules, open: Open, groups: Seq<Group>, start: nat)
    requires
        open.well_formed(),
        open.tokens == groups.map_values(|group: Group| group.token),
        forall|i: int|
            0 <= i < groups.len() ==> #[trigger] open.branches[i] == branch(
                w,
                open.place,
                groups[i],
            ),
        forall|k: int|
            0 <= k < open.credits.len() ==> #[trigger] open.credits[k] == credits_of(
                w,
                rules,
                open.place,
                groups,
                start,
                k,
            ).take(open.next as int).flatten(),
    ensures
        walk_outcome(
            w,
            rules,
            open,
            asked_before(w, rules, open.place, groups, start, open.next),
        ) matches Ok((scores, _)) ==> scores.len() == open.place.candidates.len() && forall|k: int|
            0 <= k < scores.len() ==> #[trigger] scores[k] == (w.value)(
                Term::Sum(credits_of(w, rules, open.place, groups, start, k).flatten()),
            ),
    decreases groups.len() - open.next,
{
    let place = open.place;
    let n = open.next as int;
    let count = asked_before(w, rules, place, groups, start, open.next);
    if n >= groups.len() {
        let scores = walk_outcome(w, rules, open, count)->Ok_0.0;
        assert forall|k: int| 0 <= k < scores.len() implies #[trigger] scores[k] == (w.value)(
            Term::Sum(credits_of(w, rules, place, groups, start, k).flatten()),
        ) by {
            let all = credits_of(w, rules, place, groups, start, k);
            assert(all.take(n) =~= all);
            assert(open.credits[k] == all.flatten());
        }
    } else {
        let token = open.tokens[n];
        assert(token == groups[n].token);
        let found = matching(place.candidates, token);
        law_matching(place.candidates, token);
        let added = |k: int| credit(w, rules, place, groups, start, n, k);
        let next = match next_move(rules, place, token) {
            Move::Skip => open.skipped(),
            Move::Credit(position) => open.credited(position),
            Move::Stuck => open,
            Move::Descend(positions) => {
                let inner = child(place, token, positions, open.branches[n]);
                open.left(positions).returned(place_outcome(w, rules, inner, count)->Ok_0.0)
            },
        };
        match next_move(rules, place, token) {
            Move::Skip => {
                assert forall|k: int| 0 <= k < next.credits.len() implies
                    #[trigger] next.credits[k] == open.credits[k] + added(k) by {
                    assert(open.credits[k] + seq![] =~= open.credits[k]);
                }
            },
            Move::Credit(position) => {
                assert(found[0] == position);
                assert forall|k: int| 0 <= k < next.credits.len() implies
                    #[trigger] next.credits[k] == open.credits[k] + added(k) by {
                    if k == position {
                        assert(found.contains(k));
                        assert(open.credits[k].push(open.branches[n]) =~= open.credits[k] + seq![
                            open.branches[n],
                        ]);
                    } else {
                        assert(!found.contains(k));
                        assert(open.credits[k] + seq![] =~= open.credits[k]);
                    }
                }
            },
            Move::Stuck => {},
            Move::Descend(positions) => {
                let inner = child(place, token, positions, open.branches[n]);
                lemma_place_alike(w, rules, inner, behind(place, token), count);
                law_place_outcome(w, rules, inner, count);
                assert(inner == Place { weight: open.branches[n], ..behind(place, token) });
                if place_outcome(w, rules, inner, count) is Ok {
                    let scores = place_outcome(w, rules, inner, count)->Ok_0.0;
                    lemma_merged_at(open.credits, positions, scores);
                    assert forall|k: int| 0 <= k < next.credits.len() implies
                        #[trigger] next.credits[k] == open.credits[k] + added(k) by {
                        if found.contains(k) {
                            let j = found.index_of(k);
                            assert(0 <= j < positions.len() && positions[j] == k);
                            assert(next.credits[positions[j]] == open.credits[positions[j]].push(
                                scores[j],
                            ));
                            assert(open.credits[k].push(scores[j]) =~= open.credits[k] + seq![
                                scores[j],
                            ]);
                        } else {
                            assert(open.credits[k] + seq![] =~= open.credits[k]);
                        }
                    }
                    assert(next.well_formed());
                }
            },
        }
        if walk_outcome(w, rules, open, count) is Ok {
            assert forall|k: int| 0 <= k < next.credits.len() implies #[trigger] next.credits[k]
                == credits_of(w, rules, place, groups, start, k).take(n + 1).flatten() by {
                lemma_next_credit(w, rules, place, groups, start, k, n);
                assert(open.credits[k] == credits_of(w, rules, place, groups, start, k).take(
                    n,
                ).flatten());
            }
            lemma_walk_scores(w, rules, next, groups, start);
        }
    }
}

/// The score of each candidate of a place is the sum, token by token, of what
/// the tokens that it goes on with bring: where it is the only one, the
/// probability of the way to the place times the sum of the exponentials of the
/// token's log probabilities; and where there are others, its score at the
/// place behind the token, to which the way is as probable as that product.
pub proof fn law_place_scores(
    w: World,
    rules: Rules,
    place: Place,
    count: nat,
    response: ChatResponse,
    list: Seq<Alternative>,
)
    requires
        (w.continuation)(
            count,
            token_call(
                rules.model,
                rules.prompt,
                place.generated,
                rules.top_logprobs,
                Seq::new(place.candidates.len(), |k: int| place.candidates[k].suffix),
            ),
        ) == Ok::<ChatResponse, Failure>(response),
        alternatives_in(response) == Ok::<Seq<Alternative>, Failure>(list),
    ensures
        ({
            let groups = groups_of(list);
            let product = |i: int|
                (w.value)(
                    Term::Product(place.weight, (w.value)(Term::ExpSum(groups[i].logprobs))),
                );
            let inner = |i: int|
                place_outcome(
                    w,
                    rules,
                    Place { weight: product(i), ..behind(place, groups[i].token) },
                    asked_before(w, rules, place, groups, count + 1, i as nat),
                );
            let brought = |k: int, i: int|
                {
                    let token = groups[i].token;
                    let found = matching(place.candidates, token);
                    if token.len() == 0 || !token.is_prefix_of(place.candidates[k].suffix) {
                        Seq::<Binary64>::empty()
                    } else if found.len() == 1 {
                        seq![product(i)]
                    } else {
                        seq![inner(i)->Ok_0.0[found.index_of(k)]]
                    }
                };
            place_outcome(w, rules, place, count) matches Ok((scores, _)) ==> scores.len()
                == place.candidates.len() && forall|k: int|
                0 <= k < scores.len() ==> #[trigger] scores[k] == (w.value)(
                    Term::Sum(Seq::new(groups.len(), |i: int| brought(k, i)).flatten()),
                )
        }),
{
    lemma_left(place);
    lemma_probabilities(w, rules, place, list);
    let groups = groups_of(list);
    let tokens = groups.map_values(|group: Group| group.token);
    let probabilities = w.values(groups.map_values(|group: Group| Term::ExpSum(group.logprobs)));
    let values = w.values(measures(place.weight, rules.mass_tolerance, probabilities));
    let open = Open::fresh(place, tokens, values.skip(2));
    let start = count + 1;
    assert forall|i: int| 0 <= i < groups.len() implies #[trigger] open.branches[i] == branch(
        w,
        place,
        groups[i],
    ) by {
        assert(probabilities[i] == (w.value)(Term::ExpSum(groups[i].logprobs)));
    }
    assert forall|k: int| 0 <= k < open.credits.len() implies #[trigger] open.credits[k]
        == credits_of(w, rules, place, groups, start, k).take(0).flatten() by {
        assert(credits_of(w, rules, place, groups, start, k).take(0).flatten() =~= seq![]);
    }
    lemma_walk_scores(w, rules, open, groups, start);
    let product = |i: int|
        (w.value)(Term::Product(place.weight, (w.value)(Term::ExpSum(groups[i].logprobs))));
    let inner = |i: int|
        place_outcome(
            w,
            rules,
            Place { weight: product(i), ..behind(place, groups[i].token) },
            asked_before(w, rules, place, groups, count + 1, i as nat),
        );
    let brought = |k: int, i: int|
        {
            let token = groups[i].token;
            let found = matching(place.candidates, token);
            if token.len() == 0 || !token.is_prefix_of(place.candidates[k].suffix) {
                Seq::<Binary64>::empty()
            } else if found.len() == 1 {
                seq![product(i)]
            } else {
                seq![inner(i)->Ok_0.0[found.index_of(k)]]
            }
        };
    assert forall|k: int| 0 <= k < place.candidates.len() implies #[trigger] credits_of(
        w,
        rules,
        place,
        groups,
        start,
        k,
    ) == Seq::new(groups.len(), |i: int| brought(k, i)) by {
        let all = credits_of(w, rules, place, groups, start, k);
        assert forall|i: int| 0 <= i < groups.len() implies all[i] == brought(k, i) by {
            let found = matching(place.candidates, groups[i].token);
            law_matching(place.candidates, groups[i].token);
            assert(place.candidates[k].suffix == place.candidates[k].suffix);
            if found.contains(k) {
                let j = choose|j: int| 0 <= j < found.len() && found[j] == k;
                assert(groups[i].token.is_prefix_of(place.candidates[found[j]].suffix));
            }
        }
        assert(all =~= Seq::new(groups.len(), |i: int| brought(k, i)));
    }
}

} // verus!
