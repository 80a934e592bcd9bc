//! What the scores would be if numbers were exact.
//!
//! Which real numbers the computed ones stand for is left open, as long as
//! products and sums of numbers stand for products and sums. The scores of a
//! walk are then shown to stand for what the probabilities of the tokens say
//! they should be.

use vstd::prelude::*;

use crate::binary64::{Binary64, ONE_BITS};
use crate::candidate::suffixes;
use crate::chat::{alternatives_in, token_call, Alternative, ChatResponse};
use crate::classify::Matter;
use crate::error::Failure;
use crate::formula::Term;
use crate::outcome::{place_outcome, room, walk_outcome, World};
use crate::scoring::{child, measures, merged, next_move, Move, Open, Place, Rules};
use crate::tokens::{groups_of, law_matching, law_narrowed, matching, Group};

verus! {

/// The sum of real numbers.
pub open spec fn total(list: Seq<real>) -> real
    decreases list.len(),
{
    if list.len() == 0 {
        0 as real
    } else {
        total(list.drop_last()) + list.last()
    }
}

/// Which real numbers a computed number stands for, and the probability that a
/// log probability stands for.
///
/// A computed number may stand for several: two exact results can be rounded to
/// the same one.
pub struct Sense {
    pub stands: spec_fn(Binary64, real) -> bool,
    pub exp: spec_fn(Binary64) -> real,
}

/// The tokens that the model could write at a place, with their log
/// probabilities; none where its reply does not tell.
pub open spec fn groups_at(w: World, rules: Rules, place: Place, count: nat) -> Seq<Group> {
    let call = token_call(
        rules.model,
        rules.prompt,
        place.generated,
        rules.top_logprobs,
        suffixes(place.candidates),
    );
    match w.alternatives(count, call) {
        Ok(list) => groups_of(list),
        Err(_) => seq![],
    }
}

/// The place behind a token that leaves several candidates, as if the way there
/// were certain.
pub open spec fn behind(place: Place, token: Seq<char>) -> Place {
    child(place, token, matching(place.candidates, token), Binary64 { bits: ONE_BITS })
}

/// How many requests were made when the first `n` tokens of a place have been
/// gone through, where `count` were made before the first of them.
pub open spec fn asked_before(
    w: World,
    rules: Rules,
    place: Place,
    groups: Seq<Group>,
    count: nat,
    n: nat,
) -> nat
    decreases n,
{
    if n == 0 {
        count
    } else {
        let token = groups[n - 1].token;
        let earlier = asked_before(w, rules, place, groups, count, (n - 1) as nat);
        match next_move(rules, place, token) {
            Move::Descend(_) => match place_outcome(w, rules, behind(place, token), earlier) {
                Ok((_, later)) => later,
                Err(_) => earlier,
            },
            _ => earlier,
        }
    }
}

impl Sense {
    /// The computed number `x` stands for `r`.
    pub open spec fn means(self, x: Binary64, r: real) -> bool {
        (self.stands)(x, r)
    }

    /// Computed numbers stand for real ones, each for the one at its position.
    pub open spec fn mean(self, xs: Seq<Binary64>, rs: Seq<real>) -> bool {
        &&& xs.len() == rs.len()
        &&& forall|i: int| 0 <= i < xs.len() ==> self.means(#[trigger] xs[i], rs[i])
    }

    /// The probability that log probabilities add up to.
    pub open spec fn probability(self, logprobs: Seq<Binary64>) -> real {
        total(logprobs.map_values(|x: Binary64| (self.exp)(x)))
    }

    /// The arithmetic of `w` keeps what numbers stand for: a sum of
    /// exponentials stands for the sum of the probabilities, a product for the
    /// product, and a sum for the sum.
    pub open spec fn kept_by(self, w: World) -> bool {
        &&& forall|xs: Seq<Binary64>|
            self.means(#[trigger] (w.value)(Term::ExpSum(xs)), self.probability(xs))
        &&& forall|a: Binary64, b: Binary64, r: real, s: real| #[trigger]
            self.means(a, r) && #[trigger] self.means(b, s) ==> self.means(
                #[trigger] (w.value)(Term::Product(a, b)),
                r * s,
            )
        &&& forall|xs: Seq<Binary64>, rs: Seq<real>| #[trigger]
            self.mean(xs, rs) ==> self.means((w.value)(Term::Sum(xs)), total(rs))
    }

    /// The score that the candidate at position `k` of a place should have if
    /// the way there were certain: the sum, over the tokens that the model
    /// could write, of what each of them brings.
    pub open spec fn exact_score(
        self,
        w: World,
        rules: Rules,
        place: Place,
        count: nat,
        k: int,
    ) -> real
        decreases room(rules, place.depth), 2nat,
    {
        total(
            self.exact_parts(w, rules, place, groups_at(w, rules, place, count), count + 1, k),
        )
    }

    /// What each token brings to the candidate at position `k`: the probability
    /// of the token times the share of it that goes to the candidate.
    pub open spec fn exact_parts(
        self,
        w: World,
        rules: Rules,
        place: Place,
        groups: Seq<Group>,
        count: nat,
        k: int,
    ) -> Seq<real>
        decreases room(rules, place.depth), 1nat,
    {
        Seq::new(
            groups.len(),
            |i: int|
                self.probability(groups[i].logprobs) * self.exact_share(
                    w,
                    rules,
                    place,
                    groups[i].token,
                    asked_before(w, rules, place, groups, count, i as nat),
                    k,
                ),
        )
    }

    /// The share of a token that goes to the candidate at position `k`: nothing
    /// if the token is empty or the candidate does not go on with it, all of it
    /// if it is the only one that does, and otherwise the score that the
    /// candidate should have behind the token.
    pub open spec fn exact_share(
        self,
        w: World,
        rules: Rules,
        place: Place,
        token: Seq<char>,
        count: nat,
        k: int,
    ) -> real
        decreases room(rules, place.depth), 0nat,
    {
        let found = matching(place.candidates, token);
        if token.len() == 0 || !token.is_prefix_of(place.candidates[k].suffix) {
            0 as real
        } else if found.len() == 1 {
            1 as real
        } else if place.depth + 1 < rules.max_tokens {
            self.exact_score(w, rules, behind(place, token), count, found.index_of(k))
        } else {
            0 as real
        }
    }
}

/// Two places that differ in nothing but how probable the way there is.
pub open spec fn alike(a: Place, b: Place) -> bool {
    a.candidates == b.candidates && a.generated == b.generated && a.depth == b.depth
}

/// Two outcomes after equally many requests, or with the same failure.
pub open spec fn equally_far(
    a: Result<(Seq<Binary64>, nat), Failure>,
    b: Result<(Seq<Binary64>, nat), Failure>,
) -> bool {
    match (a, b) {
        (Ok(x), Ok(y)) => x.1 == y.1,
        (Err(x), Err(y)) => x == y,
        _ => false,
    }
}

/// How probable the way to a place is makes no difference to whether it has
/// scores, and after how many requests.
pub proof fn lemma_place_alike(w: World, rules: Rules, a: Place, b: Place, count: nat)
    requires
        alike(a, b),
    ensures
        equally_far(place_outcome(w, rules, a, count), place_outcome(w, rules, b, count)),
    decreases room(rules, a.depth), 1nat, 0nat,
{
    let groups = groups_at(w, rules, a, count);
    let tokens = groups.map_values(|group: Group| group.token);
    let probabilities = w.values(
        groups.map_values(|group: Group| Term::ExpSum(group.logprobs)),
    );
    let first = w.values(measures(a.weight, rules.mass_tolerance, probabilities));
    let second = w.values(measures(b.weight, rules.mass_tolerance, probabilities));
    assert(first[0] == second[0] && first[1] == second[1]);
    lemma_walk_alike(
        w,
        rules,
        Open::fresh(a, tokens, first.skip(2)),
        Open::fresh(b, tokens, second.skip(2)),
        count + 1,
    );
}

/// The same for a place whose tokens are being gone through.
proof fn lemma_walk_alike(w: World, rules: Rules, a: Open, b: Open, count: nat)
    requires
        alike(a.place, b.place),
        a.tokens == b.tokens,
        a.next == b.next,
    ensures
        equally_far(walk_outcome(w, rules, a, count), walk_outcome(w, rules, b, count)),
    decreases room(rules, a.place.depth), 0nat, a.tokens.len() - a.next,
{
    if a.next < a.tokens.len() {
        let token = a.tokens[a.next as int];
        match next_move(rules, a.place, token) {
            Move::Skip => {
                lemma_walk_alike(w, rules, a.skipped(), b.skipped(), count);
            },
            Move::Credit(position) => {
                lemma_walk_alike(w, rules, a.credited(position), b.credited(position), count);
            },
            Move::Stuck => {},
            Move::Descend(positions) => {
                let first = child(a.place, token, positions, a.branches[a.next as int]);
                let second = child(b.place, token, positions, b.branches[b.next as int]);
                lemma_place_alike(w, rules, first, second, count);
                match (
                    place_outcome(w, rules, first, count),
                    place_outcome(w, rules, second, count),
                ) {
                    (Ok(x), Ok(y)) => {
                        lemma_walk_alike(
                            w,
                            rules,
                            a.left(positions).returned(x.0),
                            b.left(positions).returned(y.0),
                            x.1,
                        );
                    },
                    _ => {},
                }
            },
        }
    }
}

/// How probable the way to a place is makes no difference to how many requests
/// its tokens take.
proof fn lemma_asked_alike(
    w: World,
    rules: Rules,
    a: Place,
    b: Place,
    groups: Seq<Group>,
    count: nat,
    n: nat,
)
    requires
        alike(a, b),
    ensures
        asked_before(w, rules, a, groups, count, n) == asked_before(w, rules, b, groups, count, n),
    decreases n,
{
    if n > 0 {
        lemma_asked_alike(w, rules, a, b, groups, count, (n - 1) as nat);
    }
}

/// A sum with one more number.
proof fn lemma_total_push(list: Seq<real>, x: real)
    ensures
        total(list.push(x)) == total(list) + x,
{
    assert(list.push(x).drop_last() =~= list);
}

/// A token of which a candidate gets nothing adds nothing.
proof fn lemma_no_share(path: real, p: real, share: real)
    requires
        share == 0 as real,
    ensures
        (path * p) * share == 0 as real,
{
    assert((path * p) * share == 0 as real) by (nonlinear_arith)
        requires
            share == 0 as real,
    ;
}

/// A token of which a candidate gets all adds its probability.
proof fn lemma_whole_share(path: real, p: real, share: real)
    requires
        share == 1 as real,
    ensures
        (path * p) * share == path * p,
{
    assert((path * p) * share == path * p) by (nonlinear_arith)
        requires
            share == 1 as real,
    ;
}

/// What the scores of the candidates that were followed do to the credits.
pub proof fn lemma_merged_at(
    credits: Seq<Seq<Binary64>>,
    positions: Seq<int>,
    scores: Seq<Binary64>,
)
    requires
        scores.len() == positions.len(),
        forall|j: int| 0 <= j < positions.len() ==> 0 <= #[trigger] positions[j] < credits.len(),
        forall|i: int, j: int|
            0 <= i < j < positions.len() ==> #[trigger] positions[i] < #[trigger] positions[j],
    ensures
        merged(credits, positions, scores).len() == credits.len(),
        forall|j: int|
            0 <= j < positions.len() ==> merged(credits, positions, scores)[#[trigger] positions[j]]
                == credits[positions[j]].push(scores[j]),
        forall|k: int|
            0 <= k < credits.len() && !positions.contains(k) ==> #[trigger] merged(
                credits,
                positions,
                scores,
            )[k] == credits[k],
    decreases positions.len(),
{
    if positions.len() > 0 {
        let front = positions.drop_last();
        let last = positions.len() - 1;
        let earlier = merged(credits, front, scores.drop_last());
        let now = merged(credits, positions, scores);
        assert(forall|j: int| 0 <= j < front.len() ==> front[j] == positions[j]);
        lemma_merged_at(credits, front, scores.drop_last());
        assert(positions.last() == positions[last]);
        assert(!front.contains(positions[last]));
        assert forall|j: int| 0 <= j < positions.len() implies now[#[trigger] positions[j]]
            == credits[positions[j]].push(scores[j]) by {
            if j < last {
                assert(front[j] == positions[j]);
                assert(positions[j] < positions[last]);
            }
        }
        assert forall|k: int| 0 <= k < credits.len() && !positions.contains(k) implies
            #[trigger] now[k] == credits[k] by {
            assert(positions.contains(positions[last]));
            assert(!front.contains(k)) by {
                if front.contains(k) {
                    let j = choose|j: int| 0 <= j < front.len() && front[j] == k;
                    assert(positions[j] == k);
                }
            }
        }
    }
}

impl Sense {
    /// How probable the way to a place is makes no difference to the score that
    /// a candidate should have if it were certain.
    proof fn lemma_score_alike(
        self,
        w: World,
        rules: Rules,
        a: Place,
        b: Place,
        count: nat,
        k: int,
    )
        requires
            alike(a, b),
        ensures
            self.exact_score(w, rules, a, count, k) == self.exact_score(w, rules, b, count, k),
    {
        let groups = groups_at(w, rules, a, count);
        let first = self.exact_parts(w, rules, a, groups, count + 1, k);
        let second = self.exact_parts(w, rules, b, groups, count + 1, k);
        assert forall|i: int| 0 <= i < groups.len() implies first[i] == second[i] by {
            lemma_asked_alike(w, rules, a, b, groups, count + 1, i as nat);
            assert(behind(a, groups[i].token) == behind(b, groups[i].token));
        }
        assert(first =~= second);
    }

    /// Going on with the tokens of a place: what the candidates are credited
    /// with stands for the tokens so far, and so their scores stand for all.
    proof fn lemma_walk_exact(
        self,
        w: World,
        rules: Rules,
        open: Open,
        groups: Seq<Group>,
        start: nat,
        path: real,
        sums: Seq<Seq<real>>,
    )
        requires
            self.kept_by(w),
            open.well_formed(),
            open.tokens == groups.map_values(|group: Group| group.token),
            forall|i: int|
                0 <= i < groups.len() ==> self.means(
                    #[trigger] open.branches[i],
                    path * self.probability(groups[i].logprobs),
                ),
            sums.len() == open.credits.len(),
            forall|k: int|
                0 <= k < sums.len() ==> self.mean(open.credits[k], #[trigger] sums[k]) && total(
                    sums[k],
                ) == path * total(
                    self.exact_parts(w, rules, open.place, groups, start, k).take(
                        open.next as int,
                    ),
                ),
        ensures
            walk_outcome(
                w,
                rules,
                open,
                asked_before(w, rules, open.place, groups, start, open.next),
            ) matches Ok((scores, _)) ==> scores.len() == open.place.candidates.len() && forall|
                k: int,
            |
                0 <= k < scores.len() ==> self.means(
                    #[trigger] scores[k],
                    path * total(self.exact_parts(w, rules, open.place, groups, start, k)),
                ),
        decreases room(rules, open.place.depth), 0nat, open.tokens.len() - open.next,
    {
        let place = open.place;
        let n = open.next as int;
        let count = asked_before(w, rules, place, groups, start, open.next);
        if n >= open.tokens.len() {
            let scores = walk_outcome(w, rules, open, count)->Ok_0.0;
            assert forall|k: int| 0 <= k < scores.len() implies self.means(
                #[trigger] scores[k],
                path * total(self.exact_parts(w, rules, place, groups, start, k)),
            ) by {
                let parts = self.exact_parts(w, rules, place, groups, start, k);
                assert(parts.take(n) =~= parts);
                assert(self.mean(open.credits[k], sums[k]));
            }
        } else {
            let token = open.tokens[n];
            let p = self.probability(groups[n].logprobs);
            let share = |k: int| self.exact_share(w, rules, place, token, count, k);
            let after = asked_before(w, rules, place, groups, start, (n + 1) as nat);
            assert(token == groups[n].token);
            law_matching(place.candidates, token);
            let found = matching(place.candidates, token);
            assert forall|k: int| 0 <= k < sums.len() implies #[trigger] found.contains(k)
                == token.is_prefix_of(place.candidates[k].suffix) by {
                if found.contains(k) {
                    let j = choose|j: int| 0 <= j < found.len() && found[j] == k;
                    assert(token.is_prefix_of(place.candidates[found[j]].suffix));
                }
            }
            match next_move(rules, place, token) {
                Move::Skip => {
                    assert forall|k: int| 0 <= k < sums.len() implies self.mean(
                        open.credits[k],
                        #[trigger] sums[k],
                    ) && total(sums[k]) == path * total(
                        self.exact_parts(w, rules, place, groups, start, k).take(n + 1),
                    ) by {
                        assert(found.contains(k) == token.is_prefix_of(
                            place.candidates[k].suffix,
                        ));
                        assert(share(k) == 0 as real);
                        self.lemma_next_part(w, rules, place, groups, start, k, n, path);
                        lemma_no_share(path, p, share(k));
                    }
                    self.lemma_walk_exact(w, rules, open.skipped(), groups, start, path, sums);
                },
                Move::Credit(position) => {
                    let next = open.credited(position);
                    let more = sums.update(position, sums[position].push(path * p));
                    assert(found[0] == position);
                    assert forall|k: int| 0 <= k < more.len() implies self.mean(
                        next.credits[k],
                        #[trigger] more[k],
                    ) && total(more[k]) == path * total(
                        self.exact_parts(w, rules, place, groups, start, k).take(n + 1),
                    ) by {
                        assert(self.mean(open.credits[k], sums[k]));
                        assert(found.contains(k) == token.is_prefix_of(
                            place.candidates[k].suffix,
                        ));
                        self.lemma_next_part(w, rules, place, groups, start, k, n, path);
                        if k == position {
                            assert(found.contains(k));
                            assert(share(k) == 1 as real);
                            lemma_whole_share(path, p, share(k));
                            lemma_total_push(sums[k], path * p);
                            assert(self.means(open.branches[n], path * p));
                        } else {
                            assert(!found.contains(k));
                            assert(share(k) == 0 as real);
                            lemma_no_share(path, p, share(k));
                        }
                    }
                    self.lemma_walk_exact(w, rules, next, groups, start, path, more);
                },
                Move::Stuck => {},
                Move::Descend(positions) => {
                    let inner = child(place, token, positions, open.branches[n]);
                    let certain = behind(place, token);
                    lemma_place_alike(w, rules, inner, certain, count);
                    self.law_exact_scores(w, rules, inner, count, path * p);
                    match place_outcome(w, rules, inner, count) {
                        Err(_) => {},
                        Ok((scores, later)) => {
                            assert(after == later);
                            let next = open.left(positions).returned(scores);
                            lemma_merged_at(open.credits, positions, scores);
                            let more = Seq::new(
                                sums.len(),
                                |k: int|
                                    if positions.contains(k) {
                                        sums[k].push((path * p) * share(k))
                                    } else {
                                        sums[k]
                                    },
                            );
                            assert forall|k: int| 0 <= k < more.len() implies self.mean(
                                next.credits[k],
                                #[trigger] more[k],
                            ) && total(more[k]) == path * total(
                                self.exact_parts(w, rules, place, groups, start, k).take(n + 1),
                            ) by {
                                assert(self.mean(open.credits[k], sums[k]));
                                assert(found.contains(k) == token.is_prefix_of(
                                    place.candidates[k].suffix,
                                ));
                                self.lemma_next_part(w, rules, place, groups, start, k, n, path);
                                if positions.contains(k) {
                                    let j = positions.index_of(k);
                                    assert(0 <= j < positions.len() && positions[j] == k);
                                    self.lemma_score_alike(w, rules, inner, certain, count, j);
                                    assert(share(k) == self.exact_score(
                                        w,
                                        rules,
                                        inner,
                                        count,
                                        j,
                                    ));
                                    assert(self.means(scores[j], (path * p) * share(k)));
                                    assert(next.credits[positions[j]]
                                        == open.credits[positions[j]].push(scores[j]));
                                    lemma_total_push(sums[k], (path * p) * share(k));
                                } else {
                                    assert(share(k) == 0 as real);
                                    lemma_no_share(path, p, share(k));
                                }
                            }
                            assert(next.well_formed());
                            self.lemma_walk_exact(w, rules, next, groups, start, path, more);
                        },
                    }
                },
            }
        }
    }

    /// The sum of what the tokens bring, with one token more.
    proof fn lemma_next_part(
        self,
        w: World,
        rules: Rules,
        place: Place,
        groups: Seq<Group>,
        start: nat,
        k: int,
        n: int,
        path: real,
    )
        requires
            0 <= n < groups.len(),
        ensures
            path * total(self.exact_parts(w, rules, place, groups, start, k).take(n + 1)) == path
                * total(self.exact_parts(w, rules, place, groups, start, k).take(n)) + (path
                * self.probability(groups[n].logprobs)) * self.exact_share(
                w,
                rules,
                place,
                groups[n].token,
                asked_before(w, rules, place, groups, start, n as nat),
                k,
            ),
    {
        let parts = self.exact_parts(w, rules, place, groups, start, k);
        let p = self.probability(groups[n].logprobs);
        let share = self.exact_share(
            w,
            rules,
            place,
            groups[n].token,
            asked_before(w, rules, place, groups, start, n as nat),
            k,
        );
        let sum = total(parts.take(n));
        assert(parts.take(n + 1) =~= parts.take(n).push(parts[n]));
        lemma_total_push(parts.take(n), parts[n]);
        assert(parts[n] == p * share);
        assert(path * (sum + p * share) == path * sum + (path * p) * share) by (nonlinear_arith);
    }

    /// Where the arithmetic keeps what numbers stand for, each score of a place
    /// stands for how probable the way there is, times the sum over the
    /// distinct tokens that the model could write next of the token's
    /// probability times the candidate's share of it. The share is nothing if
    /// the token is empty or the candidate does not go on with it, all if it
    /// alone does, and otherwise the candidate's exact score behind the token.
    pub proof fn law_exact_scores(
        self,
        w: World,
        rules: Rules,
        place: Place,
        count: nat,
        path: real,
    )
        requires
            self.kept_by(w),
            self.means(place.weight, path),
        ensures
            place_outcome(w, rules, place, count) matches Ok((scores, _)) ==> scores.len()
                == place.candidates.len() && forall|k: int|
                0 <= k < scores.len() ==> self.means(
                    #[trigger] scores[k],
                    path * self.exact_score(w, rules, place, count, k),
                ),
        decreases room(rules, place.depth), 1nat, 0nat,
    {
        let groups = groups_at(w, rules, place, count);
        let tokens = groups.map_values(|group: Group| group.token);
        let probabilities = w.values(
            groups.map_values(|group: Group| Term::ExpSum(group.logprobs)),
        );
        let values = w.values(measures(place.weight, rules.mass_tolerance, probabilities));
        let open = Open::fresh(place, tokens, values.skip(2));
        let sums = Seq::new(place.candidates.len(), |k: int| Seq::<real>::empty());
        assert forall|i: int| 0 <= i < groups.len() implies self.means(
            #[trigger] open.branches[i],
            path * self.probability(groups[i].logprobs),
        ) by {
            assert(probabilities[i] == (w.value)(Term::ExpSum(groups[i].logprobs)));
            assert(self.means(probabilities[i], self.probability(groups[i].logprobs)));
            assert(open.branches[i] == (w.value)(Term::Product(place.weight, probabilities[i])));
        }
        assert forall|k: int| 0 <= k < sums.len() implies self.mean(
            open.credits[k],
            #[trigger] sums[k],
        ) && total(sums[k]) == path * total(
            self.exact_parts(w, rules, place, groups, count + 1, k).take(0),
        ) by {
            assert(path * (0 as real) == 0 as real) by (nonlinear_arith);
        }
        self.lemma_walk_exact(w, rules, open, groups, count + 1, path, sums);
    }
}

/// Numbers divided by their sum.
pub open spec fn normalized(list: Seq<real>) -> Seq<real> {
    list.map_values(|r: real| r / total(list))
}

/// Numbers divided by their sum add up to one.
pub proof fn law_normalized(list: Seq<real>)
    requires
        total(list) != 0 as real,
    ensures
        total(normalized(list)) == 1 as real,
{
    let whole = total(list);
    lemma_total_divided(list, whole);
    assert(whole / whole == 1 as real) by (nonlinear_arith)
        requires
            whole != 0 as real,
    ;
}

/// A sum of quotients is the quotient of the sum.
proof fn lemma_total_divided(list: Seq<real>, whole: real)
    requires
        whole != 0 as real,
    ensures
        total(list.map_values(|r: real| r / whole)) == total(list) / whole,
    decreases list.len(),
{
    let divided = list.map_values(|r: real| r / whole);
    if list.len() == 0 {
        assert((0 as real) / whole == 0 as real) by (nonlinear_arith)
            requires
                whole != 0 as real,
        ;
    } else {
        let front = list.drop_last();
        lemma_total_divided(front, whole);
        assert(divided.drop_last() =~= front.map_values(|r: real| r / whole));
        let a = total(front);
        let b = list.last();
        assert(a / whole + b / whole == (a + b) / whole) by (nonlinear_arith)
            requires
                whole != 0 as real,
        ;
    }
}

impl Sense {
    /// The arithmetic of `w` keeps what numbers stand for in divisions too, but
    /// for those by zero.
    pub open spec fn kept_in_quotients_by(self, w: World) -> bool {
        forall|a: Binary64, b: Binary64, r: real, s: real| #[trigger]
            self.means(a, r) && #[trigger] self.means(b, s) && s != 0 as real ==> self.means(
                #[trigger] (w.value)(Term::Quotient(a, b)),
                r / s,
            )
    }

    /// The scores that the options of a matter should have, given what the
    /// model thought.
    pub open spec fn exact_scores(
        self,
        w: World,
        matter: Matter,
        reasoning: Seq<char>,
    ) -> Seq<real> {
        Seq::new(
            matter.options.len(),
            |k: int|
                self.exact_score(
                    w,
                    matter.rules(reasoning),
                    matter.walk(reasoning).stage->Asking_0,
                    0,
                    k,
                ),
        )
    }

    /// Where the arithmetic keeps what numbers stand for, the probabilities in
    /// a response stand for the exact scores of the options divided by their
    /// sum, which add up to one; but for scores that add up to zero.
    pub proof fn law_exact_probabilities(self, w: World, matter: Matter)
        requires
            self.kept_by(w),
            self.kept_in_quotients_by(w),
            self.means(Binary64 { bits: ONE_BITS }, 1 as real),
        ensures
            match (matter.outcome(w), w.thoughts(matter.reasoning_call())) {
                (Ok(verdict), Ok(reasoning)) => {
                    let scores = self.exact_scores(w, matter, reasoning);
                    total(scores) != 0 as real ==> {
                        &&& verdict.candidate_probabilities.len() == scores.len()
                        &&& forall|i: int|
                            0 <= i < scores.len() ==> self.means(
                                (#[trigger] verdict.candidate_probabilities[i]).1,
                                normalized(scores)[i],
                            )
                        &&& total(normalized(scores)) == 1 as real
                    }
                },
                (Ok(_), Err(_)) => false,
                (Err(_), _) => true,
            },
    {
        match w.thoughts(matter.reasoning_call()) {
            Err(_) => {},
            Ok(reasoning) => {
                let rules = matter.rules(reasoning);
                let place = matter.walk(reasoning).stage->Asking_0;
                let exact = self.exact_scores(w, matter, reasoning);
                self.law_exact_scores(w, rules, place, 0, 1 as real);
                match place_outcome(w, rules, place, 0) {
                    Err(_) => {},
                    Ok((scores, requests)) => {
                        assert forall|k: int| 0 <= k < scores.len() implies self.means(
                            #[trigger] scores[k],
                            exact[k],
                        ) by {
                            let r = self.exact_score(w, rules, place, 0, k);
                            assert((1 as real) * r == r) by (nonlinear_arith);
                        }
                        assert(self.mean(scores, exact));
                        if total(exact) != 0 as real {
                            law_normalized(exact);
                        }
                    },
                }
            },
        }
    }
}

impl Sense {
    /// The exact score of a candidate is the sum, over the distinct tokens of
    /// the reply at its place, of the exponentials of all log probabilities of
    /// the token times the candidate's share of it.
    pub proof fn law_exact_sum(
        self,
        w: World,
        rules: Rules,
        place: Place,
        count: nat,
        k: int,
        response: ChatResponse,
        list: Seq<Alternative>,
    )
        requires
            (w.continuation)(
                count,
                token_call(
                    rules.model,
                    rules.prompt,
                    place.generated,
                    rules.top_logprobs,
                    Seq::new(place.candidates.len(), |i: int| place.candidates[i].suffix),
                ),
            ) == Ok::<ChatResponse, Failure>(response),
            alternatives_in(response) == Ok::<Seq<Alternative>, Failure>(list),
        ensures
            self.exact_score(w, rules, place, count, k) == total(
                Seq::new(
                    groups_of(list).len(),
                    |i: int|
                        total(
                            Seq::new(
                                groups_of(list)[i].logprobs.len(),
                                |j: int| (self.exp)(groups_of(list)[i].logprobs[j]),
                            ),
                        ) * self.exact_share(
                            w,
                            rules,
                            place,
                            groups_of(list)[i].token,
                            asked_before(w, rules, place, groups_of(list), count + 1, i as nat),
                            k,
                        ),
                ),
            ),
    {
        assert(suffixes(place.candidates) =~= Seq::new(
            place.candidates.len(),
            |i: int| place.candidates[i].suffix,
        ));
        let groups = groups_of(list);
        let parts = self.exact_parts(w, rules, place, groups, count + 1, k);
        let goal = Seq::new(
            groups_of(list).len(),
            |i: int|
                total(
                    Seq::new(
                        groups_of(list)[i].logprobs.len(),
                        |j: int| (self.exp)(groups_of(list)[i].logprobs[j]),
                    ),
                ) * self.exact_share(
                    w,
                    rules,
                    place,
                    groups_of(list)[i].token,
                    asked_before(w, rules, place, groups_of(list), count + 1, i as nat),
                    k,
                ),
        );
        assert forall|i: int| 0 <= i < groups.len() implies parts[i] == goal[i] by {
            let logprobs = groups[i].logprobs;
            assert(logprobs.map_values(|x: Binary64| (self.exp)(x)) =~= Seq::new(
                groups_of(list)[i].logprobs.len(),
                |j: int| (self.exp)(groups_of(list)[i].logprobs[j]),
            ));
        }
        assert(parts =~= goal);
    }

    /// A candidate has no share of an empty token and of one that it does not
    /// go on with; all of a token that it goes on with and no other candidate
    /// does; and of a token that another one goes on with too, its exact score
    /// behind the token, at the position where it stands there.
    pub proof fn law_exact_share(
        self,
        w: World,
        rules: Rules,
        place: Place,
        token: Seq<char>,
        count: nat,
        k: int,
    )
        requires
            0 <= k < place.candidates.len(),
        ensures
            ({
                let share = self.exact_share(w, rules, place, token, count, k);
                let mine = token.is_prefix_of(place.candidates[k].suffix);
                let alone = forall|other: int|
                    0 <= other < place.candidates.len() && other != k ==> !token.is_prefix_of(
                        (#[trigger] place.candidates[other]).suffix,
                    );
                &&& token.len() == 0 || !mine ==> share == 0 as real
                &&& token.len() > 0 && mine && alone ==> share == 1 as real
                &&& token.len() > 0 && mine && !alone && place.depth + 1 < rules.max_tokens
                    ==> exists|j: int|
                    {
                        &&& 0 <= j < behind(place, token).candidates.len()
                        &&& behind(place, token).candidates[j].label == place.candidates[k].label
                        &&& token + behind(place, token).candidates[j].suffix
                            == place.candidates[k].suffix
                        &&& share == #[trigger] self.exact_score(
                            w,
                            rules,
                            behind(place, token),
                            count,
                            j,
                        )
                    }
            }),
    {
        let found = matching(place.candidates, token);
        law_matching(place.candidates, token);
        law_narrowed(place.candidates, token);
        if token.len() > 0 && token.is_prefix_of(place.candidates[k].suffix) {
            assert(place.candidates[k].suffix == place.candidates[k].suffix);
            assert(found.contains(k));
            let j = found.index_of(k);
            assert(0 <= j < found.len() && found[j] == k);
            let alone = forall|other: int|
                0 <= other < place.candidates.len() && other != k ==> !token.is_prefix_of(
                    (#[trigger] place.candidates[other]).suffix,
                );
            if alone {
                if found.len() > 1 {
                    let i: int = if j == 0 {
                        1
                    } else {
                        0
                    };
                    assert(found[i] != found[j]);
                    assert(token.is_prefix_of(place.candidates[found[i]].suffix));
                }
            } else {
                let other = choose|other: int|
                    0 <= other < place.candidates.len() && other != k && token.is_prefix_of(
                        (#[trigger] place.candidates[other]).suffix,
                    );
                assert(place.candidates[other].suffix == place.candidates[other].suffix);
                assert(found.contains(other));
                let i = choose|i: int| 0 <= i < found.len() && found[i] == other;
                assert(i != j);
                if place.depth + 1 < rules.max_tokens {
                    assert(behind(place, token).candidates[j].label == place.candidates[k].label);
                    assert(self.exact_share(w, rules, place, token, count, k) == self.exact_score(
                        w,
                        rules,
                        behind(place, token),
                        count,
                        j,
                    ));
                }
            }
        }
    }
}

} // verus!
